use vstd::prelude::*;

use base64::Engine;

verus! {

// ---------------------------------------------------------------------------
// Rendering file contents for the diff view: images become data URLs, text
// is decoded leniently and truncated to a byte budget.
// ---------------------------------------------------------------------------

/// The most text bytes rendered for one file.
pub const GIT_FILE_TEXT_MAX_BYTES: usize = 2_000_000;

/// The largest image embedded as a data URL.
pub const GIT_FILE_IMAGE_MAX_BYTES: usize = 10_000_000;

/// What the standard base64 encoding of a byte string is.  The result
/// depends on the bytes alone.
pub uninterp spec fn b64_of(bytes: Seq<u8>) -> Seq<char>;

/// Relies on the base64 crate's STANDARD engine encode: four output
/// characters for every started group of three input bytes, padded.
#[verifier::external_body]
fn b64_encode(bytes: &Vec<u8>) -> (r: String)
    ensures
        r@ == b64_of(bytes@),
        r@.len() == 4 * ((bytes@.len() + 2) / 3),
{
    base64::engine::general_purpose::STANDARD.encode(bytes)
}

/// What the lenient UTF-8 decoding of a byte string is.  The result depends
/// on the bytes alone.
pub uninterp spec fn utf8_lossy_of(bytes: Seq<u8>) -> Seq<char>;

/// Relies on String::from_utf8_lossy: decodes UTF-8, replacing invalid
/// sequences; an empty input gives an empty string.
#[verifier::external_body]
fn utf8_lossy(bytes: &Vec<u8>) -> (r: String)
    ensures
        r@ == utf8_lossy_of(bytes@),
        bytes@.len() == 0 ==> r@.len() == 0,
{
    String::from_utf8_lossy(bytes).into_owned()
}

/// Copy a prefix of a byte vector.
fn bytes_prefix(v: &Vec<u8>, n: usize) -> (r: Vec<u8>)
    requires
        n <= v@.len(),
    ensures
        r@ == v@.take(n as int),
{
    let mut out: Vec<u8> = Vec::new();
    let mut i: usize = 0;
    while i < n
        invariant
            i <= n <= v@.len(),
            out@ == v@.take(i as int),
        decreases n - i,
    {
        out.push(v[i]);
        i += 1;
        proof {
            assert(out@ =~= v@.take(i as int));
        }
    }
    out
}

/// The data URL an image file is embedded as.
pub fn image_data_url(mime: &str, bytes: &Vec<u8>) -> (r: String)
    ensures
        r@ == "data:"@ + mime@ + ";base64,"@ + b64_of(bytes@),
{
    String::from_str("data:").concat(mime).concat(";base64,").concat(b64_encode(bytes).as_str())
}

/// What rendering an image payload yields: an empty or oversized payload
/// renders as nothing; anything else as a data URL.
pub open spec fn spec_render_image(mime: Seq<char>, bytes: Seq<u8>) -> Seq<char> {
    if bytes.len() == 0 || bytes.len() > GIT_FILE_IMAGE_MAX_BYTES {
        Seq::<char>::empty()
    } else {
        "data:"@ + mime + ";base64,"@ + b64_of(bytes)
    }
}

/// Render an image payload for the diff view.
pub fn render_image_payload(mime: &str, bytes: &Vec<u8>) -> (r: String)
    ensures
        r@ == spec_render_image(mime@, bytes@),
{
    if bytes.len() == 0 || bytes.len() > GIT_FILE_IMAGE_MAX_BYTES {
        let r = String::new();
        proof {
            assert(r@ =~= Seq::<char>::empty());
        }
        r
    } else {
        image_data_url(mime, bytes)
    }
}

/// What rendering a text payload yields: an empty payload renders as
/// nothing; an oversized one is decoded up to the budget with a truncation
/// marker appended; anything else is decoded whole.
pub open spec fn spec_render_text(bytes: Seq<u8>) -> Seq<char> {
    if bytes.len() == 0 {
        Seq::<char>::empty()
    } else if bytes.len() > GIT_FILE_TEXT_MAX_BYTES {
        utf8_lossy_of(bytes.take(GIT_FILE_TEXT_MAX_BYTES as int)) + "\n\u{2026}(truncated)\n"@
    } else {
        utf8_lossy_of(bytes)
    }
}

/// Render a text payload for the diff view.
pub fn render_text_payload(bytes: &Vec<u8>) -> (r: String)
    ensures
        r@ == spec_render_text(bytes@),
{
    if bytes.len() == 0 {
        let r = String::new();
        proof {
            assert(r@ =~= Seq::<char>::empty());
        }
        r
    } else if bytes.len() > GIT_FILE_TEXT_MAX_BYTES {
        let prefix = bytes_prefix(bytes, GIT_FILE_TEXT_MAX_BYTES);
        utf8_lossy(&prefix).concat("\n\u{2026}(truncated)\n")
    } else {
        utf8_lossy(bytes)
    }
}

} // verus!
