use vstd::prelude::*;

use crate::chars::{
    digit_char, is_digit, is_space, parse_u16_digits, space_char, spec_parse_u16, chars_string,
};

verus! {

// ---------------------------------------------------------------------------
// The output-discovery protocol: the managed server is expected to print,
// somewhere in its diagnostic output, a line embedding an address of the form
// scheme://host:port[/path].  A line is scanned for the leftmost such
// occurrence; the port digits and the optional path segment are extracted.
// ---------------------------------------------------------------------------

/// A host character: anything but a colon or whitespace.
pub open spec fn is_host_char(c: char) -> bool {
    !is_space(c) && c != ':'
}

/// A path character: anything but whitespace and quote characters.
pub open spec fn is_path_char(c: char) -> bool {
    !is_space(c) && c != '"' && c != '\''
}

/// The end of a run of characters satisfying `cls`, starting at `i`.
pub open spec fn run_end(s: Seq<char>, i: int, cls: spec_fn(char) -> bool) -> int
    decreases s.len() - i
        when 0 <= i <= s.len()
{
    if i < s.len() && cls(s[i]) {
        run_end(s, i + 1, cls)
    } else {
        i
    }
}

pub proof fn lemma_run_end_is(s: Seq<char>, i: int, r: int, cls: spec_fn(char) -> bool)
    requires
        0 <= i <= r <= s.len(),
        forall|j: int| i <= j < r ==> cls(#[trigger] s[j]),
        r < s.len() ==> !cls(s[r]),
    ensures
        run_end(s, i, cls) == r,
    decreases r - i,
{
    if i < r {
        assert(cls(s[i]));
        lemma_run_end_is(s, i + 1, r, cls);
    }
}

pub proof fn lemma_run_end_bounds(s: Seq<char>, i: int, cls: spec_fn(char) -> bool)
    requires
        0 <= i <= s.len(),
    ensures
        i <= run_end(s, i, cls) <= s.len(),
    decreases s.len() - i,
{
    if i < s.len() && cls(s[i]) {
        lemma_run_end_bounds(s, i + 1, cls);
    }
}

pub open spec fn http_scheme() -> Seq<char> {
    seq!['h', 't', 't', 'p', ':', '/', '/']
}

pub open spec fn https_scheme() -> Seq<char> {
    seq!['h', 't', 't', 'p', 's', ':', '/', '/']
}

/// Length of the URL scheme written at position `i`, if one is there.
pub open spec fn scheme_len_at(s: Seq<char>, i: int) -> Option<int> {
    if 0 <= i && i + 8 <= s.len() && s.subrange(i, i + 8) == https_scheme() {
        Some(8int)
    } else if 0 <= i && i + 7 <= s.len() && s.subrange(i, i + 7) == http_scheme() {
        Some(7int)
    } else {
        None
    }
}

/// A URL occurrence: the digits of its port, and its path segment if present.
pub ghost struct UrlSighting {
    pub port_digits: Seq<char>,
    pub path: Option<Seq<char>>,
}

/// The URL occurrence starting exactly at position `i`, if any: a scheme,
/// a nonempty host run, a colon, a nonempty digit run, and an optional path.
pub open spec fn match_at(s: Seq<char>, i: int) -> Option<UrlSighting> {
    match scheme_len_at(s, i) {
        None => None,
        Some(k) => {
            let h0 = i + k;
            let h1 = run_end(s, h0, |c: char| is_host_char(c));
            if h1 == h0 || h1 >= s.len() || s[h1] != ':' {
                None
            } else {
                let p0 = h1 + 1;
                let p1 = run_end(s, p0, |c: char| is_digit(c));
                if p1 == p0 {
                    None
                } else {
                    Some(UrlSighting {
                        port_digits: s.subrange(p0, p1),
                        path: if p1 < s.len() && s[p1] == '/' {
                            Some(s.subrange(p1, run_end(s, p1, |c: char| is_path_char(c))))
                        } else {
                            None
                        },
                    })
                }
            }
        },
    }
}

/// The leftmost URL occurrence at or after position `i`.
pub open spec fn find_url_from(s: Seq<char>, i: int) -> Option<UrlSighting>
    decreases s.len() - i
        when 0 <= i <= s.len()
{
    if i >= s.len() {
        None
    } else if match_at(s, i) is Some {
        match_at(s, i)
    } else {
        find_url_from(s, i + 1)
    }
}

/// The leftmost URL occurrence in a line.
pub open spec fn find_url(s: Seq<char>) -> Option<UrlSighting> {
    find_url_from(s, 0)
}

/// The port a line announces: the port digits of its leftmost URL occurrence,
/// when they parse as a 16-bit number.
pub open spec fn line_port_update(s: Seq<char>) -> Option<u16> {
    match find_url(s) {
        None => None,
        Some(m) => spec_parse_u16(m.port_digits),
    }
}

/// The serving prefix a line announces: the path segment of its leftmost URL
/// occurrence, unless it is absent or the bare root.
pub open spec fn line_prefix_update(s: Seq<char>) -> Option<Seq<char>> {
    match find_url(s) {
        None => None,
        Some(m) => match m.path {
            Some(p) => if p.len() > 0 && p != seq!['/'] {
                Some(p)
            } else {
                None
            },
            None => None,
        },
    }
}

/// Check for a URL scheme written at position `i`.
fn scheme_at(v: &Vec<char>, i: usize) -> (r: Option<usize>)
    requires
        i <= v@.len(),
    ensures
        match r {
            Some(k) => scheme_len_at(v@, i as int) == Some(k as int) && (k == 7 || k == 8) && i + k
                <= v@.len(),
            None => scheme_len_at(v@, i as int) is None,
        },
{
    let n = v.len();
    if n - i < 7 {
        proof {
            assert(scheme_len_at(v@, i as int) is None);
        }
        return None;
    }
    if !(v[i] == 'h' && v[i + 1] == 't' && v[i + 2] == 't' && v[i + 3] == 'p') {
        proof {
            if i + 8 <= v@.len() && v@.subrange(i as int, i + 8) == https_scheme() {
                assert(v@.subrange(i as int, i + 8)[0] == 'h');
                assert(v@.subrange(i as int, i + 8)[1] == 't');
                assert(v@.subrange(i as int, i + 8)[2] == 't');
                assert(v@.subrange(i as int, i + 8)[3] == 'p');
            }
            if i + 7 <= v@.len() && v@.subrange(i as int, i + 7) == http_scheme() {
                assert(v@.subrange(i as int, i + 7)[0] == 'h');
                assert(v@.subrange(i as int, i + 7)[1] == 't');
                assert(v@.subrange(i as int, i + 7)[2] == 't');
                assert(v@.subrange(i as int, i + 7)[3] == 'p');
            }
        }
        return None;
    }
    if n - i >= 8 && v[i + 4] == 's' && v[i + 5] == ':' && v[i + 6] == '/' && v[i + 7] == '/' {
        proof {
            assert(v@.subrange(i as int, i + 8) =~= https_scheme());
        }
        return Some(8);
    }
    if v[i + 4] == ':' && v[i + 5] == '/' && v[i + 6] == '/' {
        proof {
            assert(v@.subrange(i as int, i + 7) =~= http_scheme());
            if i + 8 <= v@.len() && v@.subrange(i as int, i + 8) == https_scheme() {
                assert(v@.subrange(i as int, i + 8)[4] == 's');
            }
        }
        return Some(7);
    }
    proof {
        if i + 8 <= v@.len() && v@.subrange(i as int, i + 8) == https_scheme() {
            assert(v@.subrange(i as int, i + 8)[4] == 's');
            assert(v@.subrange(i as int, i + 8)[5] == ':');
            assert(v@.subrange(i as int, i + 8)[6] == '/');
            assert(v@.subrange(i as int, i + 8)[7] == '/');
        }
        if v@.subrange(i as int, i + 7) == http_scheme() {
            assert(v@.subrange(i as int, i + 7)[4] == ':');
            assert(v@.subrange(i as int, i + 7)[5] == '/');
            assert(v@.subrange(i as int, i + 7)[6] == '/');
        }
    }
    None
}

fn host_run(v: &Vec<char>, i: usize) -> (r: usize)
    requires
        i <= v@.len(),
    ensures
        r as int == run_end(v@, i as int, |c: char| is_host_char(c)),
        i <= r <= v@.len(),
{
    let n = v.len();
    let mut j: usize = i;
    while j < n && !space_char(v[j]) && v[j] != ':'
        invariant
            i <= j <= n == v@.len(),
            forall|k: int| i <= k < j ==> is_host_char(#[trigger] v@[k]),
        decreases n - j,
    {
        j += 1;
    }
    proof {
        lemma_run_end_is(v@, i as int, j as int, |c: char| is_host_char(c));
    }
    j
}

fn digit_run(v: &Vec<char>, i: usize) -> (r: usize)
    requires
        i <= v@.len(),
    ensures
        r as int == run_end(v@, i as int, |c: char| is_digit(c)),
        i <= r <= v@.len(),
{
    let n = v.len();
    let mut j: usize = i;
    while j < n && digit_char(v[j])
        invariant
            i <= j <= n == v@.len(),
            forall|k: int| i <= k < j ==> is_digit(#[trigger] v@[k]),
        decreases n - j,
    {
        j += 1;
    }
    proof {
        lemma_run_end_is(v@, i as int, j as int, |c: char| is_digit(c));
    }
    j
}

fn path_run(v: &Vec<char>, i: usize) -> (r: usize)
    requires
        i <= v@.len(),
    ensures
        r as int == run_end(v@, i as int, |c: char| is_path_char(c)),
        i <= r <= v@.len(),
{
    let n = v.len();
    let mut j: usize = i;
    while j < n && !space_char(v[j]) && v[j] != '"' && v[j] != '\''
        invariant
            i <= j <= n == v@.len(),
            forall|k: int| i <= k < j ==> is_path_char(#[trigger] v@[k]),
        decreases n - j,
    {
        j += 1;
    }
    proof {
        lemma_run_end_is(v@, i as int, j as int, |c: char| is_path_char(c));
    }
    j
}

/// Scan one output line for an announced address.  Returns the port update
/// and the prefix update that the line induces, if any.
pub fn scan_line(v: &Vec<char>) -> (r: (Option<u16>, Option<String>))
    ensures
        r.0 == line_port_update(v@),
        match r.1 {
            Some(p) => line_prefix_update(v@) == Some(p@),
            None => line_prefix_update(v@) is None,
        },
{
    let n = v.len();
    let mut i: usize = 0;
    while i < n
        invariant
            i <= n == v@.len(),
            forall|j: int| 0 <= j < i ==> match_at(v@, j) is None,
        decreases n - i,
    {
        let m = try_match(v, i);
        match m {
            Some((p0, p1, path_range)) => {
                proof {
                    lemma_find_url_prefix(v@, i as int);
                }
                let port = parse_u16_digits(v, p0, p1);
                let prefix: Option<String> = match path_range {
                    Some((q0, q1)) => {
                        if q1 - q0 > 1 {
                            let mut pv: Vec<char> = Vec::new();
                            let mut k: usize = q0;
                            while k < q1
                                invariant
                                    q0 <= k <= q1 <= v@.len(),
                                    pv@ == v@.subrange(q0 as int, k as int),
                                decreases q1 - k,
                            {
                                pv.push(v[k]);
                                k += 1;
                                proof {
                                    assert(pv@ =~= v@.subrange(q0 as int, k as int));
                                }
                            }
                            proof {
                                let p = v@.subrange(q0 as int, q1 as int);
                                assert(p.len() > 1);
                                if p == seq!['/'] {
                                    assert(p.len() == 1);
                                }
                            }
                            Some(chars_string(&pv))
                        } else {
                            proof {
                                let p = v@.subrange(q0 as int, q1 as int);
                                assert(p[0] == '/');
                                assert(p =~= seq!['/']);
                            }
                            None
                        }
                    },
                    None => None,
                };
                return (port, prefix);
            },
            None => {
                i += 1;
            },
        }
    }
    proof {
        lemma_find_url_none(v@, 0);
    }
    (None, None)
}

proof fn lemma_find_url_prefix(s: Seq<char>, i: int)
    requires
        0 <= i <= s.len(),
        forall|j: int| 0 <= j < i ==> match_at(s, j) is None,
    ensures
        find_url(s) == find_url_from(s, i),
    decreases i,
{
    if i > 0 {
        lemma_find_url_prefix(s, i - 1);
    }
}

proof fn lemma_find_url_none(s: Seq<char>, i: int)
    requires
        0 <= i <= s.len(),
        forall|j: int| i <= j < s.len() ==> match_at(s, j) is None,
    ensures
        find_url_from(s, i) is None,
    decreases s.len() - i,
{
    if i < s.len() {
        lemma_find_url_none(s, i + 1);
    }
}

/// Attempt a URL match starting exactly at position `i`: returns the port
/// digit range and the path range, mirroring `match_at`.
fn try_match(v: &Vec<char>, i: usize) -> (r: Option<(usize, usize, Option<(usize, usize)>)>)
    requires
        i <= v@.len(),
    ensures
        match r {
            Some((p0, p1, pr)) => {
                &&& i <= p0 < p1 <= v@.len()
                &&& match_at(v@, i as int) matches Some(m)
                &&& m.port_digits == v@.subrange(p0 as int, p1 as int)
                &&& (match pr {
                    Some((q0, q1)) => q0 < q1 <= v@.len() && m.path == Some(
                        v@.subrange(q0 as int, q1 as int),
                    ) && v@[q0 as int] == '/',
                    None => m.path is None,
                })
            },
            None => match_at(v@, i as int) is None,
        },
{
    let n = v.len();
    let scheme = scheme_at(v, i);
    match scheme {
        None => None,
        Some(k) => {
            let h0 = i + k;
            let h1 = host_run(v, h0);
            if h1 == h0 || h1 >= v.len() || !(v[h1] == ':') {
                return None;
            }
            let p0 = h1 + 1;
            let p1 = digit_run(v, p0);
            if p1 == p0 {
                return None;
            }
            let pr: Option<(usize, usize)> = if p1 < v.len() && v[p1] == '/' {
                let q1 = path_run(v, p1);
                proof {
                    let cls = |c: char| is_path_char(c);
                    assert(cls(v@[p1 as int]));
                    assert(run_end(v@, p1 as int, cls) > p1 as int) by {
                        assert(run_end(v@, p1 as int, cls) == run_end(v@, p1 as int + 1, cls));
                        lemma_run_end_bounds(v@, p1 as int + 1, cls);
                    }
                }
                Some((p1, q1))
            } else {
                None
            };
            Some((p0, p1, pr))
        },
    }
}

} // verus!
