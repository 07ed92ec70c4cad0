use vstd::prelude::*;

use crate::chars::{
    ascii_lower_char, chars_range_string, chars_string, digit_char, is_digit, is_space,
    lemma_nonspace_end_is, lower_chars, nonspace_end, parse_i32_digits, space_char,
    spec_parse_i32, spec_trim, str_chars, trim_chars,
};
use crate::scan::run_end;
use crate::chars::trim_string;
use crate::strutil::{
    chars_contain, chars_start_with, contains_seq, contains_string, find_sub, find_sub_chars,
    join_strings, join_with, lemma_sep_end_is, sep_end, split_sub, split_sub_from, spec_split,
    split_string, starts_with, str_eq, string_starts_with,
};

verus! {

// ---------------------------------------------------------------------------
// The records the version-control commands exchange with the UI.
// ---------------------------------------------------------------------------

#[derive(Debug, Clone, PartialEq)]
pub struct GitStatusFile {
    pub path: String,
    pub index: String,
    pub working_dir: String,
}

#[derive(Debug, Clone, Copy, PartialEq)]
pub struct DiffStat {
    pub insertions: i32,
    pub deletions: i32,
}

#[derive(Debug, Clone, PartialEq)]
pub struct GitStatus {
    pub current: String,
    pub tracking: Option<String>,
    pub ahead: i32,
    pub behind: i32,
    pub files: Vec<GitStatusFile>,
    pub is_clean: bool,
    pub diff_stats: Option<Vec<(String, DiffStat)>>,
}

#[derive(Debug, Clone, PartialEq)]
pub struct GitBranchDetails {
    pub current: bool,
    pub name: String,
    pub commit: String,
    pub label: String,
    pub tracking: Option<String>,
    pub ahead: Option<i32>,
    pub behind: Option<i32>,
}

#[derive(Debug, Clone, PartialEq)]
pub struct GitBranch {
    pub all: Vec<String>,
    pub current: String,
    pub branches: Vec<(String, GitBranchDetails)>,
}

#[derive(Debug, Clone, PartialEq)]
pub struct GitCommitSummary {
    pub changes: i32,
    pub insertions: i32,
    pub deletions: i32,
}

#[derive(Debug, Clone, PartialEq)]
pub struct GitCommitResult {
    pub success: bool,
    pub commit: String,
    pub branch: String,
    pub summary: GitCommitSummary,
}

#[derive(Debug, Clone, PartialEq)]
pub struct GitPushRef {
    pub local: String,
    pub remote: String,
}

#[derive(Debug, Clone, PartialEq)]
pub struct GitPushResult {
    pub success: bool,
    pub pushed: Vec<GitPushRef>,
    pub repo: String,
    pub ref_: Option<String>,
}

#[derive(Debug, Clone, PartialEq)]
pub struct GitPullResult {
    pub success: bool,
    pub summary: GitCommitSummary,
    pub files: Vec<String>,
    pub insertions: i32,
    pub deletions: i32,
}

#[derive(Debug, PartialEq)]
pub struct GitIdentityProfile {
    pub id: String,
    pub name: String,
    pub user_name: String,
    pub user_email: String,
    pub ssh_key: Option<String>,
    pub color: Option<String>,
    pub icon: Option<String>,
}

impl Clone for GitIdentityProfile {
    /// A clone carries exactly the same fields.
    fn clone(&self) -> (r: Self)
        ensures
            r == *self,
    {
        GitIdentityProfile {
            id: self.id.clone(),
            name: self.name.clone(),
            user_name: self.user_name.clone(),
            user_email: self.user_email.clone(),
            ssh_key: clone_opt_string(&self.ssh_key),
            color: clone_opt_string(&self.color),
            icon: clone_opt_string(&self.icon),
        }
    }
}

/// Clone an optional string, field for field.
pub fn clone_opt_string(v: &Option<String>) -> (r: Option<String>)
    ensures
        r == *v,
{
    match v {
        Some(s) => Some(s.clone()),
        None => None,
    }
}

#[derive(Debug, Clone, PartialEq)]
pub struct GitIdentityProfilesWrapper {
    pub profiles: Vec<GitIdentityProfile>,
}

#[derive(Debug, Clone, PartialEq)]
pub struct GitIdentitySummary {
    pub user_name: Option<String>,
    pub user_email: Option<String>,
    pub ssh_command: Option<String>,
}

#[derive(Debug, Clone, PartialEq)]
pub struct GitLogEntry {
    pub hash: String,
    pub date: String,
    pub message: String,
    pub refs: String,
    pub body: String,
    pub author_name: String,
    pub author_email: String,
    pub files_changed: i32,
    pub insertions: i32,
    pub deletions: i32,
}

#[derive(Debug, Clone, PartialEq)]
pub struct GitLogResponse {
    pub all: Vec<GitLogEntry>,
    pub latest: Option<GitLogEntry>,
    pub total: i32,
}

#[derive(Debug, Clone, PartialEq)]
pub struct GitWorktreeInfo {
    pub worktree: String,
    pub head: Option<String>,
    pub branch: Option<String>,
}

#[derive(Debug, Clone, PartialEq)]
pub struct GeneratedCommitMessage {
    pub subject: String,
    pub highlights: Vec<String>,
}

#[derive(Debug, Clone, PartialEq)]
pub struct CommitFileEntry {
    pub path: String,
    pub insertions: i32,
    pub deletions: i32,
    pub is_binary: bool,
    pub change_type: String,
}

#[derive(Debug, Clone, PartialEq)]
pub struct GitCommitFilesResponse {
    pub files: Vec<CommitFileEntry>,
}

#[derive(Debug, Clone, PartialEq)]
pub struct CommitMessageResponse {
    pub message: GeneratedCommitMessage,
}

// ---------------------------------------------------------------------------
// Shortstat parsing.
// ---------------------------------------------------------------------------

pub open spec fn spec_parse_i32_or_zero(s: Seq<char>) -> i32 {
    match spec_parse_i32(s) {
        Some(v) => v,
        None => 0,
    }
}

/// The first whitespace-separated word of a token.
pub open spec fn first_word(t: Seq<char>) -> Seq<char> {
    t.subrange(0, nonspace_end(t, 0))
}

/// What one comma-separated token of a shortstat line contributes: the
/// count before `file changed`, `insertion` or `deletion` lands in the
/// matching field; anything else is ignored.
pub open spec fn apply_token(sum: GitCommitSummary, part: Seq<char>) -> GitCommitSummary {
    let tok = spec_trim(part);
    if tok.len() == 0 {
        sum
    } else if contains_seq(tok, "file changed"@) {
        GitCommitSummary { changes: spec_parse_i32_or_zero(first_word(tok)), ..sum }
    } else if contains_seq(tok, "insertion"@) {
        GitCommitSummary { insertions: spec_parse_i32_or_zero(first_word(tok)), ..sum }
    } else if contains_seq(tok, "deletion"@) {
        GitCommitSummary { deletions: spec_parse_i32_or_zero(first_word(tok)), ..sum }
    } else {
        sum
    }
}

pub open spec fn apply_parts(sum: GitCommitSummary, parts: Seq<Seq<char>>) -> GitCommitSummary
    decreases parts.len(),
{
    if parts.len() == 0 {
        sum
    } else {
        apply_parts(apply_token(sum, parts[0]), parts.drop_first())
    }
}

/// What one output line contributes: a blank line is skipped; any other is
/// taken apart at commas.
pub open spec fn apply_line(sum: GitCommitSummary, line: Seq<char>) -> GitCommitSummary {
    let t = spec_trim(line);
    if t.len() == 0 {
        sum
    } else {
        apply_parts(sum, spec_split(t, ','))
    }
}

pub open spec fn apply_lines(sum: GitCommitSummary, lines: Seq<Seq<char>>) -> GitCommitSummary
    decreases lines.len(),
{
    if lines.len() == 0 {
        sum
    } else {
        apply_lines(apply_line(sum, lines[0]), lines.drop_first())
    }
}

/// What parsing a whole shortstat output yields.
pub open spec fn spec_parse_shortstat(out: Seq<char>) -> GitCommitSummary {
    apply_lines(
        GitCommitSummary { changes: 0, insertions: 0, deletions: 0 },
        spec_split(out, '\n'),
    )
}

/// Parse the counters out of a `--shortstat` output.
#[verifier::loop_isolation(false)]
pub fn parse_shortstat(output: &str) -> (r: GitCommitSummary)
    ensures
        r == spec_parse_shortstat(output@),
{
    let needle_fc = str_chars("file changed");
    let needle_ins = str_chars("insertion");
    let needle_del = str_chars("deletion");
    let lines = split_string(output, '\n');
    let mut sum = GitCommitSummary { changes: 0, insertions: 0, deletions: 0 };
    proof {
        assert(lines.deep_view().skip(0) =~= lines.deep_view());
    }
    let mut i: usize = 0;
    while i < lines.len()
        invariant
            i <= lines@.len(),
            apply_lines(sum, lines.deep_view().skip(i as int)) == spec_parse_shortstat(output@),
        decreases lines@.len() - i,
    {
        proof {
            assert(lines.deep_view().skip(i as int)[0] == lines.deep_view()[i as int]);
            assert(lines.deep_view().skip(i as int).drop_first() =~= lines.deep_view().skip(
                i + 1,
            ));
        }
        let ghost sum0 = sum;
        let ghost lv = lines.deep_view()[i as int];
        let cs = str_chars(lines[i].as_str());
        proof {
            assert(cs@ == lv);
            assert(cs@.subrange(0, cs@.len() as int) =~= cs@);
        }
        let (a, b) = trim_chars(&cs, 0, cs.len());
        if a != b {
            // the line is not blank: walk its comma-separated parts
            let ghost t = spec_trim(lv);
            let parts = {
                let trimmed = chars_range_string(&cs, a, b);
                split_string(trimmed.as_str(), ',')
            };
            proof {
                assert(parts.deep_view().skip(0) =~= parts.deep_view());
            }
            let mut j: usize = 0;
            while j < parts.len()
                invariant
                    j <= parts@.len(),
                    parts.deep_view() == spec_split(t, ','),
                    apply_parts(sum, parts.deep_view().skip(j as int)) == apply_parts(
                        sum0,
                        spec_split(t, ','),
                    ),
                decreases parts@.len() - j,
            {
                proof {
                    assert(parts.deep_view().skip(j as int)[0] == parts.deep_view()[j as int]);
                    assert(parts.deep_view().skip(j as int).drop_first()
                        =~= parts.deep_view().skip(j + 1));
                }
                let ghost part = parts.deep_view()[j as int];
                let ghost sum_before = sum;
                let pcs = str_chars(parts[j].as_str());
                proof {
                    assert(pcs@ == part);
                    assert(pcs@.subrange(0, pcs@.len() as int) =~= pcs@);
                }
                let (pa, pb) = trim_chars(&pcs, 0, pcs.len());
                let ghost tok = spec_trim(part);
                if pa != pb {
                    // find the first word of the trimmed token
                    let mut w: usize = pa;
                    while w < pb && !space_char(pcs[w])
                        invariant
                            pa <= w <= pb <= pcs@.len(),
                            forall|k: int| pa <= k < w ==> !is_space(#[trigger] pcs@[k]),
                        decreases pb - w,
                    {
                        w += 1;
                    }
                    proof {
                        assert(tok == pcs@.subrange(pa as int, pb as int));
                        assert forall|k: int| 0 <= k < w - pa implies !is_space(
                            #[trigger] tok[k],
                        ) by {
                            assert(tok[k] == pcs@[pa + k]);
                        }
                        if w < pb {
                            assert(tok[w - pa as int] == pcs@[w as int]);
                        }
                        lemma_nonspace_end_is(tok, 0, w - pa as int);
                        assert(first_word(tok) =~= pcs@.subrange(pa as int, w as int));
                    }
                    let value = parse_i32_digits(&pcs, pa, w);
                    let n: i32 = match value {
                        Some(v) => v,
                        None => 0,
                    };
                    if chars_contain(&pcs, pa, pb, &needle_fc) {
                        sum = GitCommitSummary { changes: n, ..sum };
                    } else if chars_contain(&pcs, pa, pb, &needle_ins) {
                        sum = GitCommitSummary { insertions: n, ..sum };
                    } else if chars_contain(&pcs, pa, pb, &needle_del) {
                        sum = GitCommitSummary { deletions: n, ..sum };
                    }
                }
                proof {
                    assert(sum == apply_token(sum_before, part));
                }
                j += 1;
            }
            proof {
                assert(parts.deep_view().skip(parts.deep_view().len() as int)
                    =~= Seq::<Seq<char>>::empty());
            }
        }
        proof {
            assert(apply_line(sum0, lv) == sum);
        }
        i += 1;
    }
    proof {
        assert(lines.deep_view().skip(lines.deep_view().len() as int)
            =~= Seq::<Seq<char>>::empty());
    }
    sum
}

// ---------------------------------------------------------------------------
// File classification and payload capping for the diff views.
// ---------------------------------------------------------------------------

/// How large a payload the UI transport is trusted with.
pub const GIT_FILE_IPC_MAX_CHARS: usize = 600_000;

/// The lower-cased extension of a path: everything after the last dot.
pub open spec fn spec_lower_ext(s: Seq<char>) -> Seq<char> {
    spec_split(s, '.').last().map_values(|c: char| ascii_lower_char(c))
}

fn lower_ext(path: &str) -> (r: String)
    ensures
        r@ == spec_lower_ext(path@),
{
    let segs = split_string(path, '.');
    let last = &segs[segs.len() - 1];
    proof {
        assert(segs.deep_view().last() == segs.deep_view()[segs.deep_view().len() - 1]);
    }
    let cs = str_chars(last.as_str());
    let n = cs.len();
    proof {
        assert(cs@.subrange(0, n as int) =~= cs@);
    }
    let low = lower_chars(&cs, 0, n);
    chars_string(&low)
}

/// Whether a path names an image, by its lower-cased extension.
pub open spec fn spec_is_image_file(s: Seq<char>) -> bool {
    let e = spec_lower_ext(s);
    e == "png"@ || e == "jpg"@ || e == "jpeg"@ || e == "gif"@ || e == "svg"@ || e == "webp"@
        || e == "ico"@ || e == "bmp"@ || e == "avif"@
}

pub fn is_image_file(path: &str) -> (r: bool)
    ensures
        r == spec_is_image_file(path@),
{
    let e = lower_ext(path);
    e == String::from_str("png") || e == String::from_str("jpg") || e == String::from_str("jpeg")
        || e == String::from_str("gif") || e == String::from_str("svg") || e == String::from_str(
        "webp",
    ) || e == String::from_str("ico") || e == String::from_str("bmp") || e == String::from_str(
        "avif",
    )
}

/// The MIME type served for an image path, by its lower-cased extension.
pub open spec fn spec_image_mime(s: Seq<char>) -> Seq<char> {
    let e = spec_lower_ext(s);
    if e == "png"@ {
        "image/png"@
    } else if e == "jpg"@ || e == "jpeg"@ {
        "image/jpeg"@
    } else if e == "gif"@ {
        "image/gif"@
    } else if e == "svg"@ {
        "image/svg+xml"@
    } else if e == "webp"@ {
        "image/webp"@
    } else if e == "ico"@ {
        "image/x-icon"@
    } else if e == "bmp"@ {
        "image/bmp"@
    } else if e == "avif"@ {
        "image/avif"@
    } else {
        "application/octet-stream"@
    }
}

pub fn get_image_mime_type(path: &str) -> (r: &'static str)
    ensures
        r@ == spec_image_mime(path@),
{
    let e = lower_ext(path);
    if e == String::from_str("png") {
        "image/png"
    } else if e == String::from_str("jpg") || e == String::from_str("jpeg") {
        "image/jpeg"
    } else if e == String::from_str("gif") {
        "image/gif"
    } else if e == String::from_str("svg") {
        "image/svg+xml"
    } else if e == String::from_str("webp") {
        "image/webp"
    } else if e == String::from_str("ico") {
        "image/x-icon"
    } else if e == String::from_str("bmp") {
        "image/bmp"
    } else if e == String::from_str("avif") {
        "image/avif"
    } else {
        "application/octet-stream"
    }
}

/// What truncating to a character budget yields: a value within the budget
/// is untouched; a longer one is cut at the budget and the suffix appended.
pub open spec fn spec_truncate_chars(v: Seq<char>, max_chars: int, suffix: Seq<char>) -> Seq<
    char,
> {
    if v.len() <= max_chars {
        v
    } else {
        v.subrange(0, max_chars) + suffix
    }
}

/// Truncate a string to at most `max_chars` characters, appending `suffix`
/// when anything was cut.
pub fn truncate_string_to_char_boundary(value: String, max_chars: usize, suffix: &str) -> (r:
    String)
    ensures
        r@ == spec_truncate_chars(value@, max_chars as int, suffix@),
{
    let n = value.as_str().unicode_len();
    if n <= max_chars {
        return value;
    }
    let cs = str_chars(value.as_str());
    let prefix = chars_range_string(&cs, 0, max_chars);
    prefix.concat(suffix)
}

/// What capping a UI payload yields: an empty value passes; a data URL is
/// kept whole or dropped entirely, since truncating it would corrupt it;
/// anything else is truncated to the budget with a marker appended.
pub open spec fn spec_cap_ipc_payload(v: Seq<char>) -> Seq<char> {
    if v.len() == 0 {
        v
    } else if starts_with(v, "data:"@) {
        if v.len() <= GIT_FILE_IPC_MAX_CHARS {
            v
        } else {
            Seq::<char>::empty()
        }
    } else {
        spec_truncate_chars(
            v,
            GIT_FILE_IPC_MAX_CHARS as int,
            "\n\u{2026}(truncated for desktop)\n"@,
        )
    }
}

/// Cap a payload handed to the UI transport.
pub fn cap_ipc_payload(value: String) -> (r: String)
    ensures
        r@ == spec_cap_ipc_payload(value@),
{
    if value.as_str().is_empty() {
        return value;
    }
    if string_starts_with(value.as_str(), "data:") {
        if value.as_str().unicode_len() <= GIT_FILE_IPC_MAX_CHARS {
            return value;
        }
        let r = String::new();
        proof {
            assert(r@ =~= Seq::<char>::empty());
        }
        return r;
    }
    truncate_string_to_char_boundary(
        value,
        GIT_FILE_IPC_MAX_CHARS,
        "\n\u{2026}(truncated for desktop)\n",
    )
}

// ---------------------------------------------------------------------------
// Path normalization for repository-relative paths.
// ---------------------------------------------------------------------------

/// Folding path segments: `..` pops, `.` and empty segments vanish, anything
/// else is kept.
pub open spec fn norm_fold(segs: Seq<Seq<char>>, acc: Seq<Seq<char>>) -> Seq<Seq<char>>
    decreases segs.len(),
{
    if segs.len() == 0 {
        acc
    } else {
        let h = segs[0];
        let acc1 = if h == ".."@ {
            if acc.len() > 0 {
                acc.drop_last()
            } else {
                acc
            }
        } else if h.len() == 0 || h == "."@ {
            acc
        } else {
            acc.push(h)
        };
        norm_fold(segs.drop_first(), acc1)
    }
}

/// What normalizing a relative path yields: its segments folded, re-joined
/// with slashes.
pub open spec fn spec_normalize_relative_path(s: Seq<char>) -> Seq<char> {
    join_with(norm_fold(spec_split(s, '/'), Seq::<Seq<char>>::empty()), '/')
}

/// Normalize a slash-separated relative path, resolving `.` and `..`
/// segments.
#[verifier::loop_isolation(false)]
pub fn normalize_relative_path(path: &str) -> (r: String)
    ensures
        r@ == spec_normalize_relative_path(path@),
{
    let segs = split_string(path, '/');
    let mut out: Vec<String> = Vec::new();
    proof {
        assert(out.deep_view() =~= Seq::<Seq<char>>::empty());
        assert(segs.deep_view().skip(0) =~= segs.deep_view());
    }
    let mut i: usize = 0;
    while i < segs.len()
        invariant
            i <= segs@.len(),
            norm_fold(segs.deep_view().skip(i as int), out.deep_view()) == norm_fold(
                segs.deep_view(),
                Seq::<Seq<char>>::empty(),
            ),
        decreases segs@.len() - i,
    {
        proof {
            assert(segs.deep_view().skip(i as int)[0] == segs.deep_view()[i as int]);
            assert(segs.deep_view().skip(i as int).drop_first() =~= segs.deep_view().skip(i + 1));
        }
        let ghost acc0 = out.deep_view();
        if segs[i] == String::from_str("..") {
            let popped = out.pop();
            proof {
                if acc0.len() > 0 {
                    assert(out.deep_view() =~= acc0.drop_last());
                } else {
                    assert(out.deep_view() =~= acc0);
                }
            }
        } else if segs[i].as_str().is_empty() || segs[i] == String::from_str(".") {
        } else {
            out.push(segs[i].clone());
            proof {
                assert(out.deep_view() =~= acc0.push(segs.deep_view()[i as int]));
            }
        }
        i += 1;
    }
    proof {
        assert(segs.deep_view().skip(segs.deep_view().len() as int)
            =~= Seq::<Seq<char>>::empty());
    }
    join_strings(&out, '/')
}

// ---------------------------------------------------------------------------
// Identity profile bookkeeping.
// ---------------------------------------------------------------------------

/// Find the first profile with the given identifier.
pub fn find_identity(profiles: &Vec<GitIdentityProfile>, id: &str) -> (r: Option<usize>)
    ensures
        match r {
            Some(i) => i < profiles@.len() && profiles@[i as int].id@ == id@ && forall|j: int|
                0 <= j < i ==> profiles@[j].id@ != id@,
            None => forall|j: int| 0 <= j < profiles@.len() ==> profiles@[j].id@ != id@,
        },
{
    let mut i: usize = 0;
    while i < profiles.len()
        invariant
            i <= profiles@.len(),
            forall|j: int| 0 <= j < i ==> profiles@[j].id@ != id@,
        decreases profiles@.len() - i,
    {
        if str_eq(profiles[i].id.as_str(), id) {
            return Some(i);
        }
        i += 1;
    }
    None
}

/// Add a new profile; refused when one with the same identifier exists.
pub fn add_identity(profiles: &mut Vec<GitIdentityProfile>, profile: GitIdentityProfile) -> (r:
    bool)
    ensures
        r == !(exists|j: int|
            0 <= j < old(profiles)@.len() && (#[trigger] old(profiles)@[j].id@)
                == profile.id@),
        r ==> final(profiles)@ == old(profiles)@.push(profile),
        !r ==> final(profiles)@ == old(profiles)@,
{
    let dup = find_identity(profiles, profile.id.as_str());
    match dup {
        Some(i) => {
            proof {
                assert(old(profiles)@[i as int].id@ == profile.id@);
            }
            false
        },
        None => {
            profiles.push(profile);
            true
        },
    }
}

/// Replace the first profile with the given identifier.
pub fn update_identity(
    profiles: &mut Vec<GitIdentityProfile>,
    id: &str,
    updates: GitIdentityProfile,
) -> (r: Option<usize>)
    ensures
        match r {
            Some(i) => i < old(profiles)@.len() && old(profiles)@[i as int].id@ == id@
                && final(profiles)@ == old(profiles)@.update(i as int, updates),
            None => final(profiles)@ == old(profiles)@ && forall|j: int|
                0 <= j < old(profiles)@.len() ==> old(profiles)@[j].id@ != id@,
        },
{
    let found = find_identity(profiles, id);
    match found {
        Some(i) => {
            profiles.set(i, updates);
            Some(i)
        },
        None => None,
    }
}

/// The profiles that survive deleting an identifier.
pub open spec fn spec_remove_identity(s: Seq<GitIdentityProfile>, id: Seq<char>) -> Seq<
    GitIdentityProfile,
>
    decreases s.len(),
{
    if s.len() == 0 {
        s
    } else if s[0].id@ == id {
        spec_remove_identity(s.drop_first(), id)
    } else {
        seq![s[0]] + spec_remove_identity(s.drop_first(), id)
    }
}

/// Delete every profile with the given identifier; reports whether any was
/// removed.
#[verifier::loop_isolation(false)]
pub fn remove_identity(profiles: &mut Vec<GitIdentityProfile>, id: &str) -> (removed: bool)
    ensures
        final(profiles)@ == spec_remove_identity(old(profiles)@, id@),
        removed == (final(profiles)@.len() != old(profiles)@.len()),
{
    let mut out: Vec<GitIdentityProfile> = Vec::new();
    let n = profiles.len();
    proof {
        assert(profiles@.skip(0) =~= profiles@);
    }
    let mut i: usize = 0;
    while i < n
        invariant
            i <= n == profiles@.len(),
            profiles@ == old(profiles)@,
            out@.len() <= i,
            out@ + spec_remove_identity(profiles@.skip(i as int), id@) == spec_remove_identity(
                profiles@,
                id@,
            ),
        decreases n - i,
    {
        proof {
            assert(profiles@.skip(i as int)[0] == profiles@[i as int]);
            assert(profiles@.skip(i as int).drop_first() =~= profiles@.skip(i + 1));
        }
        let ghost acc0 = out@;
        if !str_eq(profiles[i].id.as_str(), id) {
            out.push(profiles[i].clone());
            proof {
                assert(out@ =~= acc0.push(profiles@[i as int]));
            }
        }
        i += 1;
        proof {
            assert(out@ + spec_remove_identity(profiles@.skip(i as int), id@)
                =~= spec_remove_identity(profiles@, id@));
        }
    }
    proof {
        assert(profiles@.skip(n as int) =~= Seq::<GitIdentityProfile>::empty());
    }
    let removed = out.len() != profiles.len();
    *profiles = out;
    removed
}

// ---------------------------------------------------------------------------
// Numstat parsing and per-file stat merging.
// ---------------------------------------------------------------------------

/// Saturating 32-bit addition.
pub open spec fn spec_sat_add(a: i32, b: i32) -> i32 {
    if a + b > 0x7FFF_FFFF {
        0x7FFF_FFFF as i32
    } else if a + b < -0x8000_0000 {
        (-0x8000_0000) as i32
    } else {
        (a + b) as i32
    }
}

pub fn sat_add(a: i32, b: i32) -> (r: i32)
    ensures
        r == spec_sat_add(a, b),
{
    let s: i64 = a as i64 + b as i64;
    if s > 0x7FFF_FFFF {
        0x7FFF_FFFF
    } else if s < -0x8000_0000 {
        -0x8000_0000
    } else {
        s as i32
    }
}

/// A numstat count: a dash stands for zero (a binary file).
pub open spec fn spec_dash_or_val(s: Seq<char>) -> i32 {
    if s == "-"@ {
        0
    } else {
        spec_parse_i32_or_zero(s)
    }
}

fn dash_or_val(part: &String) -> (r: i32)
    ensures
        r == spec_dash_or_val(part@),
{
    if str_eq(part.as_str(), "-") {
        0
    } else {
        let pcs = str_chars(part.as_str());
        let n = pcs.len();
        proof {
            assert(pcs@.subrange(0, n as int) =~= pcs@);
        }
        match parse_i32_digits(&pcs, 0, n) {
            Some(v) => v,
            None => 0,
        }
    }
}

/// What one numstat line yields: with at least three tab-separated fields,
/// the path in the third and the two counts before it.
pub open spec fn spec_numstat_line(line: Seq<char>) -> Option<(Seq<char>, i32, i32)> {
    let parts = spec_split(line, '\t');
    if parts.len() >= 3 {
        Some((parts[2], spec_dash_or_val(parts[0]), spec_dash_or_val(parts[1])))
    } else {
        None
    }
}

/// The per-path stats of a whole numstat output, in line order.
pub open spec fn spec_numstat(lines: Seq<Seq<char>>) -> Seq<(Seq<char>, i32, i32)>
    decreases lines.len(),
{
    if lines.len() == 0 {
        Seq::<(Seq<char>, i32, i32)>::empty()
    } else {
        let rest = spec_numstat(lines.drop_first());
        match spec_numstat_line(lines[0]) {
            Some(t) => seq![t] + rest,
            None => rest,
        }
    }
}

/// The view of a per-path stats list.
pub open spec fn stats_view(s: Seq<(String, DiffStat)>) -> Seq<(Seq<char>, i32, i32)> {
    s.map_values(|e: (String, DiffStat)| (e.0@, e.1.insertions, e.1.deletions))
}

proof fn reveal_stats_view_push(pre: Seq<(String, DiffStat)>, x: (String, DiffStat))
    ensures
        stats_view(pre.push(x)) =~= stats_view(pre).push((x.0@, x.1.insertions, x.1.deletions)),
{
}

/// Parse a `--numstat` output into per-path insertion and deletion counts.
#[verifier::loop_isolation(false)]
pub fn parse_numstat(output: &str) -> (r: Vec<(String, DiffStat)>)
    ensures
        stats_view(r@) == spec_numstat(spec_split(output@, '\n')),
{
    let lines = split_string(output, '\n');
    let mut out: Vec<(String, DiffStat)> = Vec::new();
    proof {
        assert(stats_view(out@) =~= Seq::<(Seq<char>, i32, i32)>::empty());
        assert(lines.deep_view().skip(0) =~= lines.deep_view());
    }
    let mut i: usize = 0;
    while i < lines.len()
        invariant
            i <= lines@.len(),
            stats_view(out@) + spec_numstat(lines.deep_view().skip(i as int)) =~= spec_numstat(
                lines.deep_view(),
            ),
        decreases lines@.len() - i,
    {
        proof {
            assert(lines.deep_view().skip(i as int)[0] == lines.deep_view()[i as int]);
            assert(lines.deep_view().skip(i as int).drop_first() =~= lines.deep_view().skip(
                i + 1,
            ));
        }
        let ghost pre = stats_view(out@);
        let parts = split_string(lines[i].as_str(), '\t');
        if parts.len() >= 3 {
            let ins = dash_or_val(&parts[0]);
            let del = dash_or_val(&parts[1]);
            let ghost snap = out@;
            out.push((parts[2].clone(), DiffStat { insertions: ins, deletions: del }));
            proof {
                assert(out@.drop_last() =~= snap);
                reveal_stats_view_push(snap, out@.last());
                assert(parts.deep_view()[0] == parts@[0]@);
                assert(parts.deep_view()[1] == parts@[1]@);
                assert(parts.deep_view()[2] == parts@[2]@);
            }
        }
        i += 1;
        proof {
            assert(stats_view(out@) + spec_numstat(lines.deep_view().skip(i as int))
                =~= spec_numstat(lines.deep_view()));
        }
    }
    proof {
        assert(lines.deep_view().skip(lines.deep_view().len() as int)
            =~= Seq::<Seq<char>>::empty());
        assert(stats_view(out@) =~= spec_numstat(lines.deep_view()));
    }
    out
}

/// The first stats entry recorded under a path.
pub open spec fn spec_stat_get(s: Seq<(String, DiffStat)>, key: Seq<char>) -> Option<int>
    decreases s.len(),
{
    if s.len() == 0 {
        None
    } else if s[0].0@ == key {
        Some(0int)
    } else {
        match spec_stat_get(s.drop_first(), key) {
            Some(i) => Some(i + 1),
            None => None,
        }
    }
}

proof fn lemma_stat_get_at(s: Seq<(String, DiffStat)>, key: Seq<char>, i: int)
    requires
        0 <= i < s.len(),
        s[i].0@ == key,
        forall|j: int| 0 <= j < i ==> (#[trigger] s[j].0@) != key,
    ensures
        spec_stat_get(s, key) == Some(i),
    decreases i,
{
    if i > 0 {
        lemma_stat_get_at(s.drop_first(), key, i - 1);
    }
}

proof fn lemma_stat_get_none(s: Seq<(String, DiffStat)>, key: Seq<char>)
    requires
        forall|j: int| 0 <= j < s.len() ==> (#[trigger] s[j].0@) != key,
    ensures
        spec_stat_get(s, key) is None,
    decreases s.len(),
{
    if s.len() > 0 {
        lemma_stat_get_none(s.drop_first(), key);
    }
}

fn stat_get(v: &Vec<(String, DiffStat)>, key: &String) -> (r: Option<usize>)
    ensures
        match r {
            Some(i) => spec_stat_get(v@, key@) == Some(i as int) && i < v@.len(),
            None => spec_stat_get(v@, key@) is None,
        },
{
    let mut i: usize = 0;
    while i < v.len()
        invariant
            i <= v@.len(),
            forall|j: int| 0 <= j < i ==> (#[trigger] v@[j].0@) != key@,
        decreases v@.len() - i,
    {
        if v[i].0 == *key {
            proof {
                lemma_stat_get_at(v@, key@, i as int);
            }
            return Some(i);
        }
        i += 1;
    }
    proof {
        lemma_stat_get_none(v@, key@);
    }
    None
}

/// Folding per-path stats into an accumulator: counts under a path already
/// present are added; a new path is appended.
pub open spec fn spec_merge_stats(
    items: Seq<(String, DiffStat)>,
    acc: Seq<(String, DiffStat)>,
) -> Seq<(String, DiffStat)>
    decreases items.len(),
{
    if items.len() == 0 {
        acc
    } else {
        let e = items[0];
        let acc1 = match spec_stat_get(acc, e.0@) {
            Some(i) => acc.update(
                i,
                (
                    acc[i].0,
                    DiffStat {
                        insertions: spec_sat_add(acc[i].1.insertions, e.1.insertions),
                        deletions: spec_sat_add(acc[i].1.deletions, e.1.deletions),
                    },
                ),
            ),
            None => acc.push(e),
        };
        spec_merge_stats(items.drop_first(), acc1)
    }
}

/// Merge the staged and working-tree stats: each path's counts are summed
/// across the two listings.
#[verifier::loop_isolation(false)]
pub fn merge_diff_stats(staged: &Vec<(String, DiffStat)>, working: &Vec<(String, DiffStat)>) -> (r:
    Vec<(String, DiffStat)>)
    ensures
        r@ == spec_merge_stats(staged@ + working@, Seq::<(String, DiffStat)>::empty()),
{
    let ghost all = staged@ + working@;
    let mut out: Vec<(String, DiffStat)> = Vec::new();
    proof {
        assert(out@ =~= Seq::<(String, DiffStat)>::empty());
        assert(all.skip(0) =~= all);
    }
    let mut i: usize = 0;
    while i < staged.len()
        invariant
            i <= staged@.len(),
            all == staged@ + working@,
            spec_merge_stats(all.skip(i as int), out@) == spec_merge_stats(
                all,
                Seq::<(String, DiffStat)>::empty(),
            ),
        decreases staged@.len() - i,
    {
        proof {
            assert(all.skip(i as int)[0] == staged@[i as int]);
            assert(all.skip(i as int).drop_first() =~= all.skip(i + 1));
        }
        merge_one(&mut out, &staged[i].0, staged[i].1.insertions, staged[i].1.deletions);
        i += 1;
    }
    let mut j: usize = 0;
    while j < working.len()
        invariant
            j <= working@.len(),
            i == staged@.len(),
            all == staged@ + working@,
            spec_merge_stats(all.skip(staged@.len() + j), out@) == spec_merge_stats(
                all,
                Seq::<(String, DiffStat)>::empty(),
            ),
        decreases working@.len() - j,
    {
        proof {
            assert(all.skip(staged@.len() + j)[0] == working@[j as int]);
            assert(all.skip(staged@.len() + j).drop_first() =~= all.skip(staged@.len() + j + 1));
        }
        merge_one(&mut out, &working[j].0, working[j].1.insertions, working[j].1.deletions);
        j += 1;
    }
    proof {
        assert(all.skip(staged@.len() + working@.len() as int)
            =~= Seq::<(String, DiffStat)>::empty());
    }
    out
}

/// Fold one path's counts into the accumulator.
fn merge_one(out: &mut Vec<(String, DiffStat)>, path: &String, ins: i32, del: i32)
    ensures
        final(out)@ == (match spec_stat_get(old(out)@, path@) {
            Some(i) => old(out)@.update(
                i,
                (
                    old(out)@[i].0,
                    DiffStat {
                        insertions: spec_sat_add(old(out)@[i].1.insertions, ins),
                        deletions: spec_sat_add(old(out)@[i].1.deletions, del),
                    },
                ),
            ),
            None => old(out)@.push((*path, DiffStat { insertions: ins, deletions: del })),
        }),
{
    let found = stat_get(out, path);
    match found {
        Some(i) => {
            let prev_key = out[i].0.clone();
            let prev = out[i].1;
            proof {
                assert(prev_key == out@[i as int].0);
            }
            out.set(
                i,
                (
                    prev_key,
                    DiffStat {
                        insertions: sat_add(prev.insertions, ins),
                        deletions: sat_add(prev.deletions, del),
                    },
                ),
            );
        },
        None => {
            out.push((path.clone(), DiffStat { insertions: ins, deletions: del }));
        },
    }
}

// ---------------------------------------------------------------------------
// Tracking information: the `[ahead N, behind M]` annotations.
// ---------------------------------------------------------------------------

pub open spec fn is_bracket(c: char) -> bool {
    c == '[' || c == ']'
}

pub open spec fn spec_trim_brackets_start(s: Seq<char>) -> Seq<char>
    decreases s.len(),
{
    if s.len() > 0 && is_bracket(s[0]) {
        spec_trim_brackets_start(s.drop_first())
    } else {
        s
    }
}

pub open spec fn spec_trim_brackets_end(s: Seq<char>) -> Seq<char>
    decreases s.len(),
{
    if s.len() > 0 && is_bracket(s.last()) {
        spec_trim_brackets_end(s.drop_last())
    } else {
        s
    }
}

/// A tracking annotation with surrounding bracket characters removed.
pub open spec fn spec_trim_brackets(s: Seq<char>) -> Seq<char> {
    spec_trim_brackets_end(spec_trim_brackets_start(s))
}

proof fn lemma_brackets_start_at(s: Seq<char>, i: int)
    requires
        0 <= i <= s.len(),
        forall|j: int| 0 <= j < i ==> is_bracket(#[trigger] s[j]),
        i < s.len() ==> !is_bracket(s[i]),
    ensures
        spec_trim_brackets_start(s) == s.subrange(i, s.len() as int),
    decreases i,
{
    if i == 0 {
        assert(s.subrange(0, s.len() as int) =~= s);
    } else {
        assert(is_bracket(s[0]));
        let s1 = s.drop_first();
        assert(forall|j: int| 0 <= j < i - 1 ==> is_bracket(#[trigger] s1[j]));
        lemma_brackets_start_at(s1, i - 1);
        assert(s1.subrange(i - 1, s1.len() as int) =~= s.subrange(i, s.len() as int));
    }
}

proof fn lemma_brackets_end_at(s: Seq<char>, i: int)
    requires
        0 <= i <= s.len(),
        forall|j: int| i <= j < s.len() ==> is_bracket(#[trigger] s[j]),
        i > 0 ==> !is_bracket(s[i - 1]),
    ensures
        spec_trim_brackets_end(s) == s.subrange(0, i),
    decreases s.len() - i,
{
    if i == s.len() {
        assert(s.subrange(0, s.len() as int) =~= s);
    } else {
        assert(is_bracket(s.last()));
        let s1 = s.drop_last();
        assert(forall|j: int| i <= j < s1.len() ==> is_bracket(#[trigger] s1[j]));
        lemma_brackets_end_at(s1, i);
        assert(s1.subrange(0, i) =~= s.subrange(0, i));
    }
}

/// Trim bracket characters from both ends of a character range.
#[verifier::loop_isolation(false)]
fn trim_brackets_range(v: &Vec<char>, from: usize, to: usize) -> (r: (usize, usize))
    requires
        from <= to <= v@.len(),
    ensures
        from <= r.0 <= r.1 <= to,
        v@.subrange(r.0 as int, r.1 as int) == spec_trim_brackets(
            v@.subrange(from as int, to as int),
        ),
{
    let ghost s = v@.subrange(from as int, to as int);
    let mut a: usize = from;
    while a < to && (v[a] == '[' || v[a] == ']')
        invariant
            from <= a <= to,
            forall|j: int| 0 <= j < a - from ==> is_bracket(#[trigger] s[j]),
        decreases to - a,
    {
        proof {
            assert(s[a - from as int] == v@[a as int]);
        }
        a += 1;
    }
    proof {
        if a < to {
            assert(s[a - from as int] == v@[a as int]);
        }
        lemma_brackets_start_at(s, a - from as int);
    }
    let ghost s1 = s.subrange(a - from as int, s.len() as int);
    let mut b: usize = to;
    while b > a && (v[b - 1] == '[' || v[b - 1] == ']')
        invariant
            a <= b <= to,
            forall|j: int| b - a <= j < s1.len() ==> is_bracket(#[trigger] s1[j]),
        decreases b,
    {
        proof {
            assert(s1[b - 1 - a as int] == v@[b - 1 as int]);
        }
        b -= 1;
    }
    proof {
        if b > a {
            assert(s1[b - 1 - a as int] == v@[b - 1 as int]);
        }
        lemma_brackets_end_at(s1, b - a as int);
        assert(s1.subrange(0, b - a as int) =~= v@.subrange(a as int, b as int));
    }
    (a, b)
}

/// Folding the comma-separated parts of a tracking annotation: an `ahead `
/// part sets the ahead count to its parse result, a `behind ` part the
/// behind count; anything else is ignored.
pub open spec fn track_fold(parts: Seq<Seq<char>>, acc: (Option<i32>, Option<i32>)) -> (
    Option<i32>,
    Option<i32>,
)
    decreases parts.len(),
{
    if parts.len() == 0 {
        acc
    } else {
        let p = parts[0];
        let acc1 = if starts_with(p, "ahead "@) {
            (spec_parse_i32(p.skip("ahead "@.len() as int)), acc.1)
        } else if starts_with(p, "behind "@) {
            (acc.0, spec_parse_i32(p.skip("behind "@.len() as int)))
        } else {
            acc
        };
        track_fold(parts.drop_first(), acc1)
    }
}

/// What a branch listing's tracking annotation says: nothing for an empty
/// annotation; otherwise the ahead and behind counts of its bracket-stripped,
/// comma-separated parts.
pub open spec fn spec_parse_track_info(s: Seq<char>) -> (Option<i32>, Option<i32>) {
    if s.len() == 0 {
        (None, None)
    } else {
        track_fold(split_sub_from(spec_trim_brackets(s), 0, ", "@), (None, None))
    }
}

/// Parse a `[ahead N, behind M]` tracking annotation.
#[verifier::loop_isolation(false)]
pub fn parse_track_info(track: &str) -> (r: (Option<i32>, Option<i32>))
    ensures
        r == spec_parse_track_info(track@),
{
    let cs = str_chars(track);
    let n = cs.len();
    if n == 0 {
        return (None, None);
    }
    proof {
        assert(cs@.subrange(0, n as int) =~= cs@);
    }
    let (a, b) = trim_brackets_range(&cs, 0, n);
    let content = chars_range_string(&cs, a, b);
    proof {
        reveal_strlit(", ");
    }
    let parts = split_sub(content.as_str(), ", ");
    let ahead_prefix = str_chars("ahead ");
    let behind_prefix = str_chars("behind ");
    let mut ahead: Option<i32> = None;
    let mut behind: Option<i32> = None;
    proof {
        assert(parts.deep_view().skip(0) =~= parts.deep_view());
    }
    let mut i: usize = 0;
    while i < parts.len()
        invariant
            i <= parts@.len(),
            track_fold(parts.deep_view().skip(i as int), (ahead, behind)) == track_fold(
                parts.deep_view(),
                (None, None),
            ),
        decreases parts@.len() - i,
    {
        proof {
            assert(parts.deep_view().skip(i as int)[0] == parts.deep_view()[i as int]);
            assert(parts.deep_view().skip(i as int).drop_first() =~= parts.deep_view().skip(
                i + 1,
            ));
            reveal_strlit("ahead ");
            reveal_strlit("behind ");
        }
        let pcs = str_chars(parts[i].as_str());
        let m = pcs.len();
        proof {
            assert(pcs@.subrange(0, m as int) =~= pcs@);
        }
        let is_ahead = chars_start_with(&pcs, 0, m, &ahead_prefix);
        let is_behind = chars_start_with(&pcs, 0, m, &behind_prefix);
        if is_ahead {
            ahead = parse_i32_digits(&pcs, 6, m);
            proof {
                assert(pcs@.subrange(6, m as int) =~= pcs@.skip("ahead "@.len() as int));
            }
        } else if is_behind {
            behind = parse_i32_digits(&pcs, 7, m);
            proof {
                assert(pcs@.subrange(7, m as int) =~= pcs@.skip("behind "@.len() as int));
            }
        }
        i += 1;
    }
    proof {
        assert(parts.deep_view().skip(parts.deep_view().len() as int)
            =~= Seq::<Seq<char>>::empty());
    }
    (ahead, behind)
}

/// The status-report variant of the tracking fold: counts default to zero,
/// and an unparseable count reads as zero.
pub open spec fn status_track_fold(parts: Seq<Seq<char>>, acc: (i32, i32)) -> (i32, i32)
    decreases parts.len(),
{
    if parts.len() == 0 {
        acc
    } else {
        let p = parts[0];
        let acc1 = if starts_with(p, "ahead "@) {
            (spec_parse_i32_or_zero(p.skip("ahead "@.len() as int)), acc.1)
        } else if starts_with(p, "behind "@) {
            (acc.0, spec_parse_i32_or_zero(p.skip("behind "@.len() as int)))
        } else {
            acc
        };
        status_track_fold(parts.drop_first(), acc1)
    }
}

/// What the branch header of a porcelain status report says: the current
/// branch before the ellipsis, the tracking ref before the bracket, and the
/// ahead and behind counts inside it.
pub open spec fn spec_branch_header(s: Seq<char>) -> (Seq<char>, Option<Seq<char>>, i32, i32) {
    match find_sub(s, "..."@, 0) {
        None => (s, None, 0, 0),
        Some(j) => {
            let current = s.take(j);
            let rp = s.skip(j + 3);
            let k = sep_end(rp, 0, '[');
            if k < rp.len() {
                let stats = if k + 1 <= rp.len() - 1 {
                    rp.subrange(k + 1, rp.len() - 1)
                } else {
                    Seq::<char>::empty()
                };
                let ab = status_track_fold(split_sub_from(stats, 0, ", "@), (0, 0));
                (current, Some(spec_trim(rp.take(k))), ab.0, ab.1)
            } else {
                (current, Some(spec_trim(rp)), 0, 0)
            }
        },
    }
}

/// Parse the branch header line of a porcelain status report (without its
/// `## ` marker).
#[verifier::loop_isolation(false)]
pub fn parse_branch_header(branch_line: &str) -> (r: (String, Option<String>, i32, i32))
    ensures
        ({
            let (c, t, a, b) = spec_branch_header(branch_line@);
            r.0@ == c && (match r.1 {
                Some(tr) => t == Some(tr@),
                None => t is None,
            }) && r.2 == a && r.3 == b
        }),
{
    let cs = str_chars(branch_line);
    let n = cs.len();
    proof {
        assert(cs@.subrange(0, n as int) =~= cs@);
        reveal_strlit("...");
    }
    let dots = str_chars("...");
    match find_sub_chars(&cs, &dots, 0) {
        None => (String::from_str(branch_line), None, 0, 0),
        Some(j) => {
            let current = chars_range_string(&cs, 0, j);
            proof {
                assert(current@ =~= cs@.take(j as int));
            }
            let r0 = j + 3;
            let ghost rp = cs@.skip(j + 3);
            proof {
                assert(rp =~= cs@.subrange(r0 as int, n as int));
            }
            // find the opening bracket
            let mut k: usize = r0;
            while k < n && cs[k] != '['
                invariant
                    r0 <= k <= n,
                    forall|j2: int| r0 <= j2 < k ==> #[trigger] cs@[j2] != '[',
                decreases n - k,
            {
                k += 1;
            }
            proof {
                assert forall|j2: int| 0 <= j2 < k - r0 implies #[trigger] rp[j2] != '[' by {
                    assert(rp[j2] == cs@[r0 + j2]);
                }
                if k < n {
                    assert(rp[k - r0 as int] == cs@[k as int]);
                }
                lemma_sep_end_is(rp, 0, k - r0 as int, '[');
            }
            if k < n {
                let (ta, tb) = trim_chars(&cs, r0, k);
                proof {
                    assert(cs@.subrange(r0 as int, k as int) =~= rp.take(k - r0 as int));
                }
                let tracking = chars_range_string(&cs, ta, tb);
                let stats = if k + 1 <= n - 1 {
                    chars_range_string(&cs, k + 1, n - 1)
                } else {
                    String::new()
                };
                proof {
                    if k + 1 <= n - 1 {
                        assert(cs@.subrange(k + 1, n - 1) =~= rp.subrange(
                            k - r0 + 1,
                            rp.len() - 1,
                        ));
                    } else {
                        assert(stats@ =~= Seq::<char>::empty());
                    }
                }
                proof {
                    reveal_strlit(", ");
                }
                let parts = split_sub(stats.as_str(), ", ");
                let ahead_prefix = str_chars("ahead ");
                let behind_prefix = str_chars("behind ");
                let mut ahead: i32 = 0;
                let mut behind: i32 = 0;
                proof {
                    assert(parts.deep_view().skip(0) =~= parts.deep_view());
                }
                let mut i: usize = 0;
                while i < parts.len()
                    invariant
                        i <= parts@.len(),
                        status_track_fold(parts.deep_view().skip(i as int), (ahead, behind))
                            == status_track_fold(parts.deep_view(), (0i32, 0i32)),
                    decreases parts@.len() - i,
                {
                    proof {
                        assert(parts.deep_view().skip(i as int)[0] == parts.deep_view()[i as int]);
                        assert(parts.deep_view().skip(i as int).drop_first()
                            =~= parts.deep_view().skip(i + 1));
                        reveal_strlit("ahead ");
                        reveal_strlit("behind ");
                    }
                    let pcs = str_chars(parts[i].as_str());
                    let m = pcs.len();
                    proof {
                        assert(pcs@.subrange(0, m as int) =~= pcs@);
                    }
                    let is_ahead = chars_start_with(&pcs, 0, m, &ahead_prefix);
                    let is_behind = chars_start_with(&pcs, 0, m, &behind_prefix);
                    if is_ahead {
                        ahead = match parse_i32_digits(&pcs, 6, m) {
                            Some(v) => v,
                            None => 0,
                        };
                        proof {
                            assert(pcs@.subrange(6, m as int) =~= pcs@.skip(
                                "ahead "@.len() as int,
                            ));
                        }
                    } else if is_behind {
                        behind = match parse_i32_digits(&pcs, 7, m) {
                            Some(v) => v,
                            None => 0,
                        };
                        proof {
                            assert(pcs@.subrange(7, m as int) =~= pcs@.skip(
                                "behind "@.len() as int,
                            ));
                        }
                    }
                    i += 1;
                }
                proof {
                    assert(parts.deep_view().skip(parts.deep_view().len() as int)
                        =~= Seq::<Seq<char>>::empty());
                }
                (current, Some(tracking), ahead, behind)
            } else {
                let (ta, tb) = trim_chars(&cs, r0, n);
                proof {
                    assert(cs@.subrange(r0 as int, n as int) =~= rp);
                }
                (current, Some(chars_range_string(&cs, ta, tb)), 0, 0)
            }
        },
    }
}

// ---------------------------------------------------------------------------
// Log header lines.
// ---------------------------------------------------------------------------

/// Parse one record-separated log header line: hash, author name, author
/// email, date and subject, split at unit separators.
pub fn parse_log_header_line(line: &str) -> (r: Option<GitLogEntry>)
    ensures
        ({
            let parts = spec_split(line@, '\u{1f}');
            match r {
                Some(e) => parts.len() >= 5 && e.hash@ == parts[0] && e.author_name@ == parts[1]
                    && e.author_email@ == parts[2] && e.date@ == parts[3] && e.message@
                    == parts[4] && e.body@.len() == 0 && e.refs@.len() == 0 && e.files_changed
                    == 0 && e.insertions == 0 && e.deletions == 0,
                None => parts.len() < 5,
            }
        }),
{
    let parts = split_string(line, '\u{1f}');
    if parts.len() >= 5 {
        let body = String::new();
        let refs = String::new();
        proof {
            assert(body@ =~= Seq::<char>::empty());
            assert(refs@ =~= Seq::<char>::empty());
            assert(parts.deep_view()[0] == parts@[0]@);
            assert(parts.deep_view()[1] == parts@[1]@);
            assert(parts.deep_view()[2] == parts@[2]@);
            assert(parts.deep_view()[3] == parts@[3]@);
            assert(parts.deep_view()[4] == parts@[4]@);
        }
        Some(
            GitLogEntry {
                hash: parts[0].clone(),
                date: parts[3].clone(),
                message: parts[4].clone(),
                refs,
                body,
                author_name: parts[1].clone(),
                author_email: parts[2].clone(),
                files_changed: 0,
                insertions: 0,
                deletions: 0,
            },
        )
    } else {
        None
    }
}

// ---------------------------------------------------------------------------
// Push command assembly.
// ---------------------------------------------------------------------------

/// The push command line: the remote (defaulting to `origin`), publishing
/// the branch on first push when the caller named no branch and no upstream
/// is configured yet.
pub open spec fn spec_push_args(
    remote: Option<Seq<char>>,
    branch: Option<Seq<char>>,
    current_branch: Seq<char>,
    up_remote: Seq<char>,
    up_merge: Seq<char>,
) -> (Seq<Seq<char>>, Seq<char>, Seq<char>) {
    let remote_name = match remote {
        Some(r) => r,
        None => "origin"@,
    };
    let explicit = match branch {
        Some(b) => spec_trim(b).len() > 0,
        None => false,
    };
    let bn0 = match branch {
        Some(b) => b,
        None => Seq::<char>::empty(),
    };
    let branch_name = if bn0.len() == 0 {
        current_branch
    } else {
        bn0
    };
    let base = seq!["push"@, remote_name];
    let args = if branch_name.len() > 0 {
        if !explicit && (spec_trim(up_remote).len() == 0 || spec_trim(up_merge).len() == 0) {
            base + seq!["--set-upstream"@, branch_name]
        } else {
            base + seq![branch_name]
        }
    } else {
        base
    };
    (args, remote_name, branch_name)
}

/// Assemble the push command line; returns the arguments, the remote name
/// and the branch name used.
pub fn build_push_args(
    remote: Option<String>,
    branch: Option<String>,
    current_branch: String,
    upstream_remote: &str,
    upstream_merge: &str,
) -> (r: (Vec<String>, String, String))
    ensures
        ({
            let (args, rn, bn) = spec_push_args(
                remote.deep_view(),
                branch.deep_view(),
                current_branch@,
                upstream_remote@,
                upstream_merge@,
            );
            r.0.deep_view() == args && r.1@ == rn && r.2@ == bn
        }),
{
    let remote_name = match remote {
        Some(r) => r,
        None => String::from_str("origin"),
    };
    let explicit = match &branch {
        Some(b) => !trim_string(b.as_str()).as_str().is_empty(),
        None => false,
    };
    let bn0 = match branch {
        Some(b) => b,
        None => String::new(),
    };
    let branch_name = if bn0.as_str().is_empty() {
        current_branch
    } else {
        bn0
    };
    let mut args: Vec<String> = Vec::new();
    args.push(String::from_str("push"));
    args.push(remote_name.clone());
    if !branch_name.as_str().is_empty() {
        if !explicit && (trim_string(upstream_remote).as_str().is_empty() || trim_string(
            upstream_merge,
        ).as_str().is_empty()) {
            args.push(String::from_str("--set-upstream"));
        }
        args.push(branch_name.clone());
    }
    proof {
        assert(args.deep_view() =~~= spec_push_args(
            remote.deep_view(),
            branch.deep_view(),
            current_branch@,
            upstream_remote@,
            upstream_merge@,
        ).0);
    }
    (args, remote_name, branch_name)
}

/// The result a successful push reports: the pushed ref pair when a branch
/// was named, and the remote it went to.
pub fn build_push_result(remote_name: String, branch_name: String) -> (r: GitPushResult)
    ensures
        r.success == true,
        r.repo@ == remote_name@,
        branch_name@.len() == 0 ==> r.pushed@.len() == 0 && r.ref_ is None,
        branch_name@.len() > 0 ==> r.pushed@.len() == 1 && r.pushed@[0].local@ == branch_name@
            && r.pushed@[0].remote@ == remote_name@ + "/"@ + branch_name@ && (r.ref_ matches Some(
            b,
        ) && b@ == branch_name@),
{
    if branch_name.as_str().is_empty() {
        GitPushResult { success: true, pushed: Vec::new(), repo: remote_name, ref_: None }
    } else {
        let mut pushed: Vec<GitPushRef> = Vec::new();
        pushed.push(
            GitPushRef {
                local: branch_name.clone(),
                remote: remote_name.clone().concat("/").concat(branch_name.as_str()),
            },
        );
        GitPushResult { success: true, pushed, repo: remote_name, ref_: Some(branch_name) }
    }
}

// ---------------------------------------------------------------------------
// Branch listings.
// ---------------------------------------------------------------------------

/// One parsed branch listing line.
pub ghost struct BranchLineView {
    pub name: Seq<char>,
    pub current: bool,
    pub commit: Seq<char>,
    pub label: Seq<char>,
    pub tracking: Option<Seq<char>>,
    pub ahead: Option<i32>,
    pub behind: Option<i32>,
}

/// What one structured ref-listing line yields: six pipe-separated fields;
/// remote refs are renamed under `remotes/`, their detached head entry is
/// dropped, and with a known set of live remote heads a stale ref is dropped
/// too.
pub open spec fn spec_branch_line(line: Seq<char>, allowed: Option<Seq<Seq<char>>>) -> Option<
    BranchLineView,
> {
    let parts = spec_split(line, '|');
    if parts.len() < 6 {
        None
    } else {
        let full_ref = spec_trim(parts[0]);
        let short_name = spec_trim(parts[1]);
        let commit = parts[2];
        let upstream = spec_trim(parts[3]);
        let is_current = parts[4] == "*"@;
        let ab = spec_parse_track_info(parts[5]);
        let tracking = if upstream.len() == 0 {
            None
        } else {
            Some(upstream)
        };
        if starts_with(full_ref, "refs/remotes/"@) {
            let k = sep_end(short_name, 0, '/');
            if k >= short_name.len() {
                None
            } else {
                let remote_name = short_name.take(k);
                let branch_name = short_name.skip(k + 1);
                if branch_name == "HEAD"@ {
                    None
                } else if (match allowed {
                    Some(heads) => !heads.contains(branch_name),
                    None => false,
                }) {
                    None
                } else {
                    Some(
                        BranchLineView {
                            name: "remotes/"@ + remote_name + "/"@ + branch_name,
                            current: is_current,
                            commit,
                            label: short_name,
                            tracking,
                            ahead: ab.0,
                            behind: ab.1,
                        },
                    )
                }
            }
        } else {
            Some(
                BranchLineView {
                    name: short_name,
                    current: is_current,
                    commit,
                    label: short_name,
                    tracking,
                    ahead: ab.0,
                    behind: ab.1,
                },
            )
        }
    }
}

/// Parse one structured ref-listing line into its branch details and the
/// name it is listed under.
#[verifier::loop_isolation(false)]
pub fn parse_branch_line(line: &str, allowed: Option<&Vec<String>>) -> (r: Option<
    GitBranchDetails,
>)
    ensures
        ({
            let sv = match allowed {
                Some(v) => Some(v.deep_view()),
                None => None::<Seq<Seq<char>>>,
            };
            match r {
                Some(d) => spec_branch_line(line@, sv) matches Some(bv) && d.name@ == bv.name
                    && d.current == bv.current && d.commit@ == bv.commit && d.label@ == bv.label
                    && d.tracking.deep_view() == bv.tracking && d.ahead == bv.ahead && d.behind
                    == bv.behind,
                None => spec_branch_line(line@, sv) is None,
            }
        }),
{
    let parts = split_string(line, '|');
    if parts.len() < 6 {
        return None;
    }
    proof {
        assert(parts.deep_view()[0] == parts@[0]@);
        assert(parts.deep_view()[1] == parts@[1]@);
        assert(parts.deep_view()[2] == parts@[2]@);
        assert(parts.deep_view()[3] == parts@[3]@);
        assert(parts.deep_view()[4] == parts@[4]@);
        assert(parts.deep_view()[5] == parts@[5]@);
    }
    let full_ref = trim_string(parts[0].as_str());
    let short_name = trim_string(parts[1].as_str());
    let commit = parts[2].clone();
    let upstream = trim_string(parts[3].as_str());
    let is_current = str_eq(parts[4].as_str(), "*");
    let ab = parse_track_info(parts[5].as_str());
    let tracking: Option<String> = if upstream.as_str().is_empty() {
        None
    } else {
        Some(upstream)
    };
    if string_starts_with(full_ref.as_str(), "refs/remotes/") {
        let sn = str_chars(short_name.as_str());
        let n = sn.len();
        let mut k: usize = 0;
        while k < n && sn[k] != '/'
            invariant
                k <= n,
                forall|j: int| 0 <= j < k ==> #[trigger] sn@[j] != '/',
            decreases n - k,
        {
            k += 1;
        }
        proof {
            lemma_sep_end_is(sn@, 0, k as int, '/');
        }
        if k >= n {
            return None;
        }
        let branch_name = chars_range_string(&sn, k + 1, n);
        proof {
            assert(branch_name@ =~= short_name@.skip(k + 1));
        }
        if str_eq(branch_name.as_str(), "HEAD") {
            return None;
        }
        match allowed {
            Some(heads) => {
                if !contains_string(heads, &branch_name) {
                    return None;
                }
            },
            None => {},
        }
        let remote_name = chars_range_string(&sn, 0, k);
        proof {
            assert(remote_name@ =~= short_name@.take(k as int));
        }
        let name = String::from_str("remotes/").concat(remote_name.as_str()).concat(
            "/",
        ).concat(branch_name.as_str());
        Some(
            GitBranchDetails {
                current: is_current,
                name,
                commit,
                label: short_name,
                tracking,
                ahead: ab.0,
                behind: ab.1,
            },
        )
    } else {
        Some(
            GitBranchDetails {
                current: is_current,
                name: short_name.clone(),
                commit,
                label: short_name,
                tracking,
                ahead: ab.0,
                behind: ab.1,
            },
        )
    }
}

/// The live remote head names of an `ls-remote --heads` listing: for each
/// line with a tab, the ref after the first tab, trimmed, with its
/// `refs/heads/` prefix stripped.
pub open spec fn spec_remote_heads(lines: Seq<Seq<char>>) -> Seq<Seq<char>>
    decreases lines.len(),
{
    if lines.len() == 0 {
        Seq::<Seq<char>>::empty()
    } else {
        let rest = spec_remote_heads(lines.drop_first());
        let l = lines[0];
        let k = sep_end(l, 0, '\t');
        if k < l.len() {
            let t = spec_trim(l.skip(k + 1));
            if starts_with(t, "refs/heads/"@) {
                seq![t.skip("refs/heads/"@.len() as int)] + rest
            } else {
                rest
            }
        } else {
            rest
        }
    }
}

/// Parse the live remote head names out of an `ls-remote --heads` output.
#[verifier::loop_isolation(false)]
pub fn parse_remote_heads(output: &str) -> (r: Vec<String>)
    ensures
        r.deep_view() == spec_remote_heads(spec_split(output@, '\n')),
{
    let lines = split_string(output, '\n');
    let prefix = str_chars("refs/heads/");
    let mut out: Vec<String> = Vec::new();
    proof {
        reveal_strlit("refs/heads/");
        assert(out.deep_view() =~= Seq::<Seq<char>>::empty());
        assert(lines.deep_view().skip(0) =~= lines.deep_view());
    }
    let mut i: usize = 0;
    while i < lines.len()
        invariant
            i <= lines@.len(),
            prefix@ == "refs/heads/"@,
            out.deep_view() + spec_remote_heads(lines.deep_view().skip(i as int))
                =~= spec_remote_heads(lines.deep_view()),
        decreases lines@.len() - i,
    {
        proof {
            assert(lines.deep_view().skip(i as int)[0] == lines.deep_view()[i as int]);
            assert(lines.deep_view().skip(i as int).drop_first() =~= lines.deep_view().skip(
                i + 1,
            ));
        }
        let ghost acc0 = out.deep_view();
        let ghost l = lines.deep_view()[i as int];
        let cs = str_chars(lines[i].as_str());
        let n = cs.len();
        let mut k: usize = 0;
        while k < n && cs[k] != '\t'
            invariant
                k <= n,
                forall|j: int| 0 <= j < k ==> #[trigger] cs@[j] != '\t',
            decreases n - k,
        {
            k += 1;
        }
        proof {
            lemma_sep_end_is(cs@, 0, k as int, '\t');
        }
        if k < n {
            let (a, b) = trim_chars(&cs, k + 1, n);
            proof {
                assert(cs@.subrange(k + 1, n as int) =~= l.skip(k + 1));
            }
            let ghost t = spec_trim(l.skip(k + 1));
            if chars_start_with(&cs, a, b, &prefix) {
                let stripped = chars_range_string(&cs, a + 11, b);
                proof {
                    assert(cs@.subrange(a + 11, b as int) =~= t.skip("refs/heads/"@.len() as int));
                }
                out.push(stripped);
                proof {
                    assert(out.deep_view() =~= acc0.push(t.skip("refs/heads/"@.len() as int)));
                }
            }
        }
        i += 1;
        proof {
            assert(out.deep_view() + spec_remote_heads(lines.deep_view().skip(i as int))
                =~= spec_remote_heads(lines.deep_view()));
        }
    }
    proof {
        assert(lines.deep_view().skip(lines.deep_view().len() as int)
            =~= Seq::<Seq<char>>::empty());
    }
    out
}

// ---------------------------------------------------------------------------
// Porcelain status parsing.
// ---------------------------------------------------------------------------

/// A one-character status field, trimmed: a space reads as empty.
pub open spec fn one_char_trim(c: char) -> Seq<char> {
    if is_space(c) {
        Seq::<char>::empty()
    } else {
        seq![c]
    }
}

fn one_char_string(c: char) -> (r: String)
    ensures
        r@ == one_char_trim(c),
{
    if space_char(c) {
        let r = String::new();
        proof {
            assert(r@ =~= Seq::<char>::empty());
        }
        r
    } else {
        let mut v: Vec<char> = Vec::new();
        v.push(c);
        proof {
            assert(v@ =~= seq![c]);
        }
        chars_string(&v)
    }
}

/// The abstract content of a parsed status report.
pub ghost struct StatusView {
    pub files: Seq<(Seq<char>, Seq<char>, Seq<char>)>,
    pub current: Seq<char>,
    pub tracking: Option<Seq<char>>,
    pub ahead: i32,
    pub behind: i32,
}

/// Walking the nul-separated entries of a porcelain status report: the
/// branch header sets the branch fields; a file entry contributes its
/// status codes and its path, where a rename or copy takes its new path
/// from the following entry.
pub open spec fn status_walk(entries: Seq<Seq<char>>, i: int, acc: StatusView) -> StatusView
    decreases entries.len() - i
        when 0 <= i <= entries.len()
{
    if i >= entries.len() {
        acc
    } else {
        let e = entries[i];
        if e.len() == 0 {
            status_walk(entries, i + 1, acc)
        } else if starts_with(e, "## "@) {
            let h = spec_branch_header(e.skip(3));
            status_walk(
                entries,
                i + 1,
                StatusView { current: h.0, tracking: h.1, ahead: h.2, behind: h.3, ..acc },
            )
        } else if e.len() >= 4 {
            let ix = one_char_trim(e[0]);
            let wk = one_char_trim(e[1]);
            let ren = e[0] == 'R' || e[1] == 'R' || e[0] == 'C' || e[1] == 'C';
            if ren && i + 1 < entries.len() && entries[i + 1].len() > 0 {
                status_walk(
                    entries,
                    i + 2,
                    StatusView { files: acc.files.push((entries[i + 1], ix, wk)), ..acc },
                )
            } else {
                status_walk(
                    entries,
                    i + 1,
                    StatusView { files: acc.files.push((e.skip(3), ix, wk)), ..acc },
                )
            }
        } else {
            status_walk(entries, i + 1, acc)
        }
    }
}

/// What parsing a whole porcelain status output yields.
pub open spec fn spec_parse_status(out: Seq<char>) -> StatusView {
    status_walk(
        spec_split(out, '\0'),
        0,
        StatusView {
            files: Seq::<(Seq<char>, Seq<char>, Seq<char>)>::empty(),
            current: Seq::<char>::empty(),
            tracking: None,
            ahead: 0,
            behind: 0,
        },
    )
}

/// The view of a parsed file list.
pub open spec fn files_view(files: Seq<GitStatusFile>) -> Seq<(Seq<char>, Seq<char>, Seq<char>)> {
    files.map_values(|f: GitStatusFile| (f.path@, f.index@, f.working_dir@))
}

proof fn reveal_files_view_push(pre: Seq<GitStatusFile>, x: GitStatusFile)
    ensures
        files_view(pre.push(x)) =~= files_view(pre).push((x.path@, x.index@, x.working_dir@)),
{
}

/// Parse a `--porcelain -b -z` status report: the branch header and the file
/// entries, with rename targets taken from the following entry.  The
/// per-path stats are merged in separately.
#[verifier::loop_isolation(false)]
pub fn parse_status_porcelain(status_output: &str) -> (r: GitStatus)
    ensures
        ({
            let sv = spec_parse_status(status_output@);
            &&& files_view(r.files@) == sv.files
            &&& r.current@ == sv.current
            &&& r.tracking.deep_view() == sv.tracking
            &&& r.ahead == sv.ahead
            &&& r.behind == sv.behind
            &&& r.is_clean == (sv.files.len() == 0)
            &&& r.diff_stats is None
        }),
{
    let entries = split_string(status_output, '\0');
    let ghost dv = entries.deep_view();
    let mut files: Vec<GitStatusFile> = Vec::new();
    let mut current = String::new();
    let mut tracking: Option<String> = None;
    let mut ahead: i32 = 0;
    let mut behind: i32 = 0;
    proof {
        assert(files_view(files@) =~= Seq::<(Seq<char>, Seq<char>, Seq<char>)>::empty());
        assert(current@ =~= Seq::<char>::empty());
        reveal_strlit("## ");
    }
    let header_prefix = str_chars("## ");
    let mut i: usize = 0;
    while i < entries.len()
        invariant
            i <= dv.len(),
            header_prefix@ == "## "@,
            status_walk(
                dv,
                i as int,
                StatusView {
                    files: files_view(files@),
                    current: current@,
                    tracking: tracking.deep_view(),
                    ahead,
                    behind,
                },
            ) == spec_parse_status(status_output@),
        decreases dv.len() - i,
    {
        proof {
            assert(dv[i as int] == entries@[i as int]@);
        }
        let cs = str_chars(entries[i].as_str());
        let n = cs.len();
        proof {
            assert(cs@ == dv[i as int]);
            assert(cs@.subrange(0, n as int) =~= cs@);
        }
        if n == 0 {
            i += 1;
            continue;
        }
        if chars_start_with(&cs, 0, n, &header_prefix) {
            let header_line = chars_range_string(&cs, 3, n);
            proof {
                assert(header_line@ =~= cs@.skip(3));
            }
            let (c, t, a, b) = parse_branch_header(header_line.as_str());
            current = c;
            tracking = t;
            ahead = a;
            behind = b;
            i += 1;
            continue;
        }
        if n >= 4 {
            let ix = one_char_string(cs[0]);
            let wk = one_char_string(cs[1]);
            let ren = cs[0] == 'R' || cs[1] == 'R' || cs[0] == 'C' || cs[1] == 'C';
            let ghost pre = files@;
            if ren && i + 1 < entries.len() && !entries[i + 1].as_str().is_empty() {
                proof {
                    assert(dv[i + 1] == entries@[i + 1]@);
                }
                files.push(
                    GitStatusFile { path: entries[i + 1].clone(), index: ix, working_dir: wk },
                );
                proof {
                    assert(files@.drop_last() =~= pre);
                    reveal_files_view_push(pre, files@.last());
                }
                i += 2;
            } else {
                let path = chars_range_string(&cs, 3, n);
                proof {
                    assert(path@ =~= cs@.skip(3));
                }
                files.push(GitStatusFile { path, index: ix, working_dir: wk });
                proof {
                    assert(files@.drop_last() =~= pre);
                    reveal_files_view_push(pre, files@.last());
                }
                i += 1;
            }
            continue;
        }
        i += 1;
    }
    let is_clean = files.len() == 0;
    proof {
        assert(files_view(files@).len() == files@.len());
    }
    GitStatus { current, tracking, ahead, behind, files, is_clean, diff_stats: None }
}

/// The number of lines of a text, as `str::lines` counts them: a trailing
/// newline opens no further line, and an empty text has none.
pub open spec fn spec_count_lines(s: Seq<char>) -> int {
    if s.len() == 0 {
        0
    } else if s.last() == '\n' {
        spec_split(s, '\n').len() - 1
    } else {
        spec_split(s, '\n').len() as int
    }
}

/// Count the lines of a file's content, saturating at the counter's range.
pub fn count_lines(text: &str) -> (r: i32)
    ensures
        r == if spec_count_lines(text@) > 0x7FFF_FFFF {
            0x7FFF_FFFF as i32
        } else {
            spec_count_lines(text@) as i32
        },
{
    if text.is_empty() {
        return 0;
    }
    let lines = split_string(text, '\n');
    let cs = str_chars(text);
    proof {
        assert(cs@.last() == text@.last());
    }
    let full: usize = lines.len();
    let count: usize = if cs[cs.len() - 1] == '\n' {
        full - 1
    } else {
        full
    };
    if count > 0x7FFF_FFFF {
        0x7FFF_FFFF
    } else {
        count as i32
    }
}

// ---------------------------------------------------------------------------
// Commit file listings.
// ---------------------------------------------------------------------------

/// What one commit numstat line yields: the counts, the tab-joined path
/// (renames carry tabs), and whether the file is binary (both counts shown
/// as dashes).  Lines with fewer than three fields or an empty path yield
/// nothing.
pub open spec fn spec_commit_numstat_line(line: Seq<char>) -> Option<(Seq<char>, i32, i32, bool)> {
    let parts = spec_split(line, '\t');
    if parts.len() >= 3 {
        let path = join_with(parts.skip(2), '\t');
        if path.len() == 0 {
            None
        } else {
            Some(
                (
                    path,
                    spec_dash_or_val(parts[0]),
                    spec_dash_or_val(parts[1]),
                    parts[0] == "-"@ && parts[1] == "-"@,
                ),
            )
        }
    } else {
        None
    }
}

pub open spec fn spec_commit_numstat(lines: Seq<Seq<char>>) -> Seq<(Seq<char>, i32, i32, bool)>
    decreases lines.len(),
{
    if lines.len() == 0 {
        Seq::<(Seq<char>, i32, i32, bool)>::empty()
    } else {
        let rest = spec_commit_numstat(lines.drop_first());
        match spec_commit_numstat_line(lines[0]) {
            Some(t) => seq![t] + rest,
            None => rest,
        }
    }
}

/// The view of a commit file listing.
pub open spec fn commit_files_view(files: Seq<CommitFileEntry>) -> Seq<
    (Seq<char>, i32, i32, bool),
> {
    files.map_values(|f: CommitFileEntry| (f.path@, f.insertions, f.deletions, f.is_binary))
}

proof fn reveal_commit_files_view_push(pre: Seq<CommitFileEntry>, x: CommitFileEntry)
    ensures
        commit_files_view(pre.push(x)) =~= commit_files_view(pre).push(
            (x.path@, x.insertions, x.deletions, x.is_binary),
        ),
{
}

/// Parse a commit's `--numstat` listing into file entries; every change
/// type starts out as a plain modification until the name-status listing
/// refines it.
#[verifier::loop_isolation(false)]
pub fn parse_commit_numstat(output: &str) -> (r: Vec<CommitFileEntry>)
    ensures
        commit_files_view(r@) == spec_commit_numstat(spec_split(output@, '\n')),
        forall|i: int| 0 <= i < r@.len() ==> (#[trigger] r@[i].change_type@) == "M"@,
{
    let lines = split_string(output, '\n');
    let mut out: Vec<CommitFileEntry> = Vec::new();
    proof {
        assert(commit_files_view(out@) =~= Seq::<(Seq<char>, i32, i32, bool)>::empty());
        assert(lines.deep_view().skip(0) =~= lines.deep_view());
    }
    let mut i: usize = 0;
    while i < lines.len()
        invariant
            i <= lines@.len(),
            commit_files_view(out@) + spec_commit_numstat(lines.deep_view().skip(i as int))
                =~= spec_commit_numstat(lines.deep_view()),
            forall|k: int| 0 <= k < out@.len() ==> (#[trigger] out@[k].change_type@) == "M"@,
        decreases lines@.len() - i,
    {
        proof {
            assert(lines.deep_view().skip(i as int)[0] == lines.deep_view()[i as int]);
            assert(lines.deep_view().skip(i as int).drop_first() =~= lines.deep_view().skip(
                i + 1,
            ));
        }
        let parts = split_string(lines[i].as_str(), '\t');
        if parts.len() >= 3 {
            proof {
                assert(parts.deep_view()[0] == parts@[0]@);
                assert(parts.deep_view()[1] == parts@[1]@);
            }
            let mut tail: Vec<String> = Vec::new();
            let mut k: usize = 2;
            proof {
                assert(tail.deep_view() =~= parts.deep_view().subrange(2, 2));
            }
            while k < parts.len()
                invariant
                    2 <= k <= parts@.len(),
                    tail.deep_view() =~= parts.deep_view().subrange(2, k as int),
                decreases parts@.len() - k,
            {
                let ghost pre = tail.deep_view();
                tail.push(parts[k].clone());
                k += 1;
                proof {
                    assert(tail.deep_view() =~= pre.push(parts.deep_view()[k - 1]));
                    assert(tail.deep_view() =~= parts.deep_view().subrange(2, k as int));
                }
            }
            proof {
                assert(parts.deep_view().subrange(2, parts.deep_view().len() as int)
                    =~= parts.deep_view().skip(2));
            }
            let path = join_strings(&tail, '\t');
            if !path.as_str().is_empty() {
                let ins = dash_or_val(&parts[0]);
                let del = dash_or_val(&parts[1]);
                let is_binary = str_eq(parts[0].as_str(), "-") && str_eq(parts[1].as_str(), "-");
                let ghost pre_files = out@;
                out.push(
                    CommitFileEntry {
                        path,
                        insertions: ins,
                        deletions: del,
                        is_binary,
                        change_type: String::from_str("M"),
                    },
                );
                proof {
                    assert(out@.drop_last() =~= pre_files);
                    reveal_commit_files_view_push(pre_files, out@.last());
                }
            }
        }
        i += 1;
        proof {
            assert(commit_files_view(out@) + spec_commit_numstat(
                lines.deep_view().skip(i as int),
            ) =~= spec_commit_numstat(lines.deep_view()));
        }
    }
    proof {
        assert(lines.deep_view().skip(lines.deep_view().len() as int)
            =~= Seq::<Seq<char>>::empty());
        assert(commit_files_view(out@) =~= spec_commit_numstat(lines.deep_view()));
    }
    out
}

/// What one name-status line yields: the first character of the status
/// field (a modification when the field is empty) and the path in the last
/// field.
pub open spec fn spec_name_status(lines: Seq<Seq<char>>) -> Seq<(Seq<char>, Seq<char>)>
    decreases lines.len(),
{
    if lines.len() == 0 {
        Seq::<(Seq<char>, Seq<char>)>::empty()
    } else {
        let rest = spec_name_status(lines.drop_first());
        let parts = spec_split(lines[0], '\t');
        if parts.len() >= 2 {
            let status = if parts[0].len() > 0 {
                seq![parts[0][0]]
            } else {
                "M"@
            };
            seq![(parts.last(), status)] + rest
        } else {
            rest
        }
    }
}

/// The view of a path-to-status listing.
pub open spec fn pairs_view(s: Seq<(String, String)>) -> Seq<(Seq<char>, Seq<char>)> {
    s.map_values(|e: (String, String)| (e.0@, e.1@))
}

proof fn reveal_pairs_view_push(pre: Seq<(String, String)>, x: (String, String))
    ensures
        pairs_view(pre.push(x)) =~= pairs_view(pre).push((x.0@, x.1@)),
{
}

/// Parse a commit's `--name-status` listing into path-to-status pairs.
#[verifier::loop_isolation(false)]
pub fn parse_name_status(output: &str) -> (r: Vec<(String, String)>)
    ensures
        pairs_view(r@) == spec_name_status(spec_split(output@, '\n')),
{
    let lines = split_string(output, '\n');
    let mut out: Vec<(String, String)> = Vec::new();
    proof {
        reveal_strlit("M");
        assert(pairs_view(out@) =~= Seq::<(Seq<char>, Seq<char>)>::empty());
        assert(lines.deep_view().skip(0) =~= lines.deep_view());
    }
    let mut i: usize = 0;
    while i < lines.len()
        invariant
            i <= lines@.len(),
            pairs_view(out@) + spec_name_status(lines.deep_view().skip(i as int))
                =~= spec_name_status(lines.deep_view()),
        decreases lines@.len() - i,
    {
        proof {
            assert(lines.deep_view().skip(i as int)[0] == lines.deep_view()[i as int]);
            assert(lines.deep_view().skip(i as int).drop_first() =~= lines.deep_view().skip(
                i + 1,
            ));
        }
        let parts = split_string(lines[i].as_str(), '\t');
        if parts.len() >= 2 {
            proof {
                assert(parts.deep_view()[0] == parts@[0]@);
                assert(parts.deep_view().last() == parts@[parts@.len() - 1]@);
            }
            let status_field = str_chars(parts[0].as_str());
            let status: String = if status_field.len() > 0 {
                one_char_status(status_field[0])
            } else {
                String::from_str("M")
            };
            proof {
                if status_field@.len() > 0 {
                    assert(status@ =~= seq![parts.deep_view()[0][0]]);
                }
            }
            let path = parts[parts.len() - 1].clone();
            let ghost pre = out@;
            out.push((path, status));
            proof {
                assert(out@.drop_last() =~= pre);
                reveal_pairs_view_push(pre, out@.last());
            }
        }
        i += 1;
        proof {
            assert(pairs_view(out@) + spec_name_status(lines.deep_view().skip(i as int))
                =~= spec_name_status(lines.deep_view()));
        }
    }
    proof {
        assert(lines.deep_view().skip(lines.deep_view().len() as int)
            =~= Seq::<Seq<char>>::empty());
        assert(pairs_view(out@) =~= spec_name_status(lines.deep_view()));
    }
    out
}

fn one_char_status(c: char) -> (r: String)
    ensures
        r@ == seq![c],
{
    let mut v: Vec<char> = Vec::new();
    v.push(c);
    proof {
        assert(v@ =~= seq![c]);
    }
    chars_string(&v)
}

/// A rename path with its brace markers dropped: the part after the last
/// ` => ` arrow, if one is there, with `{` and `}` removed.
pub open spec fn spec_rename_base(path: Seq<char>) -> Seq<char> {
    let segs = split_sub_from(path, 0, " => "@);
    if segs.len() >= 2 {
        segs.last().filter(|c: char| c != '{' && c != '}')
    } else {
        path
    }
}

/// The status recorded for a path: looked up under its rename base first,
/// then under the path itself.
pub open spec fn spec_status_for(
    map: Seq<(Seq<char>, Seq<char>)>,
    path: Seq<char>,
) -> Option<Seq<char>>
    decreases map.len(),
{
    if map.len() == 0 {
        None
    } else if map[0].0 == path {
        Some(map[0].1)
    } else {
        spec_status_for(map.drop_first(), path)
    }
}

fn status_lookup(map: &Vec<(String, String)>, path: &String) -> (r: Option<String>)
    ensures
        r.deep_view() == spec_status_for(pairs_view(map@), path@),
{
    let mut i: usize = 0;
    while i < map.len()
        invariant
            i <= map@.len(),
            forall|j: int| 0 <= j < i ==> (#[trigger] map@[j].0@) != path@,
        decreases map@.len() - i,
    {
        if map[i].0 == *path {
            proof {
                lemma_status_for_at(pairs_view(map@), path@, i as int);
            }
            return Some(map[i].1.clone());
        }
        i += 1;
    }
    proof {
        lemma_status_for_none(pairs_view(map@), path@);
    }
    None
}

proof fn lemma_status_for_at(map: Seq<(Seq<char>, Seq<char>)>, path: Seq<char>, i: int)
    requires
        0 <= i < map.len(),
        map[i].0 == path,
        forall|j: int| 0 <= j < i ==> (#[trigger] map[j].0) != path,
    ensures
        spec_status_for(map, path) == Some(map[i].1),
    decreases i,
{
    if i > 0 {
        lemma_status_for_at(map.drop_first(), path, i - 1);
    }
}

proof fn lemma_status_for_none(map: Seq<(Seq<char>, Seq<char>)>, path: Seq<char>)
    requires
        forall|j: int| 0 <= j < map.len() ==> (#[trigger] map[j].0) != path,
    ensures
        spec_status_for(map, path) is None,
    decreases map.len(),
{
    if map.len() > 0 {
        lemma_status_for_none(map.drop_first(), path);
    }
}

/// Compute the rename base of a path.
#[verifier::loop_isolation(false)]
fn rename_base(path: &String) -> (r: String)
    ensures
        r@ == spec_rename_base(path@),
{
    proof {
        reveal_strlit(" => ");
    }
    let segs = split_sub(path.as_str(), " => ");
    if segs.len() >= 2 {
        let last = &segs[segs.len() - 1];
        proof {
            assert(segs.deep_view().last() == segs.deep_view()[segs.deep_view().len() - 1]);
        }
        let cs = str_chars(last.as_str());
        let mut kept: Vec<char> = Vec::new();
        proof {
            assert(cs@.subrange(0, 0) =~= Seq::<char>::empty());
            assert(kept@ =~= cs@.subrange(0, 0).filter(|c: char| c != '{' && c != '}'));
        }
        let mut k: usize = 0;
        while k < cs.len()
            invariant
                k <= cs@.len(),
                kept@ == cs@.subrange(0, k as int).filter(|c: char| c != '{' && c != '}'),
            decreases cs@.len() - k,
        {
            proof {
                let prefix = cs@.subrange(0, k as int);
                assert(cs@.subrange(0, k + 1) =~= prefix.push(cs@[k as int]));
                reveal_char_filter_push(prefix, cs@[k as int]);
            }
            let c = cs[k];
            if c != '{' && c != '}' {
                kept.push(c);
            }
            k += 1;
        }
        proof {
            assert(cs@.subrange(0, cs@.len() as int) =~= cs@);
        }
        chars_string(&kept)
    } else {
        path.clone()
    }
}

proof fn reveal_char_filter_push(s: Seq<char>, x: char)
    ensures
        (s.push(x)).filter(|c: char| c != '{' && c != '}') == if x != '{' && x != '}' {
            s.filter(|c: char| c != '{' && c != '}').push(x)
        } else {
            s.filter(|c: char| c != '{' && c != '}')
        },
{
    reveal(Seq::filter);
    assert(s.push(x).drop_last() =~= s);
    assert(s.push(x).last() == x);
}

/// Refine the change types of a commit's file entries from the name-status
/// listing: each path takes the status recorded under its rename base, or
/// under the path itself.
#[verifier::loop_isolation(false)]
pub fn apply_change_types(files: &mut Vec<CommitFileEntry>, status_map: &Vec<(String, String)>)
    ensures
        final(files)@.len() == old(files)@.len(),
        forall|i: int|
            0 <= i < old(files)@.len() ==> {
                let f0 = old(files)@[i];
                let f1 = (#[trigger] final(files)@[i]);
                &&& f1.path == f0.path
                &&& f1.insertions == f0.insertions
                &&& f1.deletions == f0.deletions
                &&& f1.is_binary == f0.is_binary
                &&& f1.change_type@ == (match spec_status_for(
                    pairs_view(status_map@),
                    spec_rename_base(f0.path@),
                ) {
                    Some(s) => s,
                    None => match spec_status_for(pairs_view(status_map@), f0.path@) {
                        Some(s) => s,
                        None => f0.change_type@,
                    },
                })
            },
{
    let mut i: usize = 0;
    while i < files.len()
        invariant
            i <= files@.len(),
            files@.len() == old(files)@.len(),
            forall|j: int| i <= j < files@.len() ==> (#[trigger] files@[j]) == old(files)@[j],
            forall|j: int|
                0 <= j < i ==> {
                    let f0 = old(files)@[j];
                    let f1 = (#[trigger] files@[j]);
                    &&& f1.path == f0.path
                    &&& f1.insertions == f0.insertions
                    &&& f1.deletions == f0.deletions
                    &&& f1.is_binary == f0.is_binary
                    &&& f1.change_type@ == (match spec_status_for(
                        pairs_view(status_map@),
                        spec_rename_base(f0.path@),
                    ) {
                        Some(s) => s,
                        None => match spec_status_for(pairs_view(status_map@), f0.path@) {
                            Some(s) => s,
                            None => f0.change_type@,
                        },
                    })
                },
        decreases files@.len() - i,
    {
        let base = rename_base(&files[i].path);
        let by_base = status_lookup(status_map, &base);
        let chosen: Option<String> = match by_base {
            Some(s) => Some(s),
            None => status_lookup(status_map, &files[i].path),
        };
        match chosen {
            Some(status) => {
                let updated = CommitFileEntry {
                    path: files[i].path.clone(),
                    insertions: files[i].insertions,
                    deletions: files[i].deletions,
                    is_binary: files[i].is_binary,
                    change_type: status,
                };
                files.set(i, updated);
            },
            None => {},
        }
        i += 1;
    }
}

// ---------------------------------------------------------------------------
// Worktree listings.
// ---------------------------------------------------------------------------

/// A branch ref with every leading `refs/heads/` stripped.
pub open spec fn strip_heads_prefix(s: Seq<char>) -> Seq<char>
    decreases s.len(),
{
    if starts_with(s, "refs/heads/"@) && "refs/heads/"@.len() > 0 {
        strip_heads_prefix(s.skip("refs/heads/"@.len() as int))
    } else {
        s
    }
}

/// The three parsed fields of one worktree record.
pub ghost struct WorktreeAcc {
    pub done: Seq<(Seq<char>, Option<Seq<char>>, Option<Seq<char>>)>,
    pub cur: (Seq<char>, Option<Seq<char>>, Option<Seq<char>>),
}

pub open spec fn wt_flush(acc: WorktreeAcc) -> WorktreeAcc {
    if acc.cur.0.len() > 0 {
        WorktreeAcc {
            done: acc.done.push(acc.cur),
            cur: (Seq::<char>::empty(), None, None),
        }
    } else {
        acc
    }
}

/// One line of a porcelain worktree listing folded into the record under
/// construction: a `worktree` line opens a new record, `HEAD` and `branch`
/// lines fill it, a blank line closes it.
pub open spec fn wt_step(acc: WorktreeAcc, line: Seq<char>) -> WorktreeAcc {
    if starts_with(line, "worktree "@) && line.len() > "worktree "@.len() {
        let acc1 = wt_flush(acc);
        WorktreeAcc {
            cur: (line.skip("worktree "@.len() as int), acc1.cur.1, acc1.cur.2),
            ..acc1
        }
    } else if starts_with(line, "HEAD "@) && line.len() > "HEAD "@.len() {
        WorktreeAcc {
            cur: (acc.cur.0, Some(line.skip("HEAD "@.len() as int)), acc.cur.2),
            ..acc
        }
    } else if starts_with(line, "branch "@) && line.len() > "branch "@.len() {
        WorktreeAcc {
            cur: (
                acc.cur.0,
                acc.cur.1,
                Some(strip_heads_prefix(line.skip("branch "@.len() as int))),
            ),
            ..acc
        }
    } else if line.len() == 0 {
        wt_flush(acc)
    } else {
        acc
    }
}

pub open spec fn wt_fold(lines: Seq<Seq<char>>, acc: WorktreeAcc) -> WorktreeAcc
    decreases lines.len(),
{
    if lines.len() == 0 {
        acc
    } else {
        wt_fold(lines.drop_first(), wt_step(acc, lines[0]))
    }
}

/// What parsing a whole porcelain worktree listing yields.
pub open spec fn spec_parse_worktrees(out: Seq<char>) -> Seq<
    (Seq<char>, Option<Seq<char>>, Option<Seq<char>>),
> {
    wt_flush(
        wt_fold(
            spec_split(out, '\n'),
            WorktreeAcc {
                done: Seq::<(Seq<char>, Option<Seq<char>>, Option<Seq<char>>)>::empty(),
                cur: (Seq::<char>::empty(), None, None),
            },
        ),
    ).done
}

/// The view of a worktree listing.
pub open spec fn worktrees_view(ws: Seq<GitWorktreeInfo>) -> Seq<
    (Seq<char>, Option<Seq<char>>, Option<Seq<char>>),
> {
    ws.map_values(
        |w: GitWorktreeInfo| (w.worktree@, w.head.deep_view(), w.branch.deep_view()),
    )
}

proof fn reveal_worktrees_view_push(pre: Seq<GitWorktreeInfo>, x: GitWorktreeInfo)
    ensures
        worktrees_view(pre.push(x)) =~= worktrees_view(pre).push(
            (x.worktree@, x.head.deep_view(), x.branch.deep_view()),
        ),
{
}

/// Parse a `worktree list --porcelain` output.
#[verifier::loop_isolation(false)]
pub fn parse_worktrees(output: &str) -> (r: Vec<GitWorktreeInfo>)
    ensures
        worktrees_view(r@) == spec_parse_worktrees(output@),
{
    let lines = split_string(output, '\n');
    let wt_prefix = str_chars("worktree ");
    let head_prefix = str_chars("HEAD ");
    let branch_prefix = str_chars("branch ");
    let heads_prefix = str_chars("refs/heads/");
    let mut done: Vec<GitWorktreeInfo> = Vec::new();
    let mut cur_worktree = String::new();
    let mut cur_head: Option<String> = None;
    let mut cur_branch: Option<String> = None;
    proof {
        reveal_strlit("worktree ");
        reveal_strlit("HEAD ");
        reveal_strlit("branch ");
        reveal_strlit("refs/heads/");
        assert(worktrees_view(done@)
            =~= Seq::<(Seq<char>, Option<Seq<char>>, Option<Seq<char>>)>::empty());
        assert(cur_worktree@ =~= Seq::<char>::empty());
        assert(lines.deep_view().skip(0) =~= lines.deep_view());
    }
    let ghost init = WorktreeAcc {
        done: Seq::<(Seq<char>, Option<Seq<char>>, Option<Seq<char>>)>::empty(),
        cur: (Seq::<char>::empty(), None, None),
    };
    let mut i: usize = 0;
    while i < lines.len()
        invariant
            i <= lines@.len(),
            wt_prefix@ == "worktree "@,
            head_prefix@ == "HEAD "@,
            branch_prefix@ == "branch "@,
            heads_prefix@ == "refs/heads/"@,
            wt_fold(
                lines.deep_view().skip(i as int),
                WorktreeAcc {
                    done: worktrees_view(done@),
                    cur: (cur_worktree@, cur_head.deep_view(), cur_branch.deep_view()),
                },
            ) == wt_fold(lines.deep_view(), init),
        decreases lines@.len() - i,
    {
        proof {
            assert(lines.deep_view().skip(i as int)[0] == lines.deep_view()[i as int]);
            assert(lines.deep_view().skip(i as int).drop_first() =~= lines.deep_view().skip(
                i + 1,
            ));
        }
        let ghost l = lines.deep_view()[i as int];
        let cs = str_chars(lines[i].as_str());
        let n = cs.len();
        proof {
            assert(cs@ == l);
            assert(cs@.subrange(0, n as int) =~= cs@);
        }
        if chars_start_with(&cs, 0, n, &wt_prefix) && n > 9 {
            if !cur_worktree.as_str().is_empty() {
                let ghost pre = done@;
                done.push(
                    GitWorktreeInfo {
                        worktree: cur_worktree,
                        head: cur_head,
                        branch: cur_branch,
                    },
                );
                proof {
                    assert(done@.drop_last() =~= pre);
                    reveal_worktrees_view_push(pre, done@.last());
                }
                cur_head = None;
                cur_branch = None;
            }
            cur_worktree = chars_range_string(&cs, 9, n);
            proof {
                assert(cur_worktree@ =~= l.skip("worktree "@.len() as int));
            }
        } else if chars_start_with(&cs, 0, n, &head_prefix) && n > 5 {
            cur_head = Some(chars_range_string(&cs, 5, n));
            proof {
                assert(cs@.subrange(5, n as int) =~= l.skip("HEAD "@.len() as int));
            }
        } else if chars_start_with(&cs, 0, n, &branch_prefix) && n > 7 {
            let mut p: usize = 7;
            while n >= 11 && p <= n - 11 && chars_start_with(&cs, p, n, &heads_prefix)
                invariant
                    7 <= p <= n,
                    strip_heads_prefix(cs@.subrange(p as int, n as int)) == strip_heads_prefix(
                        l.skip("branch "@.len() as int),
                    ),
                decreases n - p,
            {
                proof {
                    let seg = cs@.subrange(p as int, n as int);
                    assert(seg.skip("refs/heads/"@.len() as int) =~= cs@.subrange(
                        p + 11,
                        n as int,
                    ));
                }
                p += 11;
            }
            proof {
                let seg = cs@.subrange(p as int, n as int);
                if starts_with(seg, "refs/heads/"@) {
                    assert(seg.len() >= 11);
                    assert(false);
                }
                assert(strip_heads_prefix(seg) == seg);
            }
            cur_branch = Some(chars_range_string(&cs, p, n));
        } else if n == 0 {
            if !cur_worktree.as_str().is_empty() {
                let ghost pre = done@;
                done.push(
                    GitWorktreeInfo {
                        worktree: cur_worktree,
                        head: cur_head,
                        branch: cur_branch,
                    },
                );
                proof {
                    assert(done@.drop_last() =~= pre);
                    reveal_worktrees_view_push(pre, done@.last());
                }
                cur_worktree = String::new();
                cur_head = None;
                cur_branch = None;
                proof {
                    assert(cur_worktree@ =~= Seq::<char>::empty());
                }
            }
        }
        i += 1;
    }
    proof {
        assert(lines.deep_view().skip(lines.deep_view().len() as int)
            =~= Seq::<Seq<char>>::empty());
    }
    if !cur_worktree.as_str().is_empty() {
        let ghost pre = done@;
        done.push(
            GitWorktreeInfo { worktree: cur_worktree, head: cur_head, branch: cur_branch },
        );
        proof {
            assert(done@.drop_last() =~= pre);
            reveal_worktrees_view_push(pre, done@.last());
        }
    }
    done
}

// ---------------------------------------------------------------------------
// Log stat chunks.
// ---------------------------------------------------------------------------

/// A count annotation written at position `i`: a digit run, whitespace, the
/// word with an optional plural `s`, and then either more whitespace and a
/// second word or a direct suffix.  Yields the digits.
pub open spec fn count_at(
    s: Seq<char>,
    i: int,
    word: Seq<char>,
    mid_space: bool,
    suf: Seq<char>,
) -> Option<Seq<char>>
    recommends
        0 <= i <= s.len(),
{
    let d1 = run_end(s, i, |c: char| is_digit(c));
    if d1 == i {
        None
    } else {
        let sp = run_end(s, d1, |c: char| is_space(c));
        if sp == d1 {
            None
        } else {
            if !(sp + word.len() <= s.len() && s.subrange(sp, sp + word.len() as int) == word) {
                None
            } else {
                let after = sp + word.len();
                let p = if after < s.len() && s[after] == 's' {
                    after + 1
                } else {
                    after
                };
                if mid_space {
                    let sp2 = run_end(s, p, |c: char| is_space(c));
                    if sp2 == p {
                        None
                    } else if sp2 + suf.len() <= s.len() && s.subrange(
                        sp2,
                        sp2 + suf.len() as int,
                    ) == suf {
                        Some(s.subrange(i, d1))
                    } else {
                        None
                    }
                } else {
                    if p + suf.len() <= s.len() && s.subrange(p, p + suf.len() as int) == suf {
                        Some(s.subrange(i, d1))
                    } else {
                        None
                    }
                }
            }
        }
    }
}

/// The leftmost count annotation of the given shape.
pub open spec fn find_count_from(
    s: Seq<char>,
    i: int,
    word: Seq<char>,
    mid_space: bool,
    suf: Seq<char>,
) -> Option<Seq<char>>
    decreases s.len() - i
        when 0 <= i <= s.len()
{
    if i >= s.len() {
        None
    } else if count_at(s, i, word, mid_space, suf) is Some {
        count_at(s, i, word, mid_space, suf)
    } else {
        find_count_from(s, i + 1, word, mid_space, suf)
    }
}

/// The counter value of the leftmost annotation of the given shape, zero
/// when none is written or the digits do not parse.
pub open spec fn spec_count_of(
    s: Seq<char>,
    word: Seq<char>,
    mid_space: bool,
    suf: Seq<char>,
) -> i32 {
    match find_count_from(s, 0, word, mid_space, suf) {
        Some(ds) => spec_parse_i32_or_zero(ds),
        None => 0,
    }
}

/// Attempt the count-annotation match at one position.
#[verifier::loop_isolation(false)]
fn try_count_at(
    v: &Vec<char>,
    i: usize,
    word: &Vec<char>,
    mid_space: bool,
    suf: &Vec<char>,
) -> (r: Option<(usize, usize)>)
    requires
        i <= v@.len(),
    ensures
        match r {
            Some((d0, d1)) => d0 == i && i < d1 <= v@.len() && count_at(
                v@,
                i as int,
                word@,
                mid_space,
                suf@,
            ) == Some(v@.subrange(i as int, d1 as int)),
            None => count_at(v@, i as int, word@, mid_space, suf@) is None,
        },
{
    let n = v.len();
    let mut d1: usize = i;
    while d1 < n && digit_char(v[d1])
        invariant
            i <= d1 <= n,
            forall|k: int| i <= k < d1 ==> is_digit(#[trigger] v@[k]),
        decreases n - d1,
    {
        d1 += 1;
    }
    proof {
        crate::scan::lemma_run_end_is(v@, i as int, d1 as int, |c: char| is_digit(c));
    }
    if d1 == i {
        return None;
    }
    let mut sp: usize = d1;
    while sp < n && space_char(v[sp])
        invariant
            d1 <= sp <= n,
            forall|k: int| d1 <= k < sp ==> is_space(#[trigger] v@[k]),
        decreases n - sp,
    {
        sp += 1;
    }
    proof {
        crate::scan::lemma_run_end_is(v@, d1 as int, sp as int, |c: char| is_space(c));
    }
    if sp == d1 {
        return None;
    }
    if !chars_start_with(v, sp, n, word) {
        proof {
            if sp + word@.len() <= n {
                assert(v@.subrange(sp as int, n as int).subrange(0, word@.len() as int)
                    =~= v@.subrange(sp as int, sp + word@.len() as int));
            }
        }
        return None;
    }
    proof {
        assert(v@.subrange(sp as int, n as int).subrange(0, word@.len() as int) =~= v@.subrange(
            sp as int,
            sp + word@.len() as int,
        ));
    }
    let after = sp + word.len();
    let p: usize = if after < n && v[after] == 's' {
        after + 1
    } else {
        after
    };
    if mid_space {
        let mut sp2: usize = p;
        while sp2 < n && space_char(v[sp2])
            invariant
                p <= sp2 <= n,
                forall|k: int| p <= k < sp2 ==> is_space(#[trigger] v@[k]),
            decreases n - sp2,
        {
            sp2 += 1;
        }
        proof {
            crate::scan::lemma_run_end_is(v@, p as int, sp2 as int, |c: char| is_space(c));
        }
        if sp2 == p {
            return None;
        }
        if chars_start_with(v, sp2, n, suf) {
            proof {
                assert(v@.subrange(sp2 as int, n as int).subrange(0, suf@.len() as int)
                    =~= v@.subrange(sp2 as int, sp2 + suf@.len() as int));
            }
            Some((i, d1))
        } else {
            proof {
                if sp2 + suf@.len() <= n {
                    assert(v@.subrange(sp2 as int, n as int).subrange(0, suf@.len() as int)
                        =~= v@.subrange(sp2 as int, sp2 + suf@.len() as int));
                }
            }
            None
        }
    } else {
        if chars_start_with(v, p, n, suf) {
            proof {
                assert(v@.subrange(p as int, n as int).subrange(0, suf@.len() as int)
                    =~= v@.subrange(p as int, p + suf@.len() as int));
            }
            Some((i, d1))
        } else {
            proof {
                if p + suf@.len() <= n {
                    assert(v@.subrange(p as int, n as int).subrange(0, suf@.len() as int)
                        =~= v@.subrange(p as int, p + suf@.len() as int));
                }
            }
            None
        }
    }
}

/// Find the leftmost count annotation and read its value.
#[verifier::loop_isolation(false)]
fn count_of(v: &Vec<char>, word: &Vec<char>, mid_space: bool, suf: &Vec<char>) -> (r: i32)
    ensures
        r == spec_count_of(v@, word@, mid_space, suf@),
{
    let n = v.len();
    let mut i: usize = 0;
    while i < n
        invariant
            i <= n,
            forall|j: int|
                0 <= j < i ==> count_at(v@, j, word@, mid_space, suf@) is None,
        decreases n - i,
    {
        match try_count_at(v, i, word, mid_space, suf) {
            Some((d0, d1)) => {
                proof {
                    lemma_find_count_prefix(v@, i as int, word@, mid_space, suf@);
                }
                let parsed = parse_i32_digits(v, d0, d1);
                return match parsed {
                    Some(x) => x,
                    None => 0,
                };
            },
            None => {
                i += 1;
            },
        }
    }
    proof {
        lemma_find_count_none(v@, 0, word@, mid_space, suf@);
    }
    0
}

proof fn lemma_find_count_prefix(
    s: Seq<char>,
    i: int,
    word: Seq<char>,
    mid_space: bool,
    suf: Seq<char>,
)
    requires
        0 <= i <= s.len(),
        forall|j: int| 0 <= j < i ==> count_at(s, j, word, mid_space, suf) is None,
    ensures
        find_count_from(s, 0, word, mid_space, suf) == find_count_from(
            s,
            i,
            word,
            mid_space,
            suf,
        ),
    decreases i,
{
    if i > 0 {
        lemma_find_count_prefix(s, i - 1, word, mid_space, suf);
    }
}

proof fn lemma_find_count_none(
    s: Seq<char>,
    i: int,
    word: Seq<char>,
    mid_space: bool,
    suf: Seq<char>,
)
    requires
        0 <= i <= s.len(),
        forall|j: int| i <= j < s.len() ==> count_at(s, j, word, mid_space, suf) is None,
    ensures
        find_count_from(s, i, word, mid_space, suf) is None,
    decreases s.len() - i,
{
    if i < s.len() {
        lemma_find_count_none(s, i + 1, word, mid_space, suf);
    }
}

/// Read the three counters of a log record's stat text: files changed,
/// insertions and deletions, each the leftmost annotation of its shape.
pub fn parse_log_stats(chunk: &str) -> (r: (i32, i32, i32))
    ensures
        r.0 == spec_count_of(chunk@, "file"@, true, "changed"@),
        r.1 == spec_count_of(chunk@, "insertion"@, false, "(+)"@),
        r.2 == spec_count_of(chunk@, "deletion"@, false, "(-)"@),
{
    let cs = str_chars(chunk);
    let files = count_of(&cs, &str_chars("file"), true, &str_chars("changed"));
    let insertions = count_of(&cs, &str_chars("insertion"), false, &str_chars("(+)"));
    let deletions = count_of(&cs, &str_chars("deletion"), false, &str_chars("(-)"));
    (files, insertions, deletions)
}

/// The record separator a log listing is split at.
pub fn split_log_records(output: &str) -> (r: Vec<String>)
    ensures
        r.deep_view() == spec_split(output@, '\u{1e}'),
{
    split_string(output, '\u{1e}')
}

/// The header a stat chunk carries for the next record: its last nonempty
/// trimmed line holding a unit separator.
pub open spec fn spec_last_header(lines: Seq<Seq<char>>) -> Option<Seq<char>>
    decreases lines.len(),
{
    if lines.len() == 0 {
        None
    } else {
        let t = spec_trim(lines.last());
        if t.len() > 0 && sep_end(t, 0, '\u{1f}') < t.len() {
            Some(t)
        } else {
            spec_last_header(lines.drop_last())
        }
    }
}

/// Find the next record header inside a stat chunk.
#[verifier::loop_isolation(false)]
pub fn last_header_line(chunk: &str) -> (r: Option<String>)
    ensures
        r.deep_view() == spec_last_header(spec_split(chunk@, '\n')),
{
    let lines = split_string(chunk, '\n');
    let ghost dv = lines.deep_view();
    proof {
        assert(dv.subrange(0, dv.len() as int) =~= dv);
    }
    let mut i: usize = lines.len();
    while i > 0
        invariant
            i <= dv.len(),
            spec_last_header(dv.subrange(0, i as int)) == spec_last_header(dv),
        decreases i,
    {
        proof {
            assert(dv.subrange(0, i as int).last() == dv[i - 1]);
            assert(dv.subrange(0, i as int).drop_last() =~= dv.subrange(0, i - 1));
        }
        let cs = str_chars(lines[i - 1].as_str());
        let n = cs.len();
        proof {
            assert(cs@ == dv[i - 1]);
            assert(cs@.subrange(0, n as int) =~= cs@);
        }
        let (a, b) = trim_chars(&cs, 0, n);
        let ghost t = spec_trim(dv[i - 1]);
        if a != b {
            let mut k: usize = a;
            while k < b && cs[k] != '\u{1f}'
                invariant
                    a <= k <= b,
                    forall|j: int| a <= j < k ==> #[trigger] cs@[j] != '\u{1f}',
                decreases b - k,
            {
                k += 1;
            }
            proof {
                assert forall|j: int| 0 <= j < k - a implies #[trigger] t[j] != '\u{1f}' by {
                    assert(t[j] == cs@[a + j]);
                }
                if k < b {
                    assert(t[k - a as int] == cs@[k as int]);
                }
                lemma_sep_end_is(t, 0, k - a as int, '\u{1f}');
            }
            if k < b {
                return Some(chars_range_string(&cs, a, b));
            }
        }
        i -= 1;
    }
    proof {
        assert(dv.subrange(0, 0) =~= Seq::<Seq<char>>::empty());
    }
    None
}

// ---------------------------------------------------------------------------
// Small command decisions.
// ---------------------------------------------------------------------------

/// What the repository-exclusion file must become for the application's
/// working files to be ignored: nothing when the entry is already there;
/// otherwise the content with the entry appended on its own line.
pub open spec fn spec_exclude_update(content: Seq<char>) -> Option<Seq<char>> {
    if contains_seq(content, "/.openchamber/"@) {
        None
    } else {
        let glue = if content.len() > 0 && content.last() != '\n' {
            seq!['\n']
        } else {
            Seq::<char>::empty()
        };
        Some(content + glue + "/.openchamber/\n"@)
    }
}

/// Decide the new content of the repository-exclusion file, or nothing when
/// no write is needed.
pub fn ensure_exclude_entry(content: String) -> (r: Option<String>)
    ensures
        r.deep_view() == spec_exclude_update(content@),
{
    let cs = str_chars(content.as_str());
    let n = cs.len();
    proof {
        assert(cs@.subrange(0, n as int) =~= cs@);
    }
    let needle = str_chars("/.openchamber/");
    if chars_contain(&cs, 0, n, &needle) {
        return None;
    }
    let mut out = content;
    if n > 0 && !(cs[n - 1] == '\n') {
        proof {
            reveal_strlit("\n");
            assert(("\n")@ =~= seq!['\n']);
        }
        out.append("\n");
    }
    out.append("/.openchamber/\n");
    proof {
        if cs@.len() > 0 && cs@.last() != '\n' {
        } else {
            assert(out@ =~= cs@ + Seq::<char>::empty() + "/.openchamber/\n"@);
        }
    }
    Some(out)
}

/// Whether a repository probe's output reads as an affirmative: trimmed and
/// lower-cased, it must be exactly `true`.
pub open spec fn spec_is_true_output(s: Seq<char>) -> bool {
    spec_trim(s).map_values(|c: char| ascii_lower_char(c)) == "true"@
}

pub fn is_true_output(output: &str) -> (r: bool)
    ensures
        r == spec_is_true_output(output@),
{
    let t = trim_string(output);
    let cs = str_chars(t.as_str());
    let n = cs.len();
    proof {
        assert(cs@.subrange(0, n as int) =~= cs@);
    }
    let low = lower_chars(&cs, 0, n);
    let lowered = chars_string(&low);
    lowered == String::from_str("true")
}

/// A prefix stripped as often as it occurs.
pub open spec fn strip_prefix_reps(s: Seq<char>, p: Seq<char>) -> Seq<char>
    decreases s.len()
        when p.len() >= 1
{
    if starts_with(s, p) {
        strip_prefix_reps(s.skip(p.len() as int), p)
    } else {
        s
    }
}

/// A suffix stripped as often as it occurs.
pub open spec fn strip_suffix_reps(s: Seq<char>, p: Seq<char>) -> Seq<char>
    decreases s.len()
        when p.len() >= 1
{
    if s.len() >= p.len() && s.subrange(s.len() - p.len(), s.len() as int) == p {
        strip_suffix_reps(s.subrange(0, s.len() - p.len()), p)
    } else {
        s
    }
}

/// What unwrapping a fenced model response yields: trimmed, any leading
/// ```json and ``` fences and any trailing ``` fence stripped, and trimmed
/// again.
pub open spec fn spec_strip_fences(s: Seq<char>) -> Seq<char> {
    spec_trim(
        strip_suffix_reps(
            strip_prefix_reps(strip_prefix_reps(spec_trim(s), "```json"@), "```"@),
            "```"@,
        ),
    )
}

/// Unwrap a fenced model response down to its payload.
#[verifier::loop_isolation(false)]
#[verifier::rlimit(100)]
pub fn strip_markdown_fences(content: &str) -> (r: String)
    ensures
        r@ == spec_strip_fences(content@),
{
    proof {
        reveal_strlit("```json");
        reveal_strlit("```");
    }
    let cs = str_chars(content);
    let n = cs.len();
    proof {
        assert(cs@.subrange(0, n as int) =~= cs@);
    }
    let (t0, t1) = trim_chars(&cs, 0, n);
    let ghost t = spec_trim(content@);
    let json_fence = str_chars("```json");
    let fence = str_chars("```");
    let mut a: usize = t0;
    let mut b: usize = t1;
    while b - a >= 7 && chars_start_with(&cs, a, b, &json_fence)
        invariant
            t0 <= a <= b <= t1,
            strip_prefix_reps(cs@.subrange(a as int, b as int), "```json"@) == strip_prefix_reps(
                t,
                "```json"@,
            ),
        decreases b - a,
    {
        proof {
            let seg = cs@.subrange(a as int, b as int);
            assert(seg.subrange(0, 7) =~= seg.skip(0).subrange(0, 7));
            assert(seg.skip("```json"@.len() as int) =~= cs@.subrange(a + 7, b as int));
        }
        a += 7;
    }
    proof {
        let seg = cs@.subrange(a as int, b as int);
        if starts_with(seg, "```json"@) {
            assert(seg.len() >= 7);
            assert(seg.subrange(0, 7) =~= seg.subrange(0, "```json"@.len() as int));
            assert(false);
        }
        assert(strip_prefix_reps(seg, "```json"@) == seg);
    }
    let ghost t2 = strip_prefix_reps(t, "```json"@);
    while b - a >= 3 && chars_start_with(&cs, a, b, &fence)
        invariant
            t0 <= a <= b <= t1,
            strip_prefix_reps(cs@.subrange(a as int, b as int), "```"@) == strip_prefix_reps(
                t2,
                "```"@,
            ),
        decreases b - a,
    {
        proof {
            let seg = cs@.subrange(a as int, b as int);
            assert(seg.skip("```"@.len() as int) =~= cs@.subrange(a + 3, b as int));
        }
        a += 3;
    }
    proof {
        let seg = cs@.subrange(a as int, b as int);
        if starts_with(seg, "```"@) {
            assert(seg.len() >= 3);
            assert(false);
        }
        assert(strip_prefix_reps(seg, "```"@) == seg);
    }
    let ghost t3 = strip_prefix_reps(t2, "```"@);
    while b - a >= 3 && cs[b - 3] == '`' && cs[b - 2] == '`' && cs[b - 1] == '`'
        invariant
            t0 <= a <= b <= t1,
            strip_suffix_reps(cs@.subrange(a as int, b as int), "```"@) == strip_suffix_reps(
                t3,
                "```"@,
            ),
        decreases b,
    {
        proof {
            let seg = cs@.subrange(a as int, b as int);
            assert(seg.subrange(seg.len() - 3, seg.len() as int) =~= "```"@) by {
                assert(seg[seg.len() - 3] == cs@[b - 3]);
                assert(seg[seg.len() - 2] == cs@[b - 2]);
                assert(seg[seg.len() - 1] == cs@[b - 1]);
                assert(("```")@[0] == '`' && ("```")@[1] == '`' && ("```")@[2] == '`');
                assert(seg.subrange(seg.len() - 3, seg.len() as int)[0] == seg[seg.len() - 3]);
                assert(seg.subrange(seg.len() - 3, seg.len() as int)[1] == seg[seg.len() - 2]);
                assert(seg.subrange(seg.len() - 3, seg.len() as int)[2] == seg[seg.len() - 1]);
            }
            assert(seg.subrange(0, seg.len() - 3) =~= cs@.subrange(a as int, b - 3));
        }
        b -= 3;
    }
    proof {
        let seg = cs@.subrange(a as int, b as int);
        if seg.len() >= 3 && seg.subrange(seg.len() - 3, seg.len() as int) == "```"@ {
            assert(seg[seg.len() - 3] == cs@[b - 3]);
            assert(seg[seg.len() - 2] == cs@[b - 2]);
            assert(seg[seg.len() - 1] == cs@[b - 1]);
            assert(seg.subrange(seg.len() - 3, seg.len() as int)[0] == seg[seg.len() - 3]);
            assert(seg.subrange(seg.len() - 3, seg.len() as int)[1] == seg[seg.len() - 2]);
            assert(seg.subrange(seg.len() - 3, seg.len() as int)[2] == seg[seg.len() - 1]);
            assert(false);
        }
        assert(strip_suffix_reps(seg, "```"@) == seg);
    }
    let (f0, f1) = trim_chars(&cs, a, b);
    chars_range_string(&cs, f0, f1)
}

} // verus!
