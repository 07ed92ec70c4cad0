use vstd::prelude::*;

use crate::chars::{
    chars_range_string, is_space, space_char, spec_trim, str_chars, trim_chars, trim_string,
};
use crate::strutil::{
    chars_start_with, find_sub, find_sub_chars, lemma_lex_total, lemma_lex_trans,
    lemma_sep_end_is, lex_le, lex_le_strings, sep_end, spec_split, split_string, starts_with,
    str_eq,
};

verus! {

broadcast use vstd::string::group_string_axioms;

// ---------------------------------------------------------------------------
// The records the skills-catalog feature exchanges with the UI.
// ---------------------------------------------------------------------------

#[derive(Debug, Clone, PartialEq)]
pub struct SkillsCatalogSource {
    pub id: String,
    pub label: String,
    pub description: Option<String>,
    pub source: String,
    pub default_subpath: Option<String>,
    pub git_identity_id: Option<String>,
}

#[derive(Debug, Clone, PartialEq)]
pub struct SkillsCatalogInstalledBadge {
    pub is_installed: bool,
    pub scope: Option<String>,
}

#[derive(Debug, Clone, PartialEq)]
pub struct SkillsCatalogItem {
    pub source_id: String,
    pub repo_source: String,
    pub repo_subpath: Option<String>,
    pub git_identity_id: Option<String>,
    pub skill_dir: String,
    pub skill_name: String,
    pub frontmatter_name: Option<String>,
    pub description: Option<String>,
    pub installable: bool,
    pub warnings: Option<Vec<String>>,
    pub installed: SkillsCatalogInstalledBadge,
}

#[derive(Debug, Clone, PartialEq)]
pub struct SkillsCatalogResponse {
    pub ok: bool,
    pub sources: Option<Vec<SkillsCatalogSource>>,
    pub items_by_source: Option<Vec<(String, Vec<SkillsCatalogItem>)>>,
    pub error: Option<SkillsRepoError>,
}

#[derive(Debug, Clone, PartialEq)]
pub struct SkillsRepoScanResponse {
    pub ok: bool,
    pub items: Option<Vec<SkillsCatalogItem>>,
    pub error: Option<SkillsRepoError>,
}

#[derive(Debug, Clone, PartialEq)]
pub struct SkillsInstallResponse {
    pub ok: bool,
    pub installed: Option<Vec<InstalledSkill>>,
    pub skipped: Option<Vec<SkippedSkill>>,
    pub error: Option<SkillsRepoError>,
}

#[derive(Debug, Clone, PartialEq)]
pub struct InstalledSkill {
    pub skill_name: String,
    pub scope: String,
}

#[derive(Debug, Clone, PartialEq)]
pub struct SkippedSkill {
    pub skill_name: String,
    pub reason: String,
}

#[derive(Debug, Clone, PartialEq)]
pub struct SkillConflict {
    pub skill_name: String,
    pub scope: String,
}

#[derive(Debug, Clone, PartialEq)]
pub struct IdentitySummary {
    pub id: String,
    pub name: String,
}

#[derive(Debug, Clone, PartialEq)]
pub struct SkillsRepoError {
    pub kind: String,
    pub message: String,
    pub ssh_only: Option<bool>,
    pub identities: Option<Vec<IdentitySummary>>,
    pub conflicts: Option<Vec<SkillConflict>>,
}

#[derive(Debug, Clone, PartialEq)]
pub struct SkillsScanRequest {
    pub source: String,
    pub subpath: Option<String>,
    pub git_identity_id: Option<String>,
}

#[derive(Debug, Clone, PartialEq)]
pub struct SkillsInstallSelection {
    pub skill_dir: String,
}

#[derive(Debug, Clone, PartialEq)]
pub struct SkillsInstallRequest {
    pub source: String,
    pub subpath: Option<String>,
    pub git_identity_id: Option<String>,
    pub scope: String,
    pub selections: Vec<SkillsInstallSelection>,
    pub conflict_policy: Option<String>,
    pub conflict_decisions: Option<Vec<(String, String)>>,
}

// ---------------------------------------------------------------------------
// Skill names.
// ---------------------------------------------------------------------------

/// A character a skill name may be made of, besides interior dashes.
pub open spec fn is_skill_char(c: char) -> bool {
    ('a' <= c && c <= 'z') || ('0' <= c && c <= '9')
}

/// A valid skill name: one to sixty-four characters, lower-case letters,
/// digits and dashes, beginning and ending with a letter or digit.
pub open spec fn spec_valid_skill_name(s: Seq<char>) -> bool {
    &&& 1 <= s.len() <= 64
    &&& is_skill_char(s[0])
    &&& is_skill_char(s.last())
    &&& forall|i: int| 0 <= i < s.len() ==> (is_skill_char(#[trigger] s[i]) || s[i] == '-')
}

/// Whether a directory basename is usable as a skill name.
#[verifier::loop_isolation(false)]
pub fn validate_skill_name(name: &str) -> (r: bool)
    ensures
        r == spec_valid_skill_name(name@),
{
    let cs = str_chars(name);
    let n = cs.len();
    if n < 1 || n > 64 {
        return false;
    }
    let first = cs[0];
    let last = cs[n - 1];
    if !(('a' <= first && first <= 'z') || ('0' <= first && first <= '9')) {
        return false;
    }
    if !(('a' <= last && last <= 'z') || ('0' <= last && last <= '9')) {
        return false;
    }
    let mut i: usize = 0;
    while i < n
        invariant
            i <= n,
            forall|j: int| 0 <= j < i ==> (is_skill_char(#[trigger] cs@[j]) || cs@[j] == '-'),
        decreases n - i,
    {
        let c = cs[i];
        if !(('a' <= c && c <= 'z') || ('0' <= c && c <= '9') || c == '-') {
            return false;
        }
        i += 1;
    }
    true
}

/// The skill name a repository directory implies: its last nonempty
/// slash-separated segment, or nothing for the repository root.
pub open spec fn spec_skill_name_of(dir: Seq<char>) -> Seq<char> {
    let kept = spec_split(dir, '/').filter(|s: Seq<char>| s.len() > 0);
    if kept.len() > 0 {
        kept.last()
    } else {
        Seq::<char>::empty()
    }
}

/// The basename a skill directory is installed under.
#[verifier::loop_isolation(false)]
pub fn skill_name_of(dir: &str) -> (r: String)
    ensures
        r@ == spec_skill_name_of(dir@),
{
    let segs = split_string(dir, '/');
    let mut found: Option<usize> = None;
    let mut i: usize = 0;
    while i < segs.len()
        invariant
            i <= segs@.len(),
            segs.deep_view().subrange(0, i as int).filter(|s: Seq<char>| s.len() > 0).len() > 0
                <==> found is Some,
            match found {
                Some(k) => {
                    let dv = segs.deep_view();
                    k < i && dv[k as int].len() > 0 && dv[k as int] == dv.subrange(
                        0,
                        i as int,
                    ).filter(|s: Seq<char>| s.len() > 0).last()
                },
                None => true,
            },
        decreases segs@.len() - i,
    {
        proof {
            let dv = segs.deep_view();
            assert(dv.subrange(0, i + 1) =~= dv.subrange(0, i as int).push(dv[i as int]));
            reveal_filter_push(dv.subrange(0, i as int), dv[i as int]);
        }
        if !segs[i].as_str().is_empty() {
            found = Some(i);
        }
        i += 1;
    }
    proof {
        assert(segs.deep_view().subrange(0, segs.deep_view().len() as int) =~= segs.deep_view());
    }
    match found {
        Some(k) => segs[k].clone(),
        None => {
            let r = String::new();
            proof {
                assert(r@ =~= Seq::<char>::empty());
            }
            r
        },
    }
}

/// Filtering a sequence extended by one element keeps the old part and
/// appends the element exactly when it passes.
proof fn reveal_filter_push(s: Seq<Seq<char>>, x: Seq<char>)
    ensures
        (s.push(x)).filter(|t: Seq<char>| t.len() > 0) == if x.len() > 0 {
            s.filter(|t: Seq<char>| t.len() > 0).push(x)
        } else {
            s.filter(|t: Seq<char>| t.len() > 0)
        },
{
    reveal(Seq::filter);
    assert(s.push(x).drop_last() =~= s);
    assert(s.push(x).last() == x);
}

// ---------------------------------------------------------------------------
// Error shapes.
// ---------------------------------------------------------------------------

/// An authentication failure against the remote repository; offers the known
/// identities so the UI can suggest one.
pub fn auth_required_error(message: &str, identities: Vec<IdentitySummary>) -> (r:
    SkillsRepoError)
    ensures
        r.kind@ == "authRequired"@,
        r.message@ == message@,
        r.ssh_only == Some(true),
        r.identities matches Some(v) && v@ == identities@,
        r.conflicts is None,
{
    SkillsRepoError {
        kind: String::from_str("authRequired"),
        message: String::from_str(message),
        ssh_only: Some(true),
        identities: Some(identities),
        conflicts: None,
    }
}

/// A plain error with a kind and a message.
pub fn simple_error(kind: &str, message: &str) -> (r: SkillsRepoError)
    ensures
        r.kind@ == kind@,
        r.message@ == message@,
        r.ssh_only is None,
        r.identities is None,
        r.conflicts is None,
{
    SkillsRepoError {
        kind: String::from_str(kind),
        message: String::from_str(message),
        ssh_only: None,
        identities: None,
        conflicts: None,
    }
}

/// The error reporting skills that already exist in the selected scope.
pub fn conflicts_error(conflicts: Vec<SkillConflict>) -> (r: SkillsRepoError)
    ensures
        r.kind@ == "conflicts"@,
        r.message@ == "Some skills already exist in the selected scope"@,
        r.ssh_only is None,
        r.identities is None,
        r.conflicts matches Some(v) && v@ == conflicts@,
{
    SkillsRepoError {
        kind: String::from_str("conflicts"),
        message: String::from_str("Some skills already exist in the selected scope"),
        ssh_only: None,
        identities: None,
        conflicts: Some(conflicts),
    }
}

// ---------------------------------------------------------------------------
// Cache keys and install paths.
// ---------------------------------------------------------------------------

/// The catalog cache key: repository, subpath and identity, joined by
/// double colons.
pub open spec fn spec_cache_key(
    repo: Seq<char>,
    subpath: Option<Seq<char>>,
    identity: Option<Seq<char>>,
) -> Seq<char> {
    repo + "::"@ + (match subpath {
        Some(s) => s,
        None => Seq::<char>::empty(),
    }) + "::"@ + (match identity {
        Some(s) => s,
        None => Seq::<char>::empty(),
    })
}

/// Build the catalog cache key for one source.
pub fn cache_key(normalized_repo: &str, subpath: Option<&str>, identity_id: Option<&str>) -> (r:
    String)
    ensures
        r@ == spec_cache_key(
            normalized_repo@,
            match subpath {
                Some(s) => Some(s@),
                None => None,
            },
            match identity_id {
                Some(s) => Some(s@),
                None => None,
            },
        ),
{
    let mut r = String::from_str(normalized_repo);
    r.append("::");
    match subpath {
        Some(s) => {
            r.append(s);
        },
        None => {},
    }
    r.append("::");
    match identity_id {
        Some(s) => {
            r.append(s);
        },
        None => {},
    }
    r
}

/// Where a skill is installed: under the user's configuration directory for
/// the user scope, under the working directory for the project scope.
pub fn target_skill_dir(scope: &str, home_dir: &str, working_directory: &str, skill_name: &str)
    -> (r: Result<String, String>)
    ensures
        scope@ == "user"@ ==> (r matches Ok(p) && p@ == home_dir@ + "/.config/opencode/skill/"@
            + skill_name@),
        scope@ == "project"@ ==> (r matches Ok(p) && p@ == working_directory@
            + "/.opencode/skill/"@ + skill_name@),
        scope@ != "user"@ && scope@ != "project"@ ==> r is Err,
{
    proof {
        reveal_strlit("user");
        reveal_strlit("project");
        assert("user"@.len() == 4);
        assert("project"@.len() == 7);
    }
    if str_eq(scope, "user") {
        proof {
            assert(scope@ != "project"@);
        }
        let mut p = String::from_str(home_dir);
        p.append("/.config/opencode/skill/");
        p.append(skill_name);
        Ok(p)
    } else if str_eq(scope, "project") {
        let mut p = String::from_str(working_directory);
        p.append("/.opencode/skill/");
        p.append(skill_name);
        Ok(p)
    } else {
        Err(String::from_str("Invalid scope"))
    }
}

/// Appending a repository-relative posix path to a base path: each nonempty
/// trimmed segment is appended behind a slash.
pub open spec fn repo_path_fold(acc: Seq<char>, segs: Seq<Seq<char>>) -> Seq<char>
    decreases segs.len(),
{
    if segs.len() == 0 {
        acc
    } else {
        let t = spec_trim(segs[0]);
        let acc1 = if t.len() == 0 {
            acc
        } else {
            acc + seq!['/'] + t
        };
        repo_path_fold(acc1, segs.drop_first())
    }
}

/// What mapping a repository-relative path under a base directory yields.
pub open spec fn spec_repo_path_to_fs(base: Seq<char>, rel: Seq<char>) -> Seq<char> {
    repo_path_fold(base, spec_split(rel, '/'))
}

/// Map a repository-relative posix path to a path under the checkout base.
#[verifier::loop_isolation(false)]
pub fn repo_path_to_fs(base: &str, repo_rel_posix: &str) -> (r: String)
    ensures
        r@ == spec_repo_path_to_fs(base@, repo_rel_posix@),
{
    let segs = split_string(repo_rel_posix, '/');
    let mut r = String::from_str(base);
    proof {
        assert(segs.deep_view().skip(0) =~= segs.deep_view());
    }
    let mut i: usize = 0;
    while i < segs.len()
        invariant
            i <= segs@.len(),
            repo_path_fold(r@, segs.deep_view().skip(i as int)) == spec_repo_path_to_fs(
                base@,
                repo_rel_posix@,
            ),
        decreases segs@.len() - i,
    {
        proof {
            assert(segs.deep_view().skip(i as int)[0] == segs.deep_view()[i as int]);
            assert(segs.deep_view().skip(i as int).drop_first() =~= segs.deep_view().skip(i + 1));
        }
        let t = trim_string(segs[i].as_str());
        let ghost acc0 = r@;
        if !t.as_str().is_empty() {
            proof {
                reveal_strlit("/");
                assert(("/")@ =~= seq!['/']);
            }
            r.append("/");
            r.append(t.as_str());
            proof {
                assert(r@ == acc0 + seq!['/'] + t@);
            }
        }
        i += 1;
    }
    proof {
        assert(segs.deep_view().skip(segs.deep_view().len() as int)
            =~= Seq::<Seq<char>>::empty());
    }
    r
}

// ---------------------------------------------------------------------------
// Conflict policy.
// ---------------------------------------------------------------------------

/// Whether an already-present skill must be surfaced as a conflict before
/// anything is installed: only when no explicit decision was given and the
/// policy resolves nothing by itself.
pub fn needs_conflict_prompt(exists: bool, has_decision: bool, policy: &str) -> (r: bool)
    ensures
        r == (exists && !has_decision && policy@ != "skipAll"@ && policy@ != "overwriteAll"@),
{
    exists && !has_decision && !str_eq(policy, "skipAll") && !str_eq(policy, "overwriteAll")
}

/// What is done with one selected skill during installation.
#[derive(Clone, Copy, PartialEq, Eq, Structural, Debug)]
pub enum InstallAction {
    /// The target exists and the decision was to skip it.
    SkipExisting,
    /// The target exists and is replaced before copying.
    ReplaceThenCopy,
    /// Nothing is in the way: copy.
    Copy,
}

/// The effective decision for one skill: an explicit decision wins; the
/// policy resolves the rest; a missing target is always copied over.
pub open spec fn spec_install_action(
    exists: bool,
    explicit: Option<Seq<char>>,
    policy: Seq<char>,
) -> InstallAction {
    let d = if explicit is Some {
        explicit
    } else if exists && policy == "skipAll"@ {
        Some("skip"@)
    } else if exists && policy == "overwriteAll"@ {
        Some("overwrite"@)
    } else if !exists {
        Some("overwrite"@)
    } else {
        None
    };
    if exists && d == Some("skip"@) {
        InstallAction::SkipExisting
    } else if exists && d == Some("overwrite"@) {
        InstallAction::ReplaceThenCopy
    } else {
        InstallAction::Copy
    }
}

/// Decide what to do with one selected skill.
pub fn install_action(exists: bool, explicit: Option<&String>, policy: &str) -> (r: InstallAction)
    ensures
        r == spec_install_action(
            exists,
            match explicit {
                Some(s) => Some(s@),
                None => None,
            },
            policy@,
        ),
{
    let decision: Option<String> = match explicit {
        Some(s) => Some(s.clone()),
        None => {
            if exists && str_eq(policy, "skipAll") {
                Some(String::from_str("skip"))
            } else if exists && str_eq(policy, "overwriteAll") {
                Some(String::from_str("overwrite"))
            } else if !exists {
                Some(String::from_str("overwrite"))
            } else {
                None
            }
        },
    };
    match decision {
        Some(d) => {
            if exists && str_eq(d.as_str(), "skip") {
                InstallAction::SkipExisting
            } else if exists && str_eq(d.as_str(), "overwrite") {
                InstallAction::ReplaceThenCopy
            } else {
                InstallAction::Copy
            }
        },
        None => InstallAction::Copy,
    }
}

// ---------------------------------------------------------------------------
// SKILL.md frontmatter.
// ---------------------------------------------------------------------------

/// Whether a text parses as a YAML document.  The result depends on the text
/// alone.
pub uninterp spec fn yaml_parses(s: Seq<char>) -> bool;

#[verifier::external_type_specification]
#[verifier::external_body]
pub struct ExYamlValue(serde_yaml::Value);

/// Relies on serde_yaml::from_str::<serde_yaml::Value>: parses a YAML
/// document, succeeding exactly on well-formed input.
#[verifier::external_body]
fn yaml_parse(text: &str) -> (r: Option<serde_yaml::Value>)
    ensures
        r is Some <==> yaml_parses(text@),
{
    serde_yaml::from_str::<serde_yaml::Value>(text).ok()
}

/// Relies on serde_yaml::Value::get and serde_yaml::Value::as_str: reads a
/// top-level string field of a parsed document, if that field is a string.
#[verifier::external_body]
fn yaml_str_field(v: &serde_yaml::Value, key: &str) -> (r: Option<String>) {
    match v.get(key) {
        Some(x) => match x.as_str() {
            Some(s) => Some(String::from(s)),
            None => None,
        },
        None => None,
    }
}

/// The position right after the second frontmatter delimiter, if the text
/// has the shape `---` yaml `---` body.
pub open spec fn spec_front_delims(s: Seq<char>) -> Option<(int, int)> {
    if !starts_with(s, "---"@) {
        None
    } else {
        match find_sub(s, "---"@, 3) {
            Some(j) => Some((3int, j)),
            None => None,
        }
    }
}

/// The warning text for a missing frontmatter delimiter.
pub fn missing_delimiter_warning() -> (r: String)
    ensures
        r@ == "Invalid SKILL.md: missing YAML frontmatter delimiter"@,
{
    String::from_str("Invalid SKILL.md: missing YAML frontmatter delimiter")
}

/// Parse the YAML frontmatter of a skill description file: the text must
/// open with a `---` fence and hold a second one; the `name` and
/// `description` fields are read from the document between them.  The
/// warnings say exactly what went wrong.
pub fn parse_skill_md_frontmatter(contents: &str) -> (r: (
    Option<String>,
    Option<String>,
    Vec<String>,
))
    ensures
        spec_front_delims(contents@) is None ==> r.0 is None && r.1 is None
            && r.2.deep_view() == seq!["Invalid SKILL.md: missing YAML frontmatter delimiter"@],
        spec_front_delims(contents@) matches Some((a, b)) ==> {
            let yaml = contents@.subrange(a, b);
            if yaml_parses(yaml) {
                r.2.deep_view() == Seq::<Seq<char>>::empty()
            } else {
                r.0 is None && r.1 is None && r.2.deep_view() == seq![
                    "Invalid SKILL.md: failed to parse YAML frontmatter"@,
                ]
            }
        },
{
    let cs = str_chars(contents);
    let fence = str_chars("---");
    let n = cs.len();
    proof {
        reveal_strlit("---");
        assert(cs@.subrange(0, n as int) =~= cs@);
    }
    let opens = chars_start_with(&cs, 0, n, &fence);
    let mut warnings: Vec<String> = Vec::new();
    if !opens {
        warnings.push(missing_delimiter_warning());
        proof {
            assert(warnings.deep_view() =~= seq![
                "Invalid SKILL.md: missing YAML frontmatter delimiter"@,
            ]);
        }
        return (None, None, warnings);
    }
    let second = find_sub_chars(&cs, &fence, 3);
    match second {
        None => {
            warnings.push(missing_delimiter_warning());
            proof {
                assert(warnings.deep_view() =~= seq![
                    "Invalid SKILL.md: missing YAML frontmatter delimiter"@,
                ]);
            }
            (None, None, warnings)
        },
        Some(j) => {
            let yaml = chars_range_string(&cs, 3, j);
            match yaml_parse(yaml.as_str()) {
                Some(doc) => {
                    let name = yaml_str_field(&doc, "name");
                    let description = yaml_str_field(&doc, "description");
                    proof {
                        assert(warnings.deep_view() =~= Seq::<Seq<char>>::empty());
                    }
                    (name, description, warnings)
                },
                None => {
                    warnings.push(
                        String::from_str("Invalid SKILL.md: failed to parse YAML frontmatter"),
                    );
                    proof {
                        assert(warnings.deep_view() =~= seq![
                            "Invalid SKILL.md: failed to parse YAML frontmatter"@,
                        ]);
                    }
                    (None, None, warnings)
                },
            }
        },
    }
}

// ---------------------------------------------------------------------------
// Repository sources.
// ---------------------------------------------------------------------------

/// A parsed repository source.
#[derive(Debug, Clone, PartialEq)]
pub struct RepoParsed {
    pub normalized_repo: String,
    pub clone_https: String,
    pub clone_ssh: String,
    pub effective_subpath: Option<String>,
}

pub open spec fn no_space_seq(s: Seq<char>) -> bool {
    forall|i: int| 0 <= i < s.len() ==> !is_space(#[trigger] s[i])
}

pub open spec fn no_char_seq(s: Seq<char>, c: char) -> bool {
    forall|i: int| 0 <= i < s.len() ==> (#[trigger] s[i]) != c
}

/// A repository name with any number of trailing `.git` suffixes stripped.
pub open spec fn strip_git(s: Seq<char>) -> Seq<char>
    decreases s.len(),
{
    if s.len() >= 4 && s.subrange(s.len() - 4, s.len() as int) == ".git"@ {
        strip_git(s.subrange(0, s.len() - 4))
    } else {
        s
    }
}

/// Split at the first slash: the part before it and the part after it.
pub open spec fn split_owner(rest: Seq<char>) -> Option<(Seq<char>, Seq<char>)> {
    let k = sep_end(rest, 0, '/');
    if k < rest.len() {
        Some((rest.take(k), rest.skip(k + 1)))
    } else {
        None
    }
}

/// A hosted URL under the given scheme prefix: `owner/repo`, the owner free
/// of slashes and whitespace, the repository name free of whitespace and
/// hashes, reaching the end of the source.
pub open spec fn try_hosted(raw: Seq<char>, prefix: Seq<char>) -> Option<(Seq<char>, Seq<char>)> {
    if starts_with(raw, prefix) {
        match split_owner(raw.skip(prefix.len() as int)) {
            Some((owner, repo)) => if owner.len() > 0 && no_space_seq(owner) && repo.len() > 0
                && no_space_seq(repo) && no_char_seq(repo, '#') {
                Some((owner, strip_git(repo)))
            } else {
                None
            },
            None => None,
        }
    } else {
        None
    }
}

/// The shorthand form `owner/repo[/subpath]`: owner and repository free of
/// slashes and whitespace, the optional subpath anything nonempty.
pub open spec fn try_shorthand(raw: Seq<char>) -> Option<(Seq<char>, Seq<char>, Option<Seq<char>>)> {
    match split_owner(raw) {
        Some((owner, rest1)) => {
            if owner.len() == 0 || !no_space_seq(owner) {
                None
            } else {
                let k2 = sep_end(rest1, 0, '/');
                if k2 >= rest1.len() {
                    if rest1.len() > 0 && no_space_seq(rest1) {
                        Some((owner, strip_git(rest1), None))
                    } else {
                        None
                    }
                } else {
                    let repo = rest1.take(k2);
                    let sub = rest1.skip(k2 + 1);
                    if repo.len() > 0 && no_space_seq(repo) && sub.len() > 0 {
                        Some(
                            (
                                owner,
                                strip_git(repo),
                                if spec_trim(sub).len() > 0 {
                                    Some(spec_trim(sub))
                                } else {
                                    None
                                },
                            ),
                        )
                    } else {
                        None
                    }
                }
            }
        },
        None => None,
    }
}

/// What parsing a repository source yields: the owner, the repository name
/// with `.git` stripped, and the effective subpath, with an explicitly given
/// subpath taking precedence over one written into a shorthand source.
pub open spec fn spec_parse_repo_source(source: Seq<char>, subpath: Option<Seq<char>>) -> Option<
    (Seq<char>, Seq<char>, Option<Seq<char>>),
> {
    let raw = spec_trim(source);
    let explicit = match subpath {
        Some(s) => if spec_trim(s).len() > 0 {
            Some(spec_trim(s))
        } else {
            None
        },
        None => None,
    };
    if raw.len() == 0 {
        None
    } else {
        match try_hosted(raw, "git@github.com:"@) {
            Some((o, r)) => Some((o, r, explicit)),
            None => match try_hosted(raw, "https://github.com/"@) {
                Some((o, r)) => Some((o, r, explicit)),
                None => match try_hosted(raw, "http://github.com/"@) {
                    Some((o, r)) => Some((o, r, explicit)),
                    None => match try_shorthand(raw) {
                        Some((o, r, sh)) => Some(
                            (
                                o,
                                r,
                                if explicit is Some {
                                    explicit
                                } else {
                                    sh
                                },
                            ),
                        ),
                        None => None,
                    },
                },
            },
        }
    }
}

/// Find the first slash in a character range.
#[verifier::loop_isolation(false)]
fn find_slash(v: &Vec<char>, from: usize, to: usize) -> (r: Option<usize>)
    requires
        from <= to <= v@.len(),
    ensures
        ({
            let seg = v@.subrange(from as int, to as int);
            let k = sep_end(seg, 0, '/');
            match r {
                Some(i) => from <= i < to && k == i - from && v@[i as int] == '/',
                None => k >= seg.len(),
            }
        }),
{
    let mut i: usize = from;
    while i < to && v[i] != '/'
        invariant
            from <= i <= to,
            forall|j: int| from <= j < i ==> #[trigger] v@[j] != '/',
        decreases to - i,
    {
        i += 1;
    }
    proof {
        let seg = v@.subrange(from as int, to as int);
        assert forall|j: int| 0 <= j < i - from implies #[trigger] seg[j] != '/' by {
            assert(seg[j] == v@[from + j]);
        }
        if i < to {
            assert(seg[i - from as int] == v@[i as int]);
        }
        lemma_sep_end_is(seg, 0, i - from as int, '/');
    }
    if i < to {
        Some(i)
    } else {
        None
    }
}

/// Whether a character range is free of whitespace and, optionally, hashes.
#[verifier::loop_isolation(false)]
fn range_clean(v: &Vec<char>, from: usize, to: usize, ban_hash: bool) -> (r: bool)
    requires
        from <= to <= v@.len(),
    ensures
        ({
            let seg = v@.subrange(from as int, to as int);
            r == (no_space_seq(seg) && (ban_hash ==> no_char_seq(seg, '#')))
        }),
{
    let ghost seg = v@.subrange(from as int, to as int);
    let mut i: usize = from;
    while i < to
        invariant
            from <= i <= to,
            forall|j: int| 0 <= j < i - from ==> !is_space(#[trigger] seg[j]),
            ban_hash ==> forall|j: int| 0 <= j < i - from ==> (#[trigger] seg[j]) != '#',
        decreases to - i,
    {
        proof {
            assert(seg[i - from as int] == v@[i as int]);
        }
        if space_char(v[i]) {
            return false;
        }
        if ban_hash && v[i] == '#' {
            return false;
        }
        i += 1;
    }
    true
}

/// Strip trailing `.git` suffixes from a character range: returns the new
/// end position.
#[verifier::loop_isolation(false)]
fn strip_git_end(v: &Vec<char>, from: usize, to: usize) -> (r: usize)
    requires
        from <= to <= v@.len(),
    ensures
        from <= r <= to,
        v@.subrange(from as int, r as int) == strip_git(v@.subrange(from as int, to as int)),
{
    proof {
        reveal_strlit(".git");
    }
    let mut e: usize = to;
    while e - from >= 4 && v[e - 4] == '.' && v[e - 3] == 'g' && v[e - 2] == 'i' && v[e - 1]
        == 't'
        invariant
            from <= e <= to,
            strip_git(v@.subrange(from as int, e as int)) == strip_git(
                v@.subrange(from as int, to as int),
            ),
        decreases e,
    {
        proof {
            let seg = v@.subrange(from as int, e as int);
            assert(seg.subrange(seg.len() - 4, seg.len() as int) =~= ".git"@);
            assert(seg.subrange(0, seg.len() - 4) =~= v@.subrange(from as int, e - 4));
        }
        e -= 4;
    }
    proof {
        let seg = v@.subrange(from as int, e as int);
        if seg.len() >= 4 && seg.subrange(seg.len() - 4, seg.len() as int) == ".git"@ {
            assert(seg[seg.len() - 4] == v@[e - 4]);
            assert(seg[seg.len() - 3] == v@[e - 3]);
            assert(seg[seg.len() - 2] == v@[e - 2]);
            assert(seg[seg.len() - 1] == v@[e - 1]);
            assert(".git"@[0] == '.' && ".git"@[1] == 'g' && ".git"@[2] == 'i' && ".git"@[3]
                == 't');
            assert(seg.subrange(seg.len() - 4, seg.len() as int)[0] == seg[seg.len() - 4]);
            assert(seg.subrange(seg.len() - 4, seg.len() as int)[1] == seg[seg.len() - 3]);
            assert(seg.subrange(seg.len() - 4, seg.len() as int)[2] == seg[seg.len() - 2]);
            assert(seg.subrange(seg.len() - 4, seg.len() as int)[3] == seg[seg.len() - 1]);
            assert(false);
        }
    }
    e
}

/// Attempt the hosted-URL form under one scheme prefix; returns the owner
/// range start, the slash position, and the repository end after `.git`
/// stripping.
#[verifier::loop_isolation(false)]
fn hosted_attempt(v: &Vec<char>, a: usize, b: usize, prefix: &Vec<char>) -> (r: Option<
    (usize, usize, usize),
>)
    requires
        a <= b <= v@.len(),
    ensures
        ({
            let raw = v@.subrange(a as int, b as int);
            match r {
                Some((o0, k, e)) => try_hosted(raw, prefix@) matches Some((ow, rep))
                    && o0 == a + prefix@.len() && o0 <= k < b && ow == v@.subrange(
                    o0 as int,
                    k as int,
                ) && k + 1 <= e <= b && rep == v@.subrange(k + 1, e as int),
                None => try_hosted(raw, prefix@) is None,
            }
        }),
{
    let ghost raw = v@.subrange(a as int, b as int);
    if !chars_start_with(v, a, b, prefix) {
        return None;
    }
    let o0 = a + prefix.len();
    let ghost rest = raw.skip(prefix@.len() as int);
    proof {
        assert(rest =~= v@.subrange(o0 as int, b as int));
    }
    match find_slash(v, o0, b) {
        None => {
            proof {
                assert(sep_end(rest, 0, '/') >= rest.len());
            }
            None
        },
        Some(k) => {
            proof {
                assert(sep_end(rest, 0, '/') == k - o0);
                assert(rest.take(k - o0 as int) =~= v@.subrange(o0 as int, k as int));
                assert(rest.skip(k - o0 + 1) =~= v@.subrange(k + 1, b as int));
            }
            if k == o0 {
                return None;
            }
            if !range_clean(v, o0, k, false) {
                return None;
            }
            if k + 1 == b {
                return None;
            }
            if !range_clean(v, k + 1, b, true) {
                return None;
            }
            let e = strip_git_end(v, k + 1, b);
            Some((o0, k, e))
        },
    }
}

/// Build the parsed record from the owner and repository character ranges.
fn build_parsed(
    v: &Vec<char>,
    o0: usize,
    k: usize,
    r0: usize,
    e: usize,
    effective_subpath: Option<String>,
) -> (r: RepoParsed)
    requires
        o0 <= k <= v@.len(),
        r0 <= e <= v@.len(),
    ensures
        ({
            let ow = v@.subrange(o0 as int, k as int);
            let rep = v@.subrange(r0 as int, e as int);
            &&& r.normalized_repo@ == ow + "/"@ + rep
            &&& r.clone_https@ == "https://github.com/"@ + ow + "/"@ + rep + ".git"@
            &&& r.clone_ssh@ == "git@github.com:"@ + ow + "/"@ + rep + ".git"@
            &&& r.effective_subpath == effective_subpath
        }),
{
    let owner = chars_range_string(v, o0, k);
    let repo = chars_range_string(v, r0, e);
    let normalized_repo = owner.clone().concat("/").concat(repo.as_str());
    let clone_https = String::from_str("https://github.com/").concat(owner.as_str()).concat(
        "/",
    ).concat(repo.as_str()).concat(".git");
    let clone_ssh = String::from_str("git@github.com:").concat(owner.as_str()).concat(
        "/",
    ).concat(repo.as_str()).concat(".git");
    RepoParsed { normalized_repo, clone_https, clone_ssh, effective_subpath }
}

/// Parse a repository source: a hosted URL in SSH or HTTPS form, or the
/// shorthand `owner/repo[/subpath]`; an explicitly given subpath overrides
/// one written into the source.
#[verifier::loop_isolation(false)]
pub fn parse_repo_source(source: &str, subpath: Option<&str>) -> (r: Result<RepoParsed, String>)
    ensures
        ({
            let sv = match subpath {
                Some(s) => Some(s@),
                None => None::<Seq<char>>,
            };
            match spec_parse_repo_source(source@, sv) {
                Some((o, rep, sub)) => r matches Ok(p) && p.normalized_repo@ == o + "/"@ + rep
                    && p.clone_https@ == "https://github.com/"@ + o + "/"@ + rep + ".git"@
                    && p.clone_ssh@ == "git@github.com:"@ + o + "/"@ + rep + ".git"@
                    && p.effective_subpath.deep_view() == sub,
                None => r is Err,
            }
        }),
{
    let cs = str_chars(source);
    let n = cs.len();
    proof {
        assert(cs@.subrange(0, n as int) =~= cs@);
    }
    let (a, b) = trim_chars(&cs, 0, n);
    let ghost raw = spec_trim(source@);
    let explicit: Option<String> = match subpath {
        Some(s) => {
            let t = trim_string(s);
            if t.as_str().is_empty() {
                None
            } else {
                Some(t)
            }
        },
        None => None,
    };
    if a == b {
        return Err(String::from_str("Repository source is required"));
    }
    let pre_ssh = str_chars("git@github.com:");
    let pre_https = str_chars("https://github.com/");
    let pre_http = str_chars("http://github.com/");
    match hosted_attempt(&cs, a, b, &pre_ssh) {
        Some((o0, k, e)) => {
            return Ok(build_parsed(&cs, o0, k, k + 1, e, explicit));
        },
        None => {},
    }
    match hosted_attempt(&cs, a, b, &pre_https) {
        Some((o0, k, e)) => {
            return Ok(build_parsed(&cs, o0, k, k + 1, e, explicit));
        },
        None => {},
    }
    match hosted_attempt(&cs, a, b, &pre_http) {
        Some((o0, k, e)) => {
            return Ok(build_parsed(&cs, o0, k, k + 1, e, explicit));
        },
        None => {},
    }
    // shorthand: owner/repo[/subpath]
    match find_slash(&cs, a, b) {
        None => Err(String::from_str("Unsupported repository source format")),
        Some(k) => {
            proof {
                assert(sep_end(raw, 0, '/') == k - a);
                assert(raw.take(k - a as int) =~= cs@.subrange(a as int, k as int));
                assert(raw.skip(k - a + 1) =~= cs@.subrange(k + 1, b as int));
            }
            if k == a || !range_clean(&cs, a, k, false) {
                return Err(String::from_str("Unsupported repository source format"));
            }
            let ghost rest1 = raw.skip(k - a + 1);
            match find_slash(&cs, k + 1, b) {
                None => {
                    proof {
                        assert(sep_end(rest1, 0, '/') >= rest1.len());
                    }
                    if k + 1 == b || !range_clean(&cs, k + 1, b, false) {
                        return Err(String::from_str("Unsupported repository source format"));
                    }
                    let e = strip_git_end(&cs, k + 1, b);
                    Ok(build_parsed(&cs, a, k, k + 1, e, explicit))
                },
                Some(k2) => {
                    proof {
                        assert(sep_end(rest1, 0, '/') == k2 - (k + 1));
                        assert(rest1.take(k2 - (k + 1) as int) =~= cs@.subrange(
                            k + 1,
                            k2 as int,
                        ));
                        assert(rest1.skip(k2 - (k + 1) + 1) =~= cs@.subrange(k2 + 1, b as int));
                    }
                    if k + 1 == k2 || !range_clean(&cs, k + 1, k2, false) {
                        return Err(String::from_str("Unsupported repository source format"));
                    }
                    if k2 + 1 == b {
                        return Err(String::from_str("Unsupported repository source format"));
                    }
                    let e = strip_git_end(&cs, k + 1, k2);
                    let shorthand_sub = {
                        let t = chars_range_string(&cs, k2 + 1, b);
                        let tt = trim_string(t.as_str());
                        if tt.as_str().is_empty() {
                            None
                        } else {
                            Some(tt)
                        }
                    };
                    let effective: Option<String> = match explicit {
                        Some(x) => Some(x),
                        None => shorthand_sub,
                    };
                    Ok(build_parsed(&cs, a, k, k + 1, e, effective))
                },
            }
        },
    }
}

// ---------------------------------------------------------------------------
// Repository listings of skill description files.
// ---------------------------------------------------------------------------

/// A sequence ends with a suffix.
pub open spec fn ends_with(s: Seq<char>, p: Seq<char>) -> bool {
    s.len() >= p.len() && s.subrange(s.len() - p.len(), s.len() as int) == p
}

/// Backslashes straightened to forward slashes.
pub open spec fn slashes_fixed(s: Seq<char>) -> Seq<char> {
    s.map_values(
        |c: char|
            if c == '\\' {
                '/'
            } else {
                c
            },
    )
}

/// The directories of the skill description files a file listing names: for
/// each trimmed line ending in `/SKILL.md`, the directory above it with its
/// slashes straightened; a description at the repository root names no
/// installable directory and is dropped.
pub open spec fn spec_skill_dirs(lines: Seq<Seq<char>>) -> Seq<Seq<char>>
    decreases lines.len(),
{
    if lines.len() == 0 {
        Seq::<Seq<char>>::empty()
    } else {
        let rest = spec_skill_dirs(lines.drop_first());
        let t = spec_trim(lines[0]);
        if t.len() > 0 && ends_with(t, "/SKILL.md"@) {
            seq![slashes_fixed(t.subrange(0, t.len() - "/SKILL.md"@.len()))] + rest
        } else {
            rest
        }
    }
}

/// Collect the skill directories out of a file listing.
#[verifier::loop_isolation(false)]
pub fn skill_dirs_of_listing(output: &str) -> (r: Vec<String>)
    ensures
        r.deep_view() == spec_skill_dirs(spec_split(output@, '\n')),
{
    let lines = split_string(output, '\n');
    let suffix = str_chars("/SKILL.md");
    let mut out: Vec<String> = Vec::new();
    proof {
        reveal_strlit("/SKILL.md");
        assert(out.deep_view() =~= Seq::<Seq<char>>::empty());
        assert(lines.deep_view().skip(0) =~= lines.deep_view());
    }
    let mut i: usize = 0;
    while i < lines.len()
        invariant
            i <= lines@.len(),
            suffix@ == "/SKILL.md"@,
            out.deep_view() + spec_skill_dirs(lines.deep_view().skip(i as int))
                =~= spec_skill_dirs(lines.deep_view()),
        decreases lines@.len() - i,
    {
        proof {
            assert(lines.deep_view().skip(i as int)[0] == lines.deep_view()[i as int]);
            assert(lines.deep_view().skip(i as int).drop_first() =~= lines.deep_view().skip(
                i + 1,
            ));
        }
        let ghost acc0 = out.deep_view();
        let ghost l = lines.deep_view()[i as int];
        let cs = str_chars(lines[i].as_str());
        let n = cs.len();
        proof {
            assert(cs@ == l);
            assert(cs@.subrange(0, n as int) =~= cs@);
        }
        let (a, b) = trim_chars(&cs, 0, n);
        let ghost t = spec_trim(l);
        if b - a >= 9 && chars_start_with(&cs, b - 9, b, &suffix) {
            proof {
                assert(cs@.subrange(b - 9, b as int).subrange(0, 9) =~= cs@.subrange(
                    b - 9,
                    b as int,
                ));
                assert(t.subrange(t.len() - 9, t.len() as int) =~= cs@.subrange(b - 9, b as int));
                assert(ends_with(t, "/SKILL.md"@));
            }
            let mut dir: Vec<char> = Vec::new();
            let mut k: usize = a;
            proof {
                assert(dir@ =~= slashes_fixed(cs@.subrange(a as int, a as int)));
            }
            while k < b - 9
                invariant
                    a <= k <= b - 9,
                    b <= cs@.len(),
                    dir@ == slashes_fixed(cs@.subrange(a as int, k as int)),
                decreases b - 9 - k,
            {
                let c = cs[k];
                dir.push(
                    if c == '\\' {
                        '/'
                    } else {
                        c
                    },
                );
                k += 1;
                proof {
                    assert(dir@ =~= slashes_fixed(cs@.subrange(a as int, k as int)));
                }
            }
            proof {
                assert(cs@.subrange(a as int, b - 9) =~= t.subrange(0, t.len() - 9));
            }
            out.push(crate::chars::chars_string(&dir));
            proof {
                assert(out.deep_view() =~= acc0.push(
                    slashes_fixed(t.subrange(0, t.len() - "/SKILL.md"@.len())),
                ));
            }
        } else {
            proof {
                if t.len() > 0 && ends_with(t, "/SKILL.md"@) {
                    assert(t.len() >= 9);
                    assert(b - a >= 9);
                    assert(t.subrange(t.len() - 9, t.len() as int) =~= cs@.subrange(
                        b - 9,
                        b as int,
                    ));
                    assert(cs@.subrange(b - 9, b as int).subrange(0, 9) =~= cs@.subrange(
                        b - 9,
                        b as int,
                    ));
                }
            }
        }
        i += 1;
        proof {
            assert(out.deep_view() + spec_skill_dirs(lines.deep_view().skip(i as int))
                =~= spec_skill_dirs(lines.deep_view()));
        }
    }
    proof {
        assert(lines.deep_view().skip(lines.deep_view().len() as int)
            =~= Seq::<Seq<char>>::empty());
        assert(out.deep_view() =~= spec_skill_dirs(lines.deep_view()));
    }
    out
}

/// Strictly ascending in the string order: sorted, with no duplicates.
pub open spec fn strictly_sorted(s: Seq<Seq<char>>) -> bool {
    forall|i: int, j: int|
        0 <= i < j < s.len() ==> lex_le(#[trigger] s[i], #[trigger] s[j]) && s[i] != s[j]
}

/// Sort the collected directories and drop duplicates: the result is
/// strictly ascending and holds exactly the directories of the input.
#[verifier::loop_isolation(false)]
pub fn sorted_unique_dirs(dirs: &Vec<String>) -> (r: Vec<String>)
    ensures
        strictly_sorted(r.deep_view()),
        forall|x: Seq<char>|
            #[trigger] r.deep_view().contains(x) <==> dirs.deep_view().contains(x),
{
    let mut out: Vec<String> = Vec::new();
    proof {
        assert(out.deep_view() =~= Seq::<Seq<char>>::empty());
    }
    let mut i: usize = 0;
    while i < dirs.len()
        invariant
            i <= dirs@.len(),
            strictly_sorted(out.deep_view()),
            forall|x: Seq<char>|
                #[trigger] out.deep_view().contains(x) <==> dirs.deep_view().subrange(
                    0,
                    i as int,
                ).contains(x),
        decreases dirs@.len() - i,
    {
        let d = &dirs[i];
        proof {
            assert(dirs.deep_view()[i as int] == dirs@[i as int]@);
        }
        let mut k: usize = 0;
        while k < out.len() && lex_le_strings(&out[k], d) && out[k] != *d
            invariant
                k <= out@.len(),
                forall|j: int|
                    0 <= j < k ==> lex_le(#[trigger] out.deep_view()[j], d@)
                        && out.deep_view()[j] != d@,
            decreases out@.len() - k,
        {
            proof {
                assert(out.deep_view()[k as int] == out@[k as int]@);
            }
            k += 1;
        }
        let ghost ov = out.deep_view();
        if k < out.len() && out[k] == *d {
            // already collected
            proof {
                assert(out.deep_view()[k as int] == d@);
                assert(out.deep_view().contains(d@));
                assert(dirs.deep_view().subrange(0, i + 1).drop_last() =~= dirs.deep_view()
                    .subrange(0, i as int));
                assert forall|x: Seq<char>| #[trigger]
                    out.deep_view().contains(x) <==> dirs.deep_view().subrange(
                        0,
                        i + 1,
                    ).contains(x) by {
                    lemma_subrange_contains(dirs.deep_view(), i as int, x);
                }
            }
        } else {
            proof {
                if k < out@.len() {
                    assert(out.deep_view()[k as int] == out@[k as int]@);
                    assert(!(lex_le(ov[k as int], d@) && ov[k as int] != d@));
                    assert(ov[k as int] != d@);
                    lemma_lex_total(ov[k as int], d@);
                    assert(lex_le(d@, ov[k as int]));
                }
            }
            // rebuild with the new directory in place
            let mut rebuilt: Vec<String> = Vec::new();
            let mut p: usize = 0;
            proof {
                assert(rebuilt.deep_view() =~= ov.subrange(0, 0));
            }
            while p < k
                invariant
                    p <= k <= out@.len(),
                    rebuilt.deep_view() =~= ov.subrange(0, p as int),
                decreases k - p,
            {
                let ghost pre = rebuilt.deep_view();
                rebuilt.push(out[p].clone());
                p += 1;
                proof {
                    assert(rebuilt.deep_view() =~= ov.subrange(0, p as int));
                }
            }
            rebuilt.push(d.clone());
            proof {
                assert(rebuilt.deep_view() =~= ov.subrange(0, k as int).push(d@));
            }
            let mut q: usize = k;
            while q < out.len()
                invariant
                    k <= q <= out@.len(),
                    rebuilt.deep_view() =~= ov.subrange(0, k as int).push(d@) + ov.subrange(
                        k as int,
                        q as int,
                    ),
                decreases out@.len() - q,
            {
                let ghost prev = rebuilt.deep_view();
                rebuilt.push(out[q].clone());
                q += 1;
                proof {
                    assert(rebuilt.deep_view() =~= prev.push(ov[q - 1]));
                    assert(rebuilt.deep_view() =~= ov.subrange(0, k as int).push(d@)
                        + ov.subrange(k as int, q as int));
                }
            }
            proof {
                assert(ov.subrange(k as int, ov.len() as int) =~= ov.skip(k as int));
            }
            out = rebuilt;
            proof {
                let nv = out.deep_view();
                assert(nv =~= ov.subrange(0, k as int).push(d@) + ov.skip(k as int));
                assert(nv.len() == ov.len() + 1);
                assert forall|a2: int, b2: int|
                    0 <= a2 < b2 < nv.len() implies lex_le(#[trigger] nv[a2], #[trigger] nv[b2])
                    && nv[a2] != nv[b2] by {
                    lemma_sorted_insert_pair(ov, d@, k as int, a2, b2);
                }
                assert forall|x: Seq<char>| #[trigger]
                    nv.contains(x) <==> dirs.deep_view().subrange(0, i + 1).contains(x) by {
                    lemma_insert_contains(ov, d@, k as int, x);
                    lemma_subrange_contains(dirs.deep_view(), i as int, x);
                    if ov.contains(x) || x == d@ {
                        if x == d@ {
                            assert(nv[k as int] == d@);
                            assert(nv.contains(x));
                        }
                    }
                }
            }
        }
        i += 1;
    }
    proof {
        assert(dirs.deep_view().subrange(0, dirs.deep_view().len() as int)
            =~= dirs.deep_view());
    }
    out
}

/// Membership in one more element of a prefix.
proof fn lemma_subrange_contains(s: Seq<Seq<char>>, i: int, x: Seq<char>)
    requires
        0 <= i < s.len(),
    ensures
        s.subrange(0, i + 1).contains(x) <==> (s.subrange(0, i).contains(x) || x == s[i]),
{
    let pre = s.subrange(0, i);
    let ext = s.subrange(0, i + 1);
    if ext.contains(x) {
        let j = choose|j: int| 0 <= j < ext.len() && ext[j] == x;
        if j < i {
            assert(pre[j] == x);
        } else {
            assert(x == s[i]);
        }
    }
    if pre.contains(x) {
        let j = choose|j: int| 0 <= j < pre.len() && pre[j] == x;
        assert(ext[j] == x);
    }
    if x == s[i] {
        assert(ext[i] == x);
    }
}

/// Membership across an insertion.
proof fn lemma_insert_contains(ov: Seq<Seq<char>>, d: Seq<char>, k: int, x: Seq<char>)
    requires
        0 <= k <= ov.len(),
    ensures
        (ov.subrange(0, k).push(d) + ov.skip(k)).contains(x) <==> (ov.contains(x) || x == d),
{
    let nv = ov.subrange(0, k).push(d) + ov.skip(k);
    if nv.contains(x) {
        let j = choose|j: int| 0 <= j < nv.len() && nv[j] == x;
        if j < k {
            assert(ov[j] == x);
        } else if j == k {
            assert(x == d);
        } else {
            assert(ov[j - 1] == x);
        }
    }
    if ov.contains(x) {
        let j = choose|j: int| 0 <= j < ov.len() && ov[j] == x;
        if j < k {
            assert(nv[j] == x);
        } else {
            assert(nv[j + 1] == x);
        }
    }
    if x == d {
        assert(nv[k] == x);
    }
}

/// Order of any pair across an insertion at the right position.
proof fn lemma_sorted_insert_pair(ov: Seq<Seq<char>>, d: Seq<char>, k: int, a2: int, b2: int)
    requires
        0 <= k <= ov.len(),
        strictly_sorted(ov),
        forall|j: int| 0 <= j < k ==> lex_le(#[trigger] ov[j], d) && ov[j] != d,
        k < ov.len() ==> lex_le(d, ov[k]) && ov[k] != d,
        0 <= a2 < b2 < ov.len() + 1,
    ensures
        ({
            let nv = ov.subrange(0, k).push(d) + ov.skip(k);
            lex_le(nv[a2], nv[b2]) && nv[a2] != nv[b2]
        }),
{
    let nv = ov.subrange(0, k).push(d) + ov.skip(k);
    if a2 < k {
        assert(nv[a2] == ov[a2]);
    } else if a2 == k {
        assert(nv[a2] == d);
    } else {
        assert(nv[a2] == ov[a2 - 1]);
    }
    if b2 < k {
        assert(nv[b2] == ov[b2]);
    } else if b2 == k {
        assert(nv[b2] == d);
    } else {
        assert(nv[b2] == ov[b2 - 1]);
    }
    if a2 < k && b2 == k {
        // an element before the insertion point against the new one
    } else if a2 == k && b2 > k {
        // the new element against one at or after the insertion point
        assert(k < ov.len());
        if b2 - 1 > k {
            lemma_lex_trans(d, ov[k], ov[b2 - 1]);
            if d == ov[b2 - 1] {
                lemma_lex_total(ov[k], ov[b2 - 1]);
                lemma_lex_total(d, ov[k]);
                assert(lex_le(ov[k], d));
                assert(ov[k] == d);
                assert(false);
            }
        }
    } else if a2 < k && b2 > k {
        if k < ov.len() {
            assert(lex_le(ov[a2], ov[b2 - 1]) && ov[a2] != ov[b2 - 1]);
        } else {
            assert(false);
        }
    }
}

// ---------------------------------------------------------------------------
// Custom catalog sources out of the persisted settings.
// ---------------------------------------------------------------------------

/// Build the custom catalog sources stored in the settings document: each
/// well-formed entry of its catalog list, with identifier, label and source
/// nonempty after trimming, optional fields kept only when nonempty, the
/// source doubling as the description, and the first occurrence of each
/// identifier winning.
#[verifier::loop_isolation(false)]
pub fn custom_catalog_sources(settings: &crate::settings::SettingsValue) -> (r: Vec<
    SkillsCatalogSource,
>)
    ensures
        forall|i: int|
            0 <= i < r@.len() ==> {
                let s = #[trigger] r@[i];
                s.id@.len() > 0 && s.label@.len() > 0 && s.source@.len() > 0
            },
        forall|i: int, j: int| 0 <= i < j < r@.len() ==> r@[i].id@ != r@[j].id@,
{
    let mut out: Vec<SkillsCatalogSource> = Vec::new();
    let mut seen: Vec<String> = Vec::new();
    let entries = match settings {
        crate::settings::SettingsValue::Obj(entries) => entries,
        _ => {
            return out;
        },
    };
    let catalogs = match crate::settings::obj_get(entries, "skillCatalogs") {
        Some(crate::settings::SettingsValue::Arr(catalogs)) => catalogs,
        _ => {
            return out;
        },
    };
    let mut i: usize = 0;
    while i < catalogs.len()
        invariant
            i <= catalogs@.len(),
            seen.deep_view().len() == out@.len(),
            forall|k: int| 0 <= k < out@.len() ==> (#[trigger] out@[k]).id@ == seen.deep_view()[k],
            forall|k: int|
                0 <= k < out@.len() ==> {
                    let s = #[trigger] out@[k];
                    s.id@.len() > 0 && s.label@.len() > 0 && s.source@.len() > 0
                },
            forall|a: int, b: int|
                0 <= a < b < out@.len() ==> out@[a].id@ != out@[b].id@,
        decreases catalogs@.len() - i,
    {
        match &catalogs[i] {
            crate::settings::SettingsValue::Obj(obj) => {
                let id = trimmed_setting(obj, "id");
                let label = trimmed_setting(obj, "label");
                let source = trimmed_setting(obj, "source");
                let subpath = trimmed_setting(obj, "subpath");
                let git_identity_id = trimmed_setting(obj, "gitIdentityId");
                if !id.as_str().is_empty() && !label.as_str().is_empty()
                    && !source.as_str().is_empty() && !crate::strutil::contains_string(
                    &seen,
                    &id,
                ) {
                    let ghost pre = out@;
                    let ghost pre_seen = seen.deep_view();
                    seen.push(id.clone());
                    out.push(
                        SkillsCatalogSource {
                            id,
                            label,
                            description: Some(source.clone()),
                            source,
                            default_subpath: if subpath.as_str().is_empty() {
                                None
                            } else {
                                Some(subpath)
                            },
                            git_identity_id: if git_identity_id.as_str().is_empty() {
                                None
                            } else {
                                Some(git_identity_id)
                            },
                        },
                    );
                    proof {
                        assert(out@.drop_last() =~= pre);
                        assert(seen.deep_view() =~= pre_seen.push(out@.last().id@));
                        assert forall|a: int, b: int|
                            0 <= a < b < out@.len() implies out@[a].id@ != out@[b].id@ by {
                            if b == out@.len() - 1 {
                                assert(!pre_seen.contains(out@[b].id@));
                                assert(out@[a].id@ == pre_seen[a]);
                            }
                        }
                    }
                }
            },
            _ => {},
        }
        i += 1;
    }
    out
}

/// A string field of a settings object, trimmed; empty when absent or not
/// a string.
fn trimmed_setting(
    entries: &Vec<(String, crate::settings::SettingsValue)>,
    key: &str,
) -> (r: String) {
    match crate::settings::obj_get(entries, key) {
        Some(crate::settings::SettingsValue::Str(s)) => trim_string(s.as_str()),
        _ => String::new(),
    }
}

} // verus!
