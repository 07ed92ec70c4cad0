use vstd::prelude::*;

use crate::chars::{chars_range_string, spec_trim, str_chars, trim_chars, trim_string};
use crate::strutil::{
    chars_start_with, contains_string, join_strings, join_with, spec_split, split_string,
    starts_with,
};

verus! {

// ---------------------------------------------------------------------------
// The best-effort login-shell environment probe.  Running the user's shell
// and reading files is the caller's business; everything here decides what
// to run and what its output means.
// ---------------------------------------------------------------------------

/// What the login shell exported, as parsed from the probe's output.
pub struct ShellEnv {
    pub path: Option<String>,
    pub opencode_binary: Option<String>,
}

/// The component after the last slash of a shell path.
pub open spec fn spec_basename(s: Seq<char>) -> Seq<char> {
    spec_split(s, '/').last()
}

/// The second colon-separated field of a directory-service record, trimmed:
/// how the user's shell is read out of `UserShell: /bin/zsh`.
pub open spec fn spec_get_user_shell(s: Seq<char>) -> Option<Seq<char>> {
    let segs = spec_split(s, ':');
    if segs.len() >= 2 {
        Some(spec_trim(segs[1]))
    } else {
        None
    }
}

/// Extract the user's shell from the output of the directory-service query.
pub fn get_user_shell(dscl_output: &str) -> (r: Option<String>)
    ensures
        r.deep_view() == spec_get_user_shell(dscl_output@),
{
    let segs = split_string(dscl_output, ':');
    if segs.len() >= 2 {
        Some(trim_string(segs[1].as_str()))
    } else {
        None
    }
}

/// The arguments handed to the user's shell to print its login environment,
/// chosen by the shell's basename.
pub open spec fn spec_shell_env_command(shell: Seq<char>) -> Seq<Seq<char>> {
    let name = spec_basename(shell);
    if name == "nu"@ || name == "nushell"@ {
        seq![
            "-l"@,
            "-i"@,
            "-c"@,
            "echo $\"__PATH__=($env.PATH | str join (char esep))\"; echo $\"__OPENCODE_BINARY__=($env.OPENCODE_BINARY? | default '')\""@,
        ]
    } else if name == "bash"@ {
        seq![
            "-lic"@,
            "source ~/.bashrc 2>/dev/null; echo \"__PATH__=$PATH\"; echo \"__OPENCODE_BINARY__=$OPENCODE_BINARY\""@,
        ]
    } else {
        seq![
            "-lic"@,
            "echo \"__PATH__=$PATH\"; echo \"__OPENCODE_BINARY__=$OPENCODE_BINARY\""@,
        ]
    }
}

/// Build the probe command line for the given shell.
pub fn build_shell_env_command(shell: &str) -> (r: Vec<String>)
    ensures
        r.deep_view() == spec_shell_env_command(shell@),
{
    let segs = split_string(shell, '/');
    let name = &segs[segs.len() - 1];
    proof {
        assert(segs.deep_view().last() == segs.deep_view()[segs.deep_view().len() - 1]);
    }
    let mut r: Vec<String> = Vec::new();
    if *name == String::from_str("nu") || *name == String::from_str("nushell") {
        r.push(String::from_str("-l"));
        r.push(String::from_str("-i"));
        r.push(String::from_str("-c"));
        r.push(String::from_str(
            "echo $\"__PATH__=($env.PATH | str join (char esep))\"; echo $\"__OPENCODE_BINARY__=($env.OPENCODE_BINARY? | default '')\"",
        ));
    } else if *name == String::from_str("bash") {
        r.push(String::from_str("-lic"));
        r.push(String::from_str(
            "source ~/.bashrc 2>/dev/null; echo \"__PATH__=$PATH\"; echo \"__OPENCODE_BINARY__=$OPENCODE_BINARY\"",
        ));
    } else {
        r.push(String::from_str("-lic"));
        r.push(String::from_str(
            "echo \"__PATH__=$PATH\"; echo \"__OPENCODE_BINARY__=$OPENCODE_BINARY\"",
        ));
    }
    proof {
        assert(r.deep_view() =~~= spec_shell_env_command(shell@));
    }
    r
}

/// A probe output line with a trailing carriage return dropped.
pub open spec fn drop_cr(l: Seq<char>) -> Seq<char> {
    if l.len() > 0 && l.last() == '\r' {
        l.drop_last()
    } else {
        l
    }
}

/// Folding the probe's output lines: the last nonempty `__PATH__=` and
/// `__OPENCODE_BINARY__=` lines win.
pub open spec fn shell_env_fold(
    lines: Seq<Seq<char>>,
    acc: (Option<Seq<char>>, Option<Seq<char>>),
) -> (Option<Seq<char>>, Option<Seq<char>>)
    decreases lines.len(),
{
    if lines.len() == 0 {
        acc
    } else {
        let l = drop_cr(lines[0]);
        let acc1 = if starts_with(l, "__PATH__="@) && l.len() > "__PATH__="@.len() {
            (Some(l.skip("__PATH__="@.len() as int)), acc.1)
        } else if starts_with(l, "__OPENCODE_BINARY__="@) && l.len() > "__OPENCODE_BINARY__="@.len() {
            (acc.0, Some(l.skip("__OPENCODE_BINARY__="@.len() as int)))
        } else {
            acc
        };
        shell_env_fold(lines.drop_first(), acc1)
    }
}

/// What the whole probe output means.
pub open spec fn spec_shell_env(stdout: Seq<char>) -> (Option<Seq<char>>, Option<Seq<char>>) {
    shell_env_fold(spec_split(stdout, '\n'), (None, None))
}

/// Parse the probe's standard output into the exported values.
pub fn parse_shell_env(stdout: &str) -> (r: ShellEnv)
    ensures
        (r.path.deep_view(), r.opencode_binary.deep_view()) == spec_shell_env(stdout@),
{
    let lines = split_string(stdout, '\n');
    let path_prefix = str_chars("__PATH__=");
    let bin_prefix = str_chars("__OPENCODE_BINARY__=");
    let mut path: Option<String> = None;
    let mut bin: Option<String> = None;
    proof {
        assert(lines.deep_view().skip(0) =~= lines.deep_view());
    }
    let mut i: usize = 0;
    while i < lines.len()
        invariant
            i <= lines@.len(),
            path_prefix@ == "__PATH__="@,
            bin_prefix@ == "__OPENCODE_BINARY__="@,
            shell_env_fold(
                lines.deep_view().skip(i as int),
                (path.deep_view(), bin.deep_view()),
            ) == shell_env_fold(lines.deep_view(), (None, None)),
        decreases lines@.len() - i,
    {
        let cs = str_chars(lines[i].as_str());
        let mut end: usize = cs.len();
        if end > 0 && cs[end - 1] == '\r' {
            end -= 1;
        }
        proof {
            assert(lines.deep_view()[i as int] == lines@[i as int]@);
            assert(cs@.subrange(0, end as int) =~= drop_cr(lines.deep_view()[i as int]));
        }
        let ghost l = drop_cr(lines.deep_view()[i as int]);
        let ghost acc0 = (path.deep_view(), bin.deep_view());
        let is_path = chars_start_with(&cs, 0, end, &path_prefix);
        let is_bin = chars_start_with(&cs, 0, end, &bin_prefix);
        if is_path && end > path_prefix.len() {
            path = Some(chars_range_string(&cs, path_prefix.len(), end));
            proof {
                assert(path.deep_view() == Some(l.skip("__PATH__="@.len() as int))) by {
                    assert(cs@.subrange(path_prefix@.len() as int, end as int) =~= l.skip(
                        "__PATH__="@.len() as int,
                    ));
                }
            }
        } else if is_bin && end > bin_prefix.len() {
            bin = Some(chars_range_string(&cs, bin_prefix.len(), end));
            proof {
                assert(bin.deep_view() == Some(l.skip("__OPENCODE_BINARY__="@.len() as int))) by {
                    assert(cs@.subrange(bin_prefix@.len() as int, end as int) =~= l.skip(
                        "__OPENCODE_BINARY__="@.len() as int,
                    ));
                }
            }
        }
        proof {
            assert(shell_env_fold(lines.deep_view().skip(i as int), acc0) == shell_env_fold(
                lines.deep_view().skip(i + 1),
                (path.deep_view(), bin.deep_view()),
            )) by {
                assert(lines.deep_view().skip(i as int).drop_first() =~= lines.deep_view().skip(
                    i + 1,
                ));
                assert(lines.deep_view().skip(i as int)[0] == lines.deep_view()[i as int]);
            }
        }
        i += 1;
    }
    proof {
        assert(lines.deep_view().skip(i as int) =~= Seq::<Seq<char>>::empty());
    }
    ShellEnv { path, opencode_binary: bin }
}

/// The login shell's exported search path, or an error when the probe's
/// output held none.
pub fn detect_login_shell_path(shell_stdout: &str) -> (r: Result<String, String>)
    ensures
        match r {
            Ok(p) => spec_shell_env(shell_stdout@).0 == Some(p@),
            Err(_) => spec_shell_env(shell_stdout@).0 is None,
        },
{
    let env = parse_shell_env(shell_stdout);
    match env.path {
        Some(p) => Ok(p),
        None => Err(String::from_str("shell PATH detection failed")),
    }
}

// ---------------------------------------------------------------------------
// Search-path merging for the spawned process's environment.
// ---------------------------------------------------------------------------

/// Deduplicating segments from the left, dropping empties, keeping first
/// occurrences; `acc` holds what was already kept.
pub open spec fn dedup_from(segs: Seq<Seq<char>>, acc: Seq<Seq<char>>) -> Seq<Seq<char>>
    decreases segs.len(),
{
    if segs.len() == 0 {
        acc
    } else if segs[0].len() == 0 || acc.contains(segs[0]) {
        dedup_from(segs.drop_first(), acc)
    } else {
        dedup_from(segs.drop_first(), acc.push(segs[0]))
    }
}

/// What merging the login shell's search path with the current one yields:
/// every segment of both, first occurrence first, empties dropped.
pub open spec fn spec_merge_paths(login: Seq<char>, current: Seq<char>) -> Seq<char> {
    join_with(
        dedup_from(spec_split(login, ':') + spec_split(current, ':'), Seq::<Seq<char>>::empty()),
        ':',
    )
}

/// Merge the login shell's search path with the current one, keeping the
/// first occurrence of each segment and dropping empty ones.
pub fn merge_paths(login_path: &str, current: &str) -> (r: String)
    ensures
        r@ == spec_merge_paths(login_path@, current@),
{
    let a = split_string(login_path, ':');
    let b = split_string(current, ':');
    let ghost all = a.deep_view() + b.deep_view();
    proof {
        assert(all.skip(0) =~= all);
    }
    let mut out: Vec<String> = Vec::new();
    proof {
        assert(out.deep_view() =~= Seq::<Seq<char>>::empty());
    }
    let mut i: usize = 0;
    while i < a.len()
        invariant
            i <= a@.len(),
            all == a.deep_view() + b.deep_view(),
            dedup_from(all.skip(i as int), out.deep_view()) == dedup_from(
                all,
                Seq::<Seq<char>>::empty(),
            ),
        decreases a@.len() - i,
    {
        proof {
            assert(all.skip(i as int)[0] == a.deep_view()[i as int]);
            assert(all.skip(i as int).drop_first() =~= all.skip(i + 1));
        }
        let ghost acc0 = out.deep_view();
        if !a[i].as_str().is_empty() && !contains_string(&out, &a[i]) {
            out.push(a[i].clone());
            proof {
                assert(out.deep_view() =~= acc0.push(a.deep_view()[i as int]));
            }
        } else {
            proof {
                assert(a.deep_view()[i as int].len() == 0 || acc0.contains(
                    a.deep_view()[i as int],
                ));
            }
        }
        i += 1;
    }
    let mut j: usize = 0;
    while j < b.len()
        invariant
            j <= b@.len(),
            i == a@.len(),
            all == a.deep_view() + b.deep_view(),
            dedup_from(all.skip(a@.len() + j), out.deep_view()) == dedup_from(
                all,
                Seq::<Seq<char>>::empty(),
            ),
        decreases b@.len() - j,
    {
        proof {
            assert(all.skip(a@.len() + j)[0] == b.deep_view()[j as int]);
            assert(all.skip(a@.len() + j).drop_first() =~= all.skip(a@.len() + j + 1));
        }
        let ghost acc0 = out.deep_view();
        if !b[j].as_str().is_empty() && !contains_string(&out, &b[j]) {
            out.push(b[j].clone());
            proof {
                assert(out.deep_view() =~= acc0.push(b.deep_view()[j as int]));
            }
        } else {
            proof {
                assert(b.deep_view()[j as int].len() == 0 || acc0.contains(
                    b.deep_view()[j as int],
                ));
            }
        }
        j += 1;
    }
    proof {
        assert(all.skip(a@.len() + b@.len() as int) =~= Seq::<Seq<char>>::empty());
    }
    join_strings(&out, ':')
}

// ---------------------------------------------------------------------------
// Binary resolution order.
// ---------------------------------------------------------------------------

/// The resolution order for the server binary: the explicit override, then
/// the binary the login shell exported, then the first hit on the login
/// shell's search path, then the fixed fallback under the home directory.
/// Each argument is already narrowed by its caller to a candidate that
/// exists on disk.
pub open spec fn spec_resolve_binary(
    override_path: Option<Seq<char>>,
    shell_binary: Option<Seq<char>>,
    path_hit: Option<Seq<char>>,
    fallback: Option<Seq<char>>,
) -> Option<Seq<char>> {
    if override_path is Some {
        override_path
    } else if shell_binary is Some {
        shell_binary
    } else if path_hit is Some {
        path_hit
    } else {
        fallback
    }
}

/// Pick the server binary in the documented resolution order; a disable flag
/// short-circuits everything.
pub fn resolve_opencode_binary(
    disabled: bool,
    override_path: Option<String>,
    shell_binary: Option<String>,
    path_hit: Option<String>,
    fallback: Option<String>,
) -> (r: Option<String>)
    ensures
        r.deep_view() == if disabled {
            None::<Seq<char>>
        } else {
            spec_resolve_binary(
                override_path.deep_view(),
                shell_binary.deep_view(),
                path_hit.deep_view(),
                fallback.deep_view(),
            )
        },
{
    if disabled {
        None
    } else if override_path.is_some() {
        override_path
    } else if shell_binary.is_some() {
        shell_binary
    } else if path_hit.is_some() {
        path_hit
    } else {
        fallback
    }
}

/// Whether the server CLI counts as present: not disabled, and resolved.
pub fn check_cli_exists(disabled: bool, resolved: &Option<String>) -> (r: bool)
    ensures
        r == (!disabled && resolved is Some),
{
    !disabled && resolved.is_some()
}

/// The candidate binary locations along a search path: each segment with
/// the binary name appended.
pub fn path_join_candidates(path_value: &str) -> (r: Vec<String>)
    ensures
        r.deep_view() == spec_split(path_value@, ':').map_values(
            |d: Seq<char>| d + "/opencode"@,
        ),
{
    let dirs = split_string(path_value, ':');
    let mut r: Vec<String> = Vec::new();
    let mut i: usize = 0;
    while i < dirs.len()
        invariant
            i <= dirs@.len(),
            r.deep_view() =~= dirs.deep_view().subrange(0, i as int).map_values(
                |d: Seq<char>| d + "/opencode"@,
            ),
        decreases dirs@.len() - i,
    {
        let ghost pre = r.deep_view();
        let cand = dirs[i].clone().concat("/opencode");
        let ghost cv = cand@;
        r.push(cand);
        i += 1;
        proof {
            assert(r.deep_view() =~= pre.push(cv));
            assert(cv == dirs.deep_view()[i - 1] + "/opencode"@);
            assert(r.deep_view() =~~= dirs.deep_view().subrange(0, i as int).map_values(
                |d: Seq<char>| d + "/opencode"@,
            ));
        }
    }
    proof {
        assert(dirs.deep_view().subrange(0, dirs.deep_view().len() as int) =~= dirs.deep_view());
        assert(r.deep_view() =~~= spec_split(path_value@, ':').map_values(
            |d: Seq<char>| d + "/opencode"@,
        ));
    }
    r
}

/// The first candidate marked as existing, in order: how the search-path
/// scan picks its hit.
pub fn first_existing(candidates: &Vec<String>, exists: &Vec<bool>) -> (r: Option<usize>)
    requires
        candidates@.len() == exists@.len(),
    ensures
        match r {
            Some(i) => i < candidates@.len() && exists@[i as int] && forall|j: int|
                0 <= j < i ==> !exists@[j],
            None => forall|j: int| 0 <= j < exists@.len() ==> !exists@[j],
        },
{
    let mut i: usize = 0;
    while i < candidates.len()
        invariant
            i <= candidates@.len() == exists@.len(),
            forall|j: int| 0 <= j < i ==> !exists@[j],
        decreases candidates@.len() - i,
    {
        if exists[i] {
            return Some(i);
        }
        i += 1;
    }
    None
}

} // verus!
