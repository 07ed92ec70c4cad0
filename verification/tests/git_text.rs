use openchamber::git::{
    add_identity, apply_change_types, build_push_args, build_push_result, cap_ipc_payload,
    count_lines, find_identity, get_image_mime_type, is_image_file, merge_diff_stats,
    normalize_relative_path, parse_branch_header, parse_branch_line, parse_commit_numstat,
    parse_log_header_line, parse_name_status, parse_numstat, parse_remote_heads, parse_shortstat,
    parse_status_porcelain, parse_track_info, parse_worktrees, remove_identity,
    truncate_string_to_char_boundary, update_identity, DiffStat, GitIdentityProfile,
};
use openchamber::git::{ensure_exclude_entry, is_true_output, last_header_line, parse_log_stats, split_log_records, strip_markdown_fences};
use openchamber::gitfile::{render_image_payload, render_text_payload};

#[test]
fn shortstat_single_file() {
    let s = parse_shortstat(" 1 file changed, 2 insertions(+), 1 deletion(-)\n");
    assert_eq!(s.changes, 1);
    assert_eq!(s.insertions, 2);
    assert_eq!(s.deletions, 1);
}

#[test]
fn shortstat_plural_files_counts_only_insertions_and_deletions() {
    // "files changed" does not contain the singular token the parser looks for
    let s = parse_shortstat(" 3 files changed, 10 insertions(+), 4 deletions(-)");
    assert_eq!(s.changes, 0);
    assert_eq!(s.insertions, 10);
    assert_eq!(s.deletions, 4);
}

#[test]
fn shortstat_empty_output() {
    let s = parse_shortstat("");
    assert_eq!(s.changes, 0);
    assert_eq!(s.insertions, 0);
    assert_eq!(s.deletions, 0);
}

#[test]
fn numstat_lines_and_binary_dash() {
    let stats = parse_numstat("3\t1\tsrc/a.rs\n-\t-\tassets/logo.png\nbad line\n");
    assert_eq!(stats.len(), 2);
    assert_eq!(stats[0].0, "src/a.rs");
    assert_eq!(stats[0].1, DiffStat { insertions: 3, deletions: 1 });
    assert_eq!(stats[1].0, "assets/logo.png");
    assert_eq!(stats[1].1, DiffStat { insertions: 0, deletions: 0 });
}

#[test]
fn merged_stats_sum_per_path() {
    let staged = parse_numstat("1\t2\ta\n5\t0\tb");
    let working = parse_numstat("3\t3\ta\n7\t1\tc");
    let merged = merge_diff_stats(&staged, &working);
    assert_eq!(merged.len(), 3);
    assert_eq!(merged[0], (String::from("a"), DiffStat { insertions: 4, deletions: 5 }));
    assert_eq!(merged[1], (String::from("b"), DiffStat { insertions: 5, deletions: 0 }));
    assert_eq!(merged[2], (String::from("c"), DiffStat { insertions: 7, deletions: 1 }));
}

#[test]
fn branch_header_with_tracking_and_counts() {
    let (current, tracking, ahead, behind) =
        parse_branch_header("main...origin/main [ahead 1, behind 2]");
    assert_eq!(current, "main");
    assert_eq!(tracking.as_deref(), Some("origin/main"));
    assert_eq!(ahead, 1);
    assert_eq!(behind, 2);
}

#[test]
fn branch_header_without_remote() {
    let (current, tracking, ahead, behind) = parse_branch_header("feature/x");
    assert_eq!(current, "feature/x");
    assert!(tracking.is_none());
    assert_eq!(ahead, 0);
    assert_eq!(behind, 0);
}

#[test]
fn branch_header_tracking_without_counts() {
    let (current, tracking, ahead, behind) = parse_branch_header("dev...origin/dev");
    assert_eq!(current, "dev");
    assert_eq!(tracking.as_deref(), Some("origin/dev"));
    assert_eq!(ahead, 0);
    assert_eq!(behind, 0);
}

#[test]
fn track_info_annotation() {
    assert_eq!(parse_track_info(""), (None, None));
    assert_eq!(parse_track_info("[ahead 3]"), (Some(3), None));
    assert_eq!(parse_track_info("[ahead 3, behind 7]"), (Some(3), Some(7)));
    assert_eq!(parse_track_info("[behind 1]"), (None, Some(1)));
    assert_eq!(parse_track_info("[gone]"), (None, None));
}

#[test]
fn log_header_line_fields() {
    let line = "abc123\u{1f}Ada\u{1f}ada@example.com\u{1f}2024-05-01\u{1f}fix: parser";
    let entry = parse_log_header_line(line).unwrap();
    assert_eq!(entry.hash, "abc123");
    assert_eq!(entry.author_name, "Ada");
    assert_eq!(entry.author_email, "ada@example.com");
    assert_eq!(entry.date, "2024-05-01");
    assert_eq!(entry.message, "fix: parser");
    assert_eq!(entry.files_changed, 0);
    assert!(parse_log_header_line("too\u{1f}few\u{1f}fields").is_none());
}

#[test]
fn push_args_publish_on_first_push() {
    let (args, remote, branch) =
        build_push_args(None, None, String::from("main"), "", "");
    assert_eq!(remote, "origin");
    assert_eq!(branch, "main");
    assert_eq!(
        args,
        vec![
            String::from("push"),
            String::from("origin"),
            String::from("--set-upstream"),
            String::from("main"),
        ]
    );
}

#[test]
fn push_args_explicit_branch_skips_upstream() {
    let (args, remote, branch) = build_push_args(
        Some(String::from("upstream")),
        Some(String::from("dev")),
        String::from("main"),
        "",
        "",
    );
    assert_eq!(remote, "upstream");
    assert_eq!(branch, "dev");
    assert_eq!(
        args,
        vec![String::from("push"), String::from("upstream"), String::from("dev")]
    );
}

#[test]
fn push_args_with_configured_upstream() {
    let (args, _, _) = build_push_args(
        None,
        None,
        String::from("main"),
        "origin",
        "refs/heads/main",
    );
    assert_eq!(
        args,
        vec![String::from("push"), String::from("origin"), String::from("main")]
    );
}

#[test]
fn push_result_shapes() {
    let r = build_push_result(String::from("origin"), String::from("main"));
    assert!(r.success);
    assert_eq!(r.repo, "origin");
    assert_eq!(r.pushed.len(), 1);
    assert_eq!(r.pushed[0].local, "main");
    assert_eq!(r.pushed[0].remote, "origin/main");
    assert_eq!(r.ref_.as_deref(), Some("main"));

    let empty = build_push_result(String::from("origin"), String::new());
    assert!(empty.success);
    assert!(empty.pushed.is_empty());
    assert!(empty.ref_.is_none());
}

#[test]
fn image_file_detection() {
    assert!(is_image_file("logo.PNG"));
    assert!(is_image_file("photo.jpeg"));
    assert!(!is_image_file("main.rs"));
    assert!(!is_image_file("noextension"));
    assert_eq!(get_image_mime_type("a.svg"), "image/svg+xml");
    assert_eq!(get_image_mime_type("a.jpg"), "image/jpeg");
    assert_eq!(get_image_mime_type("a.txt"), "application/octet-stream");
}

#[test]
fn truncation_and_payload_caps() {
    assert_eq!(
        truncate_string_to_char_boundary(String::from("hello"), 3, "..."),
        "hel..."
    );
    assert_eq!(
        truncate_string_to_char_boundary(String::from("hi"), 10, "..."),
        "hi"
    );
    assert_eq!(cap_ipc_payload(String::new()), "");
    assert_eq!(cap_ipc_payload(String::from("short text")), "short text");
    let small_data_url = String::from("data:image/png;base64,AAAA");
    assert_eq!(cap_ipc_payload(small_data_url.clone()), small_data_url);
    let huge_data_url = format!("data:image/png;base64,{}", "A".repeat(700_000));
    assert_eq!(cap_ipc_payload(huge_data_url), "");
}

#[test]
fn relative_path_normalization() {
    assert_eq!(normalize_relative_path("a/./b/../c"), "a/c");
    assert_eq!(normalize_relative_path("a//b"), "a/b");
    assert_eq!(normalize_relative_path("../x"), "x");
    assert_eq!(normalize_relative_path("a/b/"), "a/b");
}

#[test]
fn identity_bookkeeping() {
    fn profile(id: &str) -> GitIdentityProfile {
        GitIdentityProfile {
            id: String::from(id),
            name: String::from("Name"),
            user_name: String::from("user"),
            user_email: String::from("user@example.com"),
            ssh_key: None,
            color: None,
            icon: None,
        }
    }
    let mut profiles: Vec<GitIdentityProfile> = Vec::new();
    assert!(add_identity(&mut profiles, profile("a")));
    assert!(add_identity(&mut profiles, profile("b")));
    assert!(!add_identity(&mut profiles, profile("a")));
    assert_eq!(profiles.len(), 2);
    assert_eq!(find_identity(&profiles, "b"), Some(1));
    assert_eq!(find_identity(&profiles, "zz"), None);
    let mut updated = profile("b");
    updated.user_name = String::from("other");
    assert_eq!(update_identity(&mut profiles, "b", updated), Some(1));
    assert_eq!(profiles[1].user_name, "other");
    assert!(remove_identity(&mut profiles, "a"));
    assert!(!remove_identity(&mut profiles, "a"));
    assert_eq!(profiles.len(), 1);
}

#[test]
fn rendered_payloads() {
    assert_eq!(render_text_payload(&Vec::new()), "");
    assert_eq!(render_text_payload(&b"hello".to_vec()), "hello");
    assert_eq!(
        render_image_payload("image/png", &vec![1u8, 2, 3]),
        "data:image/png;base64,AQID"
    );
    assert_eq!(render_image_payload("image/png", &Vec::new()), "");
}

#[test]
fn branch_line_local_and_remote() {
    let local = parse_branch_line(
        "refs/heads/main|main|abc123|origin/main|*|[ahead 2]",
        None,
    )
    .unwrap();
    assert!(local.current);
    assert_eq!(local.name, "main");
    assert_eq!(local.label, "main");
    assert_eq!(local.commit, "abc123");
    assert_eq!(local.tracking.as_deref(), Some("origin/main"));
    assert_eq!(local.ahead, Some(2));
    assert_eq!(local.behind, None);

    let remote = parse_branch_line(
        "refs/remotes/origin/dev|origin/dev|def456||| ",
        None,
    )
    .unwrap();
    assert!(!remote.current);
    assert_eq!(remote.name, "remotes/origin/dev");
    assert_eq!(remote.label, "origin/dev");

    assert!(parse_branch_line("refs/remotes/origin/HEAD|origin/HEAD|x|||", None).is_none());
    let allowed = vec![String::from("main")];
    assert!(parse_branch_line(
        "refs/remotes/origin/stale|origin/stale|x|||",
        Some(&allowed)
    )
    .is_none());
    assert!(parse_branch_line("short|line", None).is_none());
}

#[test]
fn remote_heads_listing() {
    let heads = parse_remote_heads(
        "abc\trefs/heads/main\ndef\trefs/heads/dev\nxyz\trefs/tags/v1\nnoise\n",
    );
    assert_eq!(heads, vec![String::from("main"), String::from("dev")]);
}

#[test]
fn status_porcelain_entries() {
    let output = "## main...origin/main [ahead 1]\0 M src/a.rs\0?? new.txt\0R  old.rs\0new.rs\0";
    let status = parse_status_porcelain(output);
    assert_eq!(status.current, "main");
    assert_eq!(status.tracking.as_deref(), Some("origin/main"));
    assert_eq!(status.ahead, 1);
    assert_eq!(status.behind, 0);
    assert!(!status.is_clean);
    assert_eq!(status.files.len(), 3);
    assert_eq!(status.files[0].path, "src/a.rs");
    assert_eq!(status.files[0].index, "");
    assert_eq!(status.files[0].working_dir, "M");
    assert_eq!(status.files[1].path, "new.txt");
    assert_eq!(status.files[1].index, "?");
    assert_eq!(status.files[2].path, "new.rs");
    assert_eq!(status.files[2].index, "R");
    assert!(status.diff_stats.is_none());

    let clean = parse_status_porcelain("## main\0");
    assert!(clean.is_clean);
    assert!(clean.tracking.is_none());
}

#[test]
fn worktree_listing() {
    let out = "worktree /repo\nHEAD abc\nbranch refs/heads/main\n\nworktree /wt\nHEAD def\n";
    let ws = parse_worktrees(out);
    assert_eq!(ws.len(), 2);
    assert_eq!(ws[0].worktree, "/repo");
    assert_eq!(ws[0].head.as_deref(), Some("abc"));
    assert_eq!(ws[0].branch.as_deref(), Some("main"));
    assert_eq!(ws[1].worktree, "/wt");
    assert_eq!(ws[1].head.as_deref(), Some("def"));
    assert!(ws[1].branch.is_none());
}

#[test]
fn commit_files_from_numstat_and_name_status() {
    let mut files = parse_commit_numstat("3\t1\tsrc/a.rs\n-\t-\tlogo.png\n1\t0\told.rs => new.rs\n");
    assert_eq!(files.len(), 3);
    assert_eq!(files[0].path, "src/a.rs");
    assert_eq!(files[0].insertions, 3);
    assert!(!files[0].is_binary);
    assert!(files[1].is_binary);
    assert_eq!(files[0].change_type, "M");

    let status_map = parse_name_status("A\tsrc/a.rs\nR100\told.rs\tnew.rs\n");
    assert_eq!(status_map.len(), 2);
    assert_eq!(status_map[0], (String::from("src/a.rs"), String::from("A")));
    assert_eq!(status_map[1], (String::from("new.rs"), String::from("R")));

    apply_change_types(&mut files, &status_map);
    assert_eq!(files[0].change_type, "A");
    assert_eq!(files[2].change_type, "R");
    assert_eq!(files[1].change_type, "M");
}

#[test]
fn line_counting() {
    assert_eq!(count_lines(""), 0);
    assert_eq!(count_lines("a"), 1);
    assert_eq!(count_lines("a\n"), 1);
    assert_eq!(count_lines("a\nb"), 2);
    assert_eq!(count_lines("a\nb\n"), 2);
}

#[test]
fn log_stat_chunks() {
    assert_eq!(parse_log_stats(" 1 file changed, 2 insertions(+), 1 deletion(-)"), (1, 2, 1));
    assert_eq!(parse_log_stats(" 3 files changed, 10 insertions(+)"), (3, 10, 0));
    assert_eq!(parse_log_stats("no stats here"), (0, 0, 0));
    assert_eq!(parse_log_stats(" 5 deletions(-)"), (0, 0, 5));
}

#[test]
fn log_records_and_next_header() {
    let out = "h1\u{1f}a\u{1f}a@x\u{1f}d\u{1f}m1\u{1e}\n 1 file changed\n\nh2\u{1f}b\u{1f}b@x\u{1f}d\u{1f}m2\u{1e}";
    let records = split_log_records(out);
    assert_eq!(records.len(), 3);
    let header = last_header_line(records[1].as_str()).unwrap();
    assert!(header.starts_with("h2\u{1f}"));
    assert!(last_header_line(" 1 file changed\n").is_none());
}

#[test]
fn exclusion_entry_updates() {
    assert_eq!(ensure_exclude_entry(String::new()), Some(String::from("/.openchamber/\n")));
    assert_eq!(
        ensure_exclude_entry(String::from("target")),
        Some(String::from("target\n/.openchamber/\n"))
    );
    assert_eq!(
        ensure_exclude_entry(String::from("target\n")),
        Some(String::from("target\n/.openchamber/\n"))
    );
    assert!(ensure_exclude_entry(String::from("a\n/.openchamber/\nb\n")).is_none());
}

#[test]
fn repository_probe_output() {
    assert!(is_true_output("true\n"));
    assert!(is_true_output("  TRUE "));
    assert!(!is_true_output("false"));
    assert!(!is_true_output("truex"));
}

#[test]
fn fenced_response_unwrapping() {
    assert_eq!(strip_markdown_fences("```json\n{\"a\":1}\n```"), "{\"a\":1}");
    assert_eq!(strip_markdown_fences("  {\"a\":1}  "), "{\"a\":1}");
    assert_eq!(strip_markdown_fences("```\n{}\n```"), "{}");
    assert_eq!(strip_markdown_fences(""), "");
}
