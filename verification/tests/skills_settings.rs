use openchamber::chars::{parse_u16_digits, str_chars, trim_string, u16_string};
use openchamber::scan::scan_line;
use openchamber::settings::{
    clamp_auto_delete_days, expand_tilde_path, extract_string_vec, normalize_string_array,
    obj_get, obj_remove, obj_set, sanitize_settings_update, sanitize_typography_sizes_partial,
    theme_variant_acceptable, SettingsValue,
};
use openchamber::shellenv::{
    build_shell_env_command, check_cli_exists, detect_login_shell_path, first_existing,
    get_user_shell, merge_paths, parse_shell_env, path_join_candidates, resolve_opencode_binary,
};
use openchamber::skills::{
    auth_required_error, cache_key, conflicts_error, custom_catalog_sources, install_action,
    needs_conflict_prompt, parse_repo_source, parse_skill_md_frontmatter, repo_path_to_fs,
    simple_error, skill_name_of, skill_dirs_of_listing, sorted_unique_dirs, target_skill_dir,
    validate_skill_name, InstallAction, SkillConflict,
};
use openchamber::gitopts::{append_git_option, i64_string, write_json};
use openchamber::strutil::{split_string, split_sub};

#[test]
fn skill_name_validation() {
    assert!(validate_skill_name("my-skill"));
    assert!(validate_skill_name("a"));
    assert!(validate_skill_name("skill2"));
    assert!(!validate_skill_name(""));
    assert!(!validate_skill_name("-bad"));
    assert!(!validate_skill_name("bad-"));
    assert!(!validate_skill_name("Bad"));
    assert!(!validate_skill_name("has space"));
    assert!(!validate_skill_name(&"a".repeat(65)));
    assert!(validate_skill_name(&"a".repeat(64)));
}

#[test]
fn skill_names_from_directories() {
    assert_eq!(skill_name_of("skills/foo"), "foo");
    assert_eq!(skill_name_of("a/b/c/"), "c");
    assert_eq!(skill_name_of(""), "");
    assert_eq!(skill_name_of("solo"), "solo");
}

#[test]
fn error_shapes() {
    let e = simple_error("networkError", "boom");
    assert_eq!(e.kind, "networkError");
    assert_eq!(e.message, "boom");
    assert!(e.ssh_only.is_none());

    let a = auth_required_error("need auth", Vec::new());
    assert_eq!(a.kind, "authRequired");
    assert_eq!(a.ssh_only, Some(true));
    assert!(a.identities.is_some());

    let c = conflicts_error(vec![SkillConflict {
        skill_name: String::from("x"),
        scope: String::from("user"),
    }]);
    assert_eq!(c.kind, "conflicts");
    assert_eq!(c.conflicts.as_ref().unwrap().len(), 1);
}

#[test]
fn cache_keys_and_paths() {
    assert_eq!(cache_key("o/r", Some("skills"), Some("id1")), "o/r::skills::id1");
    assert_eq!(cache_key("o/r", None, None), "o/r::::");
    assert_eq!(
        target_skill_dir("user", "/home/u", "/wd", "x").unwrap(),
        "/home/u/.config/opencode/skill/x"
    );
    assert_eq!(
        target_skill_dir("project", "/home/u", "/wd", "x").unwrap(),
        "/wd/.opencode/skill/x"
    );
    assert!(target_skill_dir("global", "/home/u", "/wd", "x").is_err());
    assert_eq!(repo_path_to_fs("/tmp/base", "a/b/SKILL.md"), "/tmp/base/a/b/SKILL.md");
    assert_eq!(repo_path_to_fs("/tmp/base", "  a //b "), "/tmp/base/a/b");
}

#[test]
fn conflict_policy_decisions() {
    assert!(needs_conflict_prompt(true, false, "prompt"));
    assert!(!needs_conflict_prompt(true, true, "prompt"));
    assert!(!needs_conflict_prompt(true, false, "skipAll"));
    assert!(!needs_conflict_prompt(true, false, "overwriteAll"));
    assert!(!needs_conflict_prompt(false, false, "prompt"));

    let skip = String::from("skip");
    let overwrite = String::from("overwrite");
    assert!(matches!(install_action(true, Some(&skip), "prompt"), InstallAction::SkipExisting));
    assert!(matches!(
        install_action(true, Some(&overwrite), "prompt"),
        InstallAction::ReplaceThenCopy
    ));
    assert!(matches!(install_action(true, None, "skipAll"), InstallAction::SkipExisting));
    assert!(matches!(
        install_action(true, None, "overwriteAll"),
        InstallAction::ReplaceThenCopy
    ));
    assert!(matches!(install_action(false, None, "prompt"), InstallAction::Copy));
}

#[test]
fn repo_sources_parse() {
    let p = parse_repo_source("anthropics/skills", None).unwrap();
    assert_eq!(p.normalized_repo, "anthropics/skills");
    assert_eq!(p.clone_https, "https://github.com/anthropics/skills.git");
    assert_eq!(p.clone_ssh, "git@github.com:anthropics/skills.git");
    assert!(p.effective_subpath.is_none());

    let p2 = parse_repo_source("o/r/some/sub", None).unwrap();
    assert_eq!(p2.normalized_repo, "o/r");
    assert_eq!(p2.effective_subpath.as_deref(), Some("some/sub"));

    let p3 = parse_repo_source("git@github.com:me/repo.git", Some("sk")).unwrap();
    assert_eq!(p3.normalized_repo, "me/repo");
    assert_eq!(p3.effective_subpath.as_deref(), Some("sk"));

    let p4 = parse_repo_source("https://github.com/me/repo", None).unwrap();
    assert_eq!(p4.normalized_repo, "me/repo");

    assert!(parse_repo_source("", None).is_err());
    assert!(parse_repo_source("justone", None).is_err());
    assert!(parse_repo_source("has space/x", None).is_err());
}

#[test]
fn frontmatter_parse() {
    let (name, desc, warnings) =
        parse_skill_md_frontmatter("---\nname: tester\ndescription: does things\n---\nbody");
    assert_eq!(name.as_deref(), Some("tester"));
    assert_eq!(desc.as_deref(), Some("does things"));
    assert!(warnings.is_empty());

    let (n2, d2, w2) = parse_skill_md_frontmatter("no frontmatter at all");
    assert!(n2.is_none() && d2.is_none());
    assert_eq!(w2, vec![String::from("Invalid SKILL.md: missing YAML frontmatter delimiter")]);

    let (n3, d3, w3) = parse_skill_md_frontmatter("---\nunclosed: yaml");
    assert!(n3.is_none() && d3.is_none());
    assert_eq!(w3.len(), 1);

    let (n4, d4, w4) = parse_skill_md_frontmatter("---\n: : bad : yaml :\n  -\n---\nbody");
    assert!(n4.is_none() && d4.is_none());
    assert_eq!(w4, vec![String::from("Invalid SKILL.md: failed to parse YAML frontmatter")]);
}

#[test]
fn shell_probe_command_by_basename() {
    let bash = build_shell_env_command("/bin/bash");
    assert_eq!(bash.len(), 2);
    assert_eq!(bash[0], "-lic");
    assert!(bash[1].starts_with("source ~/.bashrc"));
    let nu = build_shell_env_command("/usr/bin/nu");
    assert_eq!(nu.len(), 4);
    assert_eq!(&nu[0..3], &[String::from("-l"), String::from("-i"), String::from("-c")]);
    let zsh = build_shell_env_command("/bin/zsh");
    assert_eq!(zsh.len(), 2);
    assert_eq!(zsh[0], "-lic");
}

#[test]
fn shell_env_parse_and_path_detection() {
    let env = parse_shell_env("__PATH__=/usr/bin:/bin\n__OPENCODE_BINARY__=/opt/oc\nnoise\n");
    assert_eq!(env.path.as_deref(), Some("/usr/bin:/bin"));
    assert_eq!(env.opencode_binary.as_deref(), Some("/opt/oc"));
    assert_eq!(
        detect_login_shell_path("__PATH__=/usr/bin\n").unwrap(),
        "/usr/bin"
    );
    assert!(detect_login_shell_path("__PATH__=\nnothing").is_err());
    // a later line wins, and carriage returns are stripped
    let env2 = parse_shell_env("__PATH__=/a\r\n__PATH__=/b\r\n");
    assert_eq!(env2.path.as_deref(), Some("/b"));
}

#[test]
fn user_shell_from_directory_record() {
    assert_eq!(
        get_user_shell("UserShell: /bin/zsh\n").as_deref(),
        Some("/bin/zsh")
    );
    assert!(get_user_shell("no colon here").is_none());
}

#[test]
fn merged_search_paths() {
    assert_eq!(merge_paths("a:b", "b:c"), "a:b:c");
    assert_eq!(merge_paths("", "x"), "x");
    assert_eq!(merge_paths("a::a", ""), "a");
    assert_eq!(merge_paths("", ""), "");
}

#[test]
fn binary_resolution_order() {
    let r = resolve_opencode_binary(
        false,
        Some(String::from("/override")),
        Some(String::from("/shell")),
        Some(String::from("/path")),
        Some(String::from("/fallback")),
    );
    assert_eq!(r.as_deref(), Some("/override"));
    let r2 = resolve_opencode_binary(
        false,
        None,
        None,
        Some(String::from("/path")),
        Some(String::from("/fallback")),
    );
    assert_eq!(r2.as_deref(), Some("/path"));
    let r3 = resolve_opencode_binary(false, None, None, None, None);
    assert!(r3.is_none());
    let r4 = resolve_opencode_binary(true, Some(String::from("/override")), None, None, None);
    assert!(r4.is_none());
    assert!(check_cli_exists(false, &Some(String::from("/x"))));
    assert!(!check_cli_exists(true, &Some(String::from("/x"))));
    assert!(!check_cli_exists(false, &None));

    let candidates = path_join_candidates("/usr/bin:/opt");
    assert_eq!(
        candidates,
        vec![String::from("/usr/bin/opencode"), String::from("/opt/opencode")]
    );
    let exists = vec![false, true];
    assert_eq!(first_existing(&candidates, &exists), Some(1));
    assert_eq!(first_existing(&candidates, &vec![false, false]), None);
}

#[test]
fn settings_object_operations() {
    let mut entries: Vec<(String, SettingsValue)> = Vec::new();
    obj_set(&mut entries, String::from("themeId"), SettingsValue::Str(String::from("dark1")));
    obj_set(&mut entries, String::from("useSystemTheme"), SettingsValue::Bool(true));
    obj_set(&mut entries, String::from("themeId"), SettingsValue::Str(String::from("dark2")));
    assert_eq!(entries.len(), 2);
    match obj_get(&entries, "themeId") {
        Some(SettingsValue::Str(s)) => assert_eq!(s, "dark2"),
        _ => panic!("themeId missing"),
    }
    let removed = obj_remove(&mut entries, "useSystemTheme");
    assert_eq!(removed, Some(SettingsValue::Bool(true)));
    assert!(obj_get(&entries, "useSystemTheme").is_none());
}

#[test]
fn settings_array_normalization() {
    let arr = SettingsValue::Arr(vec![
        SettingsValue::Str(String::from("/a")),
        SettingsValue::Str(String::new()),
        SettingsValue::Num(7),
        SettingsValue::Str(String::from("/b")),
        SettingsValue::Str(String::from("/a")),
    ]);
    assert_eq!(extract_string_vec(&arr), vec![String::from("/a"), String::from("/b"), String::from("/a")]);
    match normalize_string_array(&arr) {
        SettingsValue::Arr(items) => {
            assert_eq!(items.len(), 2);
            assert_eq!(items[0], SettingsValue::Str(String::from("/a")));
            assert_eq!(items[1], SettingsValue::Str(String::from("/b")));
        },
        _ => panic!("expected an array"),
    }
    match normalize_string_array(&SettingsValue::Null) {
        SettingsValue::Arr(items) => assert!(items.is_empty()),
        _ => panic!("expected an array"),
    }
}

#[test]
fn typography_sanitization() {
    let typo = SettingsValue::Obj(vec![
        (String::from("code"), SettingsValue::Str(String::from("13px"))),
        (String::from("markdown"), SettingsValue::Str(String::from("15px"))),
        (String::from("micro"), SettingsValue::Str(String::new())),
        (String::from("unknown"), SettingsValue::Str(String::from("9px"))),
        (String::from("meta"), SettingsValue::Num(4)),
    ]);
    match sanitize_typography_sizes_partial(&typo) {
        Some(SettingsValue::Obj(entries)) => {
            assert_eq!(entries.len(), 2);
            assert_eq!(entries[0].0, "markdown");
            assert_eq!(entries[1].0, "code");
        },
        _ => panic!("expected kept sizes"),
    }
    assert!(sanitize_typography_sizes_partial(&SettingsValue::Obj(Vec::new())).is_none());
    assert!(sanitize_typography_sizes_partial(&SettingsValue::Null).is_none());
}

#[test]
fn scalar_rules() {
    assert!(theme_variant_acceptable("light"));
    assert!(theme_variant_acceptable("dark"));
    assert!(!theme_variant_acceptable("sepia"));
    assert_eq!(clamp_auto_delete_days(0), 1);
    assert_eq!(clamp_auto_delete_days(-5), 1);
    assert_eq!(clamp_auto_delete_days(30), 30);
    assert_eq!(clamp_auto_delete_days(4000), 365);
    assert_eq!(expand_tilde_path("/home/u", "~"), "/home/u");
    assert_eq!(expand_tilde_path("/home/u", "~/x"), "/home/u/x");
    assert_eq!(expand_tilde_path("/home/u", "/abs"), "/abs");
    assert_eq!(expand_tilde_path("/home/u", "~x"), "~x");
}

#[test]
fn low_level_text_helpers() {
    assert_eq!(u16_string(0), "0");
    assert_eq!(u16_string(65535), "65535");
    let digits = str_chars("8080");
    assert_eq!(parse_u16_digits(&digits, 0, 4), Some(8080));
    let over = str_chars("65536");
    assert_eq!(parse_u16_digits(&over, 0, 5), None);
    assert_eq!(trim_string("  x  "), "x");
    assert_eq!(split_string("a,b,,c", ','), vec!["a", "b", "", "c"]);
    assert_eq!(split_sub("a, b, c", ", "), vec!["a", "b", "c"]);

    let (port, prefix) = scan_line(&str_chars("serving at https://0.0.0.0:9999/base 'x'"));
    assert_eq!(port, Some(9999));
    assert_eq!(prefix.as_deref(), Some("/base"));
    let (no_port, no_prefix) = scan_line(&str_chars("nothing to see"));
    assert!(no_port.is_none() && no_prefix.is_none());
    let (p2, f2) = scan_line(&str_chars("at http://host:70000/x"));
    assert!(p2.is_none());
    assert_eq!(f2.as_deref(), Some("/x"));
}

#[test]
fn sanitized_update_keeps_accepted_fields_only() {
    let payload = SettingsValue::Obj(vec![
        (String::from("themeId"), SettingsValue::Str(String::from("dark1"))),
        (String::from("themeVariant"), SettingsValue::Str(String::from("sepia"))),
        (String::from("uiFont"), SettingsValue::Str(String::new())),
        (String::from("useSystemTheme"), SettingsValue::Bool(true)),
        (String::from("autoDeleteAfterDays"), SettingsValue::Num(4000)),
        (String::from("lastDirectory"), SettingsValue::Str(String::from("~/work"))),
        (String::from("unknownField"), SettingsValue::Str(String::from("x"))),
        (
            String::from("approvedDirectories"),
            SettingsValue::Arr(vec![
                SettingsValue::Str(String::from("/a")),
                SettingsValue::Str(String::from("/a")),
                SettingsValue::Num(1),
            ]),
        ),
    ]);
    let SettingsValue::Obj(out) = sanitize_settings_update(&payload, "/home/u") else {
        panic!("expected an object");
    };
    let get = |key: &str| -> Option<&SettingsValue> { obj_get(&out, key) };
    assert!(matches!(get("themeId"), Some(SettingsValue::Str(s)) if s == "dark1"));
    assert!(get("themeVariant").is_none());
    assert!(get("uiFont").is_none());
    assert!(get("unknownField").is_none());
    assert!(matches!(get("useSystemTheme"), Some(SettingsValue::Bool(true))));
    assert!(matches!(get("autoDeleteAfterDays"), Some(SettingsValue::Num(365))));
    assert!(matches!(get("lastDirectory"), Some(SettingsValue::Str(s)) if s == "/home/u/work"));
    match get("approvedDirectories") {
        Some(SettingsValue::Arr(items)) => {
            assert_eq!(items.len(), 1);
            assert_eq!(items[0], SettingsValue::Str(String::from("/a")));
        },
        _ => panic!("expected the array"),
    }
    let SettingsValue::Obj(empty) = sanitize_settings_update(&SettingsValue::Null, "/home/u")
    else {
        panic!("expected an object");
    };
    assert!(empty.is_empty());
}

#[test]
fn skill_listing_dirs() {
    let listing = "skills/alpha/SKILL.md\nREADME.md\nskills/beta/SKILL.md\nSKILL.md\n nested/deep/SKILL.md \n";
    let dirs = skill_dirs_of_listing(listing);
    assert_eq!(
        dirs,
        vec![
            String::from("skills/alpha"),
            String::from("skills/beta"),
            String::from("nested/deep"),
        ]
    );
    let unsorted = vec![
        String::from("b"),
        String::from("a"),
        String::from("b"),
        String::from("c"),
        String::from("a"),
    ];
    let sorted = sorted_unique_dirs(&unsorted);
    assert_eq!(sorted, vec![String::from("a"), String::from("b"), String::from("c")]);
}

#[test]
fn signed_number_rendering() {
    assert_eq!(i64_string(0), "0");
    assert_eq!(i64_string(42), "42");
    assert_eq!(i64_string(-7), "-7");
    assert_eq!(i64_string(i64::MIN), "-9223372036854775808");
    assert_eq!(i64_string(i64::MAX), "9223372036854775807");
}

#[test]
fn json_rendering() {
    let v = SettingsValue::Obj(vec![
        (String::from("a"), SettingsValue::Num(1)),
        (String::from("b"), SettingsValue::Arr(vec![
            SettingsValue::Bool(true),
            SettingsValue::Null,
            SettingsValue::Str(String::from("x\"y")),
        ])),
    ]);
    assert_eq!(write_json(&v), "{\"a\":1,\"b\":[true,null,\"x\\\"y\"]}");
    assert_eq!(write_json(&SettingsValue::Str(String::from("line\nbreak"))), "\"line\\nbreak\"");
}

#[test]
fn git_option_expansion() {
    let mut args: Vec<String> = Vec::new();
    let options = SettingsValue::Obj(vec![
        (String::from("--force"), SettingsValue::Bool(true)),
        (String::from("--dry-run"), SettingsValue::Bool(false)),
        (String::from("--push-option"), SettingsValue::Arr(vec![
            SettingsValue::Str(String::from("ci.skip")),
            SettingsValue::Num(2),
        ])),
        (String::from(" --tags "), SettingsValue::Null),
        (String::from(""), SettingsValue::Null),
    ]);
    append_git_option(&mut args, &options);
    assert_eq!(
        args,
        vec![
            String::from("--force"),
            String::from("--push-option=ci.skip"),
            String::from("--push-option=2"),
            String::from("--tags"),
        ]
    );

    let mut bare: Vec<String> = Vec::new();
    append_git_option(&mut bare, &SettingsValue::Str(String::from("  extra  ")));
    append_git_option(&mut bare, &SettingsValue::Num(-3));
    append_git_option(&mut bare, &SettingsValue::Bool(true));
    assert_eq!(bare, vec![String::from("extra"), String::from("-3")]);
}

#[test]
fn custom_sources_from_settings() {
    fn entry(id: &str, label: &str, source: &str) -> SettingsValue {
        SettingsValue::Obj(vec![
            (String::from("id"), SettingsValue::Str(String::from(id))),
            (String::from("label"), SettingsValue::Str(String::from(label))),
            (String::from("source"), SettingsValue::Str(String::from(source))),
        ])
    }
    let settings = SettingsValue::Obj(vec![(
        String::from("skillCatalogs"),
        SettingsValue::Arr(vec![
            entry("one", "One", "o/r"),
            entry("one", "Duplicate", "o/r2"),
            entry("", "No id", "o/r3"),
            entry("two", "Two", "o2/r"),
            SettingsValue::Null,
        ]),
    )]);
    let sources = custom_catalog_sources(&settings);
    assert_eq!(sources.len(), 2);
    assert_eq!(sources[0].id, "one");
    assert_eq!(sources[0].label, "One");
    assert_eq!(sources[0].description.as_deref(), Some("o/r"));
    assert_eq!(sources[1].id, "two");
    assert!(custom_catalog_sources(&SettingsValue::Null).is_empty());
}
