use do_something::command::Command;
use do_something::dir::Context;
use do_something::ds_file::{get_match_score, DsFile, Match};
use do_something::group::{Group, GroupMode};

fn strings(v: &[&str]) -> Vec<String> {
    v.iter().map(|s| s.to_string()).collect()
}

fn levels(v: &[&[&str]]) -> Vec<Vec<String>> {
    v.iter().map(|l| strings(l)).collect()
}

fn group(commands: Vec<(&str, Command)>) -> Group {
    Group {
        name: None,
        description: None,
        default: None,
        commands: commands.into_iter().map(|(k, c)| (k.to_string(), c)).collect(),
        envs: None,
        default_env: None,
        root: None,
        mode: None,
        aliases: None,
    }
}

fn ctx() -> Context {
    Context { current_dir: "/work".to_string(), git_root: None, home: None }
}

#[test]
fn match_score_cases() {
    struct Case {
        name: &'static str,
        keys: Vec<&'static str>,
        alias_keys: Vec<Vec<&'static str>>,
        target: Vec<&'static str>,
        expected_score: Option<usize>,
    }

    let cases = vec![
        Case {
            name: "Exact match",
            keys: vec!["group", "cmd"],
            alias_keys: vec![vec!["group"], vec!["cmd"]],
            target: vec!["group", "cmd"],
            expected_score: Some(2),
        },
        Case {
            name: "Match by alias",
            keys: vec!["group", "cmd"],
            alias_keys: vec![vec!["g", "group"], vec!["c", "cmd"]],
            target: vec!["g", "c"],
            expected_score: Some(2),
        },
        Case {
            name: "Partial match is nested and rejected",
            keys: vec!["group", "cmd"],
            alias_keys: vec![vec!["group"], vec!["cmd"]],
            target: vec!["group"],
            expected_score: None,
        },
        Case {
            name: "Mismatch at first segment",
            keys: vec!["group", "cmd"],
            alias_keys: vec![vec!["group"], vec!["cmd"]],
            target: vec!["other"],
            expected_score: None,
        },
        Case {
            name: "Mismatch after first segment",
            keys: vec!["group", "cmd"],
            alias_keys: vec![vec!["group"], vec!["cmd"]],
            target: vec!["group", "nope"],
            expected_score: None,
        },
        Case {
            name: "Extra target segments still match",
            keys: vec!["group"],
            alias_keys: vec![vec!["group"]],
            target: vec!["group", "extra"],
            expected_score: Some(1),
        },
    ];

    for case in cases {
        let alias_keys: Vec<Vec<String>> =
            case.alias_keys.iter().map(|l| strings(l)).collect();
        let result = Match::from_command(
            "ds.json".to_string(),
            &strings(&case.keys),
            &alias_keys,
            &strings(&case.target),
        );

        let score = result.as_ref().map(|m| m.score);
        assert_eq!(score, case.expected_score, "{}", case.name);
    }
}

#[test]
fn aliases_give_identical_keys() {
    let keys = strings(&["tools", "build"]);
    let lv = levels(&[&["tools"], &["build", "a", "b"]]);
    let by_a = Match::from_command("ds.json".to_string(), &keys, &lv, &strings(&["tools", "a"]))
        .unwrap();
    let by_b = Match::from_command("ds.json".to_string(), &keys, &lv, &strings(&["tools", "b"]))
        .unwrap();
    assert_eq!(by_a.keys, by_b.keys);
    assert_eq!(by_a.keys, vec!["tools", "build"]);
    assert_eq!(by_a.score, by_b.score);
}

#[test]
fn exact_mode_rejects_deeper_nodes() {
    let lv = levels(&[&["group"], &["cmd"], &["leaf"]]);
    let target = strings(&["group", "cmd"]);
    assert!(Match::from_command("ds.json".to_string(), &strings(&["group", "cmd", "leaf"]), &lv, &target).is_none());
    assert_eq!(get_match_score(&lv, &target, false), 0);
    assert_eq!(get_match_score(&lv, &target, true), 2);
}

#[test]
fn zero_score_never_matches() {
    let lv = levels(&[&["group"]]);
    assert_eq!(get_match_score(&lv, &strings(&["other"]), true), 0);
    assert_eq!(get_match_score(&lv, &[], true), 0);
}

#[test]
fn flattened_group_level_is_not_required() {
    let mut tools = group(vec![("lint", Command::Inline("cargo clippy".to_string()))]);
    tools.mode = Some(GroupMode::Flattened);
    let root = group(vec![("tools", Command::Group(tools))]);
    let file = DsFile::from_group(root, "/work/ds.json".to_string(), None);
    let ms = file.matches(&strings(&["lint"]), &ctx()).unwrap();
    assert_eq!(ms.len(), 1);
    assert_eq!(ms[0].keys, vec!["tools", "lint"]);
    assert_eq!(ms[0].score, 1);
    assert_eq!(ms[0].file_path, "/work/ds.json");
}

#[test]
fn deepest_matches_are_kept() {
    let inner = group(vec![("build", Command::Inline("make".to_string()))]);
    let mut app = inner;
    app.default = Some("build".to_string());
    let root = group(vec![
        ("app", Command::Group(app)),
        ("build", Command::Inline("cargo build".to_string())),
    ]);
    let file = DsFile::from_group(root, "/work/ds.json".to_string(), None);
    let ms = file.matches(&strings(&["app", "build"]), &ctx()).unwrap();
    assert_eq!(ms.len(), 1);
    assert_eq!(ms[0].keys, vec!["app", "build"]);
    assert_eq!(ms[0].score, 2);
    let nested = file.group.get_matches(&strings(&["app"]), true, "/work/ds.json", &ctx()).unwrap();
    assert_eq!(nested.len(), 2);
    assert!(nested.iter().all(|m| m.score == 1));
}

#[test]
fn stepwise_lookup_reaches_matched_node() {
    let mut app = group(vec![("build", Command::Inline("echo app-build".to_string()))]);
    app.aliases = Some(vec!["a".to_string()]);
    let root = group(vec![("app", Command::Group(app))]);
    let file = DsFile::from_group(root, "/work/ds.json".to_string(), None);
    let ms = file.matches(&strings(&["a", "build"]), &ctx()).unwrap();
    assert_eq!(ms.len(), 1);
    let (command, parents) = file.command_from_keys(&ms[0].keys).unwrap();
    assert_eq!(command.command(), Some("echo app-build".to_string()));
    assert_eq!(parents.len(), 2);
}

#[test]
fn unknown_key_path_is_an_error() {
    let root = group(vec![("build", Command::Inline("make".to_string()))]);
    let file = DsFile::from_group(root, "/work/ds.json".to_string(), None);
    let err = file.command_from_keys(&strings(&["build", "more"])).unwrap_err();
    assert_eq!(err.message(), "No command found for keys: build more");
    assert!(file.command_from_keys(&strings(&["nope"])).is_err());
    assert!(file.command_from_keys(&[]).is_err());
}

#[test]
fn resolve_aliases_skips_root_and_flattened() {
    let mut flat = group(vec![]);
    flat.mode = Some(GroupMode::Flattened);
    let mut named = group(vec![]);
    named.aliases = Some(vec!["n".to_string()]);
    let root = group(vec![]);
    let mut cfg = do_something::command::CommandConfig {
        name: None,
        description: None,
        command: "run".to_string(),
        envs: None,
        default_env: None,
        root: None,
        aliases: None,
    };
    cfg.aliases = Some(vec!["r".to_string()]);
    let cmd = Command::Config(cfg);
    let keys = strings(&["named", "flat", "cmd"]);
    let lv = cmd.resolve_aliases(&keys, &[&root, &named, &flat]);
    assert_eq!(lv, levels(&[&["named", "n"], &["cmd", "r"]]));
}
