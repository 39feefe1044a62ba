use do_something::command::{Command, CommandConfig, RootConfig, RootScope};
use do_something::config::{GlobalConfig, OnConflict, Resolution};
use do_something::dir::{collapse_to_tilde, resolve_path, Context};
use do_something::do_something::DoSomething;
use do_something::ds_file::DsFile;
use do_something::env::{Env, EnvVars};
use do_something::error::ResolveError;
use do_something::group::{Group, GroupMode};
use do_something::runner::{build_command_line, Runner};

fn strings(v: &[&str]) -> Vec<String> {
    v.iter().map(|s| s.to_string()).collect()
}

fn group(commands: Vec<(&str, Command)>) -> Group {
    Group {
        name: None,
        description: None,
        default: None,
        commands: commands.into_iter().map(|(k, c)| (k.to_string(), c)).collect(),
        envs: None,
        default_env: None,
        root: None,
        mode: None,
        aliases: None,
    }
}

fn inline(s: &str) -> Command {
    Command::Inline(s.to_string())
}

fn ctx(cwd: &str, git_root: Option<&str>) -> Context {
    Context {
        current_dir: cwd.to_string(),
        git_root: git_root.map(|g| g.to_string()),
        home: Some("/home/me".to_string()),
    }
}

fn config(on_conflict: OnConflict) -> GlobalConfig {
    GlobalConfig { on_conflict, resolution: Resolution::Recursive, ds_files: None }
}

fn app_tree() -> Group {
    let mut with_env = group(vec![
        ("build", inline("echo app-build")),
        ("dev", inline("echo app-dev")),
    ]);
    with_env.mode = Some(GroupMode::Namespaced);
    with_env.envs = Some(vec![
        ("dev".to_string(), Env::Dotenv(".env.dev".to_string())),
        (
            "prod".to_string(),
            Env::Vars(EnvVars {
                vars: vec![("ENVIRONMENT".to_string(), "production".to_string())],
            }),
        ),
    ]);
    let mut app = group(vec![("with-env", Command::Group(with_env))]);
    app.aliases = Some(vec!["a".to_string()]);
    group(vec![("app", Command::Group(app))])
}

#[test]
fn full_resolution_with_env_and_extra_args() {
    let file = DsFile::from_group(app_tree(), "/work/ds.json".to_string(), None);
    let ds = DoSomething::new(vec![file], config(OnConflict::Error), ctx("/work", None));
    let tokens = strings(&["app", "with-env", "build", "prod", "--extra-flag"]);

    let m = ds.match_command(&tokens).unwrap();
    assert_eq!(m.score, 3);
    assert_eq!(m.keys, vec!["app", "with-env", "build"]);
    assert_eq!(&tokens[m.score..], ["prod", "--extra-flag"]);

    let (command, parents) = ds.command_from_match(&m).unwrap();
    assert_eq!(command.command(), Some("echo app-build".to_string()));
    let (envs, default_env) = command.resolve_envs(&parents);
    let selection = do_something::env::match_env(
        &envs,
        default_env.map(|d| d.as_str()),
        &tokens[m.score..],
    )
    .unwrap()
    .unwrap();
    assert_eq!(selection.1, ["--extra-flag"]);

    let (_, runner) = ds.resolve(&tokens).unwrap();
    match runner {
        Runner::Command { command, cwd, dotenv, vars } => {
            assert_eq!(command, "echo app-build --extra-flag");
            assert_eq!(cwd, None);
            assert_eq!(dotenv, None);
            assert_eq!(vars, vec![("ENVIRONMENT".to_string(), "production".to_string())]);
        }
        Runner::Help => panic!("Expected Runner::Command"),
    }
}

#[test]
fn dotenv_environment_is_resolved_against_document() {
    let file = DsFile::from_group(app_tree(), "/work/conf/ds.json".to_string(), None);
    let ds = DoSomething::new(vec![file], config(OnConflict::Error), ctx("/work", None));
    let (m, runner) = ds.resolve(&strings(&["a", "with-env", "dev", "dev"])).unwrap();
    assert_eq!(m.keys, vec!["app", "with-env", "dev"]);
    match runner {
        Runner::Command { command, dotenv, vars, .. } => {
            assert_eq!(command, "echo app-dev");
            assert_eq!(dotenv.as_deref(), Some("/work/conf/.env.dev"));
            assert!(vars.is_empty());
        }
        Runner::Help => panic!("Expected Runner::Command"),
    }
}

#[test]
fn missing_environment_token_is_an_error() {
    let file = DsFile::from_group(app_tree(), "/work/ds.json".to_string(), None);
    let ds = DoSomething::new(vec![file], config(OnConflict::Error), ctx("/work", None));
    let err = ds.resolve(&strings(&["app", "with-env", "build"])).unwrap_err();
    assert_eq!(err, ResolveError::NoEnvironmentSpecified);
    let err = ds.resolve(&strings(&["app", "with-env", "build", "staging"])).unwrap_err();
    assert_eq!(err, ResolveError::UnknownEnvironment);
}

#[test]
fn resolution_is_idempotent() {
    let file = DsFile::from_group(app_tree(), "/work/ds.json".to_string(), None);
    let ds = DoSomething::new(vec![file], config(OnConflict::Override), ctx("/work", None));
    let tokens = strings(&["app", "with-env", "build", "prod", "x y"]);
    let (m1, r1) = ds.resolve(&tokens).unwrap();
    let (m2, r2) = ds.resolve(&tokens).unwrap();
    assert_eq!(m1.keys, m2.keys);
    assert_eq!(m1.file_path, m2.file_path);
    assert_eq!(format!("{:?}", r1), format!("{:?}", r2));
}

#[test]
fn override_and_error_policies_with_two_documents() {
    let first = || DsFile::from_group(group(vec![("build", inline("make first"))]), "/a/ds.json".to_string(), None);
    let second = || DsFile::from_group(group(vec![("build", inline("make second"))]), "/b/ds.json".to_string(), None);
    let tokens = strings(&["build"]);

    let ds = DoSomething::new(vec![first(), second()], config(OnConflict::Override), ctx("/work", None));
    let m = ds.match_command(&tokens).unwrap();
    assert_eq!(m.file_path, "/a/ds.json");
    let (command, _) = ds.command_from_match(&m).unwrap();
    assert_eq!(command.command(), Some("make first".to_string()));

    let ds = DoSomething::new(vec![second(), first()], config(OnConflict::Override), ctx("/work", None));
    assert_eq!(ds.match_command(&tokens).unwrap().file_path, "/b/ds.json");

    let ds = DoSomething::new(vec![first(), second()], config(OnConflict::Error), ctx("/work", None));
    let err = ds.match_command(&tokens).unwrap_err();
    assert_eq!(err, ResolveError::Conflict { keys: strings(&["build"]) });
    assert_eq!(err.message(), "Conflict detected for command: build");

    let ds = DoSomething::new(vec![first()], config(OnConflict::Error), ctx("/work", None));
    assert_eq!(ds.match_command(&strings(&["nothing"])).unwrap_err(), ResolveError::NoMatch);
}

fn rooted(path: &str, scope: RootScope) -> Command {
    let mut g = group(vec![("test", inline("cargo test"))]);
    g.root = Some(RootConfig { path: path.to_string(), scope });
    Command::Group(g)
}

#[test]
fn git_root_scope_is_anchored_to_one_repository() {
    let node = rooted("/repo", RootScope::GitRoot);
    assert_eq!(node.is_in_scope("/cfg/ds.json", &ctx("/tmp/elsewhere", None)).unwrap(), false);
    assert_eq!(node.is_in_scope("/cfg/ds.json", &ctx("/repo/src", Some("/repo"))).unwrap(), true);
    assert_eq!(node.is_in_scope("/cfg/ds.json", &ctx("/repo", Some("/repo"))).unwrap(), true);
    assert_eq!(node.is_in_scope("/cfg/ds.json", &ctx("/other/src", Some("/other"))).unwrap(), false);
    assert_eq!(node.is_in_scope("/cfg/ds.json", &ctx("/repo2/src", Some("/repo2"))).unwrap(), false);
}

#[test]
fn exact_and_global_scopes() {
    let exact = rooted("~/proj", RootScope::Exact);
    assert!(exact.is_in_scope("/cfg/ds.json", &ctx("/home/me/proj", None)).unwrap());
    assert!(!exact.is_in_scope("/cfg/ds.json", &ctx("/home/me/proj/sub", None)).unwrap());
    let global = rooted("/anywhere", RootScope::Global);
    assert!(global.is_in_scope("/cfg/ds.json", &ctx("/tmp", None)).unwrap());
    let broken = rooted("", RootScope::Global);
    assert!(broken.is_in_scope("/cfg/ds.json", &ctx("/tmp", None)).is_err());
}

#[test]
fn out_of_scope_groups_are_skipped_and_failures_abort() {
    let root = group(vec![("plain", inline("echo plain")), ("repo", rooted("/repo", RootScope::GitRoot))]);
    let file = DsFile::from_group(root, "/cfg/ds.json".to_string(), None);
    let outside = ctx("/tmp", None);
    assert!(file.matches(&strings(&["repo", "test"]), &outside).unwrap().is_empty());
    let inside = ctx("/repo/src", Some("/repo"));
    assert_eq!(file.matches(&strings(&["repo", "test"]), &inside).unwrap().len(), 1);

    let bad = group(vec![("broken", rooted("", RootScope::Exact))]);
    let file = DsFile::from_group(bad, "/cfg/ds.json".to_string(), None);
    let err = file.matches(&strings(&["broken"]), &outside).unwrap_err();
    assert_eq!(err, ResolveError::Scope { keys: strings(&["broken"]) });
}

#[test]
fn nested_defaults_resolve_to_leaf() {
    let mut g2 = group(vec![("leaf", inline("echo leaf"))]);
    g2.name = Some("g2".to_string());
    g2.default = Some("leaf".to_string());
    let mut g1 = group(vec![("g2", Command::Group(g2))]);
    g1.name = Some("g1".to_string());
    g1.default = Some("g2".to_string());
    let mut root = group(vec![("g1", Command::Group(g1))]);
    root.name = Some("root".to_string());
    let file = DsFile::from_group(root, "/work/ds.json".to_string(), None);
    let (command, parents) = file.command_from_keys(&strings(&["g1"])).unwrap();
    assert_eq!(command.command(), Some("echo leaf".to_string()));
    let names: Vec<Option<&str>> = parents.iter().map(|g| g.name.as_deref()).collect();
    assert_eq!(names, vec![Some("root"), Some("g1"), Some("g2")]);
}

#[test]
fn dangling_default_shows_help() {
    let mut g = group(vec![("leaf", inline("echo leaf"))]);
    g.default = Some("missing".to_string());
    let root = group(vec![("g", Command::Group(g))]);
    let file = DsFile::from_group(root, "/work/ds.json".to_string(), None);
    let ds = DoSomething::new(vec![file], config(OnConflict::Error), ctx("/work", None));
    let (_, runner) = ds.resolve(&strings(&["g"])).unwrap();
    assert!(matches!(runner, Runner::Help));
}

#[test]
fn working_directory_is_inherited() {
    let cfg = CommandConfig {
        name: None,
        description: None,
        command: "ls".to_string(),
        envs: None,
        default_env: None,
        root: None,
        aliases: None,
    };
    let mut g = group(vec![("list", Command::Config(cfg))]);
    g.root = Some(RootConfig { path: "sub".to_string(), scope: RootScope::Global });
    let root = group(vec![("g", Command::Group(g))]);
    let file = DsFile::from_group(root, "/work/ds.json".to_string(), None);
    let ds = DoSomething::new(vec![file], config(OnConflict::Error), ctx("/work", None));
    let (_, runner) = ds.resolve(&strings(&["g", "list", "-l"])).unwrap();
    match runner {
        Runner::Command { command, cwd, .. } => {
            assert_eq!(command, "ls -l");
            assert_eq!(cwd.as_deref(), Some("/work/sub"));
        }
        Runner::Help => panic!("Expected Runner::Command"),
    }
}

#[test]
fn extra_tokens_are_escaped() {
    let prefix = "COMMAND_VAR=production".to_string();
    let line = build_command_line(
        Some(&prefix),
        "echo app-build",
        &strings(&["--extra-flag", "a b", "it's!", ""]),
    );
    assert_eq!(line, "COMMAND_VAR=production echo app-build --extra-flag 'a b' 'it'\\''s'\\!'' ''");
    assert_eq!(build_command_line(None, "true", &[]), "true");
}

#[test]
fn paths_expand_home_and_follow_the_document() {
    let c = ctx("/work", None);
    assert_eq!(resolve_path("~/x", "/cfg/ds.json", &c).unwrap(), "/home/me/x");
    assert_eq!(resolve_path("~", "/cfg/ds.json", &c).unwrap(), "/home/me");
    assert_eq!(resolve_path("rel/y", "/cfg/ds.json", &c).unwrap(), "/cfg/rel/y");
    assert_eq!(resolve_path("rel", "ds.json", &c).unwrap(), "/work/rel");
    assert_eq!(resolve_path("~other/z", "/cfg/ds.json", &c).unwrap(), "/cfg/~other/z");
    assert!(resolve_path("", "/cfg/ds.json", &c).is_err());
    assert_eq!(collapse_to_tilde("/home/me/ds.json", Some("/home/me")), "~/ds.json");
    assert_eq!(collapse_to_tilde("/home/meta/ds.json", Some("/home/me")), "/home/meta/ds.json");
}

#[test]
fn remaining_error_variants() {
    let file = DsFile::from_group(app_tree(), "/work/ds.json".to_string(), None);
    let ds = DoSomething::new(vec![file], config(OnConflict::Error), ctx("/work", None));

    let leaf = ds.match_command(&strings(&["app", "with-env", "build"])).unwrap();
    assert_eq!(ds.help_rows_for_match(&leaf).unwrap_err(), ResolveError::NotAGroup);

    let stray = do_something::ds_file::Match {
        file_path: "/nowhere/ds.json".to_string(),
        score: 1,
        keys: strings(&["app"]),
    };
    let err = ds.command_from_match(&stray).unwrap_err();
    assert_eq!(err, ResolveError::FileNotLoaded { path: "/nowhere/ds.json".to_string() });
    assert_eq!(err.message(), "File not loaded: /nowhere/ds.json");

    let err = resolve_path("", "/cfg/ds.json", &ctx("/work", None)).unwrap_err();
    assert_eq!(err, ResolveError::Path { input: String::new() });
}

#[test]
fn empty_inputs() {
    let ds = DoSomething::new(vec![], config(OnConflict::Override), ctx("/work", None));
    assert_eq!(ds.match_command(&strings(&["x"])).unwrap_err(), ResolveError::NoMatch);
    let (groups, width) = ds.help_groups().unwrap();
    assert!(groups.is_empty());
    assert_eq!(width, 0);

    let file = DsFile::from_group(app_tree(), "/work/ds.json".to_string(), None);
    let ds = DoSomething::new(vec![file], config(OnConflict::Override), ctx("/work", None));
    assert_eq!(ds.match_command(&[]).unwrap_err(), ResolveError::NoMatch);
}

#[test]
fn help_for_a_match_follows_defaults() {
    let mut to_leaf = group(vec![("leaf", inline("echo leaf"))]);
    to_leaf.default = Some("leaf".to_string());
    let inner = group(vec![("x", inline("echo x")), ("y", inline("echo y"))]);
    let mut to_group = group(vec![("inner", Command::Group(inner))]);
    to_group.default = Some("inner".to_string());
    let root = group(vec![("to_group", Command::Group(to_group)), ("to_leaf", Command::Group(to_leaf))]);
    let file = DsFile::from_group(root, "/work/ds.json".to_string(), None);
    let ds = DoSomething::new(vec![file], config(OnConflict::Error), ctx("/work", None));

    let m = ds.match_command(&strings(&["to_leaf"])).unwrap();
    assert_eq!(ds.help_rows_for_match(&m).unwrap_err(), ResolveError::NotAGroup);

    let m = ds.match_command(&strings(&["to_group"])).unwrap();
    let rows = ds.help_rows_for_match(&m).unwrap();
    let keys: Vec<Vec<String>> = rows.iter().map(|r| r.key.clone()).collect();
    assert_eq!(keys, vec![strings(&["to_group", "inner", "x"]), strings(&["to_group", "inner", "y"])]);
}

#[test]
fn well_formedness_requires_ascending_unique_keys() {
    assert!(group(vec![("a", inline("1")), ("b", inline("2"))]).is_well_formed());
    assert!(!group(vec![("b", inline("1")), ("a", inline("2"))]).is_well_formed());
    assert!(!group(vec![("a", inline("1")), ("a", inline("2"))]).is_well_formed());
    assert!(group(vec![("a", inline("1")), ("ab", inline("2")), ("b", inline("3"))]).is_well_formed());
    let bad_inner = group(vec![("z", inline("1")), ("y", inline("2"))]);
    assert!(!group(vec![("g", Command::Group(bad_inner))]).is_well_formed());
    assert!(group(vec![]).is_well_formed());
}

#[test]
fn default_command_must_end_at_a_runnable_command() {
    let g2 = group(vec![("leaf", inline("echo leaf"))]);
    let mut g1 = group(vec![("g2", Command::Group(g2))]);
    g1.default = Some("g2".to_string());
    let mut parents: Vec<&Group> = Vec::new();
    assert!(g1.get_default_command(&mut parents).is_none());
    assert!(parents.is_empty());

    let mut g2 = group(vec![("leaf", inline("echo leaf"))]);
    g2.default = Some("leaf".to_string());
    let mut g1 = group(vec![("g2", Command::Group(g2))]);
    g1.default = Some("g2".to_string());
    let mut parents: Vec<&Group> = Vec::new();
    let found = g1.get_default_command(&mut parents).unwrap();
    assert_eq!(found.command(), Some("echo leaf".to_string()));
    assert_eq!(parents.len(), 2);

    let node = Command::Group(g1);
    let mut parents: Vec<&Group> = Vec::new();
    assert_eq!(node.resolve_default(&mut parents).command(), Some("echo leaf".to_string()));
}

#[test]
fn resolved_paths_are_normalised() {
    let c = ctx("/work", None);
    assert_eq!(resolve_path("./sub", "/cfg/ds.json", &c).unwrap(), "/cfg/sub");
    assert_eq!(resolve_path("/a//b/./c/", "/cfg/ds.json", &c).unwrap(), "/a/b/c");
    assert_eq!(resolve_path("../up", "/cfg/ds.json", &c).unwrap(), "/cfg/../up");
    assert_eq!(resolve_path("/", "/cfg/ds.json", &c).unwrap(), "/");
    assert_eq!(resolve_path(".", "./ds.json", &c).unwrap(), "/work");
    let exact = rooted("./proj/", RootScope::Exact);
    assert!(exact.is_in_scope("/home/me/ds.json", &ctx("/home/me/proj", None)).unwrap());
}
