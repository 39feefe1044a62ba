use do_something::command::Command;
use do_something::dir::Context;
use do_something::do_something::DoSomething;
use do_something::ds_file::DsFile;
use do_something::env::{Env, EnvVars};
use do_something::config::GlobalConfig;
use do_something::group::Group;
use do_something::help::HelpRow;
use do_something::runner::Runner;

fn strings(v: &[&str]) -> Vec<String> {
    v.iter().map(|s| s.to_string()).collect()
}

fn group(commands: Vec<(&str, Command)>) -> Group {
    Group {
        name: None,
        description: None,
        default: None,
        commands: commands.into_iter().map(|(k, c)| (k.to_string(), c)).collect(),
        envs: None,
        default_env: None,
        root: None,
        mode: None,
        aliases: None,
    }
}

fn vars(k: &str, v: &str) -> Env {
    Env::Vars(EnvVars { vars: vec![(k.to_string(), v.to_string())] })
}

fn tree() -> Group {
    let mut app = group(vec![("build", Command::Inline("make".to_string()))]);
    app.aliases = Some(vec!["a".to_string()]);
    app.envs = Some(vec![("dev".to_string(), vars("M", "dev")), ("prod".to_string(), vars("M", "prod"))]);
    app.default_env = Some("dev".to_string());
    group(vec![("app", Command::Group(app)), ("top", Command::Inline("echo top".to_string()))])
}

fn ctx() -> Context {
    Context { current_dir: "/work".to_string(), git_root: None, home: Some("/home/me".to_string()) }
}

#[test]
fn rows_per_environment() {
    let file = DsFile::from_group(tree(), "/home/me/ds.json".to_string(), Some("/home/me"));
    let rows = file.help_rows(&ctx()).unwrap();
    let lines: Vec<(String, Option<String>)> =
        rows.iter().map(|r| (r.key.join(" "), r.env.clone())).collect();
    assert_eq!(
        lines,
        vec![
            ("app build".to_string(), Some("(dev)".to_string())),
            ("app build".to_string(), Some("prod".to_string())),
            ("top".to_string(), None),
        ]
    );
    let heading = file.help_group(rows);
    assert_eq!(heading.name, "ds.json");
    assert_eq!(heading.description, "~/ds.json");
}

#[test]
fn row_formatting() {
    let row = HelpRow::new(
        "/work/ds.json".to_string(),
        strings(&["app", "build"]),
        vec![strings(&["app", "a"]), strings(&["build"])],
        "make".to_string(),
        Some("(dev)".to_string()),
    );
    assert_eq!(row.group_keys(), "app");
    assert_eq!(row.key(), "build");
    assert_eq!(row.len(), 18);
    assert_eq!(row.aliases(), Some("(app|a) build".to_string()));
    assert_eq!(row.to_string(20), "ds app build (dev)   make");
    let plain = HelpRow::new("/f".to_string(), strings(&["x"]), vec![strings(&["x"])], "y".to_string(), None);
    assert_eq!(plain.aliases(), None);
    assert_eq!(plain.to_string(4), "ds x y");
}

#[test]
fn help_for_a_group_match_and_running_a_row() {
    let file = DsFile::from_group(tree(), "/work/ds.json".to_string(), None);
    let ds = DoSomething::new(vec![file], GlobalConfig::default(), ctx());
    let (m, runner) = ds.resolve(&strings(&["app"])).unwrap();
    assert!(matches!(runner, Runner::Help));
    let rows = ds.help_rows_for_match(&m).unwrap();
    assert_eq!(rows.len(), 2);
    let runner = ds.run_help_row(&rows[1]).unwrap();
    match runner {
        Runner::Command { command, vars, .. } => {
            assert_eq!(command, "make");
            assert_eq!(vars, vec![("M".to_string(), "prod".to_string())]);
        }
        Runner::Help => panic!("Expected Runner::Command"),
    }
    let runner = ds.run_help_row(&rows[0]).unwrap();
    match runner {
        Runner::Command { vars, .. } => assert_eq!(vars, vec![("M".to_string(), "dev".to_string())]),
        Runner::Help => panic!("Expected Runner::Command"),
    }
    let (groups, width) = ds.help_groups().unwrap();
    assert_eq!(groups.len(), 1);
    assert_eq!(width, 18);
}

#[test]
fn rows_come_by_environment_name() {
    let cfg = do_something::command::CommandConfig {
        name: None,
        description: None,
        command: "make".to_string(),
        envs: Some(vec![("a".to_string(), vars("M", "a"))]),
        default_env: None,
        root: None,
        aliases: None,
    };
    let mut root = group(vec![("build", Command::Config(cfg))]);
    root.envs = Some(vec![("b".to_string(), vars("M", "b"))]);
    let file = DsFile::from_group(root, "/work/ds.json".to_string(), None);
    let rows = file.help_rows(&ctx()).unwrap();
    let envs: Vec<Option<String>> = rows.iter().map(|r| r.env.clone()).collect();
    assert_eq!(envs, vec![Some("a".to_string()), Some("b".to_string())]);
}
