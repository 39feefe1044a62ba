use do_something::command::Command;
use do_something::env::{get_env_by_key, match_env, overlay_vars, Env, EnvVars};
use do_something::group::Group;

fn group(envs: Vec<(&str, Env)>, default_env: Option<&str>) -> Group {
    Group {
        name: None,
        description: None,
        default: None,
        commands: vec![],
        envs: Some(envs.into_iter().map(|(k, e)| (k.to_string(), e)).collect()),
        default_env: default_env.map(|d| d.to_string()),
        root: None,
        mode: None,
        aliases: None,
    }
}

fn vars(pairs: &[(&str, &str)]) -> Env {
    Env::Vars(EnvVars { vars: pairs.iter().map(|(k, v)| (k.to_string(), v.to_string())).collect() })
}

#[test]
fn test_match_env() {
    let envs: Vec<(String, Env)> = vec![
        ("dev".to_string(), Env::Dotenv(".env.dev".to_string())),
        ("prod".to_string(), vars(&[("MODE", "prod")])),
    ];
    let get = |k: &str| &envs.iter().find(|(n, _)| n == k).unwrap().1;

    let envs_ref: Vec<(&String, &Env)> = envs.iter().map(|(k, v)| (k, v)).collect();

    let none: Vec<(&String, &Env)> = Vec::new();
    let args = vec!["dev".to_string()];
    let result = match_env(&none, None, &args).unwrap();
    assert!(result.is_none(), "no envs should return None");

    let args = vec!["dev".to_string(), "extra".to_string()];
    let result = match_env(&envs_ref, None, &args).unwrap();
    let (env, remaining) = result.unwrap();
    assert_eq!(env, get("dev"));
    assert_eq!(remaining, ["extra"]);

    let result = match_env(&envs_ref, Some("prod"), &[]).unwrap();
    let (env, remaining) = result.unwrap();
    assert_eq!(env, get("prod"));
    assert!(remaining.is_empty());

    let err = match_env(&envs_ref, None, &[]).unwrap_err();
    assert!(err.message().contains("No environment specified"));

    let err = match_env(&envs_ref, Some("missing"), &[]).unwrap_err();
    assert!(err.message().contains("default environment 'missing' is not found"));

    let args = vec!["unknown".to_string()];
    let err = match_env(&envs_ref, None, &args).unwrap_err();
    assert!(err.message().contains("Environment not found"));
}

#[test]
fn closer_environment_wins_and_nearest_default() {
    let a = group(vec![("x", vars(&[("FROM", "a")]))], None);
    let b = group(vec![("x", vars(&[("FROM", "b")])), ("y", vars(&[("FROM", "b-y")]))], Some("y"));
    let leaf = Command::Inline("echo leaf".to_string());
    let (merged, default_env) = leaf.resolve_envs(&[&a, &b]);
    let names: Vec<&str> = merged.iter().map(|(k, _)| k.as_str()).collect();
    assert_eq!(names, vec!["x", "y"]);
    assert_eq!(merged[0].1, &vars(&[("FROM", "b")]));
    assert_eq!(default_env.map(|d| d.as_str()), Some("y"));
}

#[test]
fn own_default_overrides_ancestors() {
    let a = group(vec![("x", vars(&[]))], Some("x"));
    let own = Group { default_env: Some("z".to_string()), ..group(vec![("z", vars(&[]))], None) };
    let node = Command::Group(own);
    let (merged, default_env) = node.resolve_envs(&[&a]);
    assert_eq!(merged.len(), 2);
    assert_eq!(default_env.map(|d| d.as_str()), Some("z"));
}

#[test]
fn env_by_key_falls_back_to_default() {
    let envs: Vec<(String, Env)> =
        vec![("dev".to_string(), vars(&[("A", "1")])), ("prod".to_string(), vars(&[("A", "2")]))];
    let envs_ref: Vec<(&String, &Env)> = envs.iter().map(|(k, v)| (k, v)).collect();
    assert_eq!(get_env_by_key(&envs_ref, Some("prod".to_string()), None), Some(&envs[1].1));
    assert_eq!(get_env_by_key(&envs_ref, Some("(dev)".to_string()), Some("dev")), Some(&envs[0].1));
    assert_eq!(get_env_by_key(&envs_ref, None, None), None);
}

#[test]
fn explicit_vars_override_file_vars() {
    let file = vec![("A".to_string(), "file".to_string()), ("B".to_string(), "file".to_string())];
    let explicit = vec![("A".to_string(), "explicit".to_string())];
    let all = overlay_vars(file, &explicit);
    let last_a = all.iter().rev().find(|(k, _)| k == "A").unwrap();
    assert_eq!(last_a.1, "explicit");
    assert_eq!(all.len(), 3);
}

#[test]
fn env_contributions() {
    let e = Env::Command(do_something::env::EnvCommand {
        command: "COMMAND_VAR=production".to_string(),
        vars: Some(vec![("ENVIRONMENT".to_string(), "production".to_string())]),
    });
    let r = e.get_env_vars();
    assert_eq!(r.command.as_deref(), Some("COMMAND_VAR=production"));
    assert!(r.dotenv.is_none());
    assert_eq!(r.vars.unwrap(), vec![("ENVIRONMENT".to_string(), "production".to_string())]);
}
