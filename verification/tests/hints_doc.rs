use dual::hints::{parse_hints, HintsError};

fn env_get<'a>(env: &'a [(String, String)], key: &str) -> Option<&'a str> {
    env.iter().find(|(k, _)| k == key).map(|(_, v)| v.as_str())
}

#[test]
fn parse_hints_minimal() {
    let hints = parse_hints("").unwrap();
    assert_eq!(hints.image, "node:20");
    assert!(hints.ports.is_empty());
}

#[test]
fn parse_hints_full() {
    let toml = r#"
image = "python:3.12"
ports = [3000, 3001]
setup = "pnpm install"

[env]
NODE_ENV = "development"
"#;
    let hints = parse_hints(toml).unwrap();
    assert_eq!(hints.image, "python:3.12");
    assert_eq!(hints.ports, vec![3000, 3001]);
    assert_eq!(hints.setup.as_deref(), Some("pnpm install"));
    assert_eq!(env_get(&hints.env, "NODE_ENV").unwrap(), "development");
}

#[test]
fn parse_hints_missing_fields_use_defaults() {
    let toml = r#"ports = [8080]"#;
    let hints = parse_hints(toml).unwrap();
    assert_eq!(hints.image, "node:20");
    assert_eq!(hints.ports, vec![8080]);
    assert!(hints.setup.is_none());
}

#[test]
fn parse_hints_unknown_fields_ignored() {
    let toml = r#"
image = "node:20"
ports = [3000]
unknown_field = "should be ignored"
"#;
    let hints = parse_hints(toml).unwrap();
    assert_eq!(hints.image, "node:20");
}

#[test]
fn parse_hints_extra_commands() {
    let toml = r#"
extra_commands = ["cargo", "go", "ruby"]
"#;
    let hints = parse_hints(toml).unwrap();
    assert_eq!(hints.extra_commands, vec!["cargo", "go", "ruby"]);
}

#[test]
fn parse_hints_anonymous_volumes() {
    let toml = r#"
anonymous_volumes = ["node_modules", ".next", "target"]
"#;
    let hints = parse_hints(toml).unwrap();
    assert_eq!(
        hints.anonymous_volumes,
        vec!["node_modules", ".next", "target"]
    );
}

#[test]
fn parse_hints_anonymous_volumes_default() {
    let hints = parse_hints("").unwrap();
    assert_eq!(hints.anonymous_volumes, vec!["node_modules".to_string()]);
}

#[test]
fn parse_hints_with_shared() {
    let toml = r#"
image = "node:20"

[shared]
files = [".vercel", ".env.local"]
"#;
    let hints = parse_hints(toml).unwrap();
    let shared = hints.shared.unwrap();
    assert_eq!(shared.files, vec![".vercel", ".env.local"]);
}

#[test]
fn parse_hints_without_shared() {
    let hints = parse_hints("image = \"node:20\"").unwrap();
    assert!(hints.shared.is_none());
}

#[test]
fn parse_hints_shared_empty_files() {
    let toml = r#"
[shared]
files = []
"#;
    let hints = parse_hints(toml).unwrap();
    let shared = hints.shared.unwrap();
    assert!(shared.files.is_empty());
}

#[test]
fn parse_hints_rejects_malformed_values() {
    match parse_hints("ports = [80a]\n") {
        Err(HintsError::ParseError(line)) => assert_eq!(line, 1),
        _ => panic!("expected ParseError"),
    }
    match parse_hints("image = unquoted\n") {
        Err(HintsError::ParseError(_)) => {}
        _ => panic!("expected ParseError"),
    }
    match parse_hints("ports = [70000]\n") {
        Err(HintsError::ParseError(_)) => {}
        _ => panic!("expected ParseError"),
    }
}

#[test]
fn parse_hints_env_keys_are_trimmed() {
    let toml = "[env]\n  RUST_LOG = \"debug\"\n";
    let hints = parse_hints(toml).unwrap();
    assert_eq!(env_get(&hints.env, "RUST_LOG").unwrap(), "debug");
}
