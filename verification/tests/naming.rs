use dual::config::{
    container_name, decode_branch, derive_repo_name, encode_branch, session_name, workspace_dir,
    workspace_id, RepoHints,
};

#[test]
fn encode_branch_with_slash() {
    assert_eq!(encode_branch("feat/auth"), "feat__auth");
    assert_eq!(encode_branch("fix/memory-leak"), "fix__memory-leak");
    assert_eq!(encode_branch("main"), "main");
}

#[test]
fn decode_branch_roundtrip() {
    let original = "feat/auth";
    assert_eq!(decode_branch(&encode_branch(original)), original);
}

#[test]
fn decode_branch_ambiguity_for_underscore_before_slash() {
    // An underscore directly before a slash defeats the round trip: both
    // "a_/b" and "a/_b" encode to "a___b", and decoding picks "a/_b".
    assert_eq!(encode_branch("a_/b"), "a___b");
    assert_eq!(encode_branch("a/_b"), "a___b");
    assert_eq!(decode_branch("a___b"), "a/_b");
}

#[test]
fn container_name_format() {
    assert_eq!(container_name("lightfast", "main"), "dual-lightfast-main");
    assert_eq!(
        container_name("lightfast", "feat/auth"),
        "dual-lightfast-feat__auth"
    );
}

#[test]
fn workspace_dir_format() {
    let dir = workspace_dir("/tmp/ws", "lightfast", "feat/auth");
    assert_eq!(dir, "/tmp/ws/lightfast/feat__auth");
}

#[test]
fn workspace_id_format() {
    assert_eq!(workspace_id("lightfast", "main"), "lightfast-main");
    assert_eq!(
        workspace_id("lightfast", "feat/auth"),
        "lightfast-feat__auth"
    );
}

#[test]
fn default_hints() {
    let hints = RepoHints::default();
    assert_eq!(hints.image, "node:20");
    assert!(hints.ports.is_empty());
    assert!(hints.setup.is_none());
    assert!(hints.env.is_empty());
    assert!(hints.extra_commands.is_empty());
    assert_eq!(hints.anonymous_volumes, vec!["node_modules".to_string()]);
}

#[test]
fn config_session_name_format() {
    assert_eq!(session_name("lightfast", "main"), "dual-lightfast-main");
    assert_eq!(
        session_name("lightfast", "feat/auth"),
        "dual-lightfast-feat__auth"
    );
    assert_eq!(
        session_name("agent-os", "v2-rewrite"),
        "dual-agent-os-v2-rewrite"
    );
}

#[test]
fn config_session_name_matches_container_name() {
    assert_eq!(
        session_name("lightfast", "main"),
        container_name("lightfast", "main")
    );
    assert_eq!(
        session_name("lightfast", "feat/auth"),
        container_name("lightfast", "feat/auth")
    );
}

#[test]
fn derive_repo_name_from_path() {
    assert_eq!(derive_repo_name("/Users/jeevan/code/lightfast"), "lightfast");
    assert_eq!(derive_repo_name("/home/user/projects/my-app"), "my-app");
}

#[test]
fn derive_repo_name_edge_cases() {
    assert_eq!(derive_repo_name("/srv/code/tool/"), "tool");
    assert_eq!(derive_repo_name("/"), "repo");
    assert_eq!(derive_repo_name(""), "repo");
    assert_eq!(derive_repo_name("plain"), "plain");
}
