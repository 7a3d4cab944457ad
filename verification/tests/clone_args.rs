use dual::clone::{build_clone_args, build_local_clone_args, is_local_path, workspace_exists};

#[test]
fn local_path_detection() {
    assert!(is_local_path("/home/user/repos/myrepo"));
    assert!(is_local_path("./relative/path"));
    assert!(is_local_path("../parent/path"));
    assert!(is_local_path("~/my-repos/project"));

    assert!(!is_local_path("git@github.com:org/repo.git"));
    assert!(!is_local_path("https://github.com/org/repo.git"));
    assert!(!is_local_path("ssh://git@github.com/org/repo.git"));
}

#[test]
fn clone_args_remote() {
    let args = build_clone_args(
        "git@github.com:org/lightfast.git",
        "main",
        "/tmp/workspaces/lightfast/main",
    );
    assert_eq!(
        args,
        vec![
            "clone",
            "-b",
            "main",
            "git@github.com:org/lightfast.git",
            "/tmp/workspaces/lightfast/main",
        ]
    );
}

#[test]
fn clone_args_local() {
    let args = build_clone_args(
        "/local/repos/lightfast",
        "feat/auth",
        "/tmp/workspaces/lightfast/feat__auth",
    );
    assert_eq!(
        args,
        vec![
            "clone",
            "--local",
            "-b",
            "feat/auth",
            "/local/repos/lightfast",
            "/tmp/workspaces/lightfast/feat__auth",
        ]
    );
}

#[test]
fn workspace_exists_returns_false_for_missing() {
    assert!(!workspace_exists(
        "/tmp/dual-test-nonexistent",
        "nonexistent",
        "main"
    ));
}

#[test]
fn local_clone_args() {
    let args = build_local_clone_args(
        "/home/user/code/lightfast",
        "/tmp/workspaces/lightfast/feat__auth",
    );
    assert_eq!(
        args,
        vec![
            "clone",
            "--local",
            "/home/user/code/lightfast",
            "/tmp/workspaces/lightfast/feat__auth",
        ]
    );
}
