use dual::tmux;
use dual::tmux_backend;

#[test]
fn tmux_new_session_args_correct() {
    let args = tmux::build_new_session_args(
        "dual-lightfast-main",
        "/home/user/dual-workspaces/lightfast/main",
    );
    assert_eq!(
        args,
        vec![
            "new-session",
            "-d",
            "-s",
            "dual-lightfast-main",
            "-c",
            "/home/user/dual-workspaces/lightfast/main",
        ]
    );
}

#[test]
fn tmux_session_name_format() {
    assert_eq!(tmux::session_name("lightfast", "main"), "dual-lightfast-main");
    assert_eq!(
        tmux::session_name("lightfast", "feat/auth"),
        "dual-lightfast-feat__auth"
    );
    assert_eq!(
        tmux::session_name("agent-os", "v2-rewrite"),
        "dual-agent-os-v2-rewrite"
    );
}

#[test]
fn tmux_session_name_matches_container_name() {
    assert_eq!(
        tmux::session_name("lightfast", "main"),
        dual::config::container_name("lightfast", "main")
    );
    assert_eq!(
        tmux::session_name("lightfast", "feat/auth"),
        dual::config::container_name("lightfast", "feat/auth")
    );
}

#[test]
fn tmux_session_prefix_is_dual() {
    assert_eq!(tmux::session_prefix(), "dual-");
}

#[test]
fn tmux_backend_new_session_args_correct() {
    let args = tmux_backend::build_new_session_args(
        "dual-lightfast-main",
        "/home/user/dual-workspaces/lightfast/main",
    );
    assert_eq!(
        args,
        vec![
            "new-session",
            "-d",
            "-s",
            "dual-lightfast-main",
            "-c",
            "/home/user/dual-workspaces/lightfast/main",
        ]
    );
}

#[test]
fn tmux_backend_session_prefix_is_dual() {
    assert_eq!(tmux_backend::session_prefix(), "dual-");
}
