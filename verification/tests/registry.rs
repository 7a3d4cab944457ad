use dual::state::{StateError, WorkspaceEntry, WorkspaceState};

fn entry(repo: &str, url: &str, branch: &str, path: Option<&str>) -> WorkspaceEntry {
    WorkspaceEntry {
        repo: repo.to_string(),
        url: url.to_string(),
        branch: branch.to_string(),
        path: path.map(|p| p.to_string()),
    }
}

#[test]
fn new_state_is_empty() {
    let state = WorkspaceState::new();
    assert!(state.workspaces.is_empty());
    assert!(state.workspace_root.is_none());
}

#[test]
fn add_workspace() {
    let mut state = WorkspaceState::new();
    state
        .add_workspace(entry(
            "lightfast",
            "https://example.com/lightfast.git",
            "main",
            None,
        ))
        .unwrap();
    assert_eq!(state.workspaces.len(), 1);
}

#[test]
fn add_duplicate_workspace_errors() {
    let mut state = WorkspaceState::new();
    state
        .add_workspace(entry(
            "lightfast",
            "https://example.com/lightfast.git",
            "main",
            None,
        ))
        .unwrap();

    let result = state.add_workspace(entry(
        "lightfast",
        "https://example.com/lightfast.git",
        "main",
        None,
    ));
    assert!(result.is_err());
}

#[test]
fn add_duplicate_leaves_registry_unchanged() {
    // Uniqueness: adding a (repo, branch) pair already present fails with
    // DuplicateWorkspace and leaves the registry unchanged.
    let mut state = WorkspaceState::new();
    state
        .add_workspace(entry("app", "https://example.com/app.git", "main", None))
        .unwrap();
    let before_len = state.workspaces.len();
    let before_repo = state.workspaces[0].repo.clone();
    let before_url = state.workspaces[0].url.clone();

    let result = state.add_workspace(entry("app", "other-url", "main", Some("/elsewhere")));
    match result {
        Err(StateError::DuplicateWorkspace(repo, branch)) => {
            assert_eq!(repo, "app");
            assert_eq!(branch, "main");
        }
        _ => panic!("expected DuplicateWorkspace"),
    }
    assert_eq!(state.workspaces.len(), before_len);
    assert_eq!(state.workspaces[0].repo, before_repo);
    assert_eq!(state.workspaces[0].url, before_url);
}

#[test]
fn remove_workspace() {
    let mut state = WorkspaceState::new();
    state
        .add_workspace(entry(
            "lightfast",
            "https://example.com/lightfast.git",
            "main",
            None,
        ))
        .unwrap();
    state
        .add_workspace(entry(
            "lightfast",
            "https://example.com/lightfast.git",
            "feat/auth",
            None,
        ))
        .unwrap();

    assert!(state.remove_workspace("lightfast", "main"));
    assert_eq!(state.workspaces.len(), 1);
    assert_eq!(state.workspaces[0].branch, "feat/auth");
}

#[test]
fn remove_nonexistent_workspace() {
    let mut state = WorkspaceState::new();
    assert!(!state.remove_workspace("nope", "main"));
}

#[test]
fn resolve_workspace_found() {
    let mut state = WorkspaceState::new();
    state
        .add_workspace(entry(
            "lightfast",
            "https://example.com/lightfast.git",
            "main",
            None,
        ))
        .unwrap();
    state
        .add_workspace(entry(
            "lightfast",
            "https://example.com/lightfast.git",
            "feat/auth",
            None,
        ))
        .unwrap();

    let ws = state.resolve_workspace("lightfast-main").unwrap();
    assert_eq!(ws.repo, "lightfast");
    assert_eq!(ws.branch, "main");

    let ws = state.resolve_workspace("lightfast-feat__auth").unwrap();
    assert_eq!(ws.repo, "lightfast");
    assert_eq!(ws.branch, "feat/auth");
}

#[test]
fn resolve_workspace_not_found() {
    let state = WorkspaceState::new();
    assert!(state.resolve_workspace("nonexistent").is_none());
}

#[test]
fn all_workspaces() {
    let mut state = WorkspaceState::new();
    state.add_workspace(entry("a", "url", "main", None)).unwrap();
    state.add_workspace(entry("b", "url", "dev", None)).unwrap();

    let all = state.all_workspaces();
    assert_eq!(all.len(), 2);
}

#[test]
fn workspaces_for_repo() {
    let mut state = WorkspaceState::new();
    state
        .add_workspace(entry("lightfast", "url", "main", None))
        .unwrap();
    state
        .add_workspace(entry("lightfast", "url", "feat/auth", None))
        .unwrap();
    state
        .add_workspace(entry("other", "url", "main", None))
        .unwrap();

    assert_eq!(state.workspaces_for_repo("lightfast").len(), 2);
    assert_eq!(state.workspaces_for_repo("other").len(), 1);
    assert!(state.workspaces_for_repo("nonexistent").is_empty());
}

#[test]
fn has_workspace() {
    let mut state = WorkspaceState::new();
    state
        .add_workspace(entry("lightfast", "url", "main", None))
        .unwrap();

    assert!(state.has_workspace("lightfast", "main"));
    assert!(!state.has_workspace("lightfast", "dev"));
    assert!(!state.has_workspace("other", "main"));
}

#[test]
fn workspace_dir_with_explicit_path() {
    let mut state = WorkspaceState::new();
    state
        .add_workspace(entry(
            "lightfast",
            "url",
            "main",
            Some("/Users/dev/code/lightfast"),
        ))
        .unwrap();

    let dir = state.workspace_dir(&state.workspaces[0], None);
    assert_eq!(dir, "/Users/dev/code/lightfast");
}

#[test]
fn workspace_dir_computed_from_root() {
    let mut state = WorkspaceState::new();
    state.workspace_root = Some("/tmp/ws".to_string());
    state
        .add_workspace(entry("lightfast", "url", "feat/auth", None))
        .unwrap();

    let dir = state.workspace_dir(&state.workspaces[0], None);
    assert_eq!(dir, "/tmp/ws/lightfast/feat__auth");
}

#[test]
fn workspace_root_defaults_under_home() {
    let state = WorkspaceState::new();
    assert_eq!(
        state.workspace_root(Some("/home/user")),
        "/home/user/.dual/workspaces"
    );
    assert_eq!(state.workspace_root(None), "./.dual/workspaces");
}

#[test]
fn workspace_root_expands_tilde() {
    let mut state = WorkspaceState::new();
    state.workspace_root = Some("~/my-workspaces".to_string());
    assert_eq!(
        state.workspace_root(Some("/home/user")),
        "/home/user/my-workspaces"
    );
    // without a home directory the path is kept as written
    assert_eq!(state.workspace_root(None), "~/my-workspaces");
}

#[test]
fn validate_accepts_non_empty_fields() {
    let mut state = WorkspaceState::new();
    state.add_workspace(entry("a", "u", "b", None)).unwrap();
    assert!(dual::state::validate(&state).is_ok());
}

#[test]
fn validate_rejects_empty_repo_field() {
    let state = WorkspaceState {
        workspace_root: None,
        workspaces: vec![entry("", "u", "b", None)],
    };
    match dual::state::validate(&state) {
        Err(StateError::Validation(msg)) => {
            assert!(msg.contains("'repo' cannot be empty"));
            assert_eq!(msg, "workspaces[0]: 'repo' cannot be empty");
        }
        _ => panic!("expected Validation"),
    }
}

#[test]
fn validate_rejects_empty_url_field() {
    let state = WorkspaceState {
        workspace_root: None,
        workspaces: vec![entry("a", "u", "b", None), entry("test", "", "main", None)],
    };
    match dual::state::validate(&state) {
        Err(StateError::Validation(msg)) => {
            assert_eq!(msg, "workspaces[1] (test): 'url' cannot be empty");
        }
        _ => panic!("expected Validation"),
    }
}

#[test]
fn validate_rejects_empty_branch_field() {
    let state = WorkspaceState {
        workspace_root: None,
        workspaces: vec![entry("test", "u", "", None)],
    };
    match dual::state::validate(&state) {
        Err(StateError::Validation(msg)) => {
            assert_eq!(msg, "workspaces[0] (test): 'branch' cannot be empty");
        }
        _ => panic!("expected Validation"),
    }
}
