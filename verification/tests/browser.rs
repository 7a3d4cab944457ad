use dual::container::ContainerStatus;
use dual::state::{WorkspaceEntry, WorkspaceState};
use dual::tui::app::{App, WorkspaceProbe, WorkspaceStatus};

fn entry(repo: &str, branch: &str) -> WorkspaceEntry {
    WorkspaceEntry {
        repo: repo.to_string(),
        url: "url".to_string(),
        branch: branch.to_string(),
        path: None,
    }
}

fn idle_probe() -> WorkspaceProbe {
    WorkspaceProbe {
        tmux_alive: false,
        container: ContainerStatus::Missing,
        clone_exists: false,
    }
}

fn test_state() -> (WorkspaceState, Vec<WorkspaceProbe>) {
    let mut state = WorkspaceState::new();
    state.add_workspace(entry("lightfast", "main")).unwrap();
    state.add_workspace(entry("lightfast", "feat/auth")).unwrap();
    state.add_workspace(entry("agent-os", "main")).unwrap();
    let probes = vec![idle_probe(); 3];
    (state, probes)
}

#[test]
fn app_groups_by_repo() {
    let (state, probes) = test_state();
    let app = App::new(&state, &probes);

    assert_eq!(app.repos.len(), 2);
    assert_eq!(app.repos[0].name, "lightfast");
    assert_eq!(app.repos[0].workspaces.len(), 2);
    assert_eq!(app.repos[1].name, "agent-os");
    assert_eq!(app.repos[1].workspaces.len(), 1);
}

#[test]
fn flatten_items_expanded() {
    let (state, probes) = test_state();
    let app = App::new(&state, &probes);
    let items = app.flatten_items();

    // 2 repo headers + 3 workspaces = 5
    assert_eq!(items.len(), 5);
    assert!(items[0].status.is_none()); // repo header
    assert!(items[0].display.contains("lightfast"));
    assert!(items[1].status.is_some()); // workspace
    assert!(items[1].display.contains("main"));
    assert!(items[3].status.is_none()); // repo header
    assert!(items[3].display.contains("agent-os"));
}

#[test]
fn navigation_bounds() {
    let (state, probes) = test_state();
    let mut app = App::new(&state, &probes);

    assert_eq!(app.selected(), 0);
    app.move_up(); // should stay at 0
    assert_eq!(app.selected(), 0);

    // Move to the end
    for _ in 0..10 {
        app.move_down();
    }
    assert_eq!(app.selected(), 4); // 5 items, max index = 4
}

#[test]
fn selected_workspace_id_returns_none_for_header() {
    let (state, probes) = test_state();
    let app = App::new(&state, &probes);
    // First item is a repo header
    assert!(app.selected_workspace_id().is_none());
}

#[test]
fn selected_workspace_id_returns_id_for_branch() {
    let (state, probes) = test_state();
    let mut app = App::new(&state, &probes);
    app.move_down(); // move to first workspace
    assert_eq!(
        app.selected_workspace_id(),
        Some("lightfast-main".to_string())
    );
}

#[test]
fn toggle_collapse_reduces_items() {
    let (state, probes) = test_state();
    let mut app = App::new(&state, &probes);

    assert_eq!(app.item_count, 5);
    app.toggle_expand(); // collapse "lightfast"
    assert_eq!(app.item_count, 3); // 2 headers + 1 workspace (agent-os/main)
}

#[test]
fn toggle_expand_restores_items() {
    let (state, probes) = test_state();
    let mut app = App::new(&state, &probes);

    app.toggle_expand(); // collapse
    assert_eq!(app.item_count, 3);
    app.toggle_expand(); // expand again
    assert_eq!(app.item_count, 5);
}

#[test]
fn empty_state_produces_no_items() {
    let state = WorkspaceState::new();
    let probes: Vec<WorkspaceProbe> = Vec::new();
    let app = App::new(&state, &probes);
    assert_eq!(app.flatten_items().len(), 0);
    assert_eq!(app.item_count, 0);
}

#[test]
fn status_reflects_probes() {
    let mut state = WorkspaceState::new();
    state.add_workspace(entry("app", "live")).unwrap();
    state.add_workspace(entry("app", "parked")).unwrap();
    state.add_workspace(entry("app", "cold")).unwrap();
    let probes = vec![
        WorkspaceProbe {
            tmux_alive: true,
            container: ContainerStatus::Missing,
            clone_exists: false,
        },
        WorkspaceProbe {
            tmux_alive: false,
            container: ContainerStatus::Stopped,
            clone_exists: false,
        },
        WorkspaceProbe {
            tmux_alive: false,
            container: ContainerStatus::Missing,
            clone_exists: false,
        },
    ];
    let app = App::new(&state, &probes);
    assert_eq!(app.repos[0].workspaces[0].status, WorkspaceStatus::Running);
    assert_eq!(app.repos[0].workspaces[1].status, WorkspaceStatus::Stopped);
    assert_eq!(app.repos[0].workspaces[2].status, WorkspaceStatus::Lazy);

    let items = app.flatten_items();
    assert!(items[1].display.contains("running"));
    assert!(items[2].display.contains("stopped"));
    assert!(items[3].display.contains("lazy"));
}

#[test]
fn toggle_on_branch_row_does_nothing() {
    let (state, probes) = test_state();
    let mut app = App::new(&state, &probes);
    app.move_down(); // a branch row, not a header
    let before = app.item_count;
    app.toggle_expand();
    assert_eq!(app.item_count, before);
    assert_eq!(app.selected(), 1);
}
