use dual::durable::DurableFile;
use dual::persist::{parse, render};
use dual::state::{StateError, WorkspaceEntry, WorkspaceState};

fn entry(repo: &str, url: &str, branch: &str, path: Option<&str>) -> WorkspaceEntry {
    WorkspaceEntry {
        repo: repo.to_string(),
        url: url.to_string(),
        branch: branch.to_string(),
        path: path.map(|p| p.to_string()),
    }
}

fn sample_state() -> WorkspaceState {
    let mut state = WorkspaceState::new();
    state.workspace_root = Some("~/workspaces".to_string());
    state
        .add_workspace(entry(
            "test",
            "https://example.com/test.git",
            "main",
            Some("/home/user/test"),
        ))
        .unwrap();
    state
        .add_workspace(entry("test", "https://example.com/test.git", "dev", None))
        .unwrap();
    state
}

#[test]
fn render_parse_round_trip() {
    // Round trip: for any valid registry, save then load yields a
    // field-equal registry.
    let state = sample_state();
    let doc = render(&state);
    let parsed = parse(&doc).unwrap();
    assert_eq!(state, parsed);
}

#[test]
fn render_parse_round_trip_with_special_characters() {
    let mut state = WorkspaceState::new();
    state.workspace_root = Some("/tmp/quo\"te\\back".to_string());
    state
        .add_workspace(entry(
            "re#po",
            "url with = sign and \ttab",
            "line\nbreak",
            Some("path'with \"quotes\""),
        ))
        .unwrap();
    let doc = render(&state);
    let parsed = parse(&doc).unwrap();
    assert_eq!(state, parsed);
}

#[test]
fn rendered_document_shape() {
    let state = sample_state();
    let doc = render(&state);
    assert_eq!(
        doc,
        "workspace_root = \"~/workspaces\"\n\
         [[workspaces]]\n\
         repo = \"test\"\n\
         url = \"https://example.com/test.git\"\n\
         branch = \"main\"\n\
         path = \"/home/user/test\"\n\
         \n\
         [[workspaces]]\n\
         repo = \"test\"\n\
         url = \"https://example.com/test.git\"\n\
         branch = \"dev\"\n"
    );
}

#[test]
fn parse_empty_document_is_empty_registry() {
    let state = parse("").unwrap();
    assert!(state.workspaces.is_empty());
    assert!(state.workspace_root.is_none());
}

#[test]
fn parse_skips_blank_lines_and_comments() {
    let doc = "# registry\n\nworkspace_root = \"/tmp/ws\"\n\n[[workspaces]]\nrepo = \"a\"\nurl = \"u\"\nbranch = \"b\"\n# trailing comment\n";
    let state = parse(doc).unwrap();
    assert_eq!(state.workspace_root.as_deref(), Some("/tmp/ws"));
    assert_eq!(state.workspaces.len(), 1);
    assert_eq!(state.workspaces[0].repo, "a");
    assert!(state.workspaces[0].path.is_none());
}

#[test]
fn parse_reports_malformed_line() {
    match parse("garbage") {
        Err(StateError::ParseError(line)) => assert_eq!(line, 1),
        _ => panic!("expected ParseError"),
    }
    match parse("[[workspaces]]\nrepo = unquoted\n") {
        Err(StateError::ParseError(line)) => assert_eq!(line, 2),
        _ => panic!("expected ParseError"),
    }
}

#[test]
fn parse_reports_incomplete_entry() {
    match parse("[[workspaces]]\nrepo = \"a\"\n") {
        Err(StateError::ParseError(_)) => {}
        _ => panic!("expected ParseError"),
    }
}

#[test]
fn parse_rejects_empty_required_field() {
    let doc = "[[workspaces]]\nrepo = \"\"\nurl = \"u\"\nbranch = \"b\"\n";
    match parse(doc) {
        Err(StateError::Validation(msg)) => {
            assert!(msg.contains("'repo' cannot be empty"));
        }
        _ => panic!("expected Validation"),
    }
}

#[test]
fn parse_ignores_unknown_keys() {
    let doc = "color = \"blue\"\n[[workspaces]]\nrepo = \"a\"\nurl = \"u\"\nbranch = \"b\"\nflavour = \"sweet\"\n";
    let state = parse(doc).unwrap();
    assert_eq!(state.workspaces.len(), 1);
}

#[test]
fn interrupted_save_before_rename_keeps_prior_registry() {
    // Crash safety, simulated: interrupting a save before the rename leaves
    // the prior registry loadable and valid.
    let prior = sample_state();
    let mut newer = WorkspaceState::new();
    newer
        .add_workspace(entry("other", "url", "main", None))
        .unwrap();

    for steps in 0..3usize {
        let mut file = DurableFile {
            target: Some(render(&prior)),
            tmp: None,
            backup: None,
        };
        file.atomic_save_prefix(&newer, steps);
        let on_disk = file.target.expect("target must survive");
        let loaded = parse(&on_disk).unwrap();
        assert_eq!(loaded, prior);
    }
}

#[test]
fn interrupted_save_after_rename_keeps_new_registry() {
    // Crash safety, simulated: interrupting a save after the rename leaves
    // the new registry loadable and valid.
    let prior = sample_state();
    let mut newer = WorkspaceState::new();
    newer
        .add_workspace(entry("other", "url", "main", None))
        .unwrap();

    for steps in 3..5usize {
        let mut file = DurableFile {
            target: Some(render(&prior)),
            tmp: None,
            backup: None,
        };
        file.atomic_save_prefix(&newer, steps);
        let on_disk = file.target.expect("target must exist");
        let loaded = parse(&on_disk).unwrap();
        assert_eq!(loaded, newer);
    }
}

#[test]
fn full_save_writes_new_registry() {
    let newer = sample_state();
    let mut file = DurableFile {
        target: None,
        tmp: None,
        backup: None,
    };
    file.atomic_save(&newer);
    let loaded = parse(&file.target.unwrap()).unwrap();
    assert_eq!(loaded, newer);
}
