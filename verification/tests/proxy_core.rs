use dual::container::ContainerStatus;
use dual::proxy::{
    connect_error_body, extract_subdomain, forward_error_body, handshake_error_body,
    response_error_body, workspace_urls, BackendInfo, PortRoutes, ProxyState, RouteDecision,
    RouteEntry,
};
use dual::state::{WorkspaceEntry, WorkspaceState};

fn entry(repo: &str, branch: &str) -> WorkspaceEntry {
    WorkspaceEntry {
        repo: repo.to_string(),
        url: "url".to_string(),
        branch: branch.to_string(),
        path: None,
    }
}

#[test]
fn extract_subdomain_with_port() {
    assert_eq!(
        extract_subdomain("lightfast-main.localhost:3000"),
        Some("lightfast-main".to_string())
    );
}

#[test]
fn extract_subdomain_without_port() {
    assert_eq!(
        extract_subdomain("lightfast-main.localhost"),
        Some("lightfast-main".to_string())
    );
}

#[test]
fn extract_subdomain_bare_localhost() {
    assert_eq!(extract_subdomain("localhost:3000"), None);
    assert_eq!(extract_subdomain("localhost"), None);
}

#[test]
fn extract_subdomain_nested() {
    assert_eq!(
        extract_subdomain("lightfast-feat__auth.localhost:3001"),
        Some("lightfast-feat__auth".to_string())
    );
}

#[test]
fn extract_subdomain_wrong_suffix_or_empty() {
    assert_eq!(extract_subdomain("app.example.com:3000"), None);
    assert_eq!(extract_subdomain(".localhost:3000"), None);
    assert_eq!(extract_subdomain(""), None);
}

#[test]
fn proxy_state_resolve() {
    let state = ProxyState {
        routes: vec![PortRoutes {
            port: 3000,
            entries: vec![RouteEntry {
                label: "lightfast-main".to_string(),
                ip: "172.17.0.2".to_string(),
            }],
        }],
    };
    assert_eq!(
        state.resolve(3000, "lightfast-main"),
        Some("172.17.0.2".to_string())
    );
    assert_eq!(state.resolve(3000, "unknown"), None);
    assert_eq!(state.resolve(4000, "lightfast-main"), None);
}

#[test]
fn proxy_state_ports() {
    let state = ProxyState {
        routes: vec![
            PortRoutes {
                port: 3000,
                entries: Vec::new(),
            },
            PortRoutes {
                port: 3001,
                entries: Vec::new(),
            },
        ],
    };
    let mut ports = state.ports();
    ports.sort();
    assert_eq!(ports, vec![3000, 3001]);
}

#[test]
fn routing_correctness_scenario() {
    // Routing correctness: with (3000, "app-main") mapped to 10.0.0.2, the
    // host "app-main.localhost:3000" on the port-3000 listener resolves to
    // 10.0.0.2; "localhost:3000" resolves to nothing; a port-4000 listener
    // rejects "app-main.localhost:4000" with a 502 body.
    let table = ProxyState {
        routes: vec![PortRoutes {
            port: 3000,
            entries: vec![RouteEntry {
                label: "app-main".to_string(),
                ip: "10.0.0.2".to_string(),
            }],
        }],
    };

    match table.route_decision(3000, "app-main.localhost:3000") {
        RouteDecision::Forward(ip) => assert_eq!(ip, "10.0.0.2"),
        RouteDecision::Reject(body) => panic!("unexpected reject: {body}"),
    }

    assert_eq!(extract_subdomain("localhost:3000"), None);
    match table.route_decision(3000, "localhost:3000") {
        RouteDecision::Reject(body) => {
            assert!(body.contains("No route for host: localhost:3000"));
        }
        RouteDecision::Forward(_) => panic!("bare localhost must not resolve"),
    }

    match table.route_decision(4000, "app-main.localhost:4000") {
        RouteDecision::Reject(body) => {
            assert!(body.contains("Available routes on port 4000:"));
        }
        RouteDecision::Forward(_) => panic!("port 4000 has no routes"),
    }
}

#[test]
fn end_to_end_scenario() {
    // End-to-end: "app/main" runs on port 3000 with IP 10.0.0.2 while
    // "app/feat__x" is stopped. The port-3000 table holds only
    // app-main -> 10.0.0.2, and a request for app-feat__x.localhost:3000
    // yields a 502 listing app-main.localhost:3000 as the only known route.
    let mut state = WorkspaceState::new();
    state.add_workspace(entry("app", "main")).unwrap();
    state.add_workspace(entry("app", "feat__x")).unwrap();

    let infos = vec![
        BackendInfo {
            status: ContainerStatus::Running,
            ip: Some("10.0.0.2".to_string()),
            ports: vec![3000],
        },
        BackendInfo {
            status: ContainerStatus::Stopped,
            ip: None,
            ports: vec![3000],
        },
    ];

    let table = ProxyState::from_config(&state, &infos);
    assert_eq!(table.resolve(3000, "app-main"), Some("10.0.0.2".to_string()));
    assert_eq!(table.resolve(3000, "app-feat__x"), None);

    match table.route_decision(3000, "app-feat__x.localhost:3000") {
        RouteDecision::Reject(body) => {
            assert_eq!(
                body,
                "No route for host: app-feat__x.localhost:3000\n\n\
                 Available routes on port 3000:\n  app-main.localhost:3000"
            );
        }
        RouteDecision::Forward(_) => panic!("stopped workspace must not resolve"),
    }
}

#[test]
fn from_config_skips_unroutable_and_last_report_wins() {
    let mut state = WorkspaceState::new();
    state.add_workspace(entry("a", "main")).unwrap();
    state.add_workspace(entry("b", "main")).unwrap();
    state.add_workspace(entry("a", "other")).unwrap();

    let infos = vec![
        BackendInfo {
            status: ContainerStatus::Running,
            ip: Some("10.0.0.2".to_string()),
            ports: vec![3000, 3001],
        },
        // running but without an address: not routable
        BackendInfo {
            status: ContainerStatus::Running,
            ip: None,
            ports: vec![3000],
        },
        BackendInfo {
            status: ContainerStatus::Missing,
            ip: Some("10.0.0.9".to_string()),
            ports: vec![3000],
        },
    ];

    let table = ProxyState::from_config(&state, &infos);
    assert_eq!(table.resolve(3000, "a-main"), Some("10.0.0.2".to_string()));
    assert_eq!(table.resolve(3001, "a-main"), Some("10.0.0.2".to_string()));
    assert_eq!(table.resolve(3000, "b-main"), None);
    assert_eq!(table.resolve(3000, "a-other"), None);
}

#[test]
fn error_bodies_are_exact() {
    assert_eq!(
        connect_error_body("10.0.0.2", 3000, "connection refused"),
        "Cannot connect to 10.0.0.2:3000: connection refused"
    );
    assert_eq!(
        handshake_error_body("10.0.0.2", 8080, "eof"),
        "Handshake failed with 10.0.0.2:8080: eof"
    );
    assert_eq!(
        response_error_body("broken pipe"),
        "Error reading response: broken pipe"
    );
    assert_eq!(forward_error_body("timed out"), "Proxy error: timed out");
}

#[test]
fn workspace_urls_lists_ports_with_status_icons() {
    let mut state = WorkspaceState::new();
    state.add_workspace(entry("app", "main")).unwrap();
    state.add_workspace(entry("app", "dev")).unwrap();
    state.add_workspace(entry("quiet", "main")).unwrap();

    let infos = vec![
        BackendInfo {
            status: ContainerStatus::Running,
            ip: Some("10.0.0.2".to_string()),
            ports: vec![3000, 3001],
        },
        BackendInfo {
            status: ContainerStatus::Stopped,
            ip: None,
            ports: vec![3000],
        },
        // no declared ports: contributes nothing
        BackendInfo {
            status: ContainerStatus::Running,
            ip: Some("10.0.0.3".to_string()),
            ports: Vec::new(),
        },
    ];

    let groups = workspace_urls(&state, &infos);
    assert_eq!(groups.len(), 2);
    assert_eq!(groups[0].0, "app-main");
    assert_eq!(
        groups[0].1,
        vec![
            "  \u{25cf} app-main.localhost:3000".to_string(),
            "  \u{25cf} app-main.localhost:3001".to_string(),
        ]
    );
    assert_eq!(groups[1].0, "app-dev");
    assert_eq!(groups[1].1, vec!["  \u{25cb} app-dev.localhost:3000".to_string()]);
}
