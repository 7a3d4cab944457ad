use dual::container::{
    build_create_args, build_exec_args, build_exec_setup_args, ContainerStatus,
};

#[test]
fn create_args_correct() {
    let env: Vec<(String, String)> = Vec::new();
    let volumes = vec!["node_modules".to_string()];
    let args = build_create_args(
        "dual-lightfast-main",
        "/home/user/dual-workspaces/lightfast/main",
        "node:20",
        &env,
        &volumes,
    );
    assert_eq!(args[0], "create");
    assert_eq!(args[1], "--name");
    assert_eq!(args[2], "dual-lightfast-main");
    assert_eq!(args[3], "-v");
    assert!(args[4].contains("/home/user/dual-workspaces/lightfast/main:/workspace"));
    assert_eq!(args[5], "-v");
    assert_eq!(args[6], "/workspace/node_modules");
    assert_eq!(args[7], "-w");
    assert_eq!(args[8], "/workspace");
    assert_eq!(args[9], "node:20");
    assert_eq!(args[10], "sleep");
    assert_eq!(args[11], "infinity");
}

#[test]
fn create_args_with_env_vars() {
    let env = vec![("NODE_ENV".to_string(), "development".to_string())];
    let volumes = vec!["node_modules".to_string()];
    let args = build_create_args("dual-test", "/tmp/ws", "node:20", &env, &volumes);
    assert!(args.contains(&"-e".to_string()));
    assert!(args.contains(&"NODE_ENV=development".to_string()));
}

#[test]
fn create_args_with_multiple_anonymous_volumes() {
    let env: Vec<(String, String)> = Vec::new();
    let volumes = vec![
        "node_modules".to_string(),
        ".next".to_string(),
        "target".to_string(),
    ];
    let args = build_create_args("dual-test", "/tmp/ws", "node:20", &env, &volumes);
    assert!(args.contains(&"/workspace/node_modules".to_string()));
    assert!(args.contains(&"/workspace/.next".to_string()));
    assert!(args.contains(&"/workspace/target".to_string()));
}

#[test]
fn create_args_empty_env_no_extra_flags() {
    let env: Vec<(String, String)> = Vec::new();
    let volumes = vec!["node_modules".to_string()];
    let args = build_create_args("dual-test", "/tmp/ws", "node:20", &env, &volumes);
    assert!(!args.contains(&"-e".to_string()));
}

#[test]
fn exec_setup_args_correct() {
    let args = build_exec_setup_args("dual-lightfast-main", "pnpm install");
    assert_eq!(
        args,
        vec![
            "exec",
            "-w",
            "/workspace",
            "dual-lightfast-main",
            "sh",
            "-c",
            "pnpm install",
        ]
    );
}

#[test]
fn exec_args_without_tty() {
    let args = build_exec_args("dual-lightfast-main", &vec!["pnpm", "dev"], false);
    assert_eq!(
        args,
        vec![
            "exec",
            "-w",
            "/workspace",
            "dual-lightfast-main",
            "pnpm",
            "dev"
        ]
    );
}

#[test]
fn exec_args_with_tty() {
    let args = build_exec_args("dual-lightfast-main", &vec!["bash"], true);
    assert_eq!(
        args,
        vec![
            "exec",
            "-t",
            "-w",
            "/workspace",
            "dual-lightfast-main",
            "bash"
        ]
    );
}

#[test]
fn container_status_variants() {
    assert_eq!(ContainerStatus::Running, ContainerStatus::Running);
    assert_ne!(ContainerStatus::Running, ContainerStatus::Stopped);
    assert_ne!(ContainerStatus::Stopped, ContainerStatus::Missing);
}
