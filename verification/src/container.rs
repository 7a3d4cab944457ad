//! The container-facing vocabulary: the status a backend reports for a
//! workspace container, and the exact `docker` argument lists the tool
//! issues. Running `docker` itself is left to unverified callers.

use vstd::prelude::*;
use vstd::string::*;

use crate::strutil::push_str_chars;
use crate::strutil::string_of;

verus! {

/// Container status as the backend reports it.
#[derive(Debug, Clone, Copy, PartialEq, Eq, Structural)]
pub enum ContainerStatus {
    Running,
    Stopped,
    Missing,
}

/// Errors of the container subsystem.
#[derive(Debug)]
pub enum ContainerError {
    /// docker could not be run at all; carries the launcher's message.
    DockerNotFound(String),
    /// docker ran and failed; carries its standard error.
    Failed { operation: String, name: String, stderr: String },
}

/// The bind-mount argument `{dir}:/workspace`.
pub open spec fn mount_arg_seq(dir: Seq<char>) -> Seq<char> {
    dir + ":/workspace"@
}

/// The anonymous-volume arguments: `-v /workspace/{vol}` for each entry.
pub open spec fn volume_args_seq(vols: Seq<Seq<char>>) -> Seq<Seq<char>>
    decreases vols.len(),
{
    if vols.len() == 0 {
        Seq::empty()
    } else {
        seq!["-v"@, "/workspace/"@ + vols[0]] + volume_args_seq(vols.skip(1))
    }
}

/// The environment arguments: `-e {key}={value}` for each pair.
pub open spec fn env_args_seq(env: Seq<(Seq<char>, Seq<char>)>) -> Seq<Seq<char>>
    decreases env.len(),
{
    if env.len() == 0 {
        Seq::empty()
    } else {
        seq!["-e"@, env[0].0 + "="@ + env[0].1] + env_args_seq(env.skip(1))
    }
}

/// The full `docker create` argument list.
pub open spec fn create_args_seq(
    name: Seq<char>,
    dir: Seq<char>,
    image: Seq<char>,
    env: Seq<(Seq<char>, Seq<char>)>,
    vols: Seq<Seq<char>>,
) -> Seq<Seq<char>> {
    seq!["create"@, "--name"@, name, "-v"@, mount_arg_seq(dir)] + volume_args_seq(vols)
        + env_args_seq(env) + seq!["-w"@, "/workspace"@, image, "sleep"@, "infinity"@]
}

/// Build the docker create arguments:
/// - bind mounts the workspace directory to /workspace,
/// - isolates the configured directories with anonymous volumes,
/// - passes environment variables via -e flags,
/// - sets the working directory to /workspace,
/// - keeps the container alive for later `docker exec` calls.
pub fn build_create_args(
    name: &str,
    workspace_dir: &str,
    image: &str,
    env: &Vec<(String, String)>,
    anonymous_volumes: &Vec<String>,
) -> (r: Vec<String>)
    ensures
        r@.map_values(|s: String| s@) == create_args_seq(
            name@,
            workspace_dir@,
            image@,
            env@.map_values(|p: (String, String)| (p.0@, p.1@)),
            anonymous_volumes@.map_values(|s: String| s@),
        ),
{
    let ghost venv = env@.map_values(|p: (String, String)| (p.0@, p.1@));
    let ghost vvols = anonymous_volumes@.map_values(|s: String| s@);
    let mut args: Vec<String> = Vec::new();
    args.push(String::from_str("create"));
    args.push(String::from_str("--name"));
    args.push(String::from_str(name));
    args.push(String::from_str("-v"));
    let mut mount: Vec<char> = Vec::new();
    push_str_chars(&mut mount, workspace_dir);
    push_str_chars(&mut mount, ":/workspace");
    args.push(string_of(&mount));
    proof {
        assert(args@.map_values(|s: String| s@) =~= seq![
            "create"@,
            "--name"@,
            name@,
            "-v"@,
            mount_arg_seq(workspace_dir@),
        ]);
        assert(vvols.skip(0) =~= vvols);
    }

    let mut i: usize = 0;
    while i < anonymous_volumes.len()
        invariant
            i <= anonymous_volumes.len(),
            vvols == anonymous_volumes@.map_values(|s: String| s@),
            args@.map_values(|s: String| s@) + volume_args_seq(vvols.skip(i as int)) =~= seq![
                "create"@,
                "--name"@,
                name@,
                "-v"@,
                mount_arg_seq(workspace_dir@),
            ] + volume_args_seq(vvols),
        decreases anonymous_volumes.len() - i,
    {
        let ghost before = args@.map_values(|s: String| s@);
        let ghost rest = vvols.skip(i as int);
        proof {
            assert(rest[0] == vvols[i as int]);
            assert(rest.skip(1) =~= vvols.skip(i + 1));
        }
        args.push(String::from_str("-v"));
        let mut vol: Vec<char> = Vec::new();
        push_str_chars(&mut vol, "/workspace/");
        push_str_chars(&mut vol, anonymous_volumes[i].as_str());
        args.push(string_of(&vol));
        i = i + 1;
        proof {
            assert(args@.map_values(|s: String| s@) =~= before + seq![
                "-v"@,
                "/workspace/"@ + vvols[i - 1],
            ]);
            assert(volume_args_seq(rest) =~= seq!["-v"@, "/workspace/"@ + vvols[i - 1]]
                + volume_args_seq(vvols.skip(i as int)));
            assert(args@.map_values(|s: String| s@) + volume_args_seq(vvols.skip(i as int)) =~= seq![
                "create"@,
                "--name"@,
                name@,
                "-v"@,
                mount_arg_seq(workspace_dir@),
            ] + volume_args_seq(vvols));
        }
    }
    proof {
        assert(vvols.skip(anonymous_volumes.len() as int) =~= Seq::<Seq<char>>::empty());
        assert(volume_args_seq(Seq::<Seq<char>>::empty()) =~= Seq::<Seq<char>>::empty());
        assert(args@.map_values(|s: String| s@) =~= seq![
            "create"@,
            "--name"@,
            name@,
            "-v"@,
            mount_arg_seq(workspace_dir@),
        ] + volume_args_seq(vvols));
        assert(venv.skip(0) =~= venv);
    }

    let ghost after_vols = args@.map_values(|s: String| s@);
    let mut j: usize = 0;
    while j < env.len()
        invariant
            j <= env.len(),
            venv == env@.map_values(|p: (String, String)| (p.0@, p.1@)),
            after_vols == seq!["create"@, "--name"@, name@, "-v"@, mount_arg_seq(workspace_dir@)]
                + volume_args_seq(vvols),
            args@.map_values(|s: String| s@) + env_args_seq(venv.skip(j as int)) =~= after_vols
                + env_args_seq(venv),
        decreases env.len() - j,
    {
        let ghost before = args@.map_values(|s: String| s@);
        let ghost rest = venv.skip(j as int);
        proof {
            assert(rest[0] == venv[j as int]);
            assert(rest.skip(1) =~= venv.skip(j + 1));
        }
        args.push(String::from_str("-e"));
        let mut pair: Vec<char> = Vec::new();
        push_str_chars(&mut pair, env[j].0.as_str());
        push_str_chars(&mut pair, "=");
        push_str_chars(&mut pair, env[j].1.as_str());
        args.push(string_of(&pair));
        j = j + 1;
        proof {
            assert(args@.map_values(|s: String| s@) =~= before + seq![
                "-e"@,
                venv[j - 1].0 + "="@ + venv[j - 1].1,
            ]);
            assert(env_args_seq(rest) =~= seq!["-e"@, venv[j - 1].0 + "="@ + venv[j - 1].1]
                + env_args_seq(venv.skip(j as int)));
            assert(args@.map_values(|s: String| s@) + env_args_seq(venv.skip(j as int)) =~= after_vols
                + env_args_seq(venv));
        }
    }
    proof {
        assert(venv.skip(env.len() as int) =~= Seq::<(Seq<char>, Seq<char>)>::empty());
        assert(env_args_seq(Seq::<(Seq<char>, Seq<char>)>::empty())
            =~= Seq::<Seq<char>>::empty());
        assert(args@.map_values(|s: String| s@) =~= after_vols + env_args_seq(venv));
    }

    args.push(String::from_str("-w"));
    args.push(String::from_str("/workspace"));
    args.push(String::from_str(image));
    args.push(String::from_str("sleep"));
    args.push(String::from_str("infinity"));
    proof {
        assert(args@.map_values(|s: String| s@) =~= create_args_seq(
            name@,
            workspace_dir@,
            image@,
            venv,
            vvols,
        ));
    }
    args
}

/// The `docker exec` argument list: optional `-t`, working directory
/// `/workspace`, the container name, then the command.
pub open spec fn exec_args_seq(name: Seq<char>, cmd: Seq<Seq<char>>, tty: bool) -> Seq<Seq<char>> {
    (if tty {
        seq!["exec"@, "-t"@]
    } else {
        seq!["exec"@]
    }) + seq!["-w"@, "/workspace"@, name] + cmd
}

/// Build docker exec arguments.
pub fn build_exec_args(name: &str, cmd: &Vec<&str>, tty: bool) -> (r: Vec<String>)
    ensures
        r@.map_values(|s: String| s@) == exec_args_seq(
            name@,
            cmd@.map_values(|s: &str| s@),
            tty,
        ),
{
    let ghost vcmd = cmd@.map_values(|s: &str| s@);
    let mut args: Vec<String> = Vec::new();
    args.push(String::from_str("exec"));
    if tty {
        args.push(String::from_str("-t"));
    }
    args.push(String::from_str("-w"));
    args.push(String::from_str("/workspace"));
    args.push(String::from_str(name));
    let ghost head = args@.map_values(|s: String| s@);
    proof {
        assert(head =~= (if tty {
            seq!["exec"@, "-t"@]
        } else {
            seq!["exec"@]
        }) + seq!["-w"@, "/workspace"@, name@]);
    }
    let mut i: usize = 0;
    while i < cmd.len()
        invariant
            i <= cmd.len(),
            vcmd == cmd@.map_values(|s: &str| s@),
            args@.map_values(|s: String| s@) =~= head + vcmd.take(i as int),
        decreases cmd.len() - i,
    {
        let ghost before = args@.map_values(|s: String| s@);
        args.push(String::from_str(cmd[i]));
        i = i + 1;
        proof {
            assert(vcmd[i - 1] == cmd@[i - 1]@);
            assert(args@.map_values(|s: String| s@) =~= before.push(cmd@[i - 1]@));
            assert(head + vcmd.take(i as int) =~= before.push(vcmd[i - 1]));
        }
    }
    proof {
        assert(vcmd.take(cmd.len() as int) =~= vcmd);
        assert(args@.map_values(|s: String| s@) =~= exec_args_seq(name@, vcmd, tty));
    }
    args
}

/// The argument list of a setup command run through `sh -c`.
pub open spec fn exec_setup_args_seq(name: Seq<char>, setup_cmd: Seq<char>) -> Seq<Seq<char>> {
    seq!["exec"@, "-w"@, "/workspace"@, name, "sh"@, "-c"@, setup_cmd]
}

/// Build docker exec setup arguments.
pub fn build_exec_setup_args(name: &str, setup_cmd: &str) -> (r: Vec<String>)
    ensures
        r@.map_values(|s: String| s@) == exec_setup_args_seq(name@, setup_cmd@),
{
    let mut args: Vec<String> = Vec::new();
    args.push(String::from_str("exec"));
    args.push(String::from_str("-w"));
    args.push(String::from_str("/workspace"));
    args.push(String::from_str(name));
    args.push(String::from_str("sh"));
    args.push(String::from_str("-c"));
    args.push(String::from_str(setup_cmd));
    proof {
        assert(args@.map_values(|s: String| s@) =~= exec_setup_args_seq(name@, setup_cmd@));
    }
    args
}

} // verus!
