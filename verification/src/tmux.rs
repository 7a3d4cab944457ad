//! The tmux-facing vocabulary: session naming and the exact `tmux` argument
//! lists. Running `tmux` itself is left to unverified callers.

use vstd::prelude::*;
use vstd::string::*;

use crate::config;

verus! {

/// The prefix of every session this tool manages.
pub fn session_prefix() -> (r: String)
    ensures
        r@ == "dual-"@,
{
    String::from_str("dual-")
}

/// Generate the session name for a workspace. Sessions are named exactly
/// like containers: `dual-{repo}-{encoded branch}`.
pub fn session_name(repo: &str, branch: &str) -> (r: String)
    ensures
        r@ == config::container_name_seq(repo@, branch@),
{
    config::container_name(repo, branch)
}

/// The argument list of `tmux new-session`: detached, named, with the
/// working directory set to the workspace.
pub open spec fn new_session_args_seq(session: Seq<char>, cwd: Seq<char>) -> Seq<Seq<char>> {
    seq!["new-session"@, "-d"@, "-s"@, session, "-c"@, cwd]
}

/// Build the arguments for tmux new-session.
pub fn build_new_session_args(session_name: &str, cwd: &str) -> (r: Vec<String>)
    ensures
        r@.map_values(|s: String| s@) == new_session_args_seq(session_name@, cwd@),
{
    let mut args: Vec<String> = Vec::new();
    args.push(String::from_str("new-session"));
    args.push(String::from_str("-d"));
    args.push(String::from_str("-s"));
    args.push(String::from_str(session_name));
    args.push(String::from_str("-c"));
    args.push(String::from_str(cwd));
    proof {
        assert(args@.map_values(|s: String| s@) =~= new_session_args_seq(session_name@, cwd@));
    }
    args
}

/// Errors of the tmux subsystem.
#[derive(Debug)]
pub enum TmuxError {
    /// tmux could not be run at all; carries the launcher's message.
    NotFound(String),
    /// tmux ran and failed; carries its standard error.
    Failed { operation: String, session: String, stderr: String },
}

} // verus!
