//! Decisions around workspace clones: what counts as a local source, where a
//! clone lives, and the exact `git` argument lists. Running `git` itself is
//! left to unverified callers.

use vstd::prelude::*;
use vstd::string::*;

use crate::config;
use crate::strutil::{chars_contains, chars_has_prefix, contains_seq, has_prefix, str_to_chars};

verus! {

/// A URL is a local filesystem path when it has no scheme separator and
/// starts like a path.
pub open spec fn is_local_spec(u: Seq<char>) -> bool {
    !contains_seq(u, "://"@) && (has_prefix(u, "/"@) || has_prefix(u, "./"@) || has_prefix(
        u,
        "../"@,
    ) || has_prefix(u, "~/"@))
}

/// Check if a URL looks like a local filesystem path (vs a remote git URL).
pub fn is_local_path(url: &str) -> (r: bool)
    ensures
        r == is_local_spec(url@),
{
    let cs = str_to_chars(url);
    let scheme = str_to_chars("://");
    if chars_contains(&cs, &scheme) {
        return false;
    }
    let slash = str_to_chars("/");
    let dot_slash = str_to_chars("./");
    let dot_dot_slash = str_to_chars("../");
    let tilde_slash = str_to_chars("~/");
    chars_has_prefix(&cs, &slash) || chars_has_prefix(&cs, &dot_slash) || chars_has_prefix(
        &cs,
        &dot_dot_slash,
    ) || chars_has_prefix(&cs, &tilde_slash)
}

/// Relies on std::path::Path::exists: answers whether `{dir}/.git` exists on
/// disk at the time of the call. The result depends on the filesystem, so
/// nothing is promised of it.
#[verifier::external_body]
fn path_has_git(dir: &str) -> bool {
    std::path::Path::new(dir).join(".git").exists()
}

/// Check if a workspace clone already exists on disk, at the directory
/// computed for this repo + branch under the workspace root.
pub fn workspace_exists(workspace_root: &str, repo: &str, branch: &str) -> bool {
    let dir = config::workspace_dir(workspace_root, repo, branch);
    path_has_git(dir.as_str())
}

/// The `git clone` argument list: `--local` for local sources, `-b` for the
/// branch, then source and destination.
pub open spec fn clone_args_seq(url: Seq<char>, branch: Seq<char>, target: Seq<char>) -> Seq<
    Seq<char>,
> {
    if is_local_spec(url) {
        seq!["clone"@, "--local"@, "-b"@, branch, url, target]
    } else {
        seq!["clone"@, "-b"@, branch, url, target]
    }
}

/// Build the git clone command arguments.
pub fn build_clone_args(url: &str, branch: &str, target: &str) -> (r: Vec<String>)
    ensures
        r@.map_values(|s: String| s@) == clone_args_seq(url@, branch@, target@),
{
    let mut args: Vec<String> = Vec::new();
    args.push(String::from_str("clone"));
    if is_local_path(url) {
        args.push(String::from_str("--local"));
    }
    args.push(String::from_str("-b"));
    args.push(String::from_str(branch));
    args.push(String::from_str(url));
    args.push(String::from_str(target));
    proof {
        assert(args@.map_values(|s: String| s@) =~= clone_args_seq(url@, branch@, target@));
    }
    args
}

/// The argument list of a hardlink-based clone from a local main workspace.
pub open spec fn local_clone_args_seq(main_path: Seq<char>, target: Seq<char>) -> Seq<Seq<char>> {
    seq!["clone"@, "--local"@, main_path, target]
}

/// Build the `git clone --local` arguments used to derive a branch workspace
/// from the local main workspace.
pub fn build_local_clone_args(main_workspace_path: &str, target: &str) -> (r: Vec<String>)
    ensures
        r@.map_values(|s: String| s@) == local_clone_args_seq(main_workspace_path@, target@),
{
    let mut args: Vec<String> = Vec::new();
    args.push(String::from_str("clone"));
    args.push(String::from_str("--local"));
    args.push(String::from_str(main_workspace_path));
    args.push(String::from_str(target));
    proof {
        assert(args@.map_values(|s: String| s@) =~= local_clone_args_seq(
            main_workspace_path@,
            target@,
        ));
    }
    args
}

/// Errors of the clone subsystem.
#[derive(Debug)]
pub enum CloneError {
    /// git could not be run at all; carries the launcher's message.
    GitNotFound(String),
    /// git ran and failed; carries its standard error.
    GitFailed { repo: String, branch: String, stderr: String },
    /// A filesystem step around the clone failed; carries the path and the
    /// underlying message.
    Filesystem(String, String),
}

} // verus!
