//! The tmux flavour of the multiplexer backend shares the session naming
//! and argument conventions of the `tmux` module; the struct that actually
//! runs the binary lives with the other unverified plumbing.

use vstd::prelude::*;
use vstd::string::*;

use crate::tmux;

verus! {

/// The prefix of every session this backend manages.
pub fn session_prefix() -> (r: String)
    ensures
        r@ == "dual-"@,
{
    String::from_str("dual-")
}

/// Build the arguments for `tmux new-session`.
pub fn build_new_session_args(session_name: &str, cwd: &str) -> (r: Vec<String>)
    ensures
        r@.map_values(|s: String| s@) == tmux::new_session_args_seq(session_name@, cwd@),
{
    tmux::build_new_session_args(session_name, cwd)
}

} // verus!
