//! Errors of the shared-file propagation utility. The propagation itself
//! moves files and creates symlinks, so it lives with the other unverified
//! plumbing; only its error vocabulary is fixed here.

use vstd::prelude::*;

verus! {

/// Errors of the shared-file subsystem.
#[derive(Debug)]
pub enum SharedError {
    /// The home directory could not be determined.
    NoHomeDir,
    /// A filesystem step failed; carries the path and the underlying message.
    Filesystem(String, String),
}

} // verus!
