//! A model of the crash-consistent durable write. The save protocol is:
//! take the lock, write the serialized registry to a temporary file and
//! flush it, best-effort copy the previous file to a backup path, atomically
//! rename the temporary file over the target, and release the lock. The
//! target file only ever changes at the rename, and then it changes to the
//! fully rendered new document in one step: a reader observes either the
//! prior file or the new file, never a torn one. The unverified caller
//! performs the same steps against the real filesystem.

use vstd::prelude::*;

use crate::persist::{parse_doc, render, render_seq};
use crate::state::WorkspaceState;

verus! {

/// The number of steps in the save protocol, after taking the lock:
/// write the temporary file, copy the backup, rename, remove the lock.
pub const SAVE_STEPS: usize = 4;

/// The on-disk neighbourhood of the registry file: the target itself, the
/// temporary sibling, and the backup. `None` stands for an absent file.
#[derive(Debug)]
pub struct DurableFile {
    pub target: Option<String>,
    pub tmp: Option<String>,
    pub backup: Option<String>,
}

impl DurableFile {
    /// Run the first `steps` steps of the save protocol and stop, as a
    /// crash at that point would. The target keeps its prior content
    /// through every step before the rename; from the rename on it holds
    /// the fully rendered new document.
    pub fn atomic_save_prefix(&mut self, state: &WorkspaceState, steps: usize)
        ensures
            steps < 3 ==> final(self).target == old(self).target,
            steps >= 3 ==> match final(self).target {
                Some(s) => s@ == render_seq(state@),
                None => false,
            },
    {
        if steps >= 1 {
            // write the new content to the temporary file and flush it
            self.tmp = Some(render(state));
        }
        if steps >= 2 {
            // best-effort copy of the previous file to the backup path
            match &self.target {
                Some(t) => {
                    self.backup = Some(t.clone());
                },
                None => {},
            }
        }
        if steps >= 3 {
            // atomic rename of the temporary file over the target
            match &self.tmp {
                Some(t) => {
                    self.target = Some(t.clone());
                    self.tmp = None;
                },
                None => {},
            }
        }
        if steps >= 4 {
            // release the lock and remove the lock file: no content changes
        }
    }

    /// Run the whole save protocol.
    pub fn atomic_save(&mut self, state: &WorkspaceState)
        ensures
            match final(self).target {
                Some(s) => s@ == render_seq(state@),
                None => false,
            },
    {
        self.atomic_save_prefix(state, SAVE_STEPS);
    }
}

/// Crash safety of the save protocol. Together with the
/// contract of `atomic_save_prefix` this gives both halves: a crash before
/// the rename leaves the target unchanged, so a target that held the
/// rendered prior registry still parses to the prior registry; a crash at
/// or after the rename leaves the fully rendered new document, which parses
/// to the new registry.
pub proof fn lemma_interrupted_save_recovers(m: crate::state::StateModel, target: Seq<char>)
    requires
        target == render_seq(m),
    ensures
        parse_doc(target) == Some(m),
{
    crate::persist::lemma_render_parse(m);
}

} // verus!
