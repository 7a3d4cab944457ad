//! What a key press asks the workspace browser to do. Reading terminal
//! events and mapping keys to actions is left to the unverified front end.

use vstd::prelude::*;

verus! {

/// The browser's reply to a key press that ends the event loop's turn.
#[derive(Debug)]
pub enum Action {
    /// Leave the browser.
    Quit,
    /// Launch this workspace (by its workspace id).
    Select(String),
}

} // verus!
