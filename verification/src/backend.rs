//! Abstraction over terminal multiplexers (tmux, zellij, ...).
//!
//! Each implementation wraps a specific multiplexer binary and provides
//! session lifecycle management. Implementations run subprocesses, so they
//! live with the other unverified plumbing; this crate only fixes the
//! surface that command handlers program against.

use vstd::prelude::*;

verus! {

/// A terminal-multiplexer backend. The trait is object-safe so command
/// handlers can accept `&dyn MultiplexerBackend`.
pub trait MultiplexerBackend {
    /// Check if the multiplexer binary is installed and available.
    fn is_available(&self) -> bool;

    /// Create a new detached session with the given name and working
    /// directory. Optionally send an initial command after creation.
    fn create_session(&self, session_name: &str, cwd: &str, init_cmd: Option<&str>) -> Result<
        (),
        BackendError,
    >;

    /// Attach the current terminal to an existing session.
    fn attach(&self, session_name: &str) -> Result<(), BackendError>;

    /// Detach the current client from a session.
    fn detach(&self, session_name: &str) -> Result<(), BackendError>;

    /// Destroy a session and all its windows/panes.
    fn destroy(&self, session_name: &str) -> Result<(), BackendError>;

    /// Check if a session exists and has running processes.
    fn is_alive(&self, session_name: &str) -> bool;

    /// List all managed sessions (filtered by the `dual-` prefix).
    fn list_sessions(&self) -> Vec<String>;

    /// Send keystrokes to a session's active pane.
    fn send_keys(&self, session_name: &str, keys: &str) -> Result<(), BackendError>;

    /// Check if we're currently inside this multiplexer.
    fn is_inside(&self) -> bool;
}

/// Errors of a multiplexer backend.
#[derive(Debug)]
pub enum BackendError {
    /// The multiplexer binary could not be run at all.
    NotFound { multiplexer: String, detail: String },
    /// The multiplexer ran and failed; carries its standard error.
    Failed { multiplexer: String, operation: String, session: String, stderr: String },
}

} // verus!
