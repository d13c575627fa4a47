//! Typed failures surfaced by the registry and its callers.

use vstd::prelude::*;

verus! {

/// Every failure the library reports. Storage-level violations carry a
/// `Database` message; domain checks ahead of creation carry the value
/// that collided.
#[derive(Debug, PartialEq)]
pub enum Error {
    NotInitialized,
    NotInTmux,
    NotGitRepo,
    InsideWorktree,
    RemoteNotFound(String),
    BranchExists(String),
    EntryExists(String),
    DirectoryExists(String),
    NoCommand,
    ConflictingCommands,
    EntryNotFound(String),
    WindowNotFound(String),
    InvalidHookType(String),
    Git(String),
    Tmux(String),
    Database(String),
}

} // verus!
