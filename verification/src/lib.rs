//! Snapshot manager for a game's save-data directory tree: capture, list,
//! restore and delete named snapshots per user profile.

use vstd::prelude::*;

pub mod codec;
pub mod context;
pub mod engine;
pub mod fsm;
pub mod paths;
pub mod snapshot;
pub mod text;

verus! {

/// The failure taxonomy of the snapshot engine.
#[derive(Clone, Copy, Debug, PartialEq, Eq, Structural)]
pub enum Error {
    /// A required environment identity value (the user name) is unavailable.
    Environment,
    /// A filesystem read, write or create failed, or a directory whose
    /// existence is required is missing.
    Io,
    /// A metadata document is present but structurally invalid.
    Parse,
}

} // verus!
