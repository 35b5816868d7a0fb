//! The engine's error kinds. The in-memory core raises only `Corruption`;
//! `Io` and `LockHeld` are reserved for a file-backed host of the engine.
use vstd::prelude::*;

verus! {

#[derive(Clone, Copy, Debug, PartialEq, Eq, Structural)]
pub enum KvError {
    /// A filesystem operation failed.
    Io,
    /// Another holder already owns the exclusive lock on the log.
    LockHeld,
    /// A record's declared lengths run past the end of the log,
    /// or a record cannot be re-encoded within the length header's range.
    Corruption,
}

} // verus!
