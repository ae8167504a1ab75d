//! The library's error kinds.  Low-level failures are classified at
//! the boundary where they arise; no raw error crosses a component
//! boundary.
use vstd::prelude::*;

verus! {

/// What went wrong, by category.
#[derive(Debug)]
pub enum Error {
    /// A filesystem or watcher failure that cannot be retried.
    Io(String),
    /// A malformed persisted record or packfile region.
    Encoding(String),
    /// A lookup that the caller asked to be signalled, not defaulted.
    NotFound,
}

} // verus!
