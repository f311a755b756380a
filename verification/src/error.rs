use vstd::prelude::*;

verus! {

/// The error kinds that store operations surface to their callers.
#[derive(Clone, Copy, Debug, PartialEq, Eq, Structural)]
pub enum InternalError {
    /// A filesystem failure reported by the storage layer around the engine.
    Io,
    /// Malformed or truncated command bytes met during replay or lookup.
    Serde,
    /// A remove was asked of a key that is not present.
    KeyNotFound,
    /// An index entry resolved to a command of the wrong variant.
    Unexpected,
}

} // verus!
