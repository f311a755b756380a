//! A single-node, embedded, log-structured key-value store.
//!
//! Mutations are recorded as self-delimiting command records appended to
//! generation-numbered log segments; an in-memory index maps each live key
//! to the exact byte span of its latest `Set` record, and a compactor
//! rewrites the live records into a fresh segment once enough bytes have
//! become reclaimable.
//!
//! The engine itself is pure: it works on segments held as byte vectors and
//! reports, for every mutation, the bytes that a caller must append to the
//! active segment file to keep the disk in step.  A thin unverified shell
//! can therefore provide durability by mirroring those appends, and rebuild
//! the engine after a restart by handing `open` the segment files it reads
//! back.

pub mod codec;
pub mod error;
pub mod naive;
pub mod store;
