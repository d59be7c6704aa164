//! The error kinds of the indexer.
use vstd::prelude::*;

verus! {

/// What can go wrong while decoding a log record or applying its event.
#[derive(Debug, Clone, Copy, PartialEq, Eq, Structural)]
pub enum IndexError {
    /// A malformed event payload, or a label that is not valid UTF-8.
    DecodeError,
    /// The referenced parent namehash is absent from the index.
    ParentNotFound,
    /// The label already holds an immutable fact.
    DuplicateFact,
    /// The label holds a value of the other kind.
    KindMismatch,
    /// A snapshot could not be serialized or handed to the durable store.
    PersistenceError,
    /// The historical fetch or the live subscription failed.
    SourceError,
}

} // verus!
