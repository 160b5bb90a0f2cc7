//! An embedded transactional tuple store.
//!
//! Binary records ("tuples", a domain/codomain byte pair plus a commit
//! timestamp) live in relocatable slots of a paging allocator ([`tuplebox`]),
//! are reached through stable reference-counted handles ([`tuple_ref`]), are
//! grouped into logical relations unique by domain, and are read and written
//! through snapshot-isolated transactions ([`relbox`]) that publish their
//! working set atomically at commit or discard it at rollback.

use vstd::prelude::*;

pub mod layout;
pub mod relbox;
pub mod tuple_ref;
pub mod tuplebox;

verus! {

/// Identifier of a logical relation. Relations are pre-existing and addressed
/// by index; the store does not create them dynamically.
#[derive(Clone, Copy, PartialEq, Eq, Structural, Debug)]
pub struct RelationId(pub usize);

/// Errors of the paging allocator: the backing store cannot grow further.
#[derive(Clone, Copy, PartialEq, Eq, Structural, Debug)]
pub enum TupleBoxError {
    BoxFull,
}

/// Errors of relation reads and writes inside a transaction.
#[derive(Clone, Copy, PartialEq, Eq, Structural, Debug)]
pub enum RelationError {
    /// An insert found an entry for the same domain already visible.
    DuplicateKey,
    /// A unique-key lookup found no visible entry.
    NotFound,
    /// An insert could not allocate: the backing store cannot grow.
    OutOfSpace,
}

/// Errors of transaction completion.
#[derive(Clone, Copy, PartialEq, Eq, Structural, Debug)]
pub enum CommitError {
    /// A domain this transaction read or wrote was concurrently modified and
    /// committed after this transaction's start snapshot.
    Conflict,
}

} // verus!
