//! Persistent, optionally transient, Merkle-hashed ordered maps whose nodes
//! can live in memory or in a pluggable, reference-counted node store.

pub mod art;
pub mod avl;
pub mod avl_lemmas;
pub mod graph;
pub mod hash;
pub mod laws;
pub mod lww;
pub mod manager;
pub mod merkle;
pub mod node_ref;
pub mod store;
pub mod traits;
pub mod value;

use vstd::prelude::*;

verus! {

/// The kinds of failure that tree and store operations report.
#[derive(Clone, Copy, Debug, PartialEq, Eq, Structural)]
pub enum Error {
    /// A pointer was not present in the node store.
    NotFound,
    /// The backend does not support the requested operation.
    NotImplemented,
    /// An internal expectation did not hold.
    Invariant,
}

impl Error {
    /// A short description of the failure.
    pub fn message(&self) -> (r: &'static str)
        ensures
            r@ == match self {
                Error::NotFound => "not found"@,
                Error::NotImplemented => "not implemented"@,
                Error::Invariant => "invariant violation"@,
            },
    {
        match self {
            Error::NotFound => "not found",
            Error::NotImplemented => "not implemented",
            Error::Invariant => "invariant violation",
        }
    }
}

} // verus!
