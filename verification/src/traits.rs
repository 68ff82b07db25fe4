//! The map and digest interfaces the tree family presents.

use vstd::prelude::*;
use crate::Error;
use crate::hash::HashRoot;

verus! {

/// Simple payload types: cheap to clone and safe to move around.
pub trait SimpleType: Sized + Clone {
}

impl<T: Sized + Clone> SimpleType for T {
}

/// A sink for values read out of a structure.
pub trait Reader<T> {
    /// Accept one value.
    fn read(&self, value: T) -> Result<(), Error>;
}

/// A read-through cache of values by key.
pub trait Cache<K, V> {
    /// Look a key up in the cache.
    fn cache_get(&self, k: &K) -> Option<V>;
}

/// An ordered map from keys to values.
pub trait OrderedMap<K, V> {
}

/// An ordered map whose updates return new versions, leaving old ones
/// readable. `M` is the node manager the implementation resolves its node
/// references through.
pub trait PersistentMap<K, V, M>: OrderedMap<K, V> + Sized {
    /// A new version with the entry added; this version is unchanged.
    fn insert(&self, key: K, value: V, mgr: &mut M) -> Result<Self, Error>;

    /// A new version without the key; this version is unchanged.
    fn delete(&self, key: &K, mgr: &mut M) -> Result<Self, Error>;
}

/// An ordered map whose updates mutate in place when no other version shares
/// the touched nodes.
pub trait MutableMap<K, V, M>: OrderedMap<K, V> {
    /// Add the entry in place.
    fn insert_mut(&mut self, key: K, value: V, mgr: &mut M) -> Result<(), Error>;

    /// Remove the key in place.
    fn delete_mut(&mut self, key: &K, mgr: &mut M) -> Result<(), Error>;
}

/// A structure with a Merkle root digest.
pub trait MerkleTree<M> {
    /// Feed the root digest into the sink.
    fn merkle_hash(&mut self, mgr: &mut M, digest: &mut HashRoot) -> Result<(), Error>;
}

} // verus!
