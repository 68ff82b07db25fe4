//! The node manager: resolves node references against memory, a cache and a
//! node store, and decides between taking a node and cloning it.

use vstd::prelude::*;
use crate::Error;
use crate::avl::{Node, StoreContents, ref_node, cloned_node};
use crate::node_ref::{NodeRef, NodeRefInner, arc_try_unwrap};
use crate::store::NodeStore;

verus! {

/// A bounded cache of nodes loaded from storage, so that repeated reads of
/// the same pointer avoid hitting the store.
#[verifier::external_body]
pub struct NodeCache {
    cache: lru::LruCache<u64, Node>,
}

/// What the cache holds: a finite map from pointers to nodes.
pub uninterp spec fn node_cache_contents(c: NodeCache) -> Map<u64, Node>;

/// Relies on `lru::LruCache::new`: a fresh cache holds nothing.
#[verifier::external_body]
fn cache_new(cap: usize) -> (r: NodeCache)
    requires
        cap >= 1,
    ensures
        forall|p: u64| !node_cache_contents(r).contains_key(p),
{
    NodeCache { cache: lru::LruCache::new(std::num::NonZeroUsize::new(cap).unwrap()) }
}

/// Relies on `lru::LruCache::peek`: returns the entry under the key, if one
/// is cached, without touching the recency order.
#[verifier::external_body]
fn cache_peek<'a>(c: &'a NodeCache, p: &u64) -> (r: Option<&'a Node>)
    ensures
        match r {
            Some(n) => node_cache_contents(*c).contains_key(*p) && *n == node_cache_contents(*c)[*p],
            None => !node_cache_contents(*c).contains_key(*p),
        },
{
    c.cache.peek(p)
}

/// Relies on `lru::LruCache::put`: afterwards the key maps to the given
/// node; any other surviving entry is one that was already cached, though a
/// least-recently-used entry may have been evicted to make room.
#[verifier::external_body]
fn cache_put(c: &mut NodeCache, p: u64, n: Node)
    ensures
        node_cache_contents(*final(c)).contains_key(p),
        node_cache_contents(*final(c))[p] == n,
        forall|q: u64| #[trigger]
            node_cache_contents(*final(c)).contains_key(q) ==> q == p || (node_cache_contents(
                *old(c),
            ).contains_key(q) && node_cache_contents(*final(c))[q]
                == node_cache_contents(*old(c))[q]),
{
    c.cache.put(p, n);
}

/// Relies on `lru::LruCache::pop`: removes exactly the given key.
#[verifier::external_body]
fn cache_pop(c: &mut NodeCache, p: &u64)
    ensures
        node_cache_contents(*final(c)) == node_cache_contents(*old(c)).remove(*p),
{
    c.cache.pop(p);
}

/// The node manager owns a node store and an LRU cache of loaded nodes, and
/// mediates every read, take-or-clone and save of a node reference.
pub struct NodeManager<S: NodeStore<Node>> {
    /// The underlying node store.
    pub node_store: S,
    pub(crate) cache: NodeCache,
}

impl<S: NodeStore<Node>> NodeManager<S> {
    /// What the store holds, as seen through this manager.
    pub open(crate) spec fn contents(&self) -> StoreContents {
        self.node_store.contents()
    }

    /// The pointer bound of the underlying store.
    pub open(crate) spec fn bound(&self) -> nat {
        self.node_store.bound()
    }

    /// Every cached node agrees with what the store holds for its pointer,
    /// up to a cleared digest memo.
    pub open(crate) spec fn wf(&self) -> bool {
        forall|p: u64| #[trigger]
            node_cache_contents(self.cache).contains_key(p) ==> self.contents().contains_key(p)
                && (node_cache_contents(self.cache)[p] == self.contents()[p].1
                || node_cache_contents(self.cache)[p] == cloned_node(self.contents()[p].1))
    }

    /// A manager over the given store, with a cache of the given capacity.
    pub fn new(node_store: S, cache_size: usize) -> (r: Self)
        requires
            cache_size >= 1,
        ensures
            r.wf(),
            r.contents() == node_store.contents(),
            r.bound() == node_store.bound(),
    {
        let cache = cache_new(cache_size);
        NodeManager { node_store, cache }
    }

    /// Load a stored node from the cache or the store, caching it on a miss.
    fn load_stored(&mut self, pointer: u64) -> (res: Result<Node, Error>)
        requires
            old(self).wf(),
        ensures
            final(self).wf(),
            final(self).contents() == old(self).contents(),
            final(self).bound() == old(self).bound(),
            match res {
                Ok(n) => old(self).contents().contains_key(pointer) && (n == old(
                    self,
                ).contents()[pointer].1 || n == cloned_node(old(self).contents()[pointer].1)),
                Err(_) => true,
            },
            old(self).contents().contains_key(pointer) ==> res is Ok,
    {
        match cache_peek(&self.cache, &pointer) {
            Some(n) => Ok(n.clone_node()),
            None => {
                let node = match self.node_store.read(pointer) {
                    Ok(n) => n.clone_node(),
                    Err(e) => { return Err(e) },
                };
                cache_put(&mut self.cache, pointer, node.clone_node());
                Ok(node)
            },
        }
    }

    /// Read the node a reference points at: from memory, the cache or the
    /// store. Empty references read as nothing.
    pub fn read(&mut self, r: &NodeRef) -> (res: Result<Option<Node>, Error>)
        requires
            old(self).wf(),
        ensures
            final(self).wf(),
            final(self).contents() == old(self).contents(),
            final(self).bound() == old(self).bound(),
            match res {
                Ok(Some(n)) => ref_node(*r, old(self).contents()) matches Some(m) && (n == m || n
                    == cloned_node(m)),
                Ok(None) => r is Empty,
                Err(_) => true,
            },
            r is Empty ==> res matches Ok(None),
            ref_node(*r, old(self).contents()) is Some ==> res matches Ok(Some(_)),
    {
        match r {
            NodeRef::Empty => Ok(None),
            NodeRef::Inner(cell) => match &**cell {
                NodeRefInner::MemNode(n) => Ok(Some(n.clone_node())),
                NodeRefInner::StoredNode { pointer } => {
                    match self.load_stored(*pointer) {
                        Ok(n) => Ok(Some(n)),
                        Err(e) => Err(e),
                    }
                },
            },
        }
    }

    /// Take the node out of the reference when this reference is the only
    /// owner and the caller may edit in place; otherwise hand out a clone.
    /// The flag in the result says which happened: `true` means the caller
    /// owns the node and no other reference can observe its mutation.
    pub fn take_or_clone(&mut self, r: NodeRef, editable: bool) -> (res: Result<
        Option<(Node, bool)>,
        Error,
    >)
        requires
            old(self).wf(),
        ensures
            final(self).wf(),
            final(self).contents() == old(self).contents(),
            final(self).bound() == old(self).bound(),
            match res {
                Ok(Some((n, owned))) => {
                    &&& (ref_node(r, old(self).contents()) matches Some(m) && (n == m || n
                        == cloned_node(m)))
                    &&& (owned ==> editable)
                    &&& ((r matches NodeRef::Inner(cell) && *cell matches NodeRefInner::StoredNode {
                        ..
                    }) ==> !owned)
                },
                Ok(None) => r is Empty,
                Err(_) => true,
            },
            r is Empty ==> res matches Ok(None),
            ref_node(r, old(self).contents()) is Some ==> res matches Ok(Some(_)),
    {
        if !editable {
            return match self.read(&r) {
                Ok(None) => Ok(None),
                Ok(Some(n)) => Ok(Some((n, false))),
                Err(e) => Err(e),
            };
        }
        match r {
            NodeRef::Empty => Ok(None),
            NodeRef::Inner(cell) => {
                match arc_try_unwrap(cell) {
                    Ok(inner) => match inner {
                        NodeRefInner::MemNode(n) => Ok(Some((n, true))),
                        NodeRefInner::StoredNode { pointer } => {
                            match self.load_stored(pointer) {
                                Ok(n) => Ok(Some((n, false))),
                                Err(e) => Err(e),
                            }
                        },
                    },
                    Err(cell2) => {
                        match self.read(&NodeRef::Inner(cell2)) {
                            Ok(Some(n)) => Ok(Some((n, false))),
                            Ok(None) => Err(Error::Invariant),
                            Err(e) => Err(e),
                        }
                    },
                }
            },
        }
    }

    /// Persist the node behind a reference. A resident node is inserted into
    /// the store under a fresh pointer; a stored node merely has its
    /// reference count bumped. Either way each call contributes exactly one
    /// unit of reference count, and the returned reference is the stored
    /// form of the given one.
    pub fn save(&mut self, r: &NodeRef) -> (res: Result<Option<(u64, NodeRef)>, Error>)
        requires
            old(self).wf(),
        ensures
            final(self).wf(),
            old(self).bound() <= final(self).bound(),
            r is Empty <==> res matches Ok(None),
            match res {
                Ok(Some((p, r2))) => {
                    &&& (r2 matches NodeRef::Inner(cell) && *cell == (NodeRefInner::StoredNode {
                        pointer: p,
                    }))
                    &&& match *r {
                        NodeRef::Inner(cell) => match *cell {
                            NodeRefInner::MemNode(n) => {
                                &&& !old(self).contents().contains_key(p)
                                &&& old(self).bound() <= p as nat
                                &&& (p as nat) < final(self).bound()
                                &&& final(self).contents() == old(self).contents().insert(
                                    p,
                                    (1u32, cloned_node(n)),
                                )
                            },
                            NodeRefInner::StoredNode { pointer } => {
                                &&& p == pointer
                                &&& final(self).bound() == old(self).bound()
                                &&& if old(self).contents().contains_key(p) {
                                    old(self).contents()[p].0 < u32::MAX && final(self).contents()
                                        == old(self).contents().insert(
                                        p,
                                        (
                                            (old(self).contents()[p].0 + 1) as u32,
                                            old(self).contents()[p].1,
                                        ),
                                    )
                                } else {
                                    final(self).contents() == old(self).contents()
                                }
                            },
                        },
                        NodeRef::Empty => false,
                    }
                },
                Ok(None) => final(self).contents() == old(self).contents() && final(self).bound()
                    == old(self).bound(),
                Err(_) => final(self).contents() == old(self).contents() && final(self).bound()
                    == old(self).bound(),
            },
    {
        match r {
            NodeRef::Empty => Ok(None),
            NodeRef::Inner(cell) => match &**cell {
                NodeRefInner::MemNode(n) => {
                    match self.node_store.create(n.clone_node()) {
                        Ok(p) => {
                            proof {
                                assert forall|q: u64| #[trigger]
                                    node_cache_contents(self.cache).contains_key(
                                        q,
                                    ) implies self.contents().contains_key(q) && (
                                node_cache_contents(self.cache)[q] == self.contents()[q].1
                                    || node_cache_contents(self.cache)[q] == cloned_node(
                                    self.contents()[q].1,
                                )) by {
                                    assert(old(self).contents().contains_key(q));
                                    assert(q != p);
                                }
                            }
                            Ok(Some((p, NodeRef::from_ptr(p))))
                        },
                        Err(e) => Err(e),
                    }
                },
                NodeRefInner::StoredNode { pointer } => {
                    match self.node_store.inc_ref_count(*pointer) {
                        Ok(_) => {
                            proof {
                                assert forall|q: u64| #[trigger]
                                    node_cache_contents(self.cache).contains_key(
                                        q,
                                    ) implies self.contents().contains_key(q) && (
                                node_cache_contents(self.cache)[q] == self.contents()[q].1
                                    || node_cache_contents(self.cache)[q] == cloned_node(
                                    self.contents()[q].1,
                                )) by {
                                    assert(old(self).contents().contains_key(q));
                                }
                            }
                            Ok(Some((*pointer, NodeRef::from_ptr(*pointer))))
                        },
                        Err(e) => Err(e),
                    }
                },
            },
        }
    }

    /// Decrement the reference count of a stored node, saturating at zero.
    pub fn dec_ref_count(&mut self, ptr: u64) -> (res: Result<u32, Error>)
        requires
            old(self).wf(),
        ensures
            final(self).wf(),
            final(self).bound() == old(self).bound(),
            match res {
                Ok(c) => {
                    if old(self).contents().contains_key(ptr) {
                        &&& c == if old(self).contents()[ptr].0 > 0 {
                            (old(self).contents()[ptr].0 - 1) as u32
                        } else {
                            0u32
                        }
                        &&& final(self).contents() == old(self).contents().insert(
                            ptr,
                            (c, old(self).contents()[ptr].1),
                        )
                    } else {
                        final(self).contents() == old(self).contents()
                    }
                },
                Err(_) => final(self).contents() == old(self).contents(),
            },
    {
        self.node_store.dec_ref_count(ptr)
    }

    /// Remove a stored node whose reference count has reached zero, evicting
    /// any cached copy.
    pub fn delete(&mut self, ptr: u64) -> (res: Result<(), Error>)
        requires
            old(self).wf(),
            old(self).contents().contains_key(ptr) ==> old(self).contents()[ptr].0 == 0,
        ensures
            final(self).wf(),
            final(self).bound() == old(self).bound(),
            match res {
                Ok(_) => final(self).contents() == old(self).contents().remove(ptr),
                Err(_) => final(self).contents() == old(self).contents(),
            },
    {
        cache_pop(&mut self.cache, &ptr);
        self.node_store.delete(ptr)
    }
}

} // verus!
