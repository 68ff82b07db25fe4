//! References to tree nodes that live either in memory or in a node store.

use vstd::prelude::*;
use std::sync::Arc;
use crate::Error;
use crate::store::NodeStore;

verus! {

/// Types that can serve as storage pointers for tree nodes.
pub trait Pointer: Sized + Clone {
}

impl<P: Sized + Clone> Pointer for P {
}

/// The trait that all tree nodes implement.
pub trait Node: Sized {
    /// The type used to address this kind of node in a node store.
    type Ptr: Pointer;
}

/// The contents of a non-empty node reference.
#[derive(Debug, PartialEq)]
pub enum NodeRefInner {
    /// A node held directly in memory.
    MemNode(crate::avl::Node),
    /// A node persisted in a node store.
    StoredNode {
        /// The pointer under which the node store holds the node.
        pointer: u64,
    },
}

/// A reference to a tree node in memory or in storage.
///
/// Cloning a reference is cheap: both copies share the same cell.
#[derive(Debug, PartialEq)]
pub enum NodeRef {
    /// A shared cell holding the node or its storage pointer.
    Inner(Arc<NodeRefInner>),
    /// No node.
    Empty,
}

/// Relies on `<Arc<T> as Clone>::clone`: the clone is a handle to the same
/// inner value, so both handles hold equal values.
#[verifier::external_body]
fn arc_clone<T>(a: &Arc<T>) -> (r: Arc<T>)
    ensures
        r == *a,
{
    a.clone()
}

/// Relies on `Arc::try_unwrap`: if this handle is the only one, the inner
/// value is returned; otherwise the same handle comes back. Either way the
/// value involved is the one the handle held.
#[verifier::external_body]
pub(crate) fn arc_try_unwrap<T>(a: Arc<T>) -> (r: Result<T, Arc<T>>)
    ensures
        match r {
            Ok(t) => t == a,
            Err(e) => e == a,
        },
{
    Arc::try_unwrap(a)
}

impl NodeRef {
    /// Wrap a freshly created node into an in-memory reference.
    pub fn new(node: crate::avl::Node) -> (r: Self)
        ensures
            r matches NodeRef::Inner(inner) && *inner == NodeRefInner::MemNode(node),
    {
        NodeRef::Inner(Arc::new(NodeRefInner::MemNode(node)))
    }

    /// Wrap a node store pointer into a reference to the stored node.
    pub fn from_ptr(ptr: u64) -> (r: Self)
        ensures
            r matches NodeRef::Inner(inner) && *inner == (NodeRefInner::StoredNode {
                pointer: ptr,
            }),
    {
        NodeRef::Inner(Arc::new(NodeRefInner::StoredNode { pointer: ptr }))
    }
}

impl Clone for NodeRef {
    /// Cloning shares the underlying cell, so the clone holds the same value.
    fn clone(&self) -> (r: Self)
        ensures
            r == *self,
    {
        match self {
            NodeRef::Inner(inner) => NodeRef::Inner(arc_clone(inner)),
            NodeRef::Empty => NodeRef::Empty,
        }
    }
}

impl Default for NodeRef {
    /// The default reference is empty.
    fn default() -> (r: Self)
        ensures
            r matches NodeRef::Empty,
    {
        NodeRef::Empty
    }
}

impl NodeRef {
    /// Read the referenced node straight from memory or the given store,
    /// without going through a node manager or its cache.
    pub fn read<S: NodeStore<crate::avl::Node>>(&self, node_store: &S) -> (res: Result<
        Option<crate::avl::Node>,
        Error,
    >)
        ensures
            match res {
                Ok(Some(n)) => crate::avl::ref_node(*self, node_store.contents()) matches Some(m)
                    && (n == m || n == crate::avl::cloned_node(m)),
                Ok(None) => self is Empty,
                Err(_) => true,
            },
            self is Empty ==> res matches Ok(None),
            crate::avl::ref_node(*self, node_store.contents()) is Some ==> res matches Ok(
                Some(_),
            ),
    {
        match self {
            NodeRef::Empty => Ok(None),
            NodeRef::Inner(cell) => match &**cell {
                NodeRefInner::MemNode(n) => Ok(Some(n.clone_node())),
                NodeRefInner::StoredNode { pointer } => match node_store.read(*pointer) {
                    Ok(n) => Ok(Some(n.clone_node())),
                    Err(e) => Err(e),
                },
            },
        }
    }

    /// Persist the referenced node straight into the given store: a resident
    /// node is inserted under a fresh pointer, a stored one has its
    /// reference count bumped. Each call contributes one unit of reference
    /// count to the returned pointer, and the reference transitions in place
    /// to its stored form, so saving the same reference again increments the
    /// count rather than storing a duplicate. (A later read fetches the node
    /// from the store; the manager's cache stands in for a per-cell weak
    /// handle to the just-saved node.)
    pub fn save<S: NodeStore<crate::avl::Node>>(&mut self, node_store: &mut S) -> (res: Result<
        Option<u64>,
        Error,
    >)
        ensures
            old(node_store).bound() <= final(node_store).bound(),
            *old(self) is Empty <==> res matches Ok(None),
            res is Err ==> *final(self) == *old(self) && final(node_store).contents() == old(
                node_store,
            ).contents(),
            match res {
                Ok(Some(p)) => {
                    &&& (*final(self) matches NodeRef::Inner(cell) && *cell
                        == (NodeRefInner::StoredNode { pointer: p }))
                    &&& match *old(self) {
                        NodeRef::Inner(cell) => match *cell {
                            NodeRefInner::MemNode(n) => {
                                &&& !old(node_store).contents().contains_key(p)
                                &&& final(node_store).contents() == old(
                                    node_store,
                                ).contents().insert(p, (1u32, crate::avl::cloned_node(n)))
                            },
                            NodeRefInner::StoredNode { pointer } => {
                                &&& p == pointer
                                &&& if old(node_store).contents().contains_key(p) {
                                    old(node_store).contents()[p].0 < u32::MAX && final(node_store).contents()
                                        == old(node_store).contents().insert(
                                        p,
                                        (
                                            (old(node_store).contents()[p].0 + 1) as u32,
                                            old(node_store).contents()[p].1,
                                        ),
                                    )
                                } else {
                                    final(node_store).contents() == old(node_store).contents()
                                }
                            },
                        },
                        NodeRef::Empty => false,
                    }
                },
                Ok(None) => *final(self) == *old(self) && final(node_store).contents() == old(
                    node_store,
                ).contents(),
                Err(_) => true,
            },
    {
        let out: Result<Option<u64>, Error> = match &*self {
            NodeRef::Empty => Ok(None),
            NodeRef::Inner(cell) => match &**cell {
                NodeRefInner::MemNode(n) => match node_store.create(n.clone_node()) {
                    Ok(p) => Ok(Some(p)),
                    Err(e) => Err(e),
                },
                NodeRefInner::StoredNode { pointer } => match node_store.inc_ref_count(*pointer) {
                    Ok(_) => Ok(Some(*pointer)),
                    Err(e) => Err(e),
                },
            },
        };
        match out {
            Ok(Some(p)) => {
                *self = NodeRef::from_ptr(p);
                Ok(Some(p))
            },
            Ok(None) => Ok(None),
            Err(e) => Err(e),
        }
    }

    /// Replacing the stored node in place is not supported.
    pub fn try_update<S: NodeStore<crate::avl::Node>>(&self, node_store: &mut S) -> (res: Result<
        Option<u64>,
        Error,
    >)
        ensures
            res matches Err(e) && e == Error::NotImplemented,
            final(node_store).contents() == old(node_store).contents(),
            final(node_store).bound() == old(node_store).bound(),
    {
        Err(Error::NotImplemented)
    }
}

} // verus!
