//! Node stores: content storage keyed by opaque pointers, with reference
//! counting.

use vstd::prelude::*;
use std::collections::HashMap;
use crate::Error;

verus! {

broadcast use vstd::std_specs::hash::group_hash_axioms;

/// The interface every node storage medium implements.
///
/// A store models a finite map from pointers to pairs of a reference count
/// and a node. Pointers are issued in increasing order, below `bound()`, so a
/// stored node can only refer to nodes stored before it.
pub trait NodeStore<N>: Sized {
    /// The store's model: what each live pointer maps to.
    spec fn contents(&self) -> Map<u64, (u32, N)>;

    /// A strict upper bound on every pointer issued so far.
    spec fn bound(&self) -> nat;

    /// Whether this is the null backend, which holds nothing: it fails every
    /// call but the reference-count ones, and those return one.
    spec fn is_null_backend(&self) -> bool;

    /// Insert a new node with reference count one and return its pointer.
    fn create(&mut self, node: N) -> (r: Result<u64, Error>)
        ensures
            final(self).is_null_backend() == old(self).is_null_backend(),
            old(self).is_null_backend() ==> (r matches Err(e) && e == Error::NotImplemented),
            old(self).bound() <= final(self).bound(),
            match r {
                Ok(p) => {
                    &&& !old(self).contents().contains_key(p)
                    &&& old(self).bound() <= p as nat
                    &&& (p as nat) < final(self).bound()
                    &&& final(self).contents() == old(self).contents().insert(p, (1u32, node))
                },
                Err(_) => final(self).contents() == old(self).contents() && final(self).bound()
                    == old(self).bound(),
            },
    ;

    /// Read the node stored under a pointer. Reading a live pointer succeeds.
    fn read(&self, ptr: u64) -> (r: Result<&N, Error>)
        ensures
            self.is_null_backend() ==> (r matches Err(e) && e == Error::NotImplemented),
            r matches Ok(n) ==> self.contents().contains_key(ptr) && *n
                == self.contents()[ptr].1,
            self.contents().contains_key(ptr) ==> r is Ok,
    ;

    /// Replace the node stored under a pointer, where supported.
    fn try_update(&mut self, ptr: u64, node: &N) -> (r: Result<Option<u64>, Error>)
        ensures
            final(self).is_null_backend() == old(self).is_null_backend(),
            old(self).is_null_backend() ==> (r matches Err(e) && e == Error::NotImplemented),
            final(self).contents() == old(self).contents(),
            final(self).bound() == old(self).bound(),
    ;

    /// Remove a pointer; the caller guarantees its reference count is zero.
    fn delete(&mut self, ptr: u64) -> (r: Result<(), Error>)
        requires
            old(self).contents().contains_key(ptr) ==> old(self).contents()[ptr].0 == 0,
        ensures
            final(self).is_null_backend() == old(self).is_null_backend(),
            old(self).is_null_backend() ==> (r matches Err(e) && e == Error::NotImplemented),
            final(self).bound() == old(self).bound(),
            match r {
                Ok(_) => final(self).contents() == old(self).contents().remove(ptr),
                Err(_) => final(self).contents() == old(self).contents(),
            },
    ;

    /// Increment a pointer's reference count and return the new count.
    fn inc_ref_count(&mut self, ptr: u64) -> (r: Result<u32, Error>)
        ensures
            final(self).is_null_backend() == old(self).is_null_backend(),
            old(self).is_null_backend() ==> (r matches Ok(c) && c == 1),
            final(self).bound() == old(self).bound(),
            match r {
                Ok(c) => {
                    if old(self).contents().contains_key(ptr) {
                        &&& old(self).contents()[ptr].0 < u32::MAX
                        &&& c == old(self).contents()[ptr].0 + 1
                        &&& final(self).contents() == old(self).contents().insert(
                            ptr,
                            (c, old(self).contents()[ptr].1),
                        )
                    } else {
                        final(self).contents() == old(self).contents()
                    }
                },
                Err(_) => final(self).contents() == old(self).contents(),
            },
    ;

    /// Decrement a pointer's reference count, saturating at zero, and return
    /// the new count. A count of zero authorizes `delete`.
    fn dec_ref_count(&mut self, ptr: u64) -> (r: Result<u32, Error>)
        ensures
            final(self).is_null_backend() == old(self).is_null_backend(),
            old(self).is_null_backend() ==> (r matches Ok(c) && c == 1),
            final(self).bound() == old(self).bound(),
            match r {
                Ok(c) => {
                    if old(self).contents().contains_key(ptr) {
                        &&& c == if old(self).contents()[ptr].0 > 0 {
                            (old(self).contents()[ptr].0 - 1) as u32
                        } else {
                            0u32
                        }
                        &&& final(self).contents() == old(self).contents().insert(
                            ptr,
                            (c, old(self).contents()[ptr].1),
                        )
                    } else {
                        final(self).contents() == old(self).contents()
                    }
                },
                Err(_) => final(self).contents() == old(self).contents(),
            },
    ;
}

/// The default backend for pure in-memory trees: it accepts reference-count
/// calls and fails everything else with "not implemented".
#[derive(Clone)]
pub struct NullNodeStore {
}

impl<N> NodeStore<N> for NullNodeStore {
    open spec fn contents(&self) -> Map<u64, (u32, N)> {
        Map::empty()
    }

    open spec fn bound(&self) -> nat {
        0
    }

    open spec fn is_null_backend(&self) -> bool {
        true
    }

    fn create(&mut self, node: N) -> (r: Result<u64, Error>) {
        Err(Error::NotImplemented)
    }

    fn read(&self, ptr: u64) -> (r: Result<&N, Error>) {
        Err(Error::NotImplemented)
    }

    fn try_update(&mut self, ptr: u64, node: &N) -> (r: Result<Option<u64>, Error>) {
        Err(Error::NotImplemented)
    }

    fn delete(&mut self, ptr: u64) -> (r: Result<(), Error>) {
        Err(Error::NotImplemented)
    }

    fn inc_ref_count(&mut self, ptr: u64) -> (r: Result<u32, Error>) {
        Ok(1)
    }

    fn dec_ref_count(&mut self, ptr: u64) -> (r: Result<u32, Error>) {
        Ok(1)
    }
}

/// A node store backed by memory: pointers are issued by a monotonically
/// increasing counter, so they are unique for the store's lifetime.
pub struct MemNodeStore<N> {
    map: HashMap<u64, (u32, N)>,
    next: u64,
}

impl<N> MemNodeStore<N> {
    /// Every live pointer lies below the issue counter; `new` establishes
    /// this and every operation keeps it, so `create` never meets an
    /// already-issued pointer.
    pub closed spec fn wf(&self) -> bool {
        forall|p: u64| #[trigger] self.map@.contains_key(p) ==> p < self.next
    }

    /// An empty memory store.
    pub fn new() -> (r: Self)
        ensures
            r.wf(),
            NodeStore::<N>::contents(&r) == Map::<u64, (u32, N)>::empty(),
            NodeStore::<N>::bound(&r) == 0,
    {
        let m = MemNodeStore { map: HashMap::new(), next: 0 };
        proof {
            assert(m.map@ =~= Map::<u64, (u32, N)>::empty());
        }
        m
    }

    /// How many pointers are live in this store.
    pub fn len(&self) -> (r: usize)
        ensures
            r == NodeStore::<N>::contents(self).dom().len(),
    {
        self.map.len()
    }
}

impl<N> NodeStore<N> for MemNodeStore<N> {
    closed spec fn contents(&self) -> Map<u64, (u32, N)> {
        self.map@
    }

    closed spec fn bound(&self) -> nat {
        self.next as nat
    }

    closed spec fn is_null_backend(&self) -> bool {
        false
    }

    fn create(&mut self, node: N) -> (r: Result<u64, Error>)
        ensures
            old(self).wf() ==> final(self).wf(),
            old(self).wf() && old(self).bound() < u64::MAX ==> r is Ok,
    {
        if self.next == u64::MAX {
            return Err(Error::Invariant);
        }
        let p = self.next;
        if self.map.contains_key(&p) {
            return Err(Error::Invariant);
        }
        self.next = self.next + 1;
        self.map.insert(p, (1, node));
        Ok(p)
    }

    fn read(&self, ptr: u64) -> (r: Result<&N, Error>)
        ensures
            !self.contents().contains_key(ptr) ==> (r matches Err(e) && e == Error::NotFound),
    {
        match self.map.get(&ptr) {
            Some(entry) => Ok(&entry.1),
            None => Err(Error::NotFound),
        }
    }

    fn try_update(&mut self, ptr: u64, node: &N) -> (r: Result<Option<u64>, Error>)
        ensures
            r matches Err(e) && e == Error::NotImplemented,
            old(self).wf() ==> final(self).wf(),
    {
        Err(Error::NotImplemented)
    }

    fn delete(&mut self, ptr: u64) -> (r: Result<(), Error>)
        ensures
            r is Ok,
            old(self).wf() ==> final(self).wf(),
    {
        self.map.remove(&ptr);
        Ok(())
    }

    fn inc_ref_count(&mut self, ptr: u64) -> (r: Result<u32, Error>)
        ensures
            old(self).wf() ==> final(self).wf(),
            old(self).contents().contains_key(ptr) && old(self).contents()[ptr].0 < u32::MAX
                ==> r is Ok,
            !old(self).contents().contains_key(ptr) ==> (r matches Err(e) && e
                == Error::NotFound),
    {
        match self.map.remove(&ptr) {
            Some(entry) => {
                let (rc, node) = entry;
                if rc == u32::MAX {
                    self.map.insert(ptr, (rc, node));
                    proof {
                        assert(self.map@ =~= old(self).map@);
                    }
                    return Err(Error::Invariant);
                }
                let c = rc + 1;
                self.map.insert(ptr, (c, node));
                proof {
                    assert(self.map@ =~= old(self).map@.insert(ptr, (c, old(self).map@[ptr].1)));
                }
                Ok(c)
            },
            None => Err(Error::NotFound),
        }
    }

    fn dec_ref_count(&mut self, ptr: u64) -> (r: Result<u32, Error>)
        ensures
            old(self).wf() ==> final(self).wf(),
            old(self).contents().contains_key(ptr) ==> r is Ok,
            !old(self).contents().contains_key(ptr) ==> (r matches Err(e) && e
                == Error::NotFound),
    {
        match self.map.remove(&ptr) {
            Some(entry) => {
                let (rc, node) = entry;
                let c = if rc > 0 {
                    rc - 1
                } else {
                    0
                };
                self.map.insert(ptr, (c, node));
                proof {
                    assert(self.map@ =~= old(self).map@.insert(ptr, (c, old(self).map@[ptr].1)));
                }
                Ok(c)
            },
            None => Err(Error::NotFound),
        }
    }
}

} // verus!
