//! The laws the tree family obeys, stated and proved over the tree model.

use vstd::prelude::*;
use crate::avl::{
    Tree, TreeV, as_map, wf_v, avl_insert_v, avl_delete_v, bal_v, hgt, heights_ok, balanced_ok,
    StoreContents, in_order_v, count, bst_ok, ranges_ok,
};
use crate::avl_lemmas::{lemma_insert, lemma_delete, lemma_sub_parts};
use crate::hash::tree_digest;

verus! {

/// One update applied to an ordered map: write an entry or delete a key.
pub enum MapOp {
    /// Insert the value under the key, overwriting any previous entry.
    Ins(int, int),
    /// Delete the key if present.
    Del(int),
}

/// All keys and values in a sequence of updates fit in 32-bit integers.
pub open spec fn ops_in_range(ops: Seq<MapOp>) -> bool {
    forall|i: int|
        0 <= i < ops.len() ==> match #[trigger] ops[i] {
            MapOp::Ins(k, v) => i32::MIN <= k <= i32::MAX && i32::MIN <= v <= i32::MAX,
            MapOp::Del(k) => i32::MIN <= k <= i32::MAX,
        }
}

/// Apply a sequence of updates to a tree shape, through the AVL algorithms.
/// Both the persistent and the transient operations effect exactly these
/// transformations, so this is the shape either API leaves behind.
pub open spec fn apply_ops(t: TreeV, ops: Seq<MapOp>) -> TreeV
    decreases ops.len(),
{
    if ops.len() == 0 {
        t
    } else {
        let t2 = match ops[0] {
            MapOp::Ins(k, v) => avl_insert_v(t, k, v),
            MapOp::Del(k) => avl_delete_v(t, k),
        };
        apply_ops(t2, ops.skip(1))
    }
}

/// Apply the same updates to a mathematical map.
pub open spec fn apply_map_ops(m: Map<int, int>, ops: Seq<MapOp>) -> Map<int, int>
    decreases ops.len(),
{
    if ops.len() == 0 {
        m
    } else {
        let m2 = match ops[0] {
            MapOp::Ins(k, v) => m.insert(k, v),
            MapOp::Del(k) => m.remove(k),
        };
        apply_map_ops(m2, ops.skip(1))
    }
}

/// Ordered-map law. For any sequence of inserts and deletes on a well-formed
/// tree, the tree afterwards represents exactly the map those updates build:
/// a lookup returns the last value written for its key, or nothing when the
/// most recent update for the key was a delete or no update touched it. The
/// tree stays well-formed throughout. Since the persistent and the transient
/// operations both effect `apply_ops`, the values observed through either
/// API coincide.
pub proof fn lemma_ordered_map_ops(t: TreeV, ops: Seq<MapOp>)
    requires
        wf_v(t),
        ops_in_range(ops),
    ensures
        wf_v(apply_ops(t, ops)),
        as_map(apply_ops(t, ops)) == apply_map_ops(as_map(t), ops),
    decreases ops.len(),
{
    if ops.len() == 0 {
    } else {
        let t2 = match ops[0] {
            MapOp::Ins(k, v) => avl_insert_v(t, k, v),
            MapOp::Del(k) => avl_delete_v(t, k),
        };
        match ops[0] {
            MapOp::Ins(k, v) => {
                lemma_insert(t, k, v);
            },
            MapOp::Del(k) => {
                lemma_delete(t, k);
            },
        }
        assert(ops_in_range(ops.skip(1))) by {
            assert(forall|i: int|
                0 <= i < ops.skip(1).len() ==> ops.skip(1)[i] == ops[i + 1]);
        }
        lemma_ordered_map_ops(t2, ops.skip(1));
    }
}

/// Ordered-map law, single steps: an insert makes the key read back as the
/// written value and leaves every other key alone; a delete makes the key
/// read as absent and leaves every other key alone.
pub proof fn lemma_last_write_wins(t: TreeV, k: int, v: int, other: int)
    requires
        wf_v(t),
        i32::MIN <= k <= i32::MAX,
        i32::MIN <= v <= i32::MAX,
    ensures
        as_map(avl_insert_v(t, k, v)).dom().contains(k),
        as_map(avl_insert_v(t, k, v))[k] == v,
        !as_map(avl_delete_v(t, k)).dom().contains(k),
        other != k ==> (as_map(avl_insert_v(t, k, v)).dom().contains(other) <==> as_map(
            t,
        ).dom().contains(other)),
        other != k && as_map(t).dom().contains(other) ==> as_map(avl_insert_v(t, k, v))[other]
            == as_map(t)[other],
        other != k ==> (as_map(avl_delete_v(t, k)).dom().contains(other) <==> as_map(
            t,
        ).dom().contains(other)),
        other != k && as_map(t).dom().contains(other) ==> as_map(avl_delete_v(t, k))[other]
            == as_map(t)[other],
{
    lemma_insert(t, k, v);
    lemma_delete(t, k);
}

/// Balance invariant. Inserting into or deleting from a well-formed tree
/// yields a tree in which every node's children differ in height by at most
/// one and every stored height is exact; in particular the root's balance
/// factor stays within one of zero, so `balanced` reports true after every
/// operation. The height changes by at most one.
pub proof fn lemma_balance_invariant(t: TreeV, k: int, v: int)
    requires
        wf_v(t),
        i32::MIN <= k <= i32::MAX,
        i32::MIN <= v <= i32::MAX,
    ensures
        balanced_ok(avl_insert_v(t, k, v)),
        heights_ok(avl_insert_v(t, k, v)),
        -1 <= bal_v(avl_insert_v(t, k, v)) <= 1,
        hgt(t) <= hgt(avl_insert_v(t, k, v)) <= hgt(t) + 1,
        balanced_ok(avl_delete_v(t, k)),
        heights_ok(avl_delete_v(t, k)),
        -1 <= bal_v(avl_delete_v(t, k)) <= 1,
        hgt(t) - 1 <= hgt(avl_delete_v(t, k)) <= hgt(t),
{
    lemma_insert(t, k, v);
    lemma_delete(t, k);
    let t2 = avl_insert_v(t, k, v);
    lemma_sub_parts(t2);
    let t3 = avl_delete_v(t, k);
    if t3 is Node {
        lemma_sub_parts(t3);
    }
}

/// Persistence. A persistent insert or delete builds a new tree and leaves
/// both the original tree value and the store contents untouched, so every
/// lookup on the original tree reads the same value afterwards, whatever is
/// done with the new tree. The new and old representations overlap only
/// through shared, never-mutated cells.
pub proof fn lemma_persistence(
    original: Tree,
    derived: Tree,
    s: StoreContents,
    bound: nat,
    k: int,
    v: int,
)
    requires
        original.wf(s, bound),
        derived.tree(s, bound) == avl_insert_v(original.tree(s, bound), k, v),
        i32::MIN <= k <= i32::MAX,
        i32::MIN <= v <= i32::MAX,
    ensures
        original.model(s, bound) == as_map(original.tree(s, bound)),
        derived.model(s, bound) == original.model(s, bound).insert(k, v),
        forall|other: int|
            other != k ==> (#[trigger] original.model(s, bound).dom().contains(other)
                <==> derived.model(s, bound).dom().contains(other)),
{
    lemma_insert(original.tree(s, bound), k, v);
}

/// Refcount conservation, one step at a time: saving an already stored node
/// adds exactly one unit to its reference count, dropping a reference takes
/// exactly one away, and the two compose to the identity on the store; a
/// node is deleted only once its count has reached zero, and deletion
/// removes exactly that pointer.
pub proof fn lemma_refcount_conservation(s: StoreContents, p: u64)
    requires
        s.contains_key(p),
        s[p].0 < u32::MAX,
    ensures
        ({
            let bumped = s.insert(p, ((s[p].0 + 1) as u32, s[p].1));
            let dropped = bumped.insert(p, (s[p].0, s[p].1));
            &&& bumped[p].0 == s[p].0 + 1
            &&& dropped == s
        }),
        ({
            let gone = s.remove(p);
            &&& !gone.contains_key(p)
            &&& forall|q: u64|
                q != p ==> (#[trigger] gone.contains_key(q) <==> s.contains_key(q))
        }),
{
    let bumped = s.insert(p, ((s[p].0 + 1) as u32, s[p].1));
    let dropped = bumped.insert(p, (s[p].0, s[p].1));
    assert(dropped =~= s);
}

/// Merkle determinism. The root digest is a function of the resolved tree
/// shape and contents alone: two trees that resolve to the same shape, even
/// against different stores, have the same digest, however they were built.
pub proof fn lemma_merkle_determinism(
    a: Tree,
    b: Tree,
    s1: StoreContents,
    b1: nat,
    s2: StoreContents,
    b2: nat,
)
    requires
        a.wf(s1, b1),
        b.wf(s2, b2),
        a.tree(s1, b1) == b.tree(s2, b2),
    ensures
        tree_digest(a.tree(s1, b1)) == tree_digest(b.tree(s2, b2)),
{
}

/// Reloading a saved tree. A tree whose root reference is the pointer a save
/// returned resolves to the very tree that was saved, so it is well-formed
/// and every lookup reads the value the saved tree held.
pub proof fn lemma_save_reload(reloaded: Tree, s: StoreContents, bound: nat, p: u64)
    requires
        crate::avl::resolve_ptr(p, s, bound) is Some,
        wf_v(crate::avl::resolve_ptr(p, s, bound).unwrap()),
        reloaded.is_stored_root(p),
        reloaded.tree_opt(s, bound) == crate::avl::resolve_ptr(p, s, bound),
    ensures
        reloaded.wf(s, bound),
        reloaded.model(s, bound) == as_map(crate::avl::resolve_ptr(p, s, bound).unwrap()),
{
    let t = crate::avl::resolve_ptr(p, s, bound).unwrap();
    assert(reloaded.tree(s, bound) == t);
}

/// Persistence, delete form: a persistent delete builds a new tree and
/// leaves the original tree's map untouched.
pub proof fn lemma_persistence_delete(
    original: Tree,
    derived: Tree,
    s: StoreContents,
    bound: nat,
    k: int,
)
    requires
        original.wf(s, bound),
        derived.tree(s, bound) == avl_delete_v(original.tree(s, bound), k),
    ensures
        derived.model(s, bound) == original.model(s, bound).remove(k),
        forall|other: int|
            other != k ==> (#[trigger] original.model(s, bound).dom().contains(other)
                <==> derived.model(s, bound).dom().contains(other)),
{
    lemma_delete(original.tree(s, bound), k);
}

/// Transient equivalence. The transient operations effect exactly the same
/// transformation as the persistent ones, so a tree updated in place and a
/// tree rebuilt persistently from the same starting point represent the same
/// map and answer every lookup alike.
pub proof fn lemma_transient_equivalence(
    persistent: Tree,
    transient: Tree,
    start: TreeV,
    s: StoreContents,
    bound: nat,
    k: int,
    v: int,
)
    requires
        persistent.tree_opt(s, bound) == Some(avl_insert_v(start, k, v)),
        transient.tree_opt(s, bound) == Some(avl_insert_v(start, k, v)),
    ensures
        persistent.model(s, bound) == transient.model(s, bound),
{
}

/// In-order traversal lists exactly the represented map's entries, one per
/// node, in strictly ascending key order.
pub proof fn lemma_in_order(t: TreeV)
    requires
        bst_ok(t),
        ranges_ok(t),
    ensures
        in_order_v(t).len() == count(t),
        forall|i: int|
            0 <= i < in_order_v(t).len() ==> as_map(t).dom().contains(
                #[trigger] in_order_v(t)[i].0 as int,
            ) && as_map(t)[in_order_v(t)[i].0 as int] == in_order_v(t)[i].1 as int,
        forall|i: int, j: int|
            0 <= i < j < in_order_v(t).len() ==> (#[trigger] in_order_v(t)[i]).0 < (
            #[trigger] in_order_v(t)[j]).0,
    decreases t,
{
    match t {
        TreeV::Nil => {},
        TreeV::Node { key, value, height, left, right } => {
            let l = *left;
            let r = *right;
            lemma_in_order(l);
            lemma_in_order(r);
            crate::avl_lemmas::lemma_node_map(key, value, height, l, r);
            let io = in_order_v(t);
            let il = in_order_v(l);
            let ir = in_order_v(r);
            let mid = il.len() as int;
            assert(io.len() == il.len() + 1 + ir.len());
            assert(io[mid] == (key as i32, value as i32));
            assert(forall|i: int| 0 <= i < mid ==> io[i] == il[i]);
            assert(forall|j: int|
                mid < j < io.len() ==> io[j] == ir[j - mid - 1]);
            assert forall|i: int|
                0 <= i < io.len() implies as_map(t).dom().contains(
                #[trigger] io[i].0 as int,
            ) && as_map(t)[io[i].0 as int] == io[i].1 as int by {
                if i < mid {
                    assert(as_map(l).dom().contains(io[i].0 as int));
                } else if i > mid {
                    assert(as_map(r).dom().contains(io[i].0 as int));
                }
            }
            assert forall|i: int, j: int|
                0 <= i < j < io.len() implies (#[trigger] io[i]).0 < (#[trigger] io[j]).0 by {
                if j < mid {
                } else if i > mid {
                } else if i < mid && j == mid {
                    assert(as_map(l).dom().contains(io[i].0 as int));
                } else if i == mid && j > mid {
                    assert(as_map(r).dom().contains(io[j].0 as int));
                } else if i < mid && j > mid {
                    assert(as_map(l).dom().contains(io[i].0 as int));
                    assert(as_map(r).dom().contains(io[j].0 as int));
                }
            }
        },
    }
}

} // verus!
