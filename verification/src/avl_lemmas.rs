//! Proofs about the AVL tree model: maps, heights, balance, insertion and
//! deletion.

use vstd::prelude::*;
use vstd::set_lib::{set_int_range, lemma_int_range, lemma_len_subset};
use crate::avl::{
    TreeV, as_map, hgt, int_max, bst_ok, heights_ok, balanced_ok, ranges_ok, wf_v, mk_v, bal_v,
    rotate_left_v, rotate_right_v, rotate_right_left_v, rotate_left_right_v, balance_v,
    avl_insert_v, avl_delete_v, delete_min_v, node_v, Node, StoreContents, resolve_ref,
    resolve_node, ref_node, ref_bound, node_shape, cloned_node, memos_ok, node_memo_ok,
    ref_stored_below, store_ok, store_grown,
};
use crate::node_ref::{NodeRef, NodeRefInner};

verus! {

/// The union of two disjoint finite sets has the sum of their sizes.
proof fn lemma_disjoint_union_len<A>(a: Set<A>, b: Set<A>)
    requires
        a.finite(),
        b.finite(),
        a.disjoint(b),
    ensures
        a.union(b).finite(),
        a.union(b).len() == a.len() + b.len(),
    decreases a.len(),
{
    if a.is_empty() {
        assert(a.union(b) =~= b);
    } else {
        let x = a.choose();
        assert(a.union(b).remove(x) =~= a.remove(x).union(b));
        lemma_disjoint_union_len(a.remove(x), b);
        assert(a.union(b) == a.union(b).remove(x).insert(x));
    }
}

/// The represented map of any tree has a finite domain.
pub proof fn lemma_as_map_finite(t: TreeV)
    ensures
        as_map(t).dom().finite(),
    decreases t,
{
    match t {
        TreeV::Nil => {
            assert(as_map(t).dom() =~= Set::<int>::empty());
        },
        TreeV::Node { key, left, right, .. } => {
            lemma_as_map_finite(*left);
            lemma_as_map_finite(*right);
            assert(as_map(t).dom() =~= as_map(*left).dom().union(as_map(*right).dom()).insert(
                key,
            ));
        },
    }
}

/// Heights are never negative, and only the empty tree has height zero.
pub proof fn lemma_hgt_nonneg(t: TreeV)
    ensures
        hgt(t) >= 0,
        t is Nil <==> hgt(t) == 0,
    decreases t,
{
    match t {
        TreeV::Nil => {},
        TreeV::Node { left, right, .. } => {
            lemma_hgt_nonneg(*left);
            lemma_hgt_nonneg(*right);
        },
    }
}

/// The height of an ordered tree is at most the number of its keys.
pub proof fn lemma_hgt_le_dom(t: TreeV)
    requires
        bst_ok(t),
    ensures
        as_map(t).dom().finite(),
        hgt(t) <= as_map(t).dom().len(),
    decreases t,
{
    lemma_as_map_finite(t);
    match t {
        TreeV::Nil => {
            assert(as_map(t).dom() =~= Set::<int>::empty());
        },
        TreeV::Node { key, left, right, .. } => {
            lemma_hgt_le_dom(*left);
            lemma_hgt_le_dom(*right);
            let dl = as_map(*left).dom();
            let dr = as_map(*right).dom();
            assert(dl.disjoint(dr));
            lemma_disjoint_union_len(dl, dr);
            assert(as_map(t).dom() =~= dl.union(dr).insert(key));
            assert(!dl.union(dr).contains(key));
            assert(as_map(t).dom().len() == dl.len() + dr.len() + 1);
        },
    }
}

/// Every key of an in-range tree lies within the 32-bit signed range.
pub proof fn lemma_dom_in_range(t: TreeV)
    requires
        ranges_ok(t),
    ensures
        forall|k: int|
            as_map(t).dom().contains(k) ==> i32::MIN <= k <= i32::MAX,
    decreases t,
{
    match t {
        TreeV::Nil => {},
        TreeV::Node { key, left, right, .. } => {
            lemma_dom_in_range(*left);
            lemma_dom_in_range(*right);
            assert(as_map(t).dom() =~= as_map(*left).dom().union(as_map(*right).dom()).insert(
                key,
            ));
        },
    }
}

/// A well-formed tree over 32-bit keys cannot be taller than the key space.
pub proof fn lemma_height_bound(t: TreeV)
    requires
        bst_ok(t),
        ranges_ok(t),
    ensures
        0 <= hgt(t) <= 0x1_0000_0000,
    decreases t,
{
    lemma_hgt_nonneg(t);
    lemma_hgt_le_dom(t);
    lemma_dom_in_range(t);
    let full = set_int_range(i32::MIN as int, i32::MAX as int + 1);
    lemma_int_range(i32::MIN as int, i32::MAX as int + 1);
    assert(as_map(t).dom().subset_of(full));
    lemma_len_subset(as_map(t).dom(), full);
}


/// Unfold the well-formedness parts of one node into facts on its parts.
pub proof fn lemma_node_parts(k: int, v: int, h: int, l: TreeV, r: TreeV)
    requires
        bst_ok(node_v(k, v, h, l, r)),
        ranges_ok(node_v(k, v, h, l, r)),
    ensures
        bst_ok(l),
        bst_ok(r),
        ranges_ok(l),
        ranges_ok(r),
        i32::MIN <= k <= i32::MAX,
        i32::MIN <= v <= i32::MAX,
        forall|x: int| as_map(l).dom().contains(x) ==> x < k,
        forall|x: int| as_map(r).dom().contains(x) ==> x > k,
{
}

/// Characterize the map of one node: domain and pointwise lookups.
pub proof fn lemma_node_map(k: int, v: int, h: int, l: TreeV, r: TreeV)
    requires
        bst_ok(node_v(k, v, h, l, r)),
    ensures
        as_map(node_v(k, v, h, l, r)).dom() =~= as_map(l).dom().union(as_map(r).dom()).insert(k),
        as_map(node_v(k, v, h, l, r))[k] == v,
        forall|x: int|
            as_map(l).dom().contains(x) ==> #[trigger] as_map(node_v(k, v, h, l, r))[x] == as_map(
                l,
            )[x],
        forall|x: int|
            as_map(r).dom().contains(x) ==> #[trigger] as_map(node_v(k, v, h, l, r))[x] == as_map(
                r,
            )[x],
{
    let m = as_map(node_v(k, v, h, l, r));
    assert(m == as_map(l).union_prefer_right(as_map(r)).insert(k, v));
    assert forall|x: int| as_map(l).dom().contains(x) implies #[trigger] m[x] == as_map(l)[x] by {
        assert(x < k);
        assert(!as_map(r).dom().contains(x));
    }
}

/// A left rotation keeps the represented map, ordering, ranges and height
/// bookkeeping intact.
pub proof fn lemma_rotate_left(k: int, v: int, h: int, l: TreeV, r: TreeV)
    requires
        r is Node,
        bst_ok(node_v(k, v, h, l, r)),
        ranges_ok(node_v(k, v, h, l, r)),
        heights_ok(l),
        heights_ok(r),
    ensures
        ({
            let b = rotate_left_v(node_v(k, v, h, l, r));
            &&& as_map(b) == as_map(node_v(k, v, h, l, r))
            &&& bst_ok(b)
            &&& ranges_ok(b)
            &&& heights_ok(b)
            &&& b == mk_v(r->key, r->value, mk_v(k, v, l, *r->left), *r->right)
        }),
{
    let t = node_v(k, v, h, l, r);
    let rk = r->key;
    let rv = r->value;
    let rl = *r->left;
    let rr = *r->right;
    let inner = mk_v(k, v, l, rl);
    let b = rotate_left_v(t);
    assert(r =~= node_v(rk, rv, r->height, rl, rr));
    assert(b == mk_v(rk, rv, inner, rr));
    lemma_node_map(k, v, h, l, r);
    lemma_node_map(rk, rv, r->height, rl, rr);
    lemma_node_parts(k, v, h, l, r);
    lemma_node_parts(rk, rv, r->height, rl, rr);
    assert(heights_ok(rl) && heights_ok(rr)) by {
        assert(heights_ok(r));
    }
    // Keys of the right child's left subtree lie strictly between k and rk.
    assert forall|x: int| as_map(rl).dom().contains(x) implies x > k && x < rk by {
        assert(as_map(r).dom().contains(x));
    }
    assert(bst_ok(inner));
    lemma_node_map(k, v, 1 + int_max(hgt(l), hgt(rl)), l, rl);
    assert(as_map(r).dom().contains(rk));
    assert forall|x: int| as_map(inner).dom().contains(x) implies x < rk by {
        if as_map(l).dom().contains(x) {
            assert(x < k);
        } else if x != k {
            assert(as_map(rl).dom().contains(x));
        }
    }
    assert(forall|x: int| as_map(rr).dom().contains(x) ==> x > rk);
    assert(bst_ok(b));
    lemma_node_map(rk, rv, 1 + int_max(hgt(inner), hgt(rr)), inner, rr);
    assert(as_map(b) =~= as_map(t)) by {
        assert(as_map(b).dom() =~= as_map(t).dom());
        assert forall|x: int| as_map(t).dom().contains(x) implies as_map(b)[x] == as_map(t)[x] by {
            if as_map(l).dom().contains(x) {
                assert(as_map(inner)[x] == as_map(l)[x]);
            } else if x == k {
                assert(as_map(inner)[x] == v);
            } else if as_map(rl).dom().contains(x) {
                assert(as_map(inner)[x] == as_map(rl)[x]);
                assert(as_map(t)[x] == as_map(r)[x]);
            } else if x == rk {
            } else {
                assert(as_map(rr).dom().contains(x));
                assert(as_map(t)[x] == as_map(r)[x]);
            }
        }
    }
    assert(as_map(b) == as_map(t));
    assert(bst_ok(b));
    assert(ranges_ok(rl) && ranges_ok(rr));
    assert(hgt(inner) == 1 + int_max(hgt(l), hgt(rl)));
    assert(ranges_ok(inner) && heights_ok(inner));
    assert(hgt(b) == 1 + int_max(hgt(inner), hgt(rr)));
    assert(ranges_ok(b));
    assert(heights_ok(b));
    assert(b == mk_v(rk, rv, mk_v(k, v, l, rl), rr));
}

/// A right rotation keeps the represented map, ordering, ranges and height
/// bookkeeping intact.
pub proof fn lemma_rotate_right(k: int, v: int, h: int, l: TreeV, r: TreeV)
    requires
        l is Node,
        bst_ok(node_v(k, v, h, l, r)),
        ranges_ok(node_v(k, v, h, l, r)),
        heights_ok(l),
        heights_ok(r),
    ensures
        ({
            let b = rotate_right_v(node_v(k, v, h, l, r));
            &&& as_map(b) == as_map(node_v(k, v, h, l, r))
            &&& bst_ok(b)
            &&& ranges_ok(b)
            &&& heights_ok(b)
            &&& b == mk_v(l->key, l->value, *l->left, mk_v(k, v, *l->right, r))
        }),
{
    let t = node_v(k, v, h, l, r);
    let lk = l->key;
    let lv = l->value;
    let ll = *l->left;
    let lr = *l->right;
    let inner = mk_v(k, v, lr, r);
    let b = rotate_right_v(t);
    assert(l =~= node_v(lk, lv, l->height, ll, lr));
    assert(b == mk_v(lk, lv, ll, inner));
    lemma_node_map(k, v, h, l, r);
    lemma_node_map(lk, lv, l->height, ll, lr);
    lemma_node_parts(k, v, h, l, r);
    lemma_node_parts(lk, lv, l->height, ll, lr);
    assert(heights_ok(ll) && heights_ok(lr)) by {
        assert(heights_ok(l));
    }
    assert forall|x: int| as_map(lr).dom().contains(x) implies x < k && x > lk by {
        assert(as_map(l).dom().contains(x));
    }
    assert(bst_ok(inner));
    lemma_node_map(k, v, 1 + int_max(hgt(lr), hgt(r)), lr, r);
    assert(as_map(l).dom().contains(lk));
    assert forall|x: int| as_map(inner).dom().contains(x) implies x > lk by {
        if as_map(r).dom().contains(x) {
            assert(x > k);
        } else if x != k {
            assert(as_map(lr).dom().contains(x));
        }
    }
    assert(forall|x: int| as_map(ll).dom().contains(x) ==> x < lk);
    assert(bst_ok(b));
    lemma_node_map(lk, lv, 1 + int_max(hgt(ll), hgt(inner)), ll, inner);
    assert(as_map(b) =~= as_map(t)) by {
        assert(as_map(b).dom() =~= as_map(t).dom());
        assert forall|x: int| as_map(t).dom().contains(x) implies as_map(b)[x] == as_map(t)[x] by {
            if as_map(r).dom().contains(x) {
                assert(as_map(inner)[x] == as_map(r)[x]);
            } else if x == k {
                assert(as_map(inner)[x] == v);
            } else if as_map(lr).dom().contains(x) {
                assert(as_map(inner)[x] == as_map(lr)[x]);
                assert(as_map(t)[x] == as_map(l)[x]);
            } else if x == lk {
            } else {
                assert(as_map(ll).dom().contains(x));
                assert(as_map(t)[x] == as_map(l)[x]);
            }
        }
    }
    assert(as_map(b) == as_map(t));
    assert(bst_ok(b));
    assert(ranges_ok(ll) && ranges_ok(lr));
    assert(hgt(inner) == 1 + int_max(hgt(lr), hgt(r)));
    assert(ranges_ok(inner) && heights_ok(inner));
    assert(hgt(b) == 1 + int_max(hgt(ll), hgt(inner)));
    assert(ranges_ok(b));
    assert(heights_ok(b));
    assert(b == mk_v(lk, lv, ll, mk_v(k, v, lr, r)));
}

/// Unfold height and balance bookkeeping of a node into facts on its parts.
pub proof fn lemma_sub_parts(t: TreeV)
    requires
        t is Node,
        heights_ok(t),
        balanced_ok(t),
    ensures
        heights_ok(*t->left),
        heights_ok(*t->right),
        balanced_ok(*t->left),
        balanced_ok(*t->right),
        hgt(t) == 1 + int_max(hgt(*t->left), hgt(*t->right)),
        -1 <= hgt(*t->left) - hgt(*t->right) <= 1,
        t->height == hgt(t),
        hgt(t) >= 1,
        hgt(*t->left) >= 0,
        hgt(*t->right) >= 0,
{
    lemma_hgt_nonneg(*t->left);
    lemma_hgt_nonneg(*t->right);
}

/// Rebalancing one node keeps the represented map and restores the AVL
/// shape, with an exact account of the resulting height.
pub proof fn lemma_balance(k: int, v: int, h: int, l: TreeV, r: TreeV)
    requires
        bst_ok(node_v(k, v, h, l, r)),
        ranges_ok(node_v(k, v, h, l, r)),
        heights_ok(l),
        heights_ok(r),
        balanced_ok(l),
        balanced_ok(r),
        -2 <= hgt(l) - hgt(r) <= 2,
    ensures
        ({
            let b = balance_v(node_v(k, v, h, l, r));
            let hl = hgt(l);
            let hr = hgt(r);
            &&& as_map(b) == as_map(node_v(k, v, h, l, r))
            &&& bst_ok(b)
            &&& ranges_ok(b)
            &&& heights_ok(b)
            &&& balanced_ok(b)
            &&& b is Node
            &&& (-1 <= hl - hr <= 1 ==> hgt(b) == 1 + int_max(hl, hr))
            &&& (hl - hr == 2 ==> hgt(b) == if bal_v(l) == 0 { hl + 1 } else { hl as int })
            &&& (hl - hr == -2 ==> hgt(b) == if bal_v(r) == 0 { hr + 1 } else { hr as int })
        }),
{
    let t = node_v(k, v, h, l, r);
    let b = balance_v(t);
    let hl = hgt(l);
    let hr = hgt(r);
    lemma_node_parts(k, v, h, l, r);
    lemma_hgt_nonneg(l);
    lemma_hgt_nonneg(r);
    if -1 <= hl - hr <= 1 {
        assert(b == mk_v(k, v, l, r));
        assert(heights_ok(b) && balanced_ok(b) && bst_ok(b) && ranges_ok(b));
        assert(as_map(b) =~= as_map(t));
    } else if hl - hr == -2 {
        // Right-heavy: the right child exists and decides the rotation.
        assert(hr >= 2 && r is Node);
        lemma_sub_parts(r);
        let rk = r->key;
        let rv = r->value;
        let rl = *r->left;
        let rr = *r->right;
        assert(r =~= node_v(rk, rv, r->height, rl, rr));
        if bal_v(r) > 0 {
            // The right child leans left: double rotation.
            assert(hgt(rl) == hl + 1 && hgt(rr) == hl);
            assert(hgt(rl) >= 1 && rl is Node);
            lemma_sub_parts(rl);
            let rlk = rl->key;
            let rlv = rl->value;
            let rll = *rl->left;
            let rlr = *rl->right;
            lemma_rotate_right(rk, rv, r->height, rl, rr);
            let r2 = rotate_right_v(r);
            assert(r2 == mk_v(rlk, rlv, rll, mk_v(rk, rv, rlr, rr)));
            assert(hgt(mk_v(rk, rv, rlr, rr)) == hl + 1);
            assert(hgt(r2) == hl + 2);
            assert(as_map(r2).dom() =~= as_map(r).dom());
            assert(bst_ok(node_v(k, v, h, l, r2)));
            assert(ranges_ok(node_v(k, v, h, l, r2)));
            lemma_rotate_left(k, v, h, l, r2);
            assert(b == rotate_left_v(node_v(k, v, h, l, r2)));
            assert(b == mk_v(rlk, rlv, mk_v(k, v, l, rll), mk_v(rk, rv, rlr, rr)));
            assert(hgt(mk_v(k, v, l, rll)) == hl + 1);
            assert(hgt(b) == hl + 2);
            assert(balanced_ok(mk_v(k, v, l, rll)));
            assert(balanced_ok(mk_v(rk, rv, rlr, rr)));
            assert(balanced_ok(b));
            assert(as_map(node_v(k, v, h, l, r2)) =~= as_map(t)) by {
                lemma_node_map(k, v, h, l, r2);
                lemma_node_map(k, v, h, l, r);
                assert forall|x: int| as_map(t).dom().contains(x) implies as_map(
                    node_v(k, v, h, l, r2),
                )[x] == as_map(t)[x] by {
                    if as_map(r).dom().contains(x) {
                        assert(as_map(node_v(k, v, h, l, r2))[x] == as_map(r2)[x]);
                    }
                }
                assert(as_map(node_v(k, v, h, l, r2)).dom() =~= as_map(t).dom());
            }
        } else {
            // Single left rotation.
            lemma_rotate_left(k, v, h, l, r);
            assert(b == rotate_left_v(t));
            let rl = *r->left;
            let rr = *r->right;
            assert(hgt(rr) == hl + 1);
            assert(b == mk_v(r->key, r->value, mk_v(k, v, l, rl), rr));
            assert(hgt(mk_v(k, v, l, rl)) == 1 + hgt(rl));
            assert(balanced_ok(mk_v(k, v, l, rl)));
            assert(balanced_ok(b));
            if bal_v(r) == 0 {
                assert(hgt(rl) == hl + 1);
                assert(hgt(b) == hr + 1);
            } else {
                assert(hgt(rl) == hl);
                assert(hgt(b) == hr);
            }
        }
    } else {
        // Left-heavy: mirror image of the right-heavy case.
        assert(hl - hr == 2);
        assert(hl >= 2 && l is Node);
        lemma_sub_parts(l);
        let lk = l->key;
        let lv = l->value;
        let ll = *l->left;
        let lr = *l->right;
        assert(l =~= node_v(lk, lv, l->height, ll, lr));
        if bal_v(l) < 0 {
            // The left child leans right: double rotation.
            assert(hgt(lr) == hr + 1 && hgt(ll) == hr);
            assert(hgt(lr) >= 1 && lr is Node);
            lemma_sub_parts(lr);
            let lrk = lr->key;
            let lrv = lr->value;
            let lrl = *lr->left;
            let lrr = *lr->right;
            lemma_rotate_left(lk, lv, l->height, ll, lr);
            let l2 = rotate_left_v(l);
            assert(l2 == mk_v(lrk, lrv, mk_v(lk, lv, ll, lrl), lrr));
            assert(hgt(mk_v(lk, lv, ll, lrl)) == hr + 1);
            assert(hgt(l2) == hr + 2);
            assert(as_map(l2).dom() =~= as_map(l).dom());
            assert(bst_ok(node_v(k, v, h, l2, r)));
            assert(ranges_ok(node_v(k, v, h, l2, r)));
            lemma_rotate_right(k, v, h, l2, r);
            assert(b == rotate_right_v(node_v(k, v, h, l2, r)));
            assert(b == mk_v(lrk, lrv, mk_v(lk, lv, ll, lrl), mk_v(k, v, lrr, r)));
            assert(hgt(mk_v(k, v, lrr, r)) == hr + 1);
            assert(hgt(b) == hr + 2);
            assert(balanced_ok(mk_v(lk, lv, ll, lrl)));
            assert(balanced_ok(mk_v(k, v, lrr, r)));
            assert(balanced_ok(b));
            assert(as_map(node_v(k, v, h, l2, r)) =~= as_map(t)) by {
                lemma_node_map(k, v, h, l2, r);
                lemma_node_map(k, v, h, l, r);
                assert forall|x: int| as_map(t).dom().contains(x) implies as_map(
                    node_v(k, v, h, l2, r),
                )[x] == as_map(t)[x] by {
                    if as_map(l).dom().contains(x) {
                        assert(as_map(node_v(k, v, h, l2, r))[x] == as_map(l2)[x]);
                    }
                }
                assert(as_map(node_v(k, v, h, l2, r)).dom() =~= as_map(t).dom());
            }
        } else {
            // Single right rotation.
            lemma_rotate_right(k, v, h, l, r);
            assert(b == rotate_right_v(t));
            let ll = *l->left;
            let lr = *l->right;
            assert(hgt(ll) == hr + 1);
            assert(b == mk_v(l->key, l->value, ll, mk_v(k, v, lr, r)));
            assert(hgt(mk_v(k, v, lr, r)) == 1 + hgt(lr));
            assert(balanced_ok(mk_v(k, v, lr, r)));
            assert(balanced_ok(b));
            if bal_v(l) == 0 {
                assert(hgt(lr) == hr + 1);
                assert(hgt(b) == hl + 1);
            } else {
                assert(hgt(lr) == hr);
                assert(hgt(b) == hl);
            }
        }
    }
}

/// Insertion keeps the AVL shape, updates the represented map pointwise, and
/// grows the height by at most one.
pub proof fn lemma_insert(t: TreeV, k: int, v: int)
    requires
        wf_v(t),
        i32::MIN <= k <= i32::MAX,
        i32::MIN <= v <= i32::MAX,
    ensures
        ({
            let t2 = avl_insert_v(t, k, v);
            &&& wf_v(t2)
            &&& as_map(t2) == as_map(t).insert(k, v)
            &&& hgt(t) <= hgt(t2) <= hgt(t) + 1
            &&& t2 is Node
        }),
    decreases t,
{
    let t2 = avl_insert_v(t, k, v);
    match t {
        TreeV::Nil => {
            assert(as_map(t2) =~= as_map(t).insert(k, v));
            assert(heights_ok(t2) && balanced_ok(t2) && bst_ok(t2) && ranges_ok(t2));
        },
        TreeV::Node { key, value, height, left, right } => {
            lemma_node_parts(key, value, height, *left, *right);
            lemma_sub_parts(t);
            assert(t =~= node_v(key, value, height, *left, *right));
            let hl = hgt(*left);
            let hr = hgt(*right);
            if k < key {
                lemma_insert(*left, k, v);
                let l2 = avl_insert_v(*left, k, v);
                lemma_node_map(key, value, height, *left, *right);
                assert(as_map(l2).dom() =~= as_map(*left).dom().insert(k));
                assert(bst_ok(node_v(key, value, height, l2, *right)));
                assert(ranges_ok(node_v(key, value, height, l2, *right)));
                lemma_balance(key, value, height, l2, *right);
                assert(t2 == balance_v(node_v(key, value, height, l2, *right)));
                lemma_node_map(key, value, height, l2, *right);
                assert(as_map(node_v(key, value, height, l2, *right)) =~= as_map(t).insert(
                    k,
                    v,
                )) by {
                    let m2 = as_map(node_v(key, value, height, l2, *right));
                    assert(m2.dom() =~= as_map(t).insert(k, v).dom());
                    assert forall|x: int| m2.dom().contains(x) implies m2[x] == as_map(t).insert(
                        k,
                        v,
                    )[x] by {
                        if x == k {
                            assert(m2[x] == as_map(l2)[x]);
                        } else if x == key {
                        } else if as_map(*left).dom().contains(x) {
                            assert(m2[x] == as_map(l2)[x]);
                            assert(as_map(t)[x] == as_map(*left)[x]);
                        } else if as_map(*right).dom().contains(x) {
                            assert(m2[x] == as_map(*right)[x]);
                            assert(as_map(t)[x] == as_map(*right)[x]);
                        }
                    }
                }
            } else if k > key {
                lemma_insert(*right, k, v);
                let r2 = avl_insert_v(*right, k, v);
                lemma_node_map(key, value, height, *left, *right);
                assert(as_map(r2).dom() =~= as_map(*right).dom().insert(k));
                assert(bst_ok(node_v(key, value, height, *left, r2)));
                assert(ranges_ok(node_v(key, value, height, *left, r2)));
                lemma_balance(key, value, height, *left, r2);
                assert(t2 == balance_v(node_v(key, value, height, *left, r2)));
                lemma_node_map(key, value, height, *left, r2);
                assert(as_map(node_v(key, value, height, *left, r2)) =~= as_map(t).insert(
                    k,
                    v,
                )) by {
                    let m2 = as_map(node_v(key, value, height, *left, r2));
                    assert(m2.dom() =~= as_map(t).insert(k, v).dom());
                    assert forall|x: int| m2.dom().contains(x) implies m2[x] == as_map(t).insert(
                        k,
                        v,
                    )[x] by {
                        if x == k {
                            assert(m2[x] == as_map(r2)[x]);
                        } else if x == key {
                        } else if as_map(*right).dom().contains(x) {
                            assert(m2[x] == as_map(r2)[x]);
                            assert(as_map(t)[x] == as_map(*right)[x]);
                        } else if as_map(*left).dom().contains(x) {
                            assert(m2[x] == as_map(*left)[x]);
                            assert(as_map(t)[x] == as_map(*left)[x]);
                        }
                    }
                }
            } else {
                assert(bst_ok(node_v(key, v, height, *left, *right)));
                assert(ranges_ok(node_v(key, v, height, *left, *right)));
                lemma_balance(key, v, height, *left, *right);
                assert(t2 == balance_v(node_v(key, v, height, *left, *right)));
                lemma_node_map(key, value, height, *left, *right);
                lemma_node_map(key, v, height, *left, *right);
                assert(as_map(node_v(key, v, height, *left, *right)) =~= as_map(t).insert(
                    k,
                    v,
                )) by {
                    let m2 = as_map(node_v(key, v, height, *left, *right));
                    assert(m2.dom() =~= as_map(t).insert(k, v).dom());
                    assert forall|x: int| m2.dom().contains(x) implies m2[x] == as_map(t).insert(
                        k,
                        v,
                    )[x] by {
                        if as_map(*left).dom().contains(x) {
                            assert(as_map(t)[x] == as_map(*left)[x]);
                        } else if as_map(*right).dom().contains(x) {
                            assert(as_map(t)[x] == as_map(*right)[x]);
                        }
                    }
                }
            }
        },
    }
}

/// Removing the smallest entry keeps the AVL shape, removes exactly that
/// entry from the represented map, and shrinks the height by at most one.
pub proof fn lemma_delete_min(t: TreeV)
    requires
        wf_v(t),
        t is Node,
    ensures
        ({
            let (sk, sv, t2) = delete_min_v(t);
            &&& as_map(t).dom().contains(sk)
            &&& as_map(t)[sk] == sv
            &&& forall|x: int| as_map(t).dom().contains(x) ==> x >= sk
            &&& wf_v(t2)
            &&& as_map(t2) == as_map(t).remove(sk)
            &&& hgt(t) - 1 <= hgt(t2) <= hgt(t)
            &&& i32::MIN <= sk <= i32::MAX
            &&& i32::MIN <= sv <= i32::MAX
        }),
    decreases t,
{
    let (sk, sv, t2) = delete_min_v(t);
    let key = t->key;
    let value = t->value;
    let height = t->height;
    let l = *t->left;
    let r = *t->right;
    lemma_node_parts(key, value, height, l, r);
    lemma_sub_parts(t);
    lemma_node_map(key, value, height, l, r);
    assert(t =~= node_v(key, value, height, l, r));
    let hl = hgt(l);
    let hr = hgt(r);
    if l is Nil {
        assert(sk == key && sv == value && t2 == r);
        assert(as_map(l).dom() =~= Set::<int>::empty());
        assert(as_map(t2) =~= as_map(t).remove(sk)) by {
            assert(as_map(t2).dom() =~= as_map(t).remove(sk).dom());
            assert forall|x: int| as_map(t2).dom().contains(x) implies as_map(t2)[x] == as_map(
                t,
            ).remove(sk)[x] by {
                assert(as_map(t)[x] == as_map(r)[x]);
            }
        }
    } else {
        lemma_delete_min(l);
        let (mk2, mv2, l2) = delete_min_v(l);
        assert(sk == mk2 && sv == mv2);
        assert(as_map(l2).dom() =~= as_map(l).dom().remove(sk));
        assert(bst_ok(node_v(key, value, height, l2, r)));
        assert(ranges_ok(node_v(key, value, height, l2, r)));
        lemma_balance(key, value, height, l2, r);
        assert(t2 == balance_v(node_v(key, value, height, l2, r)));
        lemma_node_map(key, value, height, l2, r);
        assert(as_map(t).dom().contains(sk) && as_map(t)[sk] == sv);
        assert(forall|x: int| as_map(t).dom().contains(x) ==> x >= sk);
        assert(as_map(node_v(key, value, height, l2, r)) =~= as_map(t).remove(sk)) by {
            let m2 = as_map(node_v(key, value, height, l2, r));
            assert(m2.dom() =~= as_map(t).remove(sk).dom());
            assert forall|x: int| m2.dom().contains(x) implies m2[x] == as_map(t).remove(sk)[x] by {
                if x == key {
                } else if as_map(l2).dom().contains(x) {
                    assert(m2[x] == as_map(l2)[x]);
                    assert(as_map(l2)[x] == as_map(l)[x]);
                    assert(as_map(t)[x] == as_map(l)[x]);
                } else {
                    assert(as_map(r).dom().contains(x));
                    assert(as_map(t)[x] == as_map(r)[x]);
                }
            }
        }
    }
}

/// Deletion keeps the AVL shape, removes exactly the given key from the
/// represented map, and shrinks the height by at most one.
pub proof fn lemma_delete(t: TreeV, k: int)
    requires
        wf_v(t),
    ensures
        ({
            let t2 = avl_delete_v(t, k);
            &&& wf_v(t2)
            &&& as_map(t2) == as_map(t).remove(k)
            &&& hgt(t) - 1 <= hgt(t2) <= hgt(t)
        }),
    decreases t,
{
    let t2 = avl_delete_v(t, k);
    match t {
        TreeV::Nil => {
            assert(as_map(t2) =~= as_map(t).remove(k));
        },
        TreeV::Node { key, value, height, left, right } => {
            let l = *left;
            let r = *right;
            lemma_node_parts(key, value, height, l, r);
            lemma_sub_parts(t);
            lemma_node_map(key, value, height, l, r);
            assert(t =~= node_v(key, value, height, l, r));
            let hl = hgt(l);
            let hr = hgt(r);
            if k < key {
                lemma_delete(l, k);
                let l2 = avl_delete_v(l, k);
                assert(as_map(l2).dom() =~= as_map(l).dom().remove(k));
                assert(bst_ok(node_v(key, value, height, l2, r)));
                assert(ranges_ok(node_v(key, value, height, l2, r)));
                lemma_balance(key, value, height, l2, r);
                assert(t2 == balance_v(node_v(key, value, height, l2, r)));
                lemma_node_map(key, value, height, l2, r);
                assert(as_map(node_v(key, value, height, l2, r)) =~= as_map(t).remove(k)) by {
                    let m2 = as_map(node_v(key, value, height, l2, r));
                    assert(m2.dom() =~= as_map(t).remove(k).dom());
                    assert forall|x: int| m2.dom().contains(x) implies m2[x] == as_map(t).remove(
                        k,
                    )[x] by {
                        if x == key {
                        } else if as_map(l2).dom().contains(x) {
                            assert(m2[x] == as_map(l2)[x]);
                            assert(as_map(l2)[x] == as_map(l)[x]);
                            assert(as_map(t)[x] == as_map(l)[x]);
                        } else {
                            assert(as_map(r).dom().contains(x));
                            assert(as_map(t)[x] == as_map(r)[x]);
                        }
                    }
                }
            } else if k > key {
                lemma_delete(r, k);
                let r2 = avl_delete_v(r, k);
                assert(as_map(r2).dom() =~= as_map(r).dom().remove(k));
                assert(bst_ok(node_v(key, value, height, l, r2)));
                assert(ranges_ok(node_v(key, value, height, l, r2)));
                lemma_balance(key, value, height, l, r2);
                assert(t2 == balance_v(node_v(key, value, height, l, r2)));
                lemma_node_map(key, value, height, l, r2);
                assert(as_map(node_v(key, value, height, l, r2)) =~= as_map(t).remove(k)) by {
                    let m2 = as_map(node_v(key, value, height, l, r2));
                    assert(m2.dom() =~= as_map(t).remove(k).dom());
                    assert forall|x: int| m2.dom().contains(x) implies m2[x] == as_map(t).remove(
                        k,
                    )[x] by {
                        if x == key {
                        } else if as_map(r2).dom().contains(x) {
                            assert(m2[x] == as_map(r2)[x]);
                            assert(as_map(r2)[x] == as_map(r)[x]);
                            assert(as_map(t)[x] == as_map(r)[x]);
                        } else {
                            assert(as_map(l).dom().contains(x));
                            assert(as_map(t)[x] == as_map(l)[x]);
                        }
                    }
                }
            } else {
                if l is Nil {
                    assert(t2 == r);
                    assert(as_map(l).dom() =~= Set::<int>::empty());
                    assert(as_map(t2) =~= as_map(t).remove(k)) by {
                        assert(as_map(t2).dom() =~= as_map(t).remove(k).dom());
                        assert forall|x: int| as_map(t2).dom().contains(x) implies as_map(
                            t2,
                        )[x] == as_map(t).remove(k)[x] by {
                            assert(as_map(t)[x] == as_map(r)[x]);
                        }
                    }
                } else if r is Nil {
                    assert(t2 == l);
                    assert(as_map(r).dom() =~= Set::<int>::empty());
                    assert(as_map(t2) =~= as_map(t).remove(k)) by {
                        assert(as_map(t2).dom() =~= as_map(t).remove(k).dom());
                        assert forall|x: int| as_map(t2).dom().contains(x) implies as_map(
                            t2,
                        )[x] == as_map(t).remove(k)[x] by {
                            assert(as_map(t)[x] == as_map(l)[x]);
                        }
                    }
                } else {
                    lemma_delete_min(r);
                    let (sk, sv, r2) = delete_min_v(r);
                    assert(as_map(r).dom().contains(sk));
                    assert(sk > key);
                    assert(as_map(r2).dom() =~= as_map(r).dom().remove(sk));
                    assert(bst_ok(node_v(sk, sv, height, l, r2))) by {
                        assert(forall|x: int| as_map(l).dom().contains(x) ==> x < sk);
                        assert forall|x: int| as_map(r2).dom().contains(x) implies x > sk by {
                            assert(as_map(r).dom().contains(x));
                            assert(x >= sk);
                        }
                    }
                    assert(ranges_ok(node_v(sk, sv, height, l, r2)));
                    lemma_balance(sk, sv, height, l, r2);
                    assert(t2 == balance_v(node_v(sk, sv, height, l, r2)));
                    lemma_node_map(sk, sv, height, l, r2);
                    assert(as_map(node_v(sk, sv, height, l, r2)) =~= as_map(t).remove(k)) by {
                        let m2 = as_map(node_v(sk, sv, height, l, r2));
                        assert(as_map(r)[sk] == sv);
                        assert(as_map(t)[sk] == sv);
                        assert(m2.dom() =~= as_map(t).remove(k).dom());
                        assert forall|x: int| m2.dom().contains(x) implies m2[x] == as_map(
                            t,
                        ).remove(k)[x] by {
                            if x == sk {
                                assert(m2[x] == sv);
                            } else if as_map(l).dom().contains(x) {
                                assert(m2[x] == as_map(l)[x]);
                                assert(as_map(t)[x] == as_map(l)[x]);
                            } else {
                                assert(as_map(r2).dom().contains(x));
                                assert(m2[x] == as_map(r2)[x]);
                                assert(as_map(r2)[x] == as_map(r)[x]);
                                assert(as_map(t)[x] == as_map(r)[x]);
                            }
                        }
                    }
                }
            }
        },
    }
}

/// Raising the bound does not change a successful resolution.
pub(crate) proof fn lemma_resolve_mono(r: NodeRef, s: StoreContents, b1: nat, b2: nat)
    requires
        b1 <= b2,
        resolve_ref(r, s, b1) is Some,
    ensures
        resolve_ref(r, s, b2) == resolve_ref(r, s, b1),
    decreases b1, r,
{
    match r {
        NodeRef::Empty => {},
        NodeRef::Inner(cell) => match *cell {
            NodeRefInner::MemNode(n) => {
                lemma_resolve_mono(n.left, s, b1, b2);
                lemma_resolve_mono(n.right, s, b1, b2);
            },
            NodeRefInner::StoredNode { pointer } => {
                assert(pointer < b1 && s.contains_key(pointer));
            },
        },
    }
}

/// Adding an entry at or above the bound does not change a resolution.
pub(crate) proof fn lemma_resolve_frame(r: NodeRef, s: StoreContents, b: nat, p: u64, x: (u32, Node))
    requires
        b <= p as nat,
    ensures
        resolve_ref(r, s.insert(p, x), b) == resolve_ref(r, s, b),
    decreases b, r,
{
    match r {
        NodeRef::Empty => {},
        NodeRef::Inner(cell) => match *cell {
            NodeRefInner::MemNode(n) => {
                lemma_resolve_frame(n.left, s, b, p, x);
                lemma_resolve_frame(n.right, s, b, p, x);
            },
            NodeRefInner::StoredNode { pointer } => {
                if pointer < b && s.contains_key(pointer) {
                    let n = s[pointer].1;
                    lemma_resolve_frame(n.left, s, pointer as nat, p, x);
                    lemma_resolve_frame(n.right, s, pointer as nat, p, x);
                }
            },
        },
    }
}

/// Changing only a reference count does not change a resolution.
pub(crate) proof fn lemma_resolve_rc(r: NodeRef, s: StoreContents, b: nat, p: u64, c: u32)
    requires
        s.contains_key(p),
    ensures
        resolve_ref(r, s.insert(p, (c, s[p].1)), b) == resolve_ref(r, s, b),
    decreases b, r,
{
    let s2 = s.insert(p, (c, s[p].1));
    match r {
        NodeRef::Empty => {},
        NodeRef::Inner(cell) => match *cell {
            NodeRefInner::MemNode(n) => {
                lemma_resolve_rc(n.left, s, b, p, c);
                lemma_resolve_rc(n.right, s, b, p, c);
            },
            NodeRefInner::StoredNode { pointer } => {
                if pointer < b && s.contains_key(pointer) {
                    let n = s[pointer].1;
                    assert(s2[pointer].1 == n);
                    lemma_resolve_rc(n.left, s, pointer as nat, p, c);
                    lemma_resolve_rc(n.right, s, pointer as nat, p, c);
                }
            },
        },
    }
}

/// Unfold a successful resolution into facts about the node behind the
/// reference.
pub(crate) proof fn lemma_resolve_unfold(r: NodeRef, s: StoreContents, b: nat)
    requires
        resolve_ref(r, s, b) is Some,
    ensures
        r is Empty ==> resolve_ref(r, s, b).unwrap() == TreeV::Nil,
        !(r is Empty) ==> {
            &&& ref_node(r, s) is Some
            &&& ref_bound(r, b) <= b
            &&& resolve_node(ref_node(r, s).unwrap(), s, ref_bound(r, b)) == resolve_ref(r, s, b)
            &&& resolve_ref(r, s, b).unwrap() is Node
        },
{
    match r {
        NodeRef::Empty => {},
        NodeRef::Inner(cell) => match *cell {
            NodeRefInner::MemNode(n) => {},
            NodeRefInner::StoredNode { pointer } => {
                assert(pointer < b && s.contains_key(pointer));
            },
        },
    }
}

/// Unfold a successful node resolution into facts about its children.
pub(crate) proof fn lemma_resolve_node_unfold(n: Node, s: StoreContents, b: nat)
    requires
        resolve_node(n, s, b) is Some,
    ensures
        ({
            let t = resolve_node(n, s, b).unwrap();
            &&& resolve_ref(n.left, s, b) is Some
            &&& resolve_ref(n.right, s, b) is Some
            &&& t == node_shape(n, resolve_ref(n.left, s, b).unwrap(), resolve_ref(n.right, s, b).unwrap())
            &&& t is Node
            &&& t->key == n.key.0 as int
            &&& t->value == n.value.0 as int
            &&& t->height == n.height as int
            &&& *t->left == resolve_ref(n.left, s, b).unwrap()
            &&& *t->right == resolve_ref(n.right, s, b).unwrap()
        }),
{
}

/// A clone resolves exactly as the node it was cloned from.
pub(crate) proof fn lemma_resolve_cloned(n: Node, s: StoreContents, b: nat)
    ensures
        resolve_node(cloned_node(n), s, b) == resolve_node(n, s, b),
        resolve_node(n, s, b) is Some ==> resolve_node(cloned_node(n), s, b).unwrap()
            == resolve_node(n, s, b).unwrap(),
        memos_ok(cloned_node(n).left, s, b) == memos_ok(n.left, s, b),
        memos_ok(cloned_node(n).right, s, b) == memos_ok(n.right, s, b),
        node_memo_ok(cloned_node(n), s, b),
{
    assert(cloned_node(n).left == n.left);
    assert(cloned_node(n).right == n.right);
    assert(resolve_node(cloned_node(n), s, b) == resolve_node(n, s, b));
}

/// Raising the bound keeps valid memos valid.
pub(crate) proof fn lemma_memos_mono(r: NodeRef, s: StoreContents, b1: nat, b2: nat)
    requires
        b1 <= b2,
        memos_ok(r, s, b1),
    ensures
        memos_ok(r, s, b2),
    decreases r,
{
    match r {
        NodeRef::Empty => {},
        NodeRef::Inner(cell) => match *cell {
            NodeRefInner::MemNode(n) => {
                lemma_memos_mono(n.left, s, b1, b2);
                lemma_memos_mono(n.right, s, b1, b2);
                match n.hash {
                    Some(d) => {
                        lemma_resolve_mono(n.left, s, b1, b2);
                        lemma_resolve_mono(n.right, s, b1, b2);
                    },
                    None => {},
                }
            },
            NodeRefInner::StoredNode { .. } => {},
        },
    }
}

/// A node handed out by the manager for a reference stands for exactly the
/// tree the reference resolves to, with both children resolving and carrying
/// valid memos at the same bound.
pub(crate) proof fn lemma_loaded(r: NodeRef, s: StoreContents, b: nat, n: Node)
    requires
        resolve_ref(r, s, b) is Some,
        !(r is Empty),
        ref_node(r, s) matches Some(m) && (n == m || n == cloned_node(m)),
        memos_ok(r, s, b),
        store_ok(s),
    ensures
        ({
            let t = resolve_ref(r, s, b).unwrap();
            &&& t is Node
            &&& resolve_node(n, s, b) == Some(t)
            &&& resolve_ref(n.left, s, b) is Some
            &&& resolve_ref(n.right, s, b) is Some
            &&& resolve_ref(n.left, s, b).unwrap() == *t->left
            &&& resolve_ref(n.right, s, b).unwrap() == *t->right
            &&& n.key.0 as int == t->key
            &&& n.value.0 as int == t->value
            &&& n.height as int == t->height
            &&& memos_ok(n.left, s, b)
            &&& memos_ok(n.right, s, b)
        }),
{
    let t = resolve_ref(r, s, b).unwrap();
    let m = ref_node(r, s).unwrap();
    lemma_resolve_unfold(r, s, b);
    let b2 = ref_bound(r, b);
    lemma_resolve_node_unfold(m, s, b2);
    lemma_resolve_mono(m.left, s, b2, b);
    lemma_resolve_mono(m.right, s, b2, b);
    assert(resolve_node(m, s, b) == Some(t));
    lemma_resolve_cloned(m, s, b);
    assert(n.left == m.left && n.right == m.right && n.key == m.key && n.value == m.value
        && n.height == m.height);
    match r {
        NodeRef::Empty => {},
        NodeRef::Inner(cell) => match *cell {
            NodeRefInner::MemNode(mm) => {
                assert(memos_ok(mm.left, s, b) && memos_ok(mm.right, s, b));
            },
            NodeRefInner::StoredNode { pointer } => {
                assert(s.contains_key(pointer));
                assert(ref_stored_below(s[pointer].1.left, pointer, s));
                assert(ref_stored_below(s[pointer].1.right, pointer, s));
                assert(memos_ok(m.left, s, b));
                assert(memos_ok(m.right, s, b));
            },
        },
    }
}

/// The facts one insertion step needs before rebalancing: inserting into the
/// proper subtree leaves a shape that `balance_v` both accepts and turns
/// into the algorithm's result.
pub(crate) proof fn lemma_insert_step(t: TreeV, k: int, v: int)
    requires
        wf_v(t),
        t is Node,
        i32::MIN <= k <= i32::MAX,
        i32::MIN <= v <= i32::MAX,
    ensures
        k < t->key ==> ({
            let l2 = avl_insert_v(*t->left, k, v);
            let t2 = node_v(t->key, t->value, t->height, l2, *t->right);
            &&& bst_ok(t2)
            &&& ranges_ok(t2)
            &&& heights_ok(l2)
            &&& heights_ok(*t->right)
            &&& balanced_ok(l2)
            &&& balanced_ok(*t->right)
            &&& -2 <= hgt(l2) - hgt(*t->right) <= 2
            &&& avl_insert_v(t, k, v) == balance_v(t2)
        }),
        k > t->key ==> ({
            let r2 = avl_insert_v(*t->right, k, v);
            let t2 = node_v(t->key, t->value, t->height, *t->left, r2);
            &&& bst_ok(t2)
            &&& ranges_ok(t2)
            &&& heights_ok(*t->left)
            &&& heights_ok(r2)
            &&& balanced_ok(*t->left)
            &&& balanced_ok(r2)
            &&& -2 <= hgt(*t->left) - hgt(r2) <= 2
            &&& avl_insert_v(t, k, v) == balance_v(t2)
        }),
        k == t->key ==> ({
            let t2 = node_v(t->key, v, t->height, *t->left, *t->right);
            &&& bst_ok(t2)
            &&& ranges_ok(t2)
            &&& heights_ok(*t->left)
            &&& heights_ok(*t->right)
            &&& balanced_ok(*t->left)
            &&& balanced_ok(*t->right)
            &&& -2 <= hgt(*t->left) - hgt(*t->right) <= 2
            &&& avl_insert_v(t, k, v) == balance_v(t2)
        }),
{
    let key = t->key;
    let value = t->value;
    let height = t->height;
    let l = *t->left;
    let r = *t->right;
    assert(t =~= node_v(key, value, height, l, r));
    lemma_node_parts(key, value, height, l, r);
    lemma_sub_parts(t);
    lemma_node_map(key, value, height, l, r);
    if k < key {
        lemma_insert(l, k, v);
        let l2 = avl_insert_v(l, k, v);
        assert(as_map(l2).dom() =~= as_map(l).dom().insert(k));
        assert(bst_ok(node_v(key, value, height, l2, r)));
    } else if k > key {
        lemma_insert(r, k, v);
        let r2 = avl_insert_v(r, k, v);
        assert(as_map(r2).dom() =~= as_map(r).dom().insert(k));
        assert(bst_ok(node_v(key, value, height, l, r2)));
    } else {
        assert(bst_ok(node_v(key, v, height, l, r)));
    }
}

/// The facts one deletion step needs before rebalancing, for each of the
/// ways a key can relate to the node it meets.
pub(crate) proof fn lemma_delete_step(t: TreeV, k: int)
    requires
        wf_v(t),
        t is Node,
    ensures
        k < t->key ==> ({
            let l2 = avl_delete_v(*t->left, k);
            let t2 = node_v(t->key, t->value, t->height, l2, *t->right);
            &&& bst_ok(t2)
            &&& ranges_ok(t2)
            &&& heights_ok(l2)
            &&& heights_ok(*t->right)
            &&& balanced_ok(l2)
            &&& balanced_ok(*t->right)
            &&& -2 <= hgt(l2) - hgt(*t->right) <= 2
            &&& avl_delete_v(t, k) == balance_v(t2)
        }),
        k > t->key ==> ({
            let r2 = avl_delete_v(*t->right, k);
            let t2 = node_v(t->key, t->value, t->height, *t->left, r2);
            &&& bst_ok(t2)
            &&& ranges_ok(t2)
            &&& heights_ok(*t->left)
            &&& heights_ok(r2)
            &&& balanced_ok(*t->left)
            &&& balanced_ok(r2)
            &&& -2 <= hgt(*t->left) - hgt(r2) <= 2
            &&& avl_delete_v(t, k) == balance_v(t2)
        }),
        k == t->key && *t->left is Nil ==> avl_delete_v(t, k) == *t->right,
        k == t->key && !(*t->left is Nil) && *t->right is Nil ==> avl_delete_v(t, k) == *t->left,
        k == t->key && !(*t->left is Nil) && !(*t->right is Nil) ==> ({
            let (sk, sv, r2) = delete_min_v(*t->right);
            let t2 = node_v(sk, sv, t->height, *t->left, r2);
            &&& i32::MIN <= sk <= i32::MAX
            &&& i32::MIN <= sv <= i32::MAX
            &&& bst_ok(t2)
            &&& ranges_ok(t2)
            &&& heights_ok(*t->left)
            &&& heights_ok(r2)
            &&& balanced_ok(*t->left)
            &&& balanced_ok(r2)
            &&& -2 <= hgt(*t->left) - hgt(r2) <= 2
            &&& avl_delete_v(t, k) == balance_v(t2)
        }),
{
    let key = t->key;
    let value = t->value;
    let height = t->height;
    let l = *t->left;
    let r = *t->right;
    assert(t =~= node_v(key, value, height, l, r));
    lemma_node_parts(key, value, height, l, r);
    lemma_sub_parts(t);
    lemma_node_map(key, value, height, l, r);
    if k < key {
        lemma_delete(l, k);
        let l2 = avl_delete_v(l, k);
        assert(as_map(l2).dom() =~= as_map(l).dom().remove(k));
        assert(bst_ok(node_v(key, value, height, l2, r)));
    } else if k > key {
        lemma_delete(r, k);
        let r2 = avl_delete_v(r, k);
        assert(as_map(r2).dom() =~= as_map(r).dom().remove(k));
        assert(bst_ok(node_v(key, value, height, l, r2)));
    } else if !(l is Nil) && !(r is Nil) {
        lemma_delete_min(r);
        let (sk, sv, r2) = delete_min_v(r);
        assert(as_map(r).dom().contains(sk));
        assert(sk > key);
        lemma_dom_in_range(r);
        assert(as_map(r2).dom() =~= as_map(r).dom().remove(sk));
        assert(bst_ok(node_v(sk, sv, height, l, r2))) by {
            assert(forall|x: int| as_map(l).dom().contains(x) ==> x < sk);
            assert forall|x: int| as_map(r2).dom().contains(x) implies x > sk by {
                assert(as_map(r).dom().contains(x));
                assert(x >= sk);
            }
        }
        assert(i32::MIN <= sv <= i32::MAX);
    }
}

/// The facts one minimum-extraction step needs before rebalancing.
pub(crate) proof fn lemma_delete_min_step(t: TreeV)
    requires
        wf_v(t),
        t is Node,
    ensures
        *t->left is Nil ==> delete_min_v(t) == (t->key, t->value, *t->right),
        !(*t->left is Nil) ==> ({
            let (sk, sv, l2) = delete_min_v(*t->left);
            let t2 = node_v(t->key, t->value, t->height, l2, *t->right);
            &&& bst_ok(t2)
            &&& ranges_ok(t2)
            &&& heights_ok(l2)
            &&& heights_ok(*t->right)
            &&& balanced_ok(l2)
            &&& balanced_ok(*t->right)
            &&& -2 <= hgt(l2) - hgt(*t->right) <= 2
            &&& delete_min_v(t) == (sk, sv, balance_v(t2))
        }),
{
    let key = t->key;
    let value = t->value;
    let height = t->height;
    let l = *t->left;
    let r = *t->right;
    assert(t =~= node_v(key, value, height, l, r));
    lemma_node_parts(key, value, height, l, r);
    lemma_sub_parts(t);
    lemma_node_map(key, value, height, l, r);
    if !(l is Nil) {
        lemma_delete_min(l);
        let (sk, sv, l2) = delete_min_v(l);
        assert(as_map(l2).dom() =~= as_map(l).dom().remove(sk));
        assert(bst_ok(node_v(key, value, height, l2, r)));
    }
}

/// Growing a store leaves successful resolutions below the old bound alone.
pub(crate) proof fn lemma_resolve_grown(r: NodeRef, s1: StoreContents, s2: StoreContents, b: nat, b1: nat)
    requires
        b <= b1,
        store_grown(s1, s2, b1),
        resolve_ref(r, s1, b) is Some,
    ensures
        resolve_ref(r, s2, b) == resolve_ref(r, s1, b),
    decreases b, r,
{
    match r {
        NodeRef::Empty => {},
        NodeRef::Inner(cell) => match *cell {
            NodeRefInner::MemNode(n) => {
                lemma_resolve_grown(n.left, s1, s2, b, b1);
                lemma_resolve_grown(n.right, s1, s2, b, b1);
            },
            NodeRefInner::StoredNode { pointer } => {
                assert(pointer < b && s1.contains_key(pointer));
                assert(s2.contains_key(pointer) && s2[pointer].1 == s1[pointer].1);
                let n = s1[pointer].1;
                lemma_resolve_grown(n.left, s1, s2, pointer as nat, b1);
                lemma_resolve_grown(n.right, s1, s2, pointer as nat, b1);
            },
        },
    }
}

/// Growing a store keeps valid memos valid below the old bound.
pub(crate) proof fn lemma_memos_grown(r: NodeRef, s1: StoreContents, s2: StoreContents, b: nat, b1: nat)
    requires
        b <= b1,
        store_grown(s1, s2, b1),
        memos_ok(r, s1, b),
    ensures
        memos_ok(r, s2, b),
    decreases r,
{
    match r {
        NodeRef::Empty => {},
        NodeRef::Inner(cell) => match *cell {
            NodeRefInner::MemNode(n) => {
                lemma_memos_grown(n.left, s1, s2, b, b1);
                lemma_memos_grown(n.right, s1, s2, b, b1);
                match n.hash {
                    Some(d) => {
                        lemma_resolve_grown(n.left, s1, s2, b, b1);
                        lemma_resolve_grown(n.right, s1, s2, b, b1);
                    },
                    None => {},
                }
            },
            NodeRefInner::StoredNode { .. } => {},
        },
    }
}

/// Store growth composes.
pub(crate) proof fn lemma_grown_trans(
    s1: StoreContents,
    s2: StoreContents,
    s3: StoreContents,
    b1: nat,
    b2: nat,
)
    requires
        store_grown(s1, s2, b1),
        store_grown(s2, s3, b2),
        b1 <= b2,
    ensures
        store_grown(s1, s3, b1),
{
}

/// A store stays well-shaped when only a reference count changes.
pub(crate) proof fn lemma_store_ok_rc(s: StoreContents, p: u64, c: u32)
    requires
        store_ok(s),
        s.contains_key(p),
    ensures
        store_ok(s.insert(p, (c, s[p].1))),
{
    let s2 = s.insert(p, (c, s[p].1));
    assert forall|q: u64| #[trigger] s2.contains_key(q) implies ref_stored_below(
        s2[q].1.left,
        q,
        s2,
    ) && ref_stored_below(s2[q].1.right, q, s2) by {
        assert(s.contains_key(q));
        assert(s2[q].1 == s[q].1);
        lemma_stored_below_insert(s[q].1.left, q, s, p, (c, s[p].1));
        lemma_stored_below_insert(s[q].1.right, q, s, p, (c, s[p].1));
    }
}

/// A store stays well-shaped when a node whose children are stored below the
/// new pointer is added.
pub(crate) proof fn lemma_store_ok_insert(s: StoreContents, p: u64, x: (u32, Node))
    requires
        store_ok(s),
        ref_stored_below(x.1.left, p, s.insert(p, x)),
        ref_stored_below(x.1.right, p, s.insert(p, x)),
    ensures
        store_ok(s.insert(p, x)),
{
    let s2 = s.insert(p, x);
    assert forall|q: u64| #[trigger] s2.contains_key(q) implies ref_stored_below(
        s2[q].1.left,
        q,
        s2,
    ) && ref_stored_below(s2[q].1.right, q, s2) by {
        if q != p {
            assert(s.contains_key(q));
            assert(s2[q].1 == s[q].1);
            lemma_stored_below_insert(s[q].1.left, q, s, p, x);
            lemma_stored_below_insert(s[q].1.right, q, s, p, x);
        }
    }
}

/// Being stored below a pointer is preserved when the store grows by one
/// entry.
proof fn lemma_stored_below_insert(r: NodeRef, q: u64, s: StoreContents, p: u64, x: (u32, Node))
    requires
        ref_stored_below(r, q, s),
    ensures
        ref_stored_below(r, q, s.insert(p, x)),
{
}

} // verus!
