//! A persistent AVL tree over node references, with a mathematical model.

use vstd::prelude::*;
use crate::Error;
use crate::manager::NodeManager;
use crate::node_ref::{Node as NodeAddr, NodeRef, NodeRefInner};
use crate::store::NodeStore;
use crate::value::{Hashable, Int32BigEndian};

verus! {

/// One node of the AVL tree: a key, a value, child references, the height of
/// the subtree rooted here, and a memoized Merkle digest.
#[derive(Debug, PartialEq)]
pub struct Node {
    pub(crate) key: Int32BigEndian,
    pub(crate) value: Int32BigEndian,
    pub(crate) left: NodeRef,
    pub(crate) right: NodeRef,
    pub(crate) height: i64,
    pub(crate) hash: Option<Vec<u8>>,
}

impl NodeAddr for Node {
    type Ptr = u64;
}

/// The mathematical shape of a fully resolved tree.
#[verifier::ext_equal]
pub enum TreeV {
    /// The empty tree.
    Nil,
    /// A node together with its resolved subtrees.
    Node {
        /// The key stored at this node.
        key: int,
        /// The value stored at this node.
        value: int,
        /// The height field stored at this node.
        height: int,
        /// The resolved left subtree.
        left: Box<TreeV>,
        /// The resolved right subtree.
        right: Box<TreeV>,
    },
}

/// What a node store holds: for each pointer, a reference count and a node.
pub type StoreContents = Map<u64, (u32, Node)>;

/// Resolve a node reference against store contents into a tree shape.
///
/// `bound` limits which pointers may be followed: a stored node may only be
/// fetched when its pointer lies below the bound, and its own children are
/// then resolved below that pointer. This makes resolution total; stores
/// written through [`crate::manager::NodeManager::save`] always place a
/// node's children at strictly smaller pointers, so for them the bound is
/// never the reason a resolution fails.
pub open(crate) spec fn resolve_ref(r: NodeRef, s: StoreContents, bound: nat) -> Option<TreeV>
    decreases bound, r,
{
    match r {
        NodeRef::Empty => Some(TreeV::Nil),
        NodeRef::Inner(cell) => match *cell {
            NodeRefInner::MemNode(n) => {
                match (resolve_ref(n.left, s, bound), resolve_ref(n.right, s, bound)) {
                    (Some(l), Some(rt)) => Some(node_shape(n, l, rt)),
                    _ => None,
                }
            },
            NodeRefInner::StoredNode { pointer } => {
                if pointer < bound && s.contains_key(pointer) {
                    let n = s[pointer].1;
                    match (resolve_ref(n.left, s, pointer as nat), resolve_ref(
                        n.right,
                        s,
                        pointer as nat,
                    )) {
                        (Some(l), Some(rt)) => Some(node_shape(n, l, rt)),
                        _ => None,
                    }
                } else {
                    None
                }
            },
        },
    }
}

/// The tree shape contributed by one node whose subtrees are resolved.
pub open(crate) spec fn node_shape(n: Node, l: TreeV, r: TreeV) -> TreeV {
    TreeV::Node {
        key: n.key.0 as int,
        value: n.value.0 as int,
        height: n.height as int,
        left: Box::new(l),
        right: Box::new(r),
    }
}

/// The finite map a resolved tree represents.
pub open spec fn as_map(t: TreeV) -> Map<int, int>
    decreases t,
{
    match t {
        TreeV::Nil => Map::empty(),
        TreeV::Node { key, value, left, right, .. } => as_map(*left).union_prefer_right(
            as_map(*right),
        ).insert(key, value),
    }
}

/// The height of a resolved tree: 0 for the empty tree.
pub open spec fn hgt(t: TreeV) -> int
    decreases t,
{
    match t {
        TreeV::Nil => 0,
        TreeV::Node { left, right, .. } => 1 + int_max(hgt(*left), hgt(*right)),
    }
}

/// The number of nodes in a resolved tree.
pub open spec fn count(t: TreeV) -> nat
    decreases t,
{
    match t {
        TreeV::Nil => 0,
        TreeV::Node { left, right, .. } => 1 + count(*left) + count(*right),
    }
}

/// The larger of two integers.
pub open spec fn int_max(a: int, b: int) -> int {
    if a >= b {
        a
    } else {
        b
    }
}

/// Binary-search ordering: keys on the left are smaller, on the right larger.
pub open spec fn bst_ok(t: TreeV) -> bool
    decreases t,
{
    match t {
        TreeV::Nil => true,
        TreeV::Node { key, left, right, .. } => {
            &&& (forall|k: int| as_map(*left).dom().contains(k) ==> k < key)
            &&& (forall|k: int| as_map(*right).dom().contains(k) ==> k > key)
            &&& bst_ok(*left)
            &&& bst_ok(*right)
        },
    }
}

/// Every stored height field equals the subtree's true height.
pub open spec fn heights_ok(t: TreeV) -> bool
    decreases t,
{
    match t {
        TreeV::Nil => true,
        TreeV::Node { height, left, right, .. } => {
            &&& height == hgt(t)
            &&& heights_ok(*left)
            &&& heights_ok(*right)
        },
    }
}

/// Every node's children differ in height by at most one.
pub open spec fn balanced_ok(t: TreeV) -> bool
    decreases t,
{
    match t {
        TreeV::Nil => true,
        TreeV::Node { left, right, .. } => {
            &&& -1 <= hgt(*left) - hgt(*right) <= 1
            &&& balanced_ok(*left)
            &&& balanced_ok(*right)
        },
    }
}

/// All keys and values fit in 32-bit signed integers.
pub open spec fn ranges_ok(t: TreeV) -> bool
    decreases t,
{
    match t {
        TreeV::Nil => true,
        TreeV::Node { key, value, left, right, .. } => {
            &&& i32::MIN <= key <= i32::MAX
            &&& i32::MIN <= value <= i32::MAX
            &&& ranges_ok(*left)
            &&& ranges_ok(*right)
        },
    }
}

/// A well-formed AVL tree shape.
pub open spec fn wf_v(t: TreeV) -> bool {
    bst_ok(t) && heights_ok(t) && balanced_ok(t) && ranges_ok(t)
}

/// A node shape whose height field is recomputed from its subtrees.
pub open spec fn mk_v(key: int, value: int, l: TreeV, r: TreeV) -> TreeV {
    TreeV::Node {
        key,
        value,
        height: 1 + int_max(hgt(l), hgt(r)),
        left: Box::new(l),
        right: Box::new(r),
    }
}

/// The balance factor: left height minus right height.
pub open spec fn bal_v(t: TreeV) -> int {
    match t {
        TreeV::Nil => 0,
        TreeV::Node { left, right, .. } => hgt(*left) - hgt(*right),
    }
}

/// Left rotation: the right child becomes the top.
pub open spec fn rotate_left_v(t: TreeV) -> TreeV {
    match t {
        TreeV::Node { key, value, left, right: r0, .. } => match *r0 {
            TreeV::Node { key: rk, value: rv, left: rl, right: rr, .. } => mk_v(
                rk,
                rv,
                mk_v(key, value, *left, *rl),
                *rr,
            ),
            TreeV::Nil => t,
        },
        TreeV::Nil => t,
    }
}

/// Right rotation: the left child becomes the top.
pub open spec fn rotate_right_v(t: TreeV) -> TreeV {
    match t {
        TreeV::Node { key, value, left: l0, right, .. } => match *l0 {
            TreeV::Node { key: lk, value: lv, left: ll, right: lr, .. } => mk_v(
                lk,
                lv,
                *ll,
                mk_v(key, value, *lr, *right),
            ),
            TreeV::Nil => t,
        },
        TreeV::Nil => t,
    }
}

/// Double rotation for a right-heavy node whose right child leans left.
pub open spec fn rotate_right_left_v(t: TreeV) -> TreeV {
    match t {
        TreeV::Node { key, value, height, left, right } => rotate_left_v(
            TreeV::Node { key, value, height, left, right: Box::new(rotate_right_v(*right)) },
        ),
        TreeV::Nil => t,
    }
}

/// Double rotation for a left-heavy node whose left child leans right.
pub open spec fn rotate_left_right_v(t: TreeV) -> TreeV {
    match t {
        TreeV::Node { key, value, height, left, right } => rotate_right_v(
            TreeV::Node { key, value, height, left: Box::new(rotate_left_v(*left)), right },
        ),
        TreeV::Nil => t,
    }
}

/// Recompute this node's height and apply whichever rotation the balance
/// factors call for.
pub open spec fn balance_v(t: TreeV) -> TreeV {
    match t {
        TreeV::Nil => t,
        TreeV::Node { key, value, left, right, .. } => {
            let bf = hgt(*left) - hgt(*right);
            if bf < -1 {
                if bal_v(*right) > 0 {
                    rotate_right_left_v(t)
                } else {
                    rotate_left_v(t)
                }
            } else if bf > 1 {
                if bal_v(*left) < 0 {
                    rotate_left_right_v(t)
                } else {
                    rotate_right_v(t)
                }
            } else {
                mk_v(key, value, *left, *right)
            }
        },
    }
}

/// The AVL insertion algorithm on resolved tree shapes.
pub open spec fn avl_insert_v(t: TreeV, k: int, v: int) -> TreeV
    decreases t,
{
    match t {
        TreeV::Nil => TreeV::Node {
            key: k,
            value: v,
            height: 1,
            left: Box::new(TreeV::Nil),
            right: Box::new(TreeV::Nil),
        },
        TreeV::Node { key, value, height, left, right } => {
            if k < key {
                balance_v(
                    TreeV::Node {
                        key,
                        value,
                        height,
                        left: Box::new(avl_insert_v(*left, k, v)),
                        right,
                    },
                )
            } else if k > key {
                balance_v(
                    TreeV::Node {
                        key,
                        value,
                        height,
                        left,
                        right: Box::new(avl_insert_v(*right, k, v)),
                    },
                )
            } else {
                balance_v(TreeV::Node { key, value: v, height, left, right })
            }
        },
    }
}

/// Remove and return the smallest entry of a non-empty tree.
pub open spec fn delete_min_v(t: TreeV) -> (int, int, TreeV)
    decreases t,
{
    match t {
        TreeV::Nil => (0, 0, TreeV::Nil),
        TreeV::Node { key, value, height, left, right } => {
            if *left is Nil {
                (key, value, *right)
            } else {
                let (mk, mv, l2) = delete_min_v(*left);
                (
                    mk,
                    mv,
                    balance_v(TreeV::Node { key, value, height, left: Box::new(l2), right }),
                )
            }
        },
    }
}

/// The AVL deletion algorithm on resolved tree shapes, with successor
/// replacement when the deleted node has two children.
pub open spec fn avl_delete_v(t: TreeV, k: int) -> TreeV
    decreases t,
{
    match t {
        TreeV::Nil => TreeV::Nil,
        TreeV::Node { key, value, height, left, right } => {
            if k < key {
                balance_v(
                    TreeV::Node {
                        key,
                        value,
                        height,
                        left: Box::new(avl_delete_v(*left, k)),
                        right,
                    },
                )
            } else if k > key {
                balance_v(
                    TreeV::Node {
                        key,
                        value,
                        height,
                        left,
                        right: Box::new(avl_delete_v(*right, k)),
                    },
                )
            } else {
                if *left is Nil {
                    *right
                } else if *right is Nil {
                    *left
                } else {
                    let (sk, sv, r2) = delete_min_v(*right);
                    balance_v(
                        TreeV::Node { key: sk, value: sv, height, left, right: Box::new(r2) },
                    )
                }
            }
        },
    }
}

/// Build a node shape from its components, keeping the given height field.
pub open spec fn node_v(key: int, value: int, height: int, l: TreeV, r: TreeV) -> TreeV {
    TreeV::Node { key, value, height, left: Box::new(l), right: Box::new(r) }
}

/// What a node's clone looks like: the same entry, children and height, with
/// the memoized digest cleared.
pub open(crate) spec fn cloned_node(n: Node) -> Node {
    Node { hash: None, ..n }
}

/// The node a reference points at, if any: directly for in-memory nodes,
/// through the store contents for stored ones.
pub open(crate) spec fn ref_node(r: NodeRef, s: StoreContents) -> Option<Node> {
    match r {
        NodeRef::Empty => None,
        NodeRef::Inner(cell) => match *cell {
            NodeRefInner::MemNode(n) => Some(n),
            NodeRefInner::StoredNode { pointer } => if s.contains_key(pointer) {
                Some(s[pointer].1)
            } else {
                None
            },
        },
    }
}

impl Node {
    /// Clone this node: the entry, children and height carry over; the
    /// memoized digest starts out empty, as a clone's subtree may change.
    pub fn clone_node(&self) -> (r: Node)
        ensures
            r == cloned_node(*self),
    {
        Node {
            key: self.key.clone(),
            value: self.value.clone(),
            left: self.left.clone(),
            right: self.right.clone(),
            height: self.height,
            hash: None,
        }
    }
}

impl Clone for Node {
    /// Clones carry the entry and children; the memoized digest is cleared.
    fn clone(&self) -> (r: Self)
        ensures
            r == cloned_node(*self),
    {
        self.clone_node()
    }
}

/// Resolve one node against store contents: both children must resolve.
pub open(crate) spec fn resolve_node(n: Node, s: StoreContents, bound: nat) -> Option<TreeV> {
    match (resolve_ref(n.left, s, bound), resolve_ref(n.right, s, bound)) {
        (Some(l), Some(rt)) => Some(node_shape(n, l, rt)),
        _ => None,
    }
}

/// The bound below which a reference's own node resolves: a stored node's
/// children resolve below its pointer, an in-memory node's below the given
/// bound.
pub open(crate) spec fn ref_bound(r: NodeRef, bound: nat) -> nat {
    match r {
        NodeRef::Inner(cell) => match *cell {
            NodeRefInner::StoredNode { pointer } => pointer as nat,
            NodeRefInner::MemNode(_) => bound,
        },
        NodeRef::Empty => bound,
    }
}

/// A memoized digest, when present, is the Merkle digest of the subtree the
/// node resolves to.
pub open(crate) spec fn node_memo_ok(n: Node, s: StoreContents, bound: nat) -> bool {
    match n.hash {
        Some(d) => resolve_node(n, s, bound) matches Some(t) && d@ == crate::hash::tree_digest(t),
        None => true,
    }
}

/// Every memoized digest along the in-memory part of a reference is valid.
/// Stored nodes are exempt: they are always read back with a cleared memo.
pub open(crate) spec fn memos_ok(r: NodeRef, s: StoreContents, bound: nat) -> bool
    decreases r,
{
    match r {
        NodeRef::Empty => true,
        NodeRef::Inner(cell) => match *cell {
            NodeRefInner::MemNode(n) => node_memo_ok(n, s, bound) && memos_ok(n.left, s, bound)
                && memos_ok(n.right, s, bound),
            NodeRefInner::StoredNode { .. } => true,
        },
    }
}

/// A child reference of a stored node: empty, or stored at a strictly
/// smaller pointer that is itself live.
pub open(crate) spec fn ref_stored_below(r: NodeRef, p: u64, s: StoreContents) -> bool {
    match r {
        NodeRef::Empty => true,
        NodeRef::Inner(cell) => match *cell {
            NodeRefInner::MemNode(_) => false,
            NodeRefInner::StoredNode { pointer } => pointer < p && s.contains_key(pointer),
        },
    }
}

/// Every stored node's children are themselves stored, below the parent's
/// pointer. Saving children bottom-up maintains this.
pub open(crate) spec fn store_ok(s: StoreContents) -> bool {
    forall|p: u64| #[trigger]
        s.contains_key(p) ==> ref_stored_below(s[p].1.left, p, s) && ref_stored_below(
            s[p].1.right,
            p,
            s,
        )
}

/// A reference, together with a store, is a well-formed tree: it resolves,
/// the resolved shape is a valid AVL tree, and all memoized digests on its
/// in-memory nodes are valid.
pub open(crate) spec fn ref_wf(r: NodeRef, s: StoreContents, bound: nat) -> bool {
    &&& resolve_ref(r, s, bound) is Some
    &&& wf_v(resolve_ref(r, s, bound).unwrap())
    &&& memos_ok(r, s, bound)
}

/// The leaf node a fresh entry is wrapped in.
pub open(crate) spec fn leaf_node(key: Int32BigEndian, value: Int32BigEndian) -> Node {
    Node { key, value, left: NodeRef::Empty, right: NodeRef::Empty, height: 1, hash: None }
}

impl Node {
    /// A fresh leaf node holding the given entry.
    pub fn new_node(key: Int32BigEndian, value: Int32BigEndian) -> (r: Node)
        ensures
            r == leaf_node(key, value),
    {
        Node { key, value, left: NodeRef::Empty, right: NodeRef::Empty, height: 1, hash: None }
    }

    /// The height recorded on an optional node: zero when there is none.
    pub(crate) fn get_height(mnode: &Option<Node>) -> (r: i64)
        ensures
            r == match mnode {
                Some(n) => n.height,
                None => 0,
            },
    {
        match mnode {
            Some(node) => node.height,
            None => 0,
        }
    }
}

/// The height of the subtree a reference resolves to, read from the
/// referenced node's height field.
fn height_of<S: NodeStore<Node>>(r: &NodeRef, mgr: &mut NodeManager<S>) -> (res: Result<
    i64,
    Error,
>)
    requires
        old(mgr).wf(),
        resolve_ref(*r, old(mgr).contents(), old(mgr).bound()) is Some,
        heights_ok(resolve_ref(*r, old(mgr).contents(), old(mgr).bound()).unwrap()),
    ensures
        final(mgr).wf(),
        final(mgr).contents() == old(mgr).contents(),
        final(mgr).bound() == old(mgr).bound(),
        res matches Ok(h) && h == hgt(
            resolve_ref(*r, old(mgr).contents(), old(mgr).bound()).unwrap(),
        ),
{
    let ghost s = old(mgr).contents();
    let ghost b = old(mgr).bound();
    let ghost t = resolve_ref(*r, s, b).unwrap();
    proof {
        crate::avl_lemmas::lemma_resolve_unfold(*r, s, b);
    }
    match mgr.read(r) {
        Ok(None) => Ok(0),
        Ok(Some(n)) => {
            proof {
                let m = ref_node(*r, s).unwrap();
                crate::avl_lemmas::lemma_resolve_node_unfold(m, s, ref_bound(*r, b));
            }
            Ok(n.height)
        },
        Err(e) => {
            proof {
                assert(false);
            }
            Err(e)
        },
    }
}

/// Build a node over two resolved subtrees, recomputing its height; the
/// memoized digest starts out empty.
fn mk_node<S: NodeStore<Node>>(
    key: Int32BigEndian,
    value: Int32BigEndian,
    left: NodeRef,
    right: NodeRef,
    mgr: &mut NodeManager<S>,
) -> (res: Result<Node, Error>)
    requires
        old(mgr).wf(),
        resolve_ref(left, old(mgr).contents(), old(mgr).bound()) is Some,
        resolve_ref(right, old(mgr).contents(), old(mgr).bound()) is Some,
        ({
            let lt = resolve_ref(left, old(mgr).contents(), old(mgr).bound()).unwrap();
            let rt = resolve_ref(right, old(mgr).contents(), old(mgr).bound()).unwrap();
            heights_ok(lt) && heights_ok(rt) && bst_ok(lt) && bst_ok(rt) && ranges_ok(lt)
                && ranges_ok(rt)
        }),
    ensures
        final(mgr).wf(),
        final(mgr).contents() == old(mgr).contents(),
        final(mgr).bound() == old(mgr).bound(),
        ({
            let lt = resolve_ref(left, old(mgr).contents(), old(mgr).bound()).unwrap();
            let rt = resolve_ref(right, old(mgr).contents(), old(mgr).bound()).unwrap();
            res matches Ok(n) && n == (Node {
                key,
                value,
                left,
                right,
                height: (1 + int_max(hgt(lt), hgt(rt))) as i64,
                hash: None,
            }) && resolve_node(n, old(mgr).contents(), old(mgr).bound()) == Some(
                mk_v(key.0 as int, value.0 as int, lt, rt),
            )
        }),
{
    let ghost s = old(mgr).contents();
    let ghost b = old(mgr).bound();
    let ghost lt = resolve_ref(left, s, b).unwrap();
    let ghost rt = resolve_ref(right, s, b).unwrap();
    proof {
        crate::avl_lemmas::lemma_height_bound(lt);
        crate::avl_lemmas::lemma_height_bound(rt);
    }
    let lh = match height_of(&left, mgr) {
        Ok(h) => h,
        Err(e) => { return Err(e) },
    };
    let rh = match height_of(&right, mgr) {
        Ok(h) => h,
        Err(e) => { return Err(e) },
    };
    let height: i64 = if lh >= rh {
        lh + 1
    } else {
        rh + 1
    };
    let n = Node { key, value, left, right, height, hash: None };
    Ok(n)
}

/// The preconditions a node must meet before it is rebalanced: an ordered,
/// in-range shape whose subtrees carry exact heights.
pub open(crate) spec fn rotate_pre(t: TreeV) -> bool {
    &&& t is Node
    &&& bst_ok(t)
    &&& ranges_ok(t)
    &&& heights_ok(*t->left)
    &&& heights_ok(*t->right)
}

/// Rotate left: the right child becomes the new top. The right child must
/// exist.
fn rotate_left<S: NodeStore<Node>>(node: Node, mgr: &mut NodeManager<S>) -> (res: Result<
    Node,
    Error,
>)
    requires
        old(mgr).wf(),
        store_ok(old(mgr).contents()),
        resolve_node(node, old(mgr).contents(), old(mgr).bound()) is Some,
        rotate_pre(resolve_node(node, old(mgr).contents(), old(mgr).bound()).unwrap()),
        !(*resolve_node(node, old(mgr).contents(), old(mgr).bound()).unwrap()->right is Nil),
        memos_ok(node.left, old(mgr).contents(), old(mgr).bound()),
        memos_ok(node.right, old(mgr).contents(), old(mgr).bound()),
    ensures
        final(mgr).wf(),
        final(mgr).contents() == old(mgr).contents(),
        final(mgr).bound() == old(mgr).bound(),
        ({
            let t = resolve_node(node, old(mgr).contents(), old(mgr).bound()).unwrap();
            res matches Ok(n2) && resolve_node(n2, old(mgr).contents(), old(mgr).bound()) == Some(
                rotate_left_v(t),
            ) && n2.hash is None && memos_ok(n2.left, old(mgr).contents(), old(mgr).bound())
                && memos_ok(n2.right, old(mgr).contents(), old(mgr).bound())
        }),
{
    let ghost s = old(mgr).contents();
    let ghost b = old(mgr).bound();
    let ghost t = resolve_node(node, s, b).unwrap();
    let ghost rt = *t->right;
    proof {
        crate::avl_lemmas::lemma_resolve_node_unfold(node, s, b);
        crate::avl_lemmas::lemma_resolve_unfold(node.right, s, b);
        crate::avl_lemmas::lemma_hgt_nonneg(rt);
    }
    let r_node = match mgr.read(&node.right) {
        Ok(Some(n)) => n,
        Ok(None) => {
            proof {
                assert(false);
            }
            return Err(Error::Invariant);
        },
        Err(e) => {
            proof {
                assert(false);
            }
            return Err(e);
        },
    };
    proof {
        crate::avl_lemmas::lemma_loaded(node.right, s, b, r_node);
        crate::avl_lemmas::lemma_node_parts(t->key, t->value, t->height, *t->left, rt);
        crate::avl_lemmas::lemma_node_parts(rt->key, rt->value, rt->height, *rt->left, *rt->right);
        assert(rt =~= node_v(rt->key, rt->value, rt->height, *rt->left, *rt->right));
        assert(heights_ok(*rt->left) && heights_ok(*rt->right)) by {
            assert(heights_ok(rt));
        }
        assert(t =~= node_v(t->key, t->value, t->height, *t->left, rt));
        crate::avl_lemmas::lemma_rotate_left(t->key, t->value, t->height, *t->left, rt);
        assert(bst_ok(rotate_left_v(t)) && heights_ok(rotate_left_v(t)) && ranges_ok(
            rotate_left_v(t),
        ));
        assert(rotate_left_v(t) == mk_v(
            rt->key,
            rt->value,
            mk_v(t->key, t->value, *t->left, *rt->left),
            *rt->right,
        ));
        assert(bst_ok(mk_v(t->key, t->value, *t->left, *rt->left)) && ranges_ok(
            mk_v(t->key, t->value, *t->left, *rt->left),
        ) && heights_ok(mk_v(t->key, t->value, *t->left, *rt->left)));
    }
    let Node { key, value, left, right: _, height: _, hash: _ } = node;
    let Node { key: rk, value: rv, left: rl, right: rr, height: _, hash: _ } = r_node;
    let inner = match mk_node(key, value, left, rl, mgr) {
        Ok(n) => n,
        Err(e) => { return Err(e) },
    };
    let inner_ref = NodeRef::new(inner);
    proof {
        assert(resolve_ref(inner_ref, s, b) == resolve_node(inner, s, b));
        assert(memos_ok(inner_ref, s, b));
    }
    let top = match mk_node(rk, rv, inner_ref, rr, mgr) {
        Ok(n) => n,
        Err(e) => { return Err(e) },
    };
    proof {
        assert(rotate_left_v(t) == mk_v(rt->key, rt->value, mk_v(t->key, t->value, *t->left, *rt->left), *rt->right));
    }
    Ok(top)
}

/// Rotate right: the left child becomes the new top. The left child must
/// exist.
fn rotate_right<S: NodeStore<Node>>(node: Node, mgr: &mut NodeManager<S>) -> (res: Result<
    Node,
    Error,
>)
    requires
        old(mgr).wf(),
        store_ok(old(mgr).contents()),
        resolve_node(node, old(mgr).contents(), old(mgr).bound()) is Some,
        rotate_pre(resolve_node(node, old(mgr).contents(), old(mgr).bound()).unwrap()),
        !(*resolve_node(node, old(mgr).contents(), old(mgr).bound()).unwrap()->left is Nil),
        memos_ok(node.left, old(mgr).contents(), old(mgr).bound()),
        memos_ok(node.right, old(mgr).contents(), old(mgr).bound()),
    ensures
        final(mgr).wf(),
        final(mgr).contents() == old(mgr).contents(),
        final(mgr).bound() == old(mgr).bound(),
        ({
            let t = resolve_node(node, old(mgr).contents(), old(mgr).bound()).unwrap();
            res matches Ok(n2) && resolve_node(n2, old(mgr).contents(), old(mgr).bound()) == Some(
                rotate_right_v(t),
            ) && n2.hash is None && memos_ok(n2.left, old(mgr).contents(), old(mgr).bound())
                && memos_ok(n2.right, old(mgr).contents(), old(mgr).bound())
        }),
{
    let ghost s = old(mgr).contents();
    let ghost b = old(mgr).bound();
    let ghost t = resolve_node(node, s, b).unwrap();
    let ghost lt = *t->left;
    proof {
        crate::avl_lemmas::lemma_resolve_node_unfold(node, s, b);
        crate::avl_lemmas::lemma_resolve_unfold(node.left, s, b);
        crate::avl_lemmas::lemma_hgt_nonneg(lt);
    }
    let l_node = match mgr.read(&node.left) {
        Ok(Some(n)) => n,
        Ok(None) => {
            proof {
                assert(false);
            }
            return Err(Error::Invariant);
        },
        Err(e) => {
            proof {
                assert(false);
            }
            return Err(e);
        },
    };
    proof {
        crate::avl_lemmas::lemma_loaded(node.left, s, b, l_node);
        crate::avl_lemmas::lemma_node_parts(t->key, t->value, t->height, lt, *t->right);
        crate::avl_lemmas::lemma_node_parts(lt->key, lt->value, lt->height, *lt->left, *lt->right);
        assert(lt =~= node_v(lt->key, lt->value, lt->height, *lt->left, *lt->right));
        assert(heights_ok(*lt->left) && heights_ok(*lt->right)) by {
            assert(heights_ok(lt));
        }
        assert(t =~= node_v(t->key, t->value, t->height, lt, *t->right));
        crate::avl_lemmas::lemma_rotate_right(t->key, t->value, t->height, lt, *t->right);
        assert(bst_ok(rotate_right_v(t)) && heights_ok(rotate_right_v(t)) && ranges_ok(
            rotate_right_v(t),
        ));
        assert(rotate_right_v(t) == mk_v(
            lt->key,
            lt->value,
            *lt->left,
            mk_v(t->key, t->value, *lt->right, *t->right),
        ));
        assert(bst_ok(mk_v(t->key, t->value, *lt->right, *t->right)) && ranges_ok(
            mk_v(t->key, t->value, *lt->right, *t->right),
        ) && heights_ok(mk_v(t->key, t->value, *lt->right, *t->right)));
    }
    let Node { key, value, left: _, right, height: _, hash: _ } = node;
    let Node { key: lk, value: lv, left: ll, right: lr, height: _, hash: _ } = l_node;
    let inner = match mk_node(key, value, lr, right, mgr) {
        Ok(n) => n,
        Err(e) => { return Err(e) },
    };
    let inner_ref = NodeRef::new(inner);
    proof {
        assert(resolve_ref(inner_ref, s, b) == resolve_node(inner, s, b));
        assert(memos_ok(inner_ref, s, b));
    }
    let top = match mk_node(lk, lv, ll, inner_ref, mgr) {
        Ok(n) => n,
        Err(e) => { return Err(e) },
    };
    proof {
        assert(rotate_right_v(t) == mk_v(lt->key, lt->value, *lt->left, mk_v(t->key, t->value, *lt->right, *t->right)));
    }
    Ok(top)
}

/// Recompute this node's balance factor and apply whichever rotation the
/// balance factors call for, recomputing heights along the way.
fn balance<S: NodeStore<Node>>(node: Node, mgr: &mut NodeManager<S>) -> (res: Result<Node, Error>)
    requires
        old(mgr).wf(),
        store_ok(old(mgr).contents()),
        resolve_node(node, old(mgr).contents(), old(mgr).bound()) is Some,
        ({
            let t = resolve_node(node, old(mgr).contents(), old(mgr).bound()).unwrap();
            &&& rotate_pre(t)
            &&& balanced_ok(*t->left)
            &&& balanced_ok(*t->right)
            &&& -2 <= hgt(*t->left) - hgt(*t->right) <= 2
        }),
        memos_ok(node.left, old(mgr).contents(), old(mgr).bound()),
        memos_ok(node.right, old(mgr).contents(), old(mgr).bound()),
    ensures
        final(mgr).wf(),
        final(mgr).contents() == old(mgr).contents(),
        final(mgr).bound() == old(mgr).bound(),
        ({
            let t = resolve_node(node, old(mgr).contents(), old(mgr).bound()).unwrap();
            res matches Ok(n2) && resolve_node(n2, old(mgr).contents(), old(mgr).bound()) == Some(
                balance_v(t),
            ) && n2.hash is None && memos_ok(n2.left, old(mgr).contents(), old(mgr).bound())
                && memos_ok(n2.right, old(mgr).contents(), old(mgr).bound())
        }),
{
    let ghost s = old(mgr).contents();
    let ghost b = old(mgr).bound();
    let ghost t = resolve_node(node, s, b).unwrap();
    proof {
        crate::avl_lemmas::lemma_resolve_node_unfold(node, s, b);
        crate::avl_lemmas::lemma_hgt_nonneg(*t->left);
        crate::avl_lemmas::lemma_hgt_nonneg(*t->right);
        assert(t =~= node_v(t->key, t->value, t->height, *t->left, *t->right));
        crate::avl_lemmas::lemma_node_parts(t->key, t->value, t->height, *t->left, *t->right);
    }
    let lh = match height_of(&node.left, mgr) {
        Ok(h) => h,
        Err(e) => { return Err(e) },
    };
    let rh = match height_of(&node.right, mgr) {
        Ok(h) => h,
        Err(e) => { return Err(e) },
    };
    if lh - rh < -1 {
        // Right-heavy: the right child exists and decides the rotation.
        let ghost rt = *t->right;
        proof {
            crate::avl_lemmas::lemma_resolve_unfold(node.right, s, b);
        }
        let r_node = match mgr.read(&node.right) {
            Ok(Some(n)) => n,
            Ok(None) => {
                proof {
                    assert(false);
                }
                return Err(Error::Invariant);
            },
            Err(e) => {
                proof {
                    assert(false);
                }
                return Err(e);
            },
        };
        proof {
            crate::avl_lemmas::lemma_loaded(node.right, s, b, r_node);
            assert(heights_ok(*rt->left) && heights_ok(*rt->right)) by {
                assert(heights_ok(rt));
            }
        }
        let rlh = match height_of(&r_node.left, mgr) {
            Ok(h) => h,
            Err(e) => { return Err(e) },
        };
        let rrh = match height_of(&r_node.right, mgr) {
            Ok(h) => h,
            Err(e) => { return Err(e) },
        };
        if rlh - rrh > 0 {
            // The right child leans left: double rotation.
            proof {
                assert(bal_v(rt) == rlh - rrh);
                crate::avl_lemmas::lemma_hgt_nonneg(*rt->right);
                crate::avl_lemmas::lemma_node_parts(
                    rt->key,
                    rt->value,
                    rt->height,
                    *rt->left,
                    *rt->right,
                );
                assert(rt =~= node_v(rt->key, rt->value, rt->height, *rt->left, *rt->right));
            }
            let r2 = match rotate_right(r_node, mgr) {
                Ok(n) => n,
                Err(e) => { return Err(e) },
            };
            let r2_ref = NodeRef::new(r2);
            proof {
                assert(resolve_ref(r2_ref, s, b) == resolve_node(r2, s, b));
                assert(memos_ok(r2_ref, s, b));
                crate::avl_lemmas::lemma_rotate_right(
                    rt->key,
                    rt->value,
                    rt->height,
                    *rt->left,
                    *rt->right,
                );
            }
            let Node { key, value, left, right: _, height, hash: _ } = node;
            let node2 = Node { key, value, left, right: r2_ref, height, hash: None };
            proof {
                assert(resolve_node(node2, s, b) matches Some(t2) && t2 == node_shape(
                    node2,
                    *t->left,
                    rotate_right_v(rt),
                ));
                let t2 = resolve_node(node2, s, b).unwrap();
                assert(as_map(rotate_right_v(rt)) == as_map(rt));
                assert(bst_ok(t2) && ranges_ok(t2)) by {
                    assert(as_map(rotate_right_v(rt)).dom() =~= as_map(rt).dom());
                }
                assert(!(rotate_right_v(rt) is Nil)) by {
                    crate::avl_lemmas::lemma_hgt_nonneg(*rt->left);
                }
                assert(rotate_right_left_v(t) == rotate_left_v(t2));
            }
            rotate_left(node2, mgr)
        } else {
            proof {
                assert(bal_v(rt) == rlh - rrh);
                assert(balance_v(t) == rotate_left_v(t));
            }
            rotate_left(node, mgr)
        }
    } else if lh - rh > 1 {
        // Left-heavy: mirror image.
        let ghost lt = *t->left;
        proof {
            crate::avl_lemmas::lemma_resolve_unfold(node.left, s, b);
        }
        let l_node = match mgr.read(&node.left) {
            Ok(Some(n)) => n,
            Ok(None) => {
                proof {
                    assert(false);
                }
                return Err(Error::Invariant);
            },
            Err(e) => {
                proof {
                    assert(false);
                }
                return Err(e);
            },
        };
        proof {
            crate::avl_lemmas::lemma_loaded(node.left, s, b, l_node);
            assert(heights_ok(*lt->left) && heights_ok(*lt->right)) by {
                assert(heights_ok(lt));
            }
        }
        let llh = match height_of(&l_node.left, mgr) {
            Ok(h) => h,
            Err(e) => { return Err(e) },
        };
        let lrh = match height_of(&l_node.right, mgr) {
            Ok(h) => h,
            Err(e) => { return Err(e) },
        };
        if llh - lrh < 0 {
            // The left child leans right: double rotation.
            proof {
                assert(bal_v(lt) == llh - lrh);
                crate::avl_lemmas::lemma_hgt_nonneg(*lt->left);
                crate::avl_lemmas::lemma_node_parts(
                    lt->key,
                    lt->value,
                    lt->height,
                    *lt->left,
                    *lt->right,
                );
                assert(lt =~= node_v(lt->key, lt->value, lt->height, *lt->left, *lt->right));
            }
            let l2 = match rotate_left(l_node, mgr) {
                Ok(n) => n,
                Err(e) => { return Err(e) },
            };
            let l2_ref = NodeRef::new(l2);
            proof {
                assert(resolve_ref(l2_ref, s, b) == resolve_node(l2, s, b));
                assert(memos_ok(l2_ref, s, b));
                crate::avl_lemmas::lemma_rotate_left(
                    lt->key,
                    lt->value,
                    lt->height,
                    *lt->left,
                    *lt->right,
                );
            }
            let Node { key, value, left: _, right, height, hash: _ } = node;
            let node2 = Node { key, value, left: l2_ref, right, height, hash: None };
            proof {
                assert(resolve_node(node2, s, b) matches Some(t2) && t2 == node_shape(
                    node2,
                    rotate_left_v(lt),
                    *t->right,
                ));
                let t2 = resolve_node(node2, s, b).unwrap();
                assert(as_map(rotate_left_v(lt)) == as_map(lt));
                assert(bst_ok(t2) && ranges_ok(t2)) by {
                    assert(as_map(rotate_left_v(lt)).dom() =~= as_map(lt).dom());
                }
                assert(!(rotate_left_v(lt) is Nil)) by {
                    crate::avl_lemmas::lemma_hgt_nonneg(*lt->right);
                }
                assert(rotate_left_right_v(t) == rotate_right_v(t2));
            }
            rotate_right(node2, mgr)
        } else {
            proof {
                assert(bal_v(lt) == llh - lrh);
                assert(balance_v(t) == rotate_right_v(t));
            }
            rotate_right(node, mgr)
        }
    } else {
        let Node { key, value, left, right, height: _, hash: _ } = node;
        mk_node(key, value, left, right, mgr)
    }
}

impl Node {
    /// Insert an entry below a node reference, rebalancing on the way back
    /// up, and return the reference to the new subtree. When `editable` is
    /// true and a node is not shared, it is reused in place of a clone.
    pub(crate) fn insert<S: NodeStore<Node>>(
        node_ref: NodeRef,
        key: Int32BigEndian,
        value: Int32BigEndian,
        mgr: &mut NodeManager<S>,
        editable: bool,
    ) -> (res: Result<NodeRef, Error>)
        requires
            old(mgr).wf(),
            store_ok(old(mgr).contents()),
            ref_wf(node_ref, old(mgr).contents(), old(mgr).bound()),
        ensures
            final(mgr).wf(),
            final(mgr).contents() == old(mgr).contents(),
            final(mgr).bound() == old(mgr).bound(),
            ({
                let t = resolve_ref(node_ref, old(mgr).contents(), old(mgr).bound()).unwrap();
                res matches Ok(r2) && resolve_ref(r2, old(mgr).contents(), old(mgr).bound())
                    == Some(avl_insert_v(t, key.0 as int, value.0 as int)) && memos_ok(
                    r2,
                    old(mgr).contents(),
                    old(mgr).bound(),
                )
            }),
        decreases hgt(resolve_ref(node_ref, old(mgr).contents(), old(mgr).bound()).unwrap()),
    {
        let ghost s = old(mgr).contents();
        let ghost b = old(mgr).bound();
        let ghost t = resolve_ref(node_ref, s, b).unwrap();
        let ghost r0 = node_ref;
        proof {
            crate::avl_lemmas::lemma_resolve_unfold(node_ref, s, b);
            crate::avl_lemmas::lemma_hgt_nonneg(t);
        }
        match mgr.take_or_clone(node_ref, editable) {
            Ok(None) => {
                let n = Node::new_node(key, value);
                let r2 = NodeRef::new(n);
                proof {
                    assert(t == TreeV::Nil);
                    assert(resolve_ref(r2, s, b) == resolve_node(n, s, b));
                    assert(resolve_node(n, s, b) == Some(
                        avl_insert_v(t, key.0 as int, value.0 as int),
                    ));
                    assert(memos_ok(r2, s, b));
                }
                Ok(r2)
            },
            Ok(Some((node, owned))) => {
                proof {
                    crate::avl_lemmas::lemma_loaded(r0, s, b, node);
                    crate::avl_lemmas::lemma_insert_step(t, key.0 as int, value.0 as int);
                    crate::avl_lemmas::lemma_sub_parts(t);
                }
                if key.0 < node.key.0 {
                    let Node { key: k0, value: v0, left, right, height, hash: _ } = node;
                    let left2 = match Node::insert(left, key, value, mgr, owned) {
                        Ok(r) => r,
                        Err(e) => { return Err(e) },
                    };
                    let node2 = Node { key: k0, value: v0, left: left2, right, height, hash: None };
                    proof {
                        let l2 = avl_insert_v(*t->left, key.0 as int, value.0 as int);
                        assert(resolve_node(node2, s, b) == Some(
                            node_v(t->key, t->value, t->height, l2, *t->right),
                        ));
                    }
                    let n3 = match balance(node2, mgr) {
                        Ok(n) => n,
                        Err(e) => { return Err(e) },
                    };
                    let r2 = NodeRef::new(n3);
                    proof {
                        assert(resolve_ref(r2, s, b) == resolve_node(n3, s, b));
                        assert(memos_ok(r2, s, b));
                    }
                    Ok(r2)
                } else if key.0 > node.key.0 {
                    let Node { key: k0, value: v0, left, right, height, hash: _ } = node;
                    let right2 = match Node::insert(right, key, value, mgr, owned) {
                        Ok(r) => r,
                        Err(e) => { return Err(e) },
                    };
                    let node2 = Node {
                        key: k0,
                        value: v0,
                        left,
                        right: right2,
                        height,
                        hash: None,
                    };
                    proof {
                        let rr2 = avl_insert_v(*t->right, key.0 as int, value.0 as int);
                        assert(resolve_node(node2, s, b) == Some(
                            node_v(t->key, t->value, t->height, *t->left, rr2),
                        ));
                    }
                    let n3 = match balance(node2, mgr) {
                        Ok(n) => n,
                        Err(e) => { return Err(e) },
                    };
                    let r2 = NodeRef::new(n3);
                    proof {
                        assert(resolve_ref(r2, s, b) == resolve_node(n3, s, b));
                        assert(memos_ok(r2, s, b));
                    }
                    Ok(r2)
                } else {
                    let Node { key: k0, value: _, left, right, height, hash: _ } = node;
                    let node2 = Node { key: k0, value, left, right, height, hash: None };
                    proof {
                        assert(resolve_node(node2, s, b) == Some(
                            node_v(t->key, value.0 as int, t->height, *t->left, *t->right),
                        ));
                    }
                    let n3 = match balance(node2, mgr) {
                        Ok(n) => n,
                        Err(e) => { return Err(e) },
                    };
                    let r2 = NodeRef::new(n3);
                    proof {
                        assert(resolve_ref(r2, s, b) == resolve_node(n3, s, b));
                        assert(memos_ok(r2, s, b));
                    }
                    Ok(r2)
                }
            },
            Err(e) => {
                proof {
                    assert(false);
                }
                Err(e)
            },
        }
    }
}

impl Node {
    /// Look the key up in the subtree this node roots, returning a copy of
    /// its value.
    pub(crate) fn get<S: NodeStore<Node>>(
        &self,
        key: &Int32BigEndian,
        mgr: &mut NodeManager<S>,
    ) -> (res: Result<Option<Int32BigEndian>, Error>)
        requires
            old(mgr).wf(),
            store_ok(old(mgr).contents()),
            resolve_node(*self, old(mgr).contents(), old(mgr).bound()) is Some,
            bst_ok(resolve_node(*self, old(mgr).contents(), old(mgr).bound()).unwrap()),
            ranges_ok(resolve_node(*self, old(mgr).contents(), old(mgr).bound()).unwrap()),
            memos_ok(self.left, old(mgr).contents(), old(mgr).bound()),
            memos_ok(self.right, old(mgr).contents(), old(mgr).bound()),
        ensures
            final(mgr).wf(),
            final(mgr).contents() == old(mgr).contents(),
            final(mgr).bound() == old(mgr).bound(),
            ({
                let t = resolve_node(*self, old(mgr).contents(), old(mgr).bound()).unwrap();
                res matches Ok(o) && o == (if as_map(t).dom().contains(key.0 as int) {
                    Some(Int32BigEndian(as_map(t)[key.0 as int] as i32))
                } else {
                    None::<Int32BigEndian>
                })
            }),
        decreases hgt(resolve_node(*self, old(mgr).contents(), old(mgr).bound()).unwrap()),
    {
        let ghost s = old(mgr).contents();
        let ghost b = old(mgr).bound();
        let ghost t = resolve_node(*self, s, b).unwrap();
        let ghost k = key.0 as int;
        proof {
            crate::avl_lemmas::lemma_resolve_node_unfold(*self, s, b);
            assert(t =~= node_v(t->key, t->value, t->height, *t->left, *t->right));
            crate::avl_lemmas::lemma_node_parts(t->key, t->value, t->height, *t->left, *t->right);
            crate::avl_lemmas::lemma_node_map(t->key, t->value, t->height, *t->left, *t->right);
            crate::avl_lemmas::lemma_hgt_nonneg(*t->left);
            crate::avl_lemmas::lemma_hgt_nonneg(*t->right);
        }
        if key.0 < self.key.0 {
            proof {
                assert(!as_map(*t->right).dom().contains(k));
                crate::avl_lemmas::lemma_resolve_unfold(self.left, s, b);
            }
            match mgr.read(&self.left) {
                Ok(None) => {
                    proof {
                        assert(as_map(*t->left).dom() =~= Set::<int>::empty());
                    }
                    Ok(None)
                },
                Ok(Some(left)) => {
                    proof {
                        crate::avl_lemmas::lemma_loaded(self.left, s, b, left);
                    }
                    left.get(key, mgr)
                },
                Err(e) => {
                    proof {
                        assert(false);
                    }
                    Err(e)
                },
            }
        } else if key.0 > self.key.0 {
            proof {
                assert(!as_map(*t->left).dom().contains(k));
                crate::avl_lemmas::lemma_resolve_unfold(self.right, s, b);
            }
            match mgr.read(&self.right) {
                Ok(None) => {
                    proof {
                        assert(as_map(*t->right).dom() =~= Set::<int>::empty());
                    }
                    Ok(None)
                },
                Ok(Some(right)) => {
                    proof {
                        crate::avl_lemmas::lemma_loaded(self.right, s, b, right);
                    }
                    right.get(key, mgr)
                },
                Err(e) => {
                    proof {
                        assert(false);
                    }
                    Err(e)
                },
            }
        } else {
            Ok(Some(self.value.clone()))
        }
    }

    /// Remove and return the smallest entry of the non-empty subtree behind
    /// a reference, rebalancing on the way back up.
    pub(crate) fn delete_min<S: NodeStore<Node>>(
        node_ref: NodeRef,
        mgr: &mut NodeManager<S>,
        editable: bool,
    ) -> (res: Result<(Int32BigEndian, Int32BigEndian, NodeRef), Error>)
        requires
            old(mgr).wf(),
            store_ok(old(mgr).contents()),
            ref_wf(node_ref, old(mgr).contents(), old(mgr).bound()),
            !(node_ref is Empty),
        ensures
            final(mgr).wf(),
            final(mgr).contents() == old(mgr).contents(),
            final(mgr).bound() == old(mgr).bound(),
            ({
                let t = resolve_ref(node_ref, old(mgr).contents(), old(mgr).bound()).unwrap();
                let (sk, sv, t2) = delete_min_v(t);
                res matches Ok(r) && r.0.0 as int == sk && r.1.0 as int == sv && resolve_ref(
                    r.2,
                    old(mgr).contents(),
                    old(mgr).bound(),
                ) == Some(t2) && memos_ok(r.2, old(mgr).contents(), old(mgr).bound())
            }),
        decreases hgt(resolve_ref(node_ref, old(mgr).contents(), old(mgr).bound()).unwrap()),
    {
        let ghost s = old(mgr).contents();
        let ghost b = old(mgr).bound();
        let ghost t = resolve_ref(node_ref, s, b).unwrap();
        let ghost r0 = node_ref;
        proof {
            crate::avl_lemmas::lemma_resolve_unfold(node_ref, s, b);
            crate::avl_lemmas::lemma_hgt_nonneg(t);
            crate::avl_lemmas::lemma_delete_min_step(t);
            crate::avl_lemmas::lemma_sub_parts(t);
        }
        match mgr.take_or_clone(node_ref, editable) {
            Ok(Some((node, owned))) => {
                proof {
                    crate::avl_lemmas::lemma_loaded(r0, s, b, node);
                    crate::avl_lemmas::lemma_resolve_unfold(node.left, s, b);
                }
                match &node.left {
                    NodeRef::Empty => {
                        let Node { key, value, left: _, right, height: _, hash: _ } = node;
                        Ok((key, value, right))
                    },
                    NodeRef::Inner(_) => {
                        let Node { key: k0, value: v0, left, right, height, hash: _ } = node;
                        let (sk, sv, left2) = match Node::delete_min(left, mgr, owned) {
                            Ok(r) => r,
                            Err(e) => { return Err(e) },
                        };
                        let node2 = Node {
                            key: k0,
                            value: v0,
                            left: left2,
                            right,
                            height,
                            hash: None,
                        };
                        proof {
                            let (gsk, gsv, l2) = delete_min_v(*t->left);
                            assert(resolve_node(node2, s, b) == Some(
                                node_v(t->key, t->value, t->height, l2, *t->right),
                            ));
                        }
                        let n3 = match balance(node2, mgr) {
                            Ok(n) => n,
                            Err(e) => { return Err(e) },
                        };
                        let r2 = NodeRef::new(n3);
                        proof {
                            assert(resolve_ref(r2, s, b) == resolve_node(n3, s, b));
                            assert(memos_ok(r2, s, b));
                        }
                        Ok((sk, sv, r2))
                    },
                }
            },
            Ok(None) => {
                proof {
                    assert(false);
                }
                Err(Error::Invariant)
            },
            Err(e) => {
                proof {
                    assert(false);
                }
                Err(e)
            },
        }
    }

    /// Delete an entry below a node reference, rebalancing on the way back
    /// up, and return the reference to the new subtree. A key that meets a
    /// node with two children is replaced by its in-order successor.
    pub(crate) fn delete<S: NodeStore<Node>>(
        node_ref: NodeRef,
        key: &Int32BigEndian,
        mgr: &mut NodeManager<S>,
        editable: bool,
    ) -> (res: Result<NodeRef, Error>)
        requires
            old(mgr).wf(),
            store_ok(old(mgr).contents()),
            ref_wf(node_ref, old(mgr).contents(), old(mgr).bound()),
        ensures
            final(mgr).wf(),
            final(mgr).contents() == old(mgr).contents(),
            final(mgr).bound() == old(mgr).bound(),
            ({
                let t = resolve_ref(node_ref, old(mgr).contents(), old(mgr).bound()).unwrap();
                res matches Ok(r2) && resolve_ref(r2, old(mgr).contents(), old(mgr).bound())
                    == Some(avl_delete_v(t, key.0 as int)) && memos_ok(
                    r2,
                    old(mgr).contents(),
                    old(mgr).bound(),
                )
            }),
        decreases hgt(resolve_ref(node_ref, old(mgr).contents(), old(mgr).bound()).unwrap()),
    {
        let ghost s = old(mgr).contents();
        let ghost b = old(mgr).bound();
        let ghost t = resolve_ref(node_ref, s, b).unwrap();
        let ghost r0 = node_ref;
        let ghost k = key.0 as int;
        proof {
            crate::avl_lemmas::lemma_resolve_unfold(node_ref, s, b);
            crate::avl_lemmas::lemma_hgt_nonneg(t);
        }
        match mgr.take_or_clone(node_ref, editable) {
            Ok(None) => {
                proof {
                    assert(t == TreeV::Nil);
                }
                Ok(NodeRef::Empty)
            },
            Ok(Some((node, owned))) => {
                proof {
                    crate::avl_lemmas::lemma_loaded(r0, s, b, node);
                    crate::avl_lemmas::lemma_delete_step(t, k);
                    crate::avl_lemmas::lemma_sub_parts(t);
                }
                if key.0 < node.key.0 {
                    let Node { key: k0, value: v0, left, right, height, hash: _ } = node;
                    let left2 = match Node::delete(left, key, mgr, owned) {
                        Ok(r) => r,
                        Err(e) => { return Err(e) },
                    };
                    let node2 = Node { key: k0, value: v0, left: left2, right, height, hash: None };
                    proof {
                        let l2 = avl_delete_v(*t->left, k);
                        assert(resolve_node(node2, s, b) == Some(
                            node_v(t->key, t->value, t->height, l2, *t->right),
                        ));
                    }
                    let n3 = match balance(node2, mgr) {
                        Ok(n) => n,
                        Err(e) => { return Err(e) },
                    };
                    let r2 = NodeRef::new(n3);
                    proof {
                        assert(resolve_ref(r2, s, b) == resolve_node(n3, s, b));
                        assert(memos_ok(r2, s, b));
                    }
                    Ok(r2)
                } else if key.0 > node.key.0 {
                    let Node { key: k0, value: v0, left, right, height, hash: _ } = node;
                    let right2 = match Node::delete(right, key, mgr, owned) {
                        Ok(r) => r,
                        Err(e) => { return Err(e) },
                    };
                    let node2 = Node {
                        key: k0,
                        value: v0,
                        left,
                        right: right2,
                        height,
                        hash: None,
                    };
                    proof {
                        let rr2 = avl_delete_v(*t->right, k);
                        assert(resolve_node(node2, s, b) == Some(
                            node_v(t->key, t->value, t->height, *t->left, rr2),
                        ));
                    }
                    let n3 = match balance(node2, mgr) {
                        Ok(n) => n,
                        Err(e) => { return Err(e) },
                    };
                    let r2 = NodeRef::new(n3);
                    proof {
                        assert(resolve_ref(r2, s, b) == resolve_node(n3, s, b));
                        assert(memos_ok(r2, s, b));
                    }
                    Ok(r2)
                } else {
                    proof {
                        crate::avl_lemmas::lemma_resolve_unfold(node.left, s, b);
                        crate::avl_lemmas::lemma_resolve_unfold(node.right, s, b);
                    }
                    match &node.left {
                        NodeRef::Empty => {
                            let Node { key: _, value: _, left: _, right, height: _, hash: _ } =
                                node;
                            Ok(right)
                        },
                        NodeRef::Inner(_) => {
                            match &node.right {
                                NodeRef::Empty => {
                                    let Node {
                                        key: _,
                                        value: _,
                                        left,
                                        right: _,
                                        height: _,
                                        hash: _,
                                    } = node;
                                    Ok(left)
                                },
                                NodeRef::Inner(_) => {
                                    let Node {
                                        key: _,
                                        value: _,
                                        left,
                                        right,
                                        height,
                                        hash: _,
                                    } = node;
                                    let (sk, sv, right2) = match Node::delete_min(
                                        right,
                                        mgr,
                                        owned,
                                    ) {
                                        Ok(r) => r,
                                        Err(e) => { return Err(e) },
                                    };
                                    let node2 = Node {
                                        key: sk,
                                        value: sv,
                                        left,
                                        right: right2,
                                        height,
                                        hash: None,
                                    };
                                    proof {
                                        let (gsk, gsv, rr2) = delete_min_v(*t->right);
                                        assert(resolve_node(node2, s, b) == Some(
                                            node_v(gsk, gsv, t->height, *t->left, rr2),
                                        ));
                                    }
                                    let n3 = match balance(node2, mgr) {
                                        Ok(n) => n,
                                        Err(e) => { return Err(e) },
                                    };
                                    let r2 = NodeRef::new(n3);
                                    proof {
                                        assert(resolve_ref(r2, s, b) == resolve_node(n3, s, b));
                                        assert(memos_ok(r2, s, b));
                                    }
                                    Ok(r2)
                                },
                            }
                        },
                    }
                }
            },
            Err(e) => {
                proof {
                    assert(false);
                }
                Err(e)
            },
        }
    }
}

/// What a stored pointer resolves to against given store contents.
pub open(crate) spec fn resolve_ptr(p: u64, s: StoreContents, bound: nat) -> Option<TreeV> {
    if p < bound && s.contains_key(p) {
        resolve_node(s[p].1, s, p as nat)
    } else {
        None
    }
}

/// One store grew out of another: every old pointer still holds the same
/// node (its reference count may differ), and every new pointer lies at or
/// above the old bound.
pub open(crate) spec fn store_grown(s1: StoreContents, s2: StoreContents, b1: nat) -> bool {
    &&& forall|p: u64| #[trigger]
        s1.contains_key(p) ==> s2.contains_key(p) && s2[p].1 == s1[p].1
    &&& forall|p: u64| #[trigger]
        s2.contains_key(p) ==> s1.contains_key(p) || p as nat >= b1
}

/// A persistent AVL tree: an ordered map from 32-bit keys to 32-bit values
/// whose nodes live behind node references.
pub struct Tree {
    pub(crate) root: NodeRef,
}

impl Tree {
    /// What this tree resolves to against a store, if anything.
    pub open(crate) spec fn tree_opt(&self, s: StoreContents, bound: nat) -> Option<TreeV> {
        resolve_ref(self.root, s, bound)
    }

    /// The tree shape this tree resolves to against a store.
    pub open(crate) spec fn tree(&self, s: StoreContents, bound: nat) -> TreeV {
        self.tree_opt(s, bound).unwrap()
    }

    /// The ordered map this tree represents against a store.
    pub open(crate) spec fn model(&self, s: StoreContents, bound: nat) -> Map<int, int> {
        as_map(self.tree(s, bound))
    }

    /// This tree is a well-formed AVL tree against a store.
    pub open(crate) spec fn wf(&self, s: StoreContents, bound: nat) -> bool {
        ref_wf(self.root, s, bound)
    }

    /// The tree's root carries a memoized digest, where it can.
    pub open(crate) spec fn memoized(&self) -> bool {
        memo_filled(self.root)
    }

    /// The tree's root is the node stored under the given pointer.
    pub open(crate) spec fn is_stored_root(&self, p: u64) -> bool {
        match self.root {
            NodeRef::Inner(cell) => *cell == (NodeRefInner::StoredNode { pointer: p }),
            NodeRef::Empty => false,
        }
    }

    /// An empty tree.
    pub fn new() -> (r: Tree)
        ensures
            forall|s: StoreContents, b: nat| #[trigger]
                r.wf(s, b) && r.tree(s, b) == TreeV::Nil,
    {
        Tree { root: NodeRef::Empty }
    }

    /// A tree whose root is the node stored under the given pointer.
    pub fn from_ptr(ptr: u64) -> (r: Tree)
        ensures
            r.is_stored_root(ptr),
            forall|s: StoreContents, b: nat| #[trigger] r.tree_opt(s, b) == resolve_ptr(ptr, s, b),
            forall|s: StoreContents, b: nat|
                resolve_ptr(ptr, s, b) is Some && wf_v(resolve_ptr(ptr, s, b).unwrap())
                    ==> #[trigger] r.wf(s, b),
    {
        Tree { root: NodeRef::from_ptr(ptr) }
    }

    /// Look up a key, returning a copy of its value if the key is present.
    pub fn get<S: NodeStore<Node>>(
        &self,
        key: &Int32BigEndian,
        mgr: &mut NodeManager<S>,
    ) -> (res: Result<Option<Int32BigEndian>, Error>)
        requires
            old(mgr).wf(),
            store_ok(old(mgr).contents()),
            self.wf(old(mgr).contents(), old(mgr).bound()),
        ensures
            final(mgr).wf(),
            final(mgr).contents() == old(mgr).contents(),
            final(mgr).bound() == old(mgr).bound(),
            ({
                let m = self.model(old(mgr).contents(), old(mgr).bound());
                res matches Ok(o) && o == (if m.dom().contains(key.0 as int) {
                    Some(Int32BigEndian(m[key.0 as int] as i32))
                } else {
                    None::<Int32BigEndian>
                })
            }),
    {
        let ghost s = old(mgr).contents();
        let ghost b = old(mgr).bound();
        let ghost t = self.tree(s, b);
        proof {
            crate::avl_lemmas::lemma_resolve_unfold(self.root, s, b);
        }
        match mgr.read(&self.root) {
            Ok(None) => {
                proof {
                    assert(as_map(t).dom() =~= Set::<int>::empty());
                }
                Ok(None)
            },
            Ok(Some(node)) => {
                proof {
                    crate::avl_lemmas::lemma_loaded(self.root, s, b, node);
                }
                node.get(key, mgr)
            },
            Err(e) => {
                proof {
                    assert(false);
                }
                Err(e)
            },
        }
    }

    /// Persistent insert: a new tree with the entry added; this tree is
    /// untouched.
    pub fn insert<S: NodeStore<Node>>(
        &self,
        key: Int32BigEndian,
        value: Int32BigEndian,
        mgr: &mut NodeManager<S>,
    ) -> (res: Result<Tree, Error>)
        requires
            old(mgr).wf(),
            store_ok(old(mgr).contents()),
            self.wf(old(mgr).contents(), old(mgr).bound()),
        ensures
            final(mgr).wf(),
            final(mgr).contents() == old(mgr).contents(),
            final(mgr).bound() == old(mgr).bound(),
            ({
                let s = old(mgr).contents();
                let b = old(mgr).bound();
                res matches Ok(t2) && t2.wf(s, b) && t2.tree(s, b) == avl_insert_v(
                    self.tree(s, b),
                    key.0 as int,
                    value.0 as int,
                ) && t2.model(s, b) == self.model(s, b).insert(key.0 as int, value.0 as int)
            }),
    {
        let ghost s = old(mgr).contents();
        let ghost b = old(mgr).bound();
        let ghost t = self.tree(s, b);
        proof {
            crate::avl_lemmas::lemma_insert(t, key.0 as int, value.0 as int);
        }
        let root2 = match Node::insert(self.root.clone(), key, value, mgr, false) {
            Ok(r) => r,
            Err(e) => { return Err(e) },
        };
        Ok(Tree { root: root2 })
    }

    /// Persistent delete: a new tree without the key; this tree is
    /// untouched.
    pub fn delete<S: NodeStore<Node>>(
        &self,
        key: &Int32BigEndian,
        mgr: &mut NodeManager<S>,
    ) -> (res: Result<Tree, Error>)
        requires
            old(mgr).wf(),
            store_ok(old(mgr).contents()),
            self.wf(old(mgr).contents(), old(mgr).bound()),
        ensures
            final(mgr).wf(),
            final(mgr).contents() == old(mgr).contents(),
            final(mgr).bound() == old(mgr).bound(),
            ({
                let s = old(mgr).contents();
                let b = old(mgr).bound();
                res matches Ok(t2) && t2.wf(s, b) && t2.tree(s, b) == avl_delete_v(
                    self.tree(s, b),
                    key.0 as int,
                ) && t2.model(s, b) == self.model(s, b).remove(key.0 as int)
            }),
    {
        let ghost s = old(mgr).contents();
        let ghost b = old(mgr).bound();
        let ghost t = self.tree(s, b);
        proof {
            crate::avl_lemmas::lemma_delete(t, key.0 as int);
        }
        let root2 = match Node::delete(self.root.clone(), key, mgr, false) {
            Ok(r) => r,
            Err(e) => { return Err(e) },
        };
        Ok(Tree { root: root2 })
    }

    /// Transient insert: add the entry in place, reusing unshared nodes.
    pub fn insert_mut<S: NodeStore<Node>>(
        &mut self,
        key: Int32BigEndian,
        value: Int32BigEndian,
        mgr: &mut NodeManager<S>,
    ) -> (res: Result<(), Error>)
        requires
            old(mgr).wf(),
            store_ok(old(mgr).contents()),
            old(self).wf(old(mgr).contents(), old(mgr).bound()),
        ensures
            final(mgr).wf(),
            final(mgr).contents() == old(mgr).contents(),
            final(mgr).bound() == old(mgr).bound(),
            ({
                let s = old(mgr).contents();
                let b = old(mgr).bound();
                res matches Ok(u) && final(self).wf(s, b) && final(self).tree(s, b)
                    == avl_insert_v(old(self).tree(s, b), key.0 as int, value.0 as int)
                    && final(self).model(s, b) == old(self).model(s, b).insert(
                    key.0 as int,
                    value.0 as int,
                )
            }),
    {
        let ghost s = old(mgr).contents();
        let ghost b = old(mgr).bound();
        let ghost t = old(self).tree(s, b);
        proof {
            crate::avl_lemmas::lemma_insert(t, key.0 as int, value.0 as int);
        }
        let mut root = NodeRef::Empty;
        std::mem::swap(&mut root, &mut self.root);
        let root2 = match Node::insert(root, key, value, mgr, true) {
            Ok(r) => r,
            Err(e) => { return Err(e) },
        };
        self.root = root2;
        Ok(())
    }

    /// Transient delete: remove the key in place, reusing unshared nodes.
    pub fn delete_mut<S: NodeStore<Node>>(
        &mut self,
        key: &Int32BigEndian,
        mgr: &mut NodeManager<S>,
    ) -> (res: Result<(), Error>)
        requires
            old(mgr).wf(),
            store_ok(old(mgr).contents()),
            old(self).wf(old(mgr).contents(), old(mgr).bound()),
        ensures
            final(mgr).wf(),
            final(mgr).contents() == old(mgr).contents(),
            final(mgr).bound() == old(mgr).bound(),
            ({
                let s = old(mgr).contents();
                let b = old(mgr).bound();
                res matches Ok(u) && final(self).wf(s, b) && final(self).tree(s, b)
                    == avl_delete_v(old(self).tree(s, b), key.0 as int) && final(self).model(s, b)
                    == old(self).model(s, b).remove(key.0 as int)
            }),
    {
        let ghost s = old(mgr).contents();
        let ghost b = old(mgr).bound();
        let ghost t = old(self).tree(s, b);
        proof {
            crate::avl_lemmas::lemma_delete(t, key.0 as int);
        }
        let mut root = NodeRef::Empty;
        std::mem::swap(&mut root, &mut self.root);
        let root2 = match Node::delete(root, key, mgr, true) {
            Ok(r) => r,
            Err(e) => { return Err(e) },
        };
        self.root = root2;
        Ok(())
    }

    /// The root's balance factor: left height minus right height.
    pub fn balance_factor<S: NodeStore<Node>>(&self, mgr: &mut NodeManager<S>) -> (res: Result<
        i64,
        Error,
    >)
        requires
            old(mgr).wf(),
            store_ok(old(mgr).contents()),
            self.wf(old(mgr).contents(), old(mgr).bound()),
        ensures
            final(mgr).wf(),
            final(mgr).contents() == old(mgr).contents(),
            final(mgr).bound() == old(mgr).bound(),
            res matches Ok(bf) && bf == bal_v(self.tree(old(mgr).contents(), old(mgr).bound())),
    {
        let ghost s = old(mgr).contents();
        let ghost b = old(mgr).bound();
        let ghost t = self.tree(s, b);
        proof {
            crate::avl_lemmas::lemma_resolve_unfold(self.root, s, b);
        }
        match mgr.read(&self.root) {
            Ok(None) => Ok(0),
            Ok(Some(node)) => {
                proof {
                    crate::avl_lemmas::lemma_loaded(self.root, s, b, node);
                    crate::avl_lemmas::lemma_sub_parts(t);
                }
                let lh = match height_of(&node.left, mgr) {
                    Ok(h) => h,
                    Err(e) => { return Err(e) },
                };
                let rh = match height_of(&node.right, mgr) {
                    Ok(h) => h,
                    Err(e) => { return Err(e) },
                };
                Ok(lh - rh)
            },
            Err(e) => {
                proof {
                    assert(false);
                }
                Err(e)
            },
        }
    }

    /// Whether the root's balance factor lies within one of zero. On a
    /// well-formed tree this is always true.
    pub fn balanced<S: NodeStore<Node>>(&self, mgr: &mut NodeManager<S>) -> (res: Result<
        bool,
        Error,
    >)
        requires
            old(mgr).wf(),
            store_ok(old(mgr).contents()),
            self.wf(old(mgr).contents(), old(mgr).bound()),
        ensures
            final(mgr).wf(),
            final(mgr).contents() == old(mgr).contents(),
            final(mgr).bound() == old(mgr).bound(),
            ({
                let t = self.tree(old(mgr).contents(), old(mgr).bound());
                res matches Ok(bb) && bb == (-1 <= bal_v(t) <= 1) && bb
            }),
    {
        let ghost s = old(mgr).contents();
        let ghost b = old(mgr).bound();
        let ghost t = self.tree(s, b);
        proof {
            if t is Node {
                crate::avl_lemmas::lemma_sub_parts(t);
            }
        }
        let bf = match self.balance_factor(mgr) {
            Ok(bf) => bf,
            Err(e) => { return Err(e) },
        };
        Ok(-1 <= bf && bf <= 1)
    }
}

impl Clone for Tree {
    /// A cheap handle copy: both trees share every node cell.
    fn clone(&self) -> (r: Self)
        ensures
            r == *self,
    {
        Tree { root: self.root.clone() }
    }
}

impl Default for Tree {
    /// The default tree is empty.
    fn default() -> (r: Self)
        ensures
            forall|s: StoreContents, b: nat| #[trigger]
                r.wf(s, b) && r.tree(s, b) == TreeV::Nil,
    {
        Tree { root: NodeRef::Empty }
    }
}

/// The root cell of this reference carries a memoized digest, where it can:
/// an in-memory root node has its digest filled in.
pub open(crate) spec fn memo_filled(r: NodeRef) -> bool {
    match r {
        NodeRef::Empty => true,
        NodeRef::Inner(cell) => match *cell {
            NodeRefInner::MemNode(n) => n.hash is Some,
            NodeRefInner::StoredNode { .. } => true,
        },
    }
}

/// Compute the digest of the subtree under a node, memoizing digests in the
/// returned child references, and hand back those references together with
/// the digest bytes.
fn compute_node_digest<S: NodeStore<Node>>(n: &Node, mgr: &mut NodeManager<S>) -> (res: Result<
    (NodeRef, NodeRef, Vec<u8>),
    Error,
>)
    requires
        old(mgr).wf(),
        store_ok(old(mgr).contents()),
        resolve_node(*n, old(mgr).contents(), old(mgr).bound()) is Some,
        wf_v(resolve_node(*n, old(mgr).contents(), old(mgr).bound()).unwrap()),
        memos_ok(n.left, old(mgr).contents(), old(mgr).bound()),
        memos_ok(n.right, old(mgr).contents(), old(mgr).bound()),
    ensures
        final(mgr).wf(),
        final(mgr).contents() == old(mgr).contents(),
        final(mgr).bound() == old(mgr).bound(),
        ({
            let s = old(mgr).contents();
            let b = old(mgr).bound();
            let t = resolve_node(*n, s, b).unwrap();
            res matches Ok(out) && resolve_ref(out.0, s, b) == resolve_ref(n.left, s, b)
                && resolve_ref(out.1, s, b) == resolve_ref(n.right, s, b) && memos_ok(out.0, s, b)
                && memos_ok(out.1, s, b) && out.2@ == crate::hash::tree_digest(t)
        }),
    decreases hgt(resolve_node(*n, old(mgr).contents(), old(mgr).bound()).unwrap()), 0nat,
{
    let ghost s = old(mgr).contents();
    let ghost b = old(mgr).bound();
    let ghost t = resolve_node(*n, s, b).unwrap();
    proof {
        crate::avl_lemmas::lemma_resolve_node_unfold(*n, s, b);
        assert(t =~= node_v(t->key, t->value, t->height, *t->left, *t->right));
        crate::avl_lemmas::lemma_node_parts(t->key, t->value, t->height, *t->left, *t->right);
        crate::avl_lemmas::lemma_sub_parts(t);
        crate::avl_lemmas::lemma_resolve_unfold(n.left, s, b);
        crate::avl_lemmas::lemma_resolve_unfold(n.right, s, b);
        crate::avl_lemmas::lemma_hgt_nonneg(*t->left);
        crate::avl_lemmas::lemma_hgt_nonneg(*t->right);
    }
    let (l2, ld) = match merkle_ref(n.left.clone(), mgr) {
        Ok(p) => p,
        Err(e) => { return Err(e) },
    };
    let (r2, rd) = match merkle_ref(n.right.clone(), mgr) {
        Ok(p) => p,
        Err(e) => { return Err(e) },
    };
    let mut buf: Vec<u8> = Vec::new();
    n.key.append_hash_bytes(&mut buf);
    n.value.append_hash_bytes(&mut buf);
    let left_empty = matches!(&n.left, NodeRef::Empty);
    let right_empty = matches!(&n.right, NodeRef::Empty);
    if !left_empty {
        crate::value::append_bytes(&mut buf, ld.as_slice());
    }
    if left_empty && !right_empty {
        buf.push(0);
    }
    if !right_empty {
        crate::value::append_bytes(&mut buf, rd.as_slice());
    }
    proof {
        assert(*t->left is Nil <==> n.left is Empty);
        assert(*t->right is Nil <==> n.right is Empty);
        assert(buf@ =~= crate::hash::node_digest_input(
            t->key,
            t->value,
            *t->left is Nil,
            *t->right is Nil,
            crate::hash::tree_digest(*t->left),
            crate::hash::tree_digest(*t->right),
        ));
    }
    let mut hasher = crate::hash::Blake3Hash::new();
    hasher.update(buf.as_slice());
    let d = hasher.finalize();
    proof {
        assert(d@ == crate::hash::tree_digest(t));
    }
    Ok((l2, r2, d))
}

/// Compute the Merkle digest of the subtree behind a reference. A memoized
/// digest is returned as-is; otherwise the digest is computed and memoized
/// in the returned reference where it lives in memory. The reference's
/// subtree is unchanged.
pub(crate) fn merkle_ref<S: NodeStore<Node>>(r: NodeRef, mgr: &mut NodeManager<S>) -> (res: Result<
    (NodeRef, Vec<u8>),
    Error,
>)
    requires
        old(mgr).wf(),
        store_ok(old(mgr).contents()),
        ref_wf(r, old(mgr).contents(), old(mgr).bound()),
    ensures
        final(mgr).wf(),
        final(mgr).contents() == old(mgr).contents(),
        final(mgr).bound() == old(mgr).bound(),
        ({
            let s = old(mgr).contents();
            let b = old(mgr).bound();
            let t = resolve_ref(r, s, b).unwrap();
            res matches Ok(out) && resolve_ref(out.0, s, b) == resolve_ref(r, s, b) && memos_ok(
                out.0,
                s,
                b,
            ) && out.1@ == crate::hash::tree_digest(t) && memo_filled(out.0) && (memo_filled(r)
                ==> out.0 == r)
        }),
    decreases hgt(resolve_ref(r, old(mgr).contents(), old(mgr).bound()).unwrap()), 1nat,
{
    let ghost s = old(mgr).contents();
    let ghost b = old(mgr).bound();
    let ghost t = resolve_ref(r, s, b).unwrap();
    proof {
        crate::avl_lemmas::lemma_resolve_unfold(r, s, b);
        crate::avl_lemmas::lemma_hgt_nonneg(t);
    }
    match &r {
        NodeRef::Empty => Ok((r, Vec::new())),
        NodeRef::Inner(cell) => match &**cell {
            NodeRefInner::MemNode(n) => {
                match &n.hash {
                    Some(d) => {
                        let bytes = crate::value::clone_bytes(d);
                        Ok((r, bytes))
                    },
                    None => {
                        let (l2, r2, d) = match compute_node_digest(n, mgr) {
                            Ok(out) => out,
                            Err(e) => { return Err(e) },
                        };
                        let node2 = Node {
                            key: n.key.clone(),
                            value: n.value.clone(),
                            left: l2,
                            right: r2,
                            height: n.height,
                            hash: Some(crate::value::clone_bytes(&d)),
                        };
                        let out_ref = NodeRef::new(node2);
                        proof {
                            assert(resolve_node(node2, s, b) == resolve_node(*n, s, b));
                            assert(resolve_ref(out_ref, s, b) == resolve_ref(r, s, b));
                            assert(node_memo_ok(node2, s, b));
                            assert(memos_ok(out_ref, s, b));
                        }
                        Ok((out_ref, d))
                    },
                }
            },
            NodeRefInner::StoredNode { .. } => {
                let node = match mgr.read(&r) {
                    Ok(Some(n)) => n,
                    Ok(None) => {
                        proof {
                            assert(false);
                        }
                        return Err(Error::Invariant);
                    },
                    Err(e) => {
                        proof {
                            assert(false);
                        }
                        return Err(e);
                    },
                };
                proof {
                    crate::avl_lemmas::lemma_loaded(r, s, b, node);
                }
                let (_, _, d) = match compute_node_digest(&node, mgr) {
                    Ok(out) => out,
                    Err(e) => { return Err(e) },
                };
                Ok((r, d))
            },
        },
    }
}

/// Persist the subtree behind a reference bottom-up: children first, then
/// the node itself, so every stored node's children are stored below it.
/// Returns the stored form of the reference and its pointer.
///
/// `b0` is the bound the reference resolves below at the top of the whole
/// save; every reference-count increment hits a pointer below it, every
/// entry at or above it is left untouched, and every new entry starts with
/// reference count one.
fn save_ref<S: NodeStore<Node>>(
    r: &NodeRef,
    mgr: &mut NodeManager<S>,
    Ghost(b0): Ghost<nat>,
) -> (res: Result<(NodeRef, Option<u64>), Error>)
    requires
        old(mgr).wf(),
        store_ok(old(mgr).contents()),
        b0 <= old(mgr).bound(),
        resolve_ref(*r, old(mgr).contents(), b0) is Some,
        memos_ok(*r, old(mgr).contents(), b0),
    ensures
        final(mgr).wf(),
        store_ok(final(mgr).contents()),
        store_grown(old(mgr).contents(), final(mgr).contents(), old(mgr).bound()),
        old(mgr).bound() <= final(mgr).bound(),
        r is Empty ==> res is Ok,
        ({
            let s0 = old(mgr).contents();
            let sf = final(mgr).contents();
            &&& forall|q: u64| #[trigger]
                s0.contains_key(q) && q as nat >= b0 ==> sf.contains_key(q) && sf[q] == s0[q]
            &&& forall|q: u64| #[trigger]
                sf.contains_key(q) && !s0.contains_key(q) ==> sf[q].0 == 1
            &&& forall|q: u64| #[trigger] s0.contains_key(q) ==> s0[q].0 <= sf[q].0
        }),
        ({
            let t = resolve_ref(*r, old(mgr).contents(), b0).unwrap();
            let sf = final(mgr).contents();
            let bf = final(mgr).bound();
            match res {
                Ok((r2, op)) => {
                    &&& resolve_ref(r2, sf, bf) == Some(t)
                    &&& memos_ok(r2, sf, bf)
                    &&& (r is Empty ==> r2 is Empty && op is None)
                    &&& (!(r is Empty) ==> (op matches Some(p) && (r2 matches NodeRef::Inner(
                        cell,
                    ) && *cell == (NodeRefInner::StoredNode { pointer: p })) && sf.contains_key(p)
                        && (p as nat) < bf))
                },
                Err(_) => true,
            }
        }),
    decreases hgt(resolve_ref(*r, old(mgr).contents(), b0).unwrap()),
{
    let ghost s = old(mgr).contents();
    let ghost b = old(mgr).bound();
    let ghost t = resolve_ref(*r, s, b0).unwrap();
    proof {
        crate::avl_lemmas::lemma_resolve_unfold(*r, s, b0);
        crate::avl_lemmas::lemma_hgt_nonneg(t);
    }
    match r {
        NodeRef::Empty => Ok((NodeRef::Empty, None)),
        NodeRef::Inner(cell) => match &**cell {
            NodeRefInner::StoredNode { pointer } => {
                let ghost p0 = *pointer;
                proof {
                    assert(p0 < b0 && s.contains_key(p0));
                }
                match mgr.save(r) {
                    Ok(Some((p, r2))) => {
                        proof {
                            let s2 = mgr.contents();
                            let c = (s[p0].0 + 1) as u32;
                            assert(p == p0);
                            assert(s2 == s.insert(p0, (c, s[p0].1)));
                            crate::avl_lemmas::lemma_store_ok_rc(s, p0, c);
                            crate::avl_lemmas::lemma_resolve_rc(*r, s, b0, p0, c);
                            assert(resolve_ref(*r, s2, b0) == Some(t));
                            assert(resolve_ref(r2, s2, b0) == resolve_ref(*r, s2, b0));
                            crate::avl_lemmas::lemma_resolve_mono(r2, s2, b0, mgr.bound());
                            assert(store_grown(s, s2, b)) by {
                                assert(forall|q: u64| #[trigger]
                                    s2.contains_key(q) ==> s.contains_key(q));
                            }
                        }
                        Ok((r2, Some(p)))
                    },
                    Ok(None) => {
                        proof {
                            assert(false);
                        }
                        Err(Error::Invariant)
                    },
                    Err(e) => Err(e),
                }
            },
            NodeRefInner::MemNode(n) => {
                proof {
                    crate::avl_lemmas::lemma_loaded(*r, s, b0, *n);
                    crate::avl_lemmas::lemma_hgt_nonneg(*t->left);
                    crate::avl_lemmas::lemma_hgt_nonneg(*t->right);
                    assert(hgt(*t->left) < hgt(t) && hgt(*t->right) < hgt(t));
                }
                let (l2, _) = match save_ref(&n.left, mgr, Ghost(b0)) {
                    Ok(out) => out,
                    Err(e) => { return Err(e) },
                };
                let ghost s1 = mgr.contents();
                let ghost b1 = mgr.bound();
                proof {
                    crate::avl_lemmas::lemma_resolve_grown(n.right, s, s1, b0, b);
                    crate::avl_lemmas::lemma_memos_grown(n.right, s, s1, b0, b);
                }
                let (r2v, _) = match save_ref(&n.right, mgr, Ghost(b0)) {
                    Ok(out) => out,
                    Err(e) => { return Err(e) },
                };
                let ghost s2 = mgr.contents();
                let ghost b2 = mgr.bound();
                proof {
                    crate::avl_lemmas::lemma_grown_trans(s, s1, s2, b, b1);
                    crate::avl_lemmas::lemma_resolve_grown(l2, s1, s2, b1, b1);
                    crate::avl_lemmas::lemma_resolve_mono(l2, s2, b1, b2);
                }
                let node2 = Node {
                    key: n.key.clone(),
                    value: n.value.clone(),
                    left: l2,
                    right: r2v,
                    height: n.height,
                    hash: None,
                };
                let node_ref2 = NodeRef::new(node2);
                match mgr.save(&node_ref2) {
                    Ok(Some((p, r2))) => {
                        proof {
                            let s3 = mgr.contents();
                            let b3 = mgr.bound();
                            let x = (1u32, cloned_node(node2));
                            assert(s3 == s2.insert(p, x));
                            let lt = *t->left;
                            let rt = *t->right;
                            // The children still resolve after the insert, below p.
                            crate::avl_lemmas::lemma_resolve_frame(l2, s2, b2, p, x);
                            crate::avl_lemmas::lemma_resolve_frame(r2v, s2, b2, p, x);
                            crate::avl_lemmas::lemma_resolve_mono(l2, s3, b2, p as nat);
                            crate::avl_lemmas::lemma_resolve_mono(r2v, s3, b2, p as nat);
                            assert(resolve_ref(l2, s3, p as nat) == Some(lt));
                            assert(resolve_ref(r2v, s3, p as nat) == Some(rt));
                            assert(cloned_node(node2).left == l2 && cloned_node(node2).right
                                == r2v);
                            assert(resolve_node(cloned_node(node2), s3, p as nat) == Some(
                                node_shape(node2, lt, rt),
                            ));
                            assert(node_shape(node2, lt, rt) == t);
                            assert(resolve_ref(r2, s3, b3) == Some(t));
                            // The store stays well-shaped and has only grown.
                            assert(ref_stored_below(x.1.left, p, s3));
                            assert(ref_stored_below(x.1.right, p, s3));
                            crate::avl_lemmas::lemma_store_ok_insert(s2, p, x);
                            assert(store_grown(s2, s3, b2));
                            crate::avl_lemmas::lemma_grown_trans(s, s2, s3, b, b2);
                        }
                        Ok((r2, Some(p)))
                    },
                    Ok(None) => {
                        proof {
                            assert(false);
                        }
                        Err(Error::Invariant)
                    },
                    Err(e) => Err(e),
                }
            },
        },
    }
}

impl Tree {
    /// Persist every node of this tree bottom-up and switch the tree over to
    /// its stored form. Each call contributes one unit of reference count to
    /// the returned root pointer. The tree's contents are unchanged.
    pub fn save<S: NodeStore<Node>>(&mut self, mgr: &mut NodeManager<S>) -> (res: Result<
        Option<u64>,
        Error,
    >)
        requires
            old(mgr).wf(),
            store_ok(old(mgr).contents()),
            old(self).wf(old(mgr).contents(), old(mgr).bound()),
        ensures
            final(mgr).wf(),
            store_ok(final(mgr).contents()),
            store_grown(old(mgr).contents(), final(mgr).contents(), old(mgr).bound()),
            old(mgr).bound() <= final(mgr).bound(),
            ({
                let t = old(self).tree(old(mgr).contents(), old(mgr).bound());
                let sf = final(mgr).contents();
                let bf = final(mgr).bound();
                match res {
                    Ok(op) => {
                        &&& final(self).wf(sf, bf)
                        &&& final(self).tree(sf, bf) == t
                        &&& (op is None <==> t is Nil)
                        &&& (op matches Some(p) ==> resolve_ptr(p, sf, bf) == Some(t)
                            && sf.contains_key(p))
                    },
                    Err(_) => *final(self) == *old(self),
                }
            }),
    {
        let ghost s = old(mgr).contents();
        let ghost b = old(mgr).bound();
        let ghost t = old(self).tree(s, b);
        proof {
            crate::avl_lemmas::lemma_resolve_unfold(self.root, s, b);
        }
        let (root2, op) = match save_ref(&self.root, mgr, Ghost(b)) {
            Ok(out) => out,
            Err(e) => { return Err(e) },
        };
        self.root = root2;
        proof {
            if !(t is Nil) {
                let p = op.unwrap();
                assert(resolve_ptr(p, mgr.contents(), mgr.bound()) == resolve_ref(
                    self.root,
                    mgr.contents(),
                    mgr.bound(),
                ));
            }
        }
        Ok(op)
    }

    /// Compute the tree's Merkle root digest and feed it into the sink.
    /// Digests are memoized: once computed, in-memory nodes carry their
    /// digest, and a second computation returns it without rehashing.
    pub fn merkle_hash<S: NodeStore<Node>>(
        &mut self,
        mgr: &mut NodeManager<S>,
        digest: &mut crate::hash::HashRoot,
    ) -> (res: Result<(), Error>)
        requires
            old(mgr).wf(),
            store_ok(old(mgr).contents()),
            old(self).wf(old(mgr).contents(), old(mgr).bound()),
        ensures
            final(mgr).wf(),
            final(mgr).contents() == old(mgr).contents(),
            final(mgr).bound() == old(mgr).bound(),
            ({
                let s = old(mgr).contents();
                let b = old(mgr).bound();
                let t = old(self).tree(s, b);
                let dd = final(digest).result@;
                res matches Ok(u) && final(self).wf(s, b) && final(self).tree(s, b) == t && dd
                    == crate::hash::tree_digest(t) && final(self).memoized() && (old(
                    self,
                ).memoized() ==> *final(self) == *old(self))
            }),
    {
        let ghost s = old(mgr).contents();
        let ghost b = old(mgr).bound();
        let ghost t = old(self).tree(s, b);
        let mut root = NodeRef::Empty;
        std::mem::swap(&mut root, &mut self.root);
        let (root2, d) = match merkle_ref(root, mgr) {
            Ok(out) => out,
            Err(e) => {
                proof {
                    assert(false);
                }
                return Err(e);
            },
        };
        self.root = root2;
        digest.update(d.as_slice());
        Ok(())
    }
}

/// Walk a stored subtree dropping one reference: decrement the pointer's
/// count and, when it reaches zero, delete the node and release its stored
/// children in turn. `depth` bounds the walk; a well-shaped store is never
/// deeper than its largest pointer.
pub fn release_stored<S: NodeStore<Node>>(
    ptr: u64,
    mgr: &mut NodeManager<S>,
    depth: u64,
) -> (res: Result<(), Error>)
    requires
        old(mgr).wf(),
    ensures
        final(mgr).wf(),
        final(mgr).bound() == old(mgr).bound(),
        depth == 0 ==> res is Err,
        ({
            let s0 = old(mgr).contents();
            let sf = final(mgr).contents();
            &&& forall|q: u64| #[trigger]
                sf.contains_key(q) ==> s0.contains_key(q) && sf[q].1 == s0[q].1 && sf[q].0
                    <= s0[q].0
            &&& (res is Ok ==> {
                &&& (s0.contains_key(ptr) && s0[ptr].0 > 1 ==> sf == s0.insert(
                    ptr,
                    ((s0[ptr].0 - 1) as u32, s0[ptr].1),
                ))
                &&& (s0.contains_key(ptr) && s0[ptr].0 <= 1 ==> !sf.contains_key(ptr))
                &&& (!s0.contains_key(ptr) ==> sf == s0)
            })
        }),
    decreases depth,
{
    if depth == 0 {
        return Err(Error::Invariant);
    }
    let c = match mgr.dec_ref_count(ptr) {
        Ok(c) => c,
        Err(e) => { return Err(e) },
    };
    if c == 0 {
        let (lp, rp) = match mgr.node_store.read(ptr) {
            Ok(n) => {
                let lp = match &n.left {
                    NodeRef::Inner(cell) => match &**cell {
                        NodeRefInner::StoredNode { pointer } => Some(*pointer),
                        NodeRefInner::MemNode(_) => None,
                    },
                    NodeRef::Empty => None,
                };
                let rp = match &n.right {
                    NodeRef::Inner(cell) => match &**cell {
                        NodeRefInner::StoredNode { pointer } => Some(*pointer),
                        NodeRefInner::MemNode(_) => None,
                    },
                    NodeRef::Empty => None,
                };
                (lp, rp)
            },
            Err(_) => (None, None),
        };
        match mgr.delete(ptr) {
            Ok(_) => (),
            Err(e) => { return Err(e) },
        };
        if let Some(q) = lp {
            match release_stored(q, mgr, depth - 1) {
                Ok(_) => (),
                Err(e) => { return Err(e) },
            };
        }
        if let Some(q) = rp {
            match release_stored(q, mgr, depth - 1) {
                Ok(_) => (),
                Err(e) => { return Err(e) },
            };
        }
    }
    Ok(())
}

/// The in-order entry sequence of a resolved tree: left subtree, own entry,
/// right subtree.
pub open spec fn in_order_v(t: TreeV) -> Seq<(i32, i32)>
    decreases t,
{
    match t {
        TreeV::Nil => Seq::empty(),
        TreeV::Node { key, value, left, right, .. } => in_order_v(*left) + seq![
            ((key as i32, value as i32)),
        ] + in_order_v(*right),
    }
}

/// Collect the entries behind a reference in order.
fn collect_in_order<S: NodeStore<Node>>(
    r: &NodeRef,
    mgr: &mut NodeManager<S>,
    out: &mut Vec<(i32, i32)>,
) -> (res: Result<(), Error>)
    requires
        old(mgr).wf(),
        store_ok(old(mgr).contents()),
        ref_wf(*r, old(mgr).contents(), old(mgr).bound()),
    ensures
        final(mgr).wf(),
        final(mgr).contents() == old(mgr).contents(),
        final(mgr).bound() == old(mgr).bound(),
        res matches Ok(u) && final(out)@ == old(out)@ + in_order_v(
            resolve_ref(*r, old(mgr).contents(), old(mgr).bound()).unwrap(),
        ),
    decreases hgt(resolve_ref(*r, old(mgr).contents(), old(mgr).bound()).unwrap()),
{
    let ghost s = old(mgr).contents();
    let ghost b = old(mgr).bound();
    let ghost t = resolve_ref(*r, s, b).unwrap();
    proof {
        crate::avl_lemmas::lemma_resolve_unfold(*r, s, b);
        crate::avl_lemmas::lemma_hgt_nonneg(t);
    }
    let node = match mgr.read(r) {
        Ok(Some(n)) => n,
        Ok(None) => {
            proof {
                assert(out@ =~= old(out)@ + in_order_v(t));
            }
            return Ok(());
        },
        Err(e) => {
            proof {
                assert(false);
            }
            return Err(e);
        },
    };
    proof {
        crate::avl_lemmas::lemma_loaded(*r, s, b, node);
        assert(t =~= node_v(t->key, t->value, t->height, *t->left, *t->right));
        crate::avl_lemmas::lemma_node_parts(t->key, t->value, t->height, *t->left, *t->right);
        crate::avl_lemmas::lemma_sub_parts(t);
        crate::avl_lemmas::lemma_hgt_nonneg(*t->left);
        crate::avl_lemmas::lemma_hgt_nonneg(*t->right);
    }
    match collect_in_order(&node.left, mgr, out) {
        Ok(_) => (),
        Err(e) => { return Err(e) },
    };
    out.push((node.key.0, node.value.0));
    match collect_in_order(&node.right, mgr, out) {
        Ok(_) => (),
        Err(e) => { return Err(e) },
    };
    proof {
        assert(out@ =~= old(out)@ + in_order_v(t));
    }
    Ok(())
}

impl Tree {
    /// The tree's entries in ascending key order.
    pub fn in_order<S: NodeStore<Node>>(&self, mgr: &mut NodeManager<S>) -> (res: Result<
        Vec<(i32, i32)>,
        Error,
    >)
        requires
            old(mgr).wf(),
            store_ok(old(mgr).contents()),
            self.wf(old(mgr).contents(), old(mgr).bound()),
        ensures
            final(mgr).wf(),
            final(mgr).contents() == old(mgr).contents(),
            final(mgr).bound() == old(mgr).bound(),
            res matches Ok(v) && v@ == in_order_v(
                self.tree(old(mgr).contents(), old(mgr).bound()),
            ),
    {
        let mut out: Vec<(i32, i32)> = Vec::new();
        match collect_in_order(&self.root, mgr, &mut out) {
            Ok(_) => Ok(out),
            Err(e) => Err(e),
        }
    }
}

} // verus!
