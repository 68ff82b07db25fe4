//! Graph export: the tree walks itself and emits one labeled vertex per
//! node and one edge per child link; a renderer turns these into a drawing.

use vstd::prelude::*;
use crate::Error;
use crate::avl::{Tree, Node, TreeV, count, hgt, ref_wf, resolve_ref, store_ok, node_v};
use crate::avl_lemmas::{
    lemma_resolve_unfold, lemma_loaded, lemma_node_parts, lemma_sub_parts, lemma_hgt_nonneg,
};
use crate::hash::tree_digest;
use crate::manager::NodeManager;
use crate::node_ref::NodeRef;
use crate::store::NodeStore;

verus! {

/// The lowercase hexadecimal digit of a nibble.
pub open spec fn hex_char(x: u8) -> char {
    if x < 10 {
        ((x + 48) as u8) as char
    } else {
        ((x + 87) as u8) as char
    }
}

/// The lowercase hexadecimal rendering of a byte sequence, high nibble
/// first.
pub open spec fn hex_of(bytes: Seq<u8>) -> Seq<char> {
    Seq::new(
        bytes.len() * 2,
        |i: int|
            if i % 2 == 0 {
                hex_char(bytes[i / 2] / 16)
            } else {
                hex_char(bytes[i / 2] % 16)
            },
    )
}

/// Relies on `hex::encode`: two lowercase hexadecimal digits per byte, high
/// nibble first.
#[verifier::external_body]
pub fn hex_encode(b: &[u8]) -> (r: String)
    ensures
        r@ == hex_of(b@),
{
    hex::encode(b)
}

/// The subtrees of a tree in preorder: each node's subtree, the node itself
/// first, then everything under its left child, then its right.
pub open spec fn preorder_v(t: TreeV) -> Seq<TreeV>
    decreases t,
{
    match t {
        TreeV::Nil => Seq::empty(),
        TreeV::Node { left, right, .. } => seq![t] + preorder_v(*left) + preorder_v(*right),
    }
}

/// A preorder listing has one entry per node.
pub proof fn lemma_preorder_len(t: TreeV)
    ensures
        preorder_v(t).len() == count(t),
    decreases t,
{
    match t {
        TreeV::Nil => {},
        TreeV::Node { left, right, .. } => {
            lemma_preorder_len(*left);
            lemma_preorder_len(*right);
        },
    }
}

/// A vertex describes a subtree: it carries the root node's key, value and
/// height, and the first eight bytes of the subtree's digest (all of it when
/// the digest is shorter).
pub open spec fn elem_describes(e: GraphElement, st: TreeV) -> bool {
    &&& st is Node
    &&& e.key as int == st->key
    &&& e.value as int == st->value
    &&& e.height as int == st->height
    &&& e.hash_prefix@ == tree_digest(st).take(
        if tree_digest(st).len() >= 8 {
            8int
        } else {
            tree_digest(st).len() as int
        },
    )
}

/// One vertex of the exported graph: the node's entry, its height, and a
/// prefix of its subtree digest.
pub struct GraphElement {
    /// The node's key.
    pub key: i32,
    /// The node's value.
    pub value: i32,
    /// The node's height.
    pub height: i64,
    /// The first bytes of the node's subtree digest.
    pub hash_prefix: Vec<u8>,
}

/// Walk the subtree behind a reference, appending one element per node in
/// preorder and one edge per child link, and return this subtree's vertex
/// index.
fn graph_ref<S: NodeStore<Node>>(
    r: &NodeRef,
    mgr: &mut NodeManager<S>,
    out: &mut Vec<GraphElement>,
    edges: &mut Vec<(usize, usize)>,
) -> (res: Result<Option<usize>, Error>)
    requires
        old(mgr).wf(),
        store_ok(old(mgr).contents()),
        ref_wf(*r, old(mgr).contents(), old(mgr).bound()),
    ensures
        final(mgr).wf(),
        final(mgr).contents() == old(mgr).contents(),
        final(mgr).bound() == old(mgr).bound(),
        ({
            let t = resolve_ref(*r, old(mgr).contents(), old(mgr).bound()).unwrap();
            match res {
                Ok(Some(idx)) => {
                    &&& t is Node
                    &&& idx == old(out).len()
                    &&& final(out).len() == old(out).len() + count(t)
                    &&& final(edges).len() == old(edges).len() + count(t) - 1
                    &&& forall|i: int|
                        0 <= i < count(t) ==> elem_describes(
                            #[trigger] final(out)[old(out).len() + i],
                            preorder_v(t)[i],
                        )
                },
                Ok(None) => t is Nil && *final(out) == *old(out) && *final(edges) == *old(edges),
                Err(_) => false,
            }
        }),
        forall|j: int| 0 <= j < old(out).len() ==> final(out)[j] == old(out)[j],
        forall|j: int| 0 <= j < old(edges).len() ==> final(edges)[j] == old(edges)[j],
        forall|j: int|
            old(edges).len() <= j < final(edges).len() ==> old(out).len() <= (
            #[trigger] final(edges)[j]).0 < final(edges)[j].1 < final(out).len(),
    decreases hgt(resolve_ref(*r, old(mgr).contents(), old(mgr).bound()).unwrap()),
{
    let ghost s = old(mgr).contents();
    let ghost b = old(mgr).bound();
    let ghost t = resolve_ref(*r, s, b).unwrap();
    proof {
        lemma_resolve_unfold(*r, s, b);
        lemma_hgt_nonneg(t);
    }
    let node = match mgr.read(r) {
        Ok(Some(n)) => n,
        Ok(None) => { return Ok(None) },
        Err(e) => {
            proof {
                assert(false);
            }
            return Err(e);
        },
    };
    proof {
        lemma_loaded(*r, s, b, node);
        assert(t =~= node_v(t->key, t->value, t->height, *t->left, *t->right));
        lemma_node_parts(t->key, t->value, t->height, *t->left, *t->right);
        lemma_sub_parts(t);
        lemma_hgt_nonneg(*t->left);
        lemma_hgt_nonneg(*t->right);
    }
    let (_, digest) = match crate::avl::merkle_ref(r.clone(), mgr) {
        Ok(out) => out,
        Err(e) => { return Err(e) },
    };
    let take = if digest.len() >= 8 {
        8
    } else {
        digest.len()
    };
    let mut prefix: Vec<u8> = Vec::new();
    let mut i: usize = 0;
    while i < take
        invariant
            i <= take,
            take <= digest.len(),
            prefix@ == digest@.subrange(0, i as int),
        decreases take - i,
    {
        prefix.push(digest[i]);
        i = i + 1;
        assert(prefix@ =~= digest@.subrange(0, i as int));
    }
    let idx = out.len();
    out.push(
        GraphElement {
            key: node.key.0,
            value: node.value.0,
            height: node.height,
            hash_prefix: prefix,
        },
    );
    let ghost snap1 = out@;
    let lidx = match graph_ref(&node.left, mgr, out, edges) {
        Ok(o) => o,
        Err(e) => { return Err(e) },
    };
    if let Some(l) = lidx {
        edges.push((idx, l));
    }
    let ghost snap2 = out@;
    let ridx = match graph_ref(&node.right, mgr, out, edges) {
        Ok(o) => o,
        Err(e) => { return Err(e) },
    };
    if let Some(rr) = ridx {
        edges.push((idx, rr));
    }
    proof {
        assert(count(t) == 1 + count(*t->left) + count(*t->right));
        let lt = *t->left;
        let rt = *t->right;
        lemma_preorder_len(lt);
        lemma_preorder_len(rt);
        assert(preorder_v(t) == seq![t] + preorder_v(lt) + preorder_v(rt));
        assert(elem_describes(snap1[idx as int], t));
        assert forall|i: int| 0 <= i < count(t) implies elem_describes(
            #[trigger] out@[idx + i],
            preorder_v(t)[i],
        ) by {
            if i == 0 {
                assert(preorder_v(t)[0] == t);
                assert(out@[idx as int] == snap1[idx as int]);
            } else if i <= count(lt) {
                assert(preorder_v(t)[i] == preorder_v(lt)[i - 1]);
                assert(out@[idx + i] == snap2[idx + i]);
                assert(elem_describes(snap2[snap1.len() + (i - 1)], preorder_v(lt)[i - 1]));
            } else {
                assert(preorder_v(t)[i] == preorder_v(rt)[i - 1 - count(lt)]);
                assert(elem_describes(
                    out@[snap2.len() + (i - 1 - count(lt))],
                    preorder_v(rt)[i - 1 - count(lt)],
                ));
            }
        }
    }
    Ok(Some(idx))
}

impl Tree {
    /// Emit this tree as graph elements: one vertex per node, labeled with
    /// its key, value, height and the first eight bytes of its subtree
    /// digest; one edge per parent-child link; and the hex-encoded root
    /// digest as the graph's own label.
    pub fn to_graphviz<S: NodeStore<Node>>(&self, mgr: &mut NodeManager<S>) -> (res: Result<
        (Vec<GraphElement>, Vec<(usize, usize)>, String),
        Error,
    >)
        requires
            old(mgr).wf(),
            store_ok(old(mgr).contents()),
            self.wf(old(mgr).contents(), old(mgr).bound()),
        ensures
            final(mgr).wf(),
            final(mgr).contents() == old(mgr).contents(),
            final(mgr).bound() == old(mgr).bound(),
            ({
                let t = self.tree(old(mgr).contents(), old(mgr).bound());
                match res {
                    Ok(out) => {
                        &&& out.0.len() == count(t)
                        &&& out.1.len() == (if count(t) == 0 {
                            0int
                        } else {
                            count(t) - 1
                        })
                        &&& out.2@ == hex_of(tree_digest(t))
                        &&& forall|i: int|
                            0 <= i < count(t) ==> elem_describes(
                                #[trigger] out.0[i],
                                preorder_v(t)[i],
                            )
                        &&& forall|j: int|
                            0 <= j < out.1.len() ==> 0 <= (#[trigger] out.1[j]).0 < out.1[j].1
                                < out.0.len()
                    },
                    Err(_) => false,
                }
            }),
    {
        let ghost s = old(mgr).contents();
        let ghost b = old(mgr).bound();
        let ghost t = self.tree(s, b);
        let (_, digest) = match crate::avl::merkle_ref(self.root.clone(), mgr) {
            Ok(out) => out,
            Err(e) => {
                proof {
                    assert(false);
                }
                return Err(e);
            },
        };
        let label = hex_encode(digest.as_slice());
        let mut elements: Vec<GraphElement> = Vec::new();
        let mut edges: Vec<(usize, usize)> = Vec::new();
        match graph_ref(&self.root, mgr, &mut elements, &mut edges) {
            Ok(_) => (),
            Err(e) => {
                proof {
                    assert(false);
                }
                return Err(e);
            },
        };
        proof {
            assert forall|i: int|
                0 <= i < count(t) implies elem_describes(
                #[trigger] elements[i],
                preorder_v(t)[i],
            ) by {
                assert(elem_describes(elements[0 + i], preorder_v(t)[i]));
            }
            assert(forall|j: int|
                0 <= j < edges.len() ==> 0 <= (#[trigger] edges[j]).0 < edges[j].1
                    < elements.len());
        }
        Ok((elements, edges, label))
    }
}

} // verus!
