//! Incremental digests: the BLAKE3 binding and the root-hash sink, and the
//! Merkle digest a tree shape determines.

use vstd::prelude::*;
use crate::avl::TreeV;
use crate::value::i32_be_bytes;

verus! {

/// The 32-byte BLAKE3 digest of a byte sequence. The digest depends on the
/// input bytes alone.
pub uninterp spec fn blake3_digest(input: Seq<u8>) -> Seq<u8>;

/// An incremental digest abstraction: absorb bytes, then produce the digest.
pub trait Hasher {
    /// Absorb bytes into the digest state.
    fn update(&mut self, value: &[u8]);

    /// Produce the digest of everything absorbed so far.
    fn finalize(&mut self) -> Vec<u8>;
}

/// An incremental BLAKE3 digest over the bytes absorbed so far.
#[verifier::external_body]
pub struct Blake3Hash {
    hasher: blake3::Hasher,
}

/// The bytes a BLAKE3 hasher has absorbed so far.
pub uninterp spec fn hash_absorbed(h: Blake3Hash) -> Seq<u8>;

impl Blake3Hash {
    /// Relies on `blake3::Hasher::new`: a fresh hasher has absorbed nothing.
    #[verifier::external_body]
    pub fn new() -> (r: Self)
        ensures
            hash_absorbed(r) == Seq::<u8>::empty(),
    {
        Blake3Hash { hasher: blake3::Hasher::new() }
    }

    /// Relies on `blake3::Hasher::update`: absorbing appends to the input.
    #[verifier::external_body]
    pub fn update(&mut self, value: &[u8])
        ensures
            hash_absorbed(*final(self)) == hash_absorbed(*old(self)) + value@,
    {
        self.hasher.update(value);
    }

    /// Relies on `blake3::Hasher::finalize`: the result is the 32-byte
    /// BLAKE3 digest of the absorbed bytes, a function of those bytes alone.
    #[verifier::external_body]
    pub fn finalize(&self) -> (r: Vec<u8>)
        ensures
            r@ == blake3_digest(hash_absorbed(*self)),
            r@.len() == 32,
    {
        let hash: [u8; 32] = self.hasher.finalize().into();
        Vec::from(hash)
    }
}

impl Hasher for Blake3Hash {
    fn update(&mut self, value: &[u8]) {
        Blake3Hash::update(self, value)
    }

    fn finalize(&mut self) -> Vec<u8> {
        Blake3Hash::finalize(self)
    }
}

/// A sink that captures the last absorbed bytes and returns them unchanged:
/// used to read out a subtree's already computed digest without rehashing.
pub struct HashRoot {
    /// The bytes most recently absorbed.
    pub result: Vec<u8>,
}

impl HashRoot {
    /// A sink that has captured nothing yet.
    pub fn new() -> (r: Self)
        ensures
            r.result@ == Seq::<u8>::empty(),
    {
        HashRoot { result: Vec::new() }
    }

    /// Capture the given bytes, replacing anything captured before.
    pub fn update(&mut self, value: &[u8])
        ensures
            final(self).result@ == value@,
    {
        let mut captured: Vec<u8> = Vec::new();
        let mut i: usize = 0;
        while i < value.len()
            invariant
                i <= value.len(),
                captured@ == value@.subrange(0, i as int),
            decreases value.len() - i,
        {
            captured.push(value[i]);
            i = i + 1;
            assert(captured@ =~= value@.subrange(0, i as int));
        }
        assert(value@.subrange(0, value@.len() as int) =~= value@);
        self.result = captured;
    }

    /// Hand back the captured bytes.
    pub fn finalize(&self) -> (r: Vec<u8>)
        ensures
            r@ == self.result@,
    {
        let mut copied: Vec<u8> = Vec::new();
        let mut i: usize = 0;
        while i < self.result.len()
            invariant
                i <= self.result.len(),
                copied@ == self.result@.subrange(0, i as int),
            decreases self.result.len() - i,
        {
            copied.push(self.result[i]);
            i = i + 1;
            assert(copied@ =~= self.result@.subrange(0, i as int));
        }
        assert(self.result@.subrange(0, self.result@.len() as int) =~= self.result@);
        copied
    }
}

impl Hasher for HashRoot {
    fn update(&mut self, value: &[u8]) {
        HashRoot::update(self, value)
    }

    fn finalize(&mut self) -> Vec<u8> {
        HashRoot::finalize(self)
    }
}

/// The bytes a node feeds into its own sub-hasher: its key, its value, the
/// left subtree's digest if any, a single zero byte only when the left
/// subtree is empty and the right one is not, then the right subtree's
/// digest if any.
pub open spec fn node_digest_input(
    key: int,
    value: int,
    l_nil: bool,
    r_nil: bool,
    ld: Seq<u8>,
    rd: Seq<u8>,
) -> Seq<u8> {
    i32_be_bytes(key as i32) + i32_be_bytes(value as i32) + (if l_nil {
        Seq::<u8>::empty()
    } else {
        ld
    }) + (if l_nil && !r_nil {
        seq![0u8]
    } else {
        Seq::<u8>::empty()
    }) + (if r_nil {
        Seq::<u8>::empty()
    } else {
        rd
    })
}

/// The Merkle digest of a tree shape. The empty tree's digest is the empty
/// byte sequence; a node's digest is the BLAKE3 digest of its own input
/// bytes, which include its subtrees' digests, so the digest is a function
/// of the tree's structure and contents alone.
pub open spec fn tree_digest(t: TreeV) -> Seq<u8>
    decreases t,
{
    match t {
        TreeV::Nil => Seq::empty(),
        TreeV::Node { key, value, left, right, .. } => blake3_digest(
            node_digest_input(
                key,
                value,
                *left is Nil,
                *right is Nil,
                tree_digest(*left),
                tree_digest(*right),
            ),
        ),
    }
}

} // verus!
