//! Merkle existence proofs: the data a verifier consumes.

use vstd::prelude::*;

verus! {

/// The hash algorithms a proof can name.
pub enum HashAlg {
    /// 256-bit BLAKE3.
    Blake3_256,
}

/// One interior step of a Merkle proof: the bytes hashed before and after
/// the child digest.
pub struct InnerOp {
    /// Bytes absorbed before the child digest.
    pub prefix: Vec<u8>,
    /// Bytes absorbed after the child digest.
    pub suffix: Vec<u8>,
}

/// A Merkle existence proof: a leaf entry and the interior steps up to the
/// root.
pub struct Proof {
    /// The algorithm every step hashes with.
    pub hash_alg: HashAlg,
    /// The leaf key the proof speaks for.
    pub key: Vec<u8>,
    /// The leaf value the proof speaks for.
    pub value: Vec<u8>,
    /// The interior steps, leaf side first.
    pub inner_ops: Vec<InnerOp>,
}

} // verus!
