//! Key and value payload types: ordering and serialization for hashing.

use vstd::prelude::*;

verus! {

/// Payload types feed their serialized form into the Merkle digest.
pub trait Hashable: Sized {
    /// The byte sequence this value contributes to a digest.
    spec fn hash_bytes(&self) -> Seq<u8>;

    /// Append the serialized form to a byte buffer.
    fn append_hash_bytes(&self, out: &mut Vec<u8>)
        ensures
            final(out)@ == old(out)@ + self.hash_bytes(),
    ;
}

/// A 32-bit signed integer serialized big-endian for hashing.
#[derive(Debug, PartialEq, Eq, Structural)]
pub struct Int32BigEndian(pub i32);

impl Clone for Int32BigEndian {
    /// The clone carries the same integer.
    fn clone(&self) -> (r: Self)
        ensures
            r == *self,
    {
        Int32BigEndian(self.0)
    }
}

impl Hashable for Int32BigEndian {
    open spec fn hash_bytes(&self) -> Seq<u8> {
        i32_be_bytes(self.0)
    }

    fn append_hash_bytes(&self, out: &mut Vec<u8>)
        ensures
            final(out)@ == old(out)@ + self.hash_bytes(),
    {
        let u: u32 = self.0 as u32;
        assert((u >> 24) & 0xff < 256 && (u >> 16) & 0xff < 256 && (u >> 8) & 0xff < 256 && u
            & 0xff < 256) by (bit_vector);
        out.push(((u >> 24) & 0xff) as u8);
        out.push(((u >> 16) & 0xff) as u8);
        out.push(((u >> 8) & 0xff) as u8);
        out.push((u & 0xff) as u8);
        assert(out@ =~= old(out)@ + i32_be_bytes(self.0));
    }
}

impl From<i32> for Int32BigEndian {
    /// Wrap a plain integer.
    fn from(x: i32) -> (r: Self)
        ensures
            r == Int32BigEndian(x),
    {
        Int32BigEndian(x)
    }
}

impl vstd::std_specs::convert::FromSpecImpl<i32> for Int32BigEndian {
    open spec fn obeys_from_spec() -> bool {
        true
    }

    open spec fn from_spec(x: i32) -> Self {
        Int32BigEndian(x)
    }
}

/// The four big-endian bytes of a 32-bit signed integer.
pub open spec fn i32_be_bytes(x: i32) -> Seq<u8> {
    let u = x as u32;
    seq![
        (((u >> 24) & 0xff) as u8),
        (((u >> 16) & 0xff) as u8),
        (((u >> 8) & 0xff) as u8),
        ((u & 0xff) as u8),
    ]
}

/// An opaque byte sequence hashed as-is.
#[derive(Debug, PartialEq, Eq)]
pub struct BytesValue(pub Vec<u8>);

impl Clone for BytesValue {
    /// The clone carries the same bytes.
    fn clone(&self) -> (r: Self)
        ensures
            r.0@ == self.0@,
    {
        BytesValue(clone_bytes(&self.0))
    }
}

/// Relies on `<Vec<u8> as Clone>::clone`: the clone holds the same bytes.
#[verifier::external_body]
pub(crate) fn clone_bytes(v: &Vec<u8>) -> (r: Vec<u8>)
    ensures
        r@ == v@,
{
    v.clone()
}

impl BytesValue {
    /// The lowercase hexadecimal rendering of the bytes.
    pub fn to_hex(&self) -> (r: String)
        ensures
            r@ == crate::graph::hex_of(self.0@),
    {
        crate::graph::hex_encode(self.0.as_slice())
    }
}

impl Hashable for BytesValue {
    open spec fn hash_bytes(&self) -> Seq<u8> {
        self.0@
    }

    fn append_hash_bytes(&self, out: &mut Vec<u8>)
        ensures
            final(out)@ == old(out)@ + self.hash_bytes(),
    {
        let mut i: usize = 0;
        while i < self.0.len()
            invariant
                i <= self.0.len(),
                out@ == old(out)@ + self.0@.subrange(0, i as int),
            decreases self.0.len() - i,
        {
            out.push(self.0[i]);
            i = i + 1;
            assert(out@ =~= old(out)@ + self.0@.subrange(0, i as int));
        }
        assert(self.0@.subrange(0, self.0@.len() as int) =~= self.0@);
    }
}

/// Append all bytes of a slice to a buffer.
pub(crate) fn append_bytes(dst: &mut Vec<u8>, src: &[u8])
    ensures
        final(dst)@ == old(dst)@ + src@,
{
    let mut i: usize = 0;
    while i < src.len()
        invariant
            i <= src.len(),
            dst@ == old(dst)@ + src@.subrange(0, i as int),
        decreases src.len() - i,
    {
        dst.push(src[i]);
        i = i + 1;
        assert(dst@ =~= old(dst)@ + src@.subrange(0, i as int));
    }
    assert(src@.subrange(0, src@.len() as int) =~= src@);
}

} // verus!
