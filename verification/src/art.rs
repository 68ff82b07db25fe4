//! Byte-prefix comparison, the primitive the radix-tree family descends by.

use vstd::prelude::*;

verus! {

/// How one byte string relates to another as a prefix.
#[derive(PartialEq, Eq, Debug)]
pub enum PrefixMatch {
    /// The strings are equal.
    Equal,
    /// The strings differ, and agree exactly on this common prefix.
    PartialMatch(Vec<u8>),
    /// The strings disagree in their first byte.
    NoMatch,
}

/// The length of the longest common prefix of two byte sequences.
pub open spec fn common_prefix_len(a: Seq<u8>, b: Seq<u8>) -> nat
    decreases a.len(),
{
    if a.len() == 0 || b.len() == 0 {
        0
    } else if a[0] == b[0] {
        1 + common_prefix_len(a.skip(1), b.skip(1))
    } else {
        0
    }
}

/// Compare two byte strings: equal, sharing a non-empty proper prefix, or
/// disagreeing immediately.
pub fn cmp_prefix(a: &[u8], b: &[u8]) -> (r: PrefixMatch)
    ensures
        ({
            let n = common_prefix_len(a@, b@);
            match r {
                PrefixMatch::Equal => a@ == b@,
                PrefixMatch::PartialMatch(p) => p@ == a@.take(n as int) && p@.len() == n && !(a@
                    == b@) && (n > 0 || a@.len() == 0 || b@.len() == 0),
                PrefixMatch::NoMatch => n == 0 && a@.len() > 0 && b@.len() > 0 && !(a@ == b@),
            }
        }),
{
    let m = a.len();
    let n = b.len();
    let (maybe_eq, len) = if m < n {
        (false, m)
    } else if m == n {
        (true, m)
    } else {
        (false, n)
    };
    let mut i: usize = 0;
    while i < len
        invariant
            len == if a@.len() <= b@.len() {
                a@.len()
            } else {
                b@.len()
            },
            maybe_eq == (a@.len() == b@.len()),
            i <= len,
            forall|j: int| 0 <= j < i ==> a@[j] == b@[j],
        decreases len - i,
    {
        if a[i] != b[i] {
            proof {
                lemma_common_prefix(a@, b@, i as int);
                assert(!(a@ =~= b@));
            }
            if i == 0 {
                return PrefixMatch::NoMatch;
            } else {
                let mut p: Vec<u8> = Vec::new();
                let mut j: usize = 0;
                while j < i
                    invariant
                        j <= i,
                        i < a@.len(),
                        p@ == a@.take(j as int),
                    decreases i - j,
                {
                    p.push(a[j]);
                    j = j + 1;
                    assert(p@ =~= a@.take(j as int));
                }
                return PrefixMatch::PartialMatch(p);
            }
        }
        i = i + 1;
    }
    proof {
        lemma_common_prefix_full(a@, b@, len as int);
    }
    if maybe_eq {
        proof {
            assert(a@ =~= b@);
        }
        PrefixMatch::Equal
    } else {
        proof {
            assert(a@.len() != b@.len());
        }
        let mut p: Vec<u8> = Vec::new();
        let mut j: usize = 0;
        while j < len
            invariant
                j <= len,
                len <= a@.len(),
                p@ == a@.take(j as int),
            decreases len - j,
        {
            p.push(a[j]);
            j = j + 1;
            assert(p@ =~= a@.take(j as int));
        }
        PrefixMatch::PartialMatch(p)
    }
}

/// If two sequences agree below an index where they differ, the common
/// prefix is exactly that long.
proof fn lemma_common_prefix(a: Seq<u8>, b: Seq<u8>, i: int)
    requires
        0 <= i < a.len(),
        i < b.len(),
        forall|j: int| 0 <= j < i ==> a[j] == b[j],
        a[i] != b[i],
    ensures
        common_prefix_len(a, b) == i,
    decreases i,
{
    if i > 0 {
        lemma_common_prefix(a.skip(1), b.skip(1), i - 1);
    }
}

/// If two sequences agree up to the shorter one's length, the common prefix
/// is that whole length.
proof fn lemma_common_prefix_full(a: Seq<u8>, b: Seq<u8>, len: int)
    requires
        len == if a.len() <= b.len() {
            a.len() as int
        } else {
            b.len() as int
        },
        forall|j: int| 0 <= j < len ==> a[j] == b[j],
    ensures
        common_prefix_len(a, b) == len,
    decreases len,
{
    if len > 0 {
        lemma_common_prefix_full(a.skip(1), b.skip(1), len - 1);
    }
}

} // verus!
