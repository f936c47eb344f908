//! Content digests of rumor payloads and their byte-wise order.

use core::cmp::Ordering;
use vstd::prelude::*;

verus! {

/// SHA3-256 hash digest.
pub type Digest256 = [u8; 32];

/// The SHA3-256 digest of a byte sequence.
pub uninterp spec fn sha3_256_of(data: Seq<u8>) -> Seq<u8>;

/// Relies on `tiny_keccak::sha3_256`: the SHA3-256 digest of `data`, which
/// depends on those bytes alone.
#[verifier::external_body]
pub(crate) fn sha3_256(data: &Vec<u8>) -> (r: Digest256)
    ensures
        r@ == sha3_256_of(data@),
{
    tiny_keccak::sha3_256(data.as_slice())
}

/// `a` and `b` agree before position `i` and `a` has the smaller byte at `i`.
pub open spec fn digest_lt_at(a: Seq<u8>, b: Seq<u8>, i: int) -> bool {
    &&& 0 <= i < a.len()
    &&& i < b.len()
    &&& forall|j: int| 0 <= j < i ==> a[j] == b[j]
    &&& a[i] < b[i]
}

/// Strict lexicographic order on byte sequences of equal length.
pub open spec fn digest_lt(a: Seq<u8>, b: Seq<u8>) -> bool {
    exists|i: int| #[trigger] digest_lt_at(a, b, i)
}

/// No digest comes before itself.
pub proof fn lemma_digest_lt_irreflexive(a: Seq<u8>)
    ensures
        !digest_lt(a, a),
{
}

/// Two digests are never each before the other.
pub proof fn lemma_digest_lt_asymmetric(a: Seq<u8>, b: Seq<u8>)
    ensures
        !(digest_lt(a, b) && digest_lt(b, a)),
{
    if digest_lt(a, b) && digest_lt(b, a) {
        let i = choose|i: int| digest_lt_at(a, b, i);
        let j = choose|j: int| digest_lt_at(b, a, j);
        if i < j {
            assert(b[i] == a[i]);
        } else if j < i {
            assert(a[j] == b[j]);
        }
    }
}

/// The order on digests is transitive.
pub proof fn lemma_digest_lt_transitive(a: Seq<u8>, b: Seq<u8>, c: Seq<u8>)
    requires
        digest_lt(a, b),
        digest_lt(b, c),
    ensures
        digest_lt(a, c),
{
    let i = choose|i: int| digest_lt_at(a, b, i);
    let j = choose|j: int| digest_lt_at(b, c, j);
    if i <= j {
        assert(digest_lt_at(a, c, i));
    } else {
        assert(digest_lt_at(a, c, j));
    }
}

/// Compares two digests byte by byte, from the first byte on.
pub fn compare_digests(a: &Digest256, b: &Digest256) -> (r: Ordering)
    ensures
        r == Ordering::Less <==> digest_lt(a@, b@),
        r == Ordering::Equal <==> a@ == b@,
        r == Ordering::Greater <==> digest_lt(b@, a@),
{
    proof {
        lemma_digest_lt_asymmetric(a@, b@);
        lemma_digest_lt_irreflexive(a@);
    }
    let mut i: usize = 0;
    while i < 32
        invariant
            0 <= i <= 32,
            a@.len() == 32,
            b@.len() == 32,
            forall|j: int| 0 <= j < i ==> a@[j] == b@[j],
        decreases 32 - i,
    {
        if a[i] < b[i] {
            assert(digest_lt_at(a@, b@, i as int));
            return Ordering::Less;
        } else if a[i] > b[i] {
            assert(digest_lt_at(b@, a@, i as int));
            return Ordering::Greater;
        }
        i = i + 1;
    }
    assert(a@ =~= b@);
    Ordering::Equal
}

} // verus!
