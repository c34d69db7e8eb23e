//! A reversible byte-mixing of MAC addresses. Not cryptographic and
//! trivially undone: it only spreads the trailing bytes, which usually
//! carry the differences, over the leading ones, so similar MACs are
//! easier for a human to tell apart.

use vstd::prelude::*;

verus! {

pub open spec fn spec_mix(i: [u8; 6]) -> Seq<u8> {
    seq![i[0] ^ i[5], i[1] ^ i[4], i[2] ^ i[3], i[3], i[4], i[5]]
}

/// Spreads each of the last three bytes into one of the first three.
pub fn mix(i: [u8; 6]) -> (r: [u8; 6])
    ensures
        r@ == spec_mix(i),
{
    let r = [i[0] ^ i[5], i[1] ^ i[4], i[2] ^ i[3], i[3], i[4], i[5]];
    proof {
        assert(r@ =~= spec_mix(i));
    }
    r
}

/// Undoes `mix`; the transformation is its own inverse.
pub fn unmix(i: [u8; 6]) -> (r: [u8; 6])
    ensures
        r@ == spec_mix(i),
{
    let r = [i[0] ^ i[5], i[1] ^ i[4], i[2] ^ i[3], i[3], i[4], i[5]];
    proof {
        assert(r@ =~= spec_mix(i));
    }
    r
}

/// Mixing is an involution: applying it twice gives the bytes back, so
/// `unmix(mix(m))` is `m` for every MAC.
pub proof fn lemma_mix_involution(i: [u8; 6], m: [u8; 6])
    requires
        m@ == spec_mix(i),
    ensures
        spec_mix(m) == i@,
{
    let a0 = i[0];
    let a1 = i[1];
    let a2 = i[2];
    let a3 = i[3];
    let a4 = i[4];
    let a5 = i[5];
    assert((a0 ^ a5) ^ a5 == a0) by (bit_vector);
    assert((a1 ^ a4) ^ a4 == a1) by (bit_vector);
    assert((a2 ^ a3) ^ a3 == a2) by (bit_vector);
    assert(spec_mix(m) =~= i@);
}

} // verus!
