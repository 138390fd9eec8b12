//! Numbers in bytes.

use vstd::prelude::*;
use crate::bytes::{
    be16, be32, enc16, enc24, enc32, lemma_be16_enc16, lemma_be32_enc32, pad4, padded, wrap16,
};

verus! {

broadcast use crate::bytes::group_encoded_lengths;

/// `b` stands in `d` at `p`.
pub open spec fn stands(d: Seq<u8>, p: int, b: Seq<u8>) -> bool {
    &&& 0 <= p
    &&& p + b.len() <= d.len()
    &&& forall|j: int| 0 <= j < b.len() ==> #[trigger] b[j] == d[p + j]
}

/// What stands somewhere begins there with its first part and goes on with its second.
pub proof fn lemma_stands_parts(d: Seq<u8>, p: int, a: Seq<u8>, b: Seq<u8>)
    requires
        stands(d, p, a + b),
    ensures
        stands(d, p, a),
        stands(d, p + a.len(), b),
{
    let all = a + b;
    assert forall|j: int| 0 <= j < a.len() implies #[trigger] a[j] == d[p + j] by {
        assert(all[j] == a[j]);
    }
    assert forall|j: int| 0 <= j < b.len() implies #[trigger] b[j] == d[p + a.len() + j] by {
        assert(all[a.len() + j] == b[j]);
    }
}

/// A number is read from its most significant byte on.
pub proof fn law_numbers_are_big_endian(a: u8, b: u8, c: u8, d: u8)
    ensures
        be16(seq![a, b], 0) == 256 * a + b,
        be32(seq![a, b, c, d], 0) == 65536 * be16(seq![a, b], 0) + be16(seq![c, d], 0),
        wrap16(be16(seq![a, b], 0)) == if a < 128 {
            256 * a + b
        } else {
            256 * a + b - 65536
        },
{
}

/// A written number is read back, up to the bits that it has no place for.
pub proof fn law_numbers_are_read_back(v: int)
    ensures
        be16(enc16(v), 0) == v % 0x1_0000,
        be32(enc32(v), 0) == v % 0x1_0000_0000,
        0 <= v < 0x100_0000 ==> enc24(v).len() == 3 && 256 * be16(enc24(v), 0) + enc24(v)[2] == v,
        -0x8000 <= v < 0x8000 ==> wrap16(be16(enc16(v), 0)) == v,
{
    lemma_be16_enc16(v);
    lemma_be32_enc32(v);
    reveal(enc24);
    if 0 <= v < 0x100_0000 {
        let (q1, q2) = (v / 0x100, v / 0x1_0000);
        assert(q1 / 0x100 == q2);
        assert(v == q1 * 0x100 + v % 0x100);
        assert(q1 == q2 * 0x100 + q1 % 0x100);
        assert(q2 % 0x100 == q2);
    }
}

/// Padding adds zero bytes, as few as there can be for a length in whole words.
pub proof fn law_padding_is_least(data: Seq<u8>, i: int)
    ensures
        padded(data).len() % 4 == 0,
        data.len() <= padded(data).len() < data.len() + 4,
        0 <= i < data.len() ==> padded(data)[i] == data[i],
        data.len() <= i < padded(data).len() ==> padded(data)[i] == 0,
{
    assert(pad4(data.len() as int) >= data.len());
}

} // verus!
