//! The small tables as a reader of the standard sees them, beside those that they were made from.

use vstd::prelude::*;
use crate::bytes::{
    be16, be32, enc16, enc32, lemma_be16_enc16, lemma_be32_enc32, splice, wrap16,
};
use crate::laws::conversion::{law_vertical_metrics_cover_glyphs, lemma_metrics};
use crate::tables::{
    bearing, bearings, full_metrics, rebuilt_gasp, rebuilt_head, rebuilt_hhea, rebuilt_hmtx,
    rebuilt_maxp, rebuilt_post, rebuilt_vhea, rebuilt_vmtx, standard_head, Bounds,
};

verus! {

broadcast use crate::bytes::group_encoded_lengths;

/// The signed 16-bit number at `i`.
pub open spec fn signed_at(t: Seq<u8>, i: int) -> int {
    wrap16(be16(t, i)) as int
}

/// Two tables have the same byte at `i`.
pub open spec fn keeps(new: Seq<u8>, old: Seq<u8>, i: int) -> bool {
    new[i] == old[i]
}

/// An `hmtx` table with a metric for each glyph: a glyph that had a full metric has its advance,
/// each later one has the advance of the last of these, and the bearing is the least x.
pub open spec fn is_full_hmtx(new: Seq<u8>, old: Seq<u8>, nhm: int, boxes: Seq<Bounds>) -> bool {
    &&& new.len() == 4 * boxes.len()
    &&& forall|i: int|
        0 <= i < boxes.len() && i < nhm ==> #[trigger] be16(new, 4 * i) == be16(old, 4 * i)
    &&& forall|i: int|
        0 < nhm <= i < boxes.len() ==> #[trigger] be16(new, 4 * i) == be16(new, 4 * (nhm - 1))
    &&& forall|i: int|
        0 <= i < boxes.len() ==> #[trigger] signed_at(new, 4 * i + 2) == match boxes[i] {
            Some(b) => b.0 as int,
            None => 0,
        }
}

/// The rebuilt `hmtx` table is full.
pub proof fn law_hmtx_is_full(hmtx: Seq<u8>, nhm: int, boxes: Seq<Bounds>)
    ensures
        is_full_hmtx(rebuilt_hmtx(hmtx, nhm, boxes), hmtx, nhm, boxes),
{
    let new = rebuilt_hmtx(hmtx, nhm, boxes);
    let n = boxes.len() as int;
    lemma_metrics(hmtx, nhm, boxes, n, 0);
    assert forall|i: int| 0 <= i < boxes.len() && i < nhm implies #[trigger] be16(new, 4 * i)
        == be16(hmtx, 4 * i) by {
        lemma_metrics(hmtx, nhm, boxes, n, i);
    }
    assert forall|i: int| 0 < nhm <= i < boxes.len() implies #[trigger] be16(new, 4 * i) == be16(
        new,
        4 * (nhm - 1),
    ) by {
        lemma_metrics(hmtx, nhm, boxes, n, i);
        lemma_metrics(hmtx, nhm, boxes, n, nhm - 1);
    }
    assert forall|i: int| 0 <= i < boxes.len() implies #[trigger] signed_at(new, 4 * i + 2)
        == match boxes[i] {
        Some(b) => b.0 as int,
        None => 0,
    } by {
        lemma_metrics(hmtx, nhm, boxes, n, i);
    }
}

/// What stands behind the full metrics of an `hmtx` table makes no difference.
pub proof fn law_advances_need_full_metrics_only(
    hmtx: Seq<u8>,
    other: Seq<u8>,
    nhm: int,
    boxes: Seq<Bounds>,
)
    requires
        0 < nhm,
        4 * nhm <= hmtx.len(),
        4 * nhm <= other.len(),
        hmtx.take(4 * nhm) == other.take(4 * nhm),
    ensures
        rebuilt_hmtx(other, nhm, boxes) == rebuilt_hmtx(hmtx, nhm, boxes),
{
    let (a, b) = (rebuilt_hmtx(hmtx, nhm, boxes), rebuilt_hmtx(other, nhm, boxes));
    law_hmtx_is_full(hmtx, nhm, boxes);
    law_hmtx_is_full(other, nhm, boxes);
    assert forall|k: int| 0 <= k < a.len() implies #[trigger] a[k] == b[k] by {
        let i = k / 4;
        let g = if i < nhm {
            i
        } else {
            nhm - 1
        };
        assert(be16(a, 4 * i) == be16(a, 4 * g) && be16(b, 4 * i) == be16(b, 4 * g));
        assert(0 <= 4 * g && 4 * g + 1 < 4 * nhm);
        let (x, y) = (hmtx.take(4 * nhm), other.take(4 * nhm));
        assert(x[4 * g] == hmtx[4 * g] && x[4 * g + 1] == hmtx[4 * g + 1]);
        assert(y[4 * g] == other[4 * g] && y[4 * g + 1] == other[4 * g + 1]);
        assert(be16(a, 4 * g) == be16(hmtx, 4 * g));
        assert(be16(b, 4 * g) == be16(other, 4 * g));
        assert(hmtx[4 * g] == other[4 * g] && hmtx[4 * g + 1] == other[4 * g + 1]);
        assert(be16(a, 4 * i) == be16(b, 4 * i));
        assert(signed_at(a, 4 * i + 2) == signed_at(b, 4 * i + 2));
        assert(be16(a, 4 * i + 2) == be16(b, 4 * i + 2));
    }
    assert(a =~= b);
}

/// A `vmtx` table for `n` glyphs: the full metrics as they were, zeros where they were cut off,
/// then the other bearings as far as they were there. A bearing that was not there is the one
/// before it, be that of a full metric or not.
pub open spec fn is_full_vmtx(new: Seq<u8>, old: Seq<u8>, nvm: int, n: int) -> bool {
    &&& new.len() == 4 * nvm + 2 * (n - nvm)
    &&& forall|i: int| 0 <= i < 4 * nvm && i < old.len() ==> #[trigger] keeps(new, old, i)
    &&& forall|i: int| old.len() <= i < 4 * nvm ==> #[trigger] new[i] == 0
    &&& forall|i: int|
        0 <= i < n - nvm && 4 * nvm + 2 * i + 2 <= old.len() ==> #[trigger] be16(
            new,
            4 * nvm + 2 * i,
        ) == be16(old, 4 * nvm + 2 * i)
    &&& forall|i: int|
        0 <= i < n - nvm && 4 * nvm + 2 * i + 2 > old.len() && (nvm > 0 || i > 0)
            ==> #[trigger] be16(new, 4 * nvm + 2 * i) == be16(new, 4 * nvm + 2 * i - 2)
    &&& nvm == 0 && n > 0 && old.len() < 2 ==> be16(new, 0) == 0
}

proof fn lemma_bearings_at(vmtx: Seq<u8>, nvm: int, k: int, i: int)
    requires
        0 <= k,
    ensures
        bearings(vmtx, nvm, k).len() == 2 * k,
        0 <= i < k ==> be16(bearings(vmtx, nvm, k), 2 * i) == bearing(vmtx, nvm, i) % 0x1_0000,
    decreases k,
{
    if k > 0 {
        lemma_bearings_at(vmtx, nvm, k - 1, i);
        let before = bearings(vmtx, nvm, k - 1);
        let now = bearings(vmtx, nvm, k);
        let b = enc16(bearing(vmtx, nvm, k - 1));
        if 0 <= i < k - 1 {
            assert(now[2 * i] == before[2 * i] && now[2 * i + 1] == before[2 * i + 1]);
        } else if i == k - 1 {
            lemma_be16_enc16(bearing(vmtx, nvm, i));
            assert(now[2 * i] == b[0] && now[2 * i + 1] == b[1]);
        }
    }
}

proof fn lemma_vmtx_at(vmtx: Seq<u8>, nvm: int, n: int, i: int)
    requires
        0 <= nvm,
        0 <= i < n - nvm,
    ensures
        be16(rebuilt_vmtx(vmtx, nvm, n), 4 * nvm + 2 * i) == bearing(vmtx, nvm, i),
{
    let new = rebuilt_vmtx(vmtx, nvm, n);
    let bs = bearings(vmtx, nvm, n - nvm);
    lemma_bearings_at(vmtx, nvm, n - nvm, i);
    assert(new[4 * nvm + 2 * i] == bs[2 * i]);
    assert(new[4 * nvm + 2 * i + 1] == bs[2 * i + 1]);
}

/// The rebuilt `vmtx` table is full.
pub proof fn law_vmtx_is_full(vmtx: Seq<u8>, nvm: int, n: int)
    requires
        0 <= nvm <= n,
    ensures
        is_full_vmtx(rebuilt_vmtx(vmtx, nvm, n), vmtx, nvm, n),
{
    let new = rebuilt_vmtx(vmtx, nvm, n);
    law_vertical_metrics_cover_glyphs(vmtx, nvm, n);
    let full = full_metrics(vmtx, nvm);
    assert forall|i: int| 0 <= i < 4 * nvm && i < vmtx.len() implies #[trigger] keeps(
        new,
        vmtx,
        i,
    ) by {
        assert(new[i] == full[i]);
    }
    assert forall|i: int| vmtx.len() <= i < 4 * nvm implies #[trigger] new[i] == 0 by {
        assert(new[i] == full[i]);
    }
    assert forall|i: int| 0 <= i < n - nvm && 4 * nvm + 2 * i + 2 <= vmtx.len() implies
        #[trigger] be16(new, 4 * nvm + 2 * i) == be16(vmtx, 4 * nvm + 2 * i) by {
        lemma_vmtx_at(vmtx, nvm, n, i);
    }
    assert forall|i: int|
        0 <= i < n - nvm && 4 * nvm + 2 * i + 2 > vmtx.len() && (nvm > 0 || i > 0) implies
        #[trigger] be16(new, 4 * nvm + 2 * i) == be16(new, 4 * nvm + 2 * i - 2) by {
        lemma_vmtx_at(vmtx, nvm, n, i);
        if i > 0 {
            lemma_vmtx_at(vmtx, nvm, n, i - 1);
        } else {
            assert(new[4 * nvm - 2] == full[4 * nvm - 2]);
            assert(new[4 * nvm - 1] == full[4 * nvm - 1]);
        }
    }
    if nvm == 0 && n > 0 {
        lemma_vmtx_at(vmtx, nvm, n, 0);
    }
}

proof fn lemma_splice16(s: Seq<u8>, i: int, v: int)
    requires
        0 <= i,
        i + 2 <= s.len(),
    ensures
        splice(s, i, enc16(v)).len() == s.len(),
        be16(splice(s, i, enc16(v)), i) == v % 0x1_0000,
        forall|k: int|
            0 <= k < s.len() && !(i <= k < i + 2) ==> #[trigger] splice(s, i, enc16(v))[k] == s[k],
{
    lemma_be16_enc16(v);
    let (t, b) = (splice(s, i, enc16(v)), enc16(v));
    assert(t[i] == b[0] && t[i + 1] == b[1]);
}

proof fn lemma_splice32(s: Seq<u8>, i: int, v: int)
    requires
        0 <= i,
        i + 4 <= s.len(),
    ensures
        splice(s, i, enc32(v)).len() == s.len(),
        be32(splice(s, i, enc32(v)), i) == v % 0x1_0000_0000,
        forall|k: int|
            0 <= k < s.len() && !(i <= k < i + 4) ==> #[trigger] splice(s, i, enc32(v))[k] == s[k],
{
    lemma_be32_enc32(v);
    let (t, b) = (splice(s, i, enc32(v)), enc32(v));
    assert(t[i] == b[0] && t[i + 1] == b[1] && t[i + 2] == b[2] && t[i + 3] == b[3]);
}

/// An `hhea` table of version 1.0 that tells of `n` metrics and is otherwise as it was.
pub open spec fn is_new_hhea(new: Seq<u8>, old: Seq<u8>, n: int) -> bool {
    &&& new.len() == old.len()
    &&& be32(new, 0) == 0x1_0000
    &&& be16(new, 34) == n % 0x1_0000
    &&& forall|i: int| 4 <= i < old.len() && !(34 <= i < 36) ==> #[trigger] keeps(new, old, i)
}

/// The rebuilt `hhea` table tells of a metric for each glyph.
pub proof fn law_hhea_is_new(hhea: Seq<u8>, n: int)
    requires
        hhea.len() >= 36,
    ensures
        is_new_hhea(rebuilt_hhea(hhea, n), hhea, n),
{
    let a = splice(hhea, 0, enc32(0x1_0000));
    lemma_splice32(hhea, 0, 0x1_0000);
    lemma_splice16(a, 34, n);
    let b = splice(a, 34, enc16(n));
    assert(b[0] == a[0] && b[1] == a[1] && b[2] == a[2] && b[3] == a[3]);
    assert forall|i: int| 4 <= i < hhea.len() && !(34 <= i < 36) implies #[trigger] keeps(
        rebuilt_hhea(hhea, n),
        hhea,
        i,
    ) by {
        assert(b[i] == a[i]);
        assert(a[i] == hhea[i]);
    }
}

/// A `vhea` table of version 1.0. Beside a `vmtx` table it tells of no more metrics than there are
/// glyphs. It is otherwise as it was.
pub open spec fn is_new_vhea(new: Seq<u8>, old: Seq<u8>, with_vmtx: bool, n: int) -> bool {
    &&& new.len() == old.len()
    &&& be32(new, 0) == 0x1_0000
    &&& be16(new, 34) == if with_vmtx && n < be16(old, 34) {
        n
    } else {
        be16(old, 34)
    }
    &&& forall|i: int| 4 <= i < old.len() && !(34 <= i < 36) ==> #[trigger] keeps(new, old, i)
}

/// The rebuilt `vhea` table agrees with the glyphs.
pub proof fn law_vhea_is_new(vhea: Seq<u8>, with_vmtx: bool, n: int)
    requires
        vhea.len() >= 36,
        0 <= n,
    ensures
        is_new_vhea(rebuilt_vhea(vhea, with_vmtx, n), vhea, with_vmtx, n),
{
    let a = splice(vhea, 0, enc32(0x1_0000));
    lemma_splice32(vhea, 0, 0x1_0000);
    lemma_splice16(a, 34, n);
    let b = splice(a, 34, enc16(n));
    let new = rebuilt_vhea(vhea, with_vmtx, n);
    assert(b[0] == a[0] && b[1] == a[1] && b[2] == a[2] && b[3] == a[3]);
    assert(a[34] == vhea[34] && a[35] == vhea[35]);
    assert forall|i: int| 4 <= i < vhea.len() && !(34 <= i < 36) implies #[trigger] keeps(
        new,
        vhea,
        i,
    ) by {
        assert(b[i] == a[i]);
        assert(a[i] == vhea[i]);
    }
}

/// A `head` table of 54 bytes: no overall checksum, the extent of all glyphs, long offsets, the
/// only glyph data format. It is otherwise as it was.
pub open spec fn is_new_head(new: Seq<u8>, old: Seq<u8>, b: (i16, i16, i16, i16)) -> bool {
    &&& new.len() == 54
    &&& be32(new, 8) == 0
    &&& signed_at(new, 36) == b.0
    &&& signed_at(new, 38) == b.1
    &&& signed_at(new, 40) == b.2
    &&& signed_at(new, 42) == b.3
    &&& be16(new, 50) == 1
    &&& be16(new, 52) == 0
    &&& forall|i: int|
        0 <= i < 50 && !(8 <= i < 12) && !(36 <= i < 44) ==> #[trigger] keeps(new, old, i)
}

/// The rebuilt `head` table agrees with the glyphs.
pub proof fn law_head_is_new(head: Seq<u8>, b: (i16, i16, i16, i16))
    requires
        head.len() >= 54,
    ensures
        is_new_head(rebuilt_head(head, b), head, b),
{
    reveal(rebuilt_head);
    let h0 = standard_head(head);
    let h1 = splice(h0, 8, enc32(0));
    let h2 = splice(h1, 36, enc16(b.0 as int));
    let h3 = splice(h2, 38, enc16(b.1 as int));
    let h4 = splice(h3, 40, enc16(b.2 as int));
    let h5 = splice(h4, 42, enc16(b.3 as int));
    let h6 = splice(h5, 50, enc16(1));
    let h7 = splice(h6, 52, enc16(0));
    let new = rebuilt_head(head, b);
    assert(new == h7);
    lemma_splice32(h0, 8, 0);
    lemma_splice16(h1, 36, b.0 as int);
    lemma_splice16(h2, 38, b.1 as int);
    lemma_splice16(h3, 40, b.2 as int);
    lemma_splice16(h4, 42, b.3 as int);
    lemma_splice16(h5, 50, 1);
    lemma_splice16(h6, 52, 0);
    assert forall|k: int| 0 <= k < 50 implies #[trigger] h7[k] == h5[k] by {
        assert(h6[k] == h5[k]);
    }
    assert(h7[50] == h6[50] && h7[51] == h6[51]);
    assert(h7[42] == h5[42] && h7[43] == h5[43]);
    assert(h7[40] == h5[40] && h7[41] == h5[41] && h5[40] == h4[40] && h5[41] == h4[41]);
    assert(h7[38] == h5[38] && h7[39] == h5[39] && h5[38] == h4[38] && h5[39] == h4[39] && h4[38]
        == h3[38] && h4[39] == h3[39]);
    assert(h7[36] == h5[36] && h7[37] == h5[37] && h5[36] == h4[36] && h5[37] == h4[37] && h4[36]
        == h3[36] && h4[37] == h3[37] && h3[36] == h2[36] && h3[37] == h2[37]);
    assert forall|k: int| 0 <= k < 36 implies #[trigger] h7[k] == h1[k] by {
        assert(h5[k] == h4[k] && h4[k] == h3[k] && h3[k] == h2[k] && h2[k] == h1[k]);
    }
    assert(h7[8] == h1[8] && h7[9] == h1[9] && h7[10] == h1[10] && h7[11] == h1[11]);
    assert forall|k: int| 0 <= k < 50 && !(8 <= k < 12) && !(36 <= k < 44) implies #[trigger] keeps(
        new,
        head,
        k,
    ) by {
        assert(h0[k] == head[k] && h1[k] == h0[k]);
        assert(h7[k] == h5[k]);
        assert(h5[k] == h4[k] && h4[k] == h3[k] && h3[k] == h2[k] && h2[k] == h1[k]);
    }
}

/// A long `maxp` table that tells of so many points and contours and of no composite glyphs. It is
/// otherwise as it was.
pub open spec fn is_new_maxp(new: Seq<u8>, old: Seq<u8>, points: int, contours: int) -> bool {
    &&& new.len() == old.len()
    &&& be16(new, 6) == points % 0x1_0000
    &&& be16(new, 8) == contours % 0x1_0000
    &&& be16(new, 10) == 0
    &&& be16(new, 12) == 0
    &&& be16(new, 28) == 0
    &&& be16(new, 30) == 0
    &&& forall|i: int|
        0 <= i < old.len() && !(6 <= i < 14) && !(28 <= i < 32) ==> #[trigger] keeps(new, old, i)
}

/// The rebuilt `maxp` table agrees with the glyphs. One of the short form stays as it is.
pub proof fn law_maxp_is_new(maxp: Seq<u8>, points: int, contours: int)
    ensures
        maxp.len() >= 32 ==> is_new_maxp(
            rebuilt_maxp(maxp, points, contours),
            maxp,
            points,
            contours,
        ),
        maxp.len() < 32 ==> rebuilt_maxp(maxp, points, contours) == maxp,
{
    reveal(rebuilt_maxp);
    if maxp.len() >= 32 {
        let m1 = splice(maxp, 6, enc16(points));
        let m2 = splice(m1, 8, enc16(contours));
        let m3 = splice(m2, 10, enc16(0));
        let m4 = splice(m3, 12, enc16(0));
        let m5 = splice(m4, 28, enc16(0));
        let m6 = splice(m5, 30, enc16(0));
        lemma_splice16(maxp, 6, points);
        lemma_splice16(m1, 8, contours);
        lemma_splice16(m2, 10, 0);
        lemma_splice16(m3, 12, 0);
        lemma_splice16(m4, 28, 0);
        lemma_splice16(m5, 30, 0);
        assert forall|k: int| 0 <= k < 28 implies #[trigger] m6[k] == m4[k] by {
            assert(m5[k] == m4[k]);
        }
        assert(m6[28] == m5[28] && m6[29] == m5[29]);
        assert(m6[12] == m4[12] && m6[13] == m4[13]);
        assert(m6[10] == m4[10] && m6[11] == m4[11] && m4[10] == m3[10] && m4[11] == m3[11]);
        assert(m6[8] == m4[8] && m6[9] == m4[9] && m4[8] == m3[8] && m4[9] == m3[9] && m3[8]
            == m2[8] && m3[9] == m2[9]);
        assert(m6[6] == m4[6] && m6[7] == m4[7] && m4[6] == m3[6] && m4[7] == m3[7] && m3[6]
            == m2[6] && m3[7] == m2[7] && m2[6] == m1[6] && m2[7] == m1[7]);
        assert forall|k: int|
            0 <= k < maxp.len() && !(6 <= k < 14) && !(28 <= k < 32) implies #[trigger] keeps(
            rebuilt_maxp(maxp, points, contours),
            maxp,
            k,
        ) by {
            assert(m6[k] == m5[k] && m5[k] == m4[k] && m4[k] == m3[k] && m3[k] == m2[k] && m2[k]
                == m1[k] && m1[k] == maxp[k]);
        }
    }
}

/// The rebuilt `gasp` table has version 1 and is otherwise as it was.
pub proof fn law_gasp_is_new(gasp: Seq<u8>)
    ensures
        rebuilt_gasp(gasp).len() == gasp.len(),
        gasp.len() >= 4 ==> be16(rebuilt_gasp(gasp), 0) == 1,
        gasp.len() < 4 ==> rebuilt_gasp(gasp) == gasp,
        forall|i: int| 2 <= i < gasp.len() ==> #[trigger] keeps(rebuilt_gasp(gasp), gasp, i),
{
    if gasp.len() >= 4 {
        lemma_splice16(gasp, 0, 1);
    }
}

/// The rebuilt `post` table has version 3.0, no names and the other fields as they were.
pub proof fn law_post_is_new(post: Seq<u8>)
    ensures
        post.len() >= 32 ==> rebuilt_post(post).len() == 32 && be32(rebuilt_post(post), 0)
            == 0x3_0000,
        post.len() < 32 ==> rebuilt_post(post) == post,
        forall|i: int|
            4 <= i < 32 && i < post.len() ==> #[trigger] keeps(rebuilt_post(post), post, i),
{
    if post.len() >= 32 {
        let v = enc32(0x3_0000);
        lemma_be32_enc32(0x3_0000);
        let new = rebuilt_post(post);
        assert(new[0] == v[0] && new[1] == v[1] && new[2] == v[2] && new[3] == v[3]);
        assert forall|i: int| 4 <= i < 32 implies #[trigger] keeps(new, post, i) by {
            assert(new[i] == post.subrange(4, 32)[i - 4]);
        }
    }
}

} // verus!
