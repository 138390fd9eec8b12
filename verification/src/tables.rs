//! The small tables that have to agree with the glyphs or with the standard.

use vstd::prelude::*;
use vstd::slice::{slice_subrange, slice_to_vec};
use crate::bytes::{
    append, be16, enc16, enc32, get16, push16, push32, push_signed16, set16, set32, set_len16,
    set_signed16, splice,
};

verus! {

broadcast use crate::bytes::group_encoded_lengths;

/// The least and the greatest x and y of a glyph; none for a glyph without points.
pub type Bounds = Option<(i16, i16, i16, i16)>;

/// The full metrics at the start of a `vmtx` table; zeros follow a table that is too short.
pub open spec fn full_metrics(vmtx: Seq<u8>, nvm: int) -> Seq<u8> {
    Seq::new(
        (4 * nvm) as nat,
        |i: int|
            if i < vmtx.len() {
                vmtx[i]
            } else {
                0
            },
    )
}

/// The number of side bearings that follow the full metrics.
pub open spec fn bearing_count(vmtx: Seq<u8>, nvm: int) -> int {
    if vmtx.len() <= 4 * nvm {
        0
    } else {
        (vmtx.len() - 4 * nvm) / 2
    }
}

/// Side bearing `i`. The last known one stands for those that are missing: where none follow the
/// full metrics, that of the last full metric, and 0 where there is no metric either.
pub open spec fn bearing(vmtx: Seq<u8>, nvm: int, i: int) -> int {
    let count = bearing_count(vmtx, nvm);
    if i < count {
        be16(vmtx, 4 * nvm + 2 * i)
    } else if count > 0 {
        be16(vmtx, 4 * nvm + 2 * (count - 1))
    } else if nvm > 0 {
        be16(full_metrics(vmtx, nvm), 4 * nvm - 2)
    } else {
        0
    }
}

/// The first `k` side bearings.
pub open spec fn bearings(vmtx: Seq<u8>, nvm: int, k: int) -> Seq<u8>
    decreases k,
{
    if k <= 0 {
        Seq::empty()
    } else {
        bearings(vmtx, nvm, k - 1) + enc16(bearing(vmtx, nvm, k - 1))
    }
}

/// A `vmtx` table with `nvm` full metrics for `n` glyphs.
pub open spec fn rebuilt_vmtx(vmtx: Seq<u8>, nvm: int, n: int) -> Seq<u8> {
    full_metrics(vmtx, nvm) + bearings(vmtx, nvm, n - nvm)
}

/// Rebuilds the `vmtx` table so that it covers all glyphs.
pub fn rebuild_vmtx_table(vmtx: &[u8], nvm: usize, num_glyphs: usize) -> (out: Vec<u8>)
    requires
        nvm <= num_glyphs,
        4 * nvm + 2 * (num_glyphs - nvm) <= usize::MAX,
    ensures
        out@ == rebuilt_vmtx(vmtx@, nvm as int, num_glyphs as int),
{
    let metrics: usize = 4 * nvm;
    let mut out: Vec<u8> = Vec::new();
    let mut i: usize = 0;
    while i < metrics
        invariant
            i <= metrics,
            metrics == 4 * nvm,
            out@ =~= full_metrics(vmtx@, nvm as int).take(i as int),
        decreases metrics - i,
    {
        if i < vmtx.len() {
            out.push(vmtx[i]);
        } else {
            out.push(0);
        }
        i += 1;
    }
    assert(out@ =~= full_metrics(vmtx@, nvm as int));
    let count: usize = if vmtx.len() <= metrics {
        0
    } else {
        (vmtx.len() - metrics) / 2
    };
    let rest: usize = num_glyphs - nvm;
    let mut last: u16 = if nvm > 0 {
        get16(out.as_slice(), metrics - 2)
    } else {
        0
    };
    i = 0;
    assert(out@ =~= full_metrics(vmtx@, nvm as int) + bearings(vmtx@, nvm as int, 0));
    while i < rest
        invariant
            i <= rest,
            metrics == 4 * nvm,
            count == bearing_count(vmtx@, nvm as int),
            count > 0 ==> metrics + 2 * count <= vmtx.len(),
            i == 0 && count == 0 ==> last == bearing(vmtx@, nvm as int, 0),
            i > 0 ==> last == bearing(vmtx@, nvm as int, i - 1),
            out@ == full_metrics(vmtx@, nvm as int) + bearings(vmtx@, nvm as int, i as int),
        decreases rest - i,
    {
        if i < count {
            last = get16(vmtx, metrics + 2 * i);
        }
        assert(last == bearing(vmtx@, nvm as int, i as int));
        push16(&mut out, last);
        assert(out@ =~= full_metrics(vmtx@, nvm as int) + bearings(vmtx@, nvm as int, i + 1));
        i += 1;
    }
    out
}

/// The advance of a glyph. The last metric of the table stands for those that are missing.
pub open spec fn advance(hmtx: Seq<u8>, nhm: int, gid: int) -> int {
    if gid < nhm {
        be16(hmtx, 4 * gid)
    } else {
        be16(hmtx, 4 * (nhm - 1))
    }
}

/// The left side bearing of a glyph: its least x.
pub open spec fn left_bearing(b: Bounds) -> int {
    match b {
        Some(b) => b.0 as int,
        None => 0,
    }
}

/// The metrics of the first `k` glyphs.
pub open spec fn metrics(hmtx: Seq<u8>, nhm: int, boxes: Seq<Bounds>, k: int) -> Seq<u8>
    decreases k,
{
    if k <= 0 {
        Seq::empty()
    } else {
        metrics(hmtx, nhm, boxes, k - 1) + (enc16(advance(hmtx, nhm, k - 1)) + enc16(
            left_bearing(boxes[k - 1]),
        ))
    }
}

/// An `hmtx` table with a full metric for each glyph.
pub open spec fn rebuilt_hmtx(hmtx: Seq<u8>, nhm: int, boxes: Seq<Bounds>) -> Seq<u8> {
    metrics(hmtx, nhm, boxes, boxes.len() as int)
}

/// The table holds the `nhm` metrics as far as `n` glyphs use them, and one at least where some
/// glyph has none of its own.
pub open spec fn covers_metrics(hmtx: Seq<u8>, nhm: int, n: int) -> bool {
    if n > nhm {
        0 < nhm && 4 * nhm <= hmtx.len()
    } else {
        4 * n <= hmtx.len()
    }
}

/// Rebuilds the `hmtx` table so that each glyph has its metric.
pub fn rebuild_hmtx(hmtx: &[u8], nhm: usize, boxes: &Vec<Bounds>) -> (out: Vec<u8>)
    requires
        nhm < 0x1_0000,
        covers_metrics(hmtx@, nhm as int, boxes@.len() as int),
    ensures
        out@ == rebuilt_hmtx(hmtx@, nhm as int, boxes@),
{
    let n: usize = boxes.len();
    let mut out: Vec<u8> = Vec::new();
    let mut i: usize = 0;
    while i < n
        invariant
            i <= n,
            n == boxes@.len(),
            nhm < 0x1_0000,
            covers_metrics(hmtx@, nhm as int, boxes@.len() as int),
            out@ == metrics(hmtx@, nhm as int, boxes@, i as int),
        decreases n - i,
    {
        let adv = if i < nhm {
            get16(hmtx, 4 * i)
        } else {
            get16(hmtx, 4 * (nhm - 1))
        };
        let lsb: i16 = match boxes[i] {
            Some(b) => b.0,
            None => 0,
        };
        let ghost before = out@;
        push16(&mut out, adv);
        push_signed16(&mut out, lsb);
        assert(out@ =~= before + (enc16(adv as int) + enc16(lsb as int)));
        i += 1;
    }
    out
}

/// An `hhea` table with a full metric for each of `n` glyphs.
pub open spec fn rebuilt_hhea(hhea: Seq<u8>, n: int) -> Seq<u8> {
    splice(splice(hhea, 0, enc32(0x1_0000)), 34, enc16(n))
}

/// Rebuilds the `hhea` table.
pub fn rebuild_hhea(hhea: &[u8], num_glyphs: usize) -> (out: Vec<u8>)
    requires
        hhea@.len() >= 36,
    ensures
        out@ == rebuilt_hhea(hhea@, num_glyphs as int),
{
    let mut out = slice_to_vec(hhea);
    set32(&mut out, 0, 0x1_0000);
    set_len16(&mut out, 34, num_glyphs);
    out
}

/// The part of a `head` table that the standard knows.
pub open spec fn standard_head(head: Seq<u8>) -> Seq<u8> {
    if head.len() > 54 {
        head.take(54)
    } else {
        head
    }
}

/// A `head` table without an overall checksum, with the extent of all glyphs, and with long
/// offsets in `loca`.
#[verifier::opaque]
pub open spec fn rebuilt_head(head: Seq<u8>, b: (i16, i16, i16, i16)) -> Seq<u8> {
    let h = splice(standard_head(head), 8, enc32(0));
    let h = splice(h, 36, enc16(b.0 as int));
    let h = splice(h, 38, enc16(b.1 as int));
    let h = splice(h, 40, enc16(b.2 as int));
    let h = splice(h, 42, enc16(b.3 as int));
    let h = splice(h, 50, enc16(1));
    splice(h, 52, enc16(0))
}

/// Rebuilds the `head` table.
pub fn rebuild_head(head: &[u8], b: (i16, i16, i16, i16)) -> (out: Vec<u8>)
    requires
        head@.len() >= 54,
    ensures
        out@ == rebuilt_head(head@, b),
{
    proof {
        reveal(rebuilt_head);
    }
    let mut out = slice_to_vec(slice_subrange(head, 0, 54));
    assert(out@ =~= standard_head(head@));
    set32(&mut out, 8, 0);
    set_signed16(&mut out, 36, b.0);
    set_signed16(&mut out, 38, b.1);
    set_signed16(&mut out, 40, b.2);
    set_signed16(&mut out, 42, b.3);
    set16(&mut out, 50, 1);
    set16(&mut out, 52, 0);
    out
}

/// A `maxp` table for simple glyphs with at most so many points and contours. One of the short
/// form stays as it is.
#[verifier::opaque]
pub open spec fn rebuilt_maxp(maxp: Seq<u8>, points: int, contours: int) -> Seq<u8> {
    if maxp.len() >= 32 {
        let m = splice(maxp, 6, enc16(points));
        let m = splice(m, 8, enc16(contours));
        let m = splice(m, 10, enc16(0));
        let m = splice(m, 12, enc16(0));
        let m = splice(m, 28, enc16(0));
        splice(m, 30, enc16(0))
    } else {
        maxp
    }
}

/// Rebuilds the `maxp` table.
pub fn rebuild_maxp(maxp: &[u8], points: usize, contours: usize) -> (out: Vec<u8>)
    ensures
        out@ == rebuilt_maxp(maxp@, points as int, contours as int),
{
    proof {
        reveal(rebuilt_maxp);
    }
    let mut out = slice_to_vec(maxp);
    if out.len() >= 32 {
        set_len16(&mut out, 6, points);
        set_len16(&mut out, 8, contours);
        set16(&mut out, 10, 0);
        set16(&mut out, 12, 0);
        set16(&mut out, 28, 0);
        set16(&mut out, 30, 0);
    }
    out
}

/// The number of full metrics that a `vhea` table gives, but no more than there are glyphs.
pub open spec fn vertical_count(vhea: Seq<u8>, n: int) -> int {
    if be16(vhea, 34) > n {
        n
    } else {
        be16(vhea, 34)
    }
}

/// A `vhea` table of the standard version; beside a `vmtx` table, with no more metrics than there
/// are glyphs.
pub open spec fn rebuilt_vhea(vhea: Seq<u8>, with_vmtx: bool, n: int) -> Seq<u8> {
    let v = splice(vhea, 0, enc32(0x1_0000));
    if with_vmtx && be16(vhea, 34) > n {
        splice(v, 34, enc16(n))
    } else {
        v
    }
}

/// Rebuilds the `vhea` table.
pub fn rebuild_vhea(vhea: &[u8], with_vmtx: bool, num_glyphs: usize) -> (out: Vec<u8>)
    requires
        vhea@.len() >= 36,
    ensures
        out@ == rebuilt_vhea(vhea@, with_vmtx, num_glyphs as int),
{
    let nvm = get16(vhea, 34);
    let mut out = slice_to_vec(vhea);
    set32(&mut out, 0, 0x1_0000);
    if with_vmtx && nvm as usize > num_glyphs {
        set_len16(&mut out, 34, num_glyphs);
    }
    out
}

/// A `gasp` table of the standard version.
pub open spec fn rebuilt_gasp(gasp: Seq<u8>) -> Seq<u8> {
    if gasp.len() >= 4 {
        splice(gasp, 0, enc16(1))
    } else {
        gasp
    }
}

/// Rebuilds the `gasp` table.
pub fn rebuild_gasp(gasp: &[u8]) -> (out: Vec<u8>)
    ensures
        out@ == rebuilt_gasp(gasp@),
{
    let mut out = slice_to_vec(gasp);
    if out.len() >= 4 {
        set16(&mut out, 0, 1);
    }
    out
}

/// A `post` table without names of glyphs.
pub open spec fn rebuilt_post(post: Seq<u8>) -> Seq<u8> {
    if post.len() >= 32 {
        enc32(0x3_0000) + post.subrange(4, 32)
    } else {
        post
    }
}

/// Rebuilds the `post` table.
pub fn rebuild_post(post: &[u8]) -> (out: Vec<u8>)
    ensures
        out@ == rebuilt_post(post@),
{
    if post.len() < 32 {
        return slice_to_vec(post);
    }
    let mut out: Vec<u8> = Vec::new();
    push32(&mut out, 0x3_0000);
    append(&mut out, slice_subrange(post, 4, 32));
    assert(out@ =~= rebuilt_post(post@));
    out
}

} // verus!
