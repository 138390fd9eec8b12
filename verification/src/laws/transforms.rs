//! What a transform does to points, and where the points of a record come out.

use vstd::prelude::*;
use crate::bytes::wrap32;
use crate::outline::{
    anchored, composed, finished, flipped, hung, moved, placed, rescaled, Rec, Transform,
};

verus! {

/// A number has a place in 32 bits.
pub open spec fn in32(v: int) -> bool {
    -0x8000_0000 <= v < 0x8000_0000
}

/// `q` is the 64th part of `v`, rounded down.
pub open spec fn is_floor64(q: int, v: int) -> bool {
    64 * q <= v < 64 * q + 64
}

proof fn lemma_floor(v: int)
    requires
        in32(v),
    ensures
        is_floor64(rescaled(v) as int, v),
{
}

/// Whole units come through a division by 64.
proof fn lemma_floor_shifted(v: int, d: int)
    requires
        in32(v),
        in32(v + 64 * d),
    ensures
        rescaled(v + 64 * d) == rescaled(v) + d,
{
}

/// A number that has a place in 32 bits stays as it is; any other loses a multiple of 2^32.
pub proof fn law_wrapping_keeps_low_bits(v: int)
    ensures
        in32(wrap32(v) as int),
        (wrap32(v) - v) % 0x1_0000_0000 == 0,
        in32(v) ==> wrap32(v) == v,
{
}

/// The new x is made of both old coordinates by the scale in x and the shear of y, the new y by the
/// shear of x and the scale in y. Both are in 64ths, as are the shifts, and are rounded down.
pub proof fn law_transform_moves_points(p: (i32, i32), m: Transform)
    requires
        in32(m.sx * p.0 + m.ky * p.1 + m.tx),
        in32(m.kx * p.0 + m.sy * p.1 + m.ty),
    ensures
        is_floor64(moved(p, m).0 as int, m.sx * p.0 + m.ky * p.1 + m.tx),
        is_floor64(moved(p, m).1 as int, m.kx * p.0 + m.sy * p.1 + m.ty),
{
}

/// A transform without shifts takes the unit points to the columns of its matrix: each of the four
/// entries acts.
pub proof fn law_transform_moves_unit_points(m: Transform)
    requires
        m.tx == 0,
        m.ty == 0,
        in32(64 * m.sx),
        in32(64 * m.kx),
        in32(64 * m.ky),
        in32(64 * m.sy),
    ensures
        moved((64, 0), m) == (m.sx, m.kx),
        moved((0, 64), m) == (m.ky, m.sy),
{
    lemma_whole(m.sx as int);
    lemma_whole(m.kx as int);
    lemma_whole(m.ky as int);
    lemma_whole(m.sy as int);
    assert(m.sx * 64 + m.ky * 0 + m.tx == 64 * m.sx);
    assert(m.kx * 64 + m.sy * 0 + m.ty == 64 * m.kx);
    assert(m.sx * 0 + m.ky * 64 + m.tx == 64 * m.ky);
    assert(m.kx * 0 + m.sy * 64 + m.ty == 64 * m.sy);
}

/// A transform that sets one scale alone changes one coordinate alone.
pub proof fn law_scales_are_independent(p: (i32, i32), s: i32)
    requires
        in32(s * p.0),
        in32(s * p.1),
        in32(64 * p.0),
        in32(64 * p.1),
    ensures
        ({
            let wide = moved(p, Transform { sx: s, kx: 0, ky: 0, sy: 64, tx: 0, ty: 0, extra: 64 });
            let high = moved(p, Transform { sx: 64, kx: 0, ky: 0, sy: s, tx: 0, ty: 0, extra: 64 });
            &&& wide.1 == p.1 && is_floor64(wide.0 as int, s * p.0)
            &&& high.0 == p.0 && is_floor64(high.1 as int, s * p.1)
        }),
{
    assert(0 * p.0 == 0 && 0 * p.1 == 0);
}

/// A shift by whole units moves every point by as much.
pub proof fn law_shifts_move_all_points(p: (i32, i32), m: Transform, dx: int, dy: int)
    requires
        in32(m.sx * p.0 + m.ky * p.1 + m.tx),
        in32(m.kx * p.0 + m.sy * p.1 + m.ty),
        in32(m.sx * p.0 + m.ky * p.1 + m.tx + 64 * dx),
        in32(m.kx * p.0 + m.sy * p.1 + m.ty + 64 * dy),
        in32(m.tx + 64 * dx),
        in32(m.ty + 64 * dy),
    ensures
        ({
            let shifted = Transform {
                tx: (m.tx + 64 * dx) as i32,
                ty: (m.ty + 64 * dy) as i32,
                ..m
            };
            &&& moved(p, shifted).0 == moved(p, m).0 + dx
            &&& moved(p, shifted).1 == moved(p, m).1 + dy
        }),
{
    lemma_floor_shifted(m.sx * p.0 + m.ky * p.1 + m.tx, dx);
    lemma_floor_shifted(m.kx * p.0 + m.sy * p.1 + m.ty, dy);
}

proof fn lemma_sum(t: i32, q: i32)
    requires
        -0x4000_0000 <= t < 0x4000_0000,
        -0x200_0000 <= q < 0x200_0000,
    ensures
        wrap32(t + q) == t + q,
{
}

/// Two transforms together are, entry by entry, the product of their matrices in 64ths, rounded
/// down; the inner shifts are moved by the outer matrix and the outer shifts are added.
pub proof fn law_transforms_multiply(a: Transform, b: Transform)
    requires
        in32(a.sx * b.sx + a.ky * b.kx),
        in32(a.kx * b.sx + a.sy * b.kx),
        in32(a.sx * b.ky + a.ky * b.sy),
        in32(a.kx * b.ky + a.sy * b.sy),
        in32(a.sx * b.tx + a.ky * b.ty),
        in32(a.kx * b.tx + a.sy * b.ty),
        in32(a.extra * b.extra),
        -0x4000_0000 <= a.tx < 0x4000_0000,
        -0x4000_0000 <= a.ty < 0x4000_0000,
    ensures
        ({
            let c = composed(a, b);
            &&& is_floor64(c.sx as int, a.sx * b.sx + a.ky * b.kx)
            &&& is_floor64(c.kx as int, a.kx * b.sx + a.sy * b.kx)
            &&& is_floor64(c.ky as int, a.sx * b.ky + a.ky * b.sy)
            &&& is_floor64(c.sy as int, a.kx * b.ky + a.sy * b.sy)
            &&& is_floor64(c.tx - a.tx, a.sx * b.tx + a.ky * b.ty)
            &&& is_floor64(c.ty - a.ty, a.kx * b.tx + a.sy * b.ty)
            &&& is_floor64(c.extra as int, a.extra * b.extra)
        }),
{
    lemma_floor(a.sx * b.sx + a.ky * b.kx);
    lemma_floor(a.kx * b.sx + a.sy * b.kx);
    lemma_floor(a.sx * b.ky + a.ky * b.sy);
    lemma_floor(a.kx * b.ky + a.sy * b.sy);
    lemma_floor(a.sx * b.tx + a.ky * b.ty);
    lemma_floor(a.kx * b.tx + a.sy * b.ty);
    lemma_floor(a.extra * b.extra);
    lemma_sum(a.tx, rescaled(a.sx * b.tx + a.ky * b.ty));
    lemma_sum(a.ty, rescaled(a.kx * b.tx + a.sy * b.ty));
}

proof fn lemma_whole(q: int)
    requires
        in32(64 * q),
    ensures
        rescaled(64 * q) == q,
{
}

/// Two transforms together do what the inner one and then the outer one does, where the inner one
/// moves whole points to whole points.
pub proof fn law_transforms_together_work_in_turn(
    p: (i32, i32),
    a: Transform,
    b: Transform,
    sx: int,
    kx: int,
    ky: int,
    sy: int,
    tx: int,
    ty: int,
)
    requires
        b.sx == 64 * sx,
        b.kx == 64 * kx,
        b.ky == 64 * ky,
        b.sy == 64 * sy,
        b.tx == 64 * tx,
        b.ty == 64 * ty,
        in32(64 * (a.sx * sx + a.ky * kx)),
        in32(64 * (a.kx * sx + a.sy * kx)),
        in32(64 * (a.sx * ky + a.ky * sy)),
        in32(64 * (a.kx * ky + a.sy * sy)),
        in32(64 * (a.sx * tx + a.ky * ty)),
        in32(64 * (a.kx * tx + a.sy * ty)),
        in32(a.tx + a.sx * tx + a.ky * ty),
        in32(a.ty + a.kx * tx + a.sy * ty),
        in32(64 * (sx * p.0 + ky * p.1 + tx)),
        in32(64 * (kx * p.0 + sy * p.1 + ty)),
    ensures
        moved(p, composed(a, b)) == moved(moved(p, b), a),
{
    let (x, y) = (p.0 as int, p.1 as int);
    let c = composed(a, b);
    assert(a.sx * b.sx + a.ky * b.kx == 64 * (a.sx * sx + a.ky * kx)) by (nonlinear_arith)
        requires
            b.sx == 64 * sx,
            b.kx == 64 * kx,
    ;
    assert(a.kx * b.sx + a.sy * b.kx == 64 * (a.kx * sx + a.sy * kx)) by (nonlinear_arith)
        requires
            b.sx == 64 * sx,
            b.kx == 64 * kx,
    ;
    assert(a.sx * b.ky + a.ky * b.sy == 64 * (a.sx * ky + a.ky * sy)) by (nonlinear_arith)
        requires
            b.ky == 64 * ky,
            b.sy == 64 * sy,
    ;
    assert(a.kx * b.ky + a.sy * b.sy == 64 * (a.kx * ky + a.sy * sy)) by (nonlinear_arith)
        requires
            b.ky == 64 * ky,
            b.sy == 64 * sy,
    ;
    assert(a.sx * b.tx + a.ky * b.ty == 64 * (a.sx * tx + a.ky * ty)) by (nonlinear_arith)
        requires
            b.tx == 64 * tx,
            b.ty == 64 * ty,
    ;
    assert(a.kx * b.tx + a.sy * b.ty == 64 * (a.kx * tx + a.sy * ty)) by (nonlinear_arith)
        requires
            b.tx == 64 * tx,
            b.ty == 64 * ty,
    ;
    lemma_whole(a.sx * sx + a.ky * kx);
    lemma_whole(a.kx * sx + a.sy * kx);
    lemma_whole(a.sx * ky + a.ky * sy);
    lemma_whole(a.kx * ky + a.sy * sy);
    lemma_whole(a.sx * tx + a.ky * ty);
    lemma_whole(a.kx * tx + a.sy * ty);
    let (u, v) = (sx * x + ky * y + tx, kx * x + sy * y + ty);
    assert(b.sx * x + b.ky * y + b.tx == 64 * u) by (nonlinear_arith)
        requires
            b.sx == 64 * sx,
            b.ky == 64 * ky,
            b.tx == 64 * tx,
            u == sx * x + ky * y + tx,
    ;
    assert(b.kx * x + b.sy * y + b.ty == 64 * v) by (nonlinear_arith)
        requires
            b.kx == 64 * kx,
            b.sy == 64 * sy,
            b.ty == 64 * ty,
            v == kx * x + sy * y + ty,
    ;
    lemma_whole(u);
    lemma_whole(v);
    assert(moved(p, b) == (u as i32, v as i32));
    lemma_product(a.sx as int, a.ky as int, sx, kx, ky, sy, tx, ty, x, y);
    lemma_product(a.kx as int, a.sy as int, sx, kx, ky, sy, tx, ty, x, y);
    assert(c.tx == a.tx + (a.sx * tx + a.ky * ty));
    assert(c.ty == a.ty + (a.kx * tx + a.sy * ty));
}

proof fn lemma_product(
    p: int,
    q: int,
    sx: int,
    kx: int,
    ky: int,
    sy: int,
    tx: int,
    ty: int,
    x: int,
    y: int,
)
    ensures
        (p * sx + q * kx) * x + (p * ky + q * sy) * y + (p * tx + q * ty) == p * (sx * x + ky * y
            + tx) + q * (kx * x + sy * y + ty),
{
    assert((p * sx + q * kx) * x == p * (sx * x) + q * (kx * x)) by (nonlinear_arith);
    assert((p * ky + q * sy) * y == p * (ky * y) + q * (sy * y)) by (nonlinear_arith);
    assert(p * (sx * x + ky * y + tx) == p * (sx * x) + p * (ky * y) + p * tx) by (nonlinear_arith);
    assert(q * (kx * x + sy * y + ty) == q * (kx * x) + q * (sy * y) + q * ty) by (nonlinear_arith);
}

/// Every point of a record with anchors hangs on one that exists.
pub open spec fn hangs(rec: Rec) -> bool {
    &&& rec.wf()
    &&& rec.c1 > 0
    &&& forall|i: int| 0 <= i < rec.c2 ==> #[trigger] rec.extra[i] < rec.c1
}

proof fn lemma_anchored_at(rec: Rec, k: int, i: int)
    requires
        hangs(rec),
        0 <= k <= rec.c2,
    ensures
        anchored(rec, k).len() == k,
        0 <= i < k ==> anchored(rec, k)[i] == hung(
            moved(rec.points[rec.extra[i] as int], rec.chain),
            rec.points[rec.c1 + i],
            rec.chain.extra,
        ),
    decreases k,
{
    if k > 0 {
        lemma_anchored_at(rec, k - 1, i);
        assert(rec.extra[k - 1] < rec.c1);
    }
}

/// Coordinates that stay in 32 bits through everything that comes.
pub open spec fn modest(p: (i32, i32)) -> bool {
    -0x100_0000 <= p.0 < 0x100_0000 && -0x100_0000 <= p.1 < 0x100_0000
}

/// A point that hangs on an anchor, in a record that no transform touches, comes out at the anchor
/// that its byte names plus its own offset: 128 is added to x, and y is taken from 92.
pub proof fn law_points_hang_on_their_anchors(rec: Rec, i: int)
    requires
        hangs(rec),
        0 <= i < rec.c2,
        rec.chain == (Transform { sx: 64, kx: 0, ky: 0, sy: 64, tx: 0, ty: 0, extra: 64 }),
        modest(rec.points[rec.extra[i] as int]),
        modest(rec.points[rec.c1 + i]),
    ensures
        finished(rec).points.len() == rec.c2,
        ({
            let a = rec.points[rec.extra[i] as int];
            let d = rec.points[rec.c1 + i];
            let p = finished(rec).points[i];
            p.0 == a.0 + d.0 + 128 && p.1 == 92 - (a.1 + d.1)
        }),
{
    lemma_anchored_at(rec, rec.c2, i);
    let a = rec.points[rec.extra[i] as int];
    let d = rec.points[rec.c1 + i];
    lemma_unmoved(a, rec.chain);
    lemma_hung_unscaled(a, d);
    lemma_flipped(((a.0 + d.0) as i32, (a.1 + d.1) as i32));
}

proof fn lemma_unmoved(p: (i32, i32), m: Transform)
    requires
        modest(p),
        m == (Transform { sx: 64, kx: 0, ky: 0, sy: 64, tx: 0, ty: 0, extra: 64 }),
    ensures
        moved(p, m) == p,
{
    lemma_whole(p.0 as int);
    lemma_whole(p.1 as int);
}

proof fn lemma_hung_unscaled(a: (i32, i32), d: (i32, i32))
    requires
        modest(a),
        modest(d),
    ensures
        hung(a, d, 64) == ((a.0 + d.0) as i32, (a.1 + d.1) as i32),
{
    lemma_whole(d.0 as int);
    lemma_whole(d.1 as int);
    lemma_sum(a.0, d.0);
    lemma_sum(a.1, d.1);
}

/// A point that hangs on an anchor comes out where the transform takes the anchor, plus its offset
/// in the scale of anchored points, rounded down. The matrix does not touch the offset.
pub proof fn law_offsets_are_scaled(rec: Rec, i: int)
    requires
        hangs(rec),
        0 <= i < rec.c2,
        modest(moved(rec.points[rec.extra[i] as int], rec.chain)),
        in32(rec.points[rec.c1 + i].0 * rec.chain.extra),
        in32(rec.points[rec.c1 + i].1 * rec.chain.extra),
    ensures
        ({
            let a = moved(rec.points[rec.extra[i] as int], rec.chain);
            let d = rec.points[rec.c1 + i];
            let p = finished(rec).points[i];
            &&& is_floor64(p.0 - 128 - a.0, d.0 * rec.chain.extra)
            &&& is_floor64(92 - p.1 - a.1, d.1 * rec.chain.extra)
        }),
{
    lemma_anchored_at(rec, rec.c2, i);
    let a = moved(rec.points[rec.extra[i] as int], rec.chain);
    let d = rec.points[rec.c1 + i];
    let (u, v) = (rescaled(d.0 * rec.chain.extra), rescaled(d.1 * rec.chain.extra));
    lemma_floor(d.0 * rec.chain.extra);
    lemma_floor(d.1 * rec.chain.extra);
    lemma_sum(a.0, u);
    lemma_sum(a.1, v);
    assert(hung(a, d, rec.chain.extra) == ((a.0 + u) as i32, (a.1 + v) as i32));
    lemma_flipped(((a.0 + u) as i32, (a.1 + v) as i32));
}

proof fn lemma_flipped(p: (i32, i32))
    requires
        -0x4000_0000 <= p.0 < 0x4000_0000,
        -0x4000_0000 <= p.1 < 0x4000_0000,
    ensures
        flipped(p).0 == p.0 + 128,
        flipped(p).1 == 92 - p.1,
{
}

/// A record without the point `i` that hangs on an anchor.
pub open spec fn without(rec: Rec, i: int) -> Rec {
    Rec {
        points: rec.points.remove(rec.c1 + i),
        extra: rec.extra.remove(i),
        c2: rec.c2 - 1,
        ..rec
    }
}

proof fn lemma_anchored_without(rec: Rec, i: int, k: int)
    requires
        rec.wf(),
        rec.c1 > 0,
        0 <= i < rec.c2,
        rec.extra[i] >= rec.c1,
        0 <= k <= rec.c2,
    ensures
        k <= i ==> anchored(without(rec, i), k) == anchored(rec, k),
        k > i ==> anchored(without(rec, i), k - 1) == anchored(rec, k),
    decreases k,
{
    if k > 0 {
        lemma_anchored_without(rec, i, k - 1);
    }
}

/// A point whose anchor does not exist is left out: the others come out as if it were not there.
pub proof fn law_points_without_anchor_are_left_out(rec: Rec, i: int)
    requires
        rec.wf(),
        rec.c1 > 0,
        0 <= i < rec.c2,
        rec.extra[i] >= rec.c1,
    ensures
        finished(rec).points == finished(without(rec, i)).points,
{
    lemma_anchored_without(rec, i, rec.c2);
}

/// The points of a record without anchors come out in their order: 128 is added to x, and y is
/// taken from 92.
pub proof fn law_points_are_flipped(rec: Rec, i: int)
    requires
        rec.c1 == 0,
        0 <= i < rec.points.len(),
        modest(rec.points[i]),
    ensures
        finished(rec).points.len() == rec.points.len(),
        finished(rec).points[i].0 == rec.points[i].0 + 128,
        finished(rec).points[i].1 == 92 - rec.points[i].1,
{
}

/// The points of the outline keep their flags, which stand behind those of the anchors; the last
/// one is marked as the end of a contour.
pub proof fn law_flags_are_kept(rec: Rec, i: int)
    requires
        rec.wf(),
        0 <= i < rec.c2,
    ensures
        finished(rec).flags.len() == rec.c2,
        i < rec.c2 - 1 ==> finished(rec).flags[i] == rec.flags[rec.c1 + i],
        i == rec.c2 - 1 ==> finished(rec).flags[i] == if rec.flags[rec.c1 + i] < 128 {
            rec.flags[rec.c1 + i] + 128
        } else {
            rec.flags[rec.c1 + i] as int
        },
{
    let b = rec.flags[rec.c1 + rec.c2 - 1];
    assert(b < 128 ==> b | 0x80 == b + 128) by (bit_vector);
    assert(b >= 128 ==> b | 0x80 == b) by (bit_vector);
}

/// A component does not touch the points of a record with anchors. It joins its transform to that
/// of the record, from outside: an anchor goes where the record takes it and from there where the
/// component takes it. The anchored points get both scales.
pub proof fn law_anchors_are_placed_outwards(
    rec: Rec,
    p: (i32, i32),
    a: Transform,
    sx: int,
    kx: int,
    ky: int,
    sy: int,
    tx: int,
    ty: int,
)
    requires
        rec.c1 > 0,
        rec.chain.sx == 64 * sx,
        rec.chain.kx == 64 * kx,
        rec.chain.ky == 64 * ky,
        rec.chain.sy == 64 * sy,
        rec.chain.tx == 64 * tx,
        rec.chain.ty == 64 * ty,
        in32(64 * (a.sx * sx + a.ky * kx)),
        in32(64 * (a.kx * sx + a.sy * kx)),
        in32(64 * (a.sx * ky + a.ky * sy)),
        in32(64 * (a.kx * ky + a.sy * sy)),
        in32(64 * (a.sx * tx + a.ky * ty)),
        in32(64 * (a.kx * tx + a.sy * ty)),
        in32(a.tx + a.sx * tx + a.ky * ty),
        in32(a.ty + a.kx * tx + a.sy * ty),
        in32(64 * (sx * p.0 + ky * p.1 + tx)),
        in32(64 * (kx * p.0 + sy * p.1 + ty)),
        in32(a.extra * rec.chain.extra),
    ensures
        ({
            let new = placed(rec, a);
            &&& new == (Rec { chain: new.chain, ..rec })
            &&& moved(p, new.chain) == moved(moved(p, rec.chain), a)
            &&& is_floor64(new.chain.extra as int, a.extra * rec.chain.extra)
        }),
{
    law_transforms_together_work_in_turn(p, a, rec.chain, sx, kx, ky, sy, tx, ty);
    lemma_floor(a.extra * rec.chain.extra);
}

/// Whatever the numbers, a product is taken in 32 bits before it is divided, and sums are taken in
/// 32 bits.
pub proof fn law_products_are_taken_in_32_bits(p: (i32, i32), m: Transform, n: Transform)
    ensures
        is_floor64(moved(p, m).0 as int, wrap32(m.sx * p.0 + m.ky * p.1 + m.tx) as int),
        is_floor64(moved(p, m).1 as int, wrap32(m.kx * p.0 + m.sy * p.1 + m.ty) as int),
        ({
            let c = composed(m, n);
            let u = wrap32(m.sx * n.tx + m.ky * n.ty) as int;
            let v = wrap32(m.kx * n.tx + m.sy * n.ty) as int;
            &&& is_floor64(c.sx as int, wrap32(m.sx * n.sx + m.ky * n.kx) as int)
            &&& is_floor64(c.kx as int, wrap32(m.kx * n.sx + m.sy * n.kx) as int)
            &&& is_floor64(c.ky as int, wrap32(m.sx * n.ky + m.ky * n.sy) as int)
            &&& is_floor64(c.sy as int, wrap32(m.kx * n.ky + m.sy * n.sy) as int)
            &&& is_floor64(c.extra as int, wrap32(m.extra * n.extra) as int)
            &&& exists|q: int| is_floor64(q, u) && c.tx == #[trigger] wrap32(m.tx + q)
            &&& exists|q: int| is_floor64(q, v) && c.ty == #[trigger] wrap32(m.ty + q)
        }),
{
    let c = composed(m, n);
    let q = rescaled(m.sx * n.tx + m.ky * n.ty) as int;
    let r = rescaled(m.kx * n.tx + m.sy * n.ty) as int;
    assert(c.tx == wrap32(m.tx + q));
    assert(c.ty == wrap32(m.ty + r));
}

/// Whatever the numbers, 128 is added to x and y is taken from 92 in 32 bits, and an offset is
/// added to its anchor in 32 bits.
pub proof fn law_points_come_out_in_32_bits(rec: Rec, i: int)
    ensures
        rec.c1 == 0 && 0 <= i < rec.points.len() ==> finished(rec).points[i] == (
            wrap32(rec.points[i].0 + 128),
            wrap32(92 - rec.points[i].1),
        ),
        hangs(rec) && 0 <= i < rec.c2 ==> {
            let a = moved(rec.points[rec.extra[i] as int], rec.chain);
            let d = rec.points[rec.c1 + i];
            let p = finished(rec).points[i];
            let u = wrap32(d.0 * rec.chain.extra) as int;
            let v = wrap32(d.1 * rec.chain.extra) as int;
            &&& exists|q: int|
                is_floor64(q, u) && p.0 == wrap32(#[trigger] wrap32(a.0 + q) + 128)
            &&& exists|q: int| is_floor64(q, v) && p.1 == wrap32(92 - #[trigger] wrap32(a.1 + q))
        },
{
    if hangs(rec) && 0 <= i < rec.c2 {
        lemma_anchored_at(rec, rec.c2, i);
        let a = moved(rec.points[rec.extra[i] as int], rec.chain);
        let d = rec.points[rec.c1 + i];
        let p = finished(rec).points[i];
        let (q, r) = (
            rescaled(d.0 * rec.chain.extra) as int,
            rescaled(d.1 * rec.chain.extra) as int,
        );
        assert(p.0 == wrap32(wrap32(a.0 + q) + 128));
        assert(p.1 == wrap32(92 - wrap32(a.1 + r)));
    }
}

} // verus!
