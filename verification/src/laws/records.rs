//! The private glyph data: what is written is read back.

use vstd::prelude::*;
use crate::bytes::{enc16, lemma_be16_enc16, lemma_be16_moved};
use crate::error::OutlineError;
use crate::laws::bytes::{lemma_stands_parts, stands};
use crate::laws::glyph::bit;
use crate::laws::outline::{
    law_component_places_its_target, law_outline_needs_no_order, lemma_outlines_at,
};
use crate::laws::transforms::{is_floor64, law_points_are_flipped, law_transform_moves_points};
use crate::outline::{
    coord, coord_at, expanded, field_defaults, field_mode, fields, has_field, lemma_free_shrinks,
    lemma_piece_advances, moved, number_at, outline, outlines, piece, placed, points_at,
    records_from, transform, width, Failure, GlyphData, Piece, Rec, Transform,
};

verus! {

broadcast use crate::bytes::group_encoded_lengths;

/// A coordinate as it is written: one byte in mode 1, two in any other, in two's complement.
pub open spec fn coord_bytes(v: int, mode: u8) -> Seq<u8> {
    if mode == 1 {
        seq![(v % 0x100) as u8]
    } else {
        enc16(v)
    }
}

/// A coordinate has a place in its mode.
pub open spec fn coord_fits(v: int, mode: u8) -> bool {
    if mode == 1 {
        -128 <= v < 128
    } else {
        -0x8000 <= v < 0x8000
    }
}

/// A written coordinate is read back.
pub proof fn law_coordinate_is_read_back(r: Seq<u8>, pos: int, v: int, mode: u8)
    requires
        coord_fits(v, mode),
        stands(r, pos, coord_bytes(v, mode)),
    ensures
        coord(r, pos, mode) == Ok::<(i32, int), OutlineError>(
            (v as i32, pos + (if mode == 1 {
                1int
            } else {
                2
            })),
        ),
{
    let b = coord_bytes(v, mode);
    if mode == 1 {
        assert(b[0] == r[pos + 0]);
    } else {
        lemma_be16_enc16(v);
        lemma_be16_moved(r, pos, b, 0);
    }
}

/// A coordinate that is cut off is refused.
pub proof fn law_cut_coordinate_is_refused(r: Seq<u8>, pos: int, mode: u8)
    requires
        0 <= pos,
        pos >= r.len() || mode != 1 && pos + 1 >= r.len(),
    ensures
        coord(r, pos, mode) == Err::<(i32, int), OutlineError>(
            if mode == 1 {
                OutlineError::Coord8
            } else {
                OutlineError::Coord16
            },
        ),
{
}

/// The weight of the flag for field `k`.
pub open spec fn weight(k: int) -> int {
    if k <= 0 {
        1
    } else if k == 1 {
        2
    } else if k == 2 {
        4
    } else if k == 3 {
        8
    } else if k == 4 {
        16
    } else if k == 5 {
        32
    } else {
        64
    }
}

/// The flags tell of a field by the bit of its weight.
pub proof fn lemma_has_field(flags: u8, k: u8)
    requires
        k < 7,
    ensures
        has_field(flags, k) == bit(flags, weight(k as int)),
{
    assert((flags >> 0u8) & 1 == flags % 2 && (flags >> 1u8) & 1 == flags / 2 % 2 && (flags >> 2u8) & 1
        == flags / 4 % 2 && (flags >> 3u8) & 1 == flags / 8 % 2 && (flags >> 4u8) & 1 == flags / 16
        % 2 && (flags >> 5u8) & 1 == flags / 32 % 2 && (flags >> 6u8) & 1 == flags / 64 % 2)
        by (bit_vector);
}

/// The fields of a transform from field `k` on as they are written: those whose flag is set, the
/// two shifts as coordinates of points and the others as factors.
pub open spec fn fields_bytes(flags: u8, vals: Seq<int>, mode1: u8, mode2: u8, k: int) -> Seq<u8>
    decreases 7 - k,
{
    if k >= 7 {
        Seq::empty()
    } else {
        let rest = fields_bytes(flags, vals, mode1, mode2, k + 1);
        if bit(flags, weight(k)) {
            coord_bytes(
                vals[k],
                if k == 4 || k == 5 {
                    mode2
                } else {
                    mode1
                },
            ) + rest
        } else {
            rest
        }
    }
}

/// A transform as it is written: the flags, then the fields.
pub open spec fn transform_bytes(flags: u8, vals: Seq<int>, mode1: u8, mode2: u8) -> Seq<u8> {
    seq![flags] + fields_bytes(flags, vals, mode1, mode2, 0)
}

/// The fields have places in their modes.
pub open spec fn fields_fit(vals: Seq<int>, mode1: u8, mode2: u8) -> bool {
    &&& vals.len() == 7
    &&& forall|k: int|
        0 <= k < 7 ==> coord_fits(
            #[trigger] vals[k],
            if k == 4 || k == 5 {
                mode2
            } else {
                mode1
            },
        )
}

/// Field `k`, or what stands for it where it is not written.
pub open spec fn field_or(flags: u8, vals: Seq<int>, k: int, default: int) -> int {
    if bit(flags, weight(k)) {
        vals[k]
    } else {
        default
    }
}

proof fn lemma_fields(
    r: Seq<u8>,
    pos: int,
    mode1: u8,
    mode2: u8,
    flags: u8,
    k: u8,
    sofar: Seq<i32>,
    vals: Seq<int>,
)
    requires
        k <= 7,
        sofar.len() == 7,
        fields_fit(vals, mode1, mode2),
        stands(r, pos, fields_bytes(flags, vals, mode1, mode2, k as int)),
    ensures
        fields(r, pos, mode1, mode2, flags, k, sofar) matches Ok((v, p)) && p == pos
            + fields_bytes(flags, vals, mode1, mode2, k as int).len() && v.len() == 7 && forall|j: int|
            0 <= j < 7 ==> #[trigger] v[j] == if j >= k && bit(flags, weight(j)) {
                vals[j]
            } else {
                sofar[j] as int
            },
    decreases 7 - k,
{
    if k < 7 {
        lemma_has_field(flags, k);
        let rest = fields_bytes(flags, vals, mode1, mode2, k + 1);
        if bit(flags, weight(k as int)) {
            let mode = field_mode(mode1, mode2, k);
            let b = coord_bytes(vals[k as int], mode);
            lemma_stands_parts(r, pos, b, rest);
            law_coordinate_is_read_back(r, pos, vals[k as int], mode);
            lemma_fields(
                r,
                pos + b.len(),
                mode1,
                mode2,
                flags,
                (k + 1) as u8,
                sofar.update(k as int, vals[k as int] as i32),
                vals,
            );
        } else {
            lemma_fields(r, pos, mode1, mode2, flags, (k + 1) as u8, sofar, vals);
        }
    }
}

/// A written transform is read back: in order the scale and shear of x, the shear and scale of y,
/// the two shifts in whole units, and the scale of anchored points. Scales that are not written are
/// 1, shears and shifts 0.
pub proof fn law_transform_is_read_back(
    r: Seq<u8>,
    pos: int,
    flags: u8,
    vals: Seq<int>,
    mode1: u8,
    mode2: u8,
)
    requires
        fields_fit(vals, mode1, mode2),
        stands(r, pos, transform_bytes(flags, vals, mode1, mode2)),
    ensures
        transform(r, pos, mode1, mode2) matches Ok((m, p)) && {
            &&& p == pos + transform_bytes(flags, vals, mode1, mode2).len()
            &&& m.sx == field_or(flags, vals, 0, 64)
            &&& m.kx == field_or(flags, vals, 1, 0)
            &&& m.ky == field_or(flags, vals, 2, 0)
            &&& m.sy == field_or(flags, vals, 3, 64)
            &&& m.tx == 64 * field_or(flags, vals, 4, 0)
            &&& m.ty == 64 * field_or(flags, vals, 5, 0)
            &&& m.extra == field_or(flags, vals, 6, 64)
        },
{
    let head = seq![flags];
    let rest = fields_bytes(flags, vals, mode1, mode2, 0);
    lemma_stands_parts(r, pos, head, rest);
    assert(head[0] == r[pos + 0]);
    lemma_fields(r, pos + 1, mode1, mode2, flags, 0, field_defaults(), vals);
}

/// Points as they are written: x, then y.
pub open spec fn points_bytes(ps: Seq<(int, int)>, mode: u8, i: int) -> Seq<u8>
    decreases ps.len() - i,
{
    if i >= ps.len() {
        Seq::empty()
    } else {
        coord_bytes(ps[i].0, mode) + coord_bytes(ps[i].1, mode) + points_bytes(ps, mode, i + 1)
    }
}

/// The coordinates have places in their mode.
pub open spec fn points_fit(ps: Seq<(int, int)>, mode: u8) -> bool {
    forall|i: int|
        0 <= i < ps.len() ==> coord_fits((#[trigger] ps[i]).0, mode) && coord_fits(ps[i].1, mode)
}

/// A simple record: anchors and points, a byte of flags for each, and the anchor of each point that
/// is none.
pub struct Written {
    pub lead: u8,
    pub anchors: Seq<(int, int)>,
    pub points: Seq<(int, int)>,
    pub flags: Seq<u8>,
    pub extra: Seq<u8>,
}

impl Written {
    /// All points, the anchors first.
    pub open spec fn all(self) -> Seq<(int, int)> {
        self.anchors + self.points
    }

    /// The record as it is written.
    pub open spec fn bytes(self, mode2: u8) -> Seq<u8> {
        seq![self.lead, self.anchors.len() as u8] + (enc16(self.points.len() as int) + (
        points_bytes(self.all(), mode2, 0) + (self.flags + self.extra)))
    }

    /// The parts fit together and have places in the format.
    pub open spec fn fits(self, mode2: u8) -> bool {
        &&& self.lead >= 0x80
        &&& self.anchors.len() < 0x100
        &&& self.points.len() < 0x1_0000
        &&& points_fit(self.all(), mode2)
        &&& self.flags.len() == self.anchors.len() + self.points.len()
        &&& self.extra.len() == if self.anchors.len() > 0 {
            self.points.len()
        } else {
            0
        }
    }

    /// What the record holds.
    pub open spec fn record(self) -> Rec {
        Rec {
            points: self.all().map_values(|p: (int, int)| (p.0 as i32, p.1 as i32)),
            flags: self.flags,
            c1: self.anchors.len() as int,
            c2: self.points.len() as int,
            extra: self.extra,
            chain: Transform { sx: 64, kx: 0, ky: 0, sy: 64, tx: 0, ty: 0, extra: 64 },
        }
    }
}

/// How many bytes points take.
pub proof fn lemma_points_len(ps: Seq<(int, int)>, mode: u8, i: int)
    requires
        0 <= i <= ps.len(),
    ensures
        points_bytes(ps, mode, i).len() == 2 * width(mode) * (ps.len() - i),
    decreases ps.len() - i,
{
    if i < ps.len() {
        lemma_points_len(ps, mode, i + 1);
        let (w, k) = (width(mode), ps.len() - i);
        assert(2 * w + 2 * w * (k - 1) == 2 * w * k) by (nonlinear_arith);
    } else {
        assert(2 * width(mode) * 0 == 0);
    }
}

proof fn lemma_points(r: Seq<u8>, pos: int, ps: Seq<(int, int)>, mode: u8, i: int, k: int)
    requires
        points_fit(ps, mode),
        0 <= i <= k < ps.len(),
        stands(r, pos, points_bytes(ps, mode, i)),
    ensures
        coord_at(r, pos + 2 * (k - i) * width(mode), mode) == ps[k].0,
        coord_at(r, pos + 2 * (k - i) * width(mode) + width(mode), mode) == ps[k].1,
    decreases k - i,
{
    let (x, y) = (coord_bytes(ps[i].0, mode), coord_bytes(ps[i].1, mode));
    let rest = points_bytes(ps, mode, i + 1);
    let w = width(mode);
    lemma_stands_parts(r, pos, x + y, rest);
    lemma_stands_parts(r, pos, x, y);
    if i < k {
        lemma_points(r, pos + 2 * w, ps, mode, i + 1, k);
        assert(pos + 2 * w + 2 * (k - i - 1) * w == pos + 2 * (k - i) * w) by (nonlinear_arith);
    } else {
        law_coordinate_is_read_back(r, pos, ps[k].0, mode);
        law_coordinate_is_read_back(r, pos + w, ps[k].1, mode);
        assert(2 * (k - i) * w == 0) by (nonlinear_arith)
            requires
                k == i,
        ;
    }
}

/// The bits of a first byte.
pub proof fn lemma_lead(b: u8)
    ensures
        (b & 0x80 != 0) == (b >= 0x80),
        (b & 0x40 != 0) == bit(b, 64),
        b & 7 == b % 8,
{
    assert((b & 0x80 != 0) == (b >= 0x80)) by (bit_vector);
    assert((b & 0x40 != 0) == (b / 64 % 2 == 1)) by (bit_vector);
    assert(b & 7 == b % 8) by (bit_vector);
}

/// A written simple record is read back.
pub proof fn law_simple_record_is_read_back(
    gid: int,
    r: Seq<u8>,
    pos: int,
    w: Written,
    mode1: u8,
    mode2: u8,
)
    requires
        w.fits(mode2),
        stands(r, pos, w.bytes(mode2)),
    ensures
        piece(gid, r, pos, mode1, mode2) == Ok::<(Piece, int), OutlineError>(
            (Piece::Simple(w.record()), pos + w.bytes(mode2).len()),
        ),
{
    reveal(piece);
    let head = seq![w.lead, w.anchors.len() as u8];
    let count = enc16(w.points.len() as int);
    let ps = points_bytes(w.all(), mode2, 0);
    let tail = w.flags + w.extra;
    lemma_stands_parts(r, pos, head, count + (ps + tail));
    lemma_stands_parts(r, pos + 2, count, ps + tail);
    lemma_stands_parts(r, pos + 4, ps, tail);
    let at = pos + 4 + ps.len();
    lemma_stands_parts(r, at, w.flags, w.extra);
    assert(head[0] == r[pos + 0] && head[1] == r[pos + 1]);
    lemma_be16_enc16(w.points.len() as int);
    lemma_be16_moved(r, pos + 2, count, 0);
    lemma_lead(w.lead);
    lemma_points_len(w.all(), mode2, 0);
    let total = w.all().len() as int;
    assert(2 * width(mode2) * (total - 0) == 2 * total * width(mode2)) by (nonlinear_arith);
    let rec = w.record();
    let got = points_at(r, pos + 4, mode2, total);
    assert forall|k: int| 0 <= k < total implies #[trigger] got[k] == rec.points[k] by {
        lemma_points(r, pos + 4, w.all(), mode2, 0, k);
        assert(2 * (k - 0) * width(mode2) == 2 * k * width(mode2));
    }
    assert(got =~= rec.points);
    assert(r.subrange(at, at + total) =~= w.flags);
    let end = at + total + w.extra.len();
    assert(r.subrange(at + total, end) =~= w.extra);
    assert(w.bytes(mode2).len() == 4 + ps.len() + total + w.extra.len());
}

/// The number of a glyph as it is written in `size` bytes.
pub open spec fn number_bytes(n: int, size: int) -> Seq<u8>
    decreases size,
{
    if size <= 0 {
        Seq::empty()
    } else {
        number_bytes(n / 0x100, size - 1).push((n % 0x100) as u8)
    }
}

/// A number has a place in `size` bytes.
pub open spec fn number_fits(n: int, size: int) -> bool
    decreases size,
{
    if size <= 0 {
        n == 0
    } else {
        n >= 0 && number_fits(n / 0x100, size - 1)
    }
}

/// The number of a glyph is read back.
pub proof fn lemma_number(r: Seq<u8>, pos: int, n: int, size: int)
    requires
        0 <= size,
        number_fits(n, size),
        stands(r, pos, number_bytes(n, size)),
    ensures
        number_bytes(n, size).len() == size,
        number_at(r, pos, size) == n,
    decreases size,
{
    if size > 0 {
        let front = number_bytes(n / 0x100, size - 1);
        let b = number_bytes(n, size);
        assert(stands(r, pos, front)) by {
            assert forall|j: int| 0 <= j < front.len() implies #[trigger] front[j] == r[pos + j] by {
                assert(b[j] == front[j]);
            }
        }
        lemma_number(r, pos, n / 0x100, size - 1);
        assert(b[size - 1] == r[pos + (size - 1)]);
    }
}

/// A component as it is written: the size of the number of a glyph, the number, a transform.
pub open spec fn component_bytes(
    lead: u8,
    child: int,
    flags: u8,
    vals: Seq<int>,
    mode1: u8,
    mode2: u8,
) -> Seq<u8> {
    seq![lead] + (number_bytes(child, lead as int % 8) + transform_bytes(flags, vals, mode1, mode2))
}

/// The transform with the fields that are written.
pub open spec fn written_transform(flags: u8, vals: Seq<int>) -> Transform {
    Transform {
        sx: field_or(flags, vals, 0, 64) as i32,
        kx: field_or(flags, vals, 1, 0) as i32,
        ky: field_or(flags, vals, 2, 0) as i32,
        sy: field_or(flags, vals, 3, 64) as i32,
        tx: (64 * field_or(flags, vals, 4, 0)) as i32,
        ty: (64 * field_or(flags, vals, 5, 0)) as i32,
        extra: field_or(flags, vals, 6, 64) as i32,
    }
}

/// A written component is read back.
pub proof fn law_component_is_read_back(
    gid: int,
    r: Seq<u8>,
    pos: int,
    lead: u8,
    child: int,
    flags: u8,
    vals: Seq<int>,
    mode1: u8,
    mode2: u8,
)
    requires
        lead < 0x80,
        flags < 0x80,
        number_fits(child, lead as int % 8),
        fields_fit(vals, mode1, mode2),
        stands(r, pos, component_bytes(lead, child, flags, vals, mode1, mode2)),
    ensures
        piece(gid, r, pos, mode1, mode2) == Ok::<(Piece, int), OutlineError>(
            (
                Piece::Component(child, written_transform(flags, vals)),
                pos + component_bytes(lead, child, flags, vals, mode1, mode2).len(),
            ),
        ),
{
    reveal(piece);
    let head = seq![lead];
    let size = lead as int % 8;
    let number = number_bytes(child, size);
    let t = transform_bytes(flags, vals, mode1, mode2);
    lemma_stands_parts(r, pos, head, number + t);
    lemma_stands_parts(r, pos + 1, number, t);
    assert(head[0] == r[pos + 0]);
    lemma_lead(lead);
    lemma_lead(flags);
    lemma_number(r, pos + 1, child, size);
    let at = pos + 1 + size;
    assert(t[0] == r[at + 0]);
    law_transform_is_read_back(r, at, flags, vals, mode1, mode2);
    assert(component_bytes(lead, child, flags, vals, mode1, mode2).len() == 1 + size + t.len());
}

/// Simple records from `i` on as they are written one after another.
pub open spec fn all_written(ws: Seq<Written>, mode2: u8, i: int) -> Seq<u8>
    decreases ws.len() - i,
{
    if i >= ws.len() {
        Seq::empty()
    } else {
        ws[i].bytes(mode2) + all_written(ws, mode2, i + 1)
    }
}

/// What simple records hold, from `i` on.
pub open spec fn held(ws: Seq<Written>, i: int) -> Seq<Rec> {
    Seq::new((ws.len() - i) as nat, |k: int| ws[i + k].record())
}

/// The bit of weight 64 in the first byte of a record tells that another follows.
pub open spec fn follow_on(ws: Seq<Written>, mode2: u8) -> bool {
    &&& ws.len() > 0
    &&& forall|i: int|
        0 <= i < ws.len() ==> (#[trigger] ws[i]).fits(mode2) && bit(ws[i].lead, 64) == (i
            < ws.len() - 1)
}

proof fn lemma_records(f: GlyphData, gid: int, open: Set<int>, pos: int, ws: Seq<Written>, i: int)
    requires
        follow_on(ws, f.mode2),
        0 <= i < ws.len(),
        stands(f.glyph(gid), pos, all_written(ws, f.mode2, i)),
    ensures
        records_from(f, gid, open, pos) == Ok::<Seq<Rec>, Failure>(held(ws, i)),
    decreases ws.len() - i,
{
    let r = f.glyph(gid);
    let w = ws[i];
    let b = w.bytes(f.mode2);
    let rest = all_written(ws, f.mode2, i + 1);
    lemma_stands_parts(r, pos, b, rest);
    law_simple_record_is_read_back(gid, r, pos, w, f.mode1, f.mode2);
    assert(b[0] == w.lead);
    assert(b[0] == r[pos + 0]);
    lemma_lead(w.lead);
    lemma_piece_advances(gid, r, pos, f.mode1, f.mode2);
    assert(expanded(f, Piece::Simple(w.record()), open) == Ok::<Seq<Rec>, Failure>(
        seq![w.record()],
    ));
    if i < ws.len() - 1 {
        lemma_records(f, gid, open, pos + b.len(), ws, i + 1);
        assert(seq![w.record()] + held(ws, i + 1) =~= held(ws, i));
    } else {
        assert(seq![w.record()] =~= held(ws, i));
    }
}

/// A glyph that is written as simple records comes to these records in their order, whatever stands
/// behind the last.
pub proof fn law_glyph_of_records_is_read(
    f: GlyphData,
    gid: int,
    open: Set<int>,
    s: int,
    e: int,
    ws: Seq<Written>,
)
    requires
        0 <= gid < f.count,
        gid + 1 < f.loca.len(),
        f.loca[gid] == s,
        f.loca[gid + 1] == e,
        e <= f.ftfg.len(),
        !open.contains(gid),
        follow_on(ws, f.mode2),
        stands(f.ftfg, s, all_written(ws, f.mode2, 0)),
        s + all_written(ws, f.mode2, 0).len() <= e,
    ensures
        outline(f, gid, open) == Ok::<Seq<Rec>, Failure>(held(ws, 0)),
{
    let b = all_written(ws, f.mode2, 0);
    let r = f.glyph(gid);
    assert(b.len() > 0) by {
        assert(ws[0].bytes(f.mode2).len() > 0);
    }
    assert(stands(r, 0, b)) by {
        assert forall|j: int| 0 <= j < b.len() implies #[trigger] b[j] == r[0 + j] by {
            assert(b[j] == f.ftfg[s + j]);
        }
    }
    lemma_free_shrinks(f, open, gid);
    lemma_records(f, gid, open.insert(gid), 0, ws, 0);
}

/// A glyph without bytes, one whose bytes do not lie in the data, and one that is not counted have
/// no records.
pub proof fn law_glyph_without_bytes_is_empty(f: GlyphData, gid: int, open: Set<int>)
    requires
        0 <= gid,
        !open.contains(gid),
        gid >= f.count || gid + 1 >= f.loca.len() || f.loca[gid + 1] <= f.loca[gid] || f.loca[gid
            + 1] > f.ftfg.len(),
    ensures
        outline(f, gid, open) == Ok::<Seq<Rec>, Failure>(Seq::empty()),
{
    if f.has(gid) {
        lemma_free_shrinks(f, open, gid);
        assert(f.glyph(gid).len() == 0);
    }
}

/// The bytes of glyph `gid` are `b`.
pub open spec fn glyph_is(f: GlyphData, gid: int, b: Seq<u8>) -> bool {
    &&& 0 <= gid < f.count
    &&& gid + 1 < f.loca.len()
    &&& f.loca[gid] + b.len() == f.loca[gid + 1]
    &&& stands(f.ftfg, f.loca[gid] as int, b)
}

/// A glyph that is one component comes out as its target does, with each point moved. Where the
/// target has a point at `(x, y)` before 128 was added to x and y was taken from 92, the glyph has
/// one whose x is `sx * x + ky * y + tx` and whose y is `kx * x + sy * y + ty`, in 64ths and
/// rounded down. The flags are those of the target.
pub proof fn law_component_moves_its_target(
    f: GlyphData,
    n: int,
    g: int,
    h: int,
    lead: u8,
    flags: u8,
    vals: Seq<int>,
    recs: Seq<Rec>,
    j: int,
    i: int,
)
    requires
        outlines(f, Set::empty(), n) is Ok,
        0 <= g < n,
        0 <= h < n,
        lead < 0x40,
        flags < 0x80,
        number_fits(h, lead as int % 8),
        fields_fit(vals, f.mode1, f.mode2),
        glyph_is(f, g, component_bytes(lead, h, flags, vals, f.mode1, f.mode2)),
        outline(f, h, Set::empty()) == Ok::<Seq<Rec>, Failure>(recs),
        0 <= j < recs.len(),
        recs[j].c1 == 0,
        0 <= i < recs[j].points.len(),
        -0x2000 <= recs[j].points[i].0 < 0x2000,
        -0x2000 <= recs[j].points[i].1 < 0x2000,
    ensures
        ({
            let out = outlines(f, Set::empty(), n)->Ok_0;
            let m = written_transform(flags, vals);
            let (p, q) = (out[h][j].points[i], out[g][j].points[i]);
            let (x, y) = (p.0 - 128, 92 - p.1);
            &&& out[g].len() == out[h].len()
            &&& out[g][j].flags == out[h][j].flags
            &&& out[g][j].points.len() == out[h][j].points.len()
            &&& is_floor64(q.0 - 128, m.sx * x + m.ky * y + m.tx)
            &&& is_floor64(92 - q.1, m.kx * x + m.sy * y + m.ty)
        }),
{
    let none = Set::<int>::empty();
    let one = none.insert(g);
    let b = component_bytes(lead, h, flags, vals, f.mode1, f.mode2);
    let r = f.glyph(g);
    let m = written_transform(flags, vals);
    lemma_outlines_at(f, none, n, g);
    lemma_outlines_at(f, none, n, h);
    assert(b.len() > 0);
    assert(r =~= b);
    assert(stands(r, 0, b));
    law_component_is_read_back(g, r, 0, lead, h, flags, vals, f.mode1, f.mode2);
    lemma_lead(lead);
    assert(b[0] == lead);
    lemma_free_shrinks(f, none, g);
    assert(records_from(f, g, one, 0) == expanded(f, Piece::Component(h, m), one));
    assert(expanded(f, Piece::Component(h, m), one) is Ok);
    law_outline_needs_no_order(f, h, one, none);
    law_component_places_its_target(f, h, m, one, recs, j);
    let (x, y) = (recs[j].points[i].0, recs[j].points[i].1);
    assert(fields_fit(vals, f.mode1, f.mode2));
    assert(coord_fits(vals[0], f.mode1) && coord_fits(vals[1], f.mode1) && coord_fits(
        vals[2],
        f.mode1,
    ) && coord_fits(vals[3], f.mode1) && coord_fits(vals[4], f.mode2) && coord_fits(
        vals[5],
        f.mode2,
    ));
    lemma_small(m.sx as int, m.ky as int, m.tx as int, x as int, y as int);
    lemma_small(m.kx as int, m.sy as int, m.ty as int, x as int, y as int);
    law_transform_moves_points((x, y), m);
    law_points_are_flipped(recs[j], i);
    let new = placed(recs[j], m);
    assert(new.points[i] == moved((x, y), m));
    law_points_are_flipped(new, i);
}

proof fn lemma_small(a: int, b: int, t: int, x: int, y: int)
    requires
        -0x8000 <= a < 0x8000,
        -0x8000 <= b < 0x8000,
        -0x20_0000 <= t < 0x20_0000,
        -0x2000 <= x < 0x2000,
        -0x2000 <= y < 0x2000,
    ensures
        -0x3FFF_FFC0 <= a * x + b * y + t < 0x3FFF_FFC0,
{
    assert(-0x1000_0000 <= a * x <= 0x1000_0000) by (nonlinear_arith)
        requires
            -0x8000 <= a < 0x8000,
            -0x2000 <= x < 0x2000,
    ;
    assert(-0x1000_0000 <= b * y <= 0x1000_0000) by (nonlinear_arith)
        requires
            -0x8000 <= b < 0x8000,
            -0x2000 <= y < 0x2000,
    ;
}

} // verus!
