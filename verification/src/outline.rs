//! The private glyph data: a glyph is a list of records, each of which holds points of its own or
//! places the records of another glyph.

use vstd::prelude::*;
use vstd::set_lib::set_int_range;
use vstd::slice::slice_subrange;
use crate::bytes::{be16, get16, shift6, signed16, signed8, to_i32, wrap16, wrap32};
use crate::error::OutlineError;

verus! {

/// Added to every x coordinate on output.
pub const X_OFF: i32 = 128;

/// Every y coordinate is subtracted from this on output.
pub const Y_OFF: i32 = 92;

/// An affine map in 26.6 fixed point, and the scale of points that hang on an anchor.
#[derive(Debug, Clone, Copy, PartialEq, Eq, Structural)]
pub struct Transform {
    pub sx: i32,
    pub kx: i32,
    pub ky: i32,
    pub sy: i32,
    pub tx: i32,
    pub ty: i32,
    pub extra: i32,
}

/// The map that moves nothing.
pub open spec fn identity() -> Transform {
    Transform { sx: 64, kx: 0, ky: 0, sy: 64, tx: 0, ty: 0, extra: 64 }
}

/// A fixed-point product brought back to scale: the low 32 bits, divided by 64, rounded down.
pub open spec fn rescaled(x: int) -> i32 {
    (wrap32(x) as int / 64) as i32
}

/// First `child`, then `parent`.
pub open spec fn composed(parent: Transform, child: Transform) -> Transform {
    Transform {
        sx: rescaled(parent.sx * child.sx + parent.ky * child.kx),
        kx: rescaled(parent.kx * child.sx + parent.sy * child.kx),
        ky: rescaled(parent.sx * child.ky + parent.ky * child.sy),
        sy: rescaled(parent.kx * child.ky + parent.sy * child.sy),
        tx: wrap32(parent.tx + rescaled(parent.sx * child.tx + parent.ky * child.ty)),
        ty: wrap32(parent.ty + rescaled(parent.kx * child.tx + parent.sy * child.ty)),
        extra: rescaled(parent.extra * child.extra),
    }
}

/// A point under a map.
pub open spec fn moved(p: (i32, i32), m: Transform) -> (i32, i32) {
    (rescaled(m.sx * p.0 + m.ky * p.1 + m.tx), rescaled(m.kx * p.0 + m.sy * p.1 + m.ty))
}

/// A run of points as the records hold it: `c1` anchors, then `c2` points of the outline.
///
/// Without anchors the points stand for themselves. With anchors each is an offset from the anchor
/// that `extra` names.
#[verifier::ext_equal]
pub struct Rec {
    pub points: Seq<(i32, i32)>,
    pub flags: Seq<u8>,
    pub c1: int,
    pub c2: int,
    pub extra: Seq<u8>,
    pub chain: Transform,
}

impl Rec {
    /// The parts have the lengths that the counts give.
    pub open spec fn wf(self) -> bool {
        &&& 0 <= self.c1 <= 0xFF
        &&& 0 <= self.c2 <= 0xFFFF
        &&& self.points.len() == self.c1 + self.c2
        &&& self.flags.len() == self.c1 + self.c2
        &&& self.c1 > 0 ==> self.extra.len() == self.c2
    }
}

/// There is a flag for each point.
pub open spec fn covered(rec: Rec) -> bool {
    rec.points.len() <= rec.flags.len()
}

/// There is a flag for each point of each record.
pub open spec fn all_covered(recs: Seq<Rec>) -> bool {
    forall|i: int| 0 <= i < recs.len() ==> covered(#[trigger] recs[i])
}

/// Points under a map.
pub open spec fn all_moved(points: Seq<(i32, i32)>, m: Transform) -> Seq<(i32, i32)> {
    points.map_values(|p: (i32, i32)| moved(p, m))
}

/// A record placed by a component: its points are moved, each to whole units. The points of a record
/// with anchors are moved only when the outline is finished, by all transforms together.
pub open spec fn placed(rec: Rec, m: Transform) -> Rec {
    if rec.c1 == 0 {
        Rec { points: all_moved(rec.points, m), ..rec }
    } else {
        Rec { chain: composed(m, rec.chain), ..rec }
    }
}

/// The glyph data of a font: glyph `i` is the run from `loca[i]` to `loca[i + 1]` of `ftfg`.
pub struct GlyphData {
    pub ftfg: Seq<u8>,
    pub loca: Seq<usize>,
    pub count: nat,
    pub mode1: u8,
    pub mode2: u8,
}

impl GlyphData {
    /// Whether there is such a glyph.
    pub open spec fn has(self, gid: int) -> bool {
        0 <= gid < self.loca.len() - 1 && gid < self.count
    }

    /// A glyph can be asked for: where there are glyphs, there is an index.
    pub open spec fn answers(self, gid: int) -> bool {
        gid < self.count ==> self.loca.len() > 0
    }

    /// The bytes of a glyph; none where the index is out of order or reaches too far.
    pub open spec fn glyph(self, gid: int) -> Seq<u8> {
        let s = self.loca[gid] as int;
        let e = self.loca[gid + 1] as int;
        if s < e <= self.ftfg.len() {
            self.ftfg.subrange(s, e)
        } else {
            Seq::empty()
        }
    }

    /// The glyphs that are not being expanded.
    pub open spec fn free(self, open: Set<int>) -> Set<int> {
        set_int_range(0, self.count as int).difference(open)
    }
}

/// The bytes of a coordinate: one in mode 1, else two.
pub open spec fn width(mode: u8) -> int {
    if mode == 1 {
        1
    } else {
        2
    }
}

/// The fault of a coordinate that is cut off.
pub open spec fn coord_error(mode: u8) -> OutlineError {
    if mode == 1 {
        OutlineError::Coord8
    } else {
        OutlineError::Coord16
    }
}

/// The coordinate at `pos`.
pub open spec fn coord_at(r: Seq<u8>, pos: int, mode: u8) -> i32 {
    if mode == 1 {
        (if r[pos] >= 0x80 {
            r[pos] - 0x100
        } else {
            r[pos] as int
        }) as i32
    } else {
        wrap16(be16(r, pos)) as i32
    }
}

/// Reads a coordinate; the second part is the position after it.
pub open spec fn coord(r: Seq<u8>, pos: int, mode: u8) -> Result<(i32, int), OutlineError> {
    if pos + width(mode) <= r.len() {
        Ok((coord_at(r, pos, mode), pos + width(mode)))
    } else {
        Err(coord_error(mode))
    }
}

/// Whether the field `k` of a transform is in the data.
pub open spec fn has_field(flags: u8, k: u8) -> bool {
    (flags >> k) & 1 == 1
}

/// The shifts are coordinates of points; the other fields are factors.
pub open spec fn field_mode(mode1: u8, mode2: u8, k: u8) -> u8 {
    if k == 4 || k == 5 {
        mode2
    } else {
        mode1
    }
}

/// Reads the fields of a transform from field `k` on over `vals`, the values so far.
///
/// In order: scale and shear of x, shear and scale of y, two shifts in whole units, and the scale
/// of anchored points.
pub open spec fn fields(
    r: Seq<u8>,
    pos: int,
    mode1: u8,
    mode2: u8,
    flags: u8,
    k: u8,
    vals: Seq<i32>,
) -> Result<(Seq<i32>, int), OutlineError>
    decreases 7 - k,
{
    if k >= 7 {
        Ok((vals, pos))
    } else if has_field(flags, k) {
        match coord(r, pos, field_mode(mode1, mode2, k)) {
            Err(e) => Err(e),
            Ok((v, p)) => fields(r, p, mode1, mode2, flags, (k + 1) as u8, vals.update(k as int, v)),
        }
    } else {
        fields(r, pos, mode1, mode2, flags, (k + 1) as u8, vals)
    }
}

/// The values of the fields that are not in the data.
pub open spec fn field_defaults() -> Seq<i32> {
    seq![64i32, 0, 0, 64, 0, 0, 64]
}

/// Reads a transform: a byte of flags, then the fields that it announces.
pub open spec fn transform(r: Seq<u8>, pos: int, mode1: u8, mode2: u8) -> Result<
    (Transform, int),
    OutlineError,
> {
    if pos < r.len() {
        match fields(r, pos + 1, mode1, mode2, r[pos], 0, field_defaults()) {
            Err(e) => Err(e),
            Ok((v, p)) => Ok(
                (
                    Transform {
                        sx: v[0],
                        kx: v[1],
                        ky: v[2],
                        sy: v[3],
                        tx: (v[4] * 64) as i32,
                        ty: (v[5] * 64) as i32,
                        extra: v[6],
                    },
                    p,
                ),
            ),
        }
    } else {
        Err(OutlineError::TransformFlags)
    }
}

/// Skips `n` coordinates.
pub open spec fn skip_coords(r: Seq<u8>, pos: int, mode: u8, n: int) -> Result<int, OutlineError> {
    if pos + n * width(mode) <= r.len() {
        Ok(pos + n * width(mode))
    } else {
        Err(coord_error(mode))
    }
}

/// The coordinates that a group holds, by the upper four bits of its first byte.
pub open spec fn group_coords(head: u8) -> int {
    let kind = head >> 6;
    let axis = (head >> 4) & 3;
    if kind == 3 || kind == 2 && axis == 0 {
        2
    } else if kind == 2 {
        1
    } else {
        0
    }
}

/// Skips `n` groups of an element.
pub open spec fn skip_groups(r: Seq<u8>, pos: int, mode2: u8, wide: bool, n: int) -> Result<
    int,
    OutlineError,
>
    decreases n,
{
    if n <= 0 {
        Ok(pos)
    } else if pos >= r.len() {
        Err(OutlineError::Group)
    } else if wide && pos + 1 >= r.len() {
        Err(OutlineError::GroupIndex)
    } else {
        match skip_coords(
            r,
            pos + (if wide {
                2int
            } else {
                1int
            }),
            mode2,
            group_coords(r[pos]),
        ) {
            Err(e) => Err(e),
            Ok(p) => skip_groups(r, p, mode2, wide, n - 1),
        }
    }
}

/// Skips what an element changes: a whole transform, one field of it, or nothing.
pub open spec fn skip_payload(r: Seq<u8>, pos: int, mode1: u8, mode2: u8, kind: u8) -> Result<
    int,
    OutlineError,
> {
    if kind == 7 {
        match transform(r, pos, mode1, mode2) {
            Err(e) => Err(e),
            Ok((m, p)) => Ok(p),
        }
    } else if kind == 2 || kind == 3 || kind == 6 {
        skip_coords(r, pos, mode1, 1)
    } else if kind == 4 || kind == 5 {
        skip_coords(r, pos, mode2, 1)
    } else {
        Ok(pos)
    }
}

/// Skips one element of an extended component.
pub open spec fn skip_element(r: Seq<u8>, pos: int, mode1: u8, mode2: u8) -> Result<
    int,
    OutlineError,
> {
    if pos >= r.len() {
        Err(OutlineError::Element)
    } else if r[pos] & 0x40 != 0 && pos + 1 >= r.len() {
        Err(OutlineError::ElementCount)
    } else {
        let at = pos + (if r[pos] & 0x40 != 0 {
            2int
        } else {
            1int
        });
        if at >= r.len() {
            Err(OutlineError::ElementHeader)
        } else {
            match skip_payload(r, at + 1, mode1, mode2, r[at] >> 5) {
                Err(e) => Err(e),
                Ok(p) => skip_groups(r, p, mode2, r[at] & 8 != 0, (r[at] & 7) as int),
            }
        }
    }
}

/// Skipping neither goes back nor leaves the data.
pub proof fn lemma_skip_groups_advance(r: Seq<u8>, pos: int, mode2: u8, wide: bool, n: int)
    requires
        pos <= r.len(),
    ensures
        skip_groups(r, pos, mode2, wide, n) matches Ok(p) ==> pos <= p <= r.len(),
    decreases n,
{
    if n > 0 && pos < r.len() && !(wide && pos + 1 >= r.len()) {
        let q = pos + (if wide {
            2int
        } else {
            1int
        });
        if let Ok(p) = skip_coords(r, q, mode2, group_coords(r[pos])) {
            lemma_skip_groups_advance(r, p, mode2, wide, n - 1);
        }
    }
}

/// An element has at least two bytes.
pub proof fn lemma_skip_element_advances(r: Seq<u8>, pos: int, mode1: u8, mode2: u8)
    ensures
        skip_element(r, pos, mode1, mode2) matches Ok(p) ==> pos < p <= r.len(),
{
    if pos < r.len() {
        let at = pos + (if r[pos] & 0x40 != 0 {
            2int
        } else {
            1int
        });
        if at < r.len() {
            lemma_transform_advances(r, at + 1, mode1, mode2);
            if let Ok(p) = skip_payload(r, at + 1, mode1, mode2, r[at] >> 5) {
                lemma_skip_groups_advance(
                    r,
                    p,
                    mode2,
                    r[at] & 8 != 0,
                    (r[at] & 7) as int,
                );
            }
        }
    }
}

/// Skips the elements of an extended component, up to the first whose top bit is clear.
pub open spec fn skip_elements(r: Seq<u8>, pos: int, mode1: u8, mode2: u8) -> Result<
    int,
    OutlineError,
>
    decreases r.len() - pos,
{
    match skip_element(r, pos, mode1, mode2) {
        Err(e) => Err(e),
        Ok(p) => if r[pos] & 0x80 != 0 {
            proof {
                lemma_skip_element_advances(r, pos, mode1, mode2);
            }
            skip_elements(r, p, mode1, mode2)
        } else {
            Ok(p)
        },
    }
}

/// What stands in a glyph at one place.
pub enum Piece {
    /// Points.
    Simple(Rec),
    /// Another glyph, placed by a transform.
    Component(int, Transform),
}

/// The `n` points from `pos` on.
pub open spec fn points_at(r: Seq<u8>, pos: int, mode: u8, n: int) -> Seq<(i32, i32)> {
    Seq::new(
        n as nat,
        |i: int|
            (
                coord_at(r, pos + 2 * i * width(mode), mode),
                coord_at(r, pos + 2 * i * width(mode) + width(mode), mode),
            ),
    )
}

/// Reads a simple record: a head of four bytes with the two counts, the points, a byte of flags for
/// each, and, where there are anchors, the anchor of each point that is none.
pub open spec fn simple_record(gid: int, r: Seq<u8>, pos: int, mode2: u8) -> Result<
    (Piece, int),
    OutlineError,
> {
    let c1 = r[pos + 1] as int;
    let c2 = be16(r, pos + 2);
    let total = c1 + c2;
    let flags_at = pos + 4 + 2 * total * width(mode2);
    let extra_at = flags_at + total;
    let end = if c1 > 0 {
        extra_at + c2
    } else {
        extra_at
    };
    if pos + 4 > r.len() {
        Err(OutlineError::SimpleHeader(gid as usize))
    } else if flags_at > r.len() {
        Err(coord_error(mode2))
    } else if extra_at > r.len() {
        Err(OutlineError::SimpleFlags(gid as usize))
    } else if end > r.len() {
        Err(OutlineError::Anchors(gid as usize))
    } else {
        Ok(
            (
                Piece::Simple(
                    Rec {
                        points: points_at(r, pos + 4, mode2, total),
                        flags: r.subrange(flags_at, extra_at),
                        c1,
                        c2,
                        extra: r.subrange(extra_at, end),
                        chain: identity(),
                    },
                ),
                end,
            ),
        )
    }
}

/// The big-endian number in the `n` bytes at `pos`.
pub open spec fn number_at(r: Seq<u8>, pos: int, n: int) -> int
    decreases n,
{
    if n <= 0 {
        0
    } else {
        number_at(r, pos, n - 1) * 0x100 + r[pos + n - 1]
    }
}

/// Reads a component: the size of the glyph number, the number, the transform and, where the top
/// bit of the transform's flags is set, elements without meaning for a still outline.
pub open spec fn component(gid: int, r: Seq<u8>, pos: int, mode1: u8, mode2: u8) -> Result<
    (Piece, int),
    OutlineError,
> {
    let size = (r[pos] & 7) as int;
    let at = pos + 1 + size;
    if at > r.len() {
        Err(OutlineError::ComponentGlyph(gid as usize))
    } else {
        match transform(r, at, mode1, mode2) {
            Err(e) => Err(e),
            Ok((m, p)) => {
                let child = Piece::Component(number_at(r, pos + 1, size), m);
                if r[at] & 0x80 != 0 {
                    match skip_elements(r, p, mode1, mode2) {
                        Err(e) => Err(e),
                        Ok(q) => Ok((child, q)),
                    }
                } else {
                    Ok((child, p))
                }
            },
        }
    }
}

/// Reads what stands at `pos`; the second part is the position after it.
#[verifier::opaque]
pub open spec fn piece(gid: int, r: Seq<u8>, pos: int, mode1: u8, mode2: u8) -> Result<
    (Piece, int),
    OutlineError,
> {
    if r[pos] & 0x80 != 0 {
        simple_record(gid, r, pos, mode2)
    } else {
        component(gid, r, pos, mode1, mode2)
    }
}

pub proof fn lemma_skip_elements_advance(r: Seq<u8>, pos: int, mode1: u8, mode2: u8)
    ensures
        skip_elements(r, pos, mode1, mode2) matches Ok(p) ==> pos < p <= r.len(),
    decreases r.len() - pos,
{
    lemma_skip_element_advances(r, pos, mode1, mode2);
    if let Ok(p) = skip_element(r, pos, mode1, mode2) {
        if r[pos] & 0x80 != 0 {
            lemma_skip_elements_advance(r, p, mode1, mode2);
        }
    }
}

proof fn lemma_fields_advance(
    r: Seq<u8>,
    pos: int,
    mode1: u8,
    mode2: u8,
    flags: u8,
    k: u8,
    vals: Seq<i32>,
)
    requires
        pos <= r.len(),
    ensures
        fields(r, pos, mode1, mode2, flags, k, vals) matches Ok((v, p)) ==> pos <= p <= r.len(),
    decreases 7 - k,
{
    if k < 7 {
        if has_field(flags, k) {
            if let Ok((v, p)) = coord(r, pos, field_mode(mode1, mode2, k)) {
                lemma_fields_advance(
                    r,
                    p,
                    mode1,
                    mode2,
                    flags,
                    (k + 1) as u8,
                    vals.update(k as int, v),
                );
            }
        } else {
            lemma_fields_advance(r, pos, mode1, mode2, flags, (k + 1) as u8, vals);
        }
    }
}

proof fn lemma_transform_advances(r: Seq<u8>, pos: int, mode1: u8, mode2: u8)
    ensures
        transform(r, pos, mode1, mode2) matches Ok((m, p)) ==> pos < p <= r.len(),
{
    if pos < r.len() {
        lemma_fields_advance(r, pos + 1, mode1, mode2, r[pos], 0, field_defaults());
    }
}

proof fn lemma_simple_record_advances(gid: int, r: Seq<u8>, pos: int, mode2: u8)
    requires
        0 <= pos < r.len(),
    ensures
        simple_record(gid, r, pos, mode2) matches Ok((x, p)) ==> pos < p <= r.len(),
{
    let total = r[pos + 1] + be16(r, pos + 2);
    assert(2 * total * width(mode2) >= 0) by (nonlinear_arith)
        requires
            total >= 0,
            width(mode2) >= 0,
    ;
}

proof fn lemma_component_advances(gid: int, r: Seq<u8>, pos: int, mode1: u8, mode2: u8)
    requires
        0 <= pos < r.len(),
    ensures
        component(gid, r, pos, mode1, mode2) matches Ok((x, p)) ==> pos < p <= r.len(),
{
    let at = pos + 1 + (r[pos] & 7);
    lemma_transform_advances(r, at, mode1, mode2);
    if let Ok((m, p)) = transform(r, at, mode1, mode2) {
        lemma_skip_elements_advance(r, p, mode1, mode2);
    }
}

/// Reading goes on, and stays in the data.
pub proof fn lemma_piece_advances(gid: int, r: Seq<u8>, pos: int, mode1: u8, mode2: u8)
    requires
        0 <= pos < r.len(),
    ensures
        piece(gid, r, pos, mode1, mode2) matches Ok((x, p)) ==> pos < p <= r.len(),
{
    reveal(piece);
    lemma_simple_record_advances(gid, r, pos, mode2);
    lemma_component_advances(gid, r, pos, mode1, mode2);
}

/// A fault, and the glyphs that were being expanded when it was met.
#[verifier::ext_equal]
pub struct Failure {
    pub error: OutlineError,
    pub open: Set<int>,
}

/// `first`, and then what comes of the rest.
pub open spec fn followed(first: Seq<Rec>, rest: Result<Seq<Rec>, Failure>) -> Result<
    Seq<Rec>,
    Failure,
> {
    match rest {
        Err(x) => Err(x),
        Ok(recs) => Ok(first + recs),
    }
}

/// The records that come of what stands in a glyph at one place.
pub open spec fn expanded(f: GlyphData, x: Piece, open: Set<int>) -> Result<Seq<Rec>, Failure>
    decreases f.free(open).len(), 1int, 0int,
{
    match x {
        Piece::Simple(rec) => Ok(seq![rec]),
        Piece::Component(child, m) => match outline(f, child, open) {
            Err(x) => Err(x),
            Ok(recs) => Ok(recs.map_values(|rec: Rec| placed(rec, m))),
        },
    }
}

/// The records of a glyph from `pos` on. Each piece says in its first byte whether another follows.
pub open spec fn records_from(f: GlyphData, gid: int, open: Set<int>, pos: int) -> Result<
    Seq<Rec>,
    Failure,
>
    decreases f.free(open).len(), 2int, f.glyph(gid).len() - pos,
{
    let r = f.glyph(gid);
    if !(0 <= pos < r.len()) {
        Ok(Seq::empty())
    } else {
        match piece(gid, r, pos, f.mode1, f.mode2) {
            Err(error) => Err(Failure { error, open }),
            Ok((x, next)) => match expanded(f, x, open) {
                Err(x) => Err(x),
                Ok(recs) => if r[pos] & 0x40 != 0 {
                    proof {
                        lemma_piece_advances(gid, r, pos, f.mode1, f.mode2);
                    }
                    followed(recs, records_from(f, gid, open, next))
                } else {
                    Ok(recs)
                },
            },
        }
    }
}

/// The records of a glyph with the records of its components in place. A glyph that does not exist
/// has none; one that is itself being expanded is a fault.
pub open spec fn outline(f: GlyphData, gid: int, open: Set<int>) -> Result<Seq<Rec>, Failure>
    decreases f.free(open).len(), 0int, 0int,
{
    if !f.has(gid) {
        Ok(Seq::empty())
    } else if open.contains(gid) {
        Err(Failure { error: OutlineError::Cycle(gid as usize), open })
    } else {
        proof {
            lemma_free_shrinks(f, open, gid);
        }
        records_from(f, gid, open.insert(gid), 0)
    }
}

/// What is known of a glyph when `out` has been read and `pos` is next, if `more` follows.
spec fn progress(
    f: GlyphData,
    gid: int,
    open: Set<int>,
    out: Seq<Rec>,
    pos: int,
    more: bool,
) -> Result<Seq<Rec>, Failure> {
    if more {
        followed(out, records_from(f, gid, open, pos))
    } else {
        Ok(out)
    }
}

/// Reading one more piece.
proof fn lemma_progress(
    f: GlyphData,
    gid: int,
    open: Set<int>,
    out: Seq<Rec>,
    pos: int,
    x: Piece,
    next: int,
    recs: Seq<Rec>,
)
    requires
        0 <= pos < f.glyph(gid).len(),
        piece(gid, f.glyph(gid), pos, f.mode1, f.mode2) == Ok::<(Piece, int), OutlineError>(
            (x, next),
        ),
        expanded(f, x, open) == Ok::<Seq<Rec>, Failure>(recs),
    ensures
        progress(f, gid, open, out, pos, true) == progress(
            f,
            gid,
            open,
            out + recs,
            next,
            f.glyph(gid)[pos] & 0x40 != 0,
        ),
{
    if f.glyph(gid)[pos] & 0x40 != 0 {
        if let Ok(rest) = records_from(f, gid, open, next) {
            assert(out + (recs + rest) =~= out + recs + rest);
        }
    }
}

/// Each glyph on the way leaves one less to expand.
pub proof fn lemma_free_shrinks(f: GlyphData, open: Set<int>, gid: int)
    requires
        0 <= gid < f.count,
        !open.contains(gid),
    ensures
        f.free(open).len() > f.free(open.insert(gid)).len(),
{
    vstd::set_lib::lemma_int_range(0, f.count as int);
    vstd::set_lib::lemma_len_subset(f.free(open), set_int_range(0, f.count as int));
    assert(f.free(open.insert(gid)) =~= f.free(open).remove(gid));
}

/// A run of points, as `Rec` describes it.
#[derive(Debug)]
pub struct SubRecord {
    pub points: Vec<(i32, i32)>,
    pub flags: Vec<u8>,
    pub c1: usize,
    pub c2: usize,
    pub extra: Vec<u8>,
    pub chain: Transform,
}

impl View for SubRecord {
    type V = Rec;

    open spec fn view(&self) -> Rec {
        Rec {
            points: self.points@,
            flags: self.flags@,
            c1: self.c1 as int,
            c2: self.c2 as int,
            extra: self.extra@,
            chain: self.chain,
        }
    }
}

/// The records of a list.
pub open spec fn views(recs: Seq<SubRecord>) -> Seq<Rec> {
    recs.map_values(|rec: SubRecord| rec@)
}

impl SubRecord {
    /// The record, placed by a component.
    fn place(&self, m: &Transform) -> (r: SubRecord)
        ensures
            r@ == placed(self@, *m),
    {
        if self.c1 > 0 {
            return self.with_chain(compose(m, &self.chain));
        }
        let mut points: Vec<(i32, i32)> = Vec::with_capacity(self.points.len());
        let mut i: usize = 0;
        while i < self.points.len()
            invariant
                i <= self.points.len(),
                points@ =~= all_moved(self.points@, *m).take(i as int),
            decreases self.points.len() - i,
        {
            points.push(apply_matrix(self.points[i], m));
            i += 1;
        }
        let flags = self.flags.clone();
        let extra = self.extra.clone();
        assert(points@ =~= all_moved(self.points@, *m));
        assert(flags@ =~= self.flags@);
        assert(extra@ =~= self.extra@);
        SubRecord { points, flags, c1: self.c1, c2: self.c2, extra, chain: self.chain }
    }

    /// The same record under another transform.
    fn with_chain(&self, chain: Transform) -> (r: SubRecord)
        ensures
            r@ == (Rec { chain, ..self@ }),
    {
        let mut points: Vec<(i32, i32)> = Vec::with_capacity(self.points.len());
        let mut i: usize = 0;
        while i < self.points.len()
            invariant
                i <= self.points.len(),
                points@ =~= self.points@.take(i as int),
            decreases self.points.len() - i,
        {
            points.push(self.points[i]);
            i += 1;
        }
        let flags = self.flags.clone();
        let extra = self.extra.clone();
        assert(points@ =~= self.points@);
        assert(flags@ =~= self.flags@);
        assert(extra@ =~= self.extra@);
        SubRecord { points, flags, c1: self.c1, c2: self.c2, extra, chain }
    }
}

/// A copy of a list of records.
fn copy_records(recs: &Vec<SubRecord>) -> (r: Vec<SubRecord>)
    ensures
        views(r@) == views(recs@),
{
    let mut out: Vec<SubRecord> = Vec::with_capacity(recs.len());
    let mut i: usize = 0;
    while i < recs.len()
        invariant
            i <= recs.len(),
            views(out@) =~= views(recs@).take(i as int),
        decreases recs.len() - i,
    {
        let rec = recs[i].with_chain(recs[i].chain);
        let ghost before = views(out@);
        out.push(rec);
        assert(views(out@) =~= before.push(rec@));
        assert(rec@ =~= recs@[i as int]@);
        i += 1;
    }
    out
}

/// Where a glyph stands in the expansion.
#[derive(Debug, Clone, Copy, PartialEq, Eq, Structural)]
pub enum GlyphState {
    Unvisited,
    Visiting,
    Visited,
}

/// Reads a coordinate.
fn read_coord(r: &[u8], pos: usize, mode: u8) -> (res: Result<(i32, usize), OutlineError>)
    requires
        pos <= r@.len(),
    ensures
        match res {
            Ok((v, p)) => coord(r@, pos as int, mode) == Ok::<(i32, int), OutlineError>((v, p as int)),
            Err(e) => coord(r@, pos as int, mode) == Err::<(i32, int), OutlineError>(e),
        },
{
    if mode == 1 {
        if r.len() - pos < 1 {
            return Err(OutlineError::Coord8);
        }
        Ok((signed8(r[pos]), pos + 1))
    } else {
        if r.len() - pos < 2 {
            return Err(OutlineError::Coord16);
        }
        Ok((signed16(get16(r, pos)) as i32, pos + 2))
    }
}

fn read_transform(r: &[u8], pos: usize, mode1: u8, mode2: u8) -> (res: Result<
    (Transform, u8, usize),
    OutlineError,
>)
    requires
        pos <= r@.len(),
    ensures
        match res {
            Ok((m, flags, p)) => {
                &&& pos < p <= r@.len()
                &&& flags == r@[pos as int]
                &&& transform(r@, pos as int, mode1, mode2) == Ok::<(Transform, int), OutlineError>(
                    (m, p as int),
                )
            },
            Err(e) => transform(r@, pos as int, mode1, mode2) == Err::<
                (Transform, int),
                OutlineError,
            >(e),
        },
{
    if pos >= r.len() {
        return Err(OutlineError::TransformFlags);
    }
    let flags = r[pos];
    let mut m: [i32; 7] = [64, 0, 0, 64, 0, 0, 64];
    let mut p: usize = pos + 1;
    let mut k: u8 = 0;
    assert(m@ =~= field_defaults());
    while k < 7
        invariant
            k <= 7,
            pos < p <= r@.len(),
            m@.len() == 7,
            forall|j: int| 0 <= j < 7 ==> -0x8000 <= #[trigger] m@[j] <= 0x7FFF,
            fields(r@, pos + 1, mode1, mode2, flags, 0, field_defaults()) == fields(
                r@,
                p as int,
                mode1,
                mode2,
                flags,
                k,
                m@,
            ),
            pos < r@.len(),
            flags == r@[pos as int],
        decreases 7 - k,
    {
        if (flags >> k) & 1 == 1 {
            let mode: u8 = if k == 4 || k == 5 {
                mode2
            } else {
                mode1
            };
            match read_coord(r, p, mode) {
                Err(e) => {
                    return Err(e);
                },
                Ok((v, q)) => {
                    m[k as usize] = v;
                    p = q;
                },
            }
        }
        k += 1;
    }
    let t = Transform {
        sx: m[0],
        kx: m[1],
        ky: m[2],
        sy: m[3],
        tx: m[4] * 64,
        ty: m[5] * 64,
        extra: m[6],
    };
    Ok((t, flags, p))
}

/// What was read, with the position as a mathematical integer.
spec fn at(p: Result<usize, OutlineError>) -> Result<int, OutlineError> {
    match p {
        Ok(p) => Ok(p as int),
        Err(e) => Err(e),
    }
}

/// Skips up to two coordinates.
fn pass_coords(r: &[u8], pos: usize, mode: u8, n: usize) -> (res: Result<usize, OutlineError>)
    requires
        pos <= r@.len(),
        n <= 2,
    ensures
        at(res) == skip_coords(r@, pos as int, mode, n as int),
        res matches Ok(p) ==> pos <= p <= r@.len(),
{
    let need: usize = if mode == 1 {
        n
    } else {
        2 * n
    };
    assert(need == n * width(mode)) by (nonlinear_arith)
        requires
            need == if mode == 1 {
                n as int
            } else {
                2 * n
            },
            width(mode) == if mode == 1 {
                1int
            } else {
                2
            },
    ;
    if need > r.len() - pos {
        if mode == 1 {
            Err(OutlineError::Coord8)
        } else {
            Err(OutlineError::Coord16)
        }
    } else {
        Ok(pos + need)
    }
}

fn pass_groups(r: &[u8], pos: usize, mode2: u8, wide: bool, n: u8) -> (res: Result<
    usize,
    OutlineError,
>)
    requires
        pos <= r@.len(),
    ensures
        at(res) == skip_groups(r@, pos as int, mode2, wide, n as int),
        res matches Ok(p) ==> pos <= p <= r@.len(),
{
    let mut p: usize = pos;
    let mut i: u8 = 0;
    while i < n
        invariant
            i <= n,
            pos <= p <= r@.len(),
            skip_groups(r@, pos as int, mode2, wide, n as int) == skip_groups(
                r@,
                p as int,
                mode2,
                wide,
                n - i,
            ),
        decreases n - i,
    {
        if p >= r.len() {
            return Err(OutlineError::Group);
        }
        let head = r[p];
        let mut q: usize = p + 1;
        if wide {
            if q >= r.len() {
                return Err(OutlineError::GroupIndex);
            }
            q += 1;
        }
        let kind = head >> 6;
        let axis = (head >> 4) & 3;
        let count: usize = if kind == 3 || kind == 2 && axis == 0 {
            2
        } else if kind == 2 {
            1
        } else {
            0
        };
        match pass_coords(r, q, mode2, count) {
            Err(e) => {
                return Err(e);
            },
            Ok(next) => {
                p = next;
            },
        }
        i += 1;
    }
    Ok(p)
}

fn pass_payload(r: &[u8], pos: usize, mode1: u8, mode2: u8, kind: u8) -> (res: Result<
    usize,
    OutlineError,
>)
    requires
        pos <= r@.len(),
    ensures
        at(res) == skip_payload(r@, pos as int, mode1, mode2, kind),
        res matches Ok(p) ==> pos <= p <= r@.len(),
{
    if kind == 7 {
        match read_transform(r, pos, mode1, mode2) {
            Err(e) => Err(e),
            Ok((_m, _flags, p)) => Ok(p),
        }
    } else if kind == 2 || kind == 3 || kind == 6 {
        pass_coords(r, pos, mode1, 1)
    } else if kind == 4 || kind == 5 {
        pass_coords(r, pos, mode2, 1)
    } else {
        Ok(pos)
    }
}

/// Skips the elements of an extended component.
fn skip_extended_component(r: &[u8], pos: usize, mode1: u8, mode2: u8) -> (res: Result<
    usize,
    OutlineError,
>)
    requires
        pos <= r@.len(),
    ensures
        at(res) == skip_elements(r@, pos as int, mode1, mode2),
        res matches Ok(p) ==> pos <= p <= r@.len(),
{
    let mut p: usize = pos;
    loop
        invariant
            pos <= p <= r@.len(),
            skip_elements(r@, pos as int, mode1, mode2) == skip_elements(
                r@,
                p as int,
                mode1,
                mode2,
            ),
        decreases r@.len() - p,
    {
        proof {
            lemma_skip_element_advances(r@, p as int, mode1, mode2);
        }
        if p >= r.len() {
            return Err(OutlineError::Element);
        }
        let head = r[p];
        let mut q: usize = p + 1;
        if head & 0x40 != 0 {
            if q >= r.len() {
                return Err(OutlineError::ElementCount);
            }
            q += 1;
        }
        if q >= r.len() {
            return Err(OutlineError::ElementHeader);
        }
        let element = r[q];
        match pass_payload(r, q + 1, mode1, mode2, element >> 5) {
            Err(e) => {
                return Err(e);
            },
            Ok(next) => {
                match pass_groups(r, next, mode2, element & 8 != 0, element & 7) {
                    Err(e) => {
                        return Err(e);
                    },
                    Ok(next) => {
                        if head & 0x80 == 0 {
                            return Ok(next);
                        }
                        p = next;
                    },
                }
            },
        }
    }
}

/// Reads a simple record.
fn read_simple(gid: usize, r: &[u8], pos: usize, mode2: u8) -> (res: Result<
    (SubRecord, usize),
    OutlineError,
>)
    requires
        pos < r@.len(),
    ensures
        match res {
            Ok((rec, p)) => {
                &&& pos < p <= r@.len()
                &&& rec@.wf()
                &&& simple_record(gid as int, r@, pos as int, mode2) == Ok::<
                    (Piece, int),
                    OutlineError,
                >((Piece::Simple(rec@), p as int))
            },
            Err(e) => simple_record(gid as int, r@, pos as int, mode2) == Err::<
                (Piece, int),
                OutlineError,
            >(e),
        },
{
    if r.len() - pos < 4 {
        return Err(OutlineError::SimpleHeader(gid));
    }
    let c1 = r[pos + 1] as usize;
    let c2 = get16(r, pos + 2) as usize;
    let total: usize = c1 + c2;
    let w: usize = if mode2 == 1 {
        1
    } else {
        2
    };
    let start: usize = pos + 4;
    let need: usize = 2 * total * w;
    assert(need == 2 * total * width(mode2));
    if need > r.len() - start {
        if mode2 == 1 {
            return Err(OutlineError::Coord8);
        } else {
            return Err(OutlineError::Coord16);
        }
    }
    let mut points: Vec<(i32, i32)> = Vec::with_capacity(total);
    let mut p: usize = start;
    let mut i: usize = 0;
    while i < total
        invariant
            i <= total,
            p == start + 2 * i * w,
            w == width(mode2),
            start + 2 * total * w <= r@.len(),
            points@ =~= points_at(r@, start as int, mode2, i as int),
        decreases total - i,
    {
        assert(2 * i * w + 2 * w <= 2 * total * w) by (nonlinear_arith)
            requires
                i < total,
                w >= 0,
        ;
        assert(2 * (i + 1) * w == 2 * i * w + 2 * w) by (nonlinear_arith);
        match read_coord(r, p, mode2) {
            Err(e) => {
                return Err(e);
            },
            Ok((x, q)) => {
                match read_coord(r, q, mode2) {
                    Err(e) => {
                        return Err(e);
                    },
                    Ok((y, q)) => {
                        points.push((x, y));
                        p = q;
                    },
                }
            },
        }
        i += 1;
    }
    if total > r.len() - p {
        return Err(OutlineError::SimpleFlags(gid));
    }
    let flags = vstd::slice::slice_to_vec(slice_subrange(r, p, p + total));
    p += total;
    let mut end: usize = p;
    if c1 > 0 {
        if c2 > r.len() - p {
            return Err(OutlineError::Anchors(gid));
        }
        end = p + c2;
    }
    let extra = vstd::slice::slice_to_vec(slice_subrange(r, p, end));
    let chain = Transform { sx: 64, kx: 0, ky: 0, sy: 64, tx: 0, ty: 0, extra: 64 };
    Ok((SubRecord { points, flags, c1, c2, extra, chain }, end))
}

/// Reads a component: the glyph, its transform and the position after it.
fn read_component(gid: usize, r: &[u8], pos: usize, mode1: u8, mode2: u8) -> (res: Result<
    (u64, Transform, usize),
    OutlineError,
>)
    requires
        pos < r@.len(),
    ensures
        match res {
            Ok((child, m, p)) => {
                &&& pos < p <= r@.len()
                &&& component(gid as int, r@, pos as int, mode1, mode2) == Ok::<
                    (Piece, int),
                    OutlineError,
                >((Piece::Component(child as int, m), p as int))
            },
            Err(e) => component(gid as int, r@, pos as int, mode1, mode2) == Err::<
                (Piece, int),
                OutlineError,
            >(e),
        },
{
    let size = (r[pos] & 7) as usize;
    let head = r[pos];
    assert(head & 7 <= 7) by (bit_vector);
    if 1 + size > r.len() - pos {
        return Err(OutlineError::ComponentGlyph(gid));
    }
    let mut child: u64 = 0;
    let ghost mut bound: int = 1;
    let mut i: usize = 0;
    while i < size
        invariant
            i <= size <= 7,
            pos + 1 + size <= r.len(),
            child == number_at(r@, pos + 1, i as int),
            child < bound,
            bound <= 0x100_0000_0000_0000,
            i == 0 ==> bound == 0x1,
            i == 1 ==> bound == 0x100,
            i == 2 ==> bound == 0x1_0000,
            i == 3 ==> bound == 0x100_0000,
            i == 4 ==> bound == 0x1_0000_0000,
            i == 5 ==> bound == 0x100_0000_0000,
            i == 6 ==> bound == 0x1_0000_0000_0000,
        decreases size - i,
    {
        child = child * 0x100 + r[pos + 1 + i] as u64;
        proof {
            bound = bound * 0x100;
        }
        i += 1;
    }
    let after: usize = pos + 1 + size;
    match read_transform(r, after, mode1, mode2) {
        Err(e) => Err(e),
        Ok((m, flags, p)) => {
            if flags & 0x80 != 0 {
                match skip_extended_component(r, p, mode1, mode2) {
                    Err(e) => Err(e),
                    Ok(q) => Ok((child, m, q)),
                }
            } else {
                Ok((child, m, p))
            }
        },
    }
}

/// What was read at one place.
enum Found {
    Simple(SubRecord),
    Component(u64, Transform),
}

impl Found {
    spec fn piece(self) -> Piece {
        match self {
            Found::Simple(rec) => Piece::Simple(rec@),
            Found::Component(child, m) => Piece::Component(child as int, m),
        }
    }
}

/// Reads what stands at `pos`.
fn read_piece(gid: usize, r: &[u8], pos: usize, mode1: u8, mode2: u8) -> (res: Result<
    (Found, usize),
    OutlineError,
>)
    requires
        pos < r@.len(),
    ensures
        match res {
            Ok((x, p)) => {
                &&& pos < p <= r@.len()
                &&& x matches Found::Simple(rec) ==> rec@.wf()
                &&& piece(gid as int, r@, pos as int, mode1, mode2) == Ok::<
                    (Piece, int),
                    OutlineError,
                >((x.piece(), p as int))
            },
            Err(e) => piece(gid as int, r@, pos as int, mode1, mode2) == Err::<
                (Piece, int),
                OutlineError,
            >(e),
        },
{
    reveal(piece);
    if r[pos] & 0x80 != 0 {
        match read_simple(gid, r, pos, mode2) {
            Err(e) => Err(e),
            Ok((rec, p)) => Ok((Found::Simple(rec), p)),
        }
    } else {
        match read_component(gid, r, pos, mode1, mode2) {
            Err(e) => Err(e),
            Ok((child, m, p)) => Ok((Found::Component(child, m), p)),
        }
    }
}

/// The composition of two transforms.
fn compose(parent: &Transform, child: &Transform) -> (r: Transform)
    ensures
        r == composed(*parent, *child),
{
    Transform {
        sx: combine(parent.sx, child.sx, parent.ky, child.kx, 0),
        kx: combine(parent.kx, child.sx, parent.sy, child.kx, 0),
        ky: combine(parent.sx, child.ky, parent.ky, child.sy, 0),
        sy: combine(parent.kx, child.ky, parent.sy, child.sy, 0),
        tx: to_i32(
            parent.tx as i128 + combine(parent.sx, child.tx, parent.ky, child.ty, 0) as i128,
        ),
        ty: to_i32(
            parent.ty as i128 + combine(parent.kx, child.tx, parent.sy, child.ty, 0) as i128,
        ),
        extra: combine(parent.extra, child.extra, 0, 0, 0),
    }
}

/// A sum of two products and a term, brought back to scale.
fn combine(a: i32, b: i32, c: i32, d: i32, e: i32) -> (r: i32)
    ensures
        r == rescaled(a * b + c * d + e),
{
    assert(-0x4000_0000_0000_0000 <= a * b <= 0x4000_0000_0000_0000) by (nonlinear_arith)
        requires
            -0x8000_0000 <= a <= 0x8000_0000,
            -0x8000_0000 <= b <= 0x8000_0000,
    ;
    assert(-0x4000_0000_0000_0000 <= c * d <= 0x4000_0000_0000_0000) by (nonlinear_arith)
        requires
            -0x8000_0000 <= c <= 0x8000_0000,
            -0x8000_0000 <= d <= 0x8000_0000,
    ;
    shift6(to_i32(a as i128 * b as i128 + c as i128 * d as i128 + e as i128))
}

/// A point under a transform.
fn apply_matrix(p: (i32, i32), m: &Transform) -> (r: (i32, i32))
    ensures
        r == moved(p, *m),
{
    (combine(m.sx, p.0, m.ky, p.1, m.tx), combine(m.kx, p.0, m.sy, p.1, m.ty))
}

/// Reads the glyphs of a font and expands their components, each glyph once.
pub struct FtfParser<'a> {
    ftfg: &'a [u8],
    loca_vals: Vec<usize>,
    mode1: u8,
    mode2: u8,
    memo: Vec<Option<Vec<SubRecord>>>,
    state: Vec<GlyphState>,
}

impl<'a> FtfParser<'a> {
    /// The glyph data that the parser reads.
    pub closed spec fn data(self) -> GlyphData {
        GlyphData {
            ftfg: self.ftfg@,
            loca: self.loca_vals@,
            count: self.state@.len(),
            mode1: self.mode1,
            mode2: self.mode2,
        }
    }

    /// The glyphs whose expansion has begun and not ended.
    pub closed spec fn open(self) -> Set<int> {
        Set::new(|i: int| 0 <= i < self.state@.len() && self.state@[i] is Visiting)
    }

    /// The glyphs that have been expanded.
    pub closed spec fn done(self) -> Set<int> {
        Set::new(|i: int| 0 <= i < self.state@.len() && self.state@[i] is Visited)
    }

    /// What is kept of an expanded glyph are its records, whatever is open elsewhere.
    pub closed spec fn wf(self) -> bool {
        &&& self.memo@.len() == self.state@.len()
        &&& forall|v: int| #[trigger]
            self.done().contains(v) ==> {
                &&& self.memo@[v] is Some
                &&& all_wf(views(self.memo@[v]->0@))
            }
        &&& forall|v: int, open: Set<int>|
            self.done().contains(v) && self.done().disjoint(open) ==> #[trigger] outline(
                self.data(),
                v,
                open,
            ) == Ok::<Seq<Rec>, Failure>(views(self.memo@[v]->0@))
    }

    /// This is a later state of a parser: it reads the same data, what has been expanded stays so,
    /// and what has failed stays open.
    pub open spec fn follows(self, earlier: FtfParser<'a>) -> bool {
        &&& self.wf()
        &&& self.data() == earlier.data()
        &&& earlier.done().subset_of(self.done())
        &&& earlier.open().subset_of(self.open())
    }

    /// What an expanded glyph comes to does not depend on what is open, as long as no expanded glyph
    /// is.
    pub proof fn lemma_done_is_settled(self, gid: int, open: Set<int>)
        requires
            self.wf(),
            self.done().contains(gid),
            open == self.open() || open == Set::<int>::empty(),
        ensures
            outline(self.data(), gid, open) == outline(self.data(), gid, Set::empty()),
            outline(self.data(), gid, open) is Ok,
    {
        assert(self.done().disjoint(self.open()));
        assert(self.done().disjoint(Set::<int>::empty()));
    }

    /// A parser that has expanded nothing.
    pub fn new(
        ftfg: &'a [u8],
        loca_vals: Vec<usize>,
        num_glyphs: usize,
        mode1: u8,
        mode2: u8,
    ) -> (r: FtfParser<'a>)
        ensures
            r.wf(),
            r.data() == (GlyphData {
                ftfg: ftfg@,
                loca: loca_vals@,
                count: num_glyphs as nat,
                mode1,
                mode2,
            }),
            r.open() == Set::<int>::empty(),
            r.done() == Set::<int>::empty(),
    {
        let mut memo: Vec<Option<Vec<SubRecord>>> = Vec::with_capacity(num_glyphs);
        let mut state: Vec<GlyphState> = Vec::with_capacity(num_glyphs);
        let mut i: usize = 0;
        while i < num_glyphs
            invariant
                i <= num_glyphs,
                memo@.len() == i,
                state@.len() == i,
                forall|k: int| 0 <= k < i ==> #[trigger] state@[k] is Unvisited,
            decreases num_glyphs - i,
        {
            memo.push(None);
            state.push(GlyphState::Unvisited);
            i += 1;
        }
        let r = FtfParser { ftfg, loca_vals, mode1, mode2, memo, state };
        assert(r.open() =~= Set::<int>::empty());
        assert(r.done() =~= Set::<int>::empty());
        r
    }

    /// Nothing has to be expanded to answer for this glyph: it does not exist, it has been expanded,
    /// or it is being expanded.
    pub open spec fn knows(self, gid: int) -> bool {
        !self.data().has(gid) || self.done().contains(gid) || self.open().contains(gid)
    }

    /// The records of a glyph. The parser stays as it is where nothing has to be expanded.
    pub fn raw_outline(&mut self, gid: u64) -> (res: Result<Vec<SubRecord>, OutlineError>)
        requires
            old(self).wf(),
            old(self).data().answers(gid as int),
        ensures
            final(self).follows(*old(self)),
            old(self).knows(gid as int) ==> *final(self) == *old(self),
            match res {
                Ok(recs) => {
                    &&& outline(old(self).data(), gid as int, old(self).open()) == Ok::<
                        Seq<Rec>,
                        Failure,
                    >(views(recs@))
                    &&& all_wf(views(recs@))
                    &&& final(self).open() == old(self).open()
                    &&& old(self).data().has(gid as int) ==> final(self).done().contains(gid as int)
                },
                Err(error) => {
                    &&& outline(old(self).data(), gid as int, old(self).open()) == Err::<
                        Seq<Rec>,
                        Failure,
                    >(Failure { error, open: final(self).open() })
                    &&& final(self).open().contains(gid as int)
                },
            },
        decreases old(self).data().free(old(self).open()).len(),
    {
        let ghost f = self.data();
        let ghost open = self.open();
        if self.loca_vals.len() == 0 || gid >= (self.loca_vals.len() - 1) as u64 || gid
            >= self.memo.len() as u64 {
            assert(views(Seq::<SubRecord>::empty()) =~= Seq::<Rec>::empty());
            return Ok(Vec::new());
        }
        let g: usize = gid as usize;
        match self.state[g] {
            GlyphState::Visiting => {
                assert(open.contains(g as int));
                return Err(OutlineError::Cycle(g));
            },
            GlyphState::Visited => {
                assert(self.done().contains(g as int));
                assert(self.done().disjoint(open));
                match &self.memo[g] {
                    Some(recs) => {
                        return Ok(copy_records(recs));
                    },
                    None => {
                        return Ok(Vec::new());
                    },
                }
            },
            GlyphState::Unvisited => {},
        }
        assert(!open.contains(g as int));
        self.state.set(g, GlyphState::Visiting);
        let ghost inner = open.insert(g as int);
        proof {
            assert(self.open() =~= inner);
            assert(self.done() =~= old(self).done());
            lemma_free_shrinks(f, open, g as int);
        }
        let s = self.loca_vals[g];
        let e = self.loca_vals[g + 1];
        let ftfg = self.ftfg;
        let mut out: Vec<SubRecord> = Vec::new();
        assert(views(out@) =~= Seq::<Rec>::empty());
        let r = if e > s && e <= ftfg.len() {
            slice_subrange(ftfg, s, e)
        } else {
            slice_subrange(ftfg, 0, 0)
        };
        assert(r@ =~= f.glyph(g as int));
        let mut pos: usize = 0;
        let mut more = true;
        assert forall|q: Set<int>| #[trigger]
            records_from(f, g as int, q, 0) == progress(f, g as int, q, views(out@), 0, true) by {
            if let Ok(recs) = records_from(f, g as int, q, 0) {
                assert(Seq::<Rec>::empty() + recs =~= recs);
            }
        }
        while more && pos < r.len()
            invariant
                g == gid,
                self.wf(),
                self.data() == f,
                self.open() == inner,
                f.has(g as int),
                r@ == f.glyph(g as int),
                pos <= r@.len(),
                old(self).done().subset_of(self.done()),
                old(self).data() == f,
                old(self).open() == open,
                !open.contains(g as int),
                inner == open.insert(g as int),
                f.free(inner).len() < f.free(open).len(),
                all_wf(views(out@)),
                forall|q: Set<int>|
                    self.done().disjoint(q) ==> #[trigger] records_from(f, g as int, q, 0)
                        == progress(f, g as int, q, views(out@), pos as int, more),
            decreases r@.len() - pos,
        {
            assert(self.done().disjoint(inner));
            assert(outline(f, g as int, open) == records_from(f, g as int, inner, 0));
            let ghost before = views(out@);
            let ghost start = pos as int;
            let b0 = r[pos];
            match read_piece(g, r, pos, self.mode1, self.mode2) {
                Err(e) => {
                    return Err(e);
                },
                Ok((Found::Simple(rec), next)) => {
                    out.push(rec);
                    assert(views(out@) =~= before + seq![rec@]);
                    proof {
                        assert forall|q: Set<int>| self.done().disjoint(q) implies #[trigger]
                            records_from(f, g as int, q, 0) == progress(
                                f,
                                g as int,
                                q,
                                views(out@),
                                next as int,
                                b0 & 0x40 != 0,
                            ) by {
                            lemma_progress(
                                f,
                                g as int,
                                q,
                                before,
                                start,
                                Piece::Simple(rec@),
                                next as int,
                                seq![rec@],
                            );
                        }
                    }
                    pos = next;
                },
                Ok((Found::Component(child, m), next)) => {
                    match self.raw_outline(child) {
                        Err(e) => {
                            proof {
                                let x = Piece::Component(child as int, m);
                                let failure = Failure { error: e, open: self.open() };
                                assert(expanded(f, x, inner) == Err::<Seq<Rec>, Failure>(failure));
                                assert(records_from(f, g as int, inner, start) == Err::<
                                    Seq<Rec>,
                                    Failure,
                                >(failure));
                            }
                            return Err(e);
                        },
                        Ok(recs) => {
                            place_records(&recs, &m, &mut out);
                            proof {
                                let x = Piece::Component(child as int, m);
                                let added = views(recs@).map_values(|rec: Rec| placed(rec, m));
                                assert forall|q: Set<int>| self.done().disjoint(q) implies #[trigger]
                                    records_from(f, g as int, q, 0) == progress(
                                        f,
                                        g as int,
                                        q,
                                        views(out@),
                                        next as int,
                                        b0 & 0x40 != 0,
                                    ) by {
                                    if f.has(child as int) {
                                        assert(outline(f, child as int, q) == outline(
                                            f,
                                            child as int,
                                            inner,
                                        ));
                                    }
                                    assert(expanded(f, x, q) == Ok::<Seq<Rec>, Failure>(added));
                                    lemma_progress(
                                        f,
                                        g as int,
                                        q,
                                        before,
                                        start,
                                        x,
                                        next as int,
                                        added,
                                    );
                                }
                            }
                            pos = next;
                        },
                    }
                },
            }
            more = b0 & 0x40 != 0;
        }
        let ghost done = self.done();
        let ghost prev = *self;
        proof {
            assert(prev.open() == inner);
            assert(prev.open().contains(g as int));
            assert forall|q: Set<int>| done.disjoint(q) implies #[trigger] records_from(
                f,
                g as int,
                q,
                0,
            ) == Ok::<Seq<Rec>, Failure>(views(out@)) by {
                assert(views(out@) + Seq::<Rec>::empty() =~= views(out@));
            }
        }
        self.state.set(g, GlyphState::Visited);
        let kept = copy_records(&out);
        self.memo.set(g, Some(kept));
        proof {
            assert(self.data() == f);
            assert forall|i: int| self.open().contains(i) <==> open.contains(i) by {
                assert(prev.open().contains(i) <==> inner.contains(i));
            }
            assert(self.open() =~= open);
            assert(self.done() =~= done.insert(g as int));
            assert forall|v: int, q: Set<int>|
                self.done().contains(v) && self.done().disjoint(q) implies #[trigger] outline(
                f,
                v,
                q,
            ) == Ok::<Seq<Rec>, Failure>(views(self.memo@[v]->0@)) by {
                if v == g {
                    assert(!done.contains(v));
                    assert forall|i: int| done.contains(i) implies !q.insert(v).contains(i) by {
                        assert(self.done().contains(i));
                    }
                    assert(done.disjoint(q.insert(v)));
                    assert(!q.contains(v));
                    assert(outline(f, v, q) == records_from(f, v, q.insert(v), 0));
                } else {
                    assert(prev.done().contains(v));
                    assert forall|i: int| done.contains(i) implies !q.contains(i) by {
                        assert(self.done().contains(i));
                    }
                    assert(prev.done().disjoint(q));
                    assert(self.memo@[v] == prev.memo@[v]);
                    assert(prev.data() == f);
                }
            }
        }
        Ok(out)
    }
}

/// Appends the records of a component.
fn place_records(recs: &Vec<SubRecord>, m: &Transform, out: &mut Vec<SubRecord>)
    requires
        all_wf(views(recs@)),
        all_wf(views(old(out)@)),
    ensures
        views(final(out)@) == views(old(out)@) + views(recs@).map_values(
            |rec: Rec| placed(rec, *m),
        ),
        all_wf(views(final(out)@)),
{
    let ghost goal = views(recs@).map_values(|rec: Rec| placed(rec, *m));
    let mut i: usize = 0;
    while i < recs.len()
        invariant
            i <= recs.len(),
            goal == views(recs@).map_values(|rec: Rec| placed(rec, *m)),
            all_wf(views(recs@)),
            all_wf(views(out@)),
            views(out@) =~= views(old(out)@) + goal.take(i as int),
        decreases recs.len() - i,
    {
        let rec = recs[i].place(m);
        let ghost before = views(out@);
        out.push(rec);
        assert(views(out@) =~= before.push(rec@));
        assert(views(recs@)[i as int] == recs@[i as int]@);
        assert(goal[i as int] == rec@);
        i += 1;
    }
    assert(goal.take(i as int) =~= goal);
}

/// All records have parts of the right lengths.
pub open spec fn all_wf(recs: Seq<Rec>) -> bool {
    forall|i: int| 0 <= i < recs.len() ==> (#[trigger] recs[i]).wf()
}

/// A point that hangs on an anchor.
pub open spec fn hung(anchor: (i32, i32), d: (i32, i32), scale: i32) -> (i32, i32) {
    (wrap32(anchor.0 + rescaled(d.0 * scale)), wrap32(anchor.1 + rescaled(d.1 * scale)))
}

/// The first `k` points of a record with anchors. One whose anchor does not exist is left out.
pub open spec fn anchored(rec: Rec, k: int) -> Seq<(i32, i32)>
    decreases k,
{
    if k <= 0 {
        Seq::empty()
    } else {
        let a = rec.extra[k - 1] as int;
        if a < rec.c1 {
            anchored(rec, k - 1).push(
                hung(
                    moved(rec.points[a], rec.chain),
                    rec.points[rec.c1 + k - 1],
                    rec.chain.extra,
                ),
            )
        } else {
            anchored(rec, k - 1)
        }
    }
}

/// A point in the coordinates of the output, where y grows upwards.
pub open spec fn flipped(p: (i32, i32)) -> (i32, i32) {
    (wrap32(p.0 + X_OFF), wrap32(Y_OFF - p.1))
}

/// `flags` with the end of a contour at the last of them.
pub open spec fn terminated(flags: Seq<u8>) -> Seq<u8> {
    if flags.len() == 0 {
        flags
    } else {
        flags.update(flags.len() - 1, flags.last() | 0x80)
    }
}

/// A record in the coordinates of the output, with the transform of a record with anchors carried
/// out.
pub open spec fn finished(rec: Rec) -> Rec {
    let points = if rec.c1 > 0 {
        anchored(rec, rec.c2)
    } else {
        rec.points
    };
    Rec {
        points: points.map_values(|p: (i32, i32)| flipped(p)),
        flags: terminated(rec.flags.skip(rec.c1)),
        c1: 0,
        c2: rec.c2,
        extra: Seq::empty(),
        chain: identity(),
    }
}

/// The outlines of the first `n` glyphs, or the first fault in them.
pub open spec fn outlines(f: GlyphData, open: Set<int>, n: int) -> Result<Seq<Seq<Rec>>, Failure>
    decreases n,
{
    if n <= 0 {
        Ok(Seq::empty())
    } else {
        match outlines(f, open, n - 1) {
            Err(x) => Err(x),
            Ok(glyphs) => match outline(f, n - 1, open) {
                Err(x) => Err(x),
                Ok(recs) => Ok(glyphs.push(recs.map_values(|rec: Rec| finished(rec)))),
            },
        }
    }
}

/// A fault in the first glyphs is a fault in all.
proof fn lemma_outlines_fail(f: GlyphData, open: Set<int>, k: int, n: int)
    requires
        0 <= k <= n,
        outlines(f, open, k) is Err,
    ensures
        outlines(f, open, n) == outlines(f, open, k),
    decreases n - k,
{
    if k < n {
        lemma_outlines_fail(f, open, k, n - 1);
    }
}

/// Points may be left out, flags are not.
proof fn lemma_finished_covered(rec: Rec)
    requires
        rec.wf(),
    ensures
        covered(finished(rec)),
{
    lemma_anchored_len(rec, rec.c2);
}

proof fn lemma_anchored_len(rec: Rec, k: int)
    requires
        k >= 0,
    ensures
        anchored(rec, k).len() <= k,
    decreases k,
{
    if k > 0 {
        lemma_anchored_len(rec, k - 1);
    }
}

/// The records of a list of glyphs.
pub open spec fn glyph_views(glyphs: Seq<Vec<SubRecord>>) -> Seq<Seq<Rec>> {
    glyphs.map_values(|g: Vec<SubRecord>| views(g@))
}

/// A point in the coordinates of the output.
fn flip(p: (i32, i32)) -> (r: (i32, i32))
    ensures
        r == flipped(p),
{
    (to_i32(p.0 as i128 + X_OFF as i128), to_i32(Y_OFF as i128 - p.1 as i128))
}

/// A record in the coordinates of the output.
fn finish(rec: &SubRecord) -> (r: SubRecord)
    requires
        rec@.wf(),
    ensures
        r@ == finished(rec@),
        covered(r@),
{
    proof {
        lemma_finished_covered(rec@);
    }
    let c1 = rec.c1;
    let c2 = rec.c2;
    let m = rec.chain;
    let mut points: Vec<(i32, i32)> = Vec::new();
    let mut i: usize = 0;
    if c1 > 0 {
        assert(anchored(rec@, 0).map_values(|p: (i32, i32)| flipped(p)) =~= Seq::empty());
        while i < c2
            invariant
                i <= c2,
                c1 == rec.c1,
                c2 == rec.c2,
                c1 > 0,
                m == rec.chain,
                rec@.wf(),
                points@ == anchored(rec@, i as int).map_values(|p: (i32, i32)| flipped(p)),
            decreases c2 - i,
        {
            let a = rec.extra[i] as usize;
            if a < c1 {
                let base = apply_matrix(rec.points[a], &m);
                let d = rec.points[c1 + i];
                let p = (
                    to_i32(base.0 as i128 + combine(d.0, m.extra, 0, 0, 0) as i128),
                    to_i32(base.1 as i128 + combine(d.1, m.extra, 0, 0, 0) as i128),
                );
                points.push(flip(p));
                assert(points@ =~= anchored(rec@, i + 1).map_values(
                    |p: (i32, i32)| flipped(p),
                ));
            }
            i += 1;
        }
    } else {
        let ghost goal = rec.points@.map_values(|p: (i32, i32)| flipped(p));
        while i < c2
            invariant
                i <= c2,
                c1 == 0,
                c1 == rec.c1,
                c2 == rec.c2,
                rec@.wf(),
                goal == rec.points@.map_values(|p: (i32, i32)| flipped(p)),
                points@ =~= goal.take(i as int),
            decreases c2 - i,
        {
            points.push(flip(rec.points[i]));
            i += 1;
        }
        assert(points@ =~= goal);
    }
    let total: usize = rec.flags.len();
    let mut flags = vstd::slice::slice_to_vec(
        slice_subrange(rec.flags.as_slice(), c1, total),
    );
    if flags.len() > 0 {
        let last: usize = flags.len() - 1;
        let flag = flags[last] | 0x80;
        flags.set(last, flag);
    }
    assert(flags@ =~= terminated(rec.flags@.skip(c1 as int)));
    let extra: Vec<u8> = Vec::new();
    let chain = Transform { sx: 64, kx: 0, ky: 0, sy: 64, tx: 0, ty: 0, extra: 64 };
    let r = SubRecord { points, flags, c1: 0, c2, extra, chain };
    assert(r@ =~= finished(rec@));
    r
}

/// The records of a glyph in the coordinates of the output.
fn finish_all(recs: &Vec<SubRecord>) -> (r: Vec<SubRecord>)
    requires
        all_wf(views(recs@)),
    ensures
        views(r@) == views(recs@).map_values(|rec: Rec| finished(rec)),
        all_covered(views(r@)),
{
    let ghost goal = views(recs@).map_values(|rec: Rec| finished(rec));
    let mut out: Vec<SubRecord> = Vec::with_capacity(recs.len());
    let mut i: usize = 0;
    while i < recs.len()
        invariant
            i <= recs.len(),
            all_wf(views(recs@)),
            goal == views(recs@).map_values(|rec: Rec| finished(rec)),
            views(out@) =~= goal.take(i as int),
            all_covered(views(out@)),
        decreases recs.len() - i,
    {
        assert(views(recs@)[i as int] == recs@[i as int]@);
        let rec = finish(&recs[i]);
        let ghost before = views(out@);
        out.push(rec);
        assert(views(out@) =~= before.push(rec@));
        i += 1;
    }
    assert(goal.take(i as int) =~= goal);
    out
}

impl<'a> FtfParser<'a> {
    /// The outlines of the first `num_glyphs` glyphs, in the coordinates of the output.
    pub fn parse_all(&mut self, num_glyphs: usize) -> (res: Result<
        Vec<Vec<SubRecord>>,
        OutlineError,
    >)
        requires
            old(self).wf(),
            num_glyphs > 0 ==> old(self).data().answers(0),
        ensures
            final(self).follows(*old(self)),
            match res {
                Ok(glyphs) => {
                    &&& outlines(old(self).data(), old(self).open(), num_glyphs as int) == Ok::<
                        Seq<Seq<Rec>>,
                        Failure,
                    >(glyph_views(glyphs@))
                    &&& final(self).open() == old(self).open()
                    &&& forall|i: int|
                        0 <= i < glyphs@.len() ==> all_covered(#[trigger] glyph_views(glyphs@)[i])
                },
                Err(error) => outlines(old(self).data(), old(self).open(), num_glyphs as int)
                    == Err::<Seq<Seq<Rec>>, Failure>(Failure { error, open: final(self).open() }),
            },
    {
        let ghost f = self.data();
        let ghost open = self.open();
        let mut glyphs: Vec<Vec<SubRecord>> = Vec::with_capacity(num_glyphs);
        assert(glyph_views(glyphs@) =~= Seq::<Seq<Rec>>::empty());
        let mut gid: usize = 0;
        while gid < num_glyphs
            invariant
                gid <= num_glyphs,
                self.follows(*old(self)),
                self.data() == f,
                self.open() == open,
                num_glyphs > 0 ==> f.answers(0),
                old(self).data() == f,
                old(self).open() == open,
                outlines(f, open, gid as int) == Ok::<Seq<Seq<Rec>>, Failure>(
                    glyph_views(glyphs@),
                ),
                forall|i: int|
                    0 <= i < glyphs@.len() ==> all_covered(#[trigger] glyph_views(glyphs@)[i]),
            decreases num_glyphs - gid,
        {
            match self.raw_outline(gid as u64) {
                Err(e) => {
                    proof {
                        lemma_outlines_fail(f, open, gid + 1, num_glyphs as int);
                    }
                    return Err(e);
                },
                Ok(recs) => {
                    let done = finish_all(&recs);
                    let ghost before = glyph_views(glyphs@);
                    glyphs.push(done);
                    assert(glyph_views(glyphs@) =~= before.push(views(done@)));
                },
            }
            gid += 1;
        }
        Ok(glyphs)
    }
}

} // verus!
