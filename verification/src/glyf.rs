//! The standard form of a glyph: contours of points, as the `glyf` table holds them.

use vstd::prelude::*;
use crate::bytes::{
    append, enc16, lemma_enc16_mod, numbers16, push16, push_len16, push_signed16, to_i16,
    to_i32, wrap16, wrap32,
};
use crate::outline::{all_covered, covered, views, Rec, SubRecord};

verus! {

broadcast use crate::bytes::group_encoded_lengths;

/// A point of a glyph: whether it lies on the curve, and whether a contour ends at it.
#[derive(Debug, Clone, Copy, PartialEq, Eq, Structural)]
pub struct Dot {
    pub x: i32,
    pub y: i32,
    pub on: bool,
    pub end: bool,
}

/// Whether one of the first `k` points is marked as the end of a contour.
pub open spec fn has_end(rec: Rec, k: int) -> bool {
    exists|i: int| 0 <= i < k && #[trigger] rec.flags[i] & 0x80 != 0
}

/// The points of a record. The last one ends a contour where no point is marked.
pub open spec fn dots(rec: Rec) -> Seq<Dot> {
    let n = rec.points.len();
    Seq::new(
        n,
        |i: int|
            Dot {
                x: rec.points[i].0,
                y: rec.points[i].1,
                on: rec.flags[i] & 1 != 0,
                end: rec.flags[i] & 0x80 != 0 || i == n - 1 && !has_end(rec, n as int),
            },
    )
}

/// The points of the first `k` records.
pub open spec fn all_dots(recs: Seq<Rec>, k: int) -> Seq<Dot>
    decreases k,
{
    if k <= 0 {
        Seq::empty()
    } else {
        all_dots(recs, k - 1) + dots(recs[k - 1])
    }
}

/// Where contours end among the first `k` points.
pub open spec fn ends(ds: Seq<Dot>, k: int) -> Seq<int>
    decreases k,
{
    if k <= 0 {
        Seq::empty()
    } else if ds[k - 1].end {
        ends(ds, k - 1).push(k - 1)
    } else {
        ends(ds, k - 1)
    }
}

/// The smaller of two numbers.
pub open spec fn min32(a: i32, b: i32) -> i32 {
    if a < b {
        a
    } else {
        b
    }
}

/// The greater of two numbers.
pub open spec fn max32(a: i32, b: i32) -> i32 {
    if a > b {
        a
    } else {
        b
    }
}

/// The extent of the first `k + 1` points: least x and y, greatest x and y.
pub open spec fn extent(ds: Seq<Dot>, k: int) -> (i32, i32, i32, i32)
    decreases k,
{
    let d = ds[k];
    if k <= 0 {
        (d.x, d.y, d.x, d.y)
    } else {
        let e = extent(ds, k - 1);
        (min32(e.0, d.x), min32(e.1, d.y), max32(e.2, d.x), max32(e.3, d.y))
    }
}

/// The extent of a glyph, in 16 bits.
pub open spec fn bounds(ds: Seq<Dot>) -> (i16, i16, i16, i16) {
    let e = extent(ds, ds.len() - 1);
    (wrap16(e.0 as int), wrap16(e.1 as int), wrap16(e.2 as int), wrap16(e.3 as int))
}

/// The points in x.
pub open spec fn xs(ds: Seq<Dot>) -> Seq<i32> {
    ds.map_values(|d: Dot| d.x)
}

/// The points in y.
pub open spec fn ys(ds: Seq<Dot>) -> Seq<i32> {
    ds.map_values(|d: Dot| d.y)
}

/// The coordinate that the step to coordinate `i` starts from.
pub open spec fn origin(cs: Seq<i32>, i: int) -> i32 {
    if i == 0 {
        0
    } else {
        cs[i - 1]
    }
}

/// The step to coordinate `i`.
pub open spec fn step(cs: Seq<i32>, i: int) -> i32 {
    wrap32(cs[i] - origin(cs, i))
}

/// A step: nothing, one byte without a sign, or two bytes.
pub open spec fn step_bytes(d: i32) -> Seq<u8> {
    if d == 0 {
        Seq::empty()
    } else if 1 <= d <= 255 {
        seq![d as u8]
    } else if -255 <= d <= -1 {
        seq![(-d) as u8]
    } else {
        enc16(d as int)
    }
}

/// The flags of a step: 1 for one byte, 8 for no step or for a byte that is added. The flags of a
/// point hold those of x one bit up and those of y two bits up.
pub open spec fn step_flags(d: i32) -> int {
    if d == 0 {
        8
    } else if 1 <= d <= 255 {
        9
    } else if -255 <= d <= -1 {
        1
    } else {
        0
    }
}

/// The flags of point `i`.
pub open spec fn point_flags(ds: Seq<Dot>, i: int) -> u8 {
    ((if ds[i].on {
        1int
    } else {
        0
    }) + 2 * step_flags(step(xs(ds), i)) + 4 * step_flags(step(ys(ds), i))) as u8
}

/// The steps to the first `k` coordinates.
pub open spec fn steps(cs: Seq<i32>, k: int) -> Seq<u8>
    decreases k,
{
    if k <= 0 {
        Seq::empty()
    } else {
        steps(cs, k - 1) + step_bytes(step(cs, k - 1))
    }
}

/// The flags of all points.
pub open spec fn flag_bytes(ds: Seq<Dot>) -> Seq<u8> {
    Seq::new(ds.len(), |i: int| point_flags(ds, i))
}

/// The head of a glyph: the contours, the extent, the ends of the contours, and no instructions.
pub open spec fn glyph_head(ds: Seq<Dot>) -> Seq<u8> {
    let es = ends(ds, ds.len() as int);
    let b = bounds(ds);
    enc16(es.len() as int) + enc16(b.0 as int) + enc16(b.1 as int) + enc16(b.2 as int) + enc16(
        b.3 as int,
    ) + numbers16(es, es.len() as int) + enc16(0)
}

/// A glyph in the `glyf` table. One without points takes no room.
#[verifier::opaque]
pub open spec fn glyph_bytes(ds: Seq<Dot>) -> Seq<u8> {
    if ds.len() == 0 {
        Seq::empty()
    } else {
        let n = ds.len() as int;
        glyph_head(ds) + flag_bytes(ds) + steps(xs(ds), n) + steps(ys(ds), n)
    }
}

/// An encoded glyph and what the other tables tell of it.
pub struct ConvertedGlyph {
    pub data: Vec<u8>,
    pub pts_count: usize,
    pub contours_count: usize,
    pub bbox: Option<(i16, i16, i16, i16)>,
}

impl ConvertedGlyph {
    /// This is the glyph with the points `ds`.
    pub open spec fn encodes(self, ds: Seq<Dot>) -> bool {
        &&& self.data@ == glyph_bytes(ds)
        &&& self.pts_count == ds.len()
        &&& self.contours_count == ends(ds, ds.len() as int).len()
        &&& self.bbox == if ds.len() == 0 {
            None
        } else {
            Some(bounds(ds))
        }
    }
}

/// Appends a step.
fn push_step(out: &mut Vec<u8>, d: i32) -> (flags: u8)
    ensures
        final(out)@ == old(out)@ + step_bytes(d),
        flags == step_flags(d),
{
    if d == 0 {
        assert(out@ + Seq::<u8>::empty() =~= out@);
        8
    } else if 1 <= d && d <= 255 {
        out.push(d as u8);
        assert(out@ =~= old(out)@ + step_bytes(d));
        9
    } else if -255 <= d && d <= -1 {
        out.push((-d) as u8);
        assert(out@ =~= old(out)@ + step_bytes(d));
        1
    } else {
        let low = to_i16(d);
        proof {
            lemma_enc16_mod(low as int, d as int);
        }
        push_signed16(out, low);
        0
    }
}

/// The points of a record.
fn append_dots(rec: &SubRecord, out: &mut Vec<Dot>)
    requires
        covered(rec@),
    ensures
        final(out)@ == old(out)@ + dots(rec@),
{
    let n: usize = rec.points.len();
    let mut marked = false;
    let mut i: usize = 0;
    while i < n
        invariant
            i <= n,
            n == rec.points@.len(),
            covered(rec@),
            marked == has_end(rec@, i as int),
        decreases n - i,
    {
        if rec.flags[i] & 0x80 != 0 {
            assert(rec@.flags[i as int] & 0x80 != 0);
            marked = true;
        }
        i += 1;
    }
    i = 0;
    while i < n
        invariant
            i <= n,
            n == rec.points@.len(),
            covered(rec@),
            marked == has_end(rec@, n as int),
            out@ =~= old(out)@ + dots(rec@).take(i as int),
        decreases n - i,
    {
        let p = rec.points[i];
        let flag = rec.flags[i];
        out.push(
            Dot {
                x: p.0,
                y: p.1,
                on: flag & 1 != 0,
                end: flag & 0x80 != 0 || i == n - 1 && !marked,
            },
        );
        i += 1;
    }
    assert(dots(rec@).take(n as int) =~= dots(rec@));
}

/// The difference of two coordinates.
fn difference(a: i32, b: i32) -> (r: i32)
    ensures
        r == wrap32(a - b),
{
    to_i32(a as i128 - b as i128)
}

/// Encodes the records of a glyph.
pub fn encode_simple_glyph(records: &Vec<SubRecord>) -> (r: ConvertedGlyph)
    requires
        all_covered(views(records@)),
    ensures
        r.encodes(all_dots(views(records@), records@.len() as int)),
{
    let mut ds: Vec<Dot> = Vec::new();
    let mut i: usize = 0;
    while i < records.len()
        invariant
            i <= records@.len(),
            all_covered(views(records@)),
            ds@ == all_dots(views(records@), i as int),
        decreases records@.len() - i,
    {
        assert(views(records@)[i as int] == records@[i as int]@);
        append_dots(&records[i], &mut ds);
        i += 1;
    }
    encode_dots(&ds)
}

/// Encodes the points of a glyph.
fn encode_dots(ds: &Vec<Dot>) -> (r: ConvertedGlyph)
    ensures
        r.encodes(ds@),
{
    proof {
        reveal(glyph_bytes);
    }
    let n: usize = ds.len();
    if n == 0 {
        return ConvertedGlyph {
            data: Vec::new(),
            pts_count: 0,
            contours_count: 0,
            bbox: None,
        };
    }
    let mut endpts: Vec<usize> = Vec::new();
    let mut e = (ds[0].x, ds[0].y, ds[0].x, ds[0].y);
    let mut i: usize = 0;
    while i < n
        invariant
            i <= n,
            n == ds@.len(),
            n > 0,
            endpts@.map_values(|x: usize| x as int) =~= ends(ds@, i as int),
            i > 0 ==> e == extent(ds@, i - 1),
            i == 0 ==> e == extent(ds@, 0),
        decreases n - i,
    {
        let d = ds[i];
        if d.end {
            endpts.push(i);
        }
        if d.x < e.0 {
            e.0 = d.x;
        }
        if d.y < e.1 {
            e.1 = d.y;
        }
        if d.x > e.2 {
            e.2 = d.x;
        }
        if d.y > e.3 {
            e.3 = d.y;
        }
        i += 1;
    }
    let ghost es = ends(ds@, n as int);
    assert(endpts@.len() == es.len());
    let bbox = (to_i16(e.0), to_i16(e.1), to_i16(e.2), to_i16(e.3));
    let mut buf: Vec<u8> = Vec::new();
    push_len16(&mut buf, endpts.len());
    push_signed16(&mut buf, bbox.0);
    push_signed16(&mut buf, bbox.1);
    push_signed16(&mut buf, bbox.2);
    push_signed16(&mut buf, bbox.3);
    let ghost head = buf@;
    assert(head =~= enc16(es.len() as int) + enc16(bbox.0 as int) + enc16(bbox.1 as int) + enc16(
        bbox.2 as int,
    ) + enc16(bbox.3 as int));
    i = 0;
    assert(buf@ =~= head + numbers16(es, 0));
    while i < endpts.len()
        invariant
            i <= endpts@.len(),
            endpts@.map_values(|x: usize| x as int) =~= es,
            buf@ == head + numbers16(es, i as int),
        decreases endpts@.len() - i,
    {
        let ghost before = buf@;
        assert(es[i as int] == endpts@[i as int]);
        push_len16(&mut buf, endpts[i]);
        assert(buf@ =~= head + numbers16(es, i + 1));
        i += 1;
    }
    push16(&mut buf, 0);
    assert(buf@ == glyph_head(ds@));
    let mut flags_out: Vec<u8> = Vec::with_capacity(n);
    let mut in_x: Vec<u8> = Vec::new();
    let mut in_y: Vec<u8> = Vec::new();
    let mut last_x: i32 = 0;
    let mut last_y: i32 = 0;
    i = 0;
    while i < n
        invariant
            i <= n,
            n == ds@.len(),
            last_x == origin(xs(ds@), i as int),
            last_y == origin(ys(ds@), i as int),
            flags_out@ =~= flag_bytes(ds@).take(i as int),
            in_x@ == steps(xs(ds@), i as int),
            in_y@ == steps(ys(ds@), i as int),
        decreases n - i,
    {
        let d = ds[i];
        let fx = push_step(&mut in_x, difference(d.x, last_x));
        let fy = push_step(&mut in_y, difference(d.y, last_y));
        let on: u8 = if d.on {
            1
        } else {
            0
        };
        flags_out.push(on + 2 * fx + 4 * fy);
        last_x = d.x;
        last_y = d.y;
        i += 1;
    }
    append(&mut buf, flags_out.as_slice());
    append(&mut buf, in_x.as_slice());
    append(&mut buf, in_y.as_slice());
    assert(flag_bytes(ds@).take(n as int) =~= flag_bytes(ds@));
    ConvertedGlyph { data: buf, pts_count: n, contours_count: endpts.len(), bbox: Some(bbox) }
}

} // verus!
