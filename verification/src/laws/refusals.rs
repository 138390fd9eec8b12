//! Glyph data that is cut off or otherwise at fault.

use vstd::prelude::*;
use crate::bytes::{be16, enc16, lemma_be16_enc16};
use crate::error::OutlineError;
use crate::laws::bytes::stands;
use crate::laws::glyph::bit;
use crate::laws::records::{
    coord_bytes, fields_bytes, fields_fit, law_coordinate_is_read_back,
    law_cut_coordinate_is_refused, lemma_has_field, lemma_lead, lemma_points_len, points_bytes,
    transform_bytes, weight, Written,
};
use crate::outline::{
    expanded, field_defaults, field_mode, fields, lemma_piece_advances, outline, outlines, piece,
    records_from, skip_element, skip_elements, skip_groups, transform, width, Failure, GlyphData,
    Piece, Rec,
};

verus! {

broadcast use crate::bytes::group_encoded_lengths;

/// The first `cut` bytes of `b` stand in `r` at `pos`, and `r` ends behind them.
pub open spec fn cut_off(r: Seq<u8>, pos: int, b: Seq<u8>, cut: int) -> bool {
    &&& 0 <= pos
    &&& 0 <= cut < b.len()
    &&& r.len() == pos + cut
    &&& forall|j: int| 0 <= j < cut ==> #[trigger] b[j] == r[pos + j]
}

/// The fault of a coordinate that is cut off: one byte is missing in mode 1, else one of two.
pub open spec fn cut_coord(mode: u8) -> OutlineError {
    if mode == 1 {
        OutlineError::Coord8
    } else {
        OutlineError::Coord16
    }
}

/// A simple record that is cut off is refused. The fault is that of its head, of a coordinate, of
/// its flags or of its anchors, in this order.
pub proof fn law_cut_record_is_refused(
    gid: int,
    r: Seq<u8>,
    pos: int,
    w: Written,
    mode1: u8,
    mode2: u8,
    cut: int,
)
    requires
        w.fits(mode2),
        1 <= cut,
        cut_off(r, pos, w.bytes(mode2), cut),
    ensures
        ({
            let total = w.anchors.len() + w.points.len();
            let size: int = if mode2 == 1 {
                1
            } else {
                2
            };
            piece(gid, r, pos, mode1, mode2) == Err::<(Piece, int), OutlineError>(
                if cut < 4 {
                    OutlineError::SimpleHeader(gid as usize)
                } else if cut < 4 + 2 * size * total {
                    cut_coord(mode2)
                } else if cut < 4 + 2 * size * total + total {
                    OutlineError::SimpleFlags(gid as usize)
                } else {
                    OutlineError::Anchors(gid as usize)
                },
            )
        }),
{
    reveal(piece);
    let b = w.bytes(mode2);
    let head = seq![w.lead, w.anchors.len() as u8];
    let count = enc16(w.points.len() as int);
    let ps = points_bytes(w.all(), mode2, 0);
    assert(b[0] == w.lead);
    assert(b[0] == r[pos + 0]);
    lemma_lead(w.lead);
    lemma_points_len(w.all(), mode2, 0);
    let total = w.all().len() as int;
    let size = width(mode2);
    assert(2 * size * (total - 0) == 2 * total * size) by (nonlinear_arith);
    assert(b.len() == 4 + ps.len() + total + w.extra.len());
    if cut >= 4 {
        assert(b[1] == w.anchors.len() as u8);
        assert(b[1] == r[pos + 1]);
        assert(b[2] == count[0] && b[3] == count[1]);
        assert(b[2] == r[pos + 2] && b[3] == r[pos + 3]);
        lemma_be16_enc16(w.points.len() as int);
        assert(be16(r, pos + 2) == w.points.len());
    }
}

proof fn lemma_cut_fields(
    r: Seq<u8>,
    pos: int,
    mode1: u8,
    mode2: u8,
    flags: u8,
    k: u8,
    sofar: Seq<i32>,
    vals: Seq<int>,
    j: int,
    cut: int,
)
    requires
        k <= j < 7,
        fields_fit(vals, mode1, mode2),
        bit(flags, weight(j)),
        cut_off(r, pos, fields_bytes(flags, vals, mode1, mode2, k as int), cut),
        ({
            let all = fields_bytes(flags, vals, mode1, mode2, k as int).len();
            let from = fields_bytes(flags, vals, mode1, mode2, j).len();
            let behind = fields_bytes(flags, vals, mode1, mode2, j + 1).len();
            all - from <= cut < all - behind
        }),
    ensures
        fields(r, pos, mode1, mode2, flags, k, sofar) == Err::<(Seq<i32>, int), OutlineError>(
            cut_coord(
                if j == 4 || j == 5 {
                    mode2
                } else {
                    mode1
                },
            ),
        ),
    decreases 7 - k,
{
    lemma_has_field(flags, k);
    let b = fields_bytes(flags, vals, mode1, mode2, k as int);
    let rest = fields_bytes(flags, vals, mode1, mode2, k + 1);
    if k < j {
        lemma_fields_shorten(flags, vals, mode1, mode2, k + 1, j);
        if bit(flags, weight(k as int)) {
            let mode = field_mode(mode1, mode2, k);
            let c = coord_bytes(vals[k as int], mode);
            assert(b == c + rest);
            assert(stands(r, pos, c)) by {
                assert forall|i: int| 0 <= i < c.len() implies #[trigger] c[i] == r[pos + i] by {
                    assert(b[i] == c[i]);
                }
            }
            law_coordinate_is_read_back(r, pos, vals[k as int], mode);
            assert(cut_off(r, pos + c.len(), rest, cut - c.len())) by {
                assert forall|i: int| 0 <= i < cut - c.len() implies #[trigger] rest[i] == r[pos
                    + c.len() + i] by {
                    assert(b[c.len() + i] == rest[i]);
                }
            }
            lemma_cut_fields(
                r,
                pos + c.len(),
                mode1,
                mode2,
                flags,
                (k + 1) as u8,
                sofar.update(k as int, vals[k as int] as i32),
                vals,
                j,
                cut - c.len(),
            );
        } else {
            lemma_cut_fields(
                r,
                pos,
                mode1,
                mode2,
                flags,
                (k + 1) as u8,
                sofar,
                vals,
                j,
                cut,
            );
        }
    } else {
        law_cut_coordinate_is_refused(r, pos, field_mode(mode1, mode2, k));
    }
}

proof fn lemma_fields_shorten(flags: u8, vals: Seq<int>, mode1: u8, mode2: u8, k: int, j: int)
    requires
        k <= j <= 7,
    ensures
        fields_bytes(flags, vals, mode1, mode2, j).len() <= fields_bytes(
            flags,
            vals,
            mode1,
            mode2,
            k,
        ).len(),
    decreases j - k,
{
    if k < j {
        lemma_fields_shorten(flags, vals, mode1, mode2, k + 1, j);
    }
}

/// A transform without flags is refused for them. One that is cut off in a field is refused for the
/// coordinate.
pub proof fn law_cut_transform_is_refused(
    r: Seq<u8>,
    pos: int,
    flags: u8,
    vals: Seq<int>,
    mode1: u8,
    mode2: u8,
    j: int,
    cut: int,
)
    requires
        0 <= j < 7,
        fields_fit(vals, mode1, mode2),
        bit(flags, weight(j)),
        cut_off(r, pos, transform_bytes(flags, vals, mode1, mode2), cut),
        ({
            let all = transform_bytes(flags, vals, mode1, mode2).len();
            let from = fields_bytes(flags, vals, mode1, mode2, j).len();
            let behind = fields_bytes(flags, vals, mode1, mode2, j + 1).len();
            cut == 0 || all - from <= cut < all - behind
        }),
    ensures
        transform(r, pos, mode1, mode2) == Err::<(crate::outline::Transform, int), OutlineError>(
            if cut == 0 {
                OutlineError::TransformFlags
            } else {
                cut_coord(
                    if j == 4 || j == 5 {
                        mode2
                    } else {
                        mode1
                    },
                )
            },
        ),
{
    if cut > 0 {
        let t = transform_bytes(flags, vals, mode1, mode2);
        let b = fields_bytes(flags, vals, mode1, mode2, 0);
        assert(t[0] == flags);
        assert(t[0] == r[pos + 0]);
        assert(cut_off(r, pos + 1, b, cut - 1)) by {
            assert forall|i: int| 0 <= i < cut - 1 implies #[trigger] b[i] == r[pos + 1 + i] by {
                assert(t[1 + i] == b[i]);
                assert(t[1 + i] == r[pos + (1 + i)]);
            }
        }
        lemma_cut_fields(
            r,
            pos + 1,
            mode1,
            mode2,
            flags,
            0,
            field_defaults(),
            vals,
            j,
            cut - 1,
        );
    }
}

/// A component whose number of a glyph is cut off is refused. So is one whose transform is at
/// fault, for that fault, and an extended one whose elements are, for theirs.
pub proof fn law_faults_of_components(gid: int, r: Seq<u8>, pos: int, mode1: u8, mode2: u8)
    requires
        0 <= pos < r.len(),
        r[pos] < 0x80,
    ensures
        ({
            let at = pos + 1 + r[pos] as int % 8;
            let found = piece(gid, r, pos, mode1, mode2);
            &&& at > r.len() ==> found == Err::<(Piece, int), OutlineError>(
                OutlineError::ComponentGlyph(gid as usize),
            )
            &&& at <= r.len() ==> match transform(r, at, mode1, mode2) {
                Err(e) => found == Err::<(Piece, int), OutlineError>(e),
                Ok((_m, p)) => r[at] >= 0x80 ==> match skip_elements(r, p, mode1, mode2) {
                    Err(e) => found == Err::<(Piece, int), OutlineError>(e),
                    Ok(_q) => found is Ok,
                },
            }
        }),
{
    reveal(piece);
    lemma_lead(r[pos]);
    let at = pos + 1 + r[pos] as int % 8;
    if at < r.len() {
        lemma_lead(r[at]);
    }
}

/// An element that is cut off in its head is refused for what is missing: the first byte, the
/// second byte of its count, or the byte that tells what changes.
pub proof fn law_cut_element_is_refused(r: Seq<u8>, pos: int, mode1: u8, mode2: u8)
    requires
        0 <= pos <= r.len(),
    ensures
        pos == r.len() ==> skip_element(r, pos, mode1, mode2) == Err::<int, OutlineError>(
            OutlineError::Element,
        ),
        pos + 1 == r.len() ==> skip_element(r, pos, mode1, mode2) == Err::<int, OutlineError>(
            if bit(r[pos], 64) {
                OutlineError::ElementCount
            } else {
                OutlineError::ElementHeader
            },
        ),
        pos + 2 == r.len() && bit(r[pos], 64) ==> skip_element(r, pos, mode1, mode2) == Err::<
            int,
            OutlineError,
        >(OutlineError::ElementHeader),
{
    if pos < r.len() {
        lemma_lead(r[pos]);
    }
}

/// What an element changes is refused where it is cut off: a factor in kinds 2, 3 and 6, a shift in
/// kinds 4 and 5, a transform in kind 7.
pub proof fn law_cut_change_is_refused(r: Seq<u8>, pos: int, mode1: u8, mode2: u8, at: int)
    requires
        0 <= pos < r.len(),
        at == pos + (if bit(r[pos], 64) {
            2int
        } else {
            1
        }),
        at < r.len(),
    ensures
        ({
            let kind = r[at] as int / 32;
            let left = r.len() - at - 1;
            let found = skip_element(r, pos, mode1, mode2);
            &&& (kind == 2 || kind == 3 || kind == 6) && (left < 1 || mode1 != 1 && left < 2)
                ==> found == Err::<int, OutlineError>(cut_coord(mode1))
            &&& (kind == 4 || kind == 5) && (left < 1 || mode2 != 1 && left < 2) ==> found == Err::<
                int,
                OutlineError,
            >(cut_coord(mode2))
            &&& kind == 7 ==> (transform(r, at + 1, mode1, mode2) matches Err(e) ==> found == Err::<
                int,
                OutlineError,
            >(e))
        }),
{
    lemma_lead(r[pos]);
    let b = r[at];
    assert(b >> 5 == b / 32) by (bit_vector);
}

/// A group that is cut off is refused for its first byte, for the rest of its index, or for a
/// coordinate.
pub proof fn law_cut_group_is_refused(r: Seq<u8>, pos: int, mode2: u8, wide: bool, n: int)
    requires
        0 <= pos <= r.len(),
        n > 0,
    ensures
        ({
            let found = skip_groups(r, pos, mode2, wide, n);
            let start = pos + (if wide {
                2int
            } else {
                1
            });
            let size: int = if mode2 == 1 {
                1
            } else {
                2
            };
            &&& pos == r.len() ==> found == Err::<int, OutlineError>(OutlineError::Group)
            &&& wide && pos + 1 == r.len() ==> found == Err::<int, OutlineError>(
                OutlineError::GroupIndex,
            )
            &&& start <= r.len() && pos < r.len() && r[pos] >= 0xC0 && start + 2 * size > r.len()
                ==> found == Err::<int, OutlineError>(cut_coord(mode2))
            &&& start <= r.len() && pos < r.len() && 0x80 <= r[pos] < 0x90 && start + 2 * size
                > r.len() ==> found == Err::<int, OutlineError>(cut_coord(mode2))
            &&& start <= r.len() && pos < r.len() && 0x90 <= r[pos] < 0xC0 && start + size
                > r.len() ==> found == Err::<int, OutlineError>(cut_coord(mode2))
        }),
{
    if pos < r.len() {
        let b = r[pos];
        assert(b >> 6 == b / 64 && (b >> 4) & 3 == b / 16 % 4) by (bit_vector);
        assert(1 * width(mode2) == width(mode2));
        assert(2 * width(mode2) == width(mode2) + width(mode2));
    }
}

/// The elements of a component are gone through one by one, up to one whose first byte is below
/// 0x80. The first that is at fault counts.
pub proof fn law_first_faulty_element_counts(r: Seq<u8>, pos: int, mode1: u8, mode2: u8)
    requires
        0 <= pos,
    ensures
        match skip_element(r, pos, mode1, mode2) {
            Err(e) => skip_elements(r, pos, mode1, mode2) == Err::<int, OutlineError>(e),
            Ok(p) => skip_elements(r, pos, mode1, mode2) == if r[pos] >= 0x80 {
                skip_elements(r, p, mode1, mode2)
            } else {
                Ok(p)
            },
        },
{
    if 0 <= pos < r.len() {
        lemma_lead(r[pos]);
    }
    crate::outline::lemma_skip_element_advances(r, pos, mode1, mode2);
}

/// The records of a glyph are gone through one by one: the first that is at fault counts, be the
/// fault its own or that of the glyph that it places. One whose first byte has not the bit of
/// weight 64 is the last.
pub proof fn law_first_faulty_record_counts(f: GlyphData, gid: int, open: Set<int>, pos: int)
    requires
        0 <= pos < f.glyph(gid).len(),
    ensures
        match piece(gid, f.glyph(gid), pos, f.mode1, f.mode2) {
            Err(error) => records_from(f, gid, open, pos) matches Err(x) && x.error == error,
            Ok((Piece::Component(child, m), next)) => outline(f, child, open) matches Err(x)
                ==> records_from(f, gid, open, pos) == Err::<Seq<Rec>, Failure>(x),
            Ok((Piece::Simple(rec), next)) => if bit(f.glyph(gid)[pos], 64) {
                match records_from(f, gid, open, next) {
                    Ok(rest) => records_from(f, gid, open, pos) == Ok::<Seq<Rec>, Failure>(
                        seq![rec] + rest,
                    ),
                    Err(x) => records_from(f, gid, open, pos) == Err::<Seq<Rec>, Failure>(x),
                }
            } else {
                records_from(f, gid, open, pos) == Ok::<Seq<Rec>, Failure>(seq![rec])
            },
        },
{
    let r = f.glyph(gid);
    lemma_lead(r[pos]);
    if let Ok((x, next)) = piece(gid, r, pos, f.mode1, f.mode2) {
        lemma_piece_advances(gid, r, pos, f.mode1, f.mode2);
        if let Piece::Component(child, m) = x {
            if outline(f, child, open) is Err {
                assert(expanded(f, x, open) is Err);
            }
        } else if let Piece::Simple(rec) = x {
            assert(expanded(f, x, open) == Ok::<Seq<Rec>, Failure>(seq![rec]));
        }
    }
}

/// The records behind a component follow those that it comes to.
pub proof fn law_records_follow_components(
    f: GlyphData,
    gid: int,
    open: Set<int>,
    pos: int,
    child: int,
    m: crate::outline::Transform,
    next: int,
)
    requires
        0 <= pos < f.glyph(gid).len(),
        piece(gid, f.glyph(gid), pos, f.mode1, f.mode2) == Ok::<(Piece, int), OutlineError>(
            (Piece::Component(child, m), next),
        ),
        outline(f, child, open) is Ok,
    ensures
        ({
            let placed_recs = expanded(f, Piece::Component(child, m), open)->Ok_0;
            &&& placed_recs.len() == outline(f, child, open)->Ok_0.len()
            &&& !bit(f.glyph(gid)[pos], 64) ==> records_from(f, gid, open, pos) == Ok::<
                Seq<Rec>,
                Failure,
            >(placed_recs)
            &&& bit(f.glyph(gid)[pos], 64) ==> match records_from(f, gid, open, next) {
                Ok(rest) => records_from(f, gid, open, pos) == Ok::<Seq<Rec>, Failure>(
                    placed_recs + rest,
                ),
                Err(x) => records_from(f, gid, open, pos) == Err::<Seq<Rec>, Failure>(x),
            }
        }),
{
    let r = f.glyph(gid);
    lemma_lead(r[pos]);
    lemma_piece_advances(gid, r, pos, f.mode1, f.mode2);
    assert(expanded(f, Piece::Component(child, m), open) is Ok);
}

/// A glyph that is met while it is being expanded is refused by its number, whatever it holds. One
/// that does not exist has no records even there.
pub proof fn law_open_glyph_is_refused(f: GlyphData, gid: int, open: Set<int>)
    requires
        open.contains(gid),
    ensures
        0 <= gid < f.count && gid + 1 < f.loca.len() ==> outline(f, gid, open) == Err::<
            Seq<Rec>,
            Failure,
        >(Failure { error: OutlineError::Cycle(gid as usize), open }),
        gid >= f.count || gid + 1 >= f.loca.len() ==> outline(f, gid, open) == Ok::<
            Seq<Rec>,
            Failure,
        >(Seq::empty()),
{
}

/// The glyphs are gone through one by one. The first that is at fault counts.
pub proof fn law_first_faulty_glyph_counts(f: GlyphData, open: Set<int>, n: int, g: int, x: Failure)
    requires
        0 <= g < n,
        outline(f, g, open) == Err::<Seq<Rec>, Failure>(x),
        forall|i: int| 0 <= i < g ==> #[trigger] outline(f, i, open) is Ok,
    ensures
        outlines(f, open, n) == Err::<Seq<Seq<Rec>>, Failure>(x),
    decreases n,
{
    if g < n - 1 {
        law_first_faulty_glyph_counts(f, open, n - 1, g, x);
    } else {
        lemma_outlines_ok(f, open, g);
    }
}

proof fn lemma_outlines_ok(f: GlyphData, open: Set<int>, n: int)
    requires
        0 <= n,
        forall|i: int| 0 <= i < n ==> #[trigger] outline(f, i, open) is Ok,
    ensures
        outlines(f, open, n) is Ok,
    decreases n,
{
    if n > 0 {
        lemma_outlines_ok(f, open, n - 1);
        assert(outline(f, n - 1, open) is Ok);
    }
}

} // verus!
