//! Outlines: components, cycles and contours.

use vstd::prelude::*;
use crate::error::OutlineError;
use crate::glyf::{all_dots, dots};
use crate::outline::{
    all_moved, composed, expanded, finished, has_field, identity, lemma_free_shrinks,
    lemma_piece_advances, moved, number_at, outline, outlines, piece, placed, records_from,
    rescaled, simple_record, Failure, FtfParser, GlyphData, Piece, Rec, Transform,
};

verus! {

/// What comes of a piece does not change when fewer glyphs are being expanded.
proof fn lemma_expanded_fewer(f: GlyphData, x: Piece, open: Set<int>, fewer: Set<int>)
    requires
        fewer.subset_of(open),
        expanded(f, x, open) is Ok,
    ensures
        expanded(f, x, fewer) == expanded(f, x, open),
    decreases f.free(open).len(), 1int, 0int,
{
    if let Piece::Component(child, m) = x {
        law_outline_needs_no_order(f, child, open, fewer);
    }
}

proof fn lemma_records_fewer(f: GlyphData, gid: int, open: Set<int>, fewer: Set<int>, pos: int)
    requires
        fewer.subset_of(open),
        records_from(f, gid, open, pos) is Ok,
    ensures
        records_from(f, gid, fewer, pos) == records_from(f, gid, open, pos),
    decreases f.free(open).len(), 2int, f.glyph(gid).len() - pos,
{
    let r = f.glyph(gid);
    if 0 <= pos < r.len() {
        let (x, next) = piece(gid, r, pos, f.mode1, f.mode2)->Ok_0;
        lemma_expanded_fewer(f, x, open, fewer);
        if r[pos] & 0x40 != 0 {
            lemma_piece_advances(gid, r, pos, f.mode1, f.mode2);
            lemma_records_fewer(f, gid, open, fewer, next);
        }
    }
}

/// What a glyph comes to does not depend on where it is met: a glyph that can be expanded while
/// some glyphs are open comes to the same records while only some of these are.
pub proof fn law_outline_needs_no_order(f: GlyphData, gid: int, open: Set<int>, fewer: Set<int>)
    requires
        fewer.subset_of(open),
        outline(f, gid, open) is Ok,
    ensures
        outline(f, gid, fewer) == outline(f, gid, open),
    decreases f.free(open).len(), 0int, 0int,
{
    if f.has(gid) {
        lemma_free_shrinks(f, open, gid);
        assert(fewer.insert(gid).subset_of(open.insert(gid)));
        lemma_records_fewer(f, gid, open.insert(gid), fewer.insert(gid), 0);
    }
}

/// A glyph that begins with itself as a component is refused.
pub proof fn law_self_reference_is_refused(f: GlyphData, gid: int, m: Transform, next: int)
    requires
        f.has(gid),
        f.glyph(gid).len() > 0,
        piece(gid, f.glyph(gid), 0, f.mode1, f.mode2) == Ok::<(Piece, int), OutlineError>(
            (Piece::Component(gid, m), next),
        ),
    ensures
        outline(f, gid, Set::empty()) matches Err(x) && x.error == OutlineError::Cycle(
            gid as usize,
        ),
{
    let open = Set::<int>::empty().insert(gid);
    assert(outline(f, gid, open) is Err);
    assert(expanded(f, Piece::Component(gid, m), open) is Err);
    lemma_free_shrinks(f, Set::empty(), gid);
}

/// Two glyphs that begin with each other as components are refused.
pub proof fn law_mutual_reference_is_refused(
    f: GlyphData,
    a: int,
    b: int,
    m: Transform,
    n: Transform,
    p: int,
    q: int,
)
    requires
        a != b,
        f.has(a),
        f.has(b),
        f.glyph(a).len() > 0,
        f.glyph(b).len() > 0,
        piece(a, f.glyph(a), 0, f.mode1, f.mode2) == Ok::<(Piece, int), OutlineError>(
            (Piece::Component(b, m), p),
        ),
        piece(b, f.glyph(b), 0, f.mode1, f.mode2) == Ok::<(Piece, int), OutlineError>(
            (Piece::Component(a, n), q),
        ),
    ensures
        outline(f, a, Set::empty()) matches Err(x) && x.error == OutlineError::Cycle(a as usize),
{
    let one = Set::<int>::empty().insert(a);
    let two = one.insert(b);
    assert(outline(f, a, two) is Err);
    assert(expanded(f, Piece::Component(a, n), two) is Err);
    assert(records_from(f, b, two, 0) is Err);
    lemma_free_shrinks(f, one, b);
    assert(outline(f, b, one) == records_from(f, b, two, 0));
    assert(expanded(f, Piece::Component(b, m), one) is Err);
    lemma_free_shrinks(f, Set::empty(), a);
}

/// A glyph that does not exist has no records.
pub proof fn law_missing_glyph_is_empty(f: GlyphData, gid: int, open: Set<int>)
    requires
        !f.has(gid),
    ensures
        outline(f, gid, open) == Ok::<Seq<Rec>, Failure>(Seq::empty()),
{
}

/// Numbers that a product with 64 keeps in 32 bits.
pub open spec fn in_range(x: i32) -> bool {
    -0x200_0000 <= x < 0x200_0000
}

/// The map that moves nothing moves no point in range.
pub proof fn law_identity_moves_nothing(p: (i32, i32))
    requires
        in_range(p.0),
        in_range(p.1),
    ensures
        moved(p, identity()) == p,
{
}

/// A component of a component: the points are moved by the inner transform first, each to whole
/// units, and what comes of that is moved by the outer one.
pub proof fn law_components_work_outwards(rec: Rec, inner: Transform, outer: Transform)
    requires
        rec.c1 == 0,
    ensures
        placed(placed(rec, inner), outer) == (Rec {
            points: rec.points.map_values(|p: (i32, i32)| moved(moved(p, inner), outer)),
            ..rec
        }),
{
    assert(placed(placed(rec, inner), outer).points =~= rec.points.map_values(
        |p: (i32, i32)| moved(moved(p, inner), outer),
    ));
}

/// A component comes to the records of its target, each placed by its transform.
pub proof fn law_component_places_its_target(
    f: GlyphData,
    child: int,
    m: Transform,
    open: Set<int>,
    recs: Seq<Rec>,
    i: int,
)
    requires
        outline(f, child, open) == Ok::<Seq<Rec>, Failure>(recs),
        0 <= i < recs.len(),
    ensures
        expanded(f, Piece::Component(child, m), open) matches Ok(out) && out.len() == recs.len()
            && out[i] == placed(recs[i], m) && (recs[i].c1 == 0 ==> out[i].points == all_moved(
            recs[i].points,
            m,
        )),
{
}

/// The points of a record without anchors, and the factors of any record, are in range.
pub open spec fn bounded(rec: Rec) -> bool {
    &&& rec.c1 == 0 ==> forall|i: int|
        0 <= i < rec.points.len() ==> in_range((#[trigger] rec.points[i]).0) && in_range(
            rec.points[i].1,
        )
    &&& in_range(rec.chain.sx)
    &&& in_range(rec.chain.kx)
    &&& in_range(rec.chain.ky)
    &&& in_range(rec.chain.sy)
    &&& in_range(rec.chain.extra)
}

/// All records are bounded.
pub open spec fn all_bounded(recs: Seq<Rec>) -> bool {
    forall|i: int| 0 <= i < recs.len() ==> bounded(#[trigger] recs[i])
}

proof fn lemma_piece_bounded(gid: int, r: Seq<u8>, pos: int, mode1: u8, mode2: u8)
    ensures
        piece(gid, r, pos, mode1, mode2) matches Ok((Piece::Simple(rec), next)) ==> bounded(rec),
{
    reveal(piece);
    if let Ok((Piece::Simple(rec), next)) = simple_record(gid, r, pos, mode2) {
        assert forall|i: int| 0 <= i < rec.points.len() implies in_range(
            (#[trigger] rec.points[i]).0,
        ) && in_range(rec.points[i].1) by {}
    }
}

proof fn lemma_placed_bounded(rec: Rec, m: Transform)
    requires
        bounded(rec),
    ensures
        bounded(placed(rec, m)),
{
}

proof fn lemma_expanded_bounded(f: GlyphData, x: Piece, open: Set<int>)
    requires
        x matches Piece::Simple(rec) ==> bounded(rec),
    ensures
        expanded(f, x, open) matches Ok(recs) ==> all_bounded(recs),
    decreases f.free(open).len(), 1int, 0int,
{
    if let Piece::Component(child, m) = x {
        lemma_outline_bounded(f, child, open);
        if let Ok(recs) = outline(f, child, open) {
            let out = expanded(f, x, open)->Ok_0;
            assert forall|i: int| 0 <= i < out.len() implies bounded(#[trigger] out[i]) by {
                assert(bounded(recs[i]));
                lemma_placed_bounded(recs[i], m);
            }
        }
    }
}

proof fn lemma_records_bounded(f: GlyphData, gid: int, open: Set<int>, pos: int)
    ensures
        records_from(f, gid, open, pos) matches Ok(recs) ==> all_bounded(recs),
    decreases f.free(open).len(), 2int, f.glyph(gid).len() - pos,
{
    let r = f.glyph(gid);
    if 0 <= pos < r.len() {
        lemma_piece_bounded(gid, r, pos, f.mode1, f.mode2);
        if let Ok((x, next)) = piece(gid, r, pos, f.mode1, f.mode2) {
            lemma_expanded_bounded(f, x, open);
            if r[pos] & 0x40 != 0 {
                lemma_piece_advances(gid, r, pos, f.mode1, f.mode2);
                lemma_records_bounded(f, gid, open, next);
            }
        }
    }
}

proof fn lemma_outline_bounded(f: GlyphData, gid: int, open: Set<int>)
    ensures
        outline(f, gid, open) matches Ok(recs) ==> all_bounded(recs),
    decreases f.free(open).len(), 0int, 0int,
{
    if f.has(gid) && !open.contains(gid) {
        lemma_free_shrinks(f, open, gid);
        lemma_records_bounded(f, gid, open.insert(gid), 0);
    }
}

/// The shifts of a record with anchors are in range.
pub open spec fn calm(rec: Rec) -> bool {
    rec.c1 != 0 ==> in_range(rec.chain.tx) && in_range(rec.chain.ty)
}

proof fn lemma_identity_places_nothing(rec: Rec)
    requires
        bounded(rec),
        calm(rec),
    ensures
        placed(rec, identity()) == rec,
{
    if rec.c1 == 0 {
        assert forall|i: int| 0 <= i < rec.points.len() implies #[trigger] all_moved(
            rec.points,
            identity(),
        )[i] == rec.points[i] by {
            law_identity_moves_nothing(rec.points[i]);
        }
        assert(all_moved(rec.points, identity()) =~= rec.points);
    } else {
        lemma_composed_identity(rec.chain);
    }
}

proof fn lemma_rescaled(x: i32)
    requires
        in_range(x),
    ensures
        rescaled(64 * x) == x,
{
}

proof fn lemma_composed_identity(c: Transform)
    requires
        in_range(c.sx),
        in_range(c.kx),
        in_range(c.ky),
        in_range(c.sy),
        in_range(c.tx),
        in_range(c.ty),
        in_range(c.extra),
    ensures
        composed(identity(), c) == c,
{
    lemma_rescaled(c.sx);
    lemma_rescaled(c.kx);
    lemma_rescaled(c.ky);
    lemma_rescaled(c.sy);
    lemma_rescaled(c.tx);
    lemma_rescaled(c.ty);
    lemma_rescaled(c.extra);
    let d = composed(identity(), c);
    assert(d.sx == c.sx && d.kx == c.kx && d.ky == c.ky && d.sy == c.sy);
    assert(d.tx == c.tx && d.ty == c.ty && d.extra == c.extra);
}

/// The bytes of a glyph are one component: the length of the number of a glyph, the number, and no
/// fields of a transform.
pub open spec fn is_alias(r: Seq<u8>, h: int) -> bool {
    &&& r.len() >= 3
    &&& 1 <= r[0] <= 7
    &&& r.len() == r[0] + 2
    &&& number_at(r, 1, r[0] as int) == h
    &&& r.last() == 0
}

proof fn lemma_alias_piece(gid: int, r: Seq<u8>, h: int, mode1: u8, mode2: u8)
    requires
        is_alias(r, h),
    ensures
        piece(gid, r, 0, mode1, mode2) == Ok::<(Piece, int), OutlineError>(
            (Piece::Component(h, identity()), r.len() as int),
        ),
        r[0] & 0x40 == 0,
{
    reveal(piece);
    let b = r[0];
    assert(b & 0x80 == 0 && b & 0x40 == 0 && b & 7 == b) by (bit_vector)
        requires
            1 <= b <= 7,
    ;
    let at = 1 + b as int;
    let flags = r[at];
    assert forall|k: u8| k < 7 implies !#[trigger] has_field(flags, k) by {
        assert(flags == 0);
        assert((0u8 >> k) & 1 == 0) by (bit_vector);
    }
    assert(flags & 0x80 == 0) by (bit_vector)
        requires
            flags == 0,
    ;
    reveal_with_fuel(crate::outline::fields, 8);
}

/// What comes of all glyphs is what comes of each.
pub proof fn lemma_outlines_at(f: GlyphData, open: Set<int>, n: int, i: int)
    requires
        0 <= i < n,
        outlines(f, open, n) is Ok,
    ensures
        outlines(f, open, n)->Ok_0.len() == n,
        outline(f, i, open) matches Ok(recs) && outlines(f, open, n)->Ok_0[i] == recs.map_values(
            |rec: Rec| finished(rec),
        ),
    decreases n,
{
    assert(outlines(f, open, 0) == Ok::<Seq<Seq<Rec>>, Failure>(Seq::empty()));
    if n > 1 {
        lemma_outlines_at(f, open, n - 1, if i < n - 1 {
            i
        } else {
            0
        });
    }
}

/// A glyph that is one component without a transform comes out as its target does. Anchored
/// records of the target have shifts in range.
pub proof fn law_alias_equals_its_target(f: GlyphData, n: int, g: int, h: int)
    requires
        outlines(f, Set::empty(), n) is Ok,
        0 <= g < n,
        0 <= h < n,
        f.has(g),
        is_alias(f.glyph(g), h),
        outline(f, h, Set::empty()) matches Ok(recs) ==> forall|i: int|
            0 <= i < recs.len() ==> calm(#[trigger] recs[i]),
    ensures
        outlines(f, Set::empty(), n)->Ok_0.len() == n,
        outlines(f, Set::empty(), n)->Ok_0[g] == outlines(f, Set::empty(), n)->Ok_0[h],
{
    let none = Set::<int>::empty();
    let one = none.insert(g);
    let r = f.glyph(g);
    lemma_outlines_at(f, none, n, g);
    lemma_outlines_at(f, none, n, h);
    lemma_alias_piece(g, r, h, f.mode1, f.mode2);
    lemma_free_shrinks(f, none, g);
    let x = Piece::Component(h, identity());
    assert(outline(f, g, none) == records_from(f, g, one, 0));
    assert(records_from(f, g, one, 0) == expanded(f, x, one));
    law_outline_needs_no_order(f, h, one, none);
    lemma_outline_bounded(f, h, none);
    let recs = outline(f, h, none)->Ok_0;
    let placed_recs = recs.map_values(|rec: Rec| placed(rec, identity()));
    assert forall|i: int| 0 <= i < recs.len() implies #[trigger] placed_recs[i] == recs[i] by {
        assert(bounded(recs[i]) && calm(recs[i]));
        lemma_identity_places_nothing(recs[i]);
    }
    assert(placed_recs =~= recs);
}

/// A finished record is plain: no anchors, no transform, and the end of a contour at its last flag.
pub proof fn law_finished_records_are_plain(rec: Rec)
    ensures
        finished(rec).c1 == 0,
        finished(rec).c2 == rec.c2,
        finished(rec).extra.len() == 0,
        finished(rec).chain == identity(),
        finished(rec).flags.len() > 0 ==> finished(rec).flags.last() & 0x80 != 0,
{
    let flags = rec.flags.skip(rec.c1);
    if flags.len() > 0 {
        let b = flags.last();
        assert((b | 0x80) & 0x80 != 0) by (bit_vector);
        assert(finished(rec).flags.last() == b | 0x80);
    }
}

/// Where a glyph fails, all glyphs that were open stay open, and so does the glyph itself.
pub proof fn law_failure_leaves_glyphs_open(f: GlyphData, gid: int, open: Set<int>)
    ensures
        outline(f, gid, open) matches Err(x) ==> f.has(gid) && open.subset_of(x.open)
            && x.open.contains(gid),
    decreases f.free(open).len(), 0int, 0int,
{
    if f.has(gid) && !open.contains(gid) {
        lemma_free_shrinks(f, open, gid);
        lemma_records_open(f, gid, open.insert(gid), 0);
    }
}

proof fn lemma_records_open(f: GlyphData, gid: int, open: Set<int>, pos: int)
    ensures
        records_from(f, gid, open, pos) matches Err(x) ==> open.subset_of(x.open),
    decreases f.free(open).len(), 2int, f.glyph(gid).len() - pos,
{
    let r = f.glyph(gid);
    if 0 <= pos < r.len() {
        if let Ok((x, next)) = piece(gid, r, pos, f.mode1, f.mode2) {
            lemma_expanded_open(f, x, open);
            if r[pos] & 0x40 != 0 {
                lemma_piece_advances(gid, r, pos, f.mode1, f.mode2);
                lemma_records_open(f, gid, open, next);
            }
        }
    }
}

proof fn lemma_expanded_open(f: GlyphData, x: Piece, open: Set<int>)
    ensures
        expanded(f, x, open) matches Err(x) ==> open.subset_of(x.open),
    decreases f.free(open).len(), 1int, 0int,
{
    if let Piece::Component(child, m) = x {
        law_failure_leaves_glyphs_open(f, child, open);
    }
}

/// Asking a parser for a glyph again, whatever was asked in between, gives the same: the records
/// that it gave, or a fault where it failed. `first` is the parser after the first answer, `later`
/// the parser when it is asked again, and `open` what was open at the first.
pub proof fn law_second_answer_is_the_first(
    first: FtfParser,
    later: FtfParser,
    gid: int,
    open: Set<int>,
)
    requires
        first.wf(),
        later.follows(first),
        match outline(first.data(), gid, open) {
            Ok(_) => first.data().has(gid) ==> first.done().contains(gid),
            Err(x) => x.open == first.open(),
        },
    ensures
        match outline(first.data(), gid, open) {
            Ok(recs) => outline(later.data(), gid, later.open()) == Ok::<Seq<Rec>, Failure>(recs),
            Err(_) => outline(later.data(), gid, later.open()) is Err,
        },
{
    let f = first.data();
    if outline(f, gid, open) is Ok {
        law_outline_needs_no_order(f, gid, open, Set::empty());
        if f.has(gid) {
            later.lemma_done_is_settled(gid, Set::empty());
            later.lemma_done_is_settled(gid, later.open());
        }
    } else {
        law_failure_leaves_glyphs_open(f, gid, open);
        assert(later.open().contains(gid));
    }
}

/// A record without anchors keeps all its points, and their last one ends a contour: no point is
/// left without one.
pub proof fn law_contours_are_closed(rec: Rec)
    requires
        rec.wf(),
        rec.c1 == 0,
        rec.c2 > 0,
    ensures
        finished(rec).points.len() == rec.points.len(),
        dots(finished(rec)).len() == rec.points.len(),
        dots(finished(rec)).last().end,
{
    let done = finished(rec);
    let b = rec.flags.skip(rec.c1).last();
    assert((b | 0x80) & 0x80 != 0) by (bit_vector);
    assert(done.flags.last() == b | 0x80);
}

/// A record comes of one without anchors.
pub open spec fn comes_without_anchors(done: Rec, rec: Rec) -> bool {
    rec.wf() && rec.c1 == 0 && done == finished(rec)
}

/// In a glyph whose records have no anchors the last point ends a contour.
pub proof fn law_glyphs_are_closed(done: Seq<Rec>, recs: Seq<Rec>, k: int)
    requires
        0 <= k <= done.len(),
        done.len() == recs.len(),
        forall|i: int| 0 <= i < done.len() ==> comes_without_anchors(#[trigger] done[i], recs[i]),
    ensures
        all_dots(done, k).len() > 0 ==> all_dots(done, k).last().end,
    decreases k,
{
    if k > 0 {
        law_glyphs_are_closed(done, recs, k - 1);
        assert(comes_without_anchors(done[k - 1], recs[k - 1]));
        if recs[k - 1].c2 > 0 {
            law_contours_are_closed(recs[k - 1]);
        } else {
            assert(dots(done[k - 1]).len() == 0);
            assert(all_dots(done, k) =~= all_dots(done, k - 1));
        }
    }
}

} // verus!
