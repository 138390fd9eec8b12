//! A converted font as a reader of the standard sees it.

use vstd::prelude::*;
use crate::bytes::{
    be16, be32, enc16, enc32, lemma_be16_enc16, lemma_be32_enc32, lemma_be32_moved, splice,
};
use crate::convert::{
    all_bounds, converted, convertible, font_glyphs, glyf_table, glyph_count, glyph_data,
    glyph_index, glyph_starts, is_ftf, joined_bounds, loca_numbers, loca_table, missing,
    most_contours, most_points, output_tables, parts, plan, planned, planned_tables, regular,
    whole_bounds, Parts, Plan,
};
use crate::error::ConvertError;
use crate::glyf::{ends, glyph_bytes, Dot};
use crate::laws::font::{
    law_assembled_font_is_kept, law_font_is_sealed, law_put_is_found, law_put_keeps_order,
    law_tables_are_ordered, law_tables_are_read_back, seal_of, sealed,
};
use crate::laws::{font, glyph};
use crate::sfnt::{
    assembled, checksum, font_tables, get, lemma_put_update, lists_empty, ordered, put, unsealed,
    SEAL,
};
use crate::tables::{
    advance, bearings, left_bearing, metrics, rebuilt_head, rebuilt_hhea, rebuilt_hmtx,
    rebuilt_vmtx, Bounds,
};
use crate::tags::{is_private, COLR, CPAL, FTFG, FTFH, GLYF, HEAD, LOCA};

verus! {

broadcast use crate::bytes::group_encoded_lengths;

/// What the output has under a tag.
pub open spec fn expected(plan: Plan<Seq<u8>>, ts: Seq<(u32, Seq<u8>)>, tag: u32) -> Option<
    Seq<u8>,
> {
    if tag == GLYF {
        Some(plan.glyf)
    } else if tag == LOCA {
        Some(plan.loca)
    } else if tag == COLR && plan.color is Some {
        Some((plan.color->0).0)
    } else if tag == CPAL && plan.color is Some {
        Some((plan.color->0).1)
    } else {
        match get(ts, tag) {
            Some(data) => planned(plan, tag, data),
            None => None,
        }
    }
}

/// A tag that no table has is not found.
pub proof fn lemma_get_absent<T>(ts: Seq<(u32, T)>, tag: u32)
    requires
        forall|i: int| 0 <= i < ts.len() ==> (#[trigger] ts[i]).0 != tag,
    ensures
        get(ts, tag) is None,
    decreases ts.len(),
{
    if ts.len() > 0 {
        assert(ts[ts.len() - 1].0 != tag);
        let front = ts.drop_last();
        assert forall|i: int| 0 <= i < front.len() implies (#[trigger] front[i]).0 != tag by {
            assert(ts[i].0 != tag);
        }
        lemma_get_absent(front, tag);
    }
}

/// A table that is found stands in the list.
proof fn lemma_get_index<T>(ts: Seq<(u32, T)>, tag: u32) -> (i: int)
    requires
        get(ts, tag) is Some,
    ensures
        0 <= i < ts.len(),
        ts[i].0 == tag,
        get(ts, tag) == Some(ts[i].1),
    decreases ts.len(),
{
    if ts.last().0 == tag {
        ts.len() - 1
    } else {
        lemma_get_index(ts.drop_last(), tag)
    }
}

/// A table that stands in an ordered list is found.
proof fn lemma_get_at<T>(ts: Seq<(u32, T)>, i: int)
    requires
        ordered(ts),
        0 <= i < ts.len(),
    ensures
        get(ts, ts[i].0) == Some(ts[i].1),
    decreases ts.len(),
{
    if i < ts.len() - 1 {
        assert(ts[i].0 < ts[ts.len() - 1].0);
        let front = ts.drop_last();
        assert(ordered(front)) by {
            assert forall|a: int, b: int| 0 <= a < b < front.len() implies (#[trigger] front[a]).0
                < (#[trigger] front[b]).0 by {
                assert(ts[a].0 < ts[b].0);
            }
        }
        lemma_get_at(front, i);
    }
}

proof fn lemma_planned_tables(
    plan: Plan<Seq<u8>>,
    ts: Seq<(u32, Seq<u8>)>,
    k: int,
    tag: u32,
)
    requires
        ordered(ts),
        0 <= k <= ts.len(),
    ensures
        ordered(planned_tables(plan, ts, k)),
        planned_tables(plan, ts, k).len() <= k,
        get(planned_tables(plan, ts, k), tag) == match get(ts.take(k), tag) {
            Some(data) => planned(plan, tag, data),
            None => None,
        },
    decreases k,
{
    if k > 0 {
        let front = ts.take(k - 1);
        assert(ts.take(k).drop_last() =~= front);
        lemma_planned_tables(plan, ts, k - 1, tag);
        let before = planned_tables(plan, ts, k - 1);
        let (t, data) = ts[k - 1];
        if t == tag {
            assert forall|i: int| 0 <= i < front.len() implies (#[trigger] front[i]).0 != tag by {
                assert(ts[i].0 < ts[k - 1].0);
            }
            lemma_get_absent(front, tag);
        }
        if let Some(new) = planned(plan, t, data) {
            law_put_keeps_order(before, t, new);
            law_put_is_found(before, t, new, tag);
        }
    } else {
        assert(ts.take(0).len() == 0);
    }
}

/// The output has under each tag what was planned for it, and its tags rise.
pub proof fn law_output_is_as_planned(plan: Plan<Seq<u8>>, ts: Seq<(u32, Seq<u8>)>, tag: u32)
    requires
        ordered(ts),
    ensures
        ordered(output_tables(plan, ts)),
        get(output_tables(plan, ts), tag) == expected(plan, ts, tag),
        output_tables(plan, ts).len() <= ts.len() + 4,
{
    let n = ts.len() as int;
    assert(ts.take(n) =~= ts);
    lemma_planned_tables(plan, ts, n, tag);
    let a = planned_tables(plan, ts, n);
    law_put_keeps_order(a, GLYF, plan.glyf);
    law_put_is_found(a, GLYF, plan.glyf, tag);
    let b = put(a, GLYF, plan.glyf);
    law_put_keeps_order(b, LOCA, plan.loca);
    law_put_is_found(b, LOCA, plan.loca, tag);
    let c = put(b, LOCA, plan.loca);
    if let Some((colr, cpal)) = plan.color {
        law_put_keeps_order(c, COLR, colr);
        law_put_is_found(c, COLR, colr, tag);
        let d = put(c, COLR, colr);
        law_put_keeps_order(d, CPAL, cpal);
        law_put_is_found(d, CPAL, cpal, tag);
    }
}

/// The output has no private glyph data, and with colour no other private table either.
pub proof fn law_private_tables_are_gone(plan: Plan<Seq<u8>>, ts: Seq<(u32, Seq<u8>)>, tag: u32)
    requires
        ordered(ts),
    ensures
        !is_ftf(output_tables(plan, ts)),
        get(output_tables(plan, ts), FTFH) is None,
        get(output_tables(plan, ts), FTFG) is None,
        plan.color is Some && is_private(tag) ==> get(output_tables(plan, ts), tag) is None,
{
    law_output_is_as_planned(plan, ts, FTFH);
    law_output_is_as_planned(plan, ts, FTFG);
    law_output_is_as_planned(plan, ts, tag);
}

/// The output has colour tables if and only if there is colour for it, unless the font had tables
/// of that name before.
pub proof fn law_colour_tables_are_there(plan: Plan<Seq<u8>>, ts: Seq<(u32, Seq<u8>)>)
    requires
        ordered(ts),
        get(ts, COLR) is None,
        get(ts, CPAL) is None,
    ensures
        get(output_tables(plan, ts), COLR) is Some <==> plan.color is Some,
        get(output_tables(plan, ts), CPAL) is Some <==> plan.color is Some,
{
    law_output_is_as_planned(plan, ts, COLR);
    law_output_is_as_planned(plan, ts, CPAL);
}

proof fn lemma_glyf_table(gs: Seq<Seq<Dot>>, i: int, n: int)
    requires
        0 <= i < n,
    ensures
        glyf_table(gs, i + 1).len() == glyf_table(gs, i).len() + glyph_bytes(gs[i]).len(),
        glyf_table(gs, i + 1).len() <= glyf_table(gs, n).len(),
        forall|j: int|
            0 <= j < glyph_bytes(gs[i]).len() ==> glyf_table(gs, n)[glyf_table(gs, i).len() + j]
                == #[trigger] glyph_bytes(gs[i])[j],
    decreases n,
{
    if i < n - 1 {
        lemma_glyf_table(gs, i, n - 1);
    }
}

proof fn lemma_glyph_starts(gs: Seq<Seq<Dot>>, k: int)
    requires
        0 <= k,
    ensures
        glyph_starts(gs, k).len() == 4 * k,
        forall|i: int|
            0 <= i < k ==> #[trigger] be32(glyph_starts(gs, k), 4 * i) == glyf_table(gs, i).len()
                as int % 0x1_0000_0000,
    decreases k,
{
    if k > 0 {
        lemma_glyph_starts(gs, k - 1);
        let before = glyph_starts(gs, k - 1);
        assert forall|i: int| 0 <= i < k implies #[trigger] be32(glyph_starts(gs, k), 4 * i)
            == glyf_table(gs, i).len() as int % 0x1_0000_0000 by {
            if i < k - 1 {
                assert(be32(before, 4 * i) == glyf_table(gs, i).len() as int % 0x1_0000_0000);
            } else {
                let b = enc32(glyf_table(gs, i).len() as int);
                lemma_be32_enc32(glyf_table(gs, i).len() as int);
                let now = glyph_starts(gs, k);
                assert(now[4 * i] == b[0] && now[4 * i + 1] == b[1] && now[4 * i + 2] == b[2]
                    && now[4 * i + 3] == b[3]);
            }
        }
    }
}

/// The number at place `i` of a `loca` table with long offsets.
#[verifier::opaque]
pub open spec fn loca_at(loca: Seq<u8>, i: int) -> int {
    be32(loca, 4 * i)
}

proof fn lemma_subrange(t: Seq<u8>, a: int, g: Seq<u8>)
    requires
        0 <= a,
        a + g.len() <= t.len(),
        forall|j: int| 0 <= j < g.len() ==> t[a + j] == #[trigger] g[j],
    ensures
        t.subrange(a, a + g.len()) == g,
{
    assert(t.subrange(a, a + g.len()) =~= g);
}

proof fn lemma_loca_at(gs: Seq<Seq<Dot>>, j: int)
    requires
        0 <= j <= gs.len(),
    ensures
        loca_table(gs).len() == 4 * (gs.len() + 1),
        loca_at(loca_table(gs), j) == glyf_table(gs, j).len() as int % 0x1_0000_0000,
{
    let n = gs.len() as int;
    let starts = glyph_starts(gs, n);
    let total = glyf_table(gs, n).len() as int;
    let loca = loca_table(gs);
    lemma_glyph_starts(gs, n);
    reveal(loca_at);
    if j < n {
        assert(be32(starts, 4 * j) == glyf_table(gs, j).len() as int % 0x1_0000_0000);
        assert(loca[4 * j] == starts[4 * j]);
        assert(loca[4 * j + 1] == starts[4 * j + 1]);
        assert(loca[4 * j + 2] == starts[4 * j + 2]);
        assert(loca[4 * j + 3] == starts[4 * j + 3]);
    } else {
        lemma_be32_enc32(total);
        let b = enc32(total);
        assert(loca[4 * n] == b[0]);
        assert(loca[4 * n + 1] == b[1]);
        assert(loca[4 * n + 2] == b[2]);
        assert(loca[4 * n + 3] == b[3]);
    }
}

/// The `loca` table finds each glyph in the `glyf` table and has one number more than there are
/// glyphs.
pub proof fn law_loca_finds_glyphs(gs: Seq<Seq<Dot>>, i: int)
    requires
        0 <= i < gs.len(),
        glyf_table(gs, gs.len() as int).len() < 0x1_0000_0000,
    ensures
        ({
            let n = gs.len() as int;
            let a = loca_at(loca_table(gs), i);
            let b = loca_at(loca_table(gs), i + 1);
            &&& loca_table(gs).len() == 4 * (n + 1)
            &&& 0 <= a <= b <= glyf_table(gs, n).len()
            &&& glyf_table(gs, n).subrange(a, b) == glyph_bytes(gs[i])
        }),
{
    let n = gs.len() as int;
    let loca = loca_table(gs);
    lemma_loca_at(gs, i);
    lemma_loca_at(gs, i + 1);
    lemma_glyf_table(gs, i, n);
    lemma_subrange(glyf_table(gs, n), glyf_table(gs, i).len() as int, glyph_bytes(gs[i]));
}

/// A rebuilt `head` table has the length of the standard, no overall checksum yet, and long offsets
/// in `loca`.
pub proof fn law_head_is_standard(head: Seq<u8>, b: (i16, i16, i16, i16))
    requires
        head.len() >= 54,
    ensures
        rebuilt_head(head, b).len() == 54,
        be32(rebuilt_head(head, b), 8) == 0,
        be16(rebuilt_head(head, b), 50) == 1,
        be16(rebuilt_head(head, b), 52) == 0,
{
    reveal(rebuilt_head);
    lemma_be32_enc32(0);
    lemma_be16_enc16(1);
    lemma_be16_enc16(0);
    let (z, one, none) = (enc32(0), enc16(1), enc16(0));
    let h = rebuilt_head(head, b);
    assert(h[8] == z[0] && h[9] == z[1] && h[10] == z[2] && h[11] == z[3]);
    assert(h[50] == one[0] && h[51] == one[1]);
    assert(h[52] == none[0] && h[53] == none[1]);
}

/// A rebuilt `hmtx` table has a metric for each glyph, with its advance and its least x, and the
/// rebuilt `hhea` table tells their number.
pub proof fn law_metrics_cover_glyphs(
    hhea: Seq<u8>,
    hmtx: Seq<u8>,
    nhm: int,
    boxes: Seq<Bounds>,
    i: int,
)
    requires
        hhea.len() >= 36,
        boxes.len() < 0x1_0000,
        0 <= i < boxes.len(),
    ensures
        rebuilt_hmtx(hmtx, nhm, boxes).len() == 4 * boxes.len(),
        be16(rebuilt_hhea(hhea, boxes.len() as int), 34) == boxes.len(),
        be16(rebuilt_hmtx(hmtx, nhm, boxes), 4 * i) == advance(hmtx, nhm, i),
        be16(rebuilt_hmtx(hmtx, nhm, boxes), 4 * i + 2) == left_bearing(boxes[i]) % 0x1_0000,
{
    lemma_be16_enc16(boxes.len() as int);
    lemma_metrics(hmtx, nhm, boxes, boxes.len() as int, i);
}

/// The metric of a glyph can be read back.
pub proof fn lemma_metrics(hmtx: Seq<u8>, nhm: int, boxes: Seq<Bounds>, k: int, i: int)
    requires
        0 <= k,
    ensures
        metrics(hmtx, nhm, boxes, k).len() == 4 * k,
        0 <= i < k ==> be16(metrics(hmtx, nhm, boxes, k), 4 * i) == advance(hmtx, nhm, i),
        0 <= i < k ==> be16(metrics(hmtx, nhm, boxes, k), 4 * i + 2) == left_bearing(boxes[i])
            % 0x1_0000,
    decreases k,
{
    if k > 0 {
        lemma_metrics(hmtx, nhm, boxes, k - 1, i);
        let before = metrics(hmtx, nhm, boxes, k - 1);
        let now = metrics(hmtx, nhm, boxes, k);
        let a = enc16(advance(hmtx, nhm, k - 1));
        let l = enc16(left_bearing(boxes[k - 1]));
        assert(now == before + (a + l));
        if 0 <= i < k - 1 {
            assert(now[4 * i] == before[4 * i] && now[4 * i + 1] == before[4 * i + 1] && now[4 * i
                + 2] == before[4 * i + 2] && now[4 * i + 3] == before[4 * i + 3]);
        } else if i == k - 1 {
            lemma_be16_enc16(advance(hmtx, nhm, i));
            lemma_be16_enc16(left_bearing(boxes[i]));
            assert(now[4 * i] == a[0] && now[4 * i + 1] == a[1] && now[4 * i + 2] == l[0] && now[4
                * i + 3] == l[1]);
        }
    }
}

proof fn lemma_bearings(vmtx: Seq<u8>, nvm: int, k: int)
    requires
        0 <= k,
    ensures
        bearings(vmtx, nvm, k).len() == 2 * k,
    decreases k,
{
    if k > 0 {
        lemma_bearings(vmtx, nvm, k - 1);
    }
}

/// A rebuilt `vmtx` table covers all glyphs: four bytes for each full metric, two for each of the
/// other glyphs.
pub proof fn law_vertical_metrics_cover_glyphs(vmtx: Seq<u8>, nvm: int, n: int)
    requires
        0 <= nvm <= n,
    ensures
        rebuilt_vmtx(vmtx, nvm, n).len() == 4 * nvm + 2 * (n - nvm),
{
    lemma_bearings(vmtx, nvm, n - nvm);
}

/// Bounds lie within others.
pub open spec fn within(a: (i16, i16, i16, i16), b: (i16, i16, i16, i16)) -> bool {
    b.0 <= a.0 && b.1 <= a.1 && a.2 <= b.2 && a.3 <= b.3
}

/// The bounds of all glyphs together enclose those of each.
pub proof fn law_bounds_enclose_glyphs(bs: Seq<Bounds>, k: int, i: int)
    requires
        0 <= i < k,
        bs[i] is Some,
    ensures
        joined_bounds(bs, k) matches Some(all) && within(bs[i]->0, all),
    decreases k,
{
    if i < k - 1 {
        law_bounds_enclose_glyphs(bs, k - 1, i);
    }
}

/// No glyph has more points or contours than `maxp` tells.
pub proof fn law_largest_glyph_is_told(gs: Seq<Seq<Dot>>, k: int, i: int)
    requires
        0 <= i < k,
    ensures
        gs[i].len() <= most_points(gs, k),
        ends(gs[i], gs[i].len() as int).len() <= most_contours(gs, k),
    decreases k,
{
    if i < k - 1 {
        law_largest_glyph_is_told(gs, k - 1, i);
    }
}

/// Each side of the bounds of all glyphs together is that of one of them.
pub proof fn law_bounds_touch_glyphs(bs: Seq<Bounds>, k: int)
    requires
        0 <= k <= bs.len(),
    ensures
        match joined_bounds(bs, k) {
            Some(all) => {
                &&& exists|i: int|
                    0 <= i < k && (#[trigger] bs[i]) is Some && (bs[i]->0).0 == all.0
                &&& exists|i: int|
                    0 <= i < k && (#[trigger] bs[i]) is Some && (bs[i]->0).1 == all.1
                &&& exists|i: int|
                    0 <= i < k && (#[trigger] bs[i]) is Some && (bs[i]->0).2 == all.2
                &&& exists|i: int|
                    0 <= i < k && (#[trigger] bs[i]) is Some && (bs[i]->0).3 == all.3
            },
            None => forall|i: int| 0 <= i < k ==> (#[trigger] bs[i]) is None,
        },
    decreases k,
{
    if k > 0 {
        law_bounds_touch_glyphs(bs, k - 1);
        assert(bs[k - 1] is Some || bs[k - 1] is None);
    }
}

/// Some glyph has as many points as `maxp` tells, and some has as many contours.
pub proof fn law_largest_glyph_is_there(gs: Seq<Seq<Dot>>, k: int)
    requires
        0 < k <= gs.len(),
    ensures
        exists|i: int| 0 <= i < k && (#[trigger] gs[i]).len() == most_points(gs, k),
        exists|i: int|
            0 <= i < k && ends(#[trigger] gs[i], gs[i].len() as int).len() == most_contours(gs, k),
    decreases k,
{
    let j = k - 1;
    if k > 1 {
        law_largest_glyph_is_there(gs, j);
        let a = choose|i: int| 0 <= i < j && (#[trigger] gs[i]).len() == most_points(gs, j);
        let b = choose|i: int|
            0 <= i < j && ends(#[trigger] gs[i], gs[i].len() as int).len() == most_contours(gs, j);
        assert(gs[a].len() == most_points(gs, k) || gs[j].len() == most_points(gs, k));
        assert(ends(gs[b], gs[b].len() as int).len() == most_contours(gs, k) || ends(
            gs[j],
            gs[j].len() as int,
        ).len() == most_contours(gs, k));
    } else {
        assert(most_points(gs, 0) == 0 && most_contours(gs, 0) == 0);
        assert(gs[j].len() == most_points(gs, k));
        assert(ends(gs[j], gs[j].len() as int).len() == most_contours(gs, k));
    }
}

/// The tables of the output.
pub open spec fn output_of(
    ts: Seq<(u32, Seq<u8>)>,
    gs: Seq<Seq<Dot>>,
    color: bool,
    cs: Option<Seq<char>>,
) -> Seq<(u32, Seq<u8>)> {
    output_tables(plan(ts, gs, color, cs), ts)
}

/// A font with private glyph data that can be converted: its tables and the points of its glyphs.
/// The output has room in the format for its tables.
pub open spec fn converts(
    raw: Seq<u8>,
    color: bool,
    cs: Option<Seq<char>>,
    ts: Seq<(u32, Seq<u8>)>,
    gs: Seq<Seq<Dot>>,
) -> bool {
    &&& font_tables(raw) == Ok::<Seq<(u32, Seq<u8>)>, ConvertError>(ts)
    &&& is_ftf(ts)
    &&& missing(ts) is None
    &&& font_glyphs(parts(ts)) == Ok::<Seq<Seq<Dot>>, ConvertError>(gs)
    &&& convertible(raw, color, cs)
    &&& output_of(ts, gs, color, cs).len() < 0x1_0000
    &&& unsealed(output_of(ts, gs, color, cs)).len() < 0x1_0000_0000
}

/// The output of a conversion fits the format and has its `head` table.
proof fn lemma_output(
    raw: Seq<u8>,
    color: bool,
    cs: Option<Seq<char>>,
    ts: Seq<(u32, Seq<u8>)>,
    gs: Seq<Seq<Dot>>,
) -> (h: int)
    requires
        converts(raw, color, cs, ts, gs),
    ensures
        converted(raw, color, cs) == Ok::<Seq<u8>, ConvertError>(
            assembled(output_of(ts, gs, color, cs)),
        ),
        font::fits(output_of(ts, gs, color, cs)),
        0 <= h < output_of(ts, gs, color, cs).len(),
        output_of(ts, gs, color, cs)[h].0 == HEAD,
        be32(output_of(ts, gs, color, cs)[h].1, 8) == 0,
{
    let p = plan(ts, gs, color, cs);
    let out = output_of(ts, gs, color, cs);
    law_tables_are_ordered(raw);
    law_output_is_as_planned(p, ts, HEAD);
    assert(get(out, HEAD) == Some(p.head));
    let h = lemma_get_index(out, HEAD);
    let n = gs.len() as int;
    let b = whole_bounds(joined_bounds(all_bounds(gs), n));
    assert(regular(ts, n, color, cs));
    law_head_is_standard(parts(ts).head, b);
    assert forall|i: int| 0 <= i < out.len() && (#[trigger] out[i]).0 == HEAD implies out[i].1.len()
        >= 12 by {
        lemma_get_at(out, i);
    }
    h
}

/// A converted font has the overall checksum that the standard asks for.
pub proof fn law_converted_font_is_sealed(
    raw: Seq<u8>,
    color: bool,
    cs: Option<Seq<char>>,
    ts: Seq<(u32, Seq<u8>)>,
    gs: Seq<Seq<Dot>>,
)
    requires
        converts(raw, color, cs, ts, gs),
    ensures
        converted(raw, color, cs) matches Ok(out) && checksum(out) == SEAL,
{
    let h = lemma_output(raw, color, cs, ts, gs);
    law_font_is_sealed(output_of(ts, gs, color, cs), h);
}

/// A converted font begins with the version of the standard and is longer than the header.
pub proof fn law_converted_font_has_a_header(
    raw: Seq<u8>,
    color: bool,
    cs: Option<Seq<char>>,
    ts: Seq<(u32, Seq<u8>)>,
    gs: Seq<Seq<Dot>>,
)
    requires
        converts(raw, color, cs, ts, gs),
    ensures
        converted(raw, color, cs) matches Ok(out) && be32(out, 0) == 0x1_0000 && out.len() > 12,
{
    let h = lemma_output(raw, color, cs, ts, gs);
    font::law_font_has_a_header(output_of(ts, gs, color, cs));
}

proof fn lemma_sealed_ordered(ts: Seq<(u32, Seq<u8>)>)
    requires
        ordered(ts),
    ensures
        ordered(sealed(ts)),
{
    let out = sealed(ts);
    assert forall|a: int, b: int| 0 <= a < b < out.len() implies (#[trigger] out[a]).0 < (
    #[trigger] out[b]).0 by {
        assert(ts[a].0 < ts[b].0);
    }
}

/// The overall checksum changes no other table.
pub proof fn lemma_get_sealed(ts: Seq<(u32, Seq<u8>)>, tag: u32)
    requires
        ordered(ts),
        tag != HEAD,
    ensures
        get(sealed(ts), tag) == get(ts, tag),
{
    let out = sealed(ts);
    lemma_sealed_ordered(ts);
    if get(ts, tag) is Some {
        let i = lemma_get_index(ts, tag);
        lemma_get_at(out, i);
        assert(out[i] == ts[i]);
    } else {
        assert forall|i: int| 0 <= i < out.len() implies (#[trigger] out[i]).0 != tag by {
            if ts[i].0 == tag {
                lemma_get_at(ts, i);
            }
        }
        lemma_get_absent(out, tag);
    }
}

/// A reader of a converted font finds in its tables, but for `head`, what was planned for them.
pub proof fn law_converted_tables_are_read_back(
    raw: Seq<u8>,
    color: bool,
    cs: Option<Seq<char>>,
    ts: Seq<(u32, Seq<u8>)>,
    gs: Seq<Seq<Dot>>,
    tag: u32,
)
    requires
        converts(raw, color, cs, ts, gs),
        tag != HEAD,
    ensures
        converted(raw, color, cs) is Ok,
        font_tables(converted(raw, color, cs)->Ok_0) matches Ok(out) && get(out, tag) == expected(
            plan(ts, gs, color, cs),
            ts,
            tag,
        ),
{
    let out = output_of(ts, gs, color, cs);
    let h = lemma_output(raw, color, cs, ts, gs);
    law_tables_are_read_back(out);
    law_tables_are_ordered(raw);
    law_output_is_as_planned(plan(ts, gs, color, cs), ts, tag);
    lemma_get_sealed(out, tag);
}

/// A reader of a converted font finds each glyph with the points that the private glyph data gives
/// it: through `loca` its place in `glyf`, and there its points.
pub proof fn law_converted_glyphs_are_read_back(
    raw: Seq<u8>,
    color: bool,
    cs: Option<Seq<char>>,
    ts: Seq<(u32, Seq<u8>)>,
    gs: Seq<Seq<Dot>>,
    i: int,
)
    requires
        converts(raw, color, cs, ts, gs),
        0 <= i < gs.len(),
        glyf_table(gs, gs.len() as int).len() < 0x1_0000_0000,
        gs[i].len() == 0 || glyph::fits(gs[i]),
    ensures
        converted(raw, color, cs) is Ok,
        font_tables(converted(raw, color, cs)->Ok_0) matches Ok(out) && {
            &&& get(out, GLYF) matches Some(glyf)
            &&& get(out, LOCA) matches Some(loca)
            &&& {
                let (a, b) = (loca_at(loca, i), loca_at(loca, i + 1));
                &&& 0 <= a <= b <= glyf.len()
                &&& if gs[i].len() == 0 {
                    a == b
                } else {
                    glyph::decoded(glyf.subrange(a, b)) == gs[i]
                }
            }
        },
{
    law_converted_tables_are_read_back(raw, color, cs, ts, gs, GLYF);
    law_converted_tables_are_read_back(raw, color, cs, ts, gs, LOCA);
    law_loca_finds_glyphs(gs, i);
    if gs[i].len() > 0 {
        glyph::law_glyph_is_read_back(gs[i]);
    } else {
        let n = gs.len() as int;
        let a = loca_at(loca_table(gs), i);
        let b = loca_at(loca_table(gs), i + 1);
        assert(glyph_bytes(gs[i]).len() == 0) by {
            reveal(glyph_bytes);
        }
        assert(glyf_table(gs, n).subrange(a, b).len() == 0);
    }
}

/// A converted font is a standard font: where none of its tables is empty, converting it again
/// leaves it as it is, with or without colour.
pub proof fn law_conversion_is_idempotent(
    raw: Seq<u8>,
    color: bool,
    cs: Option<Seq<char>>,
    ts: Seq<(u32, Seq<u8>)>,
    gs: Seq<Seq<Dot>>,
    color2: bool,
    cs2: Option<Seq<char>>,
)
    requires
        converts(raw, color, cs, ts, gs),
        forall|i: int|
            0 <= i < output_of(ts, gs, color, cs).len() ==> (#[trigger] output_of(
                ts,
                gs,
                color,
                cs,
            )[i]).1.len() > 0,
    ensures
        converted(raw, color, cs) is Ok,
        converted(converted(raw, color, cs)->Ok_0, color2, cs2) == converted(raw, color, cs),
{
    let out = output_of(ts, gs, color, cs);
    let h = lemma_output(raw, color, cs, ts, gs);
    law_tables_are_ordered(raw);
    law_private_tables_are_gone(plan(ts, gs, color, cs), ts, FTFH);
    law_tables_are_read_back(out);
    law_assembled_font_is_kept(out);
    lemma_get_sealed(out, FTFH);
}

/// A standard font without empty tables is skipped: it comes out as it is, with or without colour.
pub proof fn law_standard_font_is_skipped(raw: Seq<u8>, color: bool, cs: Option<Seq<char>>)
    requires
        font_tables(raw) matches Ok(ts) && !is_ftf(ts),
        !lists_empty(raw),
    ensures
        converted(raw, color, cs) == Ok::<Seq<u8>, ConvertError>(raw),
{
}

/// Without colour the characters that are to have it make no difference.
pub proof fn law_characters_need_colour(raw: Seq<u8>, cs: Option<Seq<char>>)
    ensures
        converted(raw, false, cs) == converted(raw, false, None),
        convertible(raw, false, cs) == convertible(raw, false, None),
{
    if let Ok(ts) = font_tables(raw) {
        if let Ok(gs) = font_glyphs(parts(ts)) {
            assert(plan(ts, gs, false, cs) == plan(ts, gs, false, None));
        }
    }
}

/// Colour data that no colour tables come of changes nothing: the font comes out as without
/// colour, its private tables with it.
pub proof fn law_unusable_colour_changes_nothing(
    raw: Seq<u8>,
    cs: Option<Seq<char>>,
    ts: Seq<(u32, Seq<u8>)>,
    gs: Seq<Seq<Dot>>,
)
    requires
        font_tables(raw) == Ok::<Seq<(u32, Seq<u8>)>, ConvertError>(ts),
        font_glyphs(parts(ts)) == Ok::<Seq<Seq<Dot>>, ConvertError>(gs),
        plan(ts, gs, true, cs).color is None,
    ensures
        converted(raw, true, cs) == converted(raw, false, None),
{
    assert(plan(ts, gs, true, cs) == plan(ts, gs, false, None));
}

/// The `head` table of a converted font: the planned one with the overall checksum.
pub proof fn lemma_sealed_head(
    raw: Seq<u8>,
    color: bool,
    cs: Option<Seq<char>>,
    ts: Seq<(u32, Seq<u8>)>,
    gs: Seq<Seq<Dot>>,
)
    requires
        converts(raw, color, cs, ts, gs),
    ensures
        ({
            let out = output_of(ts, gs, color, cs);
            let head = plan(ts, gs, color, cs).head;
            &&& font_tables(converted(raw, color, cs)->Ok_0) == Ok::<
                Seq<(u32, Seq<u8>)>,
                ConvertError,
            >(sealed(out))
            &&& get(sealed(out), HEAD) == Some(splice(head, 8, seal_of(out)))
            &&& seal_of(out).len() == 4
        }),
{
    let p = plan(ts, gs, color, cs);
    let out = output_of(ts, gs, color, cs);
    let h = lemma_output(raw, color, cs, ts, gs);
    law_tables_are_ordered(raw);
    law_output_is_as_planned(p, ts, HEAD);
    law_tables_are_read_back(out);
    lemma_sealed_ordered(out);
    lemma_get_at(out, h);
    lemma_get_at(sealed(out), h);
}

/// The same bytes, but for those of the overall checksum.
pub open spec fn alike_but_for_seal(a: Seq<u8>, b: Seq<u8>) -> bool {
    &&& a.len() == b.len()
    &&& forall|i: int| 0 <= i < a.len() && !(8 <= i < 12) ==> #[trigger] a[i] == b[i]
}

/// What colour changes in a font that had no colour tables. It comes out with both colour tables or
/// with neither. With them it has no private table, and each other table is as without colour, in
/// `head` up to the overall checksum. Without them it comes out as without colour.
pub proof fn law_colour_replaces_private_tables(
    raw: Seq<u8>,
    cs: Option<Seq<char>>,
    ts: Seq<(u32, Seq<u8>)>,
    gs: Seq<Seq<Dot>>,
    tag: u32,
)
    requires
        converts(raw, true, cs, ts, gs),
        converts(raw, false, None, ts, gs),
        get(ts, COLR) is None,
        get(ts, CPAL) is None,
    ensures
        converted(raw, true, cs) is Ok,
        converted(raw, false, None) is Ok,
        font_tables(converted(raw, true, cs)->Ok_0) is Ok,
        font_tables(converted(raw, false, None)->Ok_0) is Ok,
        ({
            let a = font_tables(converted(raw, true, cs)->Ok_0)->Ok_0;
            let b = font_tables(converted(raw, false, None)->Ok_0)->Ok_0;
            &&& get(a, COLR) is Some <==> get(a, CPAL) is Some
            &&& get(a, COLR) is Some ==> {
                &&& is_private(tag) ==> get(a, tag) is None
                &&& !is_private(tag) && tag != COLR && tag != CPAL && tag != HEAD ==> get(a, tag)
                    == get(b, tag)
                &&& get(a, HEAD) is Some && get(b, HEAD) is Some
                &&& alike_but_for_seal(get(a, HEAD)->0, get(b, HEAD)->0)
            }
            &&& get(a, COLR) is None ==> converted(raw, true, cs) == converted(raw, false, None)
        }),
{
    law_converted_tables_are_read_back(raw, true, cs, ts, gs, COLR);
    law_converted_tables_are_read_back(raw, true, cs, ts, gs, CPAL);
    lemma_sealed_head(raw, true, cs, ts, gs);
    lemma_sealed_head(raw, false, None, ts, gs);
    if tag != HEAD {
        law_converted_tables_are_read_back(raw, true, cs, ts, gs, tag);
        law_converted_tables_are_read_back(raw, false, None, ts, gs, tag);
    }
    if plan(ts, gs, true, cs).color is None {
        law_unusable_colour_changes_nothing(raw, cs, ts, gs);
    }
}

/// An index of `n` glyphs that lacks its end, and the same with the end of the glyph data and
/// anything else behind it, find the same glyphs.
proof fn lemma_index_end(loca: Seq<u8>, n: int, end: int, extra: Seq<u8>)
    requires
        0 <= n,
        loca.len() == 4 * n,
        0 <= end < 0x1_0000_0000,
    ensures
        glyph_index(loca + enc32(end) + extra, n, end) == glyph_index(loca, n, end),
        glyph_index(loca, n, end) == Ok::<Seq<usize>, ConvertError>(
            loca_numbers(loca).push(end as usize),
        ),
{
    let more = loca + enc32(end) + extra;
    let (a, b) = (loca_numbers(loca), loca_numbers(more));
    lemma_be32_enc32(end);
    assert(a.len() == n);
    assert(b.len() >= n + 1);
    assert forall|i: int| 0 <= i < n + 1 implies #[trigger] b[i] == a.push(end as usize)[i] by {
        if i < n {
            assert forall|j: int| 0 <= j < loca.len() implies #[trigger] loca[j] == more[0
                + j] by {}
            lemma_be32_moved(more, 0, loca, 4 * i);
        } else {
            let e = enc32(end);
            assert forall|j: int| 0 <= j < e.len() implies #[trigger] e[j] == more[4 * n + j] by {}
            lemma_be32_moved(more, 4 * n, e, 0);
        }
    }
    assert(b.take(n + 1) =~= a.push(end as usize));
    if b.len() == n + 1 {
        assert(b =~= b.take(n + 1));
    }
}

/// Fonts that differ in their `loca` tables alone have the same plan for the other tables.
proof fn lemma_planned_same(
    plan: Plan<Seq<u8>>,
    ts: Seq<(u32, Seq<u8>)>,
    i: int,
    loca: Seq<u8>,
    k: int,
)
    requires
        0 <= i < ts.len(),
        ts[i].0 == LOCA,
        k <= ts.len(),
    ensures
        planned_tables(plan, ts.update(i, (LOCA, loca)), k) == planned_tables(plan, ts, k),
    decreases k,
{
    if k > 0 {
        lemma_planned_same(plan, ts, i, loca, k - 1);
    }
}

/// A font whose index lacks the end of the last glyph, the same with the end of the glyph data put
/// there, and the same with anything behind that are converted alike.
pub proof fn law_index_may_lack_its_end(
    raw: Seq<u8>,
    raw2: Seq<u8>,
    color: bool,
    cs: Option<Seq<char>>,
    ts: Seq<(u32, Seq<u8>)>,
    extra: Seq<u8>,
)
    requires
        is_ftf(ts),
        get(ts, LOCA) is Some,
        parts(ts).loca.len() == 4 * glyph_count(parts(ts).ftfh),
        parts(ts).ftfg.len() < 0x1_0000_0000,
        font_tables(raw) == Ok::<Seq<(u32, Seq<u8>)>, ConvertError>(ts),
        font_tables(raw2) == Ok::<Seq<(u32, Seq<u8>)>, ConvertError>(
            put(ts, LOCA, parts(ts).loca + enc32(parts(ts).ftfg.len() as int) + extra),
        ),
    ensures
        converted(raw2, color, cs) == converted(raw, color, cs),
        convertible(raw2, color, cs) == convertible(raw, color, cs),
{
    let p = parts(ts);
    let n = glyph_count(p.ftfh);
    let loca = p.loca + enc32(p.ftfg.len() as int) + extra;
    let ts2 = put(ts, LOCA, loca);
    law_tables_are_ordered(raw);
    let i = lemma_get_index(ts, LOCA);
    lemma_put_update(ts, LOCA, loca, i);
    assert forall|tag: u32| tag != LOCA implies #[trigger] get(ts2, tag) == get(ts, tag) by {
        law_put_is_found(ts, LOCA, loca, tag);
    }
    law_put_is_found(ts, LOCA, loca, LOCA);
    lemma_index_end(p.loca, n, p.ftfg.len() as int, extra);
    assert(parts(ts2) == Parts { loca, ..p });
    assert(missing(ts2) == missing(ts));
    assert(font_glyphs(parts(ts2)) == font_glyphs(p)) by {
        let index = glyph_index(p.loca, n, p.ftfg.len() as int)->Ok_0;
        assert(glyph_data(parts(ts2), index) == glyph_data(p, index));
    }
    if let Ok(gs) = font_glyphs(p) {
        let a = plan(ts, gs, color, cs);
        assert(plan(ts2, gs, color, cs) == a);
        lemma_planned_same(a, ts, i, loca, ts.len() as int);
        assert(output_tables(a, ts2) == output_tables(a, ts));
    }
}

} // verus!
