//! Paints as they are read, chosen and written.

use vstd::prelude::*;
use crate::bytes::{
    be16, be32, enc16, enc24, enc32, lemma_be16_enc16, lemma_be16_moved, lemma_be32_enc32,
    lemma_be32_moved, wrap16, zeros,
};
use crate::color::{
    any_brush, box_of, brush, brush_ink, brushes, chosen_by_map, chosen_by_turn, chosen_palette,
    color_choice, color_index, color_tables, colors_of, colr_bytes, colr_header, cpal_bytes,
    distinct, first_choice, glyph_brushes, gradient_points, group, group_brush, half, ink_bytes,
    ink_pool, interned, interned_all, is_chosen, is_mapped, least, paint_block, signed_numbers,
    stop_bytes, stops, table_brushes, table_glyph_brushes, visible, visible_gradients, visible_inks,
    Ink,
};
use crate::laws::bytes::{lemma_stands_parts, stands};
use crate::laws::color::{
    entries_of, gets_color, law_choice_is_right, law_forcing_only_adds, lemma_colr_header,
    lemma_entries_chosen, lemma_entries_pushed, walked,
};
use crate::tables::Bounds;

verus! {

broadcast use crate::bytes::group_encoded_lengths;

/// The record of one colour.
pub open spec fn solid_record(c: u32) -> Seq<u8> {
    seq![0u8] + enc32(c as int)
}

/// The first `k` colours of a gradient.
pub open spec fn stop_colors(ss: Seq<(u16, u32)>, k: int) -> Seq<u8>
    decreases k,
{
    if k <= 0 {
        Seq::empty()
    } else {
        stop_colors(ss, k - 1) + enc32(ss[k - 1].1 as int)
    }
}

/// The first `k` places of a gradient.
pub open spec fn stop_places(ss: Seq<(u16, u32)>, k: int) -> Seq<u8>
    decreases k,
{
    if k <= 0 {
        Seq::empty()
    } else {
        stop_places(ss, k - 1) + enc16(ss[k - 1].0 as int)
    }
}

/// The record of a gradient: twelve bytes, the colours of its stops, and their places.
pub open spec fn gradient_record(head: Seq<u8>, ss: Seq<(u16, u32)>) -> Seq<u8> {
    let n = ss.len() as int;
    head + stop_colors(ss, n) + stop_places(ss, n)
}

proof fn lemma_stop_colors(ss: Seq<(u16, u32)>, k: int, j: int)
    requires
        0 <= k,
    ensures
        stop_colors(ss, k).len() == 4 * k,
        0 <= j < k ==> be32(stop_colors(ss, k), 4 * j) == ss[j].1,
    decreases k,
{
    if k > 0 {
        lemma_stop_colors(ss, k - 1, j);
        let before = stop_colors(ss, k - 1);
        let e = enc32(ss[k - 1].1 as int);
        let all = before + e;
        lemma_be32_enc32(ss[k - 1].1 as int);
        lemma_be32_moved(all, 4 * (k - 1), e, 0);
        if 0 <= j < k - 1 {
            lemma_be32_moved(all, 0, before, 4 * j);
        }
    }
}

proof fn lemma_stop_places(ss: Seq<(u16, u32)>, k: int, j: int)
    requires
        0 <= k,
    ensures
        stop_places(ss, k).len() == 2 * k,
        0 <= j < k ==> be16(stop_places(ss, k), 2 * j) == ss[j].0,
    decreases k,
{
    if k > 0 {
        lemma_stop_places(ss, k - 1, j);
        let before = stop_places(ss, k - 1);
        let e = enc16(ss[k - 1].0 as int);
        let all = before + e;
        lemma_be16_enc16(ss[k - 1].0 as int);
        lemma_be16_moved(all, 2 * (k - 1), e, 0);
        if 0 <= j < k - 1 {
            lemma_be16_moved(all, 0, before, 2 * j);
        }
    }
}

/// A record of one colour gives back the colour.
pub proof fn law_solid_paint_is_read_back(c: u32)
    ensures
        brush_ink(solid_record(c)) == Some(Ink::Solid(c)),
{
    let rec = solid_record(c);
    lemma_be32_enc32(c as int);
    lemma_be32_moved(rec, 1, enc32(c as int), 0);
}

/// A record of a gradient gives back its stops, whatever its first bytes.
pub proof fn law_gradient_is_read_back(head: Seq<u8>, ss: Seq<(u16, u32)>)
    requires
        head.len() == 12,
        ss.len() > 0,
    ensures
        brush_ink(gradient_record(head, ss)) == Some(Ink::Linear(ss)),
{
    let n = ss.len() as int;
    let rec = gradient_record(head, ss);
    lemma_stop_colors(ss, n, 0);
    lemma_stop_places(ss, n, 0);
    let (cs, ps) = (stop_colors(ss, n), stop_places(ss, n));
    assert forall|j: int| 0 <= j < n implies #[trigger] stops(rec)[j] == ss[j] by {
        lemma_stop_colors(ss, n, j);
        lemma_stop_places(ss, n, j);
        lemma_be32_moved(rec, 12, cs, 4 * j);
        lemma_be16_moved(rec, 12 + 4 * n, ps, 2 * j);
    }
    assert(stops(rec) =~= ss);
}

/// A record that can be neither holds no paint.
pub proof fn law_other_records_hold_no_paint(rec: Seq<u8>)
    requires
        rec.len() != 5 || rec[0] != 0,
        rec.len() < 18 || rec.len() % 6 != 0,
    ensures
        brush_ink(rec) is None,
{
}

/// The first `k` records one after the other.
pub open spec fn records_joined(rs: Seq<Seq<u8>>, k: int) -> Seq<u8>
    decreases k,
{
    if k <= 0 {
        Seq::empty()
    } else {
        records_joined(rs, k - 1) + rs[k - 1]
    }
}

/// Where the first `k` records begin.
pub open spec fn record_offsets(rs: Seq<Seq<u8>>, k: int) -> Seq<u8>
    decreases k,
{
    if k <= 0 {
        Seq::empty()
    } else {
        record_offsets(rs, k - 1) + enc32(records_joined(rs, k - 1).len() as int)
    }
}

/// A `brsh` table: four bytes, the number of records, where they begin and where the last one ends,
/// and the records.
pub open spec fn brush_table(head: Seq<u8>, rs: Seq<Seq<u8>>) -> Seq<u8> {
    let n = rs.len() as int;
    head + enc32(n) + record_offsets(rs, n + 1) + records_joined(rs, n)
}

/// The paints in the first `k` records that hold one.
pub open spec fn record_inks(rs: Seq<Seq<u8>>, k: int) -> Seq<Ink>
    decreases k,
{
    if k <= 0 {
        Seq::empty()
    } else {
        match brush_ink(rs[k - 1]) {
            Some(ink) => record_inks(rs, k - 1).push(ink),
            None => record_inks(rs, k - 1),
        }
    }
}

proof fn lemma_record_offsets(rs: Seq<Seq<u8>>, k: int, j: int)
    requires
        0 <= k,
    ensures
        record_offsets(rs, k).len() == 4 * k,
        0 <= j < k ==> be32(record_offsets(rs, k), 4 * j) == records_joined(rs, j).len()
            % 0x1_0000_0000,
    decreases k,
{
    if k > 0 {
        lemma_record_offsets(rs, k - 1, j);
        let before = record_offsets(rs, k - 1);
        let v = records_joined(rs, k - 1).len() as int;
        let e = enc32(v);
        let all = before + e;
        lemma_be32_enc32(v);
        lemma_be32_moved(all, 4 * (k - 1), e, 0);
        if 0 <= j < k - 1 {
            lemma_be32_moved(all, 0, before, 4 * j);
        }
    }
}

proof fn lemma_records_joined(rs: Seq<Seq<u8>>, i: int, n: int)
    requires
        0 <= i < n,
    ensures
        records_joined(rs, i).len() + rs[i].len() == records_joined(rs, i + 1).len(),
        records_joined(rs, i + 1).len() <= records_joined(rs, n).len(),
        stands(records_joined(rs, n), records_joined(rs, i).len() as int, rs[i]),
    decreases n,
{
    if i < n - 1 {
        lemma_records_joined(rs, i, n - 1);
        let (a, b) = (records_joined(rs, n - 1), rs[n - 1]);
        let p = records_joined(rs, i).len() as int;
        assert forall|j: int| 0 <= j < rs[i].len() implies #[trigger] rs[i][j] == (a + b)[p
            + j] by {}
    }
}

proof fn lemma_brush_layout(head: Seq<u8>, rs: Seq<Seq<u8>>)
    requires
        head.len() == 4,
        rs.len() < 0x1_0000_0000,
    ensures
        ({
            let n = rs.len() as int;
            let t = brush_table(head, rs);
            &&& be32(t, 4) == n
            &&& stands(t, 8, record_offsets(rs, n + 1))
            &&& stands(t, 12 + 4 * n, records_joined(rs, n))
            &&& t.len() == 12 + 4 * n + records_joined(rs, n).len()
        }),
{
    let n = rs.len() as int;
    let t = brush_table(head, rs);
    let (c, os, all) = (enc32(n), record_offsets(rs, n + 1), records_joined(rs, n));
    lemma_record_offsets(rs, n + 1, 0);
    lemma_be32_enc32(n);
    assert(t =~= head + (c + (os + all)));
    assert(stands(t, 0, t));
    lemma_stands_parts(t, 0, head, c + (os + all));
    lemma_stands_parts(t, 4, c, os + all);
    lemma_stands_parts(t, 8, os, all);
    lemma_be32_moved(t, 4, c, 0);
}

proof fn lemma_record_stands(t: Seq<u8>, rs: Seq<Seq<u8>>, n: int, i: int)
    requires
        0 <= i < n,
        stands(t, 8, record_offsets(rs, n + 1)),
        stands(t, 12 + 4 * n, records_joined(rs, n)),
        records_joined(rs, n).len() < 0x1_0000_0000,
    ensures
        ({
            let p = records_joined(rs, i).len() as int;
            &&& be32(t, 8 + 4 * i) == p
            &&& be32(t, 8 + 4 * (i + 1)) == p + rs[i].len()
            &&& stands(t, 12 + 4 * n + p, rs[i])
        }),
{
    let os = record_offsets(rs, n + 1);
    let p = records_joined(rs, i).len() as int;
    lemma_records_joined(rs, i, n);
    assert(be32(t, 8 + 4 * i) == p) by {
        lemma_record_offsets(rs, n + 1, i);
        lemma_be32_moved(t, 8, os, 4 * i);
    }
    assert(be32(t, 8 + 4 * (i + 1)) == p + rs[i].len()) by {
        lemma_record_offsets(rs, n + 1, i + 1);
        lemma_be32_moved(t, 8, os, 4 * (i + 1));
    }
    lemma_stands_within(t, 12 + 4 * n, records_joined(rs, n), p, rs[i]);
}

proof fn lemma_stands_within(t: Seq<u8>, d: int, all: Seq<u8>, p: int, r: Seq<u8>)
    requires
        stands(t, d, all),
        stands(all, p, r),
    ensures
        stands(t, d + p, r),
{
    assert forall|j: int| 0 <= j < r.len() implies #[trigger] r[j] == t[d + p + j] by {
        assert(r[j] == all[p + j]);
        assert(all[p + j] == t[d + (p + j)]);
    }
}

proof fn lemma_table_brush(head: Seq<u8>, rs: Seq<Seq<u8>>, i: int)
    requires
        head.len() == 4,
        brush_table(head, rs).len() < 0x1_0000_0000,
        0 <= i < rs.len(),
    ensures
        brush(brush_table(head, rs), i) == brush_ink(rs[i]),
{
    let t = brush_table(head, rs);
    let n = rs.len() as int;
    assert(n < 0x1_0000_0000) by {
        lemma_record_offsets(rs, n + 1, 0);
    }
    lemma_brush_layout(head, rs);
    lemma_record_stands(t, rs, n, i);
    let at = 12 + 4 * rs.len() as int + records_joined(rs, i).len();
    lemma_brush_at(t, i, at, rs[i]);
}

proof fn lemma_brush_at(t: Seq<u8>, i: int, at: int, r: Seq<u8>)
    requires
        at == 12 + 4 * be32(t, 4) + be32(t, 8 + 4 * i),
        at + r.len() == 12 + 4 * be32(t, 4) + be32(t, 8 + 4 * (i + 1)),
        stands(t, at, r),
    ensures
        brush(t, i) == brush_ink(r),
{
    if r.len() == 0 {
        law_other_records_hold_no_paint(r);
    } else {
        assert(t.subrange(at, at + r.len()) =~= r);
    }
}

/// A `brsh` table gives back the paints of its records, in their order. Records without a paint are
/// passed over.
pub proof fn law_brushes_are_read_back(head: Seq<u8>, rs: Seq<Seq<u8>>)
    requires
        head.len() == 4,
        rs.len() > 0,
        brush_table(head, rs).len() < 0x1_0000_0000,
    ensures
        table_brushes(brush_table(head, rs)) == record_inks(rs, rs.len() as int),
{
    let n = rs.len() as int;
    lemma_record_offsets(rs, n + 1, 0);
    assert(n < 0x1_0000_0000);
    lemma_brush_layout(head, rs);
    lemma_brushes(head, rs, n);
}

proof fn lemma_brushes(head: Seq<u8>, rs: Seq<Seq<u8>>, k: int)
    requires
        head.len() == 4,
        brush_table(head, rs).len() < 0x1_0000_0000,
        0 <= k <= rs.len(),
    ensures
        brushes(brush_table(head, rs), k) == record_inks(rs, k),
    decreases k,
{
    if k > 0 {
        lemma_brushes(head, rs, k - 1);
        lemma_table_brush(head, rs, k - 1);
    }
}

/// A `brsh` table whose list of places is cut off, or that has no records, has no paints. A record
/// that does not end behind its beginning, or that ends behind the table, holds none.
pub proof fn law_cut_brushes_hold_no_paint(blob: Seq<u8>, i: int)
    ensures
        blob.len() < 8 || be32(blob, 4) == 0 || blob.len() < 12 + 4 * be32(blob, 4)
            ==> table_brushes(blob).len() == 0,
        ({
            let data = 12 + 4 * be32(blob, 4);
            let (s, e) = (data + be32(blob, 8 + 4 * i), data + be32(blob, 12 + 4 * i));
            s >= e || e > blob.len() ==> brush(blob, i) is None
        }),
{
}

/// The paints in the first `k` records of a `brsh` table: record `i` lies between the places that
/// stand at `8 + 4 * i` and behind it, counted from the end of the list of places.
pub open spec fn listed_inks(blob: Seq<u8>, k: int) -> Seq<Ink>
    decreases k,
{
    if k <= 0 {
        Seq::empty()
    } else {
        let before = listed_inks(blob, k - 1);
        let data = 12 + 4 * be32(blob, 4);
        let (s, e) = (data + be32(blob, 4 + 4 * k), data + be32(blob, 8 + 4 * k));
        if s < e <= blob.len() && brush_ink(blob.subrange(s, e)) is Some {
            before.push(brush_ink(blob.subrange(s, e))->0)
        } else {
            before
        }
    }
}

proof fn lemma_listed_inks(blob: Seq<u8>, k: int)
    ensures
        brushes(blob, k) == listed_inks(blob, k),
    decreases k,
{
    if k > 0 {
        lemma_listed_inks(blob, k - 1);
    }
}

/// The paints of a `brsh` table are those in its records, wherever these lie.
pub proof fn law_brushes_lie_where_listed(blob: Seq<u8>)
    requires
        blob.len() >= 12 + 4 * be32(blob, 4),
        blob.len() >= 8,
    ensures
        table_brushes(blob) == listed_inks(blob, be32(blob, 4)),
{
    lemma_listed_inks(blob, be32(blob, 4));
}

/// A `cglf` table for `n` glyphs: its version and number of glyphs are right, it has one record of
/// eight bytes at least and no part of one, and each glyph has a group that has a record or is the
/// one after the last.
pub open spec fn is_glyph_table(blob: Seq<u8>, n: int) -> bool {
    &&& n > 0
    &&& blob.len() >= 74 + 2 * n
    &&& be32(blob, 0) == 0x1_0000
    &&& be32(blob, 4) == n
    &&& (blob.len() - 66 - 2 * n) % 8 == 0
    &&& forall|gid: int|
        0 <= gid < n ==> 66 + 2 * n + 8 * #[trigger] be16(blob, 16 + 2 * gid) <= blob.len()
}

/// Only zeros stand in the eight bytes at `at`.
pub open spec fn is_zero(blob: Seq<u8>, at: int) -> bool {
    be32(blob, at) == 0 && be32(blob, at + 4) == 0
}

/// The paint that a `cglf` table gives a glyph. Its record has two numbers, at 2 and at 6, and the
/// greater one tells the paint in its high byte. The group after the last has none, nor has a group
/// with only zeros.
pub open spec fn group_paint(blob: Seq<u8>, n: int, gid: int) -> Option<int> {
    let at = 66 + 2 * n + 8 * be16(blob, 16 + 2 * gid);
    let (a, b) = (be16(blob, at + 2), be16(blob, at + 6));
    if at >= blob.len() || is_zero(blob, at) {
        None
    } else if a > b {
        Some(a / 0x100)
    } else {
        Some(b / 0x100)
    }
}

proof fn lemma_group_paint(blob: Seq<u8>, n: int, gid: int)
    requires
        is_glyph_table(blob, n),
        0 <= gid < n,
    ensures
        group_brush(blob, n, group(blob, gid)) == match group_paint(blob, n, gid) {
            Some(p) => Some(p as u8),
            None => None,
        },
        group_paint(blob, n, gid) matches Some(p) ==> 0 <= p < 0x100,
{
    let g = be16(blob, 16 + 2 * gid);
    let at = 66 + 2 * n + 8 * g;
    assert(66 + 2 * n + 8 * g <= blob.len());
    if at < blob.len() {
        assert(is_zero(blob, at) == crate::color::blank(blob, at)) by {
            if is_zero(blob, at) {
                assert(blob[at] == 0 && blob[at + 1] == 0 && blob[at + 2] == 0 && blob[at + 3] == 0);
                assert(blob[at + 4] == 0 && blob[at + 5] == 0 && blob[at + 6] == 0 && blob[at + 7]
                    == 0);
            }
        }
    }
}

/// A `cglf` table gives each glyph the paint of its group, if some glyph has one.
pub proof fn law_glyphs_have_the_paints_of_groups(blob: Seq<u8>, n: int, gid: int)
    requires
        is_glyph_table(blob, n),
        0 <= gid < n,
        group_paint(blob, n, gid) is Some || table_glyph_brushes(blob, n) is Some,
    ensures
        ({
            let bs = table_glyph_brushes(blob, n);
            &&& bs is Some
            &&& bs->0.len() == n
            &&& (bs->0)[gid] == match group_paint(blob, n, gid) {
                Some(p) => Some(p as u8),
                None => None,
            }
        }),
{
    lemma_group_paint(blob, n, gid);
    let bs = glyph_brushes(blob, n);
    assert(bs[gid] == group_brush(blob, n, group(blob, gid)));
    assert forall|g: int| 0 <= g < n implies #[trigger] group(blob, g)
        <= crate::color::group_count(blob, n) by {
        assert(66 + 2 * n + 8 * be16(blob, 16 + 2 * g) <= blob.len());
    }
    if group_paint(blob, n, gid) is Some {
        assert(any_brush(bs));
    }
}

/// A `cglf` table that has not the right form, or that gives no glyph a paint, chooses nothing.
pub proof fn law_other_glyph_tables_choose_nothing(blob: Seq<u8>, n: int)
    requires
        n >= 0,
        !is_glyph_table(blob, n) || forall|gid: int|
            0 <= gid < n ==> #[trigger] group_paint(blob, n, gid) is None,
    ensures
        table_glyph_brushes(blob, n) is None,
{
    if !is_glyph_table(blob, n) {
        if table_glyph_brushes(blob, n) is Some {
            assert forall|gid: int| 0 <= gid < n implies 66 + 2 * n + 8 * #[trigger] be16(
                blob,
                16 + 2 * gid,
            ) <= blob.len() by {
                assert(group(blob, gid) <= crate::color::group_count(blob, n));
            }
        }
    } else {
        let bs = glyph_brushes(blob, n);
        assert forall|gid: int| 0 <= gid < bs.len() implies (#[trigger] bs[gid]) is None by {
            assert(group_paint(blob, n, gid) is None);
            lemma_group_paint(blob, n, gid);
        }
    }
}

/// A paint can be seen if one of its colours has a high byte that is not zero.
pub proof fn law_visible_paints(c: u32, ss: Seq<(u16, u32)>)
    ensures
        visible(Ink::Solid(c)) <==> c >= 0x100_0000,
        visible(Ink::Linear(ss)) <==> exists|j: int|
            0 <= j < ss.len() && (#[trigger] ss[j]).1 >= 0x100_0000,
{
    let solid = colors_of(Ink::Solid(c));
    assert(solid[0] == c);
    let cs = colors_of(Ink::Linear(ss));
    assert(cs.len() == ss.len());
    assert forall|j: int| 0 <= j < ss.len() implies #[trigger] cs[j] == ss[j].1 by {}
    if exists|j: int| 0 <= j < ss.len() && (#[trigger] ss[j]).1 >= 0x100_0000 {
        let j = choose|j: int| 0 <= j < ss.len() && (#[trigger] ss[j]).1 >= 0x100_0000;
        assert(crate::color::opacity(cs[j]) != 0);
    }
    if visible(Ink::Linear(ss)) {
        let j = choose|j: int| 0 <= j < cs.len() && crate::color::opacity(#[trigger] cs[j]) != 0;
        assert(ss[j].1 >= 0x100_0000);
    }
}

/// Numbers rise.
pub open spec fn ascends(s: Seq<int>) -> bool {
    forall|i: int, j: int| 0 <= i < j < s.len() ==> #[trigger] s[i] < #[trigger] s[j]
}

proof fn lemma_visible_inks(is: Seq<Ink>, k: int)
    requires
        0 <= k,
    ensures
        ascends(visible_inks(is, k)),
        ascends(visible_gradients(is, k)),
        forall|p: int|
            #[trigger] visible_inks(is, k).contains(p) <==> 0 <= p < k && visible(is[p]),
        forall|p: int|
            #[trigger] visible_gradients(is, k).contains(p) <==> 0 <= p < k && visible(is[p])
                && is[p] is Linear,
    decreases k,
{
    if k > 0 {
        lemma_visible_inks(is, k - 1);
        lemma_next_number(visible_inks(is, k - 1), k - 1);
        lemma_next_number(visible_gradients(is, k - 1), k - 1);
    }
}

proof fn lemma_next_number(s: Seq<int>, e: int)
    requires
        ascends(s),
        forall|p: int| #[trigger] s.contains(p) ==> p < e,
    ensures
        ascends(s.push(e)),
        forall|p: int| #[trigger] s.push(e).contains(p) <==> s.contains(p) || p == e,
{
    let t = s.push(e);
    assert forall|i: int, j: int| 0 <= i < j < t.len() implies #[trigger] t[i] < #[trigger] t[j] by {
        assert(s.contains(s[i]));
    }
    assert forall|p: int| #[trigger] t.contains(p) <==> s.contains(p) || p == e by {
        if s.contains(p) {
            let i = s.index_of(p);
            assert(t[i] == p);
        }
        if p == e {
            assert(t[s.len() as int] == p);
        }
        if t.contains(p) {
            let i = t.index_of(p);
            if i < s.len() {
                assert(s[i] == p);
            }
        }
    }
}

/// Where nothing else decides, the paints to choose from are the gradients that can be seen, in
/// their order, or all paints that can be seen where no gradient can.
pub proof fn law_pool_of_paints(is: Seq<Ink>, p: int)
    ensures
        ascends(ink_pool(is)),
        ink_pool(is).contains(p) <==> 0 <= p < is.len() && visible(is[p]) && (is[p] is Linear
            || forall|q: int|
            0 <= q < is.len() && visible(#[trigger] is[q]) ==> !(is[q] is Linear)),
{
    let n = is.len() as int;
    lemma_visible_inks(is, n);
    let gs = visible_gradients(is, n);
    if gs.len() > 0 {
        assert(gs.contains(gs[0]));
        let q = gs[0];
        assert(visible(is[q]) && is[q] is Linear);
    } else {
        assert forall|q: int| 0 <= q < is.len() && visible(#[trigger] is[q]) implies !(
        is[q] is Linear) by {
            assert(!gs.contains(q));
        }
    }
}

proof fn lemma_turn_entries(pool: Seq<int>, boxes: Seq<Bounds>, k: int, gid: u16)
    requires
        0 <= k <= 0x1_0000,
        k <= boxes.len(),
        pool.len() > 0,
    ensures
        entries_of(chosen_by_turn(pool, boxes, k), gid) == if gid < k && boxes[gid as int] is Some {
            seq![(gid, pool[gid as int % pool.len() as int])]
        } else {
            Seq::empty()
        },
    decreases k,
{
    if k > 0 {
        lemma_turn_entries(pool, boxes, k - 1, gid);
        let before = chosen_by_turn(pool, boxes, k - 1);
        if boxes[k - 1] is Some {
            let e = ((k - 1) as u16, pool[(k - 1) % (pool.len() as int)]);
            lemma_entries_pushed(before, e, gid);
            assert(Seq::<(u16, int)>::empty().push(e) =~= seq![e]);
        }
    }
}

proof fn lemma_map_entries(
    is: Seq<Ink>,
    map: Seq<Option<u8>>,
    boxes: Seq<Bounds>,
    k: int,
    gid: u16,
)
    requires
        0 <= k <= 0x1_0000,
        k <= boxes.len(),
        k <= map.len(),
    ensures
        entries_of(chosen_by_map(is, map, boxes, k), gid) == if gid < k && is_mapped(
            is,
            map,
            boxes,
            gid as int,
        ) {
            seq![(gid, map[gid as int]->0 as int)]
        } else {
            Seq::empty()
        },
    decreases k,
{
    if k > 0 {
        lemma_map_entries(is, map, boxes, k - 1, gid);
        let before = chosen_by_map(is, map, boxes, k - 1);
        if is_mapped(is, map, boxes, k - 1) {
            let e = ((k - 1) as u16, map[k - 1]->0 as int);
            lemma_entries_pushed(before, e, gid);
            assert(Seq::<(u16, int)>::empty().push(e) =~= seq![e]);
        }
    }
}

/// Without a map, each glyph that has points gets a paint of the pool, by its number in turn.
pub proof fn law_glyphs_take_turns(
    is: Seq<Ink>,
    boxes: Seq<Bounds>,
    n: int,
    forced: Seq<u16>,
    gid: u16,
)
    requires
        ink_pool(is).len() > 0,
        gid < n,
        n <= boxes.len(),
        n <= 0x1_0000,
        boxes[gid as int] is Some,
    ensures
        entries_of(color_choice(is, None, boxes, n, forced), gid) == seq![
            (gid, ink_pool(is)[gid as int % ink_pool(is).len() as int]),
        ],
{
    lemma_turn_entries(ink_pool(is), boxes, n, gid);
    let first = first_choice(is, None, boxes, n);
    lemma_entries_chosen(first, gid);
    law_forcing_only_adds(is, None, boxes, n, forced, gid);
}

/// With a map, a glyph that has points gets the paint that the map gives it, if that exists and can
/// be seen. Another gets one only if it is to have colour in any case: the first that can be seen.
pub proof fn law_glyphs_follow_the_map(
    is: Seq<Ink>,
    map: Seq<Option<u8>>,
    boxes: Seq<Bounds>,
    n: int,
    forced: Seq<u16>,
    gid: u16,
)
    requires
        gid < n,
        n <= boxes.len(),
        n <= map.len(),
        n <= 0x1_0000,
        boxes[gid as int] is Some,
    ensures
        entries_of(color_choice(is, Some(map), boxes, n, forced), gid) == match map[gid as int] {
            Some(b) if b < is.len() && visible(is[b as int]) => seq![(gid, b as int)],
            _ => if forced.contains(gid) {
                seq![(gid, visible_inks(is, is.len() as int)[0])]
            } else {
                Seq::empty()
            },
        },
{
    lemma_map_entries(is, map, boxes, n, gid);
    let first = first_choice(is, Some(map), boxes, n);
    lemma_entries_chosen(first, gid);
    law_forcing_only_adds(is, Some(map), boxes, n, forced, gid);
}

/// One more glyph without a map: it is chosen if it has points, under the low 16 bits of its
/// number, with the paint whose turn it is.
pub proof fn law_next_glyph_takes_its_turn(pool: Seq<int>, boxes: Seq<Bounds>, k: int)
    requires
        0 <= k < boxes.len(),
        pool.len() > 0,
    ensures
        ({
            let (before, all) = (
                chosen_by_turn(pool, boxes, k),
                chosen_by_turn(pool, boxes, k + 1),
            );
            &&& boxes[k] is None ==> all == before
            &&& boxes[k] is Some ==> all.len() == before.len() + 1 && all.drop_last() == before
                && (all.last().0 - k) % 0x1_0000 == 0 && all.last().1 == pool[k
                % pool.len() as int]
        }),
{
    if boxes[k] is Some {
        assert(chosen_by_turn(pool, boxes, k + 1).drop_last() =~= chosen_by_turn(pool, boxes, k));
        assert((k % 0x1_0000 - k) % 0x1_0000 == 0);
    }
}

/// One more glyph with a map: it is chosen if it has points and the map gives it a paint that
/// exists and can be seen, under the low 16 bits of its number, with that paint.
pub proof fn law_next_glyph_follows_the_map(
    is: Seq<Ink>,
    map: Seq<Option<u8>>,
    boxes: Seq<Bounds>,
    k: int,
)
    requires
        0 <= k < boxes.len(),
        k < map.len(),
    ensures
        ({
            let (before, all) = (
                chosen_by_map(is, map, boxes, k),
                chosen_by_map(is, map, boxes, k + 1),
            );
            let painted = boxes[k] is Some && map[k] is Some && map[k]->0 < is.len() && visible(
                is[map[k]->0 as int],
            );
            &&& !painted ==> all == before
            &&& painted ==> all.len() == before.len() + 1 && all.drop_last() == before && (
            all.last().0 - k) % 0x1_0000 == 0 && all.last().1 == map[k]->0
        }),
{
    if is_mapped(is, map, boxes, k) {
        assert(chosen_by_map(is, map, boxes, k + 1).drop_last() =~= chosen_by_map(
            is,
            map,
            boxes,
            k,
        ));
        assert((k % 0x1_0000 - k) % 0x1_0000 == 0);
    }
}

proof fn lemma_first_place(pal: Seq<u32>, i: int, k: int)
    requires
        0 <= k <= i < pal.len(),
        forall|j: int| 0 <= j < i ==> #[trigger] pal[j] != pal[i],
    ensures
        crate::color::place(pal, pal[i], k) == i,
    decreases i - k,
{
    if k < i {
        assert(pal[k] != pal[i]);
        lemma_first_place(pal, i, k + 1);
    }
}

/// A colour is told by the low 16 bits of its first place in the palette.
pub proof fn law_colors_are_told_by_their_places(pal: Seq<u32>, i: int)
    requires
        0 <= i < pal.len(),
        forall|j: int| 0 <= j < i ==> #[trigger] pal[j] != pal[i],
    ensures
        0 <= color_index(pal, pal[i]) < 0x1_0000,
        (color_index(pal, pal[i]) - i) % 0x1_0000 == 0,
{
    lemma_first_place(pal, i, 0);
    assert((i % 0x1_0000 - i) % 0x1_0000 == 0);
}

/// The first paint that can be seen has no other before it.
pub proof fn law_first_visible_paint(is: Seq<Ink>, p: int)
    requires
        0 <= p < is.len(),
        visible(is[p]),
    ensures
        ({
            let vs = visible_inks(is, is.len() as int);
            vs.len() > 0 && 0 <= vs[0] <= p && visible(is[vs[0]])
        }),
{
    let n = is.len() as int;
    lemma_visible_inks(is, n);
    let vs = visible_inks(is, n);
    assert(vs.contains(p));
    let i = vs.index_of(p);
    assert(vs[i] == p);
    assert(vs.contains(vs[0]));
    if i > 0 {
        assert(vs[0] < vs[i]);
    }
}

/// There are colour tables if and only if some glyph gets colour from paints of which one can be
/// seen.
pub proof fn law_colour_needs_paints_and_glyphs(
    is: Seq<Ink>,
    map: Option<Seq<Option<u8>>>,
    boxes: Seq<Bounds>,
    n: int,
    forced: Seq<u16>,
)
    requires
        0 <= walked(map, boxes, n) <= 0x1_0000,
    ensures
        color_tables(is, map, boxes, n, forced) is Some <==> (exists|p: int|
            0 <= p < is.len() && visible(#[trigger] is[p])) && exists|gid: u16| #[trigger]
            gets_color(is, map, boxes, n, forced, gid),
{
    reveal(color_tables);
    let vs = visible_inks(is, is.len() as int);
    lemma_visible_inks(is, is.len() as int);
    let chosen = color_choice(is, map, boxes, n, forced);
    if vs.len() > 0 {
        assert(vs.contains(vs[0]));
        assert(visible(is[vs[0]]));
        if chosen.len() > 0 {
            let gid = chosen[0].0;
            law_choice_is_right(is, map, boxes, n, forced, gid);
            assert(is_chosen(chosen, gid));
            assert(gets_color(is, map, boxes, n, forced, gid));
        } else if exists|gid: u16| #[trigger] gets_color(is, map, boxes, n, forced, gid) {
            let gid = choose|gid: u16| #[trigger] gets_color(is, map, boxes, n, forced, gid);
            law_choice_is_right(is, map, boxes, n, forced, gid);
        }
    } else if exists|p: int| 0 <= p < is.len() && visible(#[trigger] is[p]) {
        let p = choose|p: int| 0 <= p < is.len() && visible(#[trigger] is[p]);
        assert(vs.contains(p));
    }
}

/// The colour tables are those of the choice and of the colours that its paints use.
pub proof fn law_colour_tables_are_of_the_choice(
    is: Seq<Ink>,
    map: Option<Seq<Option<u8>>>,
    boxes: Seq<Bounds>,
    n: int,
    forced: Seq<u16>,
)
    requires
        color_tables(is, map, boxes, n, forced) is Some,
    ensures
        ({
            let chosen = color_choice(is, map, boxes, n, forced);
            let pal = chosen_palette(chosen, is, chosen.len() as int);
            let (colr, cpal) = color_tables(is, map, boxes, n, forced)->0;
            colr == colr_bytes(chosen, is, pal, boxes) && cpal == cpal_bytes(pal)
        }),
{
    reveal(color_tables);
}

/// The colours of the first `k` paints that are chosen, each as often as it is used.
pub open spec fn used_colors(chosen: Seq<(u16, int)>, is: Seq<Ink>, k: int) -> Seq<u32>
    decreases k,
{
    if k <= 0 {
        Seq::empty()
    } else {
        used_colors(chosen, is, k - 1) + colors_of(is[chosen[k - 1].1])
    }
}

/// Colour `i` of the palette is first used at `j`: what is used before stands before it.
pub open spec fn first_used(pal: Seq<u32>, all: Seq<u32>, i: int, j: int) -> bool {
    &&& 0 <= j < all.len()
    &&& all[j] == pal[i]
    &&& forall|h: int| 0 <= h < j ==> pal.take(i).contains(#[trigger] all[h])
}

/// Colour `i` of the palette is used, and what is used before stands before it.
pub open spec fn used_in_turn(pal: Seq<u32>, all: Seq<u32>, i: int) -> bool {
    exists|j: int| #[trigger] first_used(pal, all, i, j)
}

/// The palette has the colours that are used, each once, in the order of their first use.
pub open spec fn in_order_of_use(pal: Seq<u32>, all: Seq<u32>) -> bool {
    &&& distinct(pal)
    &&& forall|j: int| 0 <= j < all.len() ==> pal.contains(#[trigger] all[j])
    &&& forall|i: int| 0 <= i < pal.len() ==> #[trigger] used_in_turn(pal, all, i)
}

proof fn lemma_one_more_use(pal: Seq<u32>, all: Seq<u32>, c: u32)
    requires
        in_order_of_use(pal, all),
    ensures
        in_order_of_use(interned(pal, c), all.push(c)),
{
    let p = interned(pal, c);
    let t = all.push(c);
    assert forall|i: int| 0 <= i < pal.len() implies #[trigger] p[i] == pal[i] by {}
    if !pal.contains(c) {
        assert forall|i: int, j: int| 0 <= i < j < p.len() implies #[trigger] p[i]
            != #[trigger] p[j] by {
            assert(pal.contains(pal[i]));
        }
        assert(p[pal.len() as int] == c);
    }
    assert forall|j: int| 0 <= j < t.len() implies p.contains(#[trigger] t[j]) by {
        if j < all.len() {
            assert(pal.contains(all[j]));
            let i = pal.index_of(all[j]);
            assert(p[i] == all[j]);
        }
    }
    assert forall|i: int| 0 <= i < p.len() implies #[trigger] used_in_turn(p, t, i) by {
        assert(p.take(i) =~= pal.take(i));
        if i < pal.len() {
            assert(used_in_turn(pal, all, i));
            let j = choose|j: int| #[trigger] first_used(pal, all, i, j);
            assert forall|h: int| 0 <= h < j implies p.take(i).contains(#[trigger] t[h]) by {
                assert(pal.take(i).contains(all[h]));
            }
            assert(first_used(p, t, i, j));
        } else {
            assert(pal.take(i) =~= pal);
            assert forall|h: int| 0 <= h < all.len() implies p.take(i).contains(
                #[trigger] t[h],
            ) by {
                assert(pal.contains(all[h]));
            }
            assert(first_used(p, t, i, all.len() as int));
        }
    }
}

proof fn lemma_more_uses(pal: Seq<u32>, all: Seq<u32>, cs: Seq<u32>, k: int)
    requires
        in_order_of_use(pal, all),
        0 <= k <= cs.len(),
    ensures
        in_order_of_use(interned_all(pal, cs, k), all + cs.take(k)),
    decreases k,
{
    if k > 0 {
        lemma_more_uses(pal, all, cs, k - 1);
        lemma_one_more_use(interned_all(pal, cs, k - 1), all + cs.take(k - 1), cs[k - 1]);
        assert((all + cs.take(k - 1)).push(cs[k - 1]) =~= all + cs.take(k));
    } else {
        assert(all + cs.take(0) =~= all);
    }
}

/// The palette has the colours of the paints that are chosen, each once, in the order of their
/// first use.
pub proof fn law_palette_is_in_order_of_use(chosen: Seq<(u16, int)>, is: Seq<Ink>, k: int)
    requires
        0 <= k,
    ensures
        in_order_of_use(chosen_palette(chosen, is, k), used_colors(chosen, is, k)),
    decreases k,
{
    if k > 0 {
        law_palette_is_in_order_of_use(chosen, is, k - 1);
        let cs = colors_of(is[chosen[k - 1].1]);
        lemma_more_uses(
            chosen_palette(chosen, is, k - 1),
            used_colors(chosen, is, k - 1),
            cs,
            cs.len() as int,
        );
        assert(cs.take(cs.len() as int) =~= cs);
    }
}

/// A `COLR` table has version 1 and nothing of version 0. Of the fields of its head only the place
/// of its list of glyphs, right after the head, is not zero. A `CPAL` table has one palette, which
/// begins with the first colour.
pub proof fn law_heads_of_colour_tables(
    chosen: Seq<(u16, int)>,
    is: Seq<Ink>,
    pal: Seq<u32>,
    boxes: Seq<Bounds>,
    k: int,
)
    requires
        0 <= k < 34,
    ensures
        ({
            let t = colr_bytes(chosen, is, pal, boxes);
            &&& be16(t, 0) == 1
            &&& be32(t, 14) == 34
            &&& 2 <= k < 14 || 18 <= k ==> t[k] == 0
        }),
        be16(cpal_bytes(pal), 4) == 1,
        be32(cpal_bytes(pal), 8) == 14,
        be16(cpal_bytes(pal), 12) == 0,
{
    lemma_colr_header();
    let t = colr_bytes(chosen, is, pal, boxes);
    let h = colr_header();
    assert forall|i: int| 0 <= i < 34 implies #[trigger] t[i] == h[i] by {}
    reveal(colr_header);
    let n = pal.len() as int;
    let p = cpal_bytes(pal);
    let (one, at, zero) = (enc16(1), enc32(14), enc16(0));
    lemma_be16_enc16(1);
    lemma_be32_enc32(14);
    lemma_be16_enc16(0);
    lemma_be16_moved(p, 4, one, 0);
    lemma_be32_moved(p, 8, at, 0);
    lemma_be16_moved(p, 12, zero, 0);
}

/// The 24-bit big-endian number at `i`.
pub open spec fn be24(s: Seq<u8>, i: int) -> int {
    s[i] * 0x1_0000 + s[i + 1] * 0x100 + s[i + 2]
}

proof fn lemma_block(gid: u16, ink: Ink, pal: Seq<u32>, b: (i16, i16, i16, i16))
    ensures
        ({
            let t = paint_block(gid, ink, pal, b);
            &&& t[0] == 10
            &&& be24(t, 1) == 6
            &&& be16(t, 4) == gid
            &&& stands(t, 6, ink_bytes(ink, pal, b))
            &&& t.len() == 6 + ink_bytes(ink, pal, b).len()
        }),
{
    reveal(paint_block);
    reveal(enc24);
    let t = paint_block(gid, ink, pal, b);
    let body = ink_bytes(ink, pal, b);
    let e = enc24(6);
    assert(t[1] == e[0] && t[2] == e[1] && t[3] == e[2]);
    lemma_be16_enc16(gid as int);
    lemma_be16_moved(t, 4, enc16(gid as int), 0);
    assert forall|j: int| 0 <= j < body.len() implies #[trigger] body[j] == t[6 + j] by {}
}

/// A glyph filled with one colour: format 10 with the paint after six bytes and the number of the
/// glyph, and format 2 with the number of the colour, fully opaque.
pub proof fn law_solid_paint_is_written(
    gid: u16,
    c: u32,
    pal: Seq<u32>,
    b: (i16, i16, i16, i16),
)
    ensures
        ({
            let t = paint_block(gid, Ink::Solid(c), pal, b);
            &&& t.len() == 11
            &&& t[0] == 10
            &&& be24(t, 1) == 6
            &&& be16(t, 4) == gid
            &&& t[6] == 2
            &&& be16(t, 7) == color_index(pal, c)
            &&& be16(t, 9) == 0x4000
        }),
{
    let ink = Ink::Solid(c);
    lemma_block(gid, ink, pal, b);
    let t = paint_block(gid, ink, pal, b);
    let (i, one) = (enc16(color_index(pal, c)), enc16(0x4000));
    let body = ink_bytes(ink, pal, b);
    assert(body =~= seq![2u8] + (i + one));
    lemma_stands_parts(t, 6, seq![2u8], i + one);
    lemma_stands_parts(t, 7, i, one);
    assert(t[6] == 2) by {
        assert(seq![2u8][0] == t[6]);
    }
    lemma_be16_enc16(color_index(pal, c));
    lemma_be16_enc16(0x4000);
    lemma_be16_moved(t, 7, i, 0);
    lemma_be16_moved(t, 9, one, 0);
}

proof fn lemma_stop_bytes(ss: Seq<(u16, u32)>, pal: Seq<u32>, k: int, j: int)
    requires
        0 <= k,
    ensures
        stop_bytes(ss, pal, k).len() == 6 * k,
        0 <= j < k ==> {
            let t = stop_bytes(ss, pal, k);
            &&& be16(t, 6 * j) == if ss[j].0 <= 0x4000 {
                ss[j].0 as int
            } else {
                0x4000
            }
            &&& be16(t, 6 * j + 2) == color_index(pal, ss[j].1)
            &&& be16(t, 6 * j + 4) == 0x4000
        },
    decreases k,
{
    if k > 0 {
        lemma_stop_bytes(ss, pal, k - 1, j);
        let before = stop_bytes(ss, pal, k - 1);
        let at: int = if ss[k - 1].0 <= 0x4000 {
            ss[k - 1].0 as int
        } else {
            0x4000
        };
        let i = color_index(pal, ss[k - 1].1);
        let (a, b, c) = (enc16(at), enc16(i), enc16(0x4000));
        let all = before + (a + b + c);
        assert(stop_bytes(ss, pal, k) == all);
        lemma_be16_enc16(at);
        lemma_be16_enc16(i);
        lemma_be16_enc16(0x4000);
        lemma_be16_moved(all, 6 * (k - 1), a, 0);
        lemma_be16_moved(all, 6 * (k - 1) + 2, b, 0);
        lemma_be16_moved(all, 6 * (k - 1) + 4, c, 0);
        if 0 <= j < k - 1 {
            lemma_be16_moved(all, 0, before, 6 * j);
            lemma_be16_moved(all, 0, before, 6 * j + 2);
            lemma_be16_moved(all, 0, before, 6 * j + 4);
        }
    }
}

proof fn lemma_signed_numbers(s: Seq<i16>, k: int, j: int)
    requires
        0 <= k,
    ensures
        signed_numbers(s, k).len() == 2 * k,
        0 <= j < k ==> wrap16(be16(signed_numbers(s, k), 2 * j)) == s[j],
    decreases k,
{
    if k > 0 {
        lemma_signed_numbers(s, k - 1, j);
        let before = signed_numbers(s, k - 1);
        let e = enc16(s[k - 1] as int);
        let all = before + e;
        lemma_be16_enc16(s[k - 1] as int);
        lemma_be16_moved(all, 2 * (k - 1), e, 0);
        if 0 <= j < k - 1 {
            lemma_be16_moved(all, 0, before, 2 * j);
        }
    }
}

proof fn lemma_gradient_parts(
    gid: u16,
    ss: Seq<(u16, u32)>,
    pal: Seq<u32>,
    b: (i16, i16, i16, i16),
)
    ensures
        ({
            let t = paint_block(gid, Ink::Linear(ss), pal, b);
            &&& t[6] == 4
            &&& stands(t, 7, enc24(16))
            &&& stands(t, 10, signed_numbers(gradient_points(b), 6))
            &&& t[22] == 0
            &&& stands(t, 23, enc16(ss.len() as int))
            &&& stands(t, 25, stop_bytes(ss, pal, ss.len() as int))
            &&& t.len() == 25 + stop_bytes(ss, pal, ss.len() as int).len()
        }),
{
    let ink = Ink::Linear(ss);
    lemma_block(gid, ink, pal, b);
    let t = paint_block(gid, ink, pal, b);
    let pts = signed_numbers(gradient_points(b), 6);
    lemma_signed_numbers(gradient_points(b), 6, 0);
    let (o, n) = (enc24(16), enc16(ss.len() as int));
    let st = stop_bytes(ss, pal, ss.len() as int);
    let (four, zero) = (seq![4u8], seq![0u8]);
    let body = ink_bytes(ink, pal, b);
    assert(body =~= four + (o + (pts + (zero + (n + st)))));
    lemma_stands_parts(t, 6, four, o + (pts + (zero + (n + st))));
    lemma_stands_parts(t, 7, o, pts + (zero + (n + st)));
    lemma_stands_parts(t, 10, pts, zero + (n + st));
    lemma_stands_parts(t, 22, zero, n + st);
    lemma_stands_parts(t, 23, n, st);
    assert(four[0] == t[6]);
    assert(zero[0] == t[22]);
}

/// A glyph filled with a gradient: format 10 as for one colour, and format 4 with its stops after
/// sixteen bytes. They do not repeat. Each has its place, at most at the end, the number of its
/// colour, and is fully opaque.
pub proof fn law_gradient_is_written(
    gid: u16,
    ss: Seq<(u16, u32)>,
    pal: Seq<u32>,
    b: (i16, i16, i16, i16),
    j: int,
)
    requires
        ss.len() < 0x1_0000,
        0 <= j < ss.len(),
    ensures
        ({
            let t = paint_block(gid, Ink::Linear(ss), pal, b);
            let at = 6 + be24(t, 7) + 3 + 6 * j;
            &&& t.len() == 25 + 6 * ss.len()
            &&& t[0] == 10
            &&& be24(t, 1) == 6
            &&& be16(t, 4) == gid
            &&& t[6] == 4
            &&& be24(t, 7) == 16
            &&& t[22] == 0
            &&& be16(t, 23) == ss.len()
            &&& be16(t, at) <= 0x4000
            &&& be16(t, at) == ss[j].0 || ss[j].0 > 0x4000 && be16(t, at) == 0x4000
            &&& be16(t, at + 2) == color_index(pal, ss[j].1)
            &&& be16(t, at + 4) == 0x4000
        }),
{
    let t = paint_block(gid, Ink::Linear(ss), pal, b);
    lemma_block(gid, Ink::Linear(ss), pal, b);
    lemma_gradient_parts(gid, ss, pal, b);
    let n = ss.len() as int;
    let st = stop_bytes(ss, pal, n);
    lemma_stop_bytes(ss, pal, n, j);
    assert(be24(t, 7) == 16) by {
        reveal(enc24);
        let o = enc24(16);
        assert(o[0] == t[7] && o[1] == t[8] && o[2] == t[9]);
    }
    lemma_be16_enc16(n);
    lemma_be16_moved(t, 23, enc16(n), 0);
    lemma_be16_moved(t, 25, st, 6 * j);
    lemma_be16_moved(t, 25, st, 6 * j + 2);
    lemma_be16_moved(t, 25, st, 6 * j + 4);
}

/// A gradient goes from the middle of the top of a glyph to the middle of its bottom, turned by the
/// lower left corner. The middle is as far from the left as from the right, or one unit nearer to
/// the left; it is found in 16 bits.
pub proof fn law_gradient_goes_down(
    gid: u16,
    ss: Seq<(u16, u32)>,
    pal: Seq<u32>,
    b: (i16, i16, i16, i16),
)
    ensures
        ({
            let t = paint_block(gid, Ink::Linear(ss), pal, b);
            let x = wrap16(be16(t, 10)) as int;
            &&& wrap16(be16(t, 14)) == x
            &&& wrap16(be16(t, 12)) == b.3
            &&& wrap16(be16(t, 16)) == b.1
            &&& wrap16(be16(t, 18)) == b.0
            &&& wrap16(be16(t, 20)) == b.1
            &&& 0 <= b.2 - b.0 <= 0x7FFF ==> 0 <= (b.2 - x) - (x - b.0) <= 1
            &&& -0x8000 <= b.2 - b.0 < 0 ==> -1 <= (b.2 - x) - (x - b.0) <= 0
            &&& b.2 - b.0 > 0x7FFF ==> {
                let y = b.0 - (0x1_0000 - (b.2 - b.0)) / 2;
                x == y || x == y + 0x1_0000
            }
        }),
{
    let t = paint_block(gid, Ink::Linear(ss), pal, b);
    let ps = gradient_points(b);
    lemma_gradient_parts(gid, ss, pal, b);
    lemma_middle(b);
    lemma_gradient_point(t, ps, 0);
    lemma_gradient_point(t, ps, 1);
    lemma_gradient_point(t, ps, 2);
    lemma_gradient_point(t, ps, 3);
    lemma_gradient_point(t, ps, 4);
    lemma_gradient_point(t, ps, 5);
}

/// A gradient over a glyph without points lies at the origin, any other within the bounds of its
/// glyph.
pub proof fn law_gradients_lie_within_bounds(boxes: Seq<Bounds>, gid: u16)
    ensures
        boxes[gid as int] is None ==> box_of(boxes, gid) == (0i16, 0i16, 0i16, 0i16),
        boxes[gid as int] matches Some(b) ==> box_of(boxes, gid) == b,
{
}

proof fn lemma_middle(b: (i16, i16, i16, i16))
    ensures
        ({
            let x = wrap16(b.0 + half(wrap16(b.2 - b.0))) as int;
            &&& 0 <= b.2 - b.0 <= 0x7FFF ==> 0 <= (b.2 - x) - (x - b.0) <= 1
            &&& -0x8000 <= b.2 - b.0 < 0 ==> -1 <= (b.2 - x) - (x - b.0) <= 0
            &&& b.2 - b.0 > 0x7FFF ==> {
                let y = b.0 - (0x1_0000 - (b.2 - b.0)) / 2;
                x == y || x == y + 0x1_0000
            }
        }),
{
}

proof fn lemma_gradient_point(t: Seq<u8>, ps: Seq<i16>, j: int)
    requires
        0 <= j < 6,
        stands(t, 10, signed_numbers(ps, 6)),
    ensures
        wrap16(be16(t, 10 + 2 * j)) == ps[j],
{
    lemma_signed_numbers(ps, 6, j);
    lemma_be16_moved(t, 10, signed_numbers(ps, 6), 2 * j);
}

} // verus!
