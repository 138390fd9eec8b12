//! A rebuilt `cmap` table as a reader of the standard sees it.

use vstd::prelude::*;
use crate::bytes::{
    be16, be32, enc16, enc32, lemma_be16_enc16, lemma_be16_moved, lemma_be32_enc32,
    lemma_be32_moved, lemma_numbers16, numbers16, padded, wrap16, zeros,
};
use crate::cmap::{
    cmap_bytes, coding_count, coding_data, coding_entries, coding_layout, coding_start,
    distinct_subtables, find4, find_from, find_in, first_like, format4, format4_head, glyph4,
    glyph_or_missing, glyphs_start, is_format4, lemma_mapped_range, lookup, mapped, mapping,
    readable4, readable_cmap, readable_coding, rebuilt4, rebuilt_cmap, rebuilt_codings, run_deltas,
    run_ends, run_starts, runs, seg_base, seg_count, seg_delta, seg_end, seg_glyph, seg_layout,
    seg_range, seg_start, seg_x2, strays, sub_len, subtable_place, terminated_runs, terminators,
    well_terminated, Coding, Lookup, Run,
};

verus! {

broadcast use crate::bytes::group_encoded_lengths;

/// Segments rise and do not overlap.
pub open spec fn disjoint(rs: Seq<Run>) -> bool {
    &&& forall|i: int| 0 <= i < rs.len() ==> (#[trigger] rs[i]).start <= rs[i].end
    &&& forall|i: int, j: int|
        0 <= i < j < rs.len() ==> (#[trigger] rs[i]).end < (#[trigger] rs[j]).start
}

/// A segment holds a character.
pub open spec fn run_holds(r: Run, c: int) -> bool {
    r.start <= c <= r.end
}

/// The glyph that a segment gives a character.
pub open spec fn run_glyph(r: Run, c: int) -> int {
    (c + r.delta) % 0x1_0000
}

/// The segments of the characters below `c` are disjoint, give them their glyphs, and hold no
/// others.
proof fn lemma_runs(m: Seq<u16>, c: int)
    requires
        0 <= c <= 0xFFFF,
        m.len() == 0x1_0000,
    ensures
        disjoint(runs(m, c)),
        runs(m, c).len() <= c,
        forall|i: int| 0 <= i < runs(m, c).len() ==> (#[trigger] runs(m, c)[i]).end < c,
        forall|i: int, x: int|
            0 <= i < runs(m, c).len() && #[trigger] run_holds(runs(m, c)[i], x) ==> m[x] != 0
                && run_glyph(runs(m, c)[i], x) == m[x],
        forall|x: int|
            0 <= x < c && #[trigger] m[x] != 0 ==> exists|i: int|
                0 <= i < runs(m, c).len() && #[trigger] run_holds(runs(m, c)[i], x),
    decreases c,
{
    if c > 0 {
        let x = c - 1;
        lemma_runs(m, x);
        let before = runs(m, x);
        let now = runs(m, c);
        let k = before.len() as int;
        if m[x] == 0 {
            assert(now == before);
            assert forall|y: int| 0 <= y < c && #[trigger] m[y] != 0 implies exists|i: int|
                0 <= i < now.len() && #[trigger] run_holds(now[i], y) by {
                assert(y < x);
                let i = choose|i: int|
                    0 <= i < before.len() && #[trigger] run_holds(before[i], y);
                assert(run_holds(now[i], y));
            }
        } else if k > 0 && before.last().end == x - 1 && m[x - 1] + 1 == m[x] {
            let last = before.last();
            assert(now == before.update(k - 1, Run { end: x as u16, ..last }));
            assert(run_holds(before[k - 1], x - 1));
            assert(run_glyph(last, x - 1) == m[x - 1]);
            assert(run_glyph(now[k - 1], x) == m[x]);
            assert forall|i: int, y: int|
                0 <= i < now.len() && #[trigger] run_holds(now[i], y) implies m[y] != 0
                && run_glyph(now[i], y) == m[y] by {
                if i < k - 1 || y < x {
                    assert(run_holds(before[i], y));
                }
            }
            assert forall|y: int| 0 <= y < c && #[trigger] m[y] != 0 implies exists|i: int|
                0 <= i < now.len() && #[trigger] run_holds(now[i], y) by {
                if y < x {
                    let i = choose|i: int|
                        0 <= i < before.len() && #[trigger] run_holds(before[i], y);
                    assert(run_holds(now[i], y));
                } else {
                    assert(run_holds(now[k - 1], y));
                }
            }
            assert forall|i: int, j: int| 0 <= i < j < now.len() implies (#[trigger] now[i]).end < (
            #[trigger] now[j]).start by {
                assert(before[i].end < before[j].start);
            }
        } else {
            let r = Run { start: x as u16, end: x as u16, delta: wrap16(m[x] - x) };
            assert(now == before.push(r));
            assert(run_glyph(r, x) == m[x]);
            assert forall|i: int, y: int|
                0 <= i < now.len() && #[trigger] run_holds(now[i], y) implies m[y] != 0
                && run_glyph(now[i], y) == m[y] by {
                if i < k {
                    assert(run_holds(before[i], y));
                }
            }
            assert forall|y: int| 0 <= y < c && #[trigger] m[y] != 0 implies exists|i: int|
                0 <= i < now.len() && #[trigger] run_holds(now[i], y) by {
                if y < x {
                    let i = choose|i: int|
                        0 <= i < before.len() && #[trigger] run_holds(before[i], y);
                    assert(run_holds(now[i], y));
                } else {
                    assert(run_holds(now[k], y));
                }
            }
        }
    }
}

/// The length of a rebuilt subtable.
pub proof fn lemma_format4_len(rs: Seq<Run>)
    ensures
        format4(rs).len() == 16 + 8 * rs.len(),
{
    reveal(format4);
    let n = rs.len() as int;
    lemma_numbers16(run_ends(rs), n);
    lemma_numbers16(run_starts(rs), n);
    lemma_numbers16(run_deltas(rs), n);
}

/// The fields of a rebuilt subtable can be read back.
pub proof fn lemma_format4(rs: Seq<Run>)
    requires
        0 < rs.len() < 0x8000,
    ensures
        ({
            let n = rs.len() as int;
            let f = format4(rs);
            &&& f.len() == 16 + 8 * n
            &&& be16(f, 0) == 4
            &&& sub_len(f) == (16 + 8 * n) % 0x1_0000
            &&& seg_x2(f) == 2 * n
            &&& seg_count(f) == n
        }),
{
    reveal(format4);
    let n = rs.len() as int;
    let f = format4(rs);
    let h = format4_head(n);
    let es = numbers16(run_ends(rs), n);
    let ss = numbers16(run_starts(rs), n);
    let ds = numbers16(run_deltas(rs), n);
    lemma_numbers16(run_ends(rs), n);
    lemma_numbers16(run_starts(rs), n);
    lemma_numbers16(run_deltas(rs), n);
    assert(h.len() == 14);
    assert forall|i: int| 0 <= i < 14 implies #[trigger] f[i] == h[i] by {}
    let (a, b, c, d) = (enc16(4), enc16(16 + 8 * n), enc16(0), enc16(2 * n));
    lemma_be16_enc16(4);
    lemma_be16_enc16(16 + 8 * n);
    lemma_be16_enc16(2 * n);
    assert(h[0] == a[0] && h[1] == a[1]);
    assert(h[2] == b[0] && h[3] == b[1]);
    assert(h[6] == d[0] && h[7] == d[1]);
}

/// The segments of a rebuilt subtable can be read back.
proof fn lemma_segment(rs: Seq<Run>, i: int)
    requires
        0 < rs.len() < 0x8000,
        0 <= i < rs.len(),
    ensures
        ({
            let f = format4(rs);
            &&& seg_end(f, i) == rs[i].end
            &&& seg_start(f, i) == rs[i].start
            &&& seg_delta(f, i) == rs[i].delta as int % 0x1_0000
            &&& seg_range(f, i) == 0
        }),
{
    reveal(format4);
    let n = rs.len() as int;
    let f = format4(rs);
    let h = format4_head(n);
    let es = numbers16(run_ends(rs), n);
    let ss = numbers16(run_starts(rs), n);
    let ds = numbers16(run_deltas(rs), n);
    let zs = zeros((2 * n) as nat);
    lemma_format4(rs);
    lemma_numbers16(run_ends(rs), n);
    lemma_numbers16(run_starts(rs), n);
    lemma_numbers16(run_deltas(rs), n);
    assert(h.len() == 14);
    assert(f == h + es + enc16(0) + ss + ds + zs);
    assert(f[14 + 2 * i] == es[2 * i] && f[14 + 2 * i + 1] == es[2 * i + 1]);
    assert(be16(es, 2 * i) == run_ends(rs)[i] % 0x1_0000);
    let p = 16 + 2 * n;
    assert(f[p + 2 * i] == ss[2 * i] && f[p + 2 * i + 1] == ss[2 * i + 1]);
    assert(be16(ss, 2 * i) == run_starts(rs)[i] % 0x1_0000);
    let q = 16 + 4 * n;
    assert(f[q + 2 * i] == ds[2 * i] && f[q + 2 * i + 1] == ds[2 * i + 1]);
    assert(be16(ds, 2 * i) == run_deltas(rs)[i] % 0x1_0000);
    let r = 16 + 6 * n;
    assert(f[r + 2 * i] == zs[2 * i] && f[r + 2 * i + 1] == zs[2 * i + 1]);
}

/// The segments of a mapping and the one that ends the table are disjoint.
pub proof fn lemma_terminated(m: Seq<u16>)
    requires
        m.len() == 0x1_0000,
    ensures
        disjoint(terminated_runs(m)),
        terminated_runs(m).len() > 0,
{
    lemma_runs(m, 0xFFFF);
    let rs = runs(m, 0xFFFF);
    let all = terminated_runs(m);
    assert forall|i: int, j: int| 0 <= i < j < all.len() implies (#[trigger] all[i]).end < (
    #[trigger] all[j]).start by {
        if j < rs.len() {
            assert(rs[i].end < rs[j].start);
        } else {
            assert(rs[i].end < 0xFFFF);
        }
    }
}

proof fn lemma_add_mod(c: int, d: int)
    ensures
        (c + d % 0x1_0000) % 0x1_0000 == (c + d) % 0x1_0000,
{
}

/// What a segment of a rebuilt subtable gives a character.
proof fn lemma_glyph4(rs: Seq<Run>, c: int, j: int)
    requires
        0 < rs.len() < 0x8000,
        0 <= j < rs.len(),
    ensures
        glyph4(format4(rs), c, j) == glyph_or_missing(run_glyph(rs[j], c)),
{
    let f = format4(rs);
    lemma_format4(rs);
    lemma_segment(rs, j);
    lemma_add_mod(c, rs[j].delta as int);
}

/// The search from segment `s` on finds the segment that holds the character.
proof fn lemma_find4(rs: Seq<Run>, c: int, s: int, j: int)
    requires
        0 < rs.len() < 0x8000,
        disjoint(rs),
        0 <= s <= j < rs.len(),
        run_holds(rs[j], c),
    ensures
        find4(format4(rs), c, s) == Some(glyph_or_missing(run_glyph(rs[j], c))),
    decreases j - s,
{
    lemma_format4(rs);
    lemma_segment(rs, s);
    if s < j {
        assert(rs[s].end < rs[j].start);
        lemma_find4(rs, c, s + 1, j);
    } else {
        lemma_glyph4(rs, c, j);
    }
}

/// The search from segment `s` on finds nothing where no segment holds the character.
proof fn lemma_find4_none(rs: Seq<Run>, c: int, s: int)
    requires
        0 < rs.len() < 0x8000,
        0 <= s <= rs.len(),
        forall|i: int| 0 <= i < rs.len() ==> !run_holds(#[trigger] rs[i], c),
    ensures
        find4(format4(rs), c, s) is None,
    decreases rs.len() - s,
{
    lemma_format4(rs);
    if s < rs.len() {
        lemma_segment(rs, s);
        assert(!run_holds(rs[s], c));
        lemma_find4_none(rs, c, s + 1);
    }
}

/// A reader of a subtable that was written from a mapping finds the glyph of each character that
/// has one, finds nothing for the others, and finds that 0xFFFF is no character.
pub proof fn law_mapping_is_read_back(m: Seq<u16>, c: int)
    requires
        m.len() == 0x1_0000,
        terminated_runs(m).len() < 0x8000,
        0 <= c <= 0xFFFF,
    ensures
        find_in(format4(terminated_runs(m)), c) == if c == 0xFFFF {
            Some(Lookup::Missing)
        } else if m[c] != 0 {
            Some(Lookup::Glyph(m[c]))
        } else {
            None
        },
{
    reveal(find_in);
    let rs = runs(m, 0xFFFF);
    let all = terminated_runs(m);
    let k = rs.len() as int;
    lemma_runs(m, 0xFFFF);
    lemma_terminated(m);
    lemma_format4(all);
    if c == 0xFFFF {
        lemma_find4(all, c, 0, k);
    } else if m[c] != 0 {
        let i = choose|i: int| 0 <= i < rs.len() && #[trigger] run_holds(rs[i], c);
        assert(all[i] == rs[i]);
        lemma_find4(all, c, 0, i);
    } else {
        assert forall|i: int| 0 <= i < all.len() implies !run_holds(#[trigger] all[i], c) by {
            if i < k && run_holds(rs[i], c) {
                assert(m[c] != 0);
            }
        }
        lemma_find4_none(all, c, 0);
    }
}

proof fn lemma_terminators(rs: Seq<Run>, k: int)
    requires
        0 < rs.len() < 0x8000,
        disjoint(rs),
        rs.last().end == 0xFFFF,
        0 <= k <= rs.len(),
    ensures
        terminators(format4(rs), k) == if k == rs.len() {
            1int
        } else {
            0
        },
    decreases k,
{
    if k > 0 {
        lemma_terminators(rs, k - 1);
        lemma_segment(rs, k - 1);
        if k < rs.len() {
            assert(rs[k - 1].end < rs[rs.len() - 1].start);
        }
    }
}

/// A rebuilt format 4 subtable has exactly one terminator, at its end.
pub proof fn law_rebuilt_is_well_terminated(sub: Seq<u8>)
    requires
        seg_layout(sub),
        terminated_runs(mapping(sub, seg_count(sub))).len() < 0x8000,
    ensures
        well_terminated(rebuilt4(sub)),
{
    if !well_terminated(sub) {
        let m = mapping(sub, seg_count(sub));
        let rs = terminated_runs(m);
        lemma_terminated(m);
        lemma_format4(rs);
        lemma_terminators(rs, rs.len() as int);
        lemma_segment(rs, rs.len() - 1);
    }
}

/// A format 4 subtable that has been rebuilt stays as it is when it is rebuilt again.
pub proof fn law_rebuilding_is_idempotent(sub: Seq<u8>)
    requires
        seg_layout(sub),
        terminated_runs(mapping(sub, seg_count(sub))).len() < 0x8000,
    ensures
        rebuilt4(rebuilt4(sub)) == rebuilt4(sub),
{
    law_rebuilt_is_well_terminated(sub);
}

/// A character to which no segment gives a glyph has none.
pub proof fn lemma_mapped_before(sub: Seq<u8>, c: int, k: int)
    requires
        0 <= k,
        forall|i: int| 0 <= i < k ==> #[trigger] seg_glyph(sub, i, c) == 0,
    ensures
        mapped(sub, c, k) == 0,
    decreases k,
{
    if k > 0 {
        lemma_mapped_before(sub, c, k - 1);
        assert(seg_glyph(sub, k - 1, c) == 0);
    }
}

/// The first segment that gives a character a glyph counts.
pub proof fn lemma_mapped_first(sub: Seq<u8>, c: int, s: int, k: int)
    requires
        0 <= s < k,
        forall|i: int| 0 <= i < s ==> #[trigger] seg_glyph(sub, i, c) == 0,
        seg_glyph(sub, s, c) != 0,
    ensures
        mapped(sub, c, k) == seg_glyph(sub, s, c),
    decreases k,
{
    if s == k - 1 {
        lemma_mapped_before(sub, c, k - 1);
    } else {
        lemma_mapped_first(sub, c, s, k - 1);
    }
}

/// Segment `s` is the first that holds a character.
pub open spec fn first_holds(sub: Seq<u8>, c: int, s: int) -> bool {
    &&& 0 <= s < seg_count(sub)
    &&& seg_start(sub, s) <= c <= seg_end(sub, s)
    &&& forall|i: int|
        0 <= i < s ==> !(#[trigger] seg_start(sub, i) <= c <= #[trigger] seg_end(sub, i))
}

proof fn lemma_find_first(sub: Seq<u8>, c: int, s: int, i: int)
    requires
        seg_layout(sub),
        first_holds(sub, c, s),
        0 <= i <= s,
    ensures
        find4(sub, c, i) == Some(glyph4(sub, c, s)),
    decreases s - i,
{
    if i < s {
        assert(!(seg_start(sub, i) <= c <= seg_end(sub, i)));
        lemma_find_first(sub, c, s, i + 1);
    }
}

/// Rebuilding keeps the glyph of a character: where the first segment that holds it gives it a
/// glyph, by adding a number or from the list of glyphs but not by both, a reader finds the same
/// glyph before and after.
pub proof fn law_rebuilding_keeps_glyphs(sub: Seq<u8>, c: int, s: int)
    requires
        seg_layout(sub),
        be16(sub, 0) == 4,
        terminated_runs(mapping(sub, seg_count(sub))).len() < 0x8000,
        0 <= c < 0xFFFF,
        first_holds(sub, c, s),
        glyph4(sub, c, s) is Glyph,
        seg_range(sub, s) == 0 || seg_delta(sub, s) == 0 && seg_base(sub, s) >= glyphs_start(sub)
            && seg_base(sub, s) + 2 * (c - seg_start(sub, s)) + 2 <= sub_len(sub),
    ensures
        find_in(sub, c) == Some(glyph4(sub, c, s)),
        find_in(rebuilt4(sub), c) == find_in(sub, c),
{
    lemma_find_first(sub, c, s, 0);
    assert(find_in(sub, c) == find4(sub, c, 0)) by {
        reveal(find_in);
    }
    if !well_terminated(sub) {
        let n = seg_count(sub);
        let g = seg_glyph(sub, s, c);
        lemma_glyph4_agrees(sub, c, s);
        assert forall|i: int| 0 <= i < s implies #[trigger] seg_glyph(sub, i, c) == 0 by {
            assert(!(seg_start(sub, i) <= c <= seg_end(sub, i)));
        }
        lemma_mapped_first(sub, c, s, n);
        assert(mapping(sub, n)[c] == g);
        law_mapping_is_read_back(mapping(sub, n), c);
    }
}

/// A reader of a segment and the mapping agree on a character.
proof fn lemma_glyph4_agrees(sub: Seq<u8>, c: int, s: int)
    requires
        seg_layout(sub),
        0 <= c < 0xFFFF,
        first_holds(sub, c, s),
        glyph4(sub, c, s) is Glyph,
        seg_range(sub, s) == 0 || seg_delta(sub, s) == 0 && seg_base(sub, s) >= glyphs_start(sub)
            && seg_base(sub, s) + 2 * (c - seg_start(sub, s)) + 2 <= sub_len(sub),
    ensures
        glyph4(sub, c, s) == Lookup::Glyph(seg_glyph(sub, s, c) as u16),
        0 < seg_glyph(sub, s, c) < 0x1_0000,
{
}

/// The subtables and entries of a written `cmap` table fit the format.
pub open spec fn fits(cs: Seq<Coding<Seq<u8>>>) -> bool {
    cs.len() < 0x1_0000 && 4 + 8 * cs.len() + distinct_subtables(cs, cs.len() as int).len()
        < 0x1_0000_0000
}

/// The first encoding with the same subtable.
pub proof fn lemma_first_like(cs: Seq<Coding<Seq<u8>>>, i: int, j: int)
    requires
        0 <= j <= i,
    ensures
        j <= first_like(cs, i, j) <= i,
        cs[first_like(cs, i, j)].data == cs[i].data,
        forall|k: int| j <= k < first_like(cs, i, j) ==> (#[trigger] cs[k]).data != cs[i].data,
    decreases i - j,
{
    if j < i && cs[j].data != cs[i].data {
        lemma_first_like(cs, i, j + 1);
    }
}

/// The first of equal subtables is the first of itself.
proof fn lemma_first_of_first(cs: Seq<Coding<Seq<u8>>>, i: int)
    requires
        0 <= i,
    ensures
        first_like(cs, first_like(cs, i, 0), 0) == first_like(cs, i, 0),
{
    lemma_first_like(cs, i, 0);
    let k = first_like(cs, i, 0);
    lemma_first_like(cs, k, 0);
    let q = first_like(cs, k, 0);
    if q < k {
        assert(cs[q].data != cs[i].data);
    }
}

proof fn lemma_subtables(cs: Seq<Coding<Seq<u8>>>, i: int, n: int)
    requires
        0 <= i < n,
        first_like(cs, i, 0) == i,
    ensures
        distinct_subtables(cs, i).len() + padded(cs[i].data).len() <= distinct_subtables(
            cs,
            n,
        ).len(),
        forall|j: int|
            0 <= j < padded(cs[i].data).len() ==> distinct_subtables(cs, n)[distinct_subtables(
                cs,
                i,
            ).len() + j] == #[trigger] padded(cs[i].data)[j],
    decreases n,
{
    if i < n - 1 {
        lemma_subtables(cs, i, n - 1);
    }
}

/// The entries of encodings can be read where they stand.
pub proof fn lemma_coding_entries(cs: Seq<Coding<Seq<u8>>>, k: int, i: int)
    requires
        0 <= k,
    ensures
        coding_entries(cs, k).len() == 8 * k,
        0 <= i < k ==> be16(coding_entries(cs, k), 8 * i) == cs[i].platform,
        0 <= i < k ==> be16(coding_entries(cs, k), 8 * i + 2) == cs[i].encoding,
        0 <= i < k ==> be32(coding_entries(cs, k), 8 * i + 4) == subtable_place(cs, i)
            % 0x1_0000_0000,
    decreases k,
{
    if k > 0 {
        lemma_coding_entries(cs, k - 1, i);
        let before = coding_entries(cs, k - 1);
        let now = coding_entries(cs, k);
        let p = enc16(cs[k - 1].platform as int);
        let e = enc16(cs[k - 1].encoding as int);
        let o = enc32(subtable_place(cs, k - 1));
        assert(now == before + (p + e + o));
        let q = 8 * i;
        if 0 <= i < k - 1 {
            assert(now[q] == before[q] && now[q + 1] == before[q + 1]);
            assert(now[q + 2] == before[q + 2] && now[q + 3] == before[q + 3]);
            assert(now[q + 4] == before[q + 4] && now[q + 5] == before[q + 5]);
            assert(now[q + 6] == before[q + 6] && now[q + 7] == before[q + 7]);
        } else if i == k - 1 {
            lemma_be16_enc16(cs[i].platform as int);
            lemma_be16_enc16(cs[i].encoding as int);
            lemma_be32_enc32(subtable_place(cs, i));
            assert(now[q] == p[0] && now[q + 1] == p[1]);
            assert(now[q + 2] == e[0] && now[q + 3] == e[1]);
            assert(now[q + 4] == o[0] && now[q + 5] == o[1]);
            assert(now[q + 6] == o[2] && now[q + 7] == o[3]);
        }
    }
}

/// The parts of a `cmap` table can be read where they stand.
pub proof fn lemma_cmap_parts(v: Seq<u8>, c: Seq<u8>, es: Seq<u8>, blobs: Seq<u8>, i: int)
    requires
        v.len() == 2,
        c.len() == 2,
        0 <= i,
        8 * i + 8 <= es.len(),
    ensures
        ({
            let out = v + c + es + blobs;
            &&& be16(out, 0) == be16(v, 0)
            &&& be16(out, 2) == be16(c, 0)
            &&& be16(out, 4 + 8 * i) == be16(es, 8 * i)
            &&& be16(out, 4 + 8 * i + 2) == be16(es, 8 * i + 2)
            &&& be32(out, 4 + 8 * i + 4) == be32(es, 8 * i + 4)
        }),
{
    let out = v + c + es + blobs;
    assert forall|j: int| 0 <= j < v.len() implies #[trigger] v[j] == out[0 + j] by {}
    assert forall|j: int| 0 <= j < c.len() implies #[trigger] c[j] == out[2 + j] by {}
    assert forall|j: int| 0 <= j < es.len() implies #[trigger] es[j] == out[4 + j] by {}
    lemma_be16_moved(out, 0, v, 0);
    lemma_be16_moved(out, 2, c, 0);
    lemma_be16_moved(out, 4, es, 8 * i);
    lemma_be16_moved(out, 4, es, 8 * i + 2);
    lemma_be32_moved(out, 4, es, 8 * i + 4);
}

/// The subtable of encoding `i` stands at its place.
pub proof fn lemma_subtable_stands(cs: Seq<Coding<Seq<u8>>>, i: int)
    requires
        0 <= i < cs.len(),
    ensures
        ({
            let blobs = distinct_subtables(cs, cs.len() as int);
            let at = distinct_subtables(cs, first_like(cs, i, 0)).len() as int;
            let data = cs[i].data;
            &&& at + data.len() <= blobs.len()
            &&& blobs.subrange(at, at + data.len()) == data
        }),
{
    let n = cs.len() as int;
    let blobs = distinct_subtables(cs, n);
    let k = first_like(cs, i, 0);
    let at = distinct_subtables(cs, k).len() as int;
    let data = cs[i].data;
    lemma_first_like(cs, i, 0);
    lemma_first_of_first(cs, i);
    lemma_subtables(cs, k, n);
    assert forall|j: int| 0 <= j < data.len() implies blobs[at + j] == #[trigger] data[j] by {
        assert(padded(cs[k].data)[j] == data[j]);
    }
    assert(blobs.subrange(at, at + data.len()) =~= data);
}

/// A reader of a written `cmap` table finds each encoding with its subtable.
pub proof fn law_subtables_are_read_back(version: int, cs: Seq<Coding<Seq<u8>>>, i: int)
    requires
        fits(cs),
        0 <= i < cs.len(),
    ensures
        ({
            let out = cmap_bytes(version, cs);
            let at = coding_start(out, i);
            &&& coding_count(out) == cs.len()
            &&& be16(out, 4 + 8 * i) == cs[i].platform
            &&& be16(out, 4 + 8 * i + 2) == cs[i].encoding
            &&& at + cs[i].data.len() <= out.len()
            &&& out.subrange(at, at + cs[i].data.len()) == cs[i].data
        }),
{
    let n = cs.len() as int;
    let out = cmap_bytes(version, cs);
    let es = coding_entries(cs, n);
    let blobs = distinct_subtables(cs, n);
    lemma_be16_enc16(n);
    lemma_coding_entries(cs, n, i);
    lemma_cmap_parts(enc16(version), enc16(n), es, blobs, i);
    lemma_subtable_stands(cs, i);
    let start = distinct_subtables(cs, first_like(cs, i, 0)).len() as int;
    let at = 4 + 8 * n + start;
    let len = cs[i].data.len() as int;
    assert(coding_start(out, i) == at);
    assert(out.subrange(at, at + len) =~= blobs.subrange(start, start + len));
}

/// Equal subtables are written once: their encodings share one place.
pub proof fn law_equal_subtables_are_shared(cs: Seq<Coding<Seq<u8>>>, i: int, j: int)
    requires
        0 <= i < cs.len(),
        0 <= j < cs.len(),
        cs[i].data == cs[j].data,
    ensures
        subtable_place(cs, i) == subtable_place(cs, j),
{
    lemma_first_like(cs, i, 0);
    lemma_first_like(cs, j, 0);
    let a = first_like(cs, i, 0);
    let b = first_like(cs, j, 0);
    if a < b {
        assert(cs[a].data != cs[j].data);
    } else if b < a {
        assert(cs[b].data != cs[i].data);
    }
}

/// Neighbours among the segments of the characters below `c` cannot be joined.
proof fn lemma_runs_apart(m: Seq<u16>, c: int, i: int)
    requires
        0 <= c <= 0xFFFF,
        m.len() == 0x1_0000,
        0 <= i < runs(m, c).len() - 1,
    ensures
        runs(m, c)[i + 1].start == runs(m, c)[i].end + 1 ==> m[runs(m, c)[i].end as int] + 1
            != m[runs(m, c)[i + 1].start as int],
    decreases c,
{
    let x = c - 1;
    let before = runs(m, x);
    let now = runs(m, c);
    let k = before.len() as int;
    if i < k - 1 {
        lemma_runs_apart(m, x, i);
        assert(now[i] == before[i]);
        assert(now[i + 1].start == before[i + 1].start);
    } else {
        assert(now[i + 1].start == x);
        assert(now[i] == before[k - 1]);
    }
}

/// Neighbouring segments of a mapping do not give glyphs in a row, so they differ in what they add
/// where no character lies between them.
proof fn lemma_runs_differ(m: Seq<u16>, i: int)
    requires
        m.len() == 0x1_0000,
        0 <= i < runs(m, 0xFFFF).len() - 1,
    ensures
        ({
            let rs = runs(m, 0xFFFF);
            rs[i + 1].start == rs[i].end + 1 ==> rs[i + 1].delta != rs[i].delta
        }),
{
    let rs = runs(m, 0xFFFF);
    let (a, b) = (rs[i], rs[i + 1]);
    lemma_runs(m, 0xFFFF);
    lemma_runs_apart(m, 0xFFFF, i);
    assert(run_holds(rs[i], a.end as int));
    assert(run_holds(rs[i + 1], b.start as int));
    assert(run_glyph(a, a.end as int) == m[a.end as int]);
    assert(run_glyph(b, b.start as int) == m[b.start as int]);
    assert(m[b.start as int] != 0);
}

/// Segments `i` and `i + 1` could be one: no character lies between them, and they add the same.
pub open spec fn can_be_joined(sub: Seq<u8>, i: int) -> bool {
    seg_start(sub, i + 1) == seg_end(sub, i) + 1 && seg_delta(sub, i + 1) == seg_delta(sub, i)
}

/// A subtable as the standard asks for it: its length is right, its segments rise and do not
/// overlap, all of them add, the last is the terminator and the only one to end with 0xFFFF, and no
/// neighbours before it can be joined.
pub open spec fn is_standard4(sub: Seq<u8>) -> bool {
    let k = seg_count(sub);
    &&& k > 0
    &&& sub_len(sub) == sub.len()
    &&& sub.len() == 16 + 8 * k
    &&& forall|i: int| 0 <= i < k ==> #[trigger] seg_start(sub, i) <= seg_end(sub, i)
    &&& forall|i: int, j: int|
        0 <= i < j < k ==> #[trigger] seg_end(sub, i) < #[trigger] seg_start(sub, j)
    &&& forall|i: int| 0 <= i < k ==> #[trigger] seg_range(sub, i) == 0
    &&& forall|i: int| 0 <= i < k - 1 ==> #[trigger] seg_end(sub, i) < 0xFFFF
    &&& seg_start(sub, k - 1) == 0xFFFF
    &&& seg_end(sub, k - 1) == 0xFFFF
    &&& seg_delta(sub, k - 1) == 1
    &&& forall|i: int| 0 <= i < k - 2 ==> !#[trigger] can_be_joined(sub, i)
}

/// The segments of a written subtable rise and do not overlap, and all of them add.
proof fn lemma_segments_rise(rs: Seq<Run>)
    requires
        0 < rs.len() < 0x8000,
        disjoint(rs),
    ensures
        ({
            let o = format4(rs);
            let k = rs.len() as int;
            &&& forall|i: int| 0 <= i < k ==> #[trigger] seg_start(o, i) <= seg_end(o, i)
            &&& forall|i: int, j: int|
                0 <= i < j < k ==> #[trigger] seg_end(o, i) < #[trigger] seg_start(o, j)
            &&& forall|i: int| 0 <= i < k ==> #[trigger] seg_range(o, i) == 0
        }),
{
    let o = format4(rs);
    let k = rs.len() as int;
    assert forall|i: int| 0 <= i < k implies #[trigger] seg_start(o, i) <= seg_end(o, i) by {
        lemma_segment(rs, i);
    }
    assert forall|i: int| 0 <= i < k implies #[trigger] seg_range(o, i) == 0 by {
        lemma_segment(rs, i);
    }
    assert forall|i: int, j: int| 0 <= i < j < k implies #[trigger] seg_end(o, i)
        < #[trigger] seg_start(o, j) by {
        lemma_segment(rs, i);
        lemma_segment(rs, j);
        assert(rs[i].end < rs[j].start);
    }
}

/// No neighbours before the terminator of a written subtable can be joined.
proof fn lemma_segments_differ(m: Seq<u16>, i: int)
    requires
        m.len() == 0x1_0000,
        terminated_runs(m).len() < 0x8000,
        0 <= i < terminated_runs(m).len() - 2,
    ensures
        !can_be_joined(format4(terminated_runs(m)), i),
{
    let rs = terminated_runs(m);
    lemma_segment(rs, i);
    lemma_segment(rs, i + 1);
    lemma_runs_differ(m, i);
    assert(rs[i] == runs(m, 0xFFFF)[i]);
    assert(rs[i + 1] == runs(m, 0xFFFF)[i + 1]);
}

/// A subtable that is rebuilt comes out as the standard asks for it, and stays so when it is
/// rebuilt again.
pub proof fn law_rebuilt_is_standard(sub: Seq<u8>)
    requires
        seg_layout(sub),
        !well_terminated(sub),
        rebuilt4(sub).len() < 0x1_0000,
    ensures
        is_standard4(rebuilt4(sub)),
        rebuilt4(rebuilt4(sub)) == rebuilt4(sub),
{
    let m = mapping(sub, seg_count(sub));
    let rs = terminated_runs(m);
    let k = rs.len() as int;
    let o = format4(rs);
    lemma_format4_len(rs);
    law_rebuilding_is_idempotent(sub);
    lemma_terminated(m);
    lemma_format4(rs);
    lemma_segments_rise(rs);
    lemma_segment(rs, k - 1);
    assert forall|i: int| 0 <= i < k - 1 implies #[trigger] seg_end(o, i) < 0xFFFF by {
        assert(seg_end(o, i) < seg_start(o, k - 1));
    }
    assert forall|i: int| 0 <= i < k - 2 implies !#[trigger] can_be_joined(o, i) by {
        lemma_segments_differ(m, i);
    }
}

/// A subtable can be read where each of its segments adds or has its glyphs in the list.
pub proof fn law_lists_of_glyphs_are_readable(sub: Seq<u8>)
    requires
        forall|i: int|
            0 <= i < seg_count(sub) ==> #[trigger] seg_range(sub, i) == 0 || seg_base(sub, i)
                >= glyphs_start(sub),
    ensures
        readable4(sub),
{
    assert forall|i: int| 0 <= i < seg_count(sub) implies !#[trigger] strays(sub, i) by {
        assert(seg_range(sub, i) == 0 || seg_base(sub, i) >= glyphs_start(sub));
    }
}

/// Segment `i` holds a character.
pub open spec fn seg_holds(sub: Seq<u8>, i: int, c: int) -> bool {
    seg_start(sub, i) <= c <= seg_end(sub, i)
}

/// No character is held by two segments. 0xFFFF is none.
pub open spec fn separate(sub: Seq<u8>) -> bool {
    forall|i: int, j: int, c: int|
        0 <= i < j < seg_count(sub) && 0 <= c < 0xFFFF ==> !(#[trigger] seg_holds(sub, i, c)
            && #[trigger] seg_holds(sub, j, c))
}

/// No segment has its glyphs in the list.
pub open spec fn all_add(sub: Seq<u8>) -> bool {
    forall|i: int| 0 <= i < seg_count(sub) ==> #[trigger] seg_range(sub, i) == 0
}

/// A character that segment `s` alone holds has the glyph that this segment gives it.
proof fn lemma_mapped_alone(sub: Seq<u8>, c: int, s: int, k: int)
    requires
        separate(sub),
        0 <= s < k <= seg_count(sub),
        0 <= c < 0xFFFF,
        seg_holds(sub, s, c),
    ensures
        mapped(sub, c, k) == seg_glyph(sub, s, c),
    decreases k,
{
    if s < k - 1 {
        lemma_mapped_alone(sub, c, s, k - 1);
        assert(!seg_holds(sub, k - 1, c));
    } else {
        assert forall|i: int| 0 <= i < s implies #[trigger] seg_glyph(sub, i, c) == 0 by {
            assert(!seg_holds(sub, i, c));
        }
        lemma_mapped_before(sub, c, s);
    }
}

/// A character that has a glyph is held by a segment.
proof fn lemma_mapped_held(sub: Seq<u8>, c: int, k: int) -> (s: int)
    requires
        mapped(sub, c, k) != 0,
    ensures
        0 <= s < k,
        seg_holds(sub, s, c),
        c != 0xFFFF,
    decreases k,
{
    if mapped(sub, c, k - 1) != 0 {
        lemma_mapped_held(sub, c, k - 1)
    } else {
        k - 1
    }
}

/// The character to which a segment that adds gives glyph 1.
pub open spec fn seg_turn(sub: Seq<u8>, i: int) -> int {
    (0x1_0001 - seg_delta(sub, i)) % 0x1_0000
}

/// How many of the first characters and of the turns of the first `k` segments lie below `c`.
pub open spec fn marks(sub: Seq<u8>, c: int, k: int) -> int
    decreases k,
{
    if k <= 0 {
        0
    } else {
        marks(sub, c, k - 1) + (if seg_start(sub, k - 1) < c {
            1int
        } else {
            0
        }) + (if seg_turn(sub, k - 1) < c {
            1int
        } else {
            0
        })
    }
}

proof fn lemma_marks(sub: Seq<u8>, c: int, k: int)
    requires
        0 <= k,
    ensures
        0 <= marks(sub, c, k) <= 2 * k,
        marks(sub, c, k) <= marks(sub, c + 1, k),
    decreases k,
{
    if k > 0 {
        lemma_marks(sub, c, k - 1);
    }
}

proof fn lemma_mark_passed(sub: Seq<u8>, c: int, s: int, k: int)
    requires
        0 <= s < k,
        seg_start(sub, s) == c || seg_turn(sub, s) == c,
    ensures
        marks(sub, c, k) < marks(sub, c + 1, k),
    decreases k,
{
    lemma_marks(sub, c, k - 1);
    if s < k - 1 {
        lemma_mark_passed(sub, c, s, k - 1);
    }
}

/// Adding gives neighbours neighbouring glyphs, unless the second of them gets glyph 1.
proof fn lemma_not_at_turn(x: int, d: int)
    requires
        0 < x < 0xFFFF,
        0 <= d < 0x1_0000,
        (0x1_0001 - d) % 0x1_0000 != x,
        (x + d) % 0x1_0000 != 0,
    ensures
        (x - 1 + d) % 0x1_0000 != 0,
        (x - 1 + d) % 0x1_0000 + 1 == (x + d) % 0x1_0000,
{
}

/// A new segment of a mapping begins where a segment of the subtable does, or where its glyphs turn
/// from the last to the first.
proof fn lemma_runs_begin(sub: Seq<u8>, x: int, s: int)
    requires
        separate(sub),
        all_add(sub),
        0 <= s < seg_count(sub),
        0 <= x < 0xFFFF,
        seg_holds(sub, s, x),
        mapping(sub, seg_count(sub))[x] != 0,
        seg_start(sub, s) != x,
        seg_turn(sub, s) != x,
    ensures
        x > 0,
        mapping(sub, seg_count(sub))[x - 1] != 0,
        mapping(sub, seg_count(sub))[x - 1] + 1 == mapping(sub, seg_count(sub))[x],
{
    let n = seg_count(sub);
    lemma_mapped_alone(sub, x, s, n);
    assert(seg_holds(sub, s, x - 1));
    lemma_mapped_alone(sub, x - 1, s, n);
    assert(seg_range(sub, s) == 0);
    let d = seg_delta(sub, s);
    assert(mapping(sub, n)[x] == (x + d) % 0x1_0000);
    assert(mapping(sub, n)[x - 1] == (x - 1 + d) % 0x1_0000);
    lemma_not_at_turn(x, d);
}

/// There are no more segments in a mapping than marks in the subtable.
proof fn lemma_runs_bound(sub: Seq<u8>, c: int)
    requires
        separate(sub),
        all_add(sub),
        0 <= c <= 0xFFFF,
    ensures
        runs(mapping(sub, seg_count(sub)), c).len() <= marks(sub, c, seg_count(sub)),
    decreases c,
{
    let n = seg_count(sub);
    let m = mapping(sub, n);
    if c > 0 {
        let x = c - 1;
        lemma_runs_bound(sub, x);
        lemma_marks(sub, x, n);
        if m[x] != 0 {
            assert(mapped(sub, x, n) != 0);
            let s = lemma_mapped_held(sub, x, n);
            if seg_start(sub, s) == x || seg_turn(sub, s) == x {
                lemma_mark_passed(sub, x, s, n);
            } else {
                lemma_runs_begin(sub, x, s);
                assert(runs(m, x).len() > 0 && runs(m, x).last().end == x - 1);
            }
        }
    } else {
        lemma_marks(sub, 0, n);
    }
}

/// The second subtable begins with the bytes of the first, whose parts lie in it.
pub open spec fn begins_with(a: Seq<u8>, b: Seq<u8>) -> bool {
    &&& seg_layout(a)
    &&& a.len() <= b.len()
    &&& forall|i: int| 0 <= i < a.len() ==> #[trigger] a[i] == b[0 + i]
}

proof fn lemma_same_segment(a: Seq<u8>, b: Seq<u8>, i: int)
    requires
        begins_with(a, b),
        0 <= i < seg_count(a),
    ensures
        seg_x2(b) == seg_x2(a),
        sub_len(b) == sub_len(a),
        be16(b, 0) == be16(a, 0),
        seg_start(b, i) == seg_start(a, i),
        seg_end(b, i) == seg_end(a, i),
        seg_delta(b, i) == seg_delta(a, i),
        seg_range(b, i) == seg_range(a, i),
{
    let x = seg_x2(a);
    lemma_be16_moved(b, 0, a, 0);
    lemma_be16_moved(b, 0, a, 2);
    lemma_be16_moved(b, 0, a, 6);
    lemma_be16_moved(b, 0, a, 14 + 2 * i);
    lemma_be16_moved(b, 0, a, 16 + x + 2 * i);
    lemma_be16_moved(b, 0, a, 16 + 2 * x + 2 * i);
    lemma_be16_moved(b, 0, a, 16 + 3 * x + 2 * i);
}

proof fn lemma_same_find4(a: Seq<u8>, b: Seq<u8>, c: int, s: int)
    requires
        begins_with(a, b),
        all_add(a),
        0 <= s <= seg_count(a),
    ensures
        find4(b, c, s) == find4(a, c, s),
    decreases seg_count(a) - s,
{
    lemma_same_segment(a, b, 0);
    if s < seg_count(a) {
        lemma_same_segment(a, b, s);
        lemma_same_find4(a, b, c, s + 1);
        assert(seg_range(a, s) == 0);
    }
}

/// What follows a subtable makes no difference where all segments add.
proof fn lemma_same_find_in(a: Seq<u8>, b: Seq<u8>, c: int)
    requires
        begins_with(a, b),
        all_add(a),
        be16(a, 0) == 4,
        c <= 0xFFFF,
    ensures
        find_in(b, c) == find_in(a, c),
{
    reveal(find_in);
    lemma_same_segment(a, b, 0);
    lemma_same_find4(a, b, c, 0);
}

proof fn lemma_same_terminators(a: Seq<u8>, b: Seq<u8>, k: int)
    requires
        begins_with(a, b),
        k <= seg_count(a),
    ensures
        terminators(b, k) == terminators(a, k),
    decreases k,
{
    if k > 0 {
        lemma_same_terminators(a, b, k - 1);
        lemma_same_segment(a, b, k - 1);
    }
}

/// What a subtable whose segments are separate and add gives a character.
proof fn lemma_find_separate(sub: Seq<u8>, c: int, s: int)
    requires
        seg_layout(sub),
        separate(sub),
        all_add(sub),
        0 <= c < 0xFFFF,
        0 <= s <= seg_count(sub),
        forall|i: int| 0 <= i < s ==> !#[trigger] seg_holds(sub, i, c),
    ensures
        ({
            let g = mapped(sub, c, seg_count(sub));
            match find4(sub, c, s) {
                Some(r) => r == glyph_or_missing(g),
                None => g == 0,
            }
        }),
    decreases seg_count(sub) - s,
{
    let n = seg_count(sub);
    if s >= n {
        assert forall|i: int| 0 <= i < n implies #[trigger] seg_glyph(sub, i, c) == 0 by {
            assert(!seg_holds(sub, i, c));
        }
        lemma_mapped_before(sub, c, n);
    } else if seg_holds(sub, s, c) {
        assert(seg_range(sub, s) == 0);
        lemma_mapped_alone(sub, c, s, n);
    } else {
        lemma_find_separate(sub, c, s + 1);
    }
}

/// A `cmap` table with one encoding.
proof fn lemma_one_coding(version: int, coding: Coding<Seq<u8>>)
    requires
        0 <= version < 0x1_0000,
    ensures
        ({
            let out = cmap_bytes(version, seq![coding]);
            &&& be16(out, 0) == version
            &&& coding_count(out) == 1
            &&& be16(out, 4) == coding.platform
            &&& be16(out, 6) == coding.encoding
            &&& coding_start(out, 0) == 12
            &&& out.len() == 12 + padded(coding.data).len()
            &&& coding_data(out, 0) == padded(coding.data)
        }),
{
    let cs = seq![coding];
    let out = cmap_bytes(version, cs);
    let es = coding_entries(cs, 1);
    let blobs = distinct_subtables(cs, 1);
    let (v, c) = (enc16(version), enc16(1));
    lemma_be16_enc16(version);
    lemma_be16_enc16(1);
    lemma_coding_entries(cs, 1, 0);
    assert(distinct_subtables(cs, 0).len() == 0);
    assert(first_like(cs, 0, 0) == 0);
    assert(blobs =~= padded(coding.data));
    assert(subtable_place(cs, 0) == 12);
    lemma_cmap_parts(v, c, es, blobs, 0);
    assert(coding_data(out, 0) =~= padded(coding.data));
}

/// The table has one encoding, with a format 4 subtable whose parts lie in it, whose segments all
/// add, and in which no character is held twice. It has 4000 segments at most.
pub open spec fn is_plain_cmap(cmap: Seq<u8>) -> bool {
    let sub = coding_data(cmap, 0);
    &&& coding_layout(cmap)
    &&& coding_count(cmap) == 1
    &&& coding_start(cmap, 0) < cmap.len()
    &&& is_format4(sub)
    &&& seg_layout(sub)
    &&& seg_count(sub) <= 4000
    &&& all_add(sub)
    &&& separate(sub)
}

/// What a rebuilt subtable gives a character, with what the old one gave it.
proof fn lemma_rebuilt_finds(sub: Seq<u8>, cp: int)
    requires
        is_format4(sub),
        seg_layout(sub),
        seg_count(sub) <= 4000,
        all_add(sub),
        separate(sub),
        0 <= cp < 0xFFFF,
    ensures
        ({
            let out = rebuilt4(sub);
            &&& seg_layout(out)
            &&& be16(out, 0) == 4
            &&& all_add(out)
            &&& well_terminated(out)
            &&& (match find_in(out, cp) {
                Some(r) => r,
                None => Lookup::Missing,
            }) == (match find_in(sub, cp) {
                Some(r) => r,
                None => Lookup::Missing,
            })
        }),
{
    if !well_terminated(sub) {
        let n = seg_count(sub);
        let m = mapping(sub, n);
        let rs = terminated_runs(m);
        let out = format4(rs);
        lemma_runs_bound(sub, 0xFFFF);
        lemma_marks(sub, 0xFFFF, n);
        assert(rs.len() <= 8001);
        lemma_terminated(m);
        lemma_format4(rs);
        law_rebuilt_is_well_terminated(sub);
        law_mapping_is_read_back(m, cp);
        assert(all_add(out)) by {
            lemma_segments_rise(rs);
        }
        lemma_find_separate(sub, cp, 0);
        assert(find_in(sub, cp) == find4(sub, cp, 0)) by {
            reveal(find_in);
        }
        assert(0 <= mapped(sub, cp, n) < 0x1_0000) by {
            lemma_mapped_range(sub, cp, n);
        }
        assert(m[cp] == mapped(sub, cp, n));
    }
}

/// What the only encoding of a table gives a character.
proof fn lemma_lookup_one(cmap: Seq<u8>, cp: int)
    requires
        cmap.len() >= 12,
        coding_count(cmap) == 1,
        coding_start(cmap, 0) <= cmap.len(),
    ensures
        lookup(cmap, cp) == match find_in(coding_data(cmap, 0), cp) {
            Some(r) => r,
            None => Lookup::Missing,
        },
{
    reveal(lookup);
    assert(find_from(cmap, cp, 1) == Lookup::Missing);
}

/// A `cmap` table with one plain encoding can be rebuilt. It keeps its version and its encoding,
/// its subtable comes out with one terminator, and each character has the glyph that it had.
pub proof fn law_rebuilding_keeps_lookups(cmap: Seq<u8>, cp: int)
    requires
        is_plain_cmap(cmap),
        0 <= cp < 0xFFFF,
    ensures
        readable_cmap(cmap),
        lookup(rebuilt_cmap(cmap), cp) == lookup(cmap, cp),
        be16(rebuilt_cmap(cmap), 0) == be16(cmap, 0),
        coding_count(rebuilt_cmap(cmap)) == 1,
        be16(rebuilt_cmap(cmap), 4) == be16(cmap, 4),
        be16(rebuilt_cmap(cmap), 6) == be16(cmap, 6),
        is_format4(coding_data(rebuilt_cmap(cmap), 0)),
        well_terminated(coding_data(rebuilt_cmap(cmap), 0)),
{
    let sub = coding_data(cmap, 0);
    let new = rebuilt4(sub);
    let out = rebuilt_cmap(cmap);
    assert(readable_cmap(cmap)) by {
        reveal(readable_cmap);
        assert(all_add(sub));
        law_lists_of_glyphs_are_readable(sub);
        assert forall|i: int| 0 <= i < 1 implies #[trigger] readable_coding(cmap, i) by {}
    }
    lemma_rebuilt_finds(sub, cp);
    lemma_lookup_one(cmap, cp);
    let coding = Coding {
        platform: be16(cmap, 4) as u16,
        encoding: be16(cmap, 6) as u16,
        data: new,
    };
    assert(out == cmap_bytes(be16(cmap, 0), seq![coding])) by {
        reveal(rebuilt_cmap);
        assert(rebuilt_codings(cmap, 0).len() == 0);
        assert(rebuilt_codings(cmap, 1) =~= seq![coding]);
    }
    lemma_one_coding(be16(cmap, 0), coding);
    let end = padded(new);
    assert(begins_with(new, end));
    lemma_same_find_in(new, end, cp);
    lemma_lookup_one(out, cp);
    lemma_same_segment(new, end, 0);
    lemma_same_segment(new, end, seg_count(new) - 1);
    lemma_same_terminators(new, end, seg_count(new));
}

} // verus!
