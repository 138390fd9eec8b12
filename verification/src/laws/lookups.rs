//! What the bytes of a `cmap` table give a character, and what is kept of them.

use vstd::prelude::*;
use crate::bytes::{
    be16, be32, enc16, lemma_be16_enc16, lemma_be16_moved, lemma_numbers16, numbers16, zeros,
};
use crate::cmap::{
    cmap_bytes, coding_count, coding_entries, coding_layout, coding_start, distinct_subtables,
    find12, find4, find_from, find_in, first_like, format4, format4_head, glyph4, lookup, mapping,
    readable4, readable_cmap, readable_coding, rebuilt4, rebuilt_cmap, rebuilt_codings, run_deltas,
    run_ends, run_starts, seg_count, seg_end, seg_glyph, strays, subtable_place, terminated_runs,
    terminators, well_terminated, Coding, Lookup, Run,
};
use crate::laws::cmap::{
    fits, law_mapping_is_read_back, law_subtables_are_read_back, lemma_cmap_parts,
    lemma_coding_entries, lemma_first_like, lemma_format4, lemma_mapped_before,
    lemma_mapped_first, lemma_terminated,
};
use crate::laws::directory::{law_two_to, search_fields};
use crate::sfnt::{floor_log2, floor_pow2, lemma_floor_log2, lemma_floor_pow2};

verus! {

broadcast use crate::bytes::group_encoded_lengths;

/// A glyph number as an answer: 0, and what takes more than 16 bits, is no glyph.
pub open spec fn answer(g: int) -> Lookup {
    if g == 0 || g > 0xFFFF {
        Lookup::Missing
    } else {
        Lookup::Glyph(g as u16)
    }
}

/// Segment `s` of a format 4 subtable, whose head gives `x` bytes to each list, holds a character:
/// the last characters stand at 14, the first ones two bytes after them.
pub open spec fn holds4(sub: Seq<u8>, s: int, c: int) -> bool {
    let x = be16(sub, 6);
    be16(sub, 16 + x + 2 * s) <= c <= be16(sub, 14 + 2 * s)
}

/// Segment `s` is the first that holds a character, and its first character stands in the subtable.
pub open spec fn first_holds4(sub: Seq<u8>, s: int, c: int) -> bool {
    let x = be16(sub, 6);
    &&& 0 <= s < x / 2
    &&& 16 + x + 2 * s + 2 <= sub.len()
    &&& holds4(sub, s, c)
    &&& forall|i: int| 0 <= i < s ==> !#[trigger] holds4(sub, i, c)
}

proof fn lemma_find4_first(sub: Seq<u8>, c: int, s: int, i: int)
    requires
        first_holds4(sub, s, c),
        0 <= i <= s,
    ensures
        find4(sub, c, i) == Some(glyph4(sub, c, s)),
    decreases s - i,
{
    if i < s {
        assert(!holds4(sub, i, c));
        lemma_find4_first(sub, c, s, i + 1);
    }
}

proof fn lemma_find4_nothing(sub: Seq<u8>, c: int, i: int)
    requires
        0 <= i,
        forall|s: int|
            0 <= s < be16(sub, 6) / 2 && 16 + be16(sub, 6) + 2 * s + 2 <= sub.len()
                ==> !#[trigger] holds4(sub, s, c),
    ensures
        find4(sub, c, i) is None,
    decreases be16(sub, 6) / 2 - i,
{
    if i < be16(sub, 6) / 2 && 16 + be16(sub, 6) + 2 * i + 2 <= sub.len() {
        assert(!holds4(sub, i, c));
        lemma_find4_nothing(sub, c, i + 1);
    }
}

/// A whole head of a format 4 subtable with segments.
pub open spec fn has_head4(sub: Seq<u8>) -> bool {
    &&& sub.len() >= 8
    &&& be16(sub, 0) == 4
    &&& be16(sub, 2) <= sub.len()
    &&& be16(sub, 6) >= 2
}

/// The first segment that holds a character gives it a glyph. The third list says what to add, the
/// fourth where glyphs stand, counted from the number itself; 0 is for the character itself.
pub proof fn law_segments_give_glyphs(sub: Seq<u8>, s: int, c: int)
    requires
        has_head4(sub),
        0 <= c <= 0xFFFF,
        first_holds4(sub, s, c),
    ensures
        ({
            let x = be16(sub, 6);
            let d = be16(sub, 16 + 2 * x + 2 * s);
            let here = 16 + 3 * x + 2 * s;
            let r = be16(sub, here);
            let at = here + r + 2 * (c - be16(sub, 16 + x + 2 * s));
            find_in(sub, c) == Some(
                if sub.len() < 16 + 2 * x + 2 * s + 2 {
                    Lookup::Overrun
                } else if sub.len() < here + 2 {
                    Lookup::Missing
                } else if r == 0 {
                    answer((c + d) % 0x1_0000)
                } else if sub.len() < at + 2 {
                    Lookup::Missing
                } else {
                    answer((be16(sub, at) + d) % 0x1_0000)
                },
            )
        }),
{
    reveal(find_in);
    lemma_find4_first(sub, c, s, 0);
}

/// A format 4 subtable says nothing of a character that no segment holds, and nothing of one that
/// takes more than 16 bits. One without a whole head says nothing at all.
pub proof fn law_other_characters_have_no_segment(sub: Seq<u8>, c: int)
    requires
        sub.len() >= 2,
        be16(sub, 0) == 4,
        0 <= c,
        c > 0xFFFF || !has_head4(sub) || forall|s: int|
            0 <= s < be16(sub, 6) / 2 && 16 + be16(sub, 6) + 2 * s + 2 <= sub.len()
                ==> !#[trigger] holds4(sub, s, c),
    ensures
        find_in(sub, c) is None,
{
    reveal(find_in);
    if c <= 0xFFFF && has_head4(sub) {
        lemma_find4_nothing(sub, c, 0);
    }
}

/// Group `g` of a format 12 subtable is whole and holds a character.
pub open spec fn holds12(sub: Seq<u8>, g: int, c: int) -> bool {
    &&& 16 + 12 * g + 12 <= sub.len()
    &&& be32(sub, 16 + 12 * g) <= c <= be32(sub, 16 + 12 * g + 4)
}

proof fn lemma_find12_first(sub: Seq<u8>, c: int, g: int, i: int)
    requires
        0 <= i <= g < be32(sub, 12),
        holds12(sub, g, c),
        forall|j: int| i <= j < g ==> !#[trigger] holds12(sub, j, c),
    ensures
        find12(sub, c, i) == find12(sub, c, g),
    decreases g - i,
{
    if i < g {
        assert(!holds12(sub, i, c));
        lemma_find12_first(sub, c, g, i + 1);
    }
}

proof fn lemma_find12_nothing(sub: Seq<u8>, c: int, i: int)
    requires
        0 <= i,
        forall|g: int| 0 <= g < be32(sub, 12) ==> !#[trigger] holds12(sub, g, c),
    ensures
        find12(sub, c, i) is None,
    decreases be32(sub, 12) - i,
{
    if i < be32(sub, 12) && 16 + 12 * i + 12 <= sub.len() {
        assert(!holds12(sub, i, c));
        lemma_find12_nothing(sub, c, i + 1);
    }
}

/// The first group that holds a character gives its first character the glyph that it tells, and
/// the others the glyphs that follow.
pub proof fn law_groups_give_glyphs(sub: Seq<u8>, g: int, c: int)
    requires
        sub.len() >= 16,
        be16(sub, 0) == 12,
        0 <= c,
        0 <= g < be32(sub, 12),
        holds12(sub, g, c),
        forall|j: int| 0 <= j < g ==> !#[trigger] holds12(sub, j, c),
    ensures
        find_in(sub, c) == Some(
            answer(
                (be32(sub, 16 + 12 * g + 8) + (c - be32(sub, 16 + 12 * g))) % 0x1_0000_0000,
            ),
        ),
{
    reveal(find_in);
    lemma_find12_first(sub, c, g, 0);
}

/// A format 12 subtable says nothing of a character that no group holds. One without a whole head
/// says that there is no glyph. A subtable of another format says nothing.
pub proof fn law_other_characters_have_no_group(sub: Seq<u8>, c: int)
    requires
        0 <= c,
    ensures
        sub.len() < 2 ==> find_in(sub, c) is None,
        sub.len() >= 2 && be16(sub, 0) != 4 && be16(sub, 0) != 12 ==> find_in(sub, c) is None,
        2 <= sub.len() < 16 && be16(sub, 0) == 12 ==> find_in(sub, c) == Some(Lookup::Missing),
        sub.len() >= 16 && be16(sub, 0) == 12 && (forall|g: int|
            0 <= g < be32(sub, 12) ==> !#[trigger] holds12(sub, g, c)) ==> find_in(sub, c) is None,
{
    reveal(find_in);
    if sub.len() >= 16 && be16(sub, 0) == 12 && (forall|g: int|
        0 <= g < be32(sub, 12) ==> !#[trigger] holds12(sub, g, c)) {
        lemma_find12_nothing(sub, c, 0);
    }
}

/// Encoding `i` stands in the table, and so does the beginning of its subtable, which says
/// something of the character.
pub open spec fn speaks_of(cmap: Seq<u8>, i: int, c: int) -> bool {
    &&& 4 + 8 * i + 8 <= cmap.len()
    &&& be32(cmap, 4 + 8 * i + 4) <= cmap.len()
    &&& find_in(cmap.skip(be32(cmap, 4 + 8 * i + 4)), c) is Some
}

proof fn lemma_find_from_first(cmap: Seq<u8>, c: int, k: int, i: int)
    requires
        0 <= i <= k < be16(cmap, 2),
        speaks_of(cmap, k, c),
        forall|j: int| i <= j < k ==> !#[trigger] speaks_of(cmap, j, c),
    ensures
        find_from(cmap, c, i) == find_in(cmap.skip(be32(cmap, 4 + 8 * k + 4)), c)->0,
    decreases k - i,
{
    if i < k {
        assert(!speaks_of(cmap, i, c));
        lemma_find_from_first(cmap, c, k, i + 1);
    }
}

proof fn lemma_find_from_nothing(cmap: Seq<u8>, c: int, i: int)
    requires
        0 <= i,
        forall|j: int| 0 <= j < be16(cmap, 2) ==> !#[trigger] speaks_of(cmap, j, c),
    ensures
        find_from(cmap, c, i) == Lookup::Missing,
    decreases be16(cmap, 2) - i,
{
    if i < be16(cmap, 2) {
        assert(!speaks_of(cmap, i, c));
        lemma_find_from_nothing(cmap, c, i + 1);
    }
}

/// The first encoding whose subtable says something of a character counts. Where none does, there
/// is no glyph.
pub proof fn law_first_encoding_counts(cmap: Seq<u8>, k: int, c: int)
    ensures
        cmap.len() >= 4 && 0 <= k < be16(cmap, 2) && speaks_of(cmap, k, c) && (forall|j: int|
            0 <= j < k ==> !#[trigger] speaks_of(cmap, j, c)) ==> lookup(cmap, c) == find_in(
            cmap.skip(be32(cmap, 4 + 8 * k + 4)),
            c,
        )->0,
        cmap.len() < 4 || (forall|j: int|
            0 <= j < be16(cmap, 2) ==> !#[trigger] speaks_of(cmap, j, c)) ==> lookup(cmap, c)
            == Lookup::Missing,
{
    reveal(lookup);
    if cmap.len() >= 4 && 0 <= k < be16(cmap, 2) && speaks_of(cmap, k, c) && (forall|j: int|
        0 <= j < k ==> !#[trigger] speaks_of(cmap, j, c)) {
        lemma_find_from_first(cmap, c, k, 0);
    }
    if forall|j: int| 0 <= j < be16(cmap, 2) ==> !#[trigger] speaks_of(cmap, j, c) {
        lemma_find_from_nothing(cmap, c, 0);
    }
}

/// The four lists of a format 4 subtable lie within the length that it gives for itself.
pub open spec fn has_lists4(sub: Seq<u8>) -> bool {
    &&& sub.len() >= 14
    &&& be16(sub, 2) <= sub.len()
    &&& be16(sub, 6) >= 2
    &&& 16 + 4 * be16(sub, 6) <= be16(sub, 2)
}

/// The last character of segment `i` is 0xFFFF.
pub open spec fn closes(sub: Seq<u8>, i: int) -> bool {
    be16(sub, 14 + 2 * i) == 0xFFFF
}

/// The last segment ends with 0xFFFF, and no other does.
pub open spec fn closed_once(sub: Seq<u8>) -> bool {
    let n = be16(sub, 6) / 2;
    closes(sub, n - 1) && forall|i: int| 0 <= i < n - 1 ==> !#[trigger] closes(sub, i)
}

proof fn lemma_terminators_none(sub: Seq<u8>, k: int)
    requires
        0 <= k,
    ensures
        terminators(sub, k) >= 0,
        terminators(sub, k) == 0 <==> forall|i: int| 0 <= i < k ==> !#[trigger] closes(sub, i),
    decreases k,
{
    if k > 0 {
        lemma_terminators_none(sub, k - 1);
        assert(closes(sub, k - 1) == (seg_end(sub, k - 1) == 0xFFFF));
    }
}

proof fn lemma_closed_once(sub: Seq<u8>)
    requires
        has_lists4(sub),
    ensures
        well_terminated(sub) == closed_once(sub),
{
    let n = be16(sub, 6) / 2;
    lemma_terminators_none(sub, n - 1);
    assert(closes(sub, n - 1) == (seg_end(sub, n - 1) == 0xFFFF));
}

/// A format 4 subtable stays as it is if its lists do not lie in it, or if its last segment alone
/// ends with 0xFFFF.
pub proof fn law_closed_subtable_is_kept(sub: Seq<u8>)
    requires
        !has_lists4(sub) || closed_once(sub),
    ensures
        rebuilt4(sub) == sub,
{
    if has_lists4(sub) {
        lemma_closed_once(sub);
    }
}

/// The glyph that segment `i` gives a character where the subtable is rebuilt, 0 for none: the
/// character and what the segment adds, or the glyph in the list, to which nothing is added. The
/// list begins after the four lists of numbers and ends with the subtable.
pub open spec fn gives(sub: Seq<u8>, i: int, c: int) -> int {
    let x = be16(sub, 6);
    let here = 16 + 3 * x + 2 * i;
    let list = here + be16(sub, here);
    let at = list + 2 * (c - be16(sub, 16 + x + 2 * i));
    if c >= 0xFFFF || !holds4(sub, i, c) {
        0
    } else if be16(sub, here) == 0 {
        (c + be16(sub, 16 + 2 * x + 2 * i)) % 0x1_0000
    } else if list < 16 + 4 * x || at + 2 > be16(sub, 2) {
        0
    } else {
        be16(sub, at)
    }
}

/// A subtable that is rebuilt gives a character the glyph of the first segment that gave it one,
/// and says nothing of a character that no segment gave a glyph.
pub proof fn law_rebuilt_subtable_gives(sub: Seq<u8>, s: int, c: int)
    requires
        has_lists4(sub),
        !closed_once(sub),
        0 <= c < 0xFFFF,
        rebuilt4(sub).len() < 0x4_0000,
    ensures
        0 <= s < be16(sub, 6) / 2 && gives(sub, s, c) != 0 && (forall|i: int|
            0 <= i < s ==> #[trigger] gives(sub, i, c) == 0) ==> find_in(rebuilt4(sub), c) == Some(
            Lookup::Glyph(gives(sub, s, c) as u16),
        ),
        (forall|i: int| 0 <= i < be16(sub, 6) / 2 ==> #[trigger] gives(sub, i, c) == 0) ==> find_in(
            rebuilt4(sub),
            c,
        ) is None,
        find_in(rebuilt4(sub), 0xFFFF) == Some(Lookup::Missing),
{
    lemma_closed_once(sub);
    let n = seg_count(sub);
    let m = mapping(sub, n);
    crate::laws::cmap::lemma_format4_len(terminated_runs(m));
    law_mapping_is_read_back(m, c);
    law_mapping_is_read_back(m, 0xFFFF);
    assert forall|i: int| #[trigger] gives(sub, i, c) == seg_glyph(sub, i, c) by {}
    if 0 <= s < n && gives(sub, s, c) != 0 && (forall|i: int|
        0 <= i < s ==> #[trigger] gives(sub, i, c) == 0) {
        assert forall|i: int| 0 <= i < s implies #[trigger] seg_glyph(sub, i, c) == 0 by {
            assert(gives(sub, i, c) == 0);
        }
        lemma_mapped_first(sub, c, s, n);
    }
    if forall|i: int| 0 <= i < n ==> #[trigger] gives(sub, i, c) == 0 {
        assert forall|i: int| 0 <= i < n implies #[trigger] seg_glyph(sub, i, c) == 0 by {
            assert(gives(sub, i, c) == 0);
        }
        lemma_mapped_before(sub, c, n);
    }
}

proof fn lemma_head4(rs: Seq<Run>)
    requires
        0 < rs.len() < 0x8000,
    ensures
        ({
            let n = rs.len() as int;
            let f = format4(rs);
            &&& be16(f, 4) == 0
            &&& search_fields(be16(f, 8), be16(f, 10), be16(f, 12), n, 2)
            &&& be16(f, 14 + 2 * n) == 0
        }),
{
    reveal(format4);
    let n = rs.len() as int;
    let f = format4(rs);
    let h = format4_head(n);
    let es = numbers16(run_ends(rs), n);
    lemma_numbers16(run_ends(rs), n);
    lemma_numbers16(run_starts(rs), n);
    lemma_numbers16(run_deltas(rs), n);
    lemma_floor_pow2(n);
    lemma_floor_log2(n);
    law_two_to(n);
    let p = floor_pow2(n);
    let (a, b, c, z) = (enc16(2 * p), enc16(floor_log2(n)), enc16(2 * n - 2 * p), enc16(0));
    lemma_be16_enc16(2 * p);
    lemma_be16_enc16(floor_log2(n));
    lemma_be16_enc16(2 * n - 2 * p);
    lemma_be16_enc16(0);
    assert(f =~= h + es + z + (numbers16(run_starts(rs), n) + numbers16(run_deltas(rs), n) + zeros(
        (2 * n) as nat,
    )));
    lemma_be16_moved(f, 4, z, 0);
    lemma_be16_moved(f, 8, a, 0);
    lemma_be16_moved(f, 10, b, 0);
    lemma_be16_moved(f, 12, c, 0);
    lemma_be16_moved(f, 14 + 2 * n, z, 0);
}

/// A subtable that is rebuilt has a head as the standard asks for it: no language, the fields for a
/// search over the segments, and 0 after the last characters.
pub proof fn law_rebuilt_head_is_standard(sub: Seq<u8>)
    requires
        has_lists4(sub),
        !closed_once(sub),
        rebuilt4(sub).len() < 0x1_0000,
    ensures
        ({
            let f = rebuilt4(sub);
            let n = be16(f, 6) / 2;
            &&& be16(f, 0) == 4
            &&& be16(f, 2) == f.len()
            &&& be16(f, 4) == 0
            &&& f.len() == 16 + 8 * n
            &&& be16(f, 6) == 2 * n
            &&& search_fields(be16(f, 8), be16(f, 10), be16(f, 12), n, 2)
            &&& be16(f, 14 + 2 * n) == 0
        }),
{
    lemma_closed_once(sub);
    let m = mapping(sub, seg_count(sub));
    let rs = terminated_runs(m);
    crate::laws::cmap::lemma_format4_len(rs);
    lemma_terminated(m);
    lemma_format4(rs);
    lemma_head4(rs);
}

/// Segment `i` holds a character other than 0xFFFF, and its glyphs begin one or two bytes before
/// the list of glyphs, within the subtable.
pub open spec fn begins_before_list(sub: Seq<u8>, i: int) -> bool {
    let x = be16(sub, 6);
    let here = 16 + 3 * x + 2 * i;
    let list = here + be16(sub, here);
    &&& be16(sub, 16 + x + 2 * i) <= be16(sub, 14 + 2 * i)
    &&& be16(sub, 16 + x + 2 * i) < 0xFFFF
    &&& list > here
    &&& list + 2 <= be16(sub, 2)
    &&& list == 14 + 4 * x || list == 15 + 4 * x
}

/// A subtable has to be read where its lists lie in it and its last segment is not the only one to
/// end with 0xFFFF. It can be, unless the glyphs of a segment begin just before the list of glyphs.
pub proof fn law_stray_segments_cannot_be_read(sub: Seq<u8>)
    ensures
        readable4(sub) <==> !has_lists4(sub) || closed_once(sub) || forall|i: int|
            0 <= i < be16(sub, 6) / 2 ==> !#[trigger] begins_before_list(sub, i),
{
    if has_lists4(sub) {
        lemma_closed_once(sub);
        assert forall|i: int| 0 <= i < seg_count(sub) implies #[trigger] strays(sub, i)
            == begins_before_list(sub, i) by {}
        if readable4(sub) && !closed_once(sub) {
            assert forall|i: int| 0 <= i < seg_count(sub) implies !#[trigger] begins_before_list(
                sub,
                i,
            ) by {
                assert(!strays(sub, i));
            }
        }
    }
}

/// How many of the first `k` encodings have a subtable that begins in the table.
pub open spec fn kept_before(cmap: Seq<u8>, k: int) -> int
    decreases k,
{
    if k <= 0 {
        0
    } else if be32(cmap, 4 + 8 * (k - 1) + 4) < cmap.len() {
        kept_before(cmap, k - 1) + 1
    } else {
        kept_before(cmap, k - 1)
    }
}

proof fn lemma_kept_range(cmap: Seq<u8>, k: int)
    requires
        0 <= k,
    ensures
        0 <= kept_before(cmap, k) <= k,
    decreases k,
{
    if k > 0 {
        lemma_kept_range(cmap, k - 1);
    }
}

proof fn lemma_kept(cmap: Seq<u8>, k: int, i: int)
    requires
        0 <= k,
    ensures
        rebuilt_codings(cmap, k).len() == kept_before(cmap, k),
        0 <= i < k && be32(cmap, 4 + 8 * i + 4) < cmap.len() ==> {
            let c = rebuilt_codings(cmap, k)[kept_before(cmap, i)];
            let sub = cmap.skip(be32(cmap, 4 + 8 * i + 4));
            &&& kept_before(cmap, i) < kept_before(cmap, k)
            &&& c.platform == be16(cmap, 4 + 8 * i)
            &&& c.encoding == be16(cmap, 4 + 8 * i + 2)
            &&& c.data == if sub.len() >= 2 && be16(sub, 0) == 4 {
                rebuilt4(sub)
            } else {
                sub
            }
        },
    decreases k,
{
    if k > 0 {
        lemma_kept(cmap, k - 1, i);
        if 0 <= i {
            lemma_kept_range(cmap, i);
        }
    }
}

proof fn lemma_whole_words(cs: Seq<Coding<Seq<u8>>>, k: int)
    ensures
        distinct_subtables(cs, k).len() % 4 == 0,
    decreases k,
{
    if k > 0 {
        lemma_whole_words(cs, k - 1);
    }
}

/// A rebuilt `cmap` table keeps its version and, in their order, the encodings whose subtables
/// begin in the table. Each has its subtable at a whole word: a rebuilt one where the format is 4,
/// else all that stood from its beginning on.
pub proof fn law_encodings_are_kept(cmap: Seq<u8>, i: int)
    requires
        cmap.len() >= 4 + 8 * be16(cmap, 2),
        cmap.len() >= 4,
        0 <= i < be16(cmap, 2),
        be32(cmap, 4 + 8 * i + 4) < cmap.len(),
        fits(rebuilt_codings(cmap, be16(cmap, 2))),
    ensures
        ({
            let out = rebuilt_cmap(cmap);
            let j = kept_before(cmap, i);
            let sub = cmap.skip(be32(cmap, 4 + 8 * i + 4));
            let new = if sub.len() >= 2 && be16(sub, 0) == 4 {
                rebuilt4(sub)
            } else {
                sub
            };
            let at = be32(out, 4 + 8 * j + 4);
            &&& be16(out, 0) == be16(cmap, 0)
            &&& be16(out, 2) == kept_before(cmap, be16(cmap, 2))
            &&& be16(out, 4 + 8 * j) == be16(cmap, 4 + 8 * i)
            &&& be16(out, 4 + 8 * j + 2) == be16(cmap, 4 + 8 * i + 2)
            &&& at % 4 == 0
            &&& at + new.len() <= out.len()
            &&& out.subrange(at, at + new.len()) == new
        }),
{
    let n = be16(cmap, 2);
    let cs = rebuilt_codings(cmap, n);
    let j = kept_before(cmap, i);
    assert(rebuilt_cmap(cmap) == cmap_bytes(be16(cmap, 0), cs)) by {
        reveal(rebuilt_cmap);
    }
    lemma_kept(cmap, n, i);
    lemma_kept_range(cmap, i);
    law_subtables_are_read_back(be16(cmap, 0), cs, j);
    lemma_coding_place(be16(cmap, 0), cs, j);
}

proof fn lemma_coding_place(version: int, cs: Seq<Coding<Seq<u8>>>, j: int)
    requires
        fits(cs),
        0 <= j < cs.len(),
        0 <= version < 0x1_0000,
    ensures
        be16(cmap_bytes(version, cs), 0) == version,
        coding_start(cmap_bytes(version, cs), j) % 4 == 0,
{
    let k = cs.len() as int;
    let es = coding_entries(cs, k);
    let blobs = distinct_subtables(cs, k);
    lemma_coding_entries(cs, k, j);
    lemma_be16_enc16(version);
    lemma_cmap_parts(enc16(version), enc16(k), es, blobs, j);
    lemma_first_like(cs, j, 0);
    lemma_whole_words(cs, first_like(cs, j, 0));
    crate::laws::cmap::lemma_subtable_stands(cs, j);
    assert(0 <= subtable_place(cs, j) < 0x1_0000_0000);
}

/// A rebuilt `cmap` table tells its version and how many encodings it has kept, be it none. Where
/// it has kept none, nothing else stands in it.
pub proof fn law_encodings_are_counted(cmap: Seq<u8>)
    requires
        cmap.len() >= 4 + 8 * be16(cmap, 2),
        cmap.len() >= 4,
    ensures
        ({
            let out = rebuilt_cmap(cmap);
            &&& be16(out, 0) == be16(cmap, 0)
            &&& be16(out, 2) == kept_before(cmap, be16(cmap, 2))
            &&& kept_before(cmap, be16(cmap, 2)) == 0 ==> out.len() == 4
        }),
{
    reveal(rebuilt_cmap);
    let n = be16(cmap, 2);
    let version = be16(cmap, 0);
    let cs = rebuilt_codings(cmap, n);
    let k = cs.len() as int;
    lemma_kept(cmap, n, -1);
    lemma_kept_range(cmap, n);
    let out = rebuilt_cmap(cmap);
    let rest = coding_entries(cs, k) + distinct_subtables(cs, k);
    assert(out =~= enc16(version) + enc16(k) + rest);
    lemma_be16_enc16(version);
    lemma_be16_enc16(k);
    lemma_be16_moved(out, 0, enc16(version), 0);
    lemma_be16_moved(out, 2, enc16(k), 0);
}

/// Encoding `i` has a format 4 subtable that begins in the table and cannot be read.
pub open spec fn is_unreadable(cmap: Seq<u8>, i: int) -> bool {
    let sub = cmap.skip(be32(cmap, 4 + 8 * i + 4));
    &&& be32(cmap, 4 + 8 * i + 4) < cmap.len()
    &&& sub.len() >= 2
    &&& be16(sub, 0) == 4
    &&& !readable4(sub)
}

/// A `cmap` table can be read if its list of encodings is cut off or no subtable is at fault.
pub proof fn law_tables_that_can_be_read(cmap: Seq<u8>)
    ensures
        readable_cmap(cmap) <==> cmap.len() < 4 || cmap.len() < 4 + 8 * be16(cmap, 2) || forall|i: int|
            0 <= i < be16(cmap, 2) ==> !#[trigger] is_unreadable(cmap, i),
{
    reveal(readable_cmap);
    assert forall|i: int| #[trigger] is_unreadable(cmap, i) == !readable_coding(cmap, i) by {}
    if readable_cmap(cmap) && coding_layout(cmap) {
        assert forall|i: int| 0 <= i < be16(cmap, 2) implies !#[trigger] is_unreadable(
            cmap,
            i,
        ) by {
            assert(readable_coding(cmap, i));
        }
    }
    if !readable_cmap(cmap) {
        let i = choose|i: int| 0 <= i < coding_count(cmap) && !#[trigger] readable_coding(cmap, i);
        assert(is_unreadable(cmap, i));
    }
}

/// A `cmap` table whose list of encodings is cut off stays as it is.
pub proof fn law_cut_list_is_kept(cmap: Seq<u8>)
    requires
        cmap.len() < 4 || cmap.len() < 4 + 8 * be16(cmap, 2),
    ensures
        rebuilt_cmap(cmap) == cmap,
{
    reveal(rebuilt_cmap);
}

} // verus!
