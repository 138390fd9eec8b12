//! The conversion of a font, table by table. Tags stand for their four letters.

use vstd::prelude::*;
use crate::bytes::{be16, be32};
use crate::cmap::{lookup, readable_cmap, rebuilt_cmap, Lookup};
use crate::color::{color_tables, table_brushes, table_glyph_brushes};
use crate::convert::{
    all_bounds, char_glyphs, converted, convertible, font_glyphs, forced_glyphs, glyph_data,
    glyph_index, joined_bounds, loca_numbers, most_contours, most_points, parts, plan, regular,
    whole_bounds, Parts,
};
use crate::error::ConvertError;
use crate::glyf::{all_dots, bounds, Dot};
use crate::laws::conversion::{
    alike_but_for_seal, converts, law_converted_font_is_sealed, law_converted_tables_are_read_back,
    lemma_sealed_head,
};
use crate::laws::tables::{
    is_full_hmtx, is_full_vmtx, is_new_head, is_new_hhea, is_new_maxp, is_new_vhea,
    law_head_is_new, law_hhea_is_new, law_hmtx_is_full, law_maxp_is_new, law_vhea_is_new,
    law_vmtx_is_full,
};
use crate::outline::{outlines, GlyphData};
use crate::sfnt::{checksum, font_tables, get, repaired};
use crate::tables::{rebuilt_gasp, rebuilt_post, Bounds};

verus! {

broadcast use crate::bytes::group_encoded_lengths;

/// `FTFH`.
pub open spec fn ftfh_of(ts: Seq<(u32, Seq<u8>)>) -> Option<Seq<u8>> {
    get(ts, 0x4654_4648)
}

/// `FTFG`.
pub open spec fn ftfg_of(ts: Seq<(u32, Seq<u8>)>) -> Option<Seq<u8>> {
    get(ts, 0x4654_4647)
}

/// The tables without which there is no conversion: `loca`, `hhea`, `hmtx`, `head` and `maxp`.
pub open spec fn needed(i: int) -> u32 {
    if i == 0 {
        0x6C6F_6361
    } else if i == 1 {
        0x6868_6561
    } else if i == 2 {
        0x686D_7478
    } else if i == 3 {
        0x6865_6164
    } else {
        0x6D61_7870
    }
}

/// A file that is no font is refused for its fault. A font without both private tables is only
/// freed of empty tables. One with both is refused for the first needed table that it lacks.
pub proof fn law_fonts_that_are_not_converted(
    raw: Seq<u8>,
    color: bool,
    cs: Option<Seq<char>>,
    i: int,
)
    requires
        0 <= i < 5,
    ensures
        font_tables(raw) matches Err(e) ==> converted(raw, color, cs) == Err::<
            Seq<u8>,
            ConvertError,
        >(e),
        font_tables(raw) matches Ok(ts) && (ftfh_of(ts) is None || ftfg_of(ts) is None)
            ==> converted(raw, color, cs) == repaired(raw),
        font_tables(raw) matches Ok(ts) && ftfh_of(ts) is Some && ftfg_of(ts) is Some && get(
            ts,
            needed(i),
        ) is None && (forall|j: int| 0 <= j < i ==> get(ts, #[trigger] needed(j)) is Some)
            ==> converted(raw, color, cs) == Err::<Seq<u8>, ConvertError>(
            ConvertError::MissingTable(needed(i)),
        ),
{
    if let Ok(ts) = font_tables(raw) {
        if forall|j: int| 0 <= j < i ==> get(ts, #[trigger] needed(j)) is Some {
            assert(i > 0 ==> get(ts, needed(0)) is Some);
            assert(i > 1 ==> get(ts, needed(1)) is Some);
            assert(i > 2 ==> get(ts, needed(2)) is Some);
            assert(i > 3 ==> get(ts, needed(3)) is Some);
        }
    }
}

/// A private header has twelve bytes and version 1.0, and `loca` has a number for each of the
/// glyphs that the header counts. Else the font is refused.
pub proof fn law_faults_of_private_headers(p: Parts<Seq<u8>>)
    ensures
        p.ftfh.len() < 12 ==> font_glyphs(p) == Err::<Seq<Seq<Dot>>, ConvertError>(
            ConvertError::HeaderTruncated,
        ),
        p.ftfh.len() >= 12 && be32(p.ftfh, 0) != 0x1_0000 ==> font_glyphs(p) == Err::<
            Seq<Seq<Dot>>,
            ConvertError,
        >(ConvertError::UnsupportedVersion(be32(p.ftfh, 0) as u32)),
        p.ftfh.len() >= 12 && be32(p.ftfh, 0) == 0x1_0000 && p.loca.len() / 4 < be32(p.ftfh, 4)
            ==> font_glyphs(p) == Err::<Seq<Seq<Dot>>, ConvertError>(
            ConvertError::LocaTooShort {
                entries: (p.loca.len() / 4) as usize,
                glyphs: be32(p.ftfh, 4) as usize,
            },
        ),
{
}

/// The glyph data that the tables of a font tell of: the number of glyphs stands at 4 of the
/// header, the two sizes of coordinates in its byte 11, the greater digit first, and the places of
/// the glyphs in `loca`. Where the last number is missing, it is the length of the data.
pub open spec fn is_told(f: GlyphData, p: Parts<Seq<u8>>) -> bool {
    let n = be32(p.ftfh, 4);
    &&& f.ftfg == p.ftfg
    &&& f.count == n
    &&& 16 * f.mode1 + f.mode2 == p.ftfh[11]
    &&& f.mode2 < 16
    &&& f.loca.len() == n + 1
    &&& forall|i: int|
        0 <= i <= n && 4 * i + 4 <= p.loca.len() ==> #[trigger] f.loca[i] == be32(p.loca, 4 * i)
    &&& p.loca.len() < 4 * n + 4 ==> f.loca[n] == p.ftfg.len()
}

/// The glyphs of a font are those that its glyph data has, each with the points of its records.
pub proof fn law_glyphs_are_those_told(p: Parts<Seq<u8>>, f: GlyphData, g: int)
    requires
        p.ftfh.len() >= 12,
        be32(p.ftfh, 0) == 0x1_0000,
        p.loca.len() / 4 >= be32(p.ftfh, 4),
        is_told(f, p),
        0 <= g < be32(p.ftfh, 4),
    ensures
        outlines(f, Set::empty(), be32(p.ftfh, 4)) matches Err(x) ==> font_glyphs(p) == Err::<
            Seq<Seq<Dot>>,
            ConvertError,
        >(ConvertError::Outline(x.error)),
        outlines(f, Set::empty(), be32(p.ftfh, 4)) matches Ok(out) ==> font_glyphs(p) is Ok
            && font_glyphs(p)->Ok_0.len() == out.len() && (g < out.len() ==> font_glyphs(p)->Ok_0[g]
            == all_dots(out[g], out[g].len() as int)),
{
    let n = be32(p.ftfh, 4);
    let index = glyph_index(p.loca, n, p.ftfg.len() as int);
    let numbers = loca_numbers(p.loca);
    assert(index is Ok);
    let loca = index->Ok_0;
    assert(loca.len() == n + 1);
    assert forall|i: int| 0 <= i <= n implies #[trigger] loca[i] == f.loca[i] by {
        if 4 * i + 4 <= p.loca.len() {
            assert(numbers[i] == be32(p.loca, 4 * i) as usize);
            assert(f.loca[i] == be32(p.loca, 4 * i));
        }
    }
    assert(loca =~= f.loca);
    let b = p.ftfh[11];
    assert(b >> 4 == b / 16 && b & 0x0F == b % 16) by (bit_vector);
    let d = glyph_data(p, loca);
    assert(d.mode1 == f.mode1 && d.mode2 == f.mode2);
    assert(d == f);
}

/// The font after a conversion, read again.
pub open spec fn tables_after(raw: Seq<u8>, color: bool, cs: Option<Seq<char>>) -> Seq<
    (u32, Seq<u8>),
> {
    font_tables(converted(raw, color, cs)->Ok_0)->Ok_0
}

/// The bounds of the glyphs: none for one without points.
pub open spec fn are_bounds(bs: Seq<Bounds>, gs: Seq<Seq<Dot>>) -> bool {
    &&& bs.len() == gs.len()
    &&& forall|i: int|
        0 <= i < gs.len() ==> #[trigger] bs[i] == if gs[i].len() == 0 {
            None
        } else {
            Some(bounds(gs[i]))
        }
}

proof fn lemma_bounds(bs: Seq<Bounds>, gs: Seq<Seq<Dot>>)
    requires
        are_bounds(bs, gs),
    ensures
        bs == all_bounds(gs),
{
    assert forall|i: int| 0 <= i < gs.len() implies bs[i] == #[trigger] all_bounds(gs)[i] by {}
    assert(bs =~= all_bounds(gs));
}

/// In a converted font `hmtx` has a metric for each glyph, and `hhea` and `maxp` agree with the
/// glyphs.
pub proof fn law_converted_metrics(
    raw: Seq<u8>,
    color: bool,
    cs: Option<Seq<char>>,
    ts: Seq<(u32, Seq<u8>)>,
    gs: Seq<Seq<Dot>>,
    bs: Seq<Bounds>,
)
    requires
        converts(raw, color, cs, ts, gs),
        are_bounds(bs, gs),
    ensures
        ({
            let out = tables_after(raw, color, cs);
            let n = gs.len() as int;
            let (hhea, hmtx, maxp) = (
                get(ts, 0x6868_6561)->0,
                get(ts, 0x686D_7478)->0,
                get(ts, 0x6D61_7870)->0,
            );
            &&& get(out, 0x6868_6561) matches Some(t) && is_new_hhea(t, hhea, n)
            &&& get(out, 0x686D_7478) matches Some(t) && is_full_hmtx(t, hmtx, be16(hhea, 34), bs)
            &&& get(out, 0x6D61_7870) matches Some(t) && if maxp.len() >= 32 {
                is_new_maxp(t, maxp, most_points(gs, n), most_contours(gs, n))
            } else {
                t == maxp
            }
        }),
{
    let n = gs.len() as int;
    lemma_bounds(bs, gs);
    let p = parts(ts);
    law_converted_tables_are_read_back(raw, color, cs, ts, gs, 0x6868_6561);
    law_converted_tables_are_read_back(raw, color, cs, ts, gs, 0x686D_7478);
    law_converted_tables_are_read_back(raw, color, cs, ts, gs, 0x6D61_7870);
    assert(regular(ts, n, color, cs));
    law_hhea_is_new(p.hhea, n);
    law_hmtx_is_full(p.hmtx, be16(p.hhea, 34), bs);
    law_maxp_is_new(p.maxp, most_points(gs, n), most_contours(gs, n));
}

/// In a converted font `head` has the bounds of all glyphs together, or zeros where none has
/// points, and the rest as a standard font has it. Only the overall checksum is its own.
pub proof fn law_converted_head(
    raw: Seq<u8>,
    color: bool,
    cs: Option<Seq<char>>,
    ts: Seq<(u32, Seq<u8>)>,
    gs: Seq<Seq<Dot>>,
    bs: Seq<Bounds>,
)
    requires
        converts(raw, color, cs, ts, gs),
        are_bounds(bs, gs),
    ensures
        checksum(converted(raw, color, cs)->Ok_0) == 0xB1B0_AFBA,
        ({
            let out = tables_after(raw, color, cs);
            let old = get(ts, 0x6865_6164)->0;
            let b = match joined_bounds(bs, bs.len() as int) {
                Some(b) => b,
                None => (0, 0, 0, 0),
            };
            get(out, 0x6865_6164) matches Some(t) && t.len() == 54 && exists|h: Seq<u8>|
                is_new_head(h, old, b) && #[trigger] alike_but_for_seal(t, h)
        }),
{
    lemma_bounds(bs, gs);
    law_converted_font_is_sealed(raw, color, cs, ts, gs);
    lemma_sealed_head(raw, color, cs, ts, gs);
    let p = parts(ts);
    let b = whole_bounds(joined_bounds(bs, bs.len() as int));
    assert(regular(ts, gs.len() as int, color, cs));
    law_head_is_new(p.head, b);
    let h = plan(ts, gs, color, cs).head;
    let out = tables_after(raw, color, cs);
    let t = get(out, 0x6865_6164)->0;
    assert(alike_but_for_seal(t, h));
}

/// In a converted font the vertical tables agree with the glyphs, if `vhea` has all its fields.
/// Else they are as they were, and so is `vmtx` where it is empty, which leaves it out.
pub proof fn law_converted_vertical_metrics(
    raw: Seq<u8>,
    color: bool,
    cs: Option<Seq<char>>,
    ts: Seq<(u32, Seq<u8>)>,
    gs: Seq<Seq<Dot>>,
)
    requires
        converts(raw, color, cs, ts, gs),
    ensures
        ({
            let out = tables_after(raw, color, cs);
            let n = gs.len() as int;
            let (old_h, old_m) = (get(ts, 0x7668_6561), get(ts, 0x766D_7478));
            let (new_h, new_m) = (get(out, 0x7668_6561), get(out, 0x766D_7478));
            let whole = old_h is Some && old_h->0.len() >= 36;
            let filled = old_m is Some && old_m->0.len() > 0;
            let count = if be16(old_h->0, 34) < n {
                be16(old_h->0, 34)
            } else {
                n
            };
            &&& old_h is None ==> new_h is None
            &&& old_m is None ==> new_m is None
            &&& whole ==> new_h is Some && is_new_vhea(new_h->0, old_h->0, filled, n)
            &&& whole && filled ==> new_m is Some && is_full_vmtx(new_m->0, old_m->0, count, n)
            &&& old_h is Some && 0 < old_h->0.len() < 36 ==> new_h == old_h
            &&& old_h is Some && old_h->0.len() == 0 ==> new_h is None
            &&& !whole && filled ==> new_m == old_m
            &&& old_m is Some && old_m->0.len() == 0 ==> new_m is None
        }),
{
    let n = gs.len() as int;
    law_converted_tables_are_read_back(raw, color, cs, ts, gs, 0x7668_6561);
    law_converted_tables_are_read_back(raw, color, cs, ts, gs, 0x766D_7478);
    let (old_h, old_m) = (get(ts, 0x7668_6561), get(ts, 0x766D_7478));
    if old_h is Some && old_h->0.len() >= 36 {
        let filled = old_m is Some && old_m->0.len() > 0;
        law_vhea_is_new(old_h->0, filled, n);
        if filled {
            law_vmtx_is_full(old_m->0, crate::tables::vertical_count(old_h->0, n), n);
        }
    }
}

/// A table of the font for which the conversion has a rule, or that only a private font has.
pub open spec fn has_rule(tag: u32) -> bool {
    ||| tag == 0x4654_4648
    ||| tag == 0x4654_4647
    ||| tag == 0x676C_7966
    ||| tag == 0x6C6F_6361
    ||| tag == 0x686D_7478
    ||| tag == 0x6868_6561
    ||| tag == 0x6865_6164
    ||| tag == 0x6D61_7870
    ||| tag == 0x636D_6170
    ||| tag == 0x6761_7370
    ||| tag == 0x7668_6561
    ||| tag == 0x766D_7478
    ||| tag == 0x706F_7374
}

/// A table that a coloured font has no use for: `brsh`, `cglf`, `eimg`, `scen`, `asst`, `smap`,
/// `fpid`, `ganm`, `vgrp`, `vsty`, `csty`, `assy` or `sgrp`.
pub open spec fn goes_with_colour(tag: u32) -> bool {
    ||| tag == 0x6272_7368
    ||| tag == 0x6367_6C66
    ||| tag == 0x6569_6D67
    ||| tag == 0x7363_656E
    ||| tag == 0x6173_7374
    ||| tag == 0x736D_6170
    ||| tag == 0x6670_6964
    ||| tag == 0x6761_6E6D
    ||| tag == 0x7667_7270
    ||| tag == 0x7673_7479
    ||| tag == 0x6373_7479
    ||| tag == 0x6173_7379
    ||| tag == 0x7367_7270
}

/// What becomes of the other tables: `cmap`, `gasp` and `post` are rebuilt, the private glyph data
/// is gone, and so are the private tables where the font gets colour. `COLR` and `CPAL` give way to
/// new ones. Everything else is as it was, without empty tables.
pub proof fn law_other_tables_are_kept(
    raw: Seq<u8>,
    color: bool,
    cs: Option<Seq<char>>,
    ts: Seq<(u32, Seq<u8>)>,
    gs: Seq<Seq<Dot>>,
    tag: u32,
)
    requires
        converts(raw, color, cs, ts, gs),
    ensures
        ({
            let out = tables_after(raw, color, cs);
            let colored = plan(ts, gs, color, cs).color;
            let (old, new) = (get(ts, tag), get(out, tag));
            let filled = old is Some && old->0.len() > 0;
            &&& !color ==> colored is None
            &&& tag == 0x4654_4648 || tag == 0x4654_4647 ==> new is None
            &&& tag == 0x636D_6170 ==> new == match old {
                Some(t) => Some(rebuilt_cmap(t)),
                None => None,
            }
            &&& tag == 0x6761_7370 && filled ==> new == Some(rebuilt_gasp(old->0))
            &&& tag == 0x706F_7374 && filled ==> new == Some(rebuilt_post(old->0))
            &&& (tag == 0x6761_7370 || tag == 0x706F_7374) && !filled ==> new is None
            &&& colored is Some && goes_with_colour(tag) ==> new is None
            &&& colored is Some && tag == 0x434F_4C52 ==> new == Some((colored->0).0)
            &&& colored is Some && tag == 0x4350_414C ==> new == Some((colored->0).1)
            &&& !has_rule(tag) && (colored is None || !goes_with_colour(tag) && tag != 0x434F_4C52
                && tag != 0x4350_414C) ==> new == if filled {
                old
            } else {
                None
            }
        }),
{
    if tag != 0x6865_6164 {
        law_converted_tables_are_read_back(raw, color, cs, ts, gs, tag);
    }
    assert(rebuilt_gasp(Seq::<u8>::empty()).len() == 0);
    crate::laws::tables::law_gasp_is_new(get(ts, tag)->0);
    crate::laws::tables::law_post_is_new(get(ts, tag)->0);
}

proof fn lemma_char_glyphs(cmap: Seq<u8>, cs: Seq<char>, k: int, g: u16)
    requires
        0 <= k <= cs.len(),
    ensures
        char_glyphs(cmap, cs, k).contains(g) <==> exists|i: int|
            0 <= i < k && lookup(cmap, #[trigger] cs[i] as int) == Lookup::Glyph(g),
    decreases k,
{
    if k > 0 {
        lemma_char_glyphs(cmap, cs, k - 1, g);
        let before = char_glyphs(cmap, cs, k - 1);
        if let Lookup::Glyph(h) = lookup(cmap, cs[k - 1] as int) {
            let all = before.push(h);
            if before.contains(g) {
                let i = before.index_of(g);
                assert(all[i] == g);
            }
            if h == g {
                assert(all[before.len() as int] == g);
                assert(lookup(cmap, cs[k - 1] as int) == Lookup::Glyph(g));
            }
            if all.contains(g) {
                let i = all.index_of(g);
                if i < before.len() {
                    assert(before[i] == g);
                }
            }
        }
    }
}

/// The glyphs that are to have colour in any case are those that `cmap` gives the characters.
pub proof fn law_characters_force_their_glyphs(
    ts: Seq<(u32, Seq<u8>)>,
    cs: Option<Seq<char>>,
    g: u16,
)
    ensures
        forced_glyphs(ts, cs).contains(g) <==> cs is Some && get(ts, 0x636D_6170) is Some
            && exists|i: int|
            0 <= i < cs->0.len() && lookup(get(ts, 0x636D_6170)->0, #[trigger] (cs->0)[i] as int)
                == Lookup::Glyph(g),
{
    if let (Some(chars), Some(cmap)) = (cs, get(ts, 0x636D_6170)) {
        lemma_char_glyphs(cmap, chars, chars.len() as int, g);
    }
}

/// The colour tables come of the paints in `brsh`, of what `cglf` chooses, of the bounds of the
/// glyphs and of the glyphs that are to have colour in any case.
pub proof fn law_colour_comes_of_private_tables(
    ts: Seq<(u32, Seq<u8>)>,
    gs: Seq<Seq<Dot>>,
    cs: Option<Seq<char>>,
    bs: Seq<Bounds>,
)
    requires
        are_bounds(bs, gs),
    ensures
        ({
            let n = gs.len() as int;
            let is = match get(ts, 0x6272_7368) {
                Some(t) => table_brushes(t),
                None => Seq::empty(),
            };
            let map = match get(ts, 0x6367_6C66) {
                Some(t) => table_glyph_brushes(t, n),
                None => None,
            };
            plan(ts, gs, true, cs).color == color_tables(is, map, bs, n, forced_glyphs(ts, cs))
        }),
{
    lemma_bounds(bs, gs);
}

/// A font with private glyph data that can be read can be converted if and only if `hhea` has 36
/// bytes and `head` 54, `hmtx` has the metrics that the glyphs use and one at least where some
/// glyph has none of its own, `cmap` can be read and, with colour, no character lies in a segment
/// that is cut off.
pub proof fn law_fields_that_are_read(
    raw: Seq<u8>,
    color: bool,
    cs: Option<Seq<char>>,
    ts: Seq<(u32, Seq<u8>)>,
    gs: Seq<Seq<Dot>>,
)
    requires
        font_tables(raw) == Ok::<Seq<(u32, Seq<u8>)>, ConvertError>(ts),
        ftfh_of(ts) is Some,
        ftfg_of(ts) is Some,
        forall|i: int| 0 <= i < 5 ==> get(ts, #[trigger] needed(i)) is Some,
        font_glyphs(parts(ts)) == Ok::<Seq<Seq<Dot>>, ConvertError>(gs),
    ensures
        convertible(raw, color, cs) <==> {
            let n = gs.len() as int;
            let hhea = get(ts, needed(1))->0;
            let room = get(ts, needed(2))->0.len() as int / 4;
            let full = be16(hhea, 34);
            &&& hhea.len() >= 36
            &&& get(ts, needed(3))->0.len() >= 54
            &&& n <= full ==> n <= room
            &&& n > full ==> 1 <= full <= room
            &&& get(ts, 0x636D_6170) matches Some(cmap) ==> {
                &&& readable_cmap(cmap)
                &&& color && cs is Some ==> forall|i: int|
                    0 <= i < cs->0.len() ==> lookup(cmap, #[trigger] (cs->0)[i] as int)
                        != Lookup::Overrun
            }
        },
{
    assert(get(ts, needed(0)) is Some && get(ts, needed(1)) is Some && get(ts, needed(2)) is Some
        && get(ts, needed(3)) is Some && get(ts, needed(4)) is Some);
}

} // verus!
