//! The conversion of a font.

use std::collections::BTreeMap;
use vstd::prelude::*;
use vstd::slice::slice_to_vec;
use crate::bytes::{
    append, be16, be32, enc32, get16, get32, push_len32, same_bytes,
};
use crate::cmap::{
    cmap_lookup, lookup, readable_cmap, rebuild_cmap_table, rebuilt_cmap, Lookup,
};
use crate::color::{
    build_color_tables, color_tables, inks, map_view, parse_brsh, parse_cglf_brush, table_brushes,
    table_glyph_brushes, Ink, Paint,
};
use crate::error::ConvertError;
use crate::glyf::{all_dots, bounds, encode_simple_glyph, ends, glyph_bytes, Dot};
use crate::outline::{
    all_covered, glyph_views, outlines, views, FtfParser, GlyphData, Rec, SubRecord,
};
use crate::sfnt::{
    assemble, assembled, bytes_listed, contents, fix_normal_ttf, font_tables, get, get_table,
    lemma_listed_empty, list_tables, put, put_table, read_tables, repaired,
};
use crate::tables::{
    covers_metrics, rebuild_gasp, rebuild_head, rebuild_hhea, rebuild_hmtx, rebuild_maxp,
    rebuild_post, rebuild_vhea, rebuild_vmtx_table, rebuilt_gasp, rebuilt_head, rebuilt_hhea,
    rebuilt_hmtx, rebuilt_maxp, rebuilt_post, rebuilt_vhea, rebuilt_vmtx, vertical_count, Bounds,
};
use crate::tags::{
    is_private, is_private_color_table, BRSH, CGLF, CMAP, COLR, CPAL, FTFG, FTFH, GASP, GLYF, HEAD,
    HHEA, HMTX, LOCA, MAXP, POST, VHEA, VMTX,
};

verus! {

broadcast use crate::bytes::group_encoded_lengths;

/// The tables that the conversion needs.
pub struct Parts<T> {
    pub ftfh: T,
    pub ftfg: T,
    pub loca: T,
    pub hhea: T,
    pub hmtx: T,
    pub head: T,
    pub maxp: T,
}

/// The font has the two private tables.
pub open spec fn is_ftf(ts: Seq<(u32, Seq<u8>)>) -> bool {
    get(ts, FTFH) is Some && get(ts, FTFG) is Some
}

/// The first of the tables that is missing.
pub open spec fn missing(ts: Seq<(u32, Seq<u8>)>) -> Option<u32> {
    if get(ts, LOCA) is None {
        Some(LOCA)
    } else if get(ts, HHEA) is None {
        Some(HHEA)
    } else if get(ts, HMTX) is None {
        Some(HMTX)
    } else if get(ts, HEAD) is None {
        Some(HEAD)
    } else if get(ts, MAXP) is None {
        Some(MAXP)
    } else {
        None
    }
}

/// The tables that the conversion needs, of a font that has them.
pub open spec fn parts(ts: Seq<(u32, Seq<u8>)>) -> Parts<Seq<u8>> {
    Parts {
        ftfh: get(ts, FTFH)->0,
        ftfg: get(ts, FTFG)->0,
        loca: get(ts, LOCA)->0,
        hhea: get(ts, HHEA)->0,
        hmtx: get(ts, HMTX)->0,
        head: get(ts, HEAD)->0,
        maxp: get(ts, MAXP)->0,
    }
}

/// The number of glyphs that the private header gives.
pub open spec fn glyph_count(ftfh: Seq<u8>) -> int {
    be32(ftfh, 4)
}

/// The fault in a private header.
pub open spec fn header_error(ftfh: Seq<u8>) -> Option<ConvertError> {
    if ftfh.len() < 12 {
        Some(ConvertError::HeaderTruncated)
    } else if be32(ftfh, 0) != 0x1_0000 {
        Some(ConvertError::UnsupportedVersion(be32(ftfh, 0) as u32))
    } else {
        None
    }
}

/// The numbers in a `loca` table.
pub open spec fn loca_numbers(loca: Seq<u8>) -> Seq<usize> {
    Seq::new((loca.len() as int / 4) as nat, |i: int| be32(loca, 4 * i) as usize)
}

/// Where the glyphs begin, and where the last one ends. Where the last number is missing, the glyph
/// data ends there; where there are too many, the rest is left out.
pub open spec fn glyph_index(loca: Seq<u8>, n: int, end: int) -> Result<Seq<usize>, ConvertError> {
    let numbers = loca_numbers(loca);
    if numbers.len() == n {
        Ok(numbers.push(end as usize))
    } else if numbers.len() > n + 1 {
        Ok(numbers.take(n + 1))
    } else if numbers.len() < n {
        Err(ConvertError::LocaTooShort { entries: numbers.len() as usize, glyphs: n as usize })
    } else {
        Ok(numbers)
    }
}

/// The glyph data with an index.
pub open spec fn glyph_data(p: Parts<Seq<u8>>, loca: Seq<usize>) -> GlyphData {
    GlyphData {
        ftfg: p.ftfg,
        loca,
        count: glyph_count(p.ftfh) as nat,
        mode1: p.ftfh[11] >> 4,
        mode2: p.ftfh[11] & 0x0F,
    }
}

/// The points of glyphs.
pub open spec fn glyph_dots(glyphs: Seq<Seq<Rec>>) -> Seq<Seq<Dot>> {
    glyphs.map_values(|recs: Seq<Rec>| all_dots(recs, recs.len() as int))
}

/// The points of the glyphs of a font, or the fault that keeps them from being read.
pub open spec fn font_glyphs(p: Parts<Seq<u8>>) -> Result<Seq<Seq<Dot>>, ConvertError> {
    match header_error(p.ftfh) {
        Some(e) => Err(e),
        None => match glyph_index(p.loca, glyph_count(p.ftfh), p.ftfg.len() as int) {
            Err(e) => Err(e),
            Ok(loca) => match outlines(glyph_data(p, loca), Set::empty(), glyph_count(p.ftfh)) {
                Err(x) => Err(ConvertError::Outline(x.error)),
                Ok(glyphs) => Ok(glyph_dots(glyphs)),
            },
        },
    }
}

/// The first `k` glyphs of a `glyf` table.
pub open spec fn glyf_table(gs: Seq<Seq<Dot>>, k: int) -> Seq<u8>
    decreases k,
{
    if k <= 0 {
        Seq::empty()
    } else {
        glyf_table(gs, k - 1) + glyph_bytes(gs[k - 1])
    }
}

/// Where the first `k` glyphs begin in the `glyf` table.
pub open spec fn glyph_starts(gs: Seq<Seq<Dot>>, k: int) -> Seq<u8>
    decreases k,
{
    if k <= 0 {
        Seq::empty()
    } else {
        glyph_starts(gs, k - 1) + enc32(glyf_table(gs, k - 1).len() as int)
    }
}

/// A `loca` table: where the glyphs begin, and where the last one ends.
pub open spec fn loca_table(gs: Seq<Seq<Dot>>) -> Seq<u8> {
    glyph_starts(gs, gs.len() as int) + enc32(glyf_table(gs, gs.len() as int).len() as int)
}

/// The most points that one of the first `k` glyphs has.
pub open spec fn most_points(gs: Seq<Seq<Dot>>, k: int) -> int
    decreases k,
{
    if k <= 0 {
        0
    } else {
        let n = gs[k - 1].len() as int;
        if n > most_points(gs, k - 1) {
            n
        } else {
            most_points(gs, k - 1)
        }
    }
}

/// The most contours that one of the first `k` glyphs has.
pub open spec fn most_contours(gs: Seq<Seq<Dot>>, k: int) -> int
    decreases k,
{
    if k <= 0 {
        0
    } else {
        let n = ends(gs[k - 1], gs[k - 1].len() as int).len() as int;
        if n > most_contours(gs, k - 1) {
            n
        } else {
            most_contours(gs, k - 1)
        }
    }
}

/// The bounds of a glyph.
pub open spec fn glyph_bounds(ds: Seq<Dot>) -> Bounds {
    if ds.len() == 0 {
        None
    } else {
        Some(bounds(ds))
    }
}

/// The bounds of the glyphs.
pub open spec fn all_bounds(gs: Seq<Seq<Dot>>) -> Seq<Bounds> {
    gs.map_values(|ds: Seq<Dot>| glyph_bounds(ds))
}

/// The smaller of two numbers.
pub open spec fn min16(a: i16, b: i16) -> i16 {
    if b < a {
        b
    } else {
        a
    }
}

/// The greater of two numbers.
pub open spec fn max16(a: i16, b: i16) -> i16 {
    if b > a {
        b
    } else {
        a
    }
}

/// The bounds of two glyphs together.
pub open spec fn joined(a: Bounds, b: Bounds) -> Bounds {
    match (a, b) {
        (None, _) => b,
        (_, None) => a,
        (Some(a), Some(b)) => Some(
            (min16(a.0, b.0), min16(a.1, b.1), max16(a.2, b.2), max16(a.3, b.3)),
        ),
    }
}

/// The bounds of the first `k` glyphs together.
pub open spec fn joined_bounds(bs: Seq<Bounds>, k: int) -> Bounds
    decreases k,
{
    if k <= 0 {
        None
    } else {
        joined(joined_bounds(bs, k - 1), bs[k - 1])
    }
}

/// The tables that the conversion needs.
fn find_parts<'a>(ts: &BTreeMap<u32, &'a [u8]>, ftfh: &'a [u8], ftfg: &'a [u8]) -> (r: Result<
    Parts<&'a [u8]>,
    ConvertError,
>)
    requires
        get(contents(ts@), FTFH) == Some(ftfh@),
        get(contents(ts@), FTFG) == Some(ftfg@),
    ensures
        match r {
            Ok(p) => missing(contents(ts@)) is None && p.bytes() == parts(contents(ts@)),
            Err(ConvertError::MissingTable(tag)) => missing(contents(ts@)) == Some(tag),
            Err(_e) => false,
        },
{
    let loca = match get_table(ts, LOCA) {
        None => return Err(ConvertError::MissingTable(LOCA)),
        Some(data) => data,
    };
    let hhea = match get_table(ts, HHEA) {
        None => return Err(ConvertError::MissingTable(HHEA)),
        Some(data) => data,
    };
    let hmtx = match get_table(ts, HMTX) {
        None => return Err(ConvertError::MissingTable(HMTX)),
        Some(data) => data,
    };
    let head = match get_table(ts, HEAD) {
        None => return Err(ConvertError::MissingTable(HEAD)),
        Some(data) => data,
    };
    let maxp = match get_table(ts, MAXP) {
        None => return Err(ConvertError::MissingTable(MAXP)),
        Some(data) => data,
    };
    Ok(Parts { ftfh, ftfg, loca, hhea, hmtx, head, maxp })
}

impl<'a> Parts<&'a [u8]> {
    /// The bytes of the tables.
    pub open spec fn bytes(self) -> Parts<Seq<u8>> {
        Parts {
            ftfh: self.ftfh@,
            ftfg: self.ftfg@,
            loca: self.loca@,
            hhea: self.hhea@,
            hmtx: self.hmtx@,
            head: self.head@,
            maxp: self.maxp@,
        }
    }
}

/// Reads the index of the glyphs.
fn read_index(loca: &[u8], n: usize, end: usize) -> (r: Result<Vec<usize>, ConvertError>)
    ensures
        match r {
            Ok(v) => glyph_index(loca@, n as int, end as int) == Ok::<Seq<usize>, ConvertError>(v@)
                && v@.len() == n + 1 && 4 * n <= loca.len(),
            Err(e) => glyph_index(loca@, n as int, end as int) == Err::<Seq<usize>, ConvertError>(
                e,
            ),
        },
{
    let count: usize = loca.len() / 4;
    let mut v: Vec<usize> = Vec::new();
    let mut i: usize = 0;
    while i < count
        invariant
            i <= count,
            count == loca.len() as int / 4,
            v@ =~= loca_numbers(loca@).take(i as int),
        decreases count - i,
    {
        v.push(get32(loca, 4 * i) as usize);
        i += 1;
    }
    assert(v@ =~= loca_numbers(loca@));
    if count == n {
        v.push(end);
    } else if count < n {
        return Err(ConvertError::LocaTooShort { entries: count, glyphs: n });
    } else {
        v.truncate(n + 1);
    }
    Ok(v)
}

/// Reads the glyphs of a font.
fn read_glyphs(p: &Parts<&[u8]>) -> (r: Result<Vec<Vec<SubRecord>>, ConvertError>)
    ensures
        match r {
            Ok(glyphs) => {
                &&& font_glyphs(p.bytes()) == Ok::<Seq<Seq<Dot>>, ConvertError>(
                    glyph_dots(glyph_views(glyphs@)),
                )
                &&& glyphs@.len() == glyph_count(p.ftfh@)
                &&& 4 * glyphs@.len() <= p.loca.len()
                &&& p.ftfh@.len() >= 12
                &&& forall|i: int|
                    0 <= i < glyphs@.len() ==> all_covered(#[trigger] glyph_views(glyphs@)[i])
            },
            Err(e) => font_glyphs(p.bytes()) == Err::<Seq<Seq<Dot>>, ConvertError>(e),
        },
{
    if p.ftfh.len() < 12 {
        return Err(ConvertError::HeaderTruncated);
    }
    let version = get32(p.ftfh, 0);
    if version != 0x1_0000 {
        return Err(ConvertError::UnsupportedVersion(version));
    }
    let n = get32(p.ftfh, 4) as usize;
    let modes = p.ftfh[11];
    let index = match read_index(p.loca, n, p.ftfg.len()) {
        Err(e) => return Err(e),
        Ok(v) => v,
    };
    let mut parser = FtfParser::new(p.ftfg, index, n, modes >> 4, modes & 0x0F);
    let ghost f = parser.data();
    match parser.parse_all(n) {
        Err(e) => Err(ConvertError::Outline(e)),
        Ok(glyphs) => {
            proof {
                lemma_outlines_len(f, Set::empty(), n as int);
            }
            Ok(glyphs)
        },
    }
}

proof fn lemma_outlines_len(f: GlyphData, open: Set<int>, n: int)
    requires
        n >= 0,
    ensures
        outlines(f, open, n) matches Ok(glyphs) ==> glyphs.len() == n,
    decreases n,
{
    if n > 0 {
        lemma_outlines_len(f, open, n - 1);
    }
}

/// The glyphs as the tables of the output hold them.
pub struct Encoded {
    pub glyf: Vec<u8>,
    pub loca: Vec<u8>,
    pub points: usize,
    pub contours: usize,
    pub boxes: Vec<Bounds>,
    pub whole: Bounds,
}

impl Encoded {
    /// These are the glyphs with the points `gs`.
    pub open spec fn encodes(self, gs: Seq<Seq<Dot>>) -> bool {
        let n = gs.len() as int;
        &&& self.glyf@ == glyf_table(gs, n)
        &&& self.loca@ == loca_table(gs)
        &&& self.points == most_points(gs, n)
        &&& self.contours == most_contours(gs, n)
        &&& self.boxes@ == all_bounds(gs)
        &&& self.whole == joined_bounds(all_bounds(gs), n)
    }
}

/// The bounds of two glyphs together.
fn join(a: Bounds, b: Bounds) -> (r: Bounds)
    ensures
        r == joined(a, b),
{
    match (a, b) {
        (None, _) => b,
        (_, None) => a,
        (Some(a), Some(b)) => Some(
            (
                if b.0 < a.0 {
                    b.0
                } else {
                    a.0
                },
                if b.1 < a.1 {
                    b.1
                } else {
                    a.1
                },
                if b.2 > a.2 {
                    b.2
                } else {
                    a.2
                },
                if b.3 > a.3 {
                    b.3
                } else {
                    a.3
                },
            ),
        ),
    }
}

/// Encodes the glyphs of a font.
fn encode_glyphs(glyphs: &Vec<Vec<SubRecord>>) -> (r: Encoded)
    requires
        forall|i: int| 0 <= i < glyphs@.len() ==> all_covered(#[trigger] glyph_views(glyphs@)[i]),
    ensures
        r.encodes(glyph_dots(glyph_views(glyphs@))),
{
    let ghost gs = glyph_dots(glyph_views(glyphs@));
    let ghost bs = all_bounds(gs);
    let n: usize = glyphs.len();
    let mut glyf: Vec<u8> = Vec::new();
    let mut loca: Vec<u8> = Vec::new();
    let mut points: usize = 0;
    let mut contours: usize = 0;
    let mut boxes: Vec<Bounds> = Vec::new();
    let mut whole: Bounds = None;
    let mut i: usize = 0;
    while i < n
        invariant
            i <= n,
            n == glyphs@.len(),
            gs == glyph_dots(glyph_views(glyphs@)),
            bs == all_bounds(gs),
            forall|j: int|
                0 <= j < glyphs@.len() ==> all_covered(#[trigger] glyph_views(glyphs@)[j]),
            glyf@ == glyf_table(gs, i as int),
            loca@ == glyph_starts(gs, i as int),
            points == most_points(gs, i as int),
            contours == most_contours(gs, i as int),
            boxes@ =~= bs.take(i as int),
            whole == joined_bounds(bs, i as int),
        decreases n - i,
    {
        let ghost recs = glyph_views(glyphs@)[i as int];
        assert(recs == views(glyphs@[i as int]@));
        let ghost ds = gs[i as int];
        assert(ds == all_dots(recs, recs.len() as int));
        assert(bs[i as int] == glyph_bounds(ds));
        push_len32(&mut loca, glyf.len());
        let g = encode_simple_glyph(&glyphs[i]);
        if g.pts_count > points {
            points = g.pts_count;
        }
        if g.contours_count > contours {
            contours = g.contours_count;
        }
        whole = join(whole, g.bbox);
        boxes.push(g.bbox);
        append(&mut glyf, g.data.as_slice());
        i += 1;
    }
    push_len32(&mut loca, glyf.len());
    assert(boxes@ =~= bs);
    Encoded { glyf, loca, points, contours, boxes, whole }
}

/// What the caller can ask for.
#[derive(Debug, Clone)]
pub struct ConvertOptions {
    /// Colour: `COLR` and `CPAL` tables in place of the private tables.
    pub color: bool,
    /// Characters that are to have colour in any case.
    pub color_chars: Option<Vec<char>>,
}

impl Default for ConvertOptions {
    fn default() -> (r: ConvertOptions)
        ensures
            !r.color,
            r.color_chars is None,
    {
        ConvertOptions { color: false, color_chars: None }
    }
}

impl ConvertOptions {
    /// The characters that are to have colour in any case.
    pub open spec fn chars(self) -> Option<Seq<char>> {
        match self.color_chars {
            Some(cs) => Some(cs@),
            None => None,
        }
    }
}

/// The glyphs of the first `k` characters that have one.
pub open spec fn char_glyphs(cmap: Seq<u8>, cs: Seq<char>, k: int) -> Seq<u16>
    decreases k,
{
    if k <= 0 {
        Seq::empty()
    } else {
        match lookup(cmap, cs[k - 1] as int) {
            Lookup::Glyph(g) => char_glyphs(cmap, cs, k - 1).push(g),
            _ => char_glyphs(cmap, cs, k - 1),
        }
    }
}

/// The glyphs that are to have colour in any case.
pub open spec fn forced_glyphs(ts: Seq<(u32, Seq<u8>)>, cs: Option<Seq<char>>) -> Seq<u16> {
    match (cs, get(ts, CMAP)) {
        (Some(cs), Some(cmap)) => char_glyphs(cmap, cs, cs.len() as int),
        _ => Seq::empty(),
    }
}

/// The paints of a font.
pub open spec fn font_inks(ts: Seq<(u32, Seq<u8>)>) -> Seq<Ink> {
    match get(ts, BRSH) {
        Some(blob) => table_brushes(blob),
        None => Seq::empty(),
    }
}

/// The paints that a font chooses for its glyphs.
pub open spec fn font_brushes(ts: Seq<(u32, Seq<u8>)>, n: int) -> Option<Seq<Option<u8>>> {
    match get(ts, CGLF) {
        Some(blob) => table_glyph_brushes(blob, n),
        None => None,
    }
}

/// The colour tables of a font whose glyphs have the bounds `bs`.
pub open spec fn font_colors(
    ts: Seq<(u32, Seq<u8>)>,
    cs: Option<Seq<char>>,
    bs: Seq<Bounds>,
) -> Option<(Seq<u8>, Seq<u8>)> {
    let n = bs.len() as int;
    color_tables(font_inks(ts), font_brushes(ts, n), bs, n, forced_glyphs(ts, cs))
}

/// The tables that come of the glyphs.
pub struct Plan<T> {
    pub glyf: T,
    pub loca: T,
    pub hmtx: T,
    pub hhea: T,
    pub head: T,
    pub maxp: T,
    pub cmap: Option<T>,
    pub vhea: Option<T>,
    pub vmtx: Option<T>,
    pub color: Option<(T, T)>,
}

/// The `vhea` table has all its fields.
pub open spec fn has_vhea(ts: Seq<(u32, Seq<u8>)>) -> bool {
    match get(ts, VHEA) {
        Some(vhea) => vhea.len() >= 36,
        None => false,
    }
}

/// There is a `vmtx` table, and it is not empty.
pub open spec fn has_vmtx(ts: Seq<(u32, Seq<u8>)>) -> bool {
    match get(ts, VMTX) {
        Some(vmtx) => vmtx.len() > 0,
        None => false,
    }
}

/// The new `cmap` table.
pub open spec fn planned_cmap(ts: Seq<(u32, Seq<u8>)>) -> Option<Seq<u8>> {
    match get(ts, CMAP) {
        Some(cmap) => Some(rebuilt_cmap(cmap)),
        None => None,
    }
}

/// The new `vhea` table.
pub open spec fn planned_vhea(ts: Seq<(u32, Seq<u8>)>, n: int) -> Option<Seq<u8>> {
    if has_vhea(ts) {
        Some(rebuilt_vhea(get(ts, VHEA)->0, has_vmtx(ts), n))
    } else {
        None
    }
}

/// The new `vmtx` table.
pub open spec fn planned_vmtx(ts: Seq<(u32, Seq<u8>)>, n: int) -> Option<Seq<u8>> {
    if has_vhea(ts) && has_vmtx(ts) {
        Some(rebuilt_vmtx(get(ts, VMTX)->0, vertical_count(get(ts, VHEA)->0, n), n))
    } else {
        None
    }
}

/// The bounds of all glyphs, zeros where none has points.
pub open spec fn whole_bounds(b: Bounds) -> (i16, i16, i16, i16) {
    match b {
        Some(b) => b,
        None => (0, 0, 0, 0),
    }
}

/// The tables that come of the glyphs with the points `gs`.
pub open spec fn plan(
    ts: Seq<(u32, Seq<u8>)>,
    gs: Seq<Seq<Dot>>,
    color: bool,
    cs: Option<Seq<char>>,
) -> Plan<Seq<u8>> {
    let p = parts(ts);
    let n = gs.len() as int;
    let bs = all_bounds(gs);
    Plan {
        glyf: glyf_table(gs, n),
        loca: loca_table(gs),
        hmtx: rebuilt_hmtx(p.hmtx, be16(p.hhea, 34), bs),
        hhea: rebuilt_hhea(p.hhea, n),
        head: rebuilt_head(p.head, whole_bounds(joined_bounds(bs, n))),
        maxp: rebuilt_maxp(p.maxp, most_points(gs, n), most_contours(gs, n)),
        cmap: planned_cmap(ts),
        vhea: planned_vhea(ts, n),
        vmtx: planned_vmtx(ts, n),
        color: if color {
            font_colors(ts, cs, bs)
        } else {
            None
        },
    }
}

/// A table, if it is not empty.
pub open spec fn if_any(data: Seq<u8>) -> Option<Seq<u8>> {
    if data.len() > 0 {
        Some(data)
    } else {
        None
    }
}

/// A new table, or the old one if it is not empty.
pub open spec fn or_else(new: Option<Seq<u8>>, data: Seq<u8>) -> Option<Seq<u8>> {
    match new {
        Some(v) => Some(v),
        None => if_any(data),
    }
}

/// What becomes of a table; `None` where it is left out.
pub open spec fn planned(plan: Plan<Seq<u8>>, tag: u32, data: Seq<u8>) -> Option<Seq<u8>> {
    if tag == FTFG || tag == FTFH || tag == GLYF || tag == LOCA {
        None
    } else if plan.color is Some && is_private(tag) {
        None
    } else if tag == HMTX {
        Some(plan.hmtx)
    } else if tag == HHEA {
        Some(plan.hhea)
    } else if tag == HEAD {
        Some(plan.head)
    } else if tag == MAXP {
        Some(plan.maxp)
    } else if tag == CMAP {
        plan.cmap
    } else if tag == GASP {
        if_any(rebuilt_gasp(data))
    } else if tag == VHEA {
        or_else(plan.vhea, data)
    } else if tag == VMTX {
        or_else(plan.vmtx, data)
    } else if tag == POST {
        if_any(rebuilt_post(data))
    } else {
        if_any(data)
    }
}

/// What becomes of the first `k` tables.
pub open spec fn planned_tables(
    plan: Plan<Seq<u8>>,
    ts: Seq<(u32, Seq<u8>)>,
    k: int,
) -> Seq<(u32, Seq<u8>)>
    decreases k,
{
    if k <= 0 {
        Seq::empty()
    } else {
        match planned(plan, ts[k - 1].0, ts[k - 1].1) {
            Some(data) => put(planned_tables(plan, ts, k - 1), ts[k - 1].0, data),
            None => planned_tables(plan, ts, k - 1),
        }
    }
}

/// The tables of the output.
pub open spec fn output_tables(plan: Plan<Seq<u8>>, ts: Seq<(u32, Seq<u8>)>) -> Seq<
    (u32, Seq<u8>),
> {
    let out = planned_tables(plan, ts, ts.len() as int);
    let out = put(out, GLYF, plan.glyf);
    let out = put(out, LOCA, plan.loca);
    match plan.color {
        Some((colr, cpal)) => put(put(out, COLR, colr), CPAL, cpal),
        None => out,
    }
}

/// No character that is to have colour in any case lies in a segment that is cut off.
pub open spec fn chars_readable(ts: Seq<(u32, Seq<u8>)>, cs: Option<Seq<char>>) -> bool {
    match (cs, get(ts, CMAP)) {
        (Some(cs), Some(cmap)) => forall|i: int|
            0 <= i < cs.len() ==> !(lookup(cmap, #[trigger] cs[i] as int) is Overrun),
        _ => true,
    }
}

/// The tables have the fields that the conversion of `n` glyphs reads.
pub open spec fn regular(
    ts: Seq<(u32, Seq<u8>)>,
    n: int,
    color: bool,
    cs: Option<Seq<char>>,
) -> bool {
    let p = parts(ts);
    &&& p.hhea.len() >= 36
    &&& covers_metrics(p.hmtx, be16(p.hhea, 34), n)
    &&& p.head.len() >= 54
    &&& get(ts, CMAP) matches Some(cmap) ==> readable_cmap(cmap)
    &&& color ==> chars_readable(ts, cs)
}

/// What comes of a font with private glyph data.
pub open spec fn converted_ftf(
    ts: Seq<(u32, Seq<u8>)>,
    color: bool,
    cs: Option<Seq<char>>,
) -> Result<Seq<u8>, ConvertError> {
    match missing(ts) {
        Some(tag) => Err(ConvertError::MissingTable(tag)),
        None => match font_glyphs(parts(ts)) {
            Err(e) => Err(e),
            Ok(gs) => Ok(assembled(output_tables(plan(ts, gs, color, cs), ts))),
        },
    }
}

/// What comes of a font: a standard font, or why there is none.
pub open spec fn converted(raw: Seq<u8>, color: bool, cs: Option<Seq<char>>) -> Result<
    Seq<u8>,
    ConvertError,
> {
    match font_tables(raw) {
        Err(e) => Err(e),
        Ok(ts) => if is_ftf(ts) {
            converted_ftf(ts, color, cs)
        } else {
            repaired(raw)
        },
    }
}

/// A font whose glyphs can be read has the fields that the conversion reads besides.
pub open spec fn convertible(raw: Seq<u8>, color: bool, cs: Option<Seq<char>>) -> bool {
    match font_tables(raw) {
        Err(_) => true,
        Ok(ts) => is_ftf(ts) && missing(ts) is None ==> match font_glyphs(parts(ts)) {
            Err(_) => true,
            Ok(gs) => regular(ts, gs.len() as int, color, cs),
        },
    }
}

/// The bytes of a table that may be there.
pub open spec fn opt_bytes(t: Option<Vec<u8>>) -> Option<Seq<u8>> {
    match t {
        Some(v) => Some(v@),
        None => None,
    }
}

impl Plan<Vec<u8>> {
    /// The bytes of the tables.
    pub open spec fn bytes(self) -> Plan<Seq<u8>> {
        Plan {
            glyf: self.glyf@,
            loca: self.loca@,
            hmtx: self.hmtx@,
            hhea: self.hhea@,
            head: self.head@,
            maxp: self.maxp@,
            cmap: opt_bytes(self.cmap),
            vhea: opt_bytes(self.vhea),
            vmtx: opt_bytes(self.vmtx),
            color: match self.color {
                Some((colr, cpal)) => Some((colr@, cpal@)),
                None => None,
            },
        }
    }
}

/// The number of a character.
fn code_point(c: char) -> (r: u32)
    ensures
        r == c as int,
{
    c as u32
}

/// Finds the glyphs of characters; `None` where one lies in a segment that is cut off.
fn find_char_glyphs(cmap: &[u8], cs: &Vec<char>) -> (r: Option<Vec<u16>>)
    ensures
        match r {
            Some(gs) => gs@ == char_glyphs(cmap@, cs@, cs@.len() as int) && forall|i: int|
                0 <= i < cs@.len() ==> !(lookup(cmap@, #[trigger] cs@[i] as int) is Overrun),
            None => exists|i: int|
                0 <= i < cs@.len() && lookup(cmap@, #[trigger] cs@[i] as int) is Overrun,
        },
{
    let mut gs: Vec<u16> = Vec::new();
    let mut i: usize = 0;
    while i < cs.len()
        invariant
            i <= cs@.len(),
            gs@ == char_glyphs(cmap@, cs@, i as int),
            forall|j: int|
                0 <= j < i ==> !(lookup(cmap@, #[trigger] cs@[j] as int) is Overrun),
        decreases cs@.len() - i,
    {
        let c = cs[i];
        match cmap_lookup(cmap, code_point(c)) {
            Lookup::Glyph(g) => {
                gs.push(g);
            },
            Lookup::Missing => {},
            Lookup::Overrun => {
                assert(lookup(cmap@, cs@[i as int] as int) is Overrun);
                return None;
            },
        }
        i += 1;
    }
    Some(gs)
}

/// Finds the glyphs that are to have colour in any case; `None` where a character lies in a segment
/// that is cut off.
fn find_forced(ts: &BTreeMap<u32, &[u8]>, opts: &ConvertOptions) -> (r: Option<Vec<u16>>)
    ensures
        match r {
            Some(gs) => gs@ == forced_glyphs(contents(ts@), opts.chars()) && chars_readable(
                contents(ts@),
                opts.chars(),
            ),
            None => !chars_readable(contents(ts@), opts.chars()),
        },
{
    let none: Vec<u16> = Vec::new();
    match &opts.color_chars {
        None => Some(none),
        Some(cs) => match get_table(ts, CMAP) {
            None => Some(none),
            Some(cmap) => find_char_glyphs(cmap, cs),
        },
    }
}

/// Builds the colour tables; `None` where a character lies in a segment that is cut off.
fn build_colors(ts: &BTreeMap<u32, &[u8]>, opts: &ConvertOptions, boxes: &Vec<Bounds>) -> (r: Option<
    Option<(Vec<u8>, Vec<u8>)>,
>)
    ensures
        match r {
            Some(t) => {
                &&& chars_readable(contents(ts@), opts.chars())
                &&& font_colors(contents(ts@), opts.chars(), boxes@) == match t {
                    Some((colr, cpal)) => Some((colr@, cpal@)),
                    None => None,
                }
            },
            None => !chars_readable(contents(ts@), opts.chars()),
        },
{
    let n: usize = boxes.len();
    let paints: Vec<Paint> = match get_table(ts, BRSH) {
        Some(blob) => parse_brsh(blob),
        None => Vec::new(),
    };
    assert(inks(paints@) =~= font_inks(contents(ts@)));
    let map: Option<Vec<Option<u8>>> = match get_table(ts, CGLF) {
        Some(blob) => parse_cglf_brush(blob, n),
        None => None,
    };
    let forced = match find_forced(ts, opts) {
        None => return None,
        Some(gs) => gs,
    };
    let map_slice: Option<&[Option<u8>]> = match &map {
        Some(m) => Some(m.as_slice()),
        None => None,
    };
    assert(map_view(map_slice) == font_brushes(contents(ts@), n as int));
    match build_color_tables(
        paints.as_slice(),
        map_slice,
        boxes.as_slice(),
        n,
        forced.as_slice(),
    ) {
        Some(t) => Some(Some((t.colr, t.cpal))),
        None => Some(None),
    }
}

/// Builds the new `vhea` and `vmtx` tables.
fn build_vertical(ts: &BTreeMap<u32, &[u8]>, n: usize) -> (r: (Option<Vec<u8>>, Option<Vec<u8>>))
    requires
        4 * n <= usize::MAX,
    ensures
        opt_bytes(r.0) == planned_vhea(contents(ts@), n as int),
        opt_bytes(r.1) == planned_vmtx(contents(ts@), n as int),
{
    let vhea = match get_table(ts, VHEA) {
        None => return (None, None),
        Some(data) => data,
    };
    if vhea.len() < 36 {
        return (None, None);
    }
    match get_table(ts, VMTX) {
        None => (Some(rebuild_vhea(vhea, false, n)), None),
        Some(vmtx) => {
            if vmtx.len() == 0 {
                return (Some(rebuild_vhea(vhea, false, n)), None);
            }
            let given = get16(vhea, 34) as usize;
            let nvm: usize = if given > n {
                n
            } else {
                given
            };
            (Some(rebuild_vhea(vhea, true, n)), Some(rebuild_vmtx_table(vmtx, nvm, n)))
        },
    }
}

/// Builds the new `cmap` table; `None` where a segment cannot be read.
fn build_cmap(ts: &BTreeMap<u32, &[u8]>) -> (r: Option<Option<Vec<u8>>>)
    ensures
        match r {
            Some(t) => {
                &&& get(contents(ts@), CMAP) matches Some(cmap) ==> readable_cmap(cmap)
                &&& opt_bytes(t) == planned_cmap(contents(ts@))
            },
            None => get(contents(ts@), CMAP) matches Some(cmap) && !readable_cmap(cmap),
        },
{
    match get_table(ts, CMAP) {
        None => Some(None),
        Some(cmap) => match rebuild_cmap_table(cmap) {
            None => None,
            Some(t) => Some(Some(t)),
        },
    }
}

/// Builds the tables that come of the glyphs; `None` where a field that they need is not there.
fn build_plan(
    ts: &BTreeMap<u32, &[u8]>,
    p: &Parts<&[u8]>,
    g: Encoded,
    opts: &ConvertOptions,
    Ghost(gs): Ghost<Seq<Seq<Dot>>>,
) -> (r: Option<Plan<Vec<u8>>>)
    requires
        p.bytes() == parts(contents(ts@)),
        g.encodes(gs),
        4 * gs.len() <= usize::MAX,
    ensures
        match r {
            Some(t) => {
                &&& regular(contents(ts@), gs.len() as int, opts.color, opts.chars())
                &&& t.bytes() == plan(contents(ts@), gs, opts.color, opts.chars())
            },
            None => !regular(contents(ts@), gs.len() as int, opts.color, opts.chars()),
        },
{
    let n: usize = g.boxes.len();
    assert(n == gs.len());
    if p.hhea.len() < 36 || p.head.len() < 54 {
        return None;
    }
    let nhm = get16(p.hhea, 34) as usize;
    let covered = if n > nhm {
        0 < nhm && 4 * nhm <= p.hmtx.len()
    } else {
        4 * n <= p.hmtx.len()
    };
    if !covered {
        return None;
    }
    let cmap = match build_cmap(ts) {
        None => return None,
        Some(t) => t,
    };
    let color = if opts.color {
        match build_colors(ts, opts, &g.boxes) {
            None => return None,
            Some(t) => t,
        }
    } else {
        None
    };
    let hmtx = rebuild_hmtx(p.hmtx, nhm, &g.boxes);
    let (vhea, vmtx) = build_vertical(ts, n);
    let hhea = rebuild_hhea(p.hhea, n);
    let whole = match g.whole {
        Some(b) => b,
        None => (0, 0, 0, 0),
    };
    let head = rebuild_head(p.head, whole);
    let maxp = rebuild_maxp(p.maxp, g.points, g.contours);
    let t = Plan { glyf: g.glyf, loca: g.loca, hmtx, hhea, head, maxp, cmap, vhea, vmtx, color };
    Some(t)
}

/// A table, if it is not empty.
fn keep(data: Vec<u8>) -> (r: Option<Vec<u8>>)
    ensures
        opt_bytes(r) == if_any(data@),
{
    if data.len() > 0 {
        Some(data)
    } else {
        None
    }
}

/// A copy of a new table, or of the old one if it is not empty.
fn keep_new(new: &Option<Vec<u8>>, data: &[u8]) -> (r: Option<Vec<u8>>)
    ensures
        opt_bytes(r) == or_else(opt_bytes(*new), data@),
{
    match new {
        Some(v) => Some(slice_to_vec(v.as_slice())),
        None => keep(slice_to_vec(data)),
    }
}

/// What becomes of a table.
fn plan_table(plan: &Plan<Vec<u8>>, tag: u32, data: &[u8]) -> (r: Option<Vec<u8>>)
    ensures
        opt_bytes(r) == planned(plan.bytes(), tag, data@),
{
    if tag == FTFG || tag == FTFH || tag == GLYF || tag == LOCA {
        None
    } else if plan.color.is_some() && is_private_color_table(tag) {
        None
    } else if tag == HMTX {
        Some(slice_to_vec(plan.hmtx.as_slice()))
    } else if tag == HHEA {
        Some(slice_to_vec(plan.hhea.as_slice()))
    } else if tag == HEAD {
        Some(slice_to_vec(plan.head.as_slice()))
    } else if tag == MAXP {
        Some(slice_to_vec(plan.maxp.as_slice()))
    } else if tag == CMAP {
        match &plan.cmap {
            Some(v) => Some(slice_to_vec(v.as_slice())),
            None => None,
        }
    } else if tag == GASP {
        keep(rebuild_gasp(data))
    } else if tag == VHEA {
        keep_new(&plan.vhea, data)
    } else if tag == VMTX {
        keep_new(&plan.vmtx, data)
    } else if tag == POST {
        keep(rebuild_post(data))
    } else {
        keep(slice_to_vec(data))
    }
}

/// Collects the tables of the output.
fn build_tables(plan: Plan<Vec<u8>>, ts: &BTreeMap<u32, &[u8]>) -> (r: BTreeMap<u32, Vec<u8>>)
    ensures
        contents(r@) == output_tables(plan.bytes(), contents(ts@)),
{
    let ghost all = contents(ts@);
    let ghost goal = plan.bytes();
    let list = list_tables(ts);
    let mut out: BTreeMap<u32, Vec<u8>> = BTreeMap::new();
    proof {
        lemma_listed_empty::<Vec<u8>>(0x1_0000_0000);
    }
    let mut i: usize = 0;
    while i < list.len()
        invariant
            i <= list@.len(),
            all == bytes_listed(list@),
            goal == plan.bytes(),
            contents(out@) == planned_tables(goal, all, i as int),
        decreases list@.len() - i,
    {
        let (tag, table) = list[i];
        let data: &[u8] = *table;
        assert(all[i as int] == (tag, data@));
        match plan_table(&plan, tag, data) {
            Some(v) => {
                put_table(&mut out, tag, v);
            },
            None => {},
        }
        i += 1;
    }
    put_table(&mut out, GLYF, plan.glyf);
    put_table(&mut out, LOCA, plan.loca);
    match plan.color {
        Some((colr, cpal)) => {
            put_table(&mut out, COLR, colr);
            put_table(&mut out, CPAL, cpal);
        },
        None => {},
    }
    out
}

/// Converts a font; `None` where it lacks a field that the conversion reads.
pub fn try_convert(raw: &[u8], opts: &ConvertOptions) -> (r: Option<Result<Vec<u8>, ConvertError>>)
    ensures
        match r {
            Some(Ok(out)) => {
                &&& convertible(raw@, opts.color, opts.chars())
                &&& converted(raw@, opts.color, opts.chars()) == Ok::<Seq<u8>, ConvertError>(out@)
            },
            Some(Err(e)) => {
                &&& convertible(raw@, opts.color, opts.chars())
                &&& converted(raw@, opts.color, opts.chars()) == Err::<Seq<u8>, ConvertError>(e)
            },
            None => !convertible(raw@, opts.color, opts.chars()),
        },
{
    let ts = match read_tables(raw) {
        Err(e) => return Some(Err(e)),
        Ok(ts) => ts,
    };
    let ftfh = match get_table(&ts, FTFH) {
        None => return Some(fix_normal_ttf(raw)),
        Some(data) => data,
    };
    let ftfg = match get_table(&ts, FTFG) {
        None => return Some(fix_normal_ttf(raw)),
        Some(data) => data,
    };
    let p = match find_parts(&ts, ftfh, ftfg) {
        Err(e) => return Some(Err(e)),
        Ok(p) => p,
    };
    let glyphs = match read_glyphs(&p) {
        Err(e) => return Some(Err(e)),
        Ok(glyphs) => glyphs,
    };
    let ghost gs = glyph_dots(glyph_views(glyphs@));
    let encoded = encode_glyphs(&glyphs);
    match build_plan(&ts, &p, encoded, opts, Ghost(gs)) {
        None => None,
        Some(plan) => Some(Ok(assemble(&build_tables(plan, &ts)))),
    }
}

/// Converts a font with private glyph data to a standard one. A standard font stays as it is, but
/// for empty tables, which it loses.
pub fn convert_ftf_with(raw: &[u8], opts: &ConvertOptions) -> (r: Result<Vec<u8>, ConvertError>)
    requires
        convertible(raw@, opts.color, opts.chars()),
    ensures
        match r {
            Ok(out) => converted(raw@, opts.color, opts.chars()) == Ok::<Seq<u8>, ConvertError>(
                out@,
            ),
            Err(e) => converted(raw@, opts.color, opts.chars()) == Err::<Seq<u8>, ConvertError>(e),
        },
{
    match try_convert(raw, opts) {
        Some(r) => r,
        None => vstd::pervasive::unreached(),
    }
}

/// Converts a font without colour.
pub fn convert_ftf(raw: &[u8]) -> (r: Result<Vec<u8>, ConvertError>)
    requires
        convertible(raw@, false, None),
    ensures
        match r {
            Ok(out) => converted(raw@, false, None) == Ok::<Seq<u8>, ConvertError>(out@),
            Err(e) => converted(raw@, false, None) == Err::<Seq<u8>, ConvertError>(e),
        },
{
    convert_ftf_with(raw, &ConvertOptions::default())
}

/// What is to be done with a font.
pub enum Outcome {
    /// Nothing: it is standard as it is.
    Skip,
    /// Another font is to be written in its place.
    Write(Vec<u8>),
    /// It cannot be converted.
    Refuse(ConvertError),
    /// It lacks a field that the conversion reads.
    Irregular,
}

/// Decides what is to be done with a font.
pub fn process(raw: &[u8], opts: &ConvertOptions) -> (r: Outcome)
    ensures
        r is Irregular <==> !convertible(raw@, opts.color, opts.chars()),
        convertible(raw@, opts.color, opts.chars()) ==> match converted(
            raw@,
            opts.color,
            opts.chars(),
        ) {
            Ok(out) => match r {
                Outcome::Skip => out == raw@,
                Outcome::Write(v) => out != raw@ && v@ == out,
                _ => false,
            },
            Err(e) => r == Outcome::Refuse(e),
        },
{
    match try_convert(raw, opts) {
        None => Outcome::Irregular,
        Some(Err(e)) => Outcome::Refuse(e),
        Some(Ok(out)) => if same_bytes(out.as_slice(), raw) {
            Outcome::Skip
        } else {
            Outcome::Write(out)
        },
    }
}

} // verus!
