//! Colour: from the private tables `brsh` and `cglf` to the standard tables `COLR` and `CPAL`.
//!
//! The `brsh` table holds the paints of a font. It has their number at 4, from 8 on the offsets of
//! its records and of the end of the last, and then the records: 5 bytes for one colour, or 12
//! bytes and 6 for each stop for a gradient.
//!
//! The `cglf` table chooses a paint for each glyph. After 16 bytes it has the group of each glyph,
//! then 50 bytes, then 8 bytes for each group. A group whose bytes are all zero has no colour.

use std::collections::HashMap;
use vstd::prelude::*;
use vstd::slice::slice_subrange;
use crate::bytes::{
    append, append_zeros, be16, be32, enc16, enc24, enc32, get16, get32, lemma_enc32_mod, low16,
    push16, push24, push32, push_len16, push_len32, push_signed16, to_i16, wrap16, zeros,
};
use crate::tables::Bounds;

verus! {

broadcast use crate::bytes::group_encoded_lengths;

/// One in the fixed point numbers with 14 bits behind the point.
pub const F2DOT14_ONE: u16 = 16384;

/// A paint. Colours are alpha, red, green and blue.
#[derive(Debug, Clone)]
pub enum Paint {
    /// One colour.
    Solid(u32),
    /// A gradient: the places of its stops, where `F2DOT14_ONE` is the end, and their colours.
    Linear(Vec<(u16, u32)>),
}

/// What a `Paint` holds.
pub enum Ink {
    Solid(u32),
    Linear(Seq<(u16, u32)>),
}

impl View for Paint {
    type V = Ink;

    open spec fn view(&self) -> Ink {
        match *self {
            Paint::Solid(c) => Ink::Solid(c),
            Paint::Linear(stops) => Ink::Linear(stops@),
        }
    }
}

/// What paints hold.
pub open spec fn inks(ps: Seq<Paint>) -> Seq<Ink> {
    ps.map_values(|p: Paint| p@)
}

/// How opaque a colour is.
pub open spec fn opacity(argb: u32) -> int {
    argb as int / 0x100_0000
}

/// The colours of a paint.
pub open spec fn colors_of(ink: Ink) -> Seq<u32> {
    match ink {
        Ink::Solid(c) => seq![c],
        Ink::Linear(stops) => stops.map_values(|s: (u16, u32)| s.1),
    }
}

/// Some colour of the paint can be seen.
pub open spec fn visible(ink: Ink) -> bool {
    exists|i: int| 0 <= i < colors_of(ink).len() && opacity(#[trigger] colors_of(ink)[i]) != 0
}

impl Paint {
    /// Whether some colour can be seen.
    pub fn is_visible(&self) -> (r: bool)
        ensures
            r == visible(self@),
    {
        let cs = self.colors();
        let mut i: usize = 0;
        while i < cs.len()
            invariant
                i <= cs@.len(),
                cs@ == colors_of(self@),
                forall|k: int| 0 <= k < i ==> opacity(#[trigger] cs@[k]) == 0,
            decreases cs@.len() - i,
        {
            if cs[i] / 0x100_0000 != 0 {
                assert(opacity(colors_of(self@)[i as int]) != 0);
                return true;
            }
            i += 1;
        }
        false
    }

    /// The colours.
    pub fn colors(&self) -> (r: Vec<u32>)
        ensures
            r@ == colors_of(self@),
    {
        let mut out: Vec<u32> = Vec::new();
        match self {
            Paint::Solid(c) => {
                out.push(*c);
            },
            Paint::Linear(stops) => {
                let mut i: usize = 0;
                while i < stops.len()
                    invariant
                        i <= stops@.len(),
                        self@ == Ink::Linear(stops@),
                        out@ =~= colors_of(self@).take(i as int),
                    decreases stops@.len() - i,
                {
                    out.push(stops[i].1);
                    i += 1;
                }
            },
        }
        assert(out@ =~= colors_of(self@));
        out
    }
}

/// The number of records of a `brsh` table.
pub open spec fn brush_count(blob: Seq<u8>) -> int {
    be32(blob, 4)
}

/// Where the records of a `brsh` table begin.
pub open spec fn brush_data(blob: Seq<u8>) -> int {
    8 + 4 * (brush_count(blob) + 1)
}

/// Where record `i` begins.
pub open spec fn brush_start(blob: Seq<u8>, i: int) -> int {
    brush_data(blob) + be32(blob, 8 + 4 * i)
}

/// The number of stops of a gradient.
pub open spec fn stop_count(rec: Seq<u8>) -> int {
    (rec.len() - 12) / 6
}

/// The stops of a gradient: first all colours, then all places.
pub open spec fn stops(rec: Seq<u8>) -> Seq<(u16, u32)> {
    let n = stop_count(rec);
    Seq::new(
        n as nat,
        |j: int| (be16(rec, 12 + 4 * n + 2 * j) as u16, be32(rec, 12 + 4 * j) as u32),
    )
}

/// The paint in a record.
pub open spec fn brush_ink(rec: Seq<u8>) -> Option<Ink> {
    if rec.len() == 5 && rec[0] == 0 {
        Some(Ink::Solid(be32(rec, 1) as u32))
    } else if rec.len() >= 18 && (rec.len() - 12) % 6 == 0 {
        Some(Ink::Linear(stops(rec)))
    } else {
        None
    }
}

/// The paint in record `i`.
pub open spec fn brush(blob: Seq<u8>, i: int) -> Option<Ink> {
    let s = brush_start(blob, i);
    let e = brush_start(blob, i + 1);
    if s >= e || e > blob.len() {
        None
    } else {
        brush_ink(blob.subrange(s, e))
    }
}

/// The paints in the first `k` records. Records without a paint are passed over.
pub open spec fn brushes(blob: Seq<u8>, k: int) -> Seq<Ink>
    decreases k,
{
    if k <= 0 {
        Seq::empty()
    } else {
        match brush(blob, k - 1) {
            Some(ink) => brushes(blob, k - 1).push(ink),
            None => brushes(blob, k - 1),
        }
    }
}

/// The paints of a `brsh` table.
pub open spec fn table_brushes(blob: Seq<u8>) -> Seq<Ink> {
    if blob.len() < 8 || brush_count(blob) == 0 || blob.len() < brush_data(blob) {
        Seq::empty()
    } else {
        brushes(blob, brush_count(blob))
    }
}

/// Reads the paint in a record.
fn read_brush(rec: &[u8]) -> (r: Option<Paint>)
    ensures
        match r {
            Some(p) => brush_ink(rec@) == Some(p@),
            None => brush_ink(rec@) is None,
        },
{
    if rec.len() == 5 && rec[0] == 0 {
        return Some(Paint::Solid(get32(rec, 1)));
    }
    if rec.len() < 18 || (rec.len() - 12) % 6 != 0 {
        return None;
    }
    let n: usize = (rec.len() - 12) / 6;
    let mut out: Vec<(u16, u32)> = Vec::new();
    let mut j: usize = 0;
    while j < n
        invariant
            j <= n,
            n == stop_count(rec@),
            rec.len() == 12 + 6 * n,
            out@ =~= stops(rec@).take(j as int),
        decreases n - j,
    {
        let color = get32(rec, 12 + 4 * j);
        let pos = get16(rec, 12 + 4 * n + 2 * j);
        out.push((pos, color));
        j += 1;
    }
    assert(out@ =~= stops(rec@));
    Some(Paint::Linear(out))
}

/// Reads the paints of a `brsh` table.
pub fn parse_brsh(blob: &[u8]) -> (r: Vec<Paint>)
    ensures
        inks(r@) == table_brushes(blob@),
{
    let mut paints: Vec<Paint> = Vec::new();
    assert(inks(paints@) =~= Seq::<Ink>::empty());
    if blob.len() < 8 {
        return paints;
    }
    let count = get32(blob, 4) as u64;
    let data_start: u64 = 8 + 4 * (count + 1);
    let total: u64 = blob.len() as u64;
    if count == 0 || total < data_start {
        return paints;
    }
    let n: usize = count as usize;
    let mut i: usize = 0;
    while i < n
        invariant
            i <= n,
            n == brush_count(blob@),
            data_start == brush_data(blob@),
            total == blob.len(),
            data_start <= total,
            data_start <= 0x5_0000_0000,
            inks(paints@) == brushes(blob@, i as int),
        decreases n - i,
    {
        let s: u64 = data_start + get32(blob, 8 + 4 * i) as u64;
        let e: u64 = data_start + get32(blob, 8 + 4 * (i + 1)) as u64;
        if s < e && e <= total {
            match read_brush(slice_subrange(blob, s as usize, e as usize)) {
                Some(p) => {
                    let ghost before = inks(paints@);
                    let ghost v = p@;
                    paints.push(p);
                    assert(inks(paints@) =~= before.push(v));
                },
                None => {},
            }
        }
        i += 1;
    }
    paints
}

/// The group of a glyph.
pub open spec fn group(blob: Seq<u8>, gid: int) -> int {
    be16(blob, 16 + 2 * gid)
}

/// Where the records of the groups begin.
pub open spec fn groups_start(n: int) -> int {
    16 + 2 * n + 50
}

/// The number of records of groups.
pub open spec fn group_count(blob: Seq<u8>, n: int) -> int {
    (blob.len() - groups_start(n)) / 8
}

/// A `cglf` table for `n` glyphs that has the parts it should have.
pub open spec fn group_layout(blob: Seq<u8>, n: int) -> bool {
    &&& blob.len() >= 16
    &&& be32(blob, 0) == 0x1_0000
    &&& be32(blob, 4) == n
    &&& blob.len() >= groups_start(n) + 8
    &&& (blob.len() - groups_start(n)) % 8 == 0
}

/// The groups of the glyphs are numbers of records, or of the one after the last.
pub open spec fn groups_fit(blob: Seq<u8>, n: int) -> bool {
    n > 0 && forall|gid: int| 0 <= gid < n ==> #[trigger] group(blob, gid) <= group_count(blob, n)
}

/// The record has only zeros.
pub open spec fn blank(blob: Seq<u8>, at: int) -> bool {
    forall|k: int| at <= k < at + 8 ==> #[trigger] blob[k] == 0
}

/// The paint of a group: the high byte of one of two numbers, the greater.
pub open spec fn group_brush(blob: Seq<u8>, n: int, g: int) -> Option<u8> {
    let at = groups_start(n) + 8 * g;
    if g >= group_count(blob, n) || blank(blob, at) {
        None
    } else if be16(blob, at + 2) > be16(blob, at + 6) {
        Some(blob[at + 2])
    } else {
        Some(blob[at + 6])
    }
}

/// The paints of the glyphs.
pub open spec fn glyph_brushes(blob: Seq<u8>, n: int) -> Seq<Option<u8>> {
    Seq::new(n as nat, |gid: int| group_brush(blob, n, group(blob, gid)))
}

/// Some glyph has a paint.
pub open spec fn any_brush(bs: Seq<Option<u8>>) -> bool {
    exists|i: int| 0 <= i < bs.len() && (#[trigger] bs[i]) is Some
}

/// The paints that a `cglf` table chooses for `n` glyphs; `None` where it cannot be read or chooses
/// none at all.
pub open spec fn table_glyph_brushes(blob: Seq<u8>, n: int) -> Option<Seq<Option<u8>>> {
    if group_layout(blob, n) && groups_fit(blob, n) && any_brush(glyph_brushes(blob, n)) {
        Some(glyph_brushes(blob, n))
    } else {
        None
    }
}

/// Whether a record has only zeros.
fn is_blank(blob: &[u8], at: usize) -> (r: bool)
    requires
        at + 8 <= blob@.len(),
    ensures
        r == blank(blob@, at as int),
{
    let mut k: usize = 0;
    while k < 8
        invariant
            k <= 8,
            at + 8 <= blob.len(),
            forall|j: int| at <= j < at + k ==> #[trigger] blob@[j] == 0,
        decreases 8 - k,
    {
        if blob[at + k] != 0 {
            return false;
        }
        k += 1;
    }
    true
}

/// The paint of a group.
fn read_group(blob: &[u8], n: usize, g: usize) -> (r: Option<u8>)
    requires
        group_layout(blob@, n as int),
        groups_start(n as int) <= blob.len(),
    ensures
        r == group_brush(blob@, n as int, g as int),
{
    let start: usize = 66 + 2 * n;
    if g >= (blob.len() - start) / 8 {
        return None;
    }
    let at: usize = start + 8 * g;
    if is_blank(blob, at) {
        return None;
    }
    if get16(blob, at + 2) > get16(blob, at + 6) {
        Some(blob[at + 2])
    } else {
        Some(blob[at + 6])
    }
}

/// Reads which paint a `cglf` table chooses for each glyph.
pub fn parse_cglf_brush(blob: &[u8], num_glyphs: usize) -> (r: Option<Vec<Option<u8>>>)
    ensures
        match r {
            Some(bs) => table_glyph_brushes(blob@, num_glyphs as int) == Some(bs@),
            None => table_glyph_brushes(blob@, num_glyphs as int) is None,
        },
{
    if blob.len() < 16 || get32(blob, 0) != 0x1_0000 {
        return None;
    }
    let ng = get32(blob, 4) as u64;
    if ng != num_glyphs as u64 || (blob.len() as u64) < 66 + 2 * ng + 8 {
        return None;
    }
    let n: usize = num_glyphs;
    let start: usize = 66 + 2 * n;
    if (blob.len() - start) % 8 != 0 {
        return None;
    }
    let records: usize = (blob.len() - start) / 8;
    let mut out: Vec<Option<u8>> = Vec::new();
    let mut any = false;
    let mut gid: usize = 0;
    while gid < n
        invariant
            gid <= n,
            n == num_glyphs,
            start == groups_start(n as int),
            records == group_count(blob@, n as int),
            group_layout(blob@, n as int),
            start + 8 <= blob.len(),
            forall|k: int| 0 <= k < gid ==> #[trigger] group(blob@, k) <= records,
            out@ =~= glyph_brushes(blob@, n as int).take(gid as int),
            any == any_brush(out@),
        decreases n - gid,
    {
        let g = get16(blob, 16 + 2 * gid) as usize;
        assert(g == group(blob@, gid as int));
        if g > records {
            return None;
        }
        let b = read_group(blob, n, g);
        let ghost before = out@;
        out.push(b);
        proof {
            if any {
                let i = choose|i: int| 0 <= i < before.len() && (#[trigger] before[i]) is Some;
                assert(out@[i] is Some);
            }
            if b.is_some() {
                assert(out@[gid as int] is Some);
            }
            if any_brush(out@) {
                let i = choose|i: int| 0 <= i < out@.len() && (#[trigger] out@[i]) is Some;
                if i < before.len() {
                    assert(before[i] is Some);
                }
            }
        }
        if b.is_some() {
            any = true;
        }
        gid += 1;
    }
    assert(out@ =~= glyph_brushes(blob@, n as int));
    if n == 0 || !any {
        return None;
    }
    Some(out)
}

/// A palette with a colour: as it is where it has the colour, else with the colour at its end.
pub open spec fn interned(pal: Seq<u32>, c: u32) -> Seq<u32> {
    if pal.contains(c) {
        pal
    } else {
        pal.push(c)
    }
}

/// A palette with the first `k` of some colours.
pub open spec fn interned_all(pal: Seq<u32>, cs: Seq<u32>, k: int) -> Seq<u32>
    decreases k,
{
    if k <= 0 {
        pal
    } else {
        interned(interned_all(pal, cs, k - 1), cs[k - 1])
    }
}

/// The first place of a colour in a palette from `i` on; where it has none, the place after its
/// end.
pub open spec fn place(pal: Seq<u32>, c: u32, i: int) -> int
    decreases pal.len() - i,
{
    if i >= pal.len() || pal[i] == c {
        i
    } else {
        place(pal, c, i + 1)
    }
}

/// Colours, each of them once, and the numbers that stand for them.
pub struct Palette {
    pub index: HashMap<u32, u16>,
    pub colors: Vec<u32>,
}

/// No colour stands twice.
pub open spec fn distinct(pal: Seq<u32>) -> bool {
    forall|i: int, j: int| 0 <= i < j < pal.len() ==> #[trigger] pal[i] != #[trigger] pal[j]
}

/// A colour that is not there has its place after the end.
proof fn lemma_place_absent(pal: Seq<u32>, c: u32, i: int)
    requires
        0 <= i <= pal.len(),
        !pal.contains(c),
    ensures
        place(pal, c, i) == pal.len(),
    decreases pal.len() - i,
{
    if i < pal.len() {
        assert(pal.contains(pal[i]));
        lemma_place_absent(pal, c, i + 1);
    }
}

/// A colour that is there keeps its place when another joins.
proof fn lemma_place_kept(pal: Seq<u32>, x: u32, c: u32, i: int)
    requires
        0 <= i <= pal.len(),
        x == c || exists|k: int| i <= k < pal.len() && #[trigger] pal[k] == c,
    ensures
        place(pal.push(x), c, i) == place(pal, c, i),
    decreases pal.len() - i,
{
    if i < pal.len() && pal[i] != c {
        lemma_place_kept(pal, x, c, i + 1);
    }
}

impl Palette {
    /// No colour stands twice, and each has the number of its place.
    pub open spec fn wf(self) -> bool {
        &&& distinct(self.colors@)
        &&& forall|c: u32| #[trigger]
            self.index@.dom().contains(c) <==> self.colors@.contains(c)
        &&& forall|c: u32| #[trigger]
            self.index@.dom().contains(c) ==> self.index@[c] == color_index(self.colors@, c)
    }

    /// A palette without colours.
    pub fn new() -> (r: Palette)
        ensures
            r.wf(),
            r.colors@ == Seq::<u32>::empty(),
    {
        Palette { index: HashMap::new(), colors: Vec::new() }
    }

    /// The place of a colour, which joins the palette where it is not yet there.
    pub fn intern(&mut self, color: u32) -> (r: u16)
        requires
            old(self).wf(),
        ensures
            final(self).wf(),
            final(self).colors@ == interned(old(self).colors@, color),
            r == place(old(self).colors@, color, 0) % 0x1_0000,
    {
        if let Some(i) = self.index.get(&color) {
            return *i;
        }
        let i = low16(self.colors.len());
        let ghost before = self.colors@;
        self.colors.push(color);
        self.index.insert(color, i);
        proof {
            lemma_place_absent(before, color, 0);
            let now = self.colors@;
            assert(now == before.push(color));
            assert(now[before.len() as int] == color);
            assert forall|c: u32| #[trigger] now.contains(c) <==> before.contains(c) || c
                == color by {
                if before.contains(c) {
                    let k = before.index_of(c);
                    assert(now[k] == c);
                }
                if now.contains(c) && c != color {
                    let k = now.index_of(c);
                    assert(before[k] == c);
                }
            }
            assert forall|c: u32| #[trigger] self.index@.dom().contains(c) implies self.index@[c]
                == color_index(now, c) by {
                if c != color {
                    assert(before.contains(c));
                    let k = before.index_of(c);
                    assert(before[k] == c);
                }
                lemma_place_kept(before, color, c, 0);
            }
            assert forall|a: int, b: int| 0 <= a < b < now.len() implies #[trigger] now[a]
                != #[trigger] now[b] by {
                assert(before.contains(before[a]));
            }
        }
        i
    }

    /// The number that stands for a colour.
    pub fn index_of(&self, color: u32) -> (r: u16)
        requires
            self.wf(),
        ensures
            r == color_index(self.colors@, color),
    {
        match self.index.get(&color) {
            Some(i) => *i,
            None => {
                proof {
                    lemma_place_absent(self.colors@, color, 0);
                }
                low16(self.colors.len())
            },
        }
    }

    /// Takes colours into the palette.
    pub fn intern_all(&mut self, cs: &Vec<u32>)
        requires
            old(self).wf(),
        ensures
            final(self).wf(),
            final(self).colors@ == interned_all(old(self).colors@, cs@, cs@.len() as int),
    {
        let mut i: usize = 0;
        while i < cs.len()
            invariant
                i <= cs@.len(),
                self.wf(),
                self.colors@ == interned_all(old(self).colors@, cs@, i as int),
            decreases cs@.len() - i,
        {
            self.intern(cs[i]);
            i += 1;
        }
    }
}

/// The number that stands for a colour.
pub open spec fn color_index(pal: Seq<u32>, c: u32) -> int {
    place(pal, c, 0) % 0x1_0000
}

/// Half of a number, rounded towards zero.
pub open spec fn half(d: i16) -> int {
    if d < 0 {
        -(-(d as int) / 2)
    } else {
        d as int / 2
    }
}

/// The points of a gradient over a glyph: from the middle of the top to the middle of the bottom,
/// turned by the lower left corner. They are x and y of the three.
pub open spec fn gradient_points(b: (i16, i16, i16, i16)) -> Seq<i16> {
    let cx = wrap16(b.0 + half(wrap16(b.2 - b.0)));
    seq![cx, b.3, cx, b.1, b.0, b.1]
}

/// Signed numbers, 16 bits each.
pub open spec fn signed_numbers(s: Seq<i16>, k: int) -> Seq<u8>
    decreases k,
{
    if k <= 0 {
        Seq::empty()
    } else {
        signed_numbers(s, k - 1) + enc16(s[k - 1] as int)
    }
}

/// The first `k` stops of a gradient: place, colour and opacity.
pub open spec fn stop_bytes(ss: Seq<(u16, u32)>, pal: Seq<u32>, k: int) -> Seq<u8>
    decreases k,
{
    if k <= 0 {
        Seq::empty()
    } else {
        let (at, c) = ss[k - 1];
        stop_bytes(ss, pal, k - 1) + (enc16(
            if at > F2DOT14_ONE {
                F2DOT14_ONE as int
            } else {
                at as int
            },
        ) + enc16(color_index(pal, c)) + enc16(F2DOT14_ONE as int))
    }
}

/// The paint of a glyph with the bounds `b`.
pub open spec fn ink_bytes(ink: Ink, pal: Seq<u32>, b: (i16, i16, i16, i16)) -> Seq<u8> {
    match ink {
        Ink::Solid(c) => seq![2u8] + enc16(color_index(pal, c)) + enc16(F2DOT14_ONE as int),
        Ink::Linear(ss) => seq![4u8] + enc24(16) + signed_numbers(gradient_points(b), 6) + seq![0u8]
            + enc16(ss.len() as int) + stop_bytes(ss, pal, ss.len() as int),
    }
}

/// A glyph filled with a paint.
#[verifier::opaque]
pub open spec fn paint_block(
    gid: u16,
    ink: Ink,
    pal: Seq<u32>,
    b: (i16, i16, i16, i16),
) -> Seq<u8> {
    seq![10u8] + enc24(6) + enc16(gid as int) + ink_bytes(ink, pal, b)
}

/// The palette has the colours.
pub open spec fn holds(pal: Seq<u32>, cs: Seq<u32>) -> bool {
    forall|i: int| 0 <= i < cs.len() ==> pal.contains(#[trigger] cs[i])
}

/// The points of a gradient over a glyph.
fn gradient_coords(b: (i16, i16, i16, i16)) -> (r: [i16; 6])
    ensures
        r@ == gradient_points(b),
{
    let width = to_i16(b.2 as i32 - b.0 as i32) as i32;
    let half_width: i32 = if width < 0 {
        -(-width / 2)
    } else {
        width / 2
    };
    let cx = to_i16(b.0 as i32 + half_width);
    let r: [i16; 6] = [cx, b.3, cx, b.1, b.0, b.1];
    assert(r@ =~= gradient_points(b));
    r
}

/// Appends the stops of a gradient.
fn push_stops(out: &mut Vec<u8>, ss: &Vec<(u16, u32)>, palette: &Palette)
    requires
        palette.wf(),
    ensures
        final(out)@ == old(out)@ + stop_bytes(ss@, palette.colors@, ss@.len() as int),
{
    let ghost pal = palette.colors@;
    let mut i: usize = 0;
    assert(out@ =~= old(out)@ + stop_bytes(ss@, pal, 0));
    while i < ss.len()
        invariant
            i <= ss@.len(),
            palette.wf(),
            pal == palette.colors@,
            out@ == old(out)@ + stop_bytes(ss@, pal, i as int),
        decreases ss@.len() - i,
    {
        let (at, c) = ss[i];
        let at: u16 = if at > F2DOT14_ONE {
            F2DOT14_ONE
        } else {
            at
        };
        push16(out, at);
        push16(out, palette.index_of(c));
        push16(out, F2DOT14_ONE);
        assert(out@ =~= old(out)@ + stop_bytes(ss@, pal, i + 1));
        i += 1;
    }
}

/// Writes a glyph filled with a paint, whose colours join the palette.
pub fn encode_paint_block(
    gid: u16,
    paint: &Paint,
    palette: &mut Palette,
    b: (i16, i16, i16, i16),
) -> (out: Vec<u8>)
    requires
        old(palette).wf(),
    ensures
        final(palette).wf(),
        final(palette).colors@ == interned_all(
            old(palette).colors@,
            colors_of(paint@),
            colors_of(paint@).len() as int,
        ),
        out@ == paint_block(gid, paint@, final(palette).colors@, b),
{
    proof {
        reveal(paint_block);
    }
    palette.intern_all(&paint.colors());
    let ghost pal = palette.colors@;
    let mut out: Vec<u8> = Vec::new();
    out.push(10);
    push24(&mut out, 6);
    push16(&mut out, gid);
    let ghost head = out@;
    assert(head =~= seq![10u8] + enc24(6) + enc16(gid as int));
    match paint {
        Paint::Solid(c) => {
            out.push(2);
            push16(&mut out, palette.index_of(*c));
            push16(&mut out, F2DOT14_ONE);
        },
        Paint::Linear(ss) => {
            out.push(4);
            push24(&mut out, 16);
            let points = gradient_coords(b);
            let ghost before = out@;
            let mut i: usize = 0;
            assert(out@ =~= before + signed_numbers(points@, 0));
            while i < 6
                invariant
                    i <= 6,
                    out@ == before + signed_numbers(points@, i as int),
                decreases 6 - i,
            {
                push_signed16(&mut out, points[i]);
                assert(out@ =~= before + signed_numbers(points@, i + 1));
                i += 1;
            }
            out.push(0);
            push_len16(&mut out, ss.len());
            push_stops(&mut out, ss, palette);
        },
    }
    assert(out@ =~= paint_block(gid, paint@, pal, b));
    out
}

/// Glyphs and the numbers of their paints.
pub open spec fn picks(chosen: Seq<(u16, usize)>) -> Seq<(u16, int)> {
    chosen.map_values(|p: (u16, usize)| (p.0, p.1 as int))
}

/// The bounds of a glyph, zeros for one without points.
pub open spec fn box_of(boxes: Seq<Bounds>, gid: u16) -> (i16, i16, i16, i16) {
    match boxes[gid as int] {
        Some(b) => b,
        None => (0, 0, 0, 0),
    }
}

/// The first `k` glyphs filled with their paints.
pub open spec fn paint_blocks(
    chosen: Seq<(u16, int)>,
    inks: Seq<Ink>,
    pal: Seq<u32>,
    boxes: Seq<Bounds>,
    k: int,
) -> Seq<u8>
    decreases k,
{
    if k <= 0 {
        Seq::empty()
    } else {
        let (gid, p) = chosen[k - 1];
        paint_blocks(chosen, inks, pal, boxes, k - 1) + paint_block(
            gid,
            inks[p],
            pal,
            box_of(boxes, gid),
        )
    }
}

/// The entries of the first `k` glyphs: the glyph and the offset of its paint.
pub open spec fn paint_entries(
    chosen: Seq<(u16, int)>,
    inks: Seq<Ink>,
    pal: Seq<u32>,
    boxes: Seq<Bounds>,
    k: int,
) -> Seq<u8>
    decreases k,
{
    if k <= 0 {
        Seq::empty()
    } else {
        paint_entries(chosen, inks, pal, boxes, k - 1) + (enc16(chosen[k - 1].0 as int) + enc32(
            4 + 6 * chosen.len() as int + paint_blocks(chosen, inks, pal, boxes, k - 1).len(),
        ))
    }
}

/// The header of a `COLR` table of version 1: only the offset of its list of glyphs is not zero.
#[verifier::opaque]
pub open spec fn colr_header() -> Seq<u8> {
    enc16(1) + zeros(12) + enc32(34) + zeros(16)
}

/// A `COLR` table.
pub open spec fn colr_bytes(
    chosen: Seq<(u16, int)>,
    inks: Seq<Ink>,
    pal: Seq<u32>,
    boxes: Seq<Bounds>,
) -> Seq<u8> {
    let n = chosen.len() as int;
    colr_header() + enc32(n) + paint_entries(chosen, inks, pal, boxes, n) + paint_blocks(
        chosen,
        inks,
        pal,
        boxes,
        n,
    )
}

/// The first `k` colours: blue, green, red, alpha.
pub open spec fn color_records(pal: Seq<u32>, k: int) -> Seq<u8>
    decreases k,
{
    if k <= 0 {
        Seq::empty()
    } else {
        let c = pal[k - 1] as int;
        color_records(pal, k - 1) + seq![
            (c % 0x100) as u8,
            (c / 0x100 % 0x100) as u8,
            (c / 0x1_0000 % 0x100) as u8,
            (c / 0x100_0000) as u8,
        ]
    }
}

/// A `CPAL` table of version 0 with one palette.
pub open spec fn cpal_bytes(pal: Seq<u32>) -> Seq<u8> {
    let n = pal.len() as int;
    enc16(0) + enc16(n) + enc16(1) + enc16(n) + enc32(14) + enc16(0) + color_records(pal, n)
}

/// The glyphs and the paints that are chosen exist.
pub open spec fn choice_fits(chosen: Seq<(u16, int)>, paints: int, boxes: int) -> bool {
    forall|i: int|
        0 <= i < chosen.len() ==> (#[trigger] chosen[i]).0 < boxes && 0 <= chosen[i].1 < paints
}

/// A palette with the colours of the first `k` paints that are chosen.
pub open spec fn chosen_from(
    pal: Seq<u32>,
    chosen: Seq<(u16, int)>,
    is: Seq<Ink>,
    k: int,
) -> Seq<u32>
    decreases k,
{
    if k <= 0 {
        pal
    } else {
        let cs = colors_of(is[chosen[k - 1].1]);
        interned_all(chosen_from(pal, chosen, is, k - 1), cs, cs.len() as int)
    }
}

/// The colours of the first `k` paints that are chosen.
pub open spec fn chosen_palette(chosen: Seq<(u16, int)>, is: Seq<Ink>, k: int) -> Seq<u32> {
    chosen_from(Seq::empty(), chosen, is, k)
}

proof fn lemma_interned_keeps(pal: Seq<u32>, c: u32, d: u32)
    requires
        pal.contains(d),
    ensures
        interned(pal, c).contains(d),
{
    let i = choose|i: int| 0 <= i < pal.len() && pal[i] == d;
    assert(interned(pal, c)[i] == d);
}

proof fn lemma_interned_all_keeps(pal: Seq<u32>, cs: Seq<u32>, k: int, d: u32)
    requires
        pal.contains(d),
    ensures
        interned_all(pal, cs, k).contains(d),
    decreases k,
{
    if k > 0 {
        lemma_interned_all_keeps(pal, cs, k - 1, d);
        lemma_interned_keeps(interned_all(pal, cs, k - 1), cs[k - 1], d);
    }
}

proof fn lemma_interned_all_holds(pal: Seq<u32>, cs: Seq<u32>, k: int, i: int)
    requires
        0 <= i < k,
    ensures
        interned_all(pal, cs, k).contains(cs[i]),
    decreases k,
{
    let before = interned_all(pal, cs, k - 1);
    if i < k - 1 {
        lemma_interned_all_holds(pal, cs, k - 1, i);
        lemma_interned_keeps(before, cs[k - 1], cs[i]);
    } else if !before.contains(cs[i]) {
        assert(interned(before, cs[i])[before.len() as int] == cs[i]);
    }
}

proof fn lemma_interned_all_same(pal: Seq<u32>, cs: Seq<u32>, k: int)
    requires
        holds(pal, cs),
        k <= cs.len(),
    ensures
        interned_all(pal, cs, k) == pal,
    decreases k,
{
    if k > 0 {
        lemma_interned_all_same(pal, cs, k - 1);
        assert(pal.contains(cs[k - 1]));
    }
}

proof fn lemma_palette_holds(
    pal: Seq<u32>,
    chosen: Seq<(u16, int)>,
    is: Seq<Ink>,
    k: int,
    i: int,
)
    requires
        0 <= i < k,
    ensures
        holds(chosen_from(pal, chosen, is, k), colors_of(is[chosen[i].1])),
    decreases k,
{
    let before = chosen_from(pal, chosen, is, k - 1);
    let cs = colors_of(is[chosen[k - 1].1]);
    let own = colors_of(is[chosen[i].1]);
    if i < k - 1 {
        lemma_palette_holds(pal, chosen, is, k - 1, i);
    }
    assert forall|j: int| 0 <= j < own.len() implies chosen_from(pal, chosen, is, k).contains(
        #[trigger] own[j],
    ) by {
        if i < k - 1 {
            lemma_interned_all_keeps(before, cs, cs.len() as int, own[j]);
        } else {
            lemma_interned_all_holds(before, cs, cs.len() as int, j);
        }
    }
}

/// A palette that has the colours stays as it is.
proof fn lemma_chosen_same(pal: Seq<u32>, chosen: Seq<(u16, int)>, is: Seq<Ink>, k: int)
    requires
        forall|i: int| 0 <= i < k ==> holds(pal, colors_of(is[(#[trigger] chosen[i]).1])),
    ensures
        chosen_from(pal, chosen, is, k) == pal,
    decreases k,
{
    if k > 0 {
        lemma_chosen_same(pal, chosen, is, k - 1);
        let cs = colors_of(is[chosen[k - 1].1]);
        assert(holds(pal, cs));
        lemma_interned_all_same(pal, cs, cs.len() as int);
    }
}

/// Takes the colours of the paints that are chosen into a palette.
fn intern_chosen(
    palette: &mut Palette,
    chosen: &Vec<(u16, usize)>,
    paints: &[Paint],
    boxes: usize,
)
    requires
        old(palette).wf(),
        choice_fits(picks(chosen@), paints@.len() as int, boxes as int),
    ensures
        final(palette).wf(),
        final(palette).colors@ == chosen_from(
            old(palette).colors@,
            picks(chosen@),
            inks(paints@),
            chosen@.len() as int,
        ),
{
    let ghost cs = picks(chosen@);
    let ghost is = inks(paints@);
    let ghost start = palette.colors@;
    let mut i: usize = 0;
    while i < chosen.len()
        invariant
            i <= chosen@.len(),
            cs == picks(chosen@),
            is == inks(paints@),
            choice_fits(cs, paints@.len() as int, boxes as int),
            palette.wf(),
            palette.colors@ == chosen_from(start, cs, is, i as int),
        decreases chosen@.len() - i,
    {
        let p = chosen[i].1;
        assert(cs[i as int] == (chosen@[i as int].0, p as int));
        assert(is[p as int] == paints@[p as int]@);
        palette.intern_all(&paints[p].colors());
        i += 1;
    }
}

/// Writes the header of a `COLR` table.
fn write_colr_header() -> (out: Vec<u8>)
    ensures
        out@ == colr_header(),
{
    proof {
        reveal(colr_header);
    }
    let mut out: Vec<u8> = Vec::new();
    push16(&mut out, 1);
    append_zeros(&mut out, 12);
    push32(&mut out, 34);
    append_zeros(&mut out, 16);
    assert(out@ =~= colr_header());
    out
}

/// The offset of a paint in the list of glyphs, in 32 bits.
fn paint_offset(n: usize, written: usize) -> (r: u32)
    ensures
        r == (4 + 6 * n as int + written) % 0x1_0000_0000,
{
    let low: u128 = (4 + 6 * (n as u128) + written as u128) % 0x1_0000_0000;
    low as u32
}

/// Writes a `COLR` table. The colours of its paints join the palette.
pub fn encode_colr(
    chosen: &Vec<(u16, usize)>,
    paints: &[Paint],
    palette: &mut Palette,
    boxes: &[Bounds],
) -> (out: Vec<u8>)
    requires
        old(palette).wf(),
        choice_fits(picks(chosen@), paints@.len() as int, boxes@.len() as int),
    ensures
        final(palette).wf(),
        final(palette).colors@ == chosen_from(
            old(palette).colors@,
            picks(chosen@),
            inks(paints@),
            chosen@.len() as int,
        ),
        out@ == colr_bytes(picks(chosen@), inks(paints@), final(palette).colors@, boxes@),
{
    let ghost cs = picks(chosen@);
    let ghost is = inks(paints@);
    let ghost start = palette.colors@;
    intern_chosen(palette, chosen, paints, boxes.len());
    let ghost pal = palette.colors@;
    let n: usize = chosen.len();
    let mut area: Vec<u8> = Vec::new();
    let mut entries: Vec<u8> = Vec::new();
    let mut i: usize = 0;
    while i < n
        invariant
            i <= n,
            n == chosen@.len(),
            cs == picks(chosen@),
            is == inks(paints@),
            palette.colors@ == pal,
            palette.wf(),
            choice_fits(cs, paints@.len() as int, boxes@.len() as int),
            pal == chosen_from(start, cs, is, n as int),
            area@ == paint_blocks(cs, is, pal, boxes@, i as int),
            entries@ == paint_entries(cs, is, pal, boxes@, i as int),
        decreases n - i,
    {
        let (gid, p) = chosen[i];
        assert(cs[i as int] == (gid, p as int));
        assert(is[p as int] == paints@[p as int]@);
        let off = paint_offset(n, area.len());
        proof {
            lemma_enc32_mod(off as int, 4 + 6 * n + area@.len());
        }
        let ghost before = entries@;
        push16(&mut entries, gid);
        push32(&mut entries, off);
        assert(entries@ =~= before + (enc16(gid as int) + enc32(4 + 6 * n + area@.len())));
        let b = match boxes[gid as usize] {
            Some(b) => b,
            None => (0, 0, 0, 0),
        };
        proof {
            lemma_palette_holds(start, cs, is, n as int, i as int);
            let own = colors_of(is[p as int]);
            lemma_interned_all_same(pal, own, own.len() as int);
        }
        let block = encode_paint_block(gid, &paints[p], palette, b);
        append(&mut area, block.as_slice());
        i += 1;
    }
    let mut out = write_colr_header();
    push_len32(&mut out, n);
    append(&mut out, entries.as_slice());
    append(&mut out, area.as_slice());
    out
}

/// Writes a `CPAL` table.
fn encode_cpal(colors: &Vec<u32>) -> (out: Vec<u8>)
    ensures
        out@ == cpal_bytes(colors@),
{
    let n: usize = colors.len();
    let mut out: Vec<u8> = Vec::new();
    push16(&mut out, 0);
    assert(out@ =~= enc16(0));
    push_len16(&mut out, n);
    push16(&mut out, 1);
    push_len16(&mut out, n);
    push32(&mut out, 14);
    push16(&mut out, 0);
    let ghost head = out@;
    let mut i: usize = 0;
    assert(out@ =~= head + color_records(colors@, 0));
    while i < n
        invariant
            i <= n,
            n == colors@.len(),
            out@ == head + color_records(colors@, i as int),
        decreases n - i,
    {
        let c = colors[i];
        out.push((c % 0x100) as u8);
        out.push((c / 0x100 % 0x100) as u8);
        out.push((c / 0x1_0000 % 0x100) as u8);
        out.push((c / 0x100_0000) as u8);
        assert(out@ =~= head + color_records(colors@, i + 1));
        i += 1;
    }
    out
}

/// The numbers of the paints among the first `k` that can be seen.
pub open spec fn visible_inks(is: Seq<Ink>, k: int) -> Seq<int>
    decreases k,
{
    if k <= 0 {
        Seq::empty()
    } else if visible(is[k - 1]) {
        visible_inks(is, k - 1).push(k - 1)
    } else {
        visible_inks(is, k - 1)
    }
}

/// The numbers of the gradients among the first `k` paints that can be seen.
pub open spec fn visible_gradients(is: Seq<Ink>, k: int) -> Seq<int>
    decreases k,
{
    if k <= 0 {
        Seq::empty()
    } else if visible(is[k - 1]) && is[k - 1] is Linear {
        visible_gradients(is, k - 1).push(k - 1)
    } else {
        visible_gradients(is, k - 1)
    }
}

/// The paints to choose from where nothing else decides: the gradients, or all where there is none.
pub open spec fn ink_pool(is: Seq<Ink>) -> Seq<int> {
    let gradients = visible_gradients(is, is.len() as int);
    if gradients.len() > 0 {
        gradients
    } else {
        visible_inks(is, is.len() as int)
    }
}

/// The number of a glyph, in 16 bits.
pub open spec fn gid16(gid: int) -> u16 {
    (gid % 0x1_0000) as u16
}

/// The map gives the glyph a paint that exists and can be seen, and the glyph has points.
pub open spec fn is_mapped(
    is: Seq<Ink>,
    map: Seq<Option<u8>>,
    boxes: Seq<Bounds>,
    gid: int,
) -> bool {
    boxes[gid] is Some && match map[gid] {
        Some(b) => b < is.len() && visible(is[b as int]),
        None => false,
    }
}

/// The choice among the first `k` glyphs by a map.
pub open spec fn chosen_by_map(
    is: Seq<Ink>,
    map: Seq<Option<u8>>,
    boxes: Seq<Bounds>,
    k: int,
) -> Seq<(u16, int)>
    decreases k,
{
    if k <= 0 {
        Seq::empty()
    } else if is_mapped(is, map, boxes, k - 1) {
        chosen_by_map(is, map, boxes, k - 1).push((gid16(k - 1), map[k - 1].unwrap() as int))
    } else {
        chosen_by_map(is, map, boxes, k - 1)
    }
}

/// The choice among the first `k` glyphs without a map: each that has points, with the paints of
/// the pool in turn.
pub open spec fn chosen_by_turn(pool: Seq<int>, boxes: Seq<Bounds>, k: int) -> Seq<(u16, int)>
    decreases k,
{
    if k <= 0 {
        Seq::empty()
    } else if boxes[k - 1] is Some {
        chosen_by_turn(pool, boxes, k - 1).push(
            (gid16(k - 1), pool[(k - 1) % (pool.len() as int)]),
        )
    } else {
        chosen_by_turn(pool, boxes, k - 1)
    }
}

/// A glyph has been chosen.
pub open spec fn is_chosen(chosen: Seq<(u16, int)>, gid: u16) -> bool {
    exists|i: int| 0 <= i < chosen.len() && (#[trigger] chosen[i]).0 == gid
}

/// The choice with the first `k` of the glyphs that are to have colour in any case. They get paint
/// `p`, if they have points and have not been chosen.
pub open spec fn with_forced(
    chosen: Seq<(u16, int)>,
    p: int,
    boxes: Seq<Bounds>,
    forced: Seq<u16>,
    k: int,
) -> Seq<(u16, int)>
    decreases k,
{
    if k <= 0 {
        chosen
    } else {
        let before = with_forced(chosen, p, boxes, forced, k - 1);
        let gid = forced[k - 1];
        if gid < boxes.len() && boxes[gid as int] is Some && !is_chosen(before, gid) {
            before.push((gid, p))
        } else {
            before
        }
    }
}

/// A choice that is ordered by glyph, with one more, behind those of the same glyph.
pub open spec fn sorted_in(chosen: Seq<(u16, int)>, e: (u16, int)) -> Seq<(u16, int)>
    decreases chosen.len(),
{
    if chosen.len() == 0 || chosen.last().0 <= e.0 {
        chosen.push(e)
    } else {
        sorted_in(chosen.drop_last(), e).push(chosen.last())
    }
}

/// The first `k` of a choice, ordered by glyph.
pub open spec fn sorted_choice(chosen: Seq<(u16, int)>, k: int) -> Seq<(u16, int)>
    decreases k,
{
    if k <= 0 {
        Seq::empty()
    } else {
        sorted_in(sorted_choice(chosen, k - 1), chosen[k - 1])
    }
}

/// The smaller of two numbers.
pub open spec fn least(a: int, b: int) -> int {
    if a < b {
        a
    } else {
        b
    }
}

/// The choice among the glyphs, with or without a map.
pub open spec fn first_choice(
    is: Seq<Ink>,
    map: Option<Seq<Option<u8>>>,
    boxes: Seq<Bounds>,
    n: int,
) -> Seq<(u16, int)> {
    let glyphs = least(n, boxes.len() as int);
    match map {
        Some(m) => chosen_by_map(is, m, boxes, least(glyphs, m.len() as int)),
        None => chosen_by_turn(ink_pool(is), boxes, glyphs),
    }
}

/// The glyphs that get colour and their paints, ordered by glyph.
pub open spec fn color_choice(
    is: Seq<Ink>,
    map: Option<Seq<Option<u8>>>,
    boxes: Seq<Bounds>,
    n: int,
    forced: Seq<u16>,
) -> Seq<(u16, int)> {
    let all = with_forced(
        first_choice(is, map, boxes, n),
        visible_inks(is, is.len() as int)[0],
        boxes,
        forced,
        forced.len() as int,
    );
    sorted_choice(all, all.len() as int)
}

/// The `COLR` and the `CPAL` table; `None` where no paint can be seen or no glyph gets colour.
#[verifier::opaque]
pub open spec fn color_tables(
    is: Seq<Ink>,
    map: Option<Seq<Option<u8>>>,
    boxes: Seq<Bounds>,
    n: int,
    forced: Seq<u16>,
) -> Option<(Seq<u8>, Seq<u8>)> {
    let chosen = color_choice(is, map, boxes, n, forced);
    let pal = chosen_palette(chosen, is, chosen.len() as int);
    if visible_inks(is, is.len() as int).len() == 0 || chosen.len() == 0 {
        None
    } else {
        Some((colr_bytes(chosen, is, pal, boxes), cpal_bytes(pal)))
    }
}

/// The standard colour tables.
pub struct ColorTables {
    pub colr: Vec<u8>,
    pub cpal: Vec<u8>,
}

impl View for ColorTables {
    type V = (Seq<u8>, Seq<u8>);

    open spec fn view(&self) -> (Seq<u8>, Seq<u8>) {
        (self.colr@, self.cpal@)
    }
}

/// The elements lie between 0 and `n`.
pub open spec fn below(s: Seq<int>, n: int) -> bool {
    forall|i: int| 0 <= i < s.len() ==> 0 <= #[trigger] s[i] < n
}

/// The numbers.
pub open spec fn ints(s: Seq<usize>) -> Seq<int> {
    s.map_values(|x: usize| x as int)
}

/// Finds the paints that can be seen, and the gradients among them.
fn find_visible(paints: &[Paint]) -> (r: (Vec<usize>, Vec<usize>))
    ensures
        ints(r.0@) == visible_inks(inks(paints@), paints@.len() as int),
        ints(r.1@) == visible_gradients(inks(paints@), paints@.len() as int),
        below(ints(r.0@), paints@.len() as int),
        below(ints(r.1@), paints@.len() as int),
        r.0@.len() == 0 ==> r.1@.len() == 0,
{
    let ghost is = inks(paints@);
    let mut usable: Vec<usize> = Vec::new();
    let mut gradients: Vec<usize> = Vec::new();
    let mut i: usize = 0;
    assert(ints(usable@) =~= Seq::<int>::empty());
    assert(ints(gradients@) =~= Seq::<int>::empty());
    while i < paints.len()
        invariant
            i <= paints@.len(),
            is == inks(paints@),
            ints(usable@) == visible_inks(is, i as int),
            ints(gradients@) == visible_gradients(is, i as int),
            below(ints(usable@), i as int),
            below(ints(gradients@), i as int),
            usable@.len() == 0 ==> gradients@.len() == 0,
        decreases paints@.len() - i,
    {
        assert(is[i as int] == paints@[i as int]@);
        if paints[i].is_visible() {
            let ghost us = ints(usable@);
            let ghost gs = ints(gradients@);
            usable.push(i);
            assert(ints(usable@) =~= us.push(i as int));
            match &paints[i] {
                Paint::Linear(_stops) => {
                    gradients.push(i);
                    assert(ints(gradients@) =~= gs.push(i as int));
                },
                Paint::Solid(_c) => {},
            }
        }
        i += 1;
    }
    (usable, gradients)
}

/// Chooses glyphs and paints by a map.
fn choose_by_map(paints: &[Paint], map: &[Option<u8>], boxes: &[Bounds], k: usize) -> (r: Vec<
    (u16, usize),
>)
    requires
        k <= map@.len(),
        k <= boxes@.len(),
    ensures
        picks(r@) == chosen_by_map(inks(paints@), map@, boxes@, k as int),
        choice_fits(picks(r@), paints@.len() as int, boxes@.len() as int),
{
    let ghost is = inks(paints@);
    let mut chosen: Vec<(u16, usize)> = Vec::new();
    assert(picks(chosen@) =~= Seq::<(u16, int)>::empty());
    let mut gid: usize = 0;
    while gid < k
        invariant
            gid <= k,
            k <= map@.len(),
            k <= boxes@.len(),
            is == inks(paints@),
            picks(chosen@) == chosen_by_map(is, map@, boxes@, gid as int),
            choice_fits(picks(chosen@), paints@.len() as int, boxes@.len() as int),
        decreases k - gid,
    {
        if let Some(b) = map[gid] {
            let b: usize = b as usize;
            if boxes[gid].is_some() && b < paints.len() {
                assert(is[b as int] == paints@[b as int]@);
                if paints[b].is_visible() {
                    let ghost before = picks(chosen@);
                    chosen.push((low16(gid), b));
                    assert(picks(chosen@) =~= before.push((gid16(gid as int), b as int)));
                }
            }
        }
        gid += 1;
    }
    chosen
}

/// Chooses glyphs, and paints in turn.
fn choose_by_turn(pool: &Vec<usize>, paints: usize, boxes: &[Bounds], k: usize) -> (r: Vec<
    (u16, usize),
>)
    requires
        k <= boxes@.len(),
        pool@.len() > 0,
        below(ints(pool@), paints as int),
    ensures
        picks(r@) == chosen_by_turn(ints(pool@), boxes@, k as int),
        choice_fits(picks(r@), paints as int, boxes@.len() as int),
{
    let ghost ps = ints(pool@);
    let mut chosen: Vec<(u16, usize)> = Vec::new();
    assert(picks(chosen@) =~= Seq::<(u16, int)>::empty());
    let mut gid: usize = 0;
    while gid < k
        invariant
            gid <= k,
            k <= boxes@.len(),
            pool@.len() > 0,
            ps == ints(pool@),
            below(ps, paints as int),
            picks(chosen@) == chosen_by_turn(ps, boxes@, gid as int),
            choice_fits(picks(chosen@), paints as int, boxes@.len() as int),
        decreases k - gid,
    {
        if boxes[gid].is_some() {
            let t: usize = gid % pool.len();
            let p = pool[t];
            assert(ps[t as int] == p);
            let ghost before = picks(chosen@);
            chosen.push((low16(gid), p));
            assert(picks(chosen@) =~= before.push((gid16(gid as int), p as int)));
        }
        gid += 1;
    }
    chosen
}

/// Whether a glyph has been chosen.
fn has_chosen(chosen: &Vec<(u16, usize)>, gid: u16) -> (r: bool)
    ensures
        r == is_chosen(picks(chosen@), gid),
{
    let ghost cs = picks(chosen@);
    let mut i: usize = 0;
    while i < chosen.len()
        invariant
            i <= chosen@.len(),
            cs == picks(chosen@),
            forall|k: int| 0 <= k < i ==> (#[trigger] cs[k]).0 != gid,
        decreases chosen@.len() - i,
    {
        assert(cs[i as int].0 == chosen@[i as int].0);
        if chosen[i].0 == gid {
            return true;
        }
        i += 1;
    }
    false
}

/// Chooses the glyphs that are to have colour in any case.
fn add_forced(
    chosen: &mut Vec<(u16, usize)>,
    p: usize,
    paints: usize,
    boxes: &[Bounds],
    forced: &[u16],
)
    requires
        p < paints,
        choice_fits(picks(old(chosen)@), paints as int, boxes@.len() as int),
    ensures
        picks(final(chosen)@) == with_forced(
            picks(old(chosen)@),
            p as int,
            boxes@,
            forced@,
            forced@.len() as int,
        ),
        choice_fits(picks(final(chosen)@), paints as int, boxes@.len() as int),
{
    let ghost start = picks(chosen@);
    let mut k: usize = 0;
    while k < forced.len()
        invariant
            k <= forced@.len(),
            p < paints,
            picks(chosen@) == with_forced(start, p as int, boxes@, forced@, k as int),
            choice_fits(picks(chosen@), paints as int, boxes@.len() as int),
        decreases forced@.len() - k,
    {
        let gid = forced[k];
        let g = gid as usize;
        if g < boxes.len() && boxes[g].is_some() && !has_chosen(chosen, gid) {
            let ghost before = picks(chosen@);
            chosen.push((gid, p));
            assert(picks(chosen@) =~= before.push((gid, p as int)));
        }
        k += 1;
    }
}

proof fn lemma_sorted_in(chosen: Seq<(u16, int)>, e: (u16, int), i: int)
    requires
        0 <= i <= chosen.len(),
        i > 0 ==> chosen[i - 1].0 <= e.0,
        forall|j: int| i <= j < chosen.len() ==> (#[trigger] chosen[j]).0 > e.0,
    ensures
        sorted_in(chosen, e) == chosen.insert(i, e),
    decreases chosen.len(),
{
    if i < chosen.len() {
        assert(chosen[chosen.len() - 1].0 > e.0);
        lemma_sorted_in(chosen.drop_last(), e, i);
    }
    assert(sorted_in(chosen, e) =~= chosen.insert(i, e));
}

/// Orders a choice by glyph.
fn sort_choice(chosen: &Vec<(u16, usize)>, paints: usize, boxes: usize) -> (r: Vec<(u16, usize)>)
    requires
        choice_fits(picks(chosen@), paints as int, boxes as int),
    ensures
        picks(r@) == sorted_choice(picks(chosen@), chosen@.len() as int),
        r@.len() == chosen@.len(),
        choice_fits(picks(r@), paints as int, boxes as int),
{
    let ghost cs = picks(chosen@);
    let mut out: Vec<(u16, usize)> = Vec::new();
    assert(picks(out@) =~= Seq::<(u16, int)>::empty());
    let mut k: usize = 0;
    while k < chosen.len()
        invariant
            k <= chosen@.len(),
            cs == picks(chosen@),
            choice_fits(cs, paints as int, boxes as int),
            out@.len() == k,
            picks(out@) == sorted_choice(cs, k as int),
            choice_fits(picks(out@), paints as int, boxes as int),
        decreases chosen@.len() - k,
    {
        let e = chosen[k];
        assert(cs[k as int] == (e.0, e.1 as int));
        let ghost before = picks(out@);
        let mut i: usize = out.len();
        while i > 0 && out[i - 1].0 > e.0
            invariant
                i <= out@.len(),
                before == picks(out@),
                forall|j: int| i <= j < out@.len() ==> (#[trigger] before[j]).0 > e.0,
            decreases i,
        {
            assert(before[i - 1].0 == out@[i - 1].0);
            i -= 1;
        }
        proof {
            if i > 0 {
                assert(before[i - 1].0 == out@[i - 1].0);
            }
            lemma_sorted_in(before, cs[k as int], i as int);
        }
        out.insert(i, e);
        assert(picks(out@) =~= before.insert(i as int, cs[k as int]));
        assert forall|j: int| 0 <= j < out@.len() implies (#[trigger] picks(out@)[j]).0 < boxes
            && 0 <= picks(out@)[j].1 < paints by {
            if j < i {
                assert(picks(out@)[j] == before[j]);
            } else if j > i {
                assert(picks(out@)[j] == before[j - 1]);
            }
        }
        k += 1;
    }
    out
}

/// The contents of a map of paints.
pub open spec fn map_view(map: Option<&[Option<u8>]>) -> Option<Seq<Option<u8>>> {
    match map {
        Some(m) => Some(m@),
        None => None,
    }
}

/// Builds the standard colour tables from the paints of a font, the paints of its glyphs where they
/// are known, the bounds of the glyphs, and glyphs that are to have colour in any case.
pub fn build_color_tables(
    paints: &[Paint],
    cglf_brush: Option<&[Option<u8>]>,
    bboxes: &[Bounds],
    num_glyphs: usize,
    forced_gids: &[u16],
) -> (r: Option<ColorTables>)
    ensures
        match r {
            Some(t) => color_tables(
                inks(paints@),
                map_view(cglf_brush),
                bboxes@,
                num_glyphs as int,
                forced_gids@,
            ) == Some(t@),
            None => color_tables(
                inks(paints@),
                map_view(cglf_brush),
                bboxes@,
                num_glyphs as int,
                forced_gids@,
            ) is None,
        },
{
    proof {
        reveal(color_tables);
    }
    let (usable, gradients) = find_visible(paints);
    if usable.len() == 0 {
        return None;
    }
    let ghost is = inks(paints@);
    let fallback = usable[0];
    assert(ints(usable@)[0] == fallback);
    let pool = if gradients.len() > 0 {
        gradients
    } else {
        usable
    };
    assert(ints(pool@) == ink_pool(is));
    let glyphs: usize = if num_glyphs < bboxes.len() {
        num_glyphs
    } else {
        bboxes.len()
    };
    let mut chosen = match cglf_brush {
        Some(map) => choose_by_map(
            paints,
            map,
            bboxes,
            if glyphs < map.len() {
                glyphs
            } else {
                map.len()
            },
        ),
        None => choose_by_turn(&pool, paints.len(), bboxes, glyphs),
    };
    add_forced(&mut chosen, fallback, paints.len(), bboxes, forced_gids);
    let sorted = sort_choice(&chosen, paints.len(), bboxes.len());
    if sorted.len() == 0 {
        return None;
    }
    let mut palette = Palette::new();
    intern_chosen(&mut palette, &sorted, paints, bboxes.len());
    let ghost cs = picks(sorted@);
    proof {
        let n = cs.len() as int;
        assert forall|i: int| 0 <= i < n implies holds(
            palette.colors@,
            colors_of(is[(#[trigger] cs[i]).1]),
        ) by {
            lemma_palette_holds(Seq::empty(), cs, is, n, i);
        }
        lemma_chosen_same(palette.colors@, cs, is, n);
    }
    let colr = encode_colr(&sorted, paints, &mut palette, bboxes);
    let cpal = encode_cpal(&palette.colors);
    Some(ColorTables { colr, cpal })
}

} // verus!
