//! The `cmap` table: from characters to glyphs.

use std::collections::BTreeMap;
use vstd::prelude::*;
use vstd::slice::slice_to_vec;
use crate::bytes::{
    append, append_padded, append_zeros, be16, be32, enc16, enc32, get16, get32,
    lemma_enc32_mod, low32, numbers16, padded, push16, push32, push_len16, push_signed16,
    same_bytes, tail, to_i16, wrap16, zeros,
};
use crate::sfnt::{floor_log2, floor_pow2, lemma_floor_pow2, search_params};

verus! {

broadcast use crate::bytes::group_encoded_lengths;

/// Twice the number of segments of a format 4 subtable.
pub open spec fn seg_x2(sub: Seq<u8>) -> int {
    be16(sub, 6)
}

/// The number of segments.
pub open spec fn seg_count(sub: Seq<u8>) -> int {
    seg_x2(sub) / 2
}

/// The length that the subtable gives for itself.
pub open spec fn sub_len(sub: Seq<u8>) -> int {
    be16(sub, 2)
}

/// The last character of segment `i`.
pub open spec fn seg_end(sub: Seq<u8>, i: int) -> int {
    be16(sub, 14 + 2 * i)
}

/// The first character of segment `i`.
pub open spec fn seg_start(sub: Seq<u8>, i: int) -> int {
    be16(sub, 16 + seg_x2(sub) + 2 * i)
}

/// What segment `i` adds to a character.
pub open spec fn seg_delta(sub: Seq<u8>, i: int) -> int {
    be16(sub, 16 + 2 * seg_x2(sub) + 2 * i)
}

/// Where the glyphs of segment `i` stand, counted from this number itself; 0 for nowhere.
pub open spec fn seg_range(sub: Seq<u8>, i: int) -> int {
    be16(sub, 16 + 3 * seg_x2(sub) + 2 * i)
}

/// Where the glyphs of segment `i` stand.
pub open spec fn seg_base(sub: Seq<u8>, i: int) -> int {
    16 + 3 * seg_x2(sub) + 2 * i + seg_range(sub, i)
}

/// Where the list of glyphs begins.
pub open spec fn glyphs_start(sub: Seq<u8>) -> int {
    16 + 4 * seg_x2(sub)
}

/// Whether the parts of the subtable lie in it.
pub open spec fn seg_layout(sub: Seq<u8>) -> bool {
    &&& sub.len() >= 14
    &&& sub_len(sub) <= sub.len()
    &&& seg_count(sub) > 0
    &&& glyphs_start(sub) <= sub_len(sub)
}

/// The segments among the first `k` that end with 0xFFFF.
pub open spec fn terminators(sub: Seq<u8>, k: int) -> int
    decreases k,
{
    if k <= 0 {
        0
    } else if seg_end(sub, k - 1) == 0xFFFF {
        terminators(sub, k - 1) + 1
    } else {
        terminators(sub, k - 1)
    }
}

/// Exactly one segment ends with 0xFFFF, and it is the last.
pub open spec fn well_terminated(sub: Seq<u8>) -> bool {
    terminators(sub, seg_count(sub)) == 1 && seg_end(sub, seg_count(sub) - 1) == 0xFFFF
}

/// The glyph that segment `i` gives a character; 0 for none. 0xFFFF is no character.
pub open spec fn seg_glyph(sub: Seq<u8>, i: int, c: int) -> int {
    if !(seg_start(sub, i) <= c <= seg_end(sub, i)) || c == 0xFFFF {
        0
    } else if seg_range(sub, i) == 0 {
        (c + seg_delta(sub, i)) % 0x1_0000
    } else {
        let at = seg_base(sub, i) + 2 * (c - seg_start(sub, i));
        if seg_base(sub, i) >= glyphs_start(sub) && at + 2 <= sub_len(sub) {
            be16(sub, at)
        } else {
            0
        }
    }
}

/// The glyph of a character by the first `k` segments: the first that gives one counts.
pub open spec fn mapped(sub: Seq<u8>, c: int, k: int) -> int
    decreases k,
{
    if k <= 0 {
        0
    } else {
        let before = mapped(sub, c, k - 1);
        if before != 0 {
            before
        } else {
            seg_glyph(sub, k - 1, c)
        }
    }
}

/// The glyphs of all characters by the first `k` segments.
pub open spec fn mapping(sub: Seq<u8>, k: int) -> Seq<u16> {
    Seq::new(0x1_0000, |c: int| mapped(sub, c, k) as u16)
}

/// The glyphs that a map gives the characters; 0 for none.
pub open spec fn glyphs_of(m: Map<u16, u16>) -> Seq<u16> {
    Seq::new(
        0x1_0000,
        |c: int|
            if m.dom().contains(c as u16) {
                m[c as u16]
            } else {
                0
            },
    )
}

/// A map gives no character glyph 0.
pub open spec fn gives_glyphs(m: Map<u16, u16>) -> bool {
    forall|c: u16| #[trigger] m.dom().contains(c) ==> m[c] != 0
}

/// A segment of characters in a row with glyphs in a row: first, last, and what to add.
#[derive(Debug, Clone, Copy, PartialEq, Eq, Structural)]
pub struct Run {
    pub start: u16,
    pub end: u16,
    pub delta: i16,
}

/// The longest such segments among the characters below `c`.
pub open spec fn runs(m: Seq<u16>, c: int) -> Seq<Run>
    decreases c,
{
    if c <= 0 {
        Seq::empty()
    } else {
        let rs = runs(m, c - 1);
        if m[c - 1] == 0 {
            rs
        } else if rs.len() > 0 && rs.last().end == c - 2 && m[c - 2] + 1 == m[c - 1] {
            rs.update(rs.len() - 1, Run { end: (c - 1) as u16, ..rs.last() })
        } else {
            rs.push(
                Run {
                    start: (c - 1) as u16,
                    end: (c - 1) as u16,
                    delta: wrap16(m[c - 1] - (c - 1)),
                },
            )
        }
    }
}

/// The segments of a mapping and the one that ends the table.
pub open spec fn terminated_runs(m: Seq<u16>) -> Seq<Run> {
    runs(m, 0xFFFF).push(Run { start: 0xFFFF, end: 0xFFFF, delta: 1 })
}

/// The last characters of segments.
pub open spec fn run_ends(rs: Seq<Run>) -> Seq<int> {
    rs.map_values(|r: Run| r.end as int)
}

/// The first characters of segments.
pub open spec fn run_starts(rs: Seq<Run>) -> Seq<int> {
    rs.map_values(|r: Run| r.start as int)
}

/// What segments add.
pub open spec fn run_deltas(rs: Seq<Run>) -> Seq<int> {
    rs.map_values(|r: Run| r.delta as int)
}

/// The head of a format 4 subtable with `n` segments.
pub open spec fn format4_head(n: int) -> Seq<u8> {
    enc16(4) + enc16(16 + 8 * n) + enc16(0) + enc16(2 * n) + enc16(2 * floor_pow2(n)) + enc16(
        floor_log2(n),
    ) + enc16(2 * n - 2 * floor_pow2(n))
}

/// A format 4 subtable.
#[verifier::opaque]
pub open spec fn format4(rs: Seq<Run>) -> Seq<u8> {
    let n = rs.len() as int;
    format4_head(n) + numbers16(run_ends(rs), n) + enc16(0) + numbers16(run_starts(rs), n)
        + numbers16(run_deltas(rs), n) + zeros((2 * n) as nat)
}

/// A format 4 subtable with one terminator. One that has its parts in place and is well terminated
/// stays as it is, as does one that cannot be read.
pub open spec fn rebuilt4(sub: Seq<u8>) -> Seq<u8> {
    if seg_layout(sub) && !well_terminated(sub) {
        format4(terminated_runs(mapping(sub, seg_count(sub))))
    } else {
        sub
    }
}

/// Segment `i` points to the two bytes before the list of glyphs.
pub open spec fn strays(sub: Seq<u8>, i: int) -> bool {
    &&& seg_start(sub, i) <= seg_end(sub, i)
    &&& seg_start(sub, i) != 0xFFFF
    &&& seg_range(sub, i) != 0
    &&& seg_base(sub, i) + 2 <= sub_len(sub)
    &&& glyphs_start(sub) - 2 <= seg_base(sub, i) < glyphs_start(sub)
}

/// Every segment that has to be read can be.
pub open spec fn readable4(sub: Seq<u8>) -> bool {
    seg_layout(sub) && !well_terminated(sub) ==> forall|i: int|
        0 <= i < seg_count(sub) ==> !#[trigger] strays(sub, i)
}

/// Glyphs have 16 bits.
pub proof fn lemma_mapped_range(sub: Seq<u8>, c: int, k: int)
    ensures
        0 <= mapped(sub, c, k) < 0x1_0000,
    decreases k,
{
    if k > 0 {
        lemma_mapped_range(sub, c, k - 1);
    }
}

/// Counts the terminators.
fn count_terminators(sub: &[u8], segcount: usize) -> (r: usize)
    requires
        seg_layout(sub@),
        segcount == seg_count(sub@),
    ensures
        r == terminators(sub@, segcount as int),
{
    let mut n: usize = 0;
    let mut i: usize = 0;
    while i < segcount
        invariant
            i <= segcount,
            n <= i,
            seg_layout(sub@),
            segcount == seg_count(sub@),
            n == terminators(sub@, i as int),
        decreases segcount - i,
    {
        if get16(sub, 14 + i * 2) == 0xFFFF {
            n += 1;
        }
        i += 1;
    }
    n
}

/// Takes segment `i` into the mapping; `false` where it cannot be read.
fn map_segment(sub: &[u8], i: usize, map: &mut BTreeMap<u16, u16>) -> (ok: bool)
    requires
        seg_layout(sub@),
        i < seg_count(sub@),
        gives_glyphs(old(map)@),
        glyphs_of(old(map)@) == mapping(sub@, i as int),
    ensures
        ok == !strays(sub@, i as int),
        ok ==> gives_glyphs(final(map)@),
        ok ==> glyphs_of(final(map)@) == mapping(sub@, i + 1),
{
    let length = get16(sub, 2) as usize;
    let x2 = get16(sub, 6) as usize;
    let range_at: usize = 16 + 3 * x2 + 2 * i;
    let glyph_off: usize = 16 + 4 * x2;
    let end = get16(sub, 14 + 2 * i) as usize;
    let start = get16(sub, 16 + x2 + 2 * i) as usize;
    let delta = get16(sub, 16 + 2 * x2 + 2 * i) as usize;
    let ro = get16(sub, range_at) as usize;
    let base: usize = range_at + ro;
    let direct = ro == 0;
    let mut live = start <= end;
    if live && !direct {
        if base + 2 > length {
            live = false;
        } else if base < glyph_off {
            if base + 2 >= glyph_off && start != 0xFFFF {
                return false;
            }
            live = false;
        }
    }
    let ghost before = glyphs_of(map@);
    let ghost mut now = before;
    let mut c: usize = start;
    let stop: usize = if live {
        end + 1
    } else {
        start
    };
    let mut open = true;
    while open && c < stop
        invariant
            seg_layout(sub@),
            0 <= i < seg_count(sub@),
            length == sub_len(sub@),
            glyph_off == glyphs_start(sub@),
            start == seg_start(sub@, i as int),
            end == seg_end(sub@, i as int),
            delta == seg_delta(sub@, i as int),
            ro == seg_range(sub@, i as int),
            base == seg_base(sub@, i as int),
            direct == (ro == 0),
            start <= c <= stop,
            stop <= 0x1_0000,
            stop == if live {
                end + 1
            } else {
                start as int
            },
            live ==> start <= end,
            live && !direct ==> base + 2 <= length && base >= glyph_off,
            before == mapping(sub@, i as int),
            gives_glyphs(map@),
            now == glyphs_of(map@),
            forall|k: int| 0 <= k < 0x1_0000 && !(start <= k < c) ==> now[k] == before[k],
            forall|k: int| start <= k < c ==> now[k] == mapped(sub@, k, i + 1),
            !open ==> (forall|k: int| c <= k < stop ==> #[trigger] seg_glyph(sub@, i as int, k) == 0),
        decreases stop - c, open as int,
    {
        let at: usize = base + 2 * (c - start);
        let mut g: u16 = 0;
        if c != 0xFFFF {
            if direct {
                g = ((c + delta) % 0x1_0000) as u16;
            } else if at + 2 > length {
                open = false;
            } else {
                g = get16(sub, at);
            }
        }
        if open {
            assert(g == seg_glyph(sub@, i as int, c as int));
            proof {
                lemma_mapped_range(sub@, c as int, i as int);
            }
            assert(before[c as int] == mapped(sub@, c as int, i as int));
            let ghost old_map = map@;
            if g != 0 && !map.contains_key(&(c as u16)) {
                map.insert(c as u16, g);
                proof {
                    assert(map@ == old_map.insert(c as u16, g));
                    assert(glyphs_of(map@) =~= now.update(c as int, g));
                    now = glyphs_of(map@);
                }
            }
            assert(now[c as int] == mapped(sub@, c as int, i + 1));
            c += 1;
        }
    }
    assert forall|k: int| 0 <= k < 0x1_0000 implies now[k] == #[trigger] mapping(
        sub@,
        i + 1,
    )[k] by {
        lemma_mapped_range(sub@, k, i as int);
        lemma_mapped_range(sub@, k, i + 1);
        assert(before[k] == mapped(sub@, k, i as int));
        if !(start <= k < c) {
            assert(seg_glyph(sub@, i as int, k) == 0);
            assert(mapped(sub@, k, i + 1) == mapped(sub@, k, i as int));
        }
    }
    assert(now =~= mapping(sub@, i + 1));
    true
}

/// Reads the mapping; `None` where a segment cannot be read.
fn read_mapping(sub: &[u8], segcount: usize) -> (r: Option<BTreeMap<u16, u16>>)
    requires
        seg_layout(sub@),
        segcount == seg_count(sub@),
    ensures
        match r {
            Some(map) => glyphs_of(map@) == mapping(sub@, segcount as int) && forall|j: int|
                0 <= j < segcount ==> !#[trigger] strays(sub@, j),
            None => exists|j: int| 0 <= j < segcount && #[trigger] strays(sub@, j),
        },
{
    let mut map: BTreeMap<u16, u16> = BTreeMap::new();
    assert(glyphs_of(map@) =~= mapping(sub@, 0));
    let mut i: usize = 0;
    while i < segcount
        invariant
            i <= segcount,
            seg_layout(sub@),
            segcount == seg_count(sub@),
            gives_glyphs(map@),
            glyphs_of(map@) == mapping(sub@, i as int),
            forall|j: int| 0 <= j < i ==> !#[trigger] strays(sub@, j),
        decreases segcount - i,
    {
        if !map_segment(sub, i, &mut map) {
            return None;
        }
        i += 1;
    }
    Some(map)
}

/// Finds the segments of a mapping.
fn build_runs(map: &BTreeMap<u16, u16>) -> (rs: Vec<Run>)
    ensures
        rs@ == runs(glyphs_of(map@), 0xFFFF),
        rs@.len() <= 0xFFFF,
{
    let ghost m = glyphs_of(map@);
    let mut rs: Vec<Run> = Vec::new();
    let mut prev: u16 = 0;
    let mut c: u16 = 0;
    while c < 0xFFFF
        invariant
            m == glyphs_of(map@),
            rs@ == runs(m, c as int),
            rs@.len() <= c,
            rs@.len() > 0 ==> rs@.last().end < c,
            c > 0 ==> prev == m[c - 1],
        decreases 0xFFFF - c,
    {
        let g: u16 = match map.get(&c) {
            Some(g) => *g,
            None => 0,
        };
        assert(g == m[c as int]);
        if g != 0 {
            let n: usize = rs.len();
            if n > 0 && rs[n - 1].end == c - 1 && prev as u32 + 1 == g as u32 {
                let last = rs[n - 1];
                rs.set(n - 1, Run { start: last.start, end: c, delta: last.delta });
            } else {
                let delta = to_i16(g as i32 - c as i32);
                rs.push(Run { start: c, end: c, delta });
            }
        }
        prev = g;
        c += 1;
        assert(rs@ =~= runs(m, c as int));
    }
    rs
}

/// Writes the head of a format 4 subtable.
fn write_head4(n: usize) -> (out: Vec<u8>)
    requires
        1 <= n <= 0x1_0000,
    ensures
        out@ == format4_head(n as int),
{
    let (selector, pow) = search_params(n as u32);
    proof {
        lemma_floor_pow2(n as int);
    }
    let mut out: Vec<u8> = Vec::new();
    push16(&mut out, 4);
    assert(out@ =~= enc16(4));
    push_len16(&mut out, 16 + 8 * n);
    push16(&mut out, 0);
    push_len16(&mut out, 2 * n);
    push_len16(&mut out, 2 * pow as usize);
    push16(&mut out, selector);
    push_len16(&mut out, 2 * n - 2 * pow as usize);
    out
}

/// Writes a format 4 subtable.
fn write_format4(rs: &Vec<Run>) -> (out: Vec<u8>)
    requires
        1 <= rs@.len() <= 0x1_0000,
    ensures
        out@ == format4(rs@),
{
    proof {
        reveal(format4);
    }
    let n: usize = rs.len();
    let mut out = write_head4(n);
    let mut starts: Vec<u8> = Vec::new();
    let mut deltas: Vec<u8> = Vec::new();
    let mut i: usize = 0;
    let ghost (es, ss, ds) = (run_ends(rs@), run_starts(rs@), run_deltas(rs@));
    assert(out@ =~= format4_head(n as int) + numbers16(es, 0));
    while i < n
        invariant
            i <= n,
            n == rs@.len(),
            (es, ss, ds) == (run_ends(rs@), run_starts(rs@), run_deltas(rs@)),
            out@ == format4_head(n as int) + numbers16(es, i as int),
            starts@ == numbers16(ss, i as int),
            deltas@ == numbers16(ds, i as int),
        decreases n - i,
    {
        push16(&mut out, rs[i].end);
        push16(&mut starts, rs[i].start);
        push_signed16(&mut deltas, rs[i].delta);
        assert(es[i as int] == rs@[i as int].end);
        assert(ss[i as int] == rs@[i as int].start);
        assert(ds[i as int] == rs@[i as int].delta);
        assert(out@ =~= format4_head(n as int) + numbers16(es, i + 1));
        i += 1;
    }
    push16(&mut out, 0);
    append(&mut out, starts.as_slice());
    append(&mut out, deltas.as_slice());
    append_zeros(&mut out, 2 * n);
    out
}

/// Rebuilds a format 4 subtable so that it has one terminator; `None` where a segment cannot be
/// read.
pub fn rebuild_format4_subtable(sub: &[u8]) -> (r: Option<Vec<u8>>)
    ensures
        match r {
            Some(out) => readable4(sub@) && out@ == rebuilt4(sub@),
            None => !readable4(sub@),
        },
{
    if sub.len() < 14 {
        return Some(slice_to_vec(sub));
    }
    let length = get16(sub, 2) as usize;
    let x2 = get16(sub, 6) as usize;
    let segcount: usize = x2 / 2;
    if length > sub.len() || segcount == 0 || 16 + 4 * x2 > length {
        return Some(slice_to_vec(sub));
    }
    if count_terminators(sub, segcount) == 1 && get16(sub, 14 + 2 * (segcount - 1)) == 0xFFFF {
        return Some(slice_to_vec(sub));
    }
    match read_mapping(sub, segcount) {
        None => None,
        Some(map) => {
            let mut rs = build_runs(&map);
            rs.push(Run { start: 0xFFFF, end: 0xFFFF, delta: 1 });
            Some(write_format4(&rs))
        },
    }
}

/// A subtable of the `cmap` table and the encoding that it is for.
pub struct Coding<T> {
    pub platform: u16,
    pub encoding: u16,
    pub data: T,
}

/// The number of encodings that a `cmap` table announces.
pub open spec fn coding_count(cmap: Seq<u8>) -> int {
    be16(cmap, 2)
}

/// Where the subtable of encoding `i` begins.
pub open spec fn coding_start(cmap: Seq<u8>, i: int) -> int {
    be32(cmap, 4 + 8 * i + 4)
}

/// The subtable of encoding `i` with all that follows it.
pub open spec fn coding_data(cmap: Seq<u8>, i: int) -> Seq<u8> {
    cmap.skip(coding_start(cmap, i))
}

/// The format of a subtable is 4.
pub open spec fn is_format4(sub: Seq<u8>) -> bool {
    sub.len() >= 2 && be16(sub, 0) == 4
}

/// A subtable, rebuilt where its format is 4.
pub open spec fn rebuilt_subtable(sub: Seq<u8>) -> Seq<u8> {
    if is_format4(sub) {
        rebuilt4(sub)
    } else {
        sub
    }
}

/// The first `k` encodings whose subtables begin in the table, with their subtables rebuilt.
pub open spec fn rebuilt_codings(cmap: Seq<u8>, k: int) -> Seq<Coding<Seq<u8>>>
    decreases k,
{
    if k <= 0 {
        Seq::empty()
    } else if coding_start(cmap, k - 1) >= cmap.len() {
        rebuilt_codings(cmap, k - 1)
    } else {
        rebuilt_codings(cmap, k - 1).push(
            Coding {
                platform: be16(cmap, 4 + 8 * (k - 1)) as u16,
                encoding: be16(cmap, 4 + 8 * (k - 1) + 2) as u16,
                data: rebuilt_subtable(coding_data(cmap, k - 1)),
            },
        )
    }
}

/// The first encoding from `j` on whose subtable equals that of encoding `i`.
pub open spec fn first_like(cs: Seq<Coding<Seq<u8>>>, i: int, j: int) -> int
    decreases i - j,
{
    if j >= i || cs[j].data == cs[i].data {
        j
    } else {
        first_like(cs, i, j + 1)
    }
}

/// The subtables of the first `k` encodings, each written once and padded to whole words.
pub open spec fn distinct_subtables(cs: Seq<Coding<Seq<u8>>>, k: int) -> Seq<u8>
    decreases k,
{
    if k <= 0 {
        Seq::empty()
    } else if first_like(cs, k - 1, 0) == k - 1 {
        distinct_subtables(cs, k - 1) + padded(cs[k - 1].data)
    } else {
        distinct_subtables(cs, k - 1)
    }
}

/// Where the subtable of encoding `i` is written.
pub open spec fn subtable_place(cs: Seq<Coding<Seq<u8>>>, i: int) -> int {
    4 + 8 * cs.len() as int + distinct_subtables(cs, first_like(cs, i, 0)).len()
}

/// The entries of the first `k` encodings.
pub open spec fn coding_entries(cs: Seq<Coding<Seq<u8>>>, k: int) -> Seq<u8>
    decreases k,
{
    if k <= 0 {
        Seq::empty()
    } else {
        coding_entries(cs, k - 1) + (enc16(cs[k - 1].platform as int) + enc16(
            cs[k - 1].encoding as int,
        ) + enc32(subtable_place(cs, k - 1)))
    }
}

/// A `cmap` table.
pub open spec fn cmap_bytes(version: int, cs: Seq<Coding<Seq<u8>>>) -> Seq<u8> {
    enc16(version) + enc16(cs.len() as int) + coding_entries(cs, cs.len() as int)
        + distinct_subtables(cs, cs.len() as int)
}

/// A whole list of encodings stands in the table.
pub open spec fn coding_layout(cmap: Seq<u8>) -> bool {
    cmap.len() >= 4 && cmap.len() >= 4 + 8 * coding_count(cmap)
}

/// The `cmap` table with its subtables rebuilt; as it is where its list of encodings is not whole.
#[verifier::opaque]
pub open spec fn rebuilt_cmap(cmap: Seq<u8>) -> Seq<u8> {
    if coding_layout(cmap) {
        cmap_bytes(be16(cmap, 0), rebuilt_codings(cmap, coding_count(cmap)))
    } else {
        cmap
    }
}

/// Encoding `i` has a subtable that can be rebuilt, or that need not be.
pub open spec fn readable_coding(cmap: Seq<u8>, i: int) -> bool {
    coding_start(cmap, i) < cmap.len() && is_format4(coding_data(cmap, i)) ==> readable4(
        coding_data(cmap, i),
    )
}

/// All subtables can be rebuilt.
#[verifier::opaque]
pub open spec fn readable_cmap(cmap: Seq<u8>) -> bool {
    coding_layout(cmap) ==> forall|i: int|
        0 <= i < coding_count(cmap) ==> #[trigger] readable_coding(cmap, i)
}

/// The encodings with the bytes of their subtables.
pub open spec fn coding_views(cs: Seq<Coding<Vec<u8>>>) -> Seq<Coding<Seq<u8>>> {
    cs.map_values(
        |c: Coding<Vec<u8>>|
            Coding { platform: c.platform, encoding: c.encoding, data: c.data@ },
    )
}

/// Rebuilds a subtable; `None` where it cannot be read.
fn rebuild_subtable(sub: &[u8]) -> (r: Option<Vec<u8>>)
    ensures
        match r {
            Some(out) => (is_format4(sub@) ==> readable4(sub@)) && out@ == rebuilt_subtable(sub@),
            None => is_format4(sub@) && !readable4(sub@),
        },
{
    if sub.len() >= 2 && get16(sub, 0) == 4 {
        rebuild_format4_subtable(sub)
    } else {
        Some(slice_to_vec(sub))
    }
}

/// Reads the encodings and rebuilds their subtables; `None` where one cannot be read.
fn read_codings(cmap: &[u8], ntab: usize) -> (r: Option<Vec<Coding<Vec<u8>>>>)
    requires
        coding_layout(cmap@),
        ntab == coding_count(cmap@),
    ensures
        match r {
            Some(cs) => coding_views(cs@) == rebuilt_codings(cmap@, ntab as int) && cs@.len()
                <= ntab && forall|j: int| 0 <= j < ntab ==> #[trigger] readable_coding(cmap@, j),
            None => exists|j: int| 0 <= j < ntab && !#[trigger] readable_coding(cmap@, j),
        },
{
    let mut cs: Vec<Coding<Vec<u8>>> = Vec::new();
    assert(coding_views(cs@) =~= rebuilt_codings(cmap@, 0));
    let mut i: usize = 0;
    while i < ntab
        invariant
            i <= ntab,
            ntab < 0x1_0000,
            coding_layout(cmap@),
            ntab == coding_count(cmap@),
            coding_views(cs@) == rebuilt_codings(cmap@, i as int),
            cs@.len() <= i,
            forall|j: int| 0 <= j < i ==> #[trigger] readable_coding(cmap@, j),
        decreases ntab - i,
    {
        let pos: usize = 4 + 8 * i;
        let off = get32(cmap, pos + 4);
        if (off as u64) < cmap.len() as u64 {
            let sub = tail(cmap, off as usize);
            match rebuild_subtable(sub) {
                None => {
                    assert(!readable_coding(cmap@, i as int));
                    return None;
                },
                Some(data) => {
                    let ghost before = coding_views(cs@);
                    let platform = get16(cmap, pos);
                    let encoding = get16(cmap, pos + 2);
                    let ghost c = Coding { platform, encoding, data: data@ };
                    cs.push(Coding { platform, encoding, data });
                    assert(coding_views(cs@) =~= before.push(c));
                },
            }
        }
        i += 1;
    }
    Some(cs)
}

/// Finds the first encoding with the same subtable.
fn find_like(cs: &Vec<Coding<Vec<u8>>>, i: usize) -> (r: usize)
    requires
        i < cs@.len(),
    ensures
        r == first_like(coding_views(cs@), i as int, 0),
        r <= i,
{
    let ghost all = coding_views(cs@);
    let mut j: usize = 0;
    assert(all[i as int].data == cs@[i as int].data@);
    while j < i
        invariant
            j <= i,
            i < cs@.len(),
            all == coding_views(cs@),
            all[i as int].data == cs@[i as int].data@,
            first_like(all, i as int, 0) == first_like(all, i as int, j as int),
        decreases i - j,
    {
        assert(all[j as int].data == cs@[j as int].data@);
        if same_bytes(cs[j].data.as_slice(), cs[i].data.as_slice()) {
            return j;
        }
        j += 1;
    }
    j
}

/// Writes a `cmap` table.
fn write_cmap(version: u16, cs: &Vec<Coding<Vec<u8>>>) -> (out: Vec<u8>)
    requires
        cs@.len() < 0x1_0000,
    ensures
        out@ == cmap_bytes(version as int, coding_views(cs@)),
{
    let ghost all = coding_views(cs@);
    let n: usize = cs.len();
    let header_len: usize = 4 + 8 * n;
    let mut places: Vec<u32> = Vec::new();
    let mut entries: Vec<u8> = Vec::new();
    let mut blobs: Vec<u8> = Vec::new();
    let mut i: usize = 0;
    while i < n
        invariant
            i <= n,
            n == cs@.len(),
            n < 0x1_0000,
            header_len == 4 + 8 * n,
            all == coding_views(cs@),
            places@.len() == i,
            forall|k: int|
                0 <= k < i ==> places@[k] == (header_len + distinct_subtables(all, k).len())
                    % 0x1_0000_0000,
            entries@ == coding_entries(all, i as int),
            blobs@ == distinct_subtables(all, i as int),
        decreases n - i,
    {
        let c = &cs[i];
        assert(all[i as int] == (Coding {
            platform: c.platform,
            encoding: c.encoding,
            data: c.data@,
        }));
        let place: u32 = ((header_len as u64 + low32(blobs.len()) as u64) % 0x1_0000_0000) as u32;
        assert(place == (header_len + blobs@.len()) % 0x1_0000_0000);
        places.push(place);
        let k = find_like(cs, i);
        let at = places[k];
        proof {
            lemma_enc32_mod(at as int, subtable_place(all, i as int));
        }
        let ghost before = entries@;
        push16(&mut entries, c.platform);
        push16(&mut entries, c.encoding);
        push32(&mut entries, at);
        assert(entries@ =~= before + (enc16(c.platform as int) + enc16(c.encoding as int) + enc32(
            subtable_place(all, i as int),
        )));
        if k == i {
            append_padded(&mut blobs, c.data.as_slice());
        }
        i += 1;
    }
    let mut out: Vec<u8> = Vec::new();
    push16(&mut out, version);
    assert(out@ =~= enc16(version as int));
    push_len16(&mut out, n);
    append(&mut out, entries.as_slice());
    append(&mut out, blobs.as_slice());
    out
}

/// Rebuilds the `cmap` table so that each of its format 4 subtables has one terminator; `None`
/// where a segment cannot be read.
pub fn rebuild_cmap_table(cmap: &[u8]) -> (r: Option<Vec<u8>>)
    ensures
        match r {
            Some(out) => readable_cmap(cmap@) && out@ == rebuilt_cmap(cmap@),
            None => !readable_cmap(cmap@),
        },
{
    proof {
        reveal(rebuilt_cmap);
        reveal(readable_cmap);
    }
    if cmap.len() < 4 {
        return Some(slice_to_vec(cmap));
    }
    let ntab = get16(cmap, 2) as usize;
    if cmap.len() < 4 + 8 * ntab {
        return Some(slice_to_vec(cmap));
    }
    match read_codings(cmap, ntab) {
        None => None,
        Some(cs) => Some(write_cmap(get16(cmap, 0), &cs)),
    }
}

/// What the `cmap` table gives a character.
#[derive(Debug, Clone, Copy, PartialEq, Eq, Structural)]
pub enum Lookup {
    /// A glyph other than the first, which stands for missing ones.
    Glyph(u16),
    /// No glyph.
    Missing,
    /// A segment holds the character, but the table ends before the number that it adds.
    Overrun,
}

/// The glyph of a number; the first glyph stands for none.
pub open spec fn glyph_or_missing(g: int) -> Lookup {
    if 0 < g < 0x1_0000 {
        Lookup::Glyph(g as u16)
    } else {
        Lookup::Missing
    }
}

/// What segment `s`, which holds the character, gives it.
pub open spec fn glyph4(sub: Seq<u8>, cp: int, s: int) -> Lookup {
    let x2 = seg_x2(sub);
    if 16 + 2 * x2 + 2 * s + 2 > sub.len() {
        Lookup::Overrun
    } else if 16 + 3 * x2 + 2 * s + 2 > sub.len() {
        Lookup::Missing
    } else if seg_range(sub, s) == 0 {
        glyph_or_missing((cp + seg_delta(sub, s)) % 0x1_0000)
    } else {
        let at = seg_base(sub, s) + 2 * (cp - seg_start(sub, s));
        if at + 2 > sub.len() {
            Lookup::Missing
        } else {
            glyph_or_missing((be16(sub, at) + seg_delta(sub, s)) % 0x1_0000)
        }
    }
}

/// What the segments from `s` on give a character; `None` where none holds it.
pub open spec fn find4(sub: Seq<u8>, cp: int, s: int) -> Option<Lookup>
    decreases seg_count(sub) - s,
{
    if s >= seg_count(sub) || 16 + seg_x2(sub) + 2 * s + 2 > sub.len() {
        None
    } else if seg_start(sub, s) <= cp <= seg_end(sub, s) {
        Some(glyph4(sub, cp, s))
    } else {
        find4(sub, cp, s + 1)
    }
}

/// What the groups of a format 12 subtable from `g` on give a character; `None` where none holds
/// it.
pub open spec fn find12(sub: Seq<u8>, cp: int, g: int) -> Option<Lookup>
    decreases be32(sub, 12) - g,
{
    let o = 16 + 12 * g;
    if g >= be32(sub, 12) || o + 12 > sub.len() {
        None
    } else if be32(sub, o) <= cp <= be32(sub, o + 4) {
        Some(glyph_or_missing((be32(sub, o + 8) + (cp - be32(sub, o))) % 0x1_0000_0000))
    } else {
        find12(sub, cp, g + 1)
    }
}

/// What a subtable gives a character; `None` where it has nothing to say of it.
#[verifier::opaque]
pub open spec fn find_in(sub: Seq<u8>, cp: int) -> Option<Lookup> {
    if sub.len() < 2 {
        None
    } else if be16(sub, 0) == 4 && cp <= 0xFFFF {
        if sub.len() < 8 || seg_count(sub) == 0 || sub_len(sub) > sub.len() {
            None
        } else {
            find4(sub, cp, 0)
        }
    } else if be16(sub, 0) == 12 {
        if sub.len() < 16 {
            Some(Lookup::Missing)
        } else {
            find12(sub, cp, 0)
        }
    } else {
        None
    }
}

/// Encoding `i` has a subtable, be it an empty one.
pub open spec fn has_subtable(cmap: Seq<u8>, i: int) -> bool {
    4 + 8 * i + 8 <= cmap.len() && coding_start(cmap, i) <= cmap.len()
}

/// What the encodings from `i` on give a character: the first that has something to say counts.
pub open spec fn find_from(cmap: Seq<u8>, cp: int, i: int) -> Lookup
    decreases coding_count(cmap) - i,
{
    if i >= coding_count(cmap) {
        Lookup::Missing
    } else if !has_subtable(cmap, i) {
        find_from(cmap, cp, i + 1)
    } else {
        match find_in(coding_data(cmap, i), cp) {
            Some(r) => r,
            None => find_from(cmap, cp, i + 1),
        }
    }
}

/// What a `cmap` table gives a character.
#[verifier::opaque]
pub open spec fn lookup(cmap: Seq<u8>, cp: int) -> Lookup {
    if cmap.len() < 4 {
        Lookup::Missing
    } else {
        find_from(cmap, cp, 0)
    }
}

/// The glyph of a number.
fn some_glyph(g: u32) -> (r: Lookup)
    ensures
        r == glyph_or_missing(g as int),
{
    if 0 < g && g < 0x1_0000 {
        Lookup::Glyph(g as u16)
    } else {
        Lookup::Missing
    }
}

/// What segment `s`, which holds the character, gives it.
fn read_glyph4(sub: &[u8], cp: usize, s: usize, x2: usize, start: usize) -> (r: Lookup)
    requires
        x2 == seg_x2(sub@),
        s < x2,
        x2 < 0x1_0000,
        8 <= sub@.len(),
        start == seg_start(sub@, s as int),
        start <= cp < 0x1_0000,
    ensures
        r == glyph4(sub@, cp as int, s as int),
{
    let delta_at: usize = 16 + 2 * x2 + 2 * s;
    let range_at: usize = 16 + 3 * x2 + 2 * s;
    if delta_at + 2 > sub.len() {
        return Lookup::Overrun;
    }
    if range_at + 2 > sub.len() {
        return Lookup::Missing;
    }
    let delta = get16(sub, delta_at) as u32;
    let ro = get16(sub, range_at) as usize;
    if ro == 0 {
        return some_glyph((cp as u32 + delta) % 0x1_0000);
    }
    let at: usize = range_at + ro + 2 * (cp - start);
    if at + 2 > sub.len() {
        return Lookup::Missing;
    }
    some_glyph((get16(sub, at) as u32 + delta) % 0x1_0000)
}

/// Looks a character up in a format 4 subtable.
fn lookup4(sub: &[u8], cp: usize) -> (r: Option<Lookup>)
    requires
        8 <= sub@.len(),
        cp < 0x1_0000,
    ensures
        r == find4(sub@, cp as int, 0),
{
    let x2 = get16(sub, 6) as usize;
    let segments: usize = x2 / 2;
    let mut s: usize = 0;
    while s < segments && 18 + x2 + 2 * s <= sub.len()
        invariant
            s <= segments,
            x2 == seg_x2(sub@),
            x2 < 0x1_0000,
            segments == seg_count(sub@),
            8 <= sub@.len(),
            cp < 0x1_0000,
            find4(sub@, cp as int, 0) == find4(sub@, cp as int, s as int),
        decreases segments - s,
    {
        let end = get16(sub, 14 + 2 * s) as usize;
        let start = get16(sub, 16 + x2 + 2 * s) as usize;
        if start <= cp && cp <= end {
            return Some(read_glyph4(sub, cp, s, x2, start));
        }
        s += 1;
    }
    None
}

/// Looks a character up in a format 12 subtable.
fn lookup12(sub: &[u8], cp: u32) -> (r: Option<Lookup>)
    requires
        16 <= sub@.len(),
    ensures
        r == find12(sub@, cp as int, 0),
{
    let groups = get32(sub, 12);
    let mut g: u32 = 0;
    let mut o: usize = 16;
    while g < groups && sub.len() - o >= 12
        invariant
            g <= groups,
            groups == be32(sub@, 12),
            o == 16 + 12 * g,
            o <= sub.len(),
            find12(sub@, cp as int, 0) == find12(sub@, cp as int, g as int),
        decreases groups - g,
    {
        let start = get32(sub, o);
        let end = get32(sub, o + 4);
        if start <= cp && cp <= end {
            let base = get32(sub, o + 8);
            let sum: u64 = base as u64 + (cp - start) as u64;
            return Some(some_glyph((sum % 0x1_0000_0000) as u32));
        }
        o += 12;
        g += 1;
    }
    None
}

/// Looks a character up in a subtable.
fn lookup_in(sub: &[u8], cp: u32) -> (r: Option<Lookup>)
    ensures
        r == find_in(sub@, cp as int),
{
    proof {
        reveal(find_in);
    }
    if sub.len() < 2 {
        return None;
    }
    let format = get16(sub, 0);
    if format == 4 && cp <= 0xFFFF {
        if sub.len() < 8 || get16(sub, 6) < 2 || get16(sub, 2) as usize > sub.len() {
            return None;
        }
        lookup4(sub, cp as usize)
    } else if format == 12 {
        if sub.len() < 16 {
            return Some(Lookup::Missing);
        }
        lookup12(sub, cp)
    } else {
        None
    }
}

/// Looks a character up in a `cmap` table.
pub fn cmap_lookup(cmap: &[u8], cp: u32) -> (r: Lookup)
    ensures
        r == lookup(cmap@, cp as int),
{
    proof {
        reveal(lookup);
    }
    if cmap.len() < 4 {
        return Lookup::Missing;
    }
    let ntab = get16(cmap, 2) as usize;
    let mut i: usize = 0;
    while i < ntab
        invariant
            i <= ntab,
            ntab < 0x1_0000,
            4 <= cmap@.len(),
            ntab == coding_count(cmap@),
            lookup(cmap@, cp as int) == find_from(cmap@, cp as int, i as int),
        decreases ntab - i,
    {
        let rec: usize = 4 + 8 * i;
        if rec + 8 <= cmap.len() {
            let off = get32(cmap, rec + 4);
            if off as u64 <= cmap.len() as u64 {
                match lookup_in(tail(cmap, off as usize), cp) {
                    Some(r) => return r,
                    None => {},
                }
            }
        }
        i += 1;
    }
    Lookup::Missing
}

} // verus!
