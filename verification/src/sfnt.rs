//! The container of a font: a directory of tagged tables.
//!
//! A tag is taken as the big-endian number in its four bytes, so that tags are ordered as numbers.

use std::collections::BTreeMap;
use vstd::prelude::*;
use vstd::slice::{slice_subrange, slice_to_vec};
use vstd::std_specs::btree::increasing_seq;
use vstd::std_specs::cmp::OrdSpec;
use vstd::std_specs::iter::IteratorSpec;
use crate::bytes::{
    append, append_padded, be16, be32, enc16, enc32, get16, get32, lemma_enc16_mod, lemma_enc32_mod,
    low32, padded, push16, push32, push_len16, push_len32, set32, splice,
};
use crate::error::ConvertError;
use crate::tags::HEAD;

verus! {

broadcast use crate::bytes::group_encoded_lengths;

/// Adds a table to a list that is ordered by tag, in place of one with the same tag.
pub open spec fn put<T>(ts: Seq<(u32, T)>, tag: u32, data: T) -> Seq<(u32, T)>
    decreases ts.len(),
{
    if ts.len() == 0 || ts.last().0 < tag {
        ts.push((tag, data))
    } else if ts.last().0 == tag {
        ts.drop_last().push((tag, data))
    } else {
        put(ts.drop_last(), tag, data).push(ts.last())
    }
}

/// The table with a tag.
pub open spec fn get<T>(ts: Seq<(u32, T)>, tag: u32) -> Option<T>
    decreases ts.len(),
{
    if ts.len() == 0 {
        None
    } else if ts.last().0 == tag {
        Some(ts.last().1)
    } else {
        get(ts.drop_last(), tag)
    }
}

/// Tags rise.
pub open spec fn ordered<T>(ts: Seq<(u32, T)>) -> bool {
    forall|i: int, j: int| 0 <= i < j < ts.len() ==> (#[trigger] ts[i]).0 < (#[trigger] ts[j]).0
}

/// The tables of a map with tags below `k`, ordered by tag, with their bytes.
pub open spec fn listed<T: View<V = Seq<u8>>>(m: Map<u32, T>, k: int) -> Seq<(u32, Seq<u8>)>
    decreases k,
{
    if k <= 0 {
        Seq::empty()
    } else if m.dom().contains((k - 1) as u32) {
        listed(m, k - 1).push(((k - 1) as u32, m[(k - 1) as u32]@))
    } else {
        listed(m, k - 1)
    }
}

/// The tables of a map, ordered by tag, with their bytes.
pub open spec fn contents<T: View<V = Seq<u8>>>(m: Map<u32, T>) -> Seq<(u32, Seq<u8>)> {
    listed(m, 0x1_0000_0000)
}

/// A map without tables lists none.
pub proof fn lemma_listed_empty<T: View<V = Seq<u8>>>(k: int)
    ensures
        listed(Map::<u32, T>::empty(), k) == Seq::<(u32, Seq<u8>)>::empty(),
    decreases k,
{
    if k > 0 {
        lemma_listed_empty::<T>(k - 1);
    }
}

proof fn lemma_listed_below<T: View<V = Seq<u8>>>(m: Map<u32, T>, k: int)
    requires
        k <= 0x1_0000_0000,
    ensures
        ordered(listed(m, k)),
        forall|i: int| 0 <= i < listed(m, k).len() ==> (#[trigger] listed(m, k)[i]).0 < k,
    decreases k,
{
    if k > 0 {
        lemma_listed_below(m, k - 1);
        let before = listed(m, k - 1);
        let now = listed(m, k);
        assert forall|i: int| 0 <= i < now.len() implies (#[trigger] now[i]).0 < k by {
            if i < before.len() {
                assert(now[i] == before[i]);
            }
        }
        assert forall|a: int, b: int| 0 <= a < b < now.len() implies (#[trigger] now[a]).0 < (
        #[trigger] now[b]).0 by {
            assert(now[a] == before[a]);
            assert(before[a].0 < k - 1);
            if b < before.len() {
                assert(now[b] == before[b]);
            }
        }
    }
}

/// A table of a map is found in its list.
proof fn lemma_listed_get<T: View<V = Seq<u8>>>(m: Map<u32, T>, k: int, tag: u32)
    requires
        0 <= k <= 0x1_0000_0000,
    ensures
        get(listed(m, k), tag) == if tag < k && m.dom().contains(tag) {
            Some(m[tag]@)
        } else {
            None
        },
    decreases k,
{
    if k > 0 {
        lemma_listed_get(m, k - 1, tag);
        let before = listed(m, k - 1);
        if m.dom().contains((k - 1) as u32) {
            assert(listed(m, k).drop_last() =~= before);
        }
    }
}

/// A table that joins a map joins its list.
proof fn lemma_listed_put<T: View<V = Seq<u8>>>(m: Map<u32, T>, k: int, tag: u32, data: T)
    requires
        0 <= k <= 0x1_0000_0000,
    ensures
        listed(m.insert(tag, data), k) == if tag < k {
            put(listed(m, k), tag, data@)
        } else {
            listed(m, k)
        },
    decreases k,
{
    if k > 0 {
        let x = (k - 1) as u32;
        let before = listed(m, k - 1);
        lemma_listed_put(m, k - 1, tag, data);
        lemma_listed_below(m, k - 1);
        if x == tag {
            if before.len() > 0 {
                assert(before[before.len() - 1].0 < tag);
            }
            if m.dom().contains(x) {
                assert(listed(m, k).drop_last() =~= before);
            }
        } else if x > tag && m.dom().contains(x) {
            assert(listed(m, k).drop_last() =~= before);
        }
    }
}

/// The entries of a map in the order of their tags are its list.
proof fn lemma_walk<T: View<V = Seq<u8>>>(m: Map<u32, T>, s: Seq<(u32, T)>, k: int) -> (j: int)
    requires
        0 <= k <= 0x1_0000_0000,
        ordered(s),
        forall|i: int|
            0 <= i < s.len() ==> m.dom().contains((#[trigger] s[i]).0) && m[s[i].0] == s[i].1,
        forall|tag: u32| #[trigger]
            m.dom().contains(tag) ==> exists|i: int| 0 <= i < s.len() && (#[trigger] s[i]).0 == tag,
    ensures
        0 <= j <= s.len(),
        listed(m, k) == bytes_listed(s.take(j)),
        forall|i: int| j <= i < s.len() ==> (#[trigger] s[i]).0 >= k,
    decreases k,
{
    if k <= 0 {
        assert(listed(m, k) =~= bytes_listed(s.take(0)));
        0
    } else {
        let x = (k - 1) as u32;
        let j = lemma_walk(m, s, k - 1);
        if m.dom().contains(x) {
            let i = choose|i: int| 0 <= i < s.len() && (#[trigger] s[i]).0 == x;
            let before = bytes_listed(s.take(j));
            lemma_listed_below(m, k - 1);
            if i < j {
                assert(before[i].0 == x);
                assert(listed(m, k - 1)[i].0 < k - 1);
            }
            if i > j {
                assert(s[j].0 < s[i].0);
            }
            assert(listed(m, k) =~= bytes_listed(s.take(j + 1)));
            assert forall|q: int| j + 1 <= q < s.len() implies (#[trigger] s[q]).0 >= k by {
                assert(s[j].0 < s[q].0);
            }
            j + 1
        } else {
            assert forall|q: int| j <= q < s.len() implies (#[trigger] s[q]).0 >= k by {
                assert(m.dom().contains(s[q].0));
            }
            j
        }
    }
}

/// Adding a table whose tag is there replaces it.
pub proof fn lemma_put_update<T>(ts: Seq<(u32, T)>, tag: u32, data: T, i: int)
    requires
        0 <= i < ts.len(),
        ts[i].0 == tag,
        forall|j: int| i < j < ts.len() ==> (#[trigger] ts[j]).0 > tag,
    ensures
        put(ts, tag, data) == ts.update(i, (tag, data)),
    decreases ts.len(),
{
    if i < ts.len() - 1 {
        assert(ts[ts.len() - 1].0 > tag);
        lemma_put_update(ts.drop_last(), tag, data, i);
    }
    assert(put(ts, tag, data) =~= ts.update(i, (tag, data)));
}

/// Adds a table.
pub fn put_table<T: View<V = Seq<u8>>>(ts: &mut BTreeMap<u32, T>, tag: u32, data: T)
    ensures
        contents(final(ts)@) == put(contents(old(ts)@), tag, data@),
{
    proof {
        lemma_listed_put(ts@, 0x1_0000_0000, tag, data);
    }
    ts.insert(tag, data);
}

/// Finds a table.
pub fn get_table<'a>(ts: &BTreeMap<u32, &'a [u8]>, tag: u32) -> (r: Option<&'a [u8]>)
    ensures
        match r {
            Some(data) => get(contents(ts@), tag) == Some(data@),
            None => get(contents(ts@), tag) is None,
        },
{
    proof {
        lemma_listed_get(ts@, 0x1_0000_0000, tag);
    }
    match ts.get(&tag) {
        Some(data) => Some(*data),
        None => None,
    }
}

/// Numbers in the order of a map rise.
proof fn lemma_increasing(s: Seq<u32>)
    requires
        increasing_seq(s),
    ensures
        forall|a: int, b: int| 0 <= a < b < s.len() ==> #[trigger] s[a] < #[trigger] s[b],
{
    assert forall|a: int, b: int| 0 <= a < b < s.len() implies #[trigger] s[a]
        < #[trigger] s[b] by {
        assert(s[a].cmp_spec(&s[b]) is Less);
    }
}

/// A list of tables with their bytes.
pub open spec fn bytes_listed<T: View<V = Seq<u8>>>(s: Seq<(u32, T)>) -> Seq<(u32, Seq<u8>)> {
    s.map_values(|e: (u32, T)| (e.0, e.1@))
}

/// Lists tables in the order of their tags.
pub fn list_tables<'a, T: View<V = Seq<u8>>>(ts: &'a BTreeMap<u32, T>) -> (r: Vec<(u32, &'a T)>)
    ensures
        bytes_listed(r@) == contents(ts@),
{
    let mut r: Vec<(u32, &'a T)> = Vec::new();
    let iter = ts.iter();
    let ghost s = iter.remaining();
    for (tag, data) in it: iter
        invariant
            it.seq() == s,
            r@.len() == it.index(),
            forall|i: int|
                0 <= i < r@.len() ==> (#[trigger] r@[i]).0 == *s[i].0 && r@[i].1 == s[i].1,
    {
        r.push((*tag, data));
    }
    proof {
        let es = s.map_values(|e: (&u32, &T)| (*e.0, *e.1));
        let tags = s.map_values(|e: (&u32, &T)| *e.0);
        lemma_increasing(tags);
        assert forall|a: int, b: int| 0 <= a < b < es.len() implies (#[trigger] es[a]).0 < (
        #[trigger] es[b]).0 by {
            assert(tags[a] < tags[b]);
        }
        assert forall|i: int| 0 <= i < es.len() implies ts@.dom().contains((#[trigger] es[i]).0)
            && ts@[es[i].0] == es[i].1 by {
            assert(ts@.contains_key(*s[i].0));
        }
        assert forall|tag: u32| #[trigger] ts@.dom().contains(tag) implies exists|i: int|
            0 <= i < es.len() && (#[trigger] es[i]).0 == tag by {
            assert(ts@.contains_key(tag));
            let i = s.index_of((&tag, &ts@[tag]));
            assert(es[i].0 == tag);
        }
        let j = lemma_walk(ts@, es, 0x1_0000_0000);
        if j < es.len() {
            assert(es[j].0 >= 0x1_0000_0000);
        }
        assert(bytes_listed(r@) =~= bytes_listed(es.take(j)));
    }
    r
}

/// The number of tables that the directory announces.
pub open spec fn table_count(raw: Seq<u8>) -> int {
    be16(raw, 4)
}

/// The tag in entry `i` of the directory.
pub open spec fn entry_tag(raw: Seq<u8>, i: int) -> u32 {
    be32(raw, 12 + 16 * i) as u32
}

/// Where the table of entry `i` begins.
pub open spec fn entry_start(raw: Seq<u8>, i: int) -> int {
    be32(raw, 12 + 16 * i + 8)
}

/// The length of the table of entry `i`.
pub open spec fn entry_len(raw: Seq<u8>, i: int) -> int {
    be32(raw, 12 + 16 * i + 12)
}

/// Whether the table of entry `i` lies in the file.
pub open spec fn entry_fits(raw: Seq<u8>, i: int) -> bool {
    entry_start(raw, i) + entry_len(raw, i) <= raw.len()
}

/// The table of entry `i`.
pub open spec fn entry_data(raw: Seq<u8>, i: int) -> Seq<u8> {
    raw.subrange(entry_start(raw, i), entry_start(raw, i) + entry_len(raw, i))
}

/// The tables of the first `k` entries, or the first that does not lie in the file. Of entries with
/// one tag the last counts.
pub open spec fn entries(raw: Seq<u8>, k: int) -> Result<Seq<(u32, Seq<u8>)>, ConvertError>
    decreases k,
{
    if k <= 0 {
        Ok(Seq::empty())
    } else {
        match entries(raw, k - 1) {
            Err(e) => Err(e),
            Ok(ts) => if entry_fits(raw, k - 1) {
                Ok(put(ts, entry_tag(raw, k - 1), entry_data(raw, k - 1)))
            } else {
                Err(ConvertError::TableOutOfBounds(entry_tag(raw, k - 1)))
            },
        }
    }
}

/// The fault of a file without a whole directory.
pub open spec fn directory_error(raw: Seq<u8>) -> Option<ConvertError> {
    if raw.len() < 12 {
        Some(ConvertError::FileTooShort)
    } else if raw.len() < 12 + 16 * table_count(raw) {
        Some(ConvertError::CorruptedDirectory)
    } else {
        None
    }
}

/// The tables of a font, ordered by tag.
pub open spec fn font_tables(raw: Seq<u8>) -> Result<Seq<(u32, Seq<u8>)>, ConvertError> {
    match directory_error(raw) {
        Some(e) => Err(e),
        None => entries(raw, table_count(raw)),
    }
}

proof fn lemma_entries_fail(raw: Seq<u8>, k: int, n: int)
    requires
        0 <= k <= n,
        entries(raw, k) is Err,
    ensures
        entries(raw, n) == entries(raw, k),
    decreases n - k,
{
    if k < n {
        lemma_entries_fail(raw, k, n - 1);
    }
}

/// Checks that the directory is there and gives the number of its entries.
fn read_directory(raw: &[u8]) -> (r: Result<usize, ConvertError>)
    ensures
        match r {
            Ok(n) => directory_error(raw@) is None && n == table_count(raw@) && 12 + 16 * n
                <= raw@.len(),
            Err(e) => directory_error(raw@) == Some(e),
        },
{
    if raw.len() < 12 {
        return Err(ConvertError::FileTooShort);
    }
    let n = get16(raw, 4) as usize;
    if raw.len() < 12 + n * 16 {
        return Err(ConvertError::CorruptedDirectory);
    }
    Ok(n)
}

/// Reads entry `i` of the directory.
fn read_entry<'a>(raw: &'a [u8], i: usize) -> (r: Result<(u32, &'a [u8]), ConvertError>)
    requires
        i < 0x1_0000,
        12 + 16 * (i + 1) <= raw@.len(),
    ensures
        match r {
            Ok((tag, data)) => entry_fits(raw@, i as int) && tag == entry_tag(raw@, i as int)
                && data@ == entry_data(raw@, i as int),
            Err(e) => !entry_fits(raw@, i as int) && e == ConvertError::TableOutOfBounds(
                entry_tag(raw@, i as int),
            ),
        },
{
    let off: usize = 12 + i * 16;
    let tag = get32(raw, off);
    let start = get32(raw, off + 8);
    let len = get32(raw, off + 12);
    if start as u64 + len as u64 > raw.len() as u64 {
        return Err(ConvertError::TableOutOfBounds(tag));
    }
    Ok((tag, slice_subrange(raw, start as usize, start as usize + len as usize)))
}

/// Reads the tables of a font.
pub fn read_tables<'a>(raw: &'a [u8]) -> (r: Result<BTreeMap<u32, &'a [u8]>, ConvertError>)
    ensures
        match r {
            Ok(ts) => font_tables(raw@) == Ok::<Seq<(u32, Seq<u8>)>, ConvertError>(contents(ts@)),
            Err(e) => font_tables(raw@) == Err::<Seq<(u32, Seq<u8>)>, ConvertError>(e),
        },
{
    let n = match read_directory(raw) {
        Err(e) => return Err(e),
        Ok(n) => n,
    };
    let mut ts: BTreeMap<u32, &'a [u8]> = BTreeMap::new();
    proof {
        lemma_listed_empty::<&'a [u8]>(0x1_0000_0000);
    }
    let mut i: usize = 0;
    while i < n
        invariant
            i <= n,
            n == table_count(raw@),
            n < 0x1_0000,
            12 + 16 * n <= raw@.len(),
            directory_error(raw@) is None,
            entries(raw@, i as int) == Ok::<Seq<(u32, Seq<u8>)>, ConvertError>(contents(ts@)),
        decreases n - i,
    {
        match read_entry(raw, i) {
            Err(e) => {
                proof {
                    lemma_entries_fail(raw@, i + 1, n as int);
                }
                return Err(e);
            },
            Ok((tag, data)) => {
                put_table(&mut ts, tag, data);
            },
        }
        i += 1;
    }
    Ok(ts)
}

/// The table of the first entry from `i` on that has a tag.
pub open spec fn first_entry(raw: Seq<u8>, tag: u32, i: int) -> Result<
    Option<Seq<u8>>,
    ConvertError,
>
    decreases table_count(raw) - i,
{
    if i >= table_count(raw) {
        Ok(None)
    } else if entry_tag(raw, i) != tag {
        first_entry(raw, tag, i + 1)
    } else if entry_fits(raw, i) {
        Ok(Some(entry_data(raw, i)))
    } else {
        Err(ConvertError::TableOutOfBounds(tag))
    }
}

/// The first table of a font that has a tag. The other tables need not lie in the file.
pub open spec fn first_table(raw: Seq<u8>, tag: u32) -> Result<Option<Seq<u8>>, ConvertError> {
    match directory_error(raw) {
        Some(e) => Err(e),
        None => first_entry(raw, tag, 0),
    }
}

/// Finds the first table with a tag.
pub fn find_table<'a>(raw: &'a [u8], tag: u32) -> (r: Result<Option<&'a [u8]>, ConvertError>)
    ensures
        match r {
            Ok(Some(data)) => first_table(raw@, tag) == Ok::<Option<Seq<u8>>, ConvertError>(
                Some(data@),
            ),
            Ok(None) => first_table(raw@, tag) == Ok::<Option<Seq<u8>>, ConvertError>(None),
            Err(e) => first_table(raw@, tag) == Err::<Option<Seq<u8>>, ConvertError>(e),
        },
{
    let n = match read_directory(raw) {
        Err(e) => return Err(e),
        Ok(n) => n,
    };
    let mut i: usize = 0;
    while i < n
        invariant
            i <= n,
            n == table_count(raw@),
            n < 0x1_0000,
            12 + 16 * n <= raw@.len(),
            directory_error(raw@) is None,
            first_entry(raw@, tag, 0) == first_entry(raw@, tag, i as int),
        decreases n - i,
    {
        if get32(raw, 12 + i * 16) == tag {
            return match read_entry(raw, i) {
                Err(e) => Err(e),
                Ok((_tag, data)) => Ok(Some(data)),
            };
        }
        i += 1;
    }
    Ok(None)
}

/// The byte at `i`, where zeros follow the data.
pub open spec fn byte_or_zero(data: Seq<u8>, i: int) -> int {
    if i < data.len() {
        data[i] as int
    } else {
        0
    }
}

/// The `k`th group of four bytes as a number.
pub open spec fn word(data: Seq<u8>, k: int) -> int {
    byte_or_zero(data, 4 * k) * 0x100_0000 + byte_or_zero(data, 4 * k + 1) * 0x1_0000
        + byte_or_zero(data, 4 * k + 2) * 0x100 + byte_or_zero(data, 4 * k + 3)
}

/// The sum of the first `k` words.
pub open spec fn word_sum(data: Seq<u8>, k: int) -> int
    decreases k,
{
    if k <= 0 {
        0
    } else {
        word_sum(data, k - 1) + word(data, k - 1)
    }
}

/// The checksum of a table: the sum of its words modulo 2^32.
#[verifier::opaque]
pub open spec fn checksum(data: Seq<u8>) -> int {
    word_sum(data, (data.len() as int + 3) / 4) % 0x1_0000_0000
}

/// Computes the checksum of a table.
pub fn calc_table_checksum(data: &[u8]) -> (r: u32)
    ensures
        r == checksum(data@),
{
    proof {
        reveal(checksum);
    }
    let mut sum: u32 = 0;
    let mut i: usize = 0;
    let ghost mut k: int = 0;
    while data.len() - i >= 4
        invariant
            i == 4 * k,
            i <= data.len(),
            sum == word_sum(data@, k) % 0x1_0000_0000,
        decreases data@.len() - i,
    {
        let w = get32(data, i);
        assert(w == word(data@, k));
        proof {
            let a = word_sum(data@, k);
            assert((a % 0x1_0000_0000 + w) % 0x1_0000_0000 == (a + w) % 0x1_0000_0000);
        }
        sum = ((sum as u64 + w as u64) % 0x1_0000_0000) as u32;
        i += 4;
        proof {
            k = k + 1;
        }
    }
    let rem: usize = data.len() - i;
    if rem > 0 {
        let b1: u8 = if rem > 1 {
            data[i + 1]
        } else {
            0
        };
        let b2: u8 = if rem > 2 {
            data[i + 2]
        } else {
            0
        };
        let w = (data[i] as u32) * 0x100_0000 + (b1 as u32) * 0x1_0000 + (b2 as u32) * 0x100;
        assert(w == word(data@, k));
        proof {
            let a = word_sum(data@, k);
            assert((a % 0x1_0000_0000 + w) % 0x1_0000_0000 == (a + w) % 0x1_0000_0000);
        }
        sum = ((sum as u64 + w as u64) % 0x1_0000_0000) as u32;
    }
    sum
}

/// The greatest `k` with `2^k <= n`, and 0 for 0.
pub open spec fn floor_log2(n: int) -> int
    decreases n,
{
    if n <= 1 {
        0
    } else {
        1 + floor_log2(n / 2)
    }
}

/// The greatest power of two that is at most `n`, and 1 for 0.
pub open spec fn floor_pow2(n: int) -> int
    decreases n,
{
    if n <= 1 {
        1
    } else {
        2 * floor_pow2(n / 2)
    }
}

/// The two parameters of a binary search over `n` entries.
pub fn search_params(n: u32) -> (r: (u16, u32))
    ensures
        r.0 == floor_log2(n as int),
        r.1 == floor_pow2(n as int),
        r.0 < 32,
    decreases n,
{
    if n <= 1 {
        (0, 1)
    } else {
        let (log, pow) = search_params(n / 2);
        proof {
            lemma_floor_pow2(n as int / 2);
            lemma_floor_log2(n as int);
        }
        (log + 1, pow * 2)
    }
}

pub proof fn lemma_floor_pow2(n: int)
    requires
        n >= 1,
    ensures
        1 <= floor_pow2(n) <= n,
        n < 2 * floor_pow2(n),
    decreases n,
{
    if n > 1 {
        lemma_floor_pow2(n / 2);
    }
}

pub proof fn lemma_floor_log2(n: int)
    requires
        n < 0x1_0000_0000,
    ensures
        0 <= floor_log2(n) < 32,
{
    reveal_with_fuel(floor_log2, 33);
}

/// The header of a font with `n` tables.
#[verifier::opaque]
pub open spec fn font_header(n: int) -> Seq<u8> {
    enc32(0x1_0000) + enc16(n) + enc16(16 * floor_pow2(n)) + enc16(floor_log2(n)) + enc16(
        16 * n - 16 * floor_pow2(n),
    )
}

/// The number of tables as the header can hold it.
pub open spec fn count16(ts: Seq<(u32, Seq<u8>)>) -> int {
    ts.len() as int % 0x1_0000
}

/// The first `k` tables, each padded to whole words.
pub open spec fn bodies(ts: Seq<(u32, Seq<u8>)>, k: int) -> Seq<u8>
    decreases k,
{
    if k <= 0 {
        Seq::empty()
    } else {
        bodies(ts, k - 1) + padded(ts[k - 1].1)
    }
}

/// Where table `k` begins.
pub open spec fn table_start(ts: Seq<(u32, Seq<u8>)>, k: int) -> int {
    12 + 16 * count16(ts) + bodies(ts, k).len()
}

/// The entry of table `k` in the directory.
#[verifier::opaque]
pub open spec fn directory_entry(ts: Seq<(u32, Seq<u8>)>, k: int) -> Seq<u8> {
    enc32(ts[k].0 as int) + enc32(checksum(ts[k].1)) + enc32(table_start(ts, k)) + enc32(
        ts[k].1.len() as int,
    )
}

/// The first `k` entries of the directory.
pub open spec fn directory(ts: Seq<(u32, Seq<u8>)>, k: int) -> Seq<u8>
    decreases k,
{
    if k <= 0 {
        Seq::empty()
    } else {
        directory(ts, k - 1) + directory_entry(ts, k - 1)
    }
}

/// A font without its overall checksum.
#[verifier::opaque]
pub open spec fn unsealed(ts: Seq<(u32, Seq<u8>)>) -> Seq<u8> {
    font_header(count16(ts)) + directory(ts, ts.len() as int) + bodies(ts, ts.len() as int)
}

/// Where the directory says that the `head` table begins, among the first `k` entries; 0 without
/// one.
pub open spec fn head_start(ts: Seq<(u32, Seq<u8>)>, k: int) -> int
    decreases k,
{
    if k <= 0 {
        0
    } else if ts[k - 1].0 == HEAD {
        table_start(ts, k - 1) % 0x1_0000_0000
    } else {
        head_start(ts, k - 1)
    }
}

/// What the overall checksum of a font comes to.
pub const SEAL: u32 = 0xB1B0_AFBA;

/// A font: the header, the directory and the tables, with the overall checksum in `head`.
pub open spec fn assembled(ts: Seq<(u32, Seq<u8>)>) -> Seq<u8> {
    let out = unsealed(ts);
    let h = head_start(ts, ts.len() as int);
    if h > 0 && h + 12 <= out.len() {
        splice(out, h + 8, enc32(SEAL - checksum(out)))
    } else {
        out
    }
}

/// Writes the header of a font.
fn write_header(n16: u32) -> (out: Vec<u8>)
    requires
        n16 < 0x1_0000,
    ensures
        out@ == font_header(n16 as int),
{
    proof {
        reveal(font_header);
    }
    let (selector, pow) = search_params(n16);
    proof {
        if n16 >= 1 {
            lemma_floor_pow2(n16 as int);
        }
    }
    let shift: usize = 0x1_0000 + 16 * n16 as usize - 16 * pow as usize;
    proof {
        lemma_enc16_mod(shift as int, 16 * n16 - 16 * pow);
    }
    let mut out: Vec<u8> = Vec::new();
    push32(&mut out, 0x1_0000);
    assert(out@ =~= enc32(0x1_0000));
    push_len16(&mut out, n16 as usize);
    push_len16(&mut out, 16 * pow as usize);
    push16(&mut out, selector);
    push_len16(&mut out, shift);
    out
}

/// Writes an entry of the directory.
fn write_entry(dir: &mut Vec<u8>, tag: u32, data: &[u8], offset: u32)
    ensures
        final(dir)@ == old(dir)@ + (enc32(tag as int) + enc32(checksum(data@)) + enc32(
            offset as int,
        ) + enc32(data@.len() as int)),
{
    push32(dir, tag);
    push32(dir, calc_table_checksum(data));
    push32(dir, offset);
    push_len32(dir, data.len());
    assert(dir@ =~= old(dir)@ + (enc32(tag as int) + enc32(checksum(data@)) + enc32(offset as int)
        + enc32(data@.len() as int)));
}

/// The offset of a table, in 32 bits.
fn table_offset(header_size: usize, written: usize) -> (r: u32)
    requires
        header_size < 0x20_0000,
    ensures
        r == (header_size + written) % 0x1_0000_0000,
{
    let low = low32(written);
    ((header_size as u64 + low as u64) % 0x1_0000_0000) as u32
}

/// Writes the overall checksum.
fn seal(out: &mut Vec<u8>, head: u32)
    ensures
        final(out)@ == if head > 0 && head + 12 <= old(out)@.len() {
            splice(old(out)@, head + 8, enc32(SEAL - checksum(old(out)@)))
        } else {
            old(out)@
        },
{
    let sum = calc_table_checksum(out.as_slice());
    if head > 0 && head as u64 + 12 <= out.len() as u64 {
        let seal: u32 = ((0x1_0000_0000 + SEAL as u64 - sum as u64) % 0x1_0000_0000) as u32;
        proof {
            lemma_enc32_mod(seal as int, SEAL - sum);
        }
        set32(out, head as usize + 8, seal);
    }
}

/// Puts tables together to a font.
pub fn assemble(ts: &BTreeMap<u32, Vec<u8>>) -> (out: Vec<u8>)
    ensures
        out@ == assembled(contents(ts@)),
{
    let ghost all = contents(ts@);
    let list = list_tables(ts);
    let n: usize = list.len();
    let n16: u32 = (n % 0x1_0000) as u32;
    let header_size: usize = 12 + n16 as usize * 16;
    let mut dir: Vec<u8> = Vec::new();
    let mut blobs: Vec<u8> = Vec::new();
    let mut head: u32 = 0;
    let mut i: usize = 0;
    while i < n
        invariant
            i <= n,
            n == list@.len(),
            all == bytes_listed(list@),
            header_size == 12 + 16 * count16(all),
            header_size < 0x20_0000,
            dir@ == directory(all, i as int),
            blobs@ == bodies(all, i as int),
            head == head_start(all, i as int),
        decreases n - i,
    {
        let (tag, table) = list[i];
        let data = table.as_slice();
        assert(all[i as int] == (tag, data@));
        let offset = table_offset(header_size, blobs.len());
        if tag == HEAD {
            head = offset;
        }
        proof {
            reveal(directory_entry);
            lemma_enc32_mod(offset as int, table_start(all, i as int));
        }
        write_entry(&mut dir, tag, data, offset);
        append_padded(&mut blobs, data);
        i += 1;
    }
    proof {
        reveal(unsealed);
    }
    let mut out = write_header(n16);
    append(&mut out, dir.as_slice());
    append(&mut out, blobs.as_slice());
    seal(&mut out, head);
    out
}

/// The tables among the first `k` that are not empty.
pub open spec fn nonempty(ts: Seq<(u32, Seq<u8>)>, k: int) -> Seq<(u32, Seq<u8>)>
    decreases k,
{
    if k <= 0 {
        Seq::empty()
    } else if ts[k - 1].1.len() > 0 {
        nonempty(ts, k - 1).push(ts[k - 1])
    } else {
        nonempty(ts, k - 1)
    }
}

/// The tags of the tables that are not empty do not go beyond the last tag.
proof fn lemma_nonempty_last(ts: Seq<(u32, Seq<u8>)>, k: int)
    requires
        ordered(ts),
        0 <= k <= ts.len(),
    ensures
        nonempty(ts, k).len() > 0 ==> k > 0 && nonempty(ts, k).last().0 <= ts[k - 1].0,
    decreases k,
{
    if k > 0 {
        lemma_nonempty_last(ts, k - 1);
        if k > 1 {
            assert(ts[k - 2].0 < ts[k - 1].0);
        }
    }
}

/// Whether the directory lists an empty table.
pub open spec fn lists_empty(raw: Seq<u8>) -> bool {
    exists|i: int| 0 <= i < table_count(raw) && #[trigger] entry_len(raw, i) == 0
}

/// A standard font: as it is, or, where it lists empty tables, put together again without them.
pub open spec fn repaired(raw: Seq<u8>) -> Result<Seq<u8>, ConvertError> {
    match font_tables(raw) {
        Err(e) => Err(e),
        Ok(ts) => Ok(
            if lists_empty(raw) {
                assembled(nonempty(ts, ts.len() as int))
            } else {
                raw
            },
        ),
    }
}

/// Removes empty tables from a standard font.
pub fn fix_normal_ttf(raw: &[u8]) -> (r: Result<Vec<u8>, ConvertError>)
    ensures
        match r {
            Ok(out) => repaired(raw@) == Ok::<Seq<u8>, ConvertError>(out@),
            Err(e) => repaired(raw@) == Err::<Seq<u8>, ConvertError>(e),
        },
{
    let ts = match read_tables(raw) {
        Err(e) => return Err(e),
        Ok(ts) => ts,
    };
    let ghost all = contents(ts@);
    let n = match read_directory(raw) {
        Err(e) => return Err(e),
        Ok(n) => n,
    };
    let mut has_empty = false;
    let mut i: usize = 0;
    while i < n
        invariant
            i <= n,
            n == table_count(raw@),
            n < 0x1_0000,
            12 + 16 * n <= raw@.len(),
            has_empty == exists|j: int| 0 <= j < i && #[trigger] entry_len(raw@, j) == 0,
        decreases n - i,
    {
        let len = get32(raw, 12 + i * 16 + 12);
        assert(len == entry_len(raw@, i as int));
        if len == 0 {
            has_empty = true;
        }
        i += 1;
    }
    if !has_empty {
        return Ok(slice_to_vec(raw));
    }
    let list = list_tables(&ts);
    let mut kept: BTreeMap<u32, Vec<u8>> = BTreeMap::new();
    proof {
        lemma_listed_empty::<Vec<u8>>(0x1_0000_0000);
        lemma_listed_below(ts@, 0x1_0000_0000);
    }
    i = 0;
    while i < list.len()
        invariant
            i <= list@.len(),
            all == bytes_listed(list@),
            ordered(all),
            contents(kept@) == nonempty(all, i as int),
        decreases list@.len() - i,
    {
        let (tag, table) = list[i];
        let data: &[u8] = *table;
        assert(all[i as int] == (tag, data@));
        if data.len() > 0 {
            proof {
                lemma_nonempty_last(all, i as int);
                if i > 0 {
                    assert(all[i - 1].0 < all[i as int].0);
                }
            }
            put_table(&mut kept, tag, slice_to_vec(data));
        }
        i += 1;
    }
    Ok(assemble(&kept))
}

} // verus!
