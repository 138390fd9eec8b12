//! A font as a reader of its directory sees it.

use vstd::prelude::*;
use crate::bytes::{
    be32, enc16, enc32, lemma_be16_enc16, lemma_be32_enc32, lemma_be32_moved, padded, splice,
};
use crate::error::ConvertError;
use crate::sfnt::{
    assembled, bodies, byte_or_zero, checksum, count16, directory, directory_entry,
    directory_error, entries, entry_data, entry_fits, entry_len, entry_start, entry_tag,
    font_header, font_tables, get, head_start, lists_empty, nonempty, ordered, put, repaired,
    table_count, table_start, unsealed, word, word_sum, SEAL,
};
use crate::tags::HEAD;

verus! {

broadcast use crate::bytes::group_encoded_lengths;

/// The tables fit the format: their tags rise, and their number, offsets and lengths have room in
/// the directory. A `head` table has a place for the overall checksum.
pub open spec fn fits(ts: Seq<(u32, Seq<u8>)>) -> bool {
    &&& ordered(ts)
    &&& ts.len() < 0x1_0000
    &&& unsealed(ts).len() < 0x1_0000_0000
    &&& forall|i: int| 0 <= i < ts.len() && (#[trigger] ts[i]).0 == HEAD ==> ts[i].1.len() >= 12
}

/// What is written into `head` so that the overall checksum comes out.
pub open spec fn seal_of(ts: Seq<(u32, Seq<u8>)>) -> Seq<u8> {
    enc32(SEAL - checksum(unsealed(ts)))
}

/// The tables with the overall checksum in `head`.
pub open spec fn sealed(ts: Seq<(u32, Seq<u8>)>) -> Seq<(u32, Seq<u8>)> {
    Seq::new(
        ts.len(),
        |i: int|
            (
                ts[i].0,
                if ts[i].0 == HEAD {
                    splice(ts[i].1, 8, seal_of(ts))
                } else {
                    ts[i].1
                },
            ),
    )
}

/// The checksum in entry `i` of the directory.
pub open spec fn entry_checksum(raw: Seq<u8>, i: int) -> int {
    be32(raw, 12 + 16 * i + 4)
}

/// An entry of the directory has 16 bytes: tag, checksum, offset and length.
proof fn lemma_directory_entry(ts: Seq<(u32, Seq<u8>)>, i: int)
    ensures
        directory_entry(ts, i).len() == 16,
        be32(directory_entry(ts, i), 0) == ts[i].0,
        be32(directory_entry(ts, i), 4) == checksum(ts[i].1),
        be32(directory_entry(ts, i), 8) == table_start(ts, i) % 0x1_0000_0000,
        be32(directory_entry(ts, i), 12) == ts[i].1.len() as int % 0x1_0000_0000,
{
    reveal(directory_entry);
    let (t, c, s, l) = (
        enc32(ts[i].0 as int),
        enc32(checksum(ts[i].1)),
        enc32(table_start(ts, i)),
        enc32(ts[i].1.len() as int),
    );
    let e = directory_entry(ts, i);
    assert(e == t + c + s + l);
    lemma_be32_enc32(ts[i].0 as int);
    lemma_be32_enc32(checksum(ts[i].1));
    lemma_be32_enc32(table_start(ts, i));
    lemma_be32_enc32(ts[i].1.len() as int);
    assert(checksum(ts[i].1) % 0x1_0000_0000 == checksum(ts[i].1)) by {
        reveal(checksum);
    }
    assert(e[0] == t[0] && e[1] == t[1] && e[2] == t[2] && e[3] == t[3]);
    assert(e[4] == c[0] && e[5] == c[1] && e[6] == c[2] && e[7] == c[3]);
    assert(e[8] == s[0] && e[9] == s[1] && e[10] == s[2] && e[11] == s[3]);
    assert(e[12] == l[0] && e[13] == l[1] && e[14] == l[2] && e[15] == l[3]);
}

proof fn lemma_directory(ts: Seq<(u32, Seq<u8>)>, k: int)
    requires
        0 <= k,
    ensures
        directory(ts, k).len() == 16 * k,
        forall|i: int, j: int|
            0 <= i < k && 0 <= j < 16 ==> directory(ts, k)[16 * i + j] == #[trigger] directory_entry(
                ts,
                i,
            )[j],
    decreases k,
{
    if k > 0 {
        lemma_directory(ts, k - 1);
        lemma_directory_entry(ts, k - 1);
        let before = directory(ts, k - 1);
        assert forall|i: int, j: int| 0 <= i < k && 0 <= j < 16 implies directory(ts, k)[16 * i + j]
            == #[trigger] directory_entry(ts, i)[j] by {
            if i < k - 1 {
                assert(directory(ts, k)[16 * i + j] == before[16 * i + j]);
            }
        }
    }
}

/// The parts of a font: header, directory, tables.
pub proof fn lemma_unsealed(ts: Seq<(u32, Seq<u8>)>)
    ensures
        unsealed(ts).len() == 12 + 16 * ts.len() + bodies(ts, ts.len() as int).len(),
        forall|i: int|
            0 <= i < 12 ==> #[trigger] unsealed(ts)[i] == font_header(count16(ts))[i],
        forall|i: int, j: int|
            0 <= i < ts.len() && 0 <= j < 16 ==> unsealed(ts)[12 + 16 * i + j]
                == #[trigger] directory_entry(ts, i)[j],
        forall|k: int|
            0 <= k < bodies(ts, ts.len() as int).len() ==> unsealed(ts)[12 + 16 * ts.len() + k]
                == #[trigger] bodies(ts, ts.len() as int)[k],
{
    reveal(unsealed);
    let n = ts.len() as int;
    let head = font_header(count16(ts));
    assert(head.len() == 12) by {
        reveal(font_header);
    }
    lemma_directory(ts, n);
    let dir = directory(ts, n);
    assert forall|i: int, j: int| 0 <= i < n && 0 <= j < 16 implies unsealed(ts)[12 + 16 * i + j]
        == #[trigger] directory_entry(ts, i)[j] by {
        assert(dir[16 * i + j] == directory_entry(ts, i)[j]);
    }
}

/// Tables begin at multiples of four, and each stands where the directory says.
proof fn lemma_bodies(ts: Seq<(u32, Seq<u8>)>, i: int, k: int)
    requires
        0 <= i < k,
    ensures
        bodies(ts, i).len() % 4 == 0,
        bodies(ts, k).len() % 4 == 0,
        bodies(ts, i).len() + padded(ts[i].1).len() <= bodies(ts, k).len(),
        forall|j: int|
            0 <= j < padded(ts[i].1).len() ==> bodies(ts, k)[bodies(ts, i).len() + j]
                == #[trigger] padded(ts[i].1)[j],
    decreases k,
{
    lemma_bodies_aligned(ts, i);
    lemma_bodies_aligned(ts, k);
    if i < k - 1 {
        lemma_bodies(ts, i, k - 1);
    }
}

proof fn lemma_bodies_aligned(ts: Seq<(u32, Seq<u8>)>, k: int)
    ensures
        bodies(ts, k).len() % 4 == 0,
    decreases k,
{
    if k > 0 {
        lemma_bodies_aligned(ts, k - 1);
    }
}

/// Without a `head` table there is no place for the overall checksum.
proof fn lemma_no_head(ts: Seq<(u32, Seq<u8>)>, k: int)
    requires
        forall|i: int| 0 <= i < k ==> (#[trigger] ts[i]).0 != HEAD,
    ensures
        head_start(ts, k) == 0,
    decreases k,
{
    if k > 0 {
        lemma_no_head(ts, k - 1);
    }
}

/// The `head` table begins where the directory says.
proof fn lemma_head_start(ts: Seq<(u32, Seq<u8>)>, h: int, k: int)
    requires
        0 <= h < k,
        ts[h].0 == HEAD,
        forall|i: int| 0 <= i < k && i != h ==> (#[trigger] ts[i]).0 != HEAD,
    ensures
        head_start(ts, k) == table_start(ts, h) % 0x1_0000_0000,
    decreases k,
{
    if h < k - 1 {
        assert(ts[k - 1].0 != HEAD);
        lemma_head_start(ts, h, k - 1);
    }
}

/// The place of the overall checksum: that of the `head` table, or none.
proof fn lemma_seal_place(ts: Seq<(u32, Seq<u8>)>, h: int)
    requires
        fits(ts),
        0 <= h < ts.len(),
        ts[h].0 == HEAD,
    ensures
        head_start(ts, ts.len() as int) == table_start(ts, h),
        table_start(ts, h) + 12 <= unsealed(ts).len(),
        table_start(ts, h) % 4 == 0,
        assembled(ts) == splice(unsealed(ts), table_start(ts, h) + 8, seal_of(ts)),
{
    let n = ts.len() as int;
    assert forall|i: int| 0 <= i < n && i != h implies (#[trigger] ts[i]).0 != HEAD by {
        assert(ts[h].0 == HEAD);
    }
    lemma_head_start(ts, h, n);
    lemma_unsealed(ts);
    lemma_bodies(ts, h, n);
}

/// The file has the length of the file without the overall checksum, and the same bytes before the
/// tables.
pub proof fn lemma_assembled(ts: Seq<(u32, Seq<u8>)>)
    requires
        fits(ts),
    ensures
        assembled(ts).len() == unsealed(ts).len(),
        unsealed(ts).len() == 12 + 16 * ts.len() + bodies(ts, ts.len() as int).len(),
        forall|i: int|
            0 <= i < 12 + 16 * ts.len() ==> #[trigger] assembled(ts)[i] == unsealed(ts)[i],
{
    let n = ts.len() as int;
    lemma_unsealed(ts);
    if exists|h: int| 0 <= h < n && (#[trigger] ts[h]).0 == HEAD {
        let h = choose|h: int| 0 <= h < n && (#[trigger] ts[h]).0 == HEAD;
        lemma_seal_place(ts, h);
    } else {
        lemma_no_head(ts, n);
    }
}

/// The directory of an assembled font can be read back.
pub proof fn lemma_entry(ts: Seq<(u32, Seq<u8>)>, i: int)
    requires
        fits(ts),
        0 <= i < ts.len(),
    ensures
        entry_tag(assembled(ts), i) == ts[i].0,
        entry_checksum(assembled(ts), i) == checksum(ts[i].1),
        entry_start(assembled(ts), i) == table_start(ts, i),
        entry_len(assembled(ts), i) == ts[i].1.len(),
        entry_fits(assembled(ts), i),
{
    let n = ts.len() as int;
    let out = assembled(ts);
    lemma_assembled(ts);
    lemma_unsealed(ts);
    lemma_bodies(ts, i, n);
    lemma_directory_entry(ts, i);
    let e = directory_entry(ts, i);
    let at = 12 + 16 * i;
    assert forall|j: int| 0 <= j < 16 implies #[trigger] e[j] == out[at + j] by {
        assert(unsealed(ts)[12 + 16 * i + j] == e[j]);
    }
    lemma_be32_moved(out, at, e, 0);
    lemma_be32_moved(out, at, e, 4);
    lemma_be32_moved(out, at, e, 8);
    lemma_be32_moved(out, at, e, 12);
}

/// The bytes of a table in an assembled font.
pub proof fn lemma_entry_data(ts: Seq<(u32, Seq<u8>)>, i: int)
    requires
        fits(ts),
        0 <= i < ts.len(),
    ensures
        entry_data(assembled(ts), i) == sealed(ts)[i].1,
{
    let n = ts.len() as int;
    let out = assembled(ts);
    let plain = unsealed(ts);
    let start = table_start(ts, i);
    let data = ts[i].1;
    lemma_entry(ts, i);
    lemma_assembled(ts);
    lemma_unsealed(ts);
    lemma_bodies(ts, i, n);
    assert forall|j: int| 0 <= j < data.len() implies plain[start + j] == #[trigger] data[j] by {
        assert(padded(data)[j] == data[j]);
        assert(bodies(ts, n)[bodies(ts, i).len() + j] == padded(data)[j]);
    }
    if exists|h: int| 0 <= h < n && (#[trigger] ts[h]).0 == HEAD {
        let h = choose|h: int| 0 <= h < n && (#[trigger] ts[h]).0 == HEAD;
        lemma_seal_place(ts, h);
        if h == i {
            assert(entry_data(out, i) =~= splice(data, 8, seal_of(ts)));
        } else {
            if h < i {
                lemma_bodies(ts, h, i);
                assert(ts[h].0 < ts[i].0);
            } else {
                lemma_bodies(ts, i, h);
                assert(ts[i].0 < ts[h].0);
            }
            assert(entry_data(out, i) =~= data);
        }
    } else {
        lemma_no_head(ts, n);
        assert(ts[i].0 != HEAD);
        assert(entry_data(out, i) =~= data);
    }
}

proof fn lemma_entries(ts: Seq<(u32, Seq<u8>)>, k: int)
    requires
        fits(ts),
        0 <= k <= ts.len(),
    ensures
        entries(assembled(ts), k) == Ok::<Seq<(u32, Seq<u8>)>, ConvertError>(sealed(ts).take(k)),
    decreases k,
{
    if k > 0 {
        lemma_entries(ts, k - 1);
        lemma_entry(ts, k - 1);
        lemma_entry_data(ts, k - 1);
        let before = sealed(ts).take(k - 1);
        if k > 1 {
            assert(ts[k - 2].0 < ts[k - 1].0);
        }
        assert(put(before, ts[k - 1].0, sealed(ts)[k - 1].1) == before.push(sealed(ts)[k - 1]));
        assert(before.push(sealed(ts)[k - 1]) =~= sealed(ts).take(k));
    } else {
        assert(sealed(ts).take(0) =~= Seq::empty());
    }
}

/// A reader of an assembled font finds in its directory the tables that it was assembled from, with
/// the overall checksum in `head`.
pub proof fn law_tables_are_read_back(ts: Seq<(u32, Seq<u8>)>)
    requires
        fits(ts),
    ensures
        font_tables(assembled(ts)) == Ok::<Seq<(u32, Seq<u8>)>, ConvertError>(sealed(ts)),
{
    let n = ts.len() as int;
    let out = assembled(ts);
    lemma_assembled(ts);
    lemma_header(ts);
    lemma_entries(ts, n);
    assert(sealed(ts).take(n) =~= sealed(ts));
}

/// The header of an assembled font gives its version and the number of its tables.
pub proof fn lemma_header(ts: Seq<(u32, Seq<u8>)>)
    requires
        fits(ts),
    ensures
        be32(assembled(ts), 0) == 0x1_0000,
        table_count(assembled(ts)) == ts.len(),
        assembled(ts).len() >= 12 + 16 * ts.len(),
{
    let out = assembled(ts);
    let head = font_header(count16(ts));
    lemma_assembled(ts);
    lemma_unsealed(ts);
    reveal(font_header);
    assert forall|i: int| 0 <= i < 12 implies #[trigger] out[i] == head[i] by {
        assert(unsealed(ts)[i] == head[i]);
    }
    lemma_be32_enc32(0x1_0000);
    lemma_be16_enc16(count16(ts));
    let v = enc32(0x1_0000);
    let c = enc16(count16(ts));
    assert(head[0] == v[0] && head[1] == v[1] && head[2] == v[2] && head[3] == v[3]);
    assert(head[4] == c[0] && head[5] == c[1]);
}

/// An assembled font begins with the version of the standard and is longer than the header.
pub proof fn law_font_has_a_header(ts: Seq<(u32, Seq<u8>)>)
    requires
        fits(ts),
        ts.len() > 0,
    ensures
        be32(assembled(ts), 0) == 0x1_0000,
        assembled(ts).len() > 12,
{
    lemma_header(ts);
}

/// The directory of an assembled font has the right checksum for each table: for `head` that
/// without the overall checksum, for the others that of the table as it is read.
pub proof fn law_checksums_agree(ts: Seq<(u32, Seq<u8>)>, i: int)
    requires
        fits(ts),
        0 <= i < ts.len(),
    ensures
        entry_checksum(assembled(ts), i) == checksum(ts[i].1),
        ts[i].0 != HEAD ==> entry_checksum(assembled(ts), i) == checksum(
            entry_data(assembled(ts), i),
        ),
{
    lemma_entry(ts, i);
    lemma_entry_data(ts, i);
}

/// Tables begin at multiples of four.
pub proof fn law_tables_are_aligned(ts: Seq<(u32, Seq<u8>)>, i: int)
    requires
        fits(ts),
        0 <= i < ts.len(),
    ensures
        entry_start(assembled(ts), i) % 4 == 0,
{
    lemma_entry(ts, i);
    lemma_bodies_aligned(ts, i);
}

/// Words that a change does not reach stay the same.
proof fn lemma_word_sum(a: Seq<u8>, b: Seq<u8>, w: int, k: int)
    requires
        a.len() == b.len(),
        0 <= w,
        4 * w + 4 <= a.len(),
        forall|i: int| 0 <= i < a.len() && !(4 * w <= i < 4 * w + 4) ==> #[trigger] a[i] == b[i],
    ensures
        word_sum(a, k) - word_sum(b, k) == if k > w {
            word(a, w) - word(b, w)
        } else {
            0
        },
    decreases k,
{
    if k > 0 {
        lemma_word_sum(a, b, w, k - 1);
        if k - 1 != w {
            let i = 4 * (k - 1);
            assert(byte_or_zero(a, i) == byte_or_zero(b, i));
            assert(byte_or_zero(a, i + 1) == byte_or_zero(b, i + 1));
            assert(byte_or_zero(a, i + 2) == byte_or_zero(b, i + 2));
            assert(byte_or_zero(a, i + 3) == byte_or_zero(b, i + 3));
        }
    }
}

/// The overall checksum of an assembled font is the number that the standard asks for, if its
/// `head` table came with zeros in that place.
pub proof fn law_font_is_sealed(ts: Seq<(u32, Seq<u8>)>, h: int)
    requires
        fits(ts),
        0 <= h < ts.len(),
        ts[h].0 == HEAD,
        be32(ts[h].1, 8) == 0,
    ensures
        checksum(assembled(ts)) == SEAL,
{
    let n = ts.len() as int;
    let out = assembled(ts);
    let plain = unsealed(ts);
    let start = table_start(ts, h);
    let data = ts[h].1;
    lemma_seal_place(ts, h);
    lemma_assembled(ts);
    lemma_unsealed(ts);
    lemma_bodies(ts, h, n);
    let w = (start + 8) / 4;
    assert(4 * w == start + 8);
    assert forall|j: int| 8 <= j < 12 implies plain[start + j] == #[trigger] data[j] by {
        assert(padded(data)[j] == data[j]);
        assert(bodies(ts, n)[bodies(ts, h).len() + j] == padded(data)[j]);
    }
    assert(word(plain, w) == be32(data, 8)) by {
        assert(plain[start + 8] == data[8]);
        assert(plain[start + 9] == data[9]);
        assert(plain[start + 10] == data[10]);
        assert(plain[start + 11] == data[11]);
    }
    let b = seal_of(ts);
    assert(word(out, w) == be32(b, 0)) by {
        assert(out[start + 8] == b[0]);
        assert(out[start + 9] == b[1]);
        assert(out[start + 10] == b[2]);
        assert(out[start + 11] == b[3]);
    }
    lemma_be32_enc32(SEAL - checksum(plain));
    let k = (out.len() as int + 3) / 4;
    lemma_word_sum(out, plain, w, k);
    lemma_sealed_sum(word_sum(plain, k), word_sum(out, k));
    assert(checksum(out) == word_sum(out, k) % 0x1_0000_0000) by {
        reveal(checksum);
    }
    assert(checksum(plain) == word_sum(plain, k) % 0x1_0000_0000) by {
        reveal(checksum);
    }
}

proof fn lemma_sealed_sum(s: int, t: int)
    ensures
        t == s + (SEAL - s % 0x1_0000_0000) % 0x1_0000_0000 ==> t % 0x1_0000_0000 == SEAL,
{
    let q = s / 0x1_0000_0000;
    let a = s % 0x1_0000_0000;
    assert(s == 0x1_0000_0000 * q + a);
    if a <= SEAL {
        assert((SEAL - a) % 0x1_0000_0000 == SEAL - a);
        assert((0x1_0000_0000 * q + SEAL) % 0x1_0000_0000 == SEAL);
    } else {
        assert((SEAL - a) % 0x1_0000_0000 == SEAL - a + 0x1_0000_0000);
        assert((0x1_0000_0000 * (q + 1) + SEAL) % 0x1_0000_0000 == SEAL);
    }
}

/// A font without empty tables that is not to be changed otherwise stays as it is.
pub proof fn law_standard_font_is_kept(raw: Seq<u8>)
    requires
        font_tables(raw) is Ok,
        !lists_empty(raw),
    ensures
        repaired(raw) == Ok::<Seq<u8>, ConvertError>(raw),
{
}

/// What is left without empty tables.
pub proof fn lemma_nonempty(ts: Seq<(u32, Seq<u8>)>, k: int)
    requires
        ordered(ts),
        0 <= k <= ts.len(),
    ensures
        ordered(nonempty(ts, k)),
        nonempty(ts, k).len() <= k,
        forall|i: int| 0 <= i < nonempty(ts, k).len() ==> (#[trigger] nonempty(ts, k)[i]).1.len() > 0,
        forall|i: int|
            0 <= i < nonempty(ts, k).len() ==> exists|j: int|
                0 <= j < k && #[trigger] ts[j] == #[trigger] nonempty(ts, k)[i],
    decreases k,
{
    if k > 0 {
        lemma_nonempty(ts, k - 1);
        let before = nonempty(ts, k - 1);
        let now = nonempty(ts, k);
        assert forall|i: int| 0 <= i < now.len() implies exists|j: int|
            0 <= j < k && #[trigger] ts[j] == #[trigger] now[i] by {
            if i < before.len() {
                let j = choose|j: int| 0 <= j < k - 1 && ts[j] == before[i];
                assert(ts[j] == now[i]);
            } else {
                assert(ts[k - 1] == now[i]);
            }
        }
        assert forall|i: int, j: int| 0 <= i < j < now.len() implies (#[trigger] now[i]).0 < (
        #[trigger] now[j]).0 by {
            if j == before.len() {
                let m = choose|m: int| 0 <= m < k - 1 && ts[m] == before[i];
                assert(ts[m].0 < ts[k - 1].0);
            } else {
                assert(before[i].0 < before[j].0);
            }
        }
    }
}

/// An assembled font lists an empty table only if it was assembled from one.
proof fn lemma_lists_empty(ts: Seq<(u32, Seq<u8>)>)
    requires
        fits(ts),
        forall|i: int| 0 <= i < ts.len() ==> (#[trigger] ts[i]).1.len() > 0,
    ensures
        !lists_empty(assembled(ts)),
{
    lemma_header(ts);
    let out = assembled(ts);
    assert forall|i: int| 0 <= i < table_count(out) implies #[trigger] entry_len(out, i) != 0 by {
        lemma_entry(ts, i);
        assert(ts[i].1.len() > 0);
    }
}

/// A font that was assembled from tables none of which is empty is a standard font that stays as
/// it is.
pub proof fn law_assembled_font_is_kept(ts: Seq<(u32, Seq<u8>)>)
    requires
        fits(ts),
        forall|i: int| 0 <= i < ts.len() ==> (#[trigger] ts[i]).1.len() > 0,
    ensures
        repaired(assembled(ts)) == Ok::<Seq<u8>, ConvertError>(assembled(ts)),
{
    law_tables_are_read_back(ts);
    lemma_lists_empty(ts);
}

/// The tables of a font are ordered by tag.
pub proof fn law_tables_are_ordered(raw: Seq<u8>)
    ensures
        font_tables(raw) matches Ok(ts) ==> ordered(ts),
{
    if directory_error(raw) is None {
        lemma_entries_ordered(raw, table_count(raw));
    }
}

proof fn lemma_entries_ordered(raw: Seq<u8>, k: int)
    ensures
        entries(raw, k) matches Ok(ts) ==> ordered(ts) && (k >= 0 ==> ts.len() <= k),
    decreases k,
{
    if k > 0 {
        lemma_entries_ordered(raw, k - 1);
        if let Ok(ts) = entries(raw, k - 1) {
            law_put_keeps_order(ts, entry_tag(raw, k - 1), entry_data(raw, k - 1));
        }
    }
}

/// Putting a table into an ordered list leaves it ordered.
pub proof fn law_put_keeps_order<T>(ts: Seq<(u32, T)>, tag: u32, data: T)
    requires
        ordered(ts),
    ensures
        ordered(put(ts, tag, data)),
        put(ts, tag, data).len() <= ts.len() + 1,
        put(ts, tag, data).len() > 0,
        put(ts, tag, data).last().0 == tag || ts.len() > 0 && put(ts, tag, data).last().0
            == ts.last().0 && ts.last().0 > tag,
    decreases ts.len(),
{
    if ts.len() == 0 || ts.last().0 < tag {
        let now = put(ts, tag, data);
        assert forall|i: int, j: int| 0 <= i < j < now.len() implies (#[trigger] now[i]).0 < (
        #[trigger] now[j]).0 by {
            if j == ts.len() && i < ts.len() - 1 {
                assert(ts[i].0 < ts[ts.len() - 1].0);
            }
        }
    } else if ts.last().0 == tag {
        let now = put(ts, tag, data);
        assert forall|i: int, j: int| 0 <= i < j < now.len() implies (#[trigger] now[i]).0 < (
        #[trigger] now[j]).0 by {
            assert(ts[i].0 < ts[j].0);
        }
    } else {
        let front = ts.drop_last();
        assert(ordered(front)) by {
            assert forall|i: int, j: int| 0 <= i < j < front.len() implies (#[trigger] front[i]).0
                < (#[trigger] front[j]).0 by {
                assert(ts[i].0 < ts[j].0);
            }
        }
        law_put_keeps_order(front, tag, data);
        let inner = put(front, tag, data);
        let now = put(ts, tag, data);
        if front.len() > 0 {
            assert(ts[ts.len() - 2].0 < ts[ts.len() - 1].0);
        }
        assert(inner.last().0 < ts.last().0);
        assert forall|i: int, j: int| 0 <= i < j < now.len() implies (#[trigger] now[i]).0 < (
        #[trigger] now[j]).0 by {
            if j == inner.len() {
                if i < inner.len() - 1 {
                    assert(inner[i].0 < inner[inner.len() - 1].0);
                }
            } else {
                assert(inner[i].0 < inner[j].0);
            }
        }
    }
}

/// A table that was put into an ordered list is found there, and the other tables are as before.
pub proof fn law_put_is_found<T>(ts: Seq<(u32, T)>, tag: u32, data: T, other: u32)
    requires
        ordered(ts),
    ensures
        get(put(ts, tag, data), tag) == Some(data),
        other != tag ==> get(put(ts, tag, data), other) == get(ts, other),
    decreases ts.len(),
{
    if ts.len() == 0 || ts.last().0 < tag {
        assert(put(ts, tag, data).drop_last() =~= ts);
    } else if ts.last().0 == tag {
        assert(put(ts, tag, data).drop_last() =~= ts.drop_last());
    } else {
        let front = ts.drop_last();
        assert forall|i: int, j: int| 0 <= i < j < front.len() implies (#[trigger] front[i]).0 < (
        #[trigger] front[j]).0 by {
            assert(ts[i].0 < ts[j].0);
        }
        law_put_is_found(front, tag, data, other);
        assert(put(ts, tag, data).drop_last() =~= put(front, tag, data));
    }
}

/// A font that has lost its empty tables stays as it is when it is repaired again.
pub proof fn law_repair_is_idempotent(raw: Seq<u8>)
    requires
        repaired(raw) is Ok,
        repaired(raw)->Ok_0.len() < 0x1_0000_0000,
        forall|h: int|
            0 <= h < font_tables(raw)->Ok_0.len() && (#[trigger] font_tables(raw)->Ok_0[h]).0
                == HEAD ==> font_tables(raw)->Ok_0[h].1.len() == 0
                || font_tables(raw)->Ok_0[h].1.len() >= 12,
    ensures
        repaired(repaired(raw)->Ok_0) == repaired(raw),
{
    let ts = font_tables(raw)->Ok_0;
    if lists_empty(raw) {
        law_tables_are_ordered(raw);
        lemma_entries_ordered(raw, table_count(raw));
        let n = ts.len() as int;
        let kept = nonempty(ts, n);
        lemma_nonempty(ts, n);
        assert forall|i: int| 0 <= i < kept.len() && (#[trigger] kept[i]).0 == HEAD implies
            kept[i].1.len() >= 12 by {
            let j = choose|j: int| 0 <= j < n && ts[j] == kept[i];
            assert(ts[j].0 == HEAD);
        }
        assert(fits(kept));
        law_assembled_font_is_kept(kept);
    }
}

} // verus!
