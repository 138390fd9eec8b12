//! The bytes of a font at their places, and checksums.

use vstd::prelude::*;
use crate::bytes::{be16, be32, enc16, lemma_be16_enc16, padded, zeros};
use crate::error::ConvertError;
use crate::laws::font::{
    fits, law_put_is_found, law_tables_are_ordered, law_tables_are_read_back, lemma_assembled,
    lemma_entry, lemma_entry_data, lemma_header, lemma_unsealed, sealed,
};
use crate::sfnt::{
    assembled, byte_or_zero, checksum, count16, entries, entry_data, entry_fits, entry_len,
    entry_start, entry_tag, first_entry, first_table, floor_log2, floor_pow2, font_header,
    font_tables, get, lemma_floor_log2, lemma_floor_pow2, lists_empty, nonempty, ordered, repaired,
    table_count, unsealed, word, word_sum,
};

verus! {

broadcast use crate::bytes::group_encoded_lengths;

/// Two to the power of `k`.
pub open spec fn two_to(k: int) -> int
    decreases k,
{
    if k <= 0 {
        1
    } else {
        2 * two_to(k - 1)
    }
}

/// The greatest power of two that is at most `n` has the exponent that goes with it.
pub proof fn law_two_to(n: int)
    requires
        n >= 1,
    ensures
        floor_pow2(n) == two_to(floor_log2(n)),
        0 <= floor_log2(n),
    decreases n,
{
    if n > 1 {
        law_two_to(n / 2);
    }
}

/// The fields for a binary search over `n` entries of `size` bytes: the greatest power of two that
/// is at most `n`, its exponent, and what is left, the first and the last in bytes and in 16 bits.
pub open spec fn search_fields(range: int, selector: int, shift: int, n: int, size: int) -> bool {
    &&& 0 <= selector
    &&& two_to(selector) <= n < 2 * two_to(selector)
    &&& range == (size * two_to(selector)) % 0x1_0000
    &&& shift == (size * n - size * two_to(selector)) % 0x1_0000
}

/// The header of a font: version 1.0, the number of its tables, and the fields for a search in the
/// directory.
pub proof fn law_header_is_standard(ts: Seq<(u32, Seq<u8>)>)
    requires
        fits(ts),
        1 <= ts.len(),
    ensures
        ({
            let out = assembled(ts);
            &&& be32(out, 0) == 0x1_0000
            &&& be16(out, 4) == ts.len()
            &&& search_fields(be16(out, 6), be16(out, 8), be16(out, 10), ts.len() as int, 16)
        }),
{
    let out = assembled(ts);
    let n = ts.len() as int;
    lemma_header(ts);
    lemma_assembled(ts);
    lemma_unsealed(ts);
    lemma_floor_pow2(n);
    law_two_to(n);
    lemma_floor_log2(n);
    let head = font_header(count16(ts));
    assert forall|i: int| 0 <= i < 12 implies #[trigger] out[i] == head[i] by {
        assert(unsealed(ts)[i] == head[i]);
    }
    reveal(font_header);
    let p = floor_pow2(n);
    let (a, b, c) = (enc16(16 * p), enc16(floor_log2(n)), enc16(16 * n - 16 * p));
    lemma_be16_enc16(16 * p);
    lemma_be16_enc16(floor_log2(n));
    lemma_be16_enc16(16 * n - 16 * p);
    assert(head[6] == a[0] && head[7] == a[1]);
    assert(head[8] == b[0] && head[9] == b[1]);
    assert(head[10] == c[0] && head[11] == c[1]);
}

/// However many tables there are, the header counts them in 16 bits.
pub proof fn law_tables_are_counted_in_16_bits(ts: Seq<(u32, Seq<u8>)>)
    ensures
        be16(unsealed(ts), 4) == ts.len() % 0x1_0000,
{
    lemma_unsealed(ts);
    let (raw, head) = (unsealed(ts), font_header(count16(ts)));
    assert(raw[4] == head[4] && raw[5] == head[5]);
    reveal(font_header);
    let c = enc16(count16(ts));
    lemma_be16_enc16(count16(ts));
    assert(head[4] == c[0] && head[5] == c[1]);
}

/// The entry of table `i` stands at `12 + 16 * i`: its tag, its checksum, where it begins and how
/// long it is. There, at a multiple of four, it stands; only the bytes from 8 to 12 of `head` are
/// others.
pub proof fn law_tables_stand_at_their_places(ts: Seq<(u32, Seq<u8>)>, i: int, k: int)
    requires
        fits(ts),
        0 <= i < ts.len(),
        0 <= k < ts[i].1.len(),
    ensures
        ({
            let out = assembled(ts);
            let at = 12 + 16 * i;
            let start = be32(out, at + 8);
            &&& be32(out, at) == ts[i].0
            &&& be32(out, at + 4) == checksum(ts[i].1)
            &&& be32(out, at + 12) == ts[i].1.len()
            &&& 12 + 16 * ts.len() <= start
            &&& start + ts[i].1.len() <= out.len()
            &&& out[start + k] == ts[i].1[k] || ts[i].0 == 0x6865_6164 && 8 <= k < 12
        }),
{
    let out = assembled(ts);
    lemma_entry(ts, i);
    lemma_entry_data(ts, i);
    lemma_header(ts);
    let start = entry_start(out, i);
    let data = entry_data(out, i);
    assert(data[k] == out[start + k]);
    assert(sealed(ts)[i].1[k] == data[k]);
}

/// One table does not reach into the next.
pub proof fn law_tables_do_not_overlap(ts: Seq<(u32, Seq<u8>)>, i: int, j: int)
    requires
        fits(ts),
        0 <= i < j < ts.len(),
    ensures
        ({
            let out = assembled(ts);
            be32(out, 12 + 16 * i + 8) + be32(out, 12 + 16 * i + 12) <= be32(out, 12 + 16 * j + 8)
        }),
{
    lemma_entry(ts, i);
    lemma_entry(ts, j);
    lemma_bodies_grow(ts, i, j);
}

proof fn lemma_bodies_grow(ts: Seq<(u32, Seq<u8>)>, i: int, j: int)
    requires
        0 <= i < j,
    ensures
        crate::sfnt::bodies(ts, i).len() + ts[i].1.len() <= crate::sfnt::bodies(ts, j).len(),
    decreases j,
{
    if i < j - 1 {
        lemma_bodies_grow(ts, i, j - 1);
    }
}

proof fn lemma_word_sum_parts(a: Seq<u8>, b: Seq<u8>, n: int, k: int)
    requires
        a.len() == 4 * n,
        0 <= k,
    ensures
        word_sum(a + b, n + k) == word_sum(a, n) + word_sum(b, k),
    decreases k,
{
    if k > 0 {
        lemma_word_sum_parts(a, b, n, k - 1);
        let c = a + b;
        assert forall|j: int| 0 <= j implies #[trigger] byte_or_zero(b, j) == byte_or_zero(
            c,
            4 * n + j,
        ) by {
            if j < b.len() {
                assert(c[4 * n + j] == b[j]);
            }
        }
        let q = 4 * (k - 1);
        assert(byte_or_zero(b, q) == byte_or_zero(c, 4 * n + q));
        assert(byte_or_zero(b, q + 1) == byte_or_zero(c, 4 * n + (q + 1)));
        assert(byte_or_zero(b, q + 2) == byte_or_zero(c, 4 * n + (q + 2)));
        assert(byte_or_zero(b, q + 3) == byte_or_zero(c, 4 * n + (q + 3)));
    } else {
        lemma_word_sum_front(a, b, n);
    }
}

proof fn lemma_word_sum_front(a: Seq<u8>, b: Seq<u8>, k: int)
    requires
        4 * k <= a.len(),
    ensures
        word_sum(a + b, k) == word_sum(a, k),
    decreases k,
{
    if k > 0 {
        lemma_word_sum_front(a, b, k - 1);
        let c = a + b;
        let q = 4 * (k - 1);
        assert(c[q] == a[q] && c[q + 1] == a[q + 1] && c[q + 2] == a[q + 2] && c[q + 3] == a[q
            + 3]);
    }
}

/// The checksum of whole words and what follows them is the sum of both, in 32 bits. That of one
/// word is the word, that of nothing 0, and zeros up to a whole word change nothing.
pub proof fn law_checksums_add_up(a: Seq<u8>, b: Seq<u8>, w: Seq<u8>)
    requires
        a.len() % 4 == 0,
        w.len() == 4,
    ensures
        checksum(a + b) == (checksum(a) + checksum(b)) % 0x1_0000_0000,
        checksum(w) == be32(w, 0),
        checksum(Seq::<u8>::empty()) == 0,
        checksum(padded(b)) == checksum(b),
{
    reveal(checksum);
    let n = a.len() as int / 4;
    let k = (b.len() as int + 3) / 4;
    lemma_word_sum_parts(a, b, n, k);
    let (s, t) = (word_sum(a, n), word_sum(b, k));
    assert((a.len() as int + 3) / 4 == n);
    assert(((a + b).len() as int + 3) / 4 == n + k);
    assert((s % 0x1_0000_0000 + t % 0x1_0000_0000) % 0x1_0000_0000 == (s + t) % 0x1_0000_0000);
    assert(word_sum(w, 1) == word_sum(w, 0) + word(w, 0));
    assert(word_sum(Seq::<u8>::empty(), 0) == 0);
    let p = padded(b);
    assert((p.len() as int + 3) / 4 == k);
    lemma_word_sum_padded(b, p, k);
}

proof fn lemma_word_sum_padded(b: Seq<u8>, p: Seq<u8>, k: int)
    requires
        p == padded(b),
    ensures
        word_sum(p, k) == word_sum(b, k),
    decreases k,
{
    if k > 0 {
        lemma_word_sum_padded(b, p, k - 1);
        assert forall|j: int| 0 <= j implies #[trigger] byte_or_zero(b, j) == byte_or_zero(
            p,
            j,
        ) by {
            if b.len() <= j < p.len() {
                assert(p[j] == 0);
            }
        }
        let q = 4 * (k - 1);
        assert(byte_or_zero(b, q) == byte_or_zero(p, q));
        assert(byte_or_zero(b, q + 1) == byte_or_zero(p, q + 1));
        assert(byte_or_zero(b, q + 2) == byte_or_zero(p, q + 2));
        assert(byte_or_zero(b, q + 3) == byte_or_zero(p, q + 3));
    }
}

/// Entry `i` of a directory has the tag.
pub open spec fn lists(raw: Seq<u8>, i: int, tag: u32) -> bool {
    be32(raw, 12 + 16 * i) == tag
}

/// The bytes that entry `i` of a directory speaks of.
pub open spec fn listed_bytes(raw: Seq<u8>, i: int) -> Seq<u8> {
    let start = be32(raw, 12 + 16 * i + 8);
    raw.subrange(start, start + be32(raw, 12 + 16 * i + 12))
}

/// The bytes that entry `i` of a directory speaks of lie in the file.
pub open spec fn lies_in(raw: Seq<u8>, i: int) -> bool {
    be32(raw, 12 + 16 * i + 8) + be32(raw, 12 + 16 * i + 12) <= raw.len()
}

proof fn lemma_entries_get(raw: Seq<u8>, k: int, tag: u32)
    requires
        0 <= k,
        entries(raw, k) is Ok,
    ensures
        ordered(entries(raw, k)->Ok_0),
        match get(entries(raw, k)->Ok_0, tag) {
            Some(data) => exists|i: int|
                0 <= i < k && #[trigger] lists(raw, i, tag) && data == listed_bytes(raw, i) && forall|
                    j: int,
                | i < j < k ==> !#[trigger] lists(raw, j, tag),
            None => forall|i: int| 0 <= i < k ==> !#[trigger] lists(raw, i, tag),
        },
    decreases k,
{
    if k > 0 {
        lemma_entries_get(raw, k - 1, tag);
        let before = entries(raw, k - 1)->Ok_0;
        let t = entry_tag(raw, k - 1);
        let d = entry_data(raw, k - 1);
        crate::laws::font::law_put_keeps_order(before, t, d);
        law_put_is_found(before, t, d, tag);
        if t == tag {
            assert(lists(raw, k - 1, tag));
        } else {
            assert(!lists(raw, k - 1, tag));
            if get(before, tag) is Some {
                let data = get(before, tag)->0;
                let i = choose|i: int|
                    0 <= i < k - 1 && #[trigger] lists(raw, i, tag) && data == listed_bytes(raw, i)
                        && forall|j: int| i < j < k - 1 ==> !#[trigger] lists(raw, j, tag);
                assert(lists(raw, i, tag));
                assert forall|j: int| i < j < k implies !#[trigger] lists(raw, j, tag) by {}
            }
        }
    }
}

/// A table of a font is what the last entry with its tag speaks of; a tag that no entry has is not
/// found.
pub proof fn law_directory_is_read(raw: Seq<u8>, tag: u32, i: int)
    requires
        font_tables(raw) is Ok,
        0 <= i < be16(raw, 4),
    ensures
        (forall|j: int| 0 <= j < be16(raw, 4) ==> !#[trigger] lists(raw, j, tag)) ==> get(
            font_tables(raw)->Ok_0,
            tag,
        ) is None,
        lists(raw, i, tag) && (forall|j: int|
            i < j < be16(raw, 4) ==> !#[trigger] lists(raw, j, tag)) ==> get(
            font_tables(raw)->Ok_0,
            tag,
        ) == Some(listed_bytes(raw, i)),
{
    let n = table_count(raw);
    lemma_entries_get(raw, n, tag);
    let ts = font_tables(raw)->Ok_0;
    if lists(raw, i, tag) && (forall|j: int| i < j < n ==> !#[trigger] lists(raw, j, tag)) {
        if get(ts, tag) is Some {
            let data = get(ts, tag)->0;
            let q = choose|q: int|
                0 <= q < n && #[trigger] lists(raw, q, tag) && data == listed_bytes(raw, q)
                    && forall|j: int| q < j < n ==> !#[trigger] lists(raw, j, tag);
            assert(q == i);
        }
    }
}

proof fn lemma_entries_ok(raw: Seq<u8>, k: int)
    requires
        0 <= k,
    ensures
        match entries(raw, k) {
            Ok(_ts) => forall|j: int| 0 <= j < k ==> #[trigger] lies_in(raw, j),
            Err(e) => exists|i: int|
                0 <= i < k && !#[trigger] lies_in(raw, i) && e == ConvertError::TableOutOfBounds(
                    be32(raw, 12 + 16 * i) as u32,
                ) && forall|j: int| 0 <= j < i ==> #[trigger] lies_in(raw, j),
        },
    decreases k,
{
    if k > 0 {
        lemma_entries_ok(raw, k - 1);
        assert(entry_fits(raw, k - 1) == lies_in(raw, k - 1));
        if entries(raw, k - 1) is Err {
            let e = entries(raw, k - 1)->Err_0;
            let i = choose|i: int|
                0 <= i < k - 1 && !#[trigger] lies_in(raw, i) && e
                    == ConvertError::TableOutOfBounds(be32(raw, 12 + 16 * i) as u32) && forall|j: int|
                    0 <= j < i ==> #[trigger] lies_in(raw, j);
            assert(!lies_in(raw, i));
        }
    }
}

/// A directory is read if and only if it is whole and every table that it lists lies in the file.
/// Else the fault is that of the file, of the directory or of the first table that does not.
pub proof fn law_faults_of_directories(raw: Seq<u8>)
    ensures
        raw.len() < 12 ==> font_tables(raw) == Err::<Seq<(u32, Seq<u8>)>, ConvertError>(
            ConvertError::FileTooShort,
        ),
        12 <= raw.len() < 12 + 16 * be16(raw, 4) ==> font_tables(raw) == Err::<
            Seq<(u32, Seq<u8>)>,
            ConvertError,
        >(ConvertError::CorruptedDirectory),
        raw.len() >= 12 && raw.len() >= 12 + 16 * be16(raw, 4) ==> match font_tables(raw) {
            Ok(_ts) => forall|j: int| 0 <= j < be16(raw, 4) ==> #[trigger] lies_in(raw, j),
            Err(e) => exists|i: int|
                0 <= i < be16(raw, 4) && !#[trigger] lies_in(raw, i) && e
                    == ConvertError::TableOutOfBounds(be32(raw, 12 + 16 * i) as u32) && forall|j: int|
                    0 <= j < i ==> #[trigger] lies_in(raw, j),
        },
{
    if raw.len() >= 12 {
        lemma_entries_ok(raw, table_count(raw));
    }
}

proof fn lemma_first_entry(raw: Seq<u8>, tag: u32, i: int, k: int)
    requires
        0 <= i <= k < table_count(raw),
        lists(raw, k, tag),
        forall|j: int| i <= j < k ==> !#[trigger] lists(raw, j, tag),
    ensures
        first_entry(raw, tag, i) == if lies_in(raw, k) {
            Ok::<Option<Seq<u8>>, ConvertError>(Some(listed_bytes(raw, k)))
        } else {
            Err(ConvertError::TableOutOfBounds(tag))
        },
    decreases k - i,
{
    if i < k {
        assert(!lists(raw, i, tag));
        lemma_first_entry(raw, tag, i + 1, k);
    }
}

proof fn lemma_no_entry(raw: Seq<u8>, tag: u32, i: int)
    requires
        0 <= i,
        forall|j: int| 0 <= j < table_count(raw) ==> !#[trigger] lists(raw, j, tag),
    ensures
        first_entry(raw, tag, i) == Ok::<Option<Seq<u8>>, ConvertError>(None),
    decreases table_count(raw) - i,
{
    if i < table_count(raw) {
        assert(!lists(raw, i, tag));
        lemma_no_entry(raw, tag, i + 1);
    }
}

/// The table that is looked for alone is what the first entry with its tag speaks of.
pub proof fn law_first_table_is_found(raw: Seq<u8>, tag: u32, k: int)
    requires
        raw.len() >= 12,
        raw.len() >= 12 + 16 * be16(raw, 4),
    ensures
        (forall|j: int| 0 <= j < be16(raw, 4) ==> !#[trigger] lists(raw, j, tag)) ==> first_table(
            raw,
            tag,
        ) == Ok::<Option<Seq<u8>>, ConvertError>(None),
        0 <= k < be16(raw, 4) && lists(raw, k, tag) && (forall|j: int|
            0 <= j < k ==> !#[trigger] lists(raw, j, tag)) ==> first_table(raw, tag) == if lies_in(
            raw,
            k,
        ) {
            Ok::<Option<Seq<u8>>, ConvertError>(Some(listed_bytes(raw, k)))
        } else {
            Err(ConvertError::TableOutOfBounds(tag))
        },
{
    if forall|j: int| 0 <= j < be16(raw, 4) ==> !#[trigger] lists(raw, j, tag) {
        lemma_no_entry(raw, tag, 0);
    }
    if 0 <= k < be16(raw, 4) && lists(raw, k, tag) && (forall|j: int|
        0 <= j < k ==> !#[trigger] lists(raw, j, tag)) {
        lemma_first_entry(raw, tag, 0, k);
    }
}

proof fn lemma_nonempty_get(ts: Seq<(u32, Seq<u8>)>, k: int, tag: u32)
    requires
        ordered(ts),
        0 <= k <= ts.len(),
    ensures
        get(nonempty(ts, k), tag) == match get(ts.take(k), tag) {
            Some(data) => if data.len() > 0 {
                Some(data)
            } else {
                None
            },
            None => None,
        },
    decreases k,
{
    if k > 0 {
        lemma_nonempty_get(ts, k - 1, tag);
        let front = ts.take(k - 1);
        assert(ts.take(k).drop_last() =~= front);
        let before = nonempty(ts, k - 1);
        if ts[k - 1].1.len() > 0 {
            assert(before.push(ts[k - 1]).drop_last() =~= before);
        } else if ts[k - 1].0 == tag {
            assert forall|i: int| 0 <= i < front.len() implies (#[trigger] front[i]).0 != tag by {
                assert(ts[i].0 < ts[k - 1].0);
            }
            crate::laws::conversion::lemma_get_absent(front, tag);
        }
    } else {
        assert(ts.take(0).len() == 0);
    }
}

/// A standard font that lists empty tables comes out without them. Its other tables are as they
/// were, but for the overall checksum in `head`.
pub proof fn law_empty_tables_are_dropped(raw: Seq<u8>, tag: u32, i: int)
    requires
        font_tables(raw) is Ok,
        0 <= i < be16(raw, 4),
        be32(raw, 12 + 16 * i + 12) == 0,
        fits(nonempty(font_tables(raw)->Ok_0, font_tables(raw)->Ok_0.len() as int)),
        tag != 0x6865_6164,
    ensures
        repaired(raw) is Ok,
        font_tables(repaired(raw)->Ok_0) is Ok,
        get(font_tables(repaired(raw)->Ok_0)->Ok_0, tag) == match get(
            font_tables(raw)->Ok_0,
            tag,
        ) {
            Some(data) => if data.len() > 0 {
                Some(data)
            } else {
                None
            },
            None => None,
        },
{
    let ts = font_tables(raw)->Ok_0;
    let n = ts.len() as int;
    assert(entry_len(raw, i) == 0);
    assert(lists_empty(raw));
    law_tables_are_ordered(raw);
    let kept = nonempty(ts, n);
    law_tables_are_read_back(kept);
    lemma_nonempty_get(ts, n, tag);
    assert(ts.take(n) =~= ts);
    crate::laws::conversion::lemma_get_sealed(kept, tag);
}

/// A font in which no entry has length 0 comes out as it is.
pub proof fn law_full_font_is_kept(raw: Seq<u8>)
    requires
        font_tables(raw) is Ok,
        forall|i: int| 0 <= i < be16(raw, 4) ==> #[trigger] be32(raw, 12 + 16 * i + 12) != 0,
    ensures
        repaired(raw) == Ok::<Seq<u8>, ConvertError>(raw),
{
    assert forall|i: int| 0 <= i < table_count(raw) implies #[trigger] entry_len(raw, i) != 0 by {
        assert(be32(raw, 12 + 16 * i + 12) != 0);
    }
}

} // verus!
