//! The pictures that come out of an `eimg` table.

use vstd::prelude::*;
use crate::assets::{
    chunks_end, font_frames, next_png, png_at, png_len, png_size, slot_count, slot_data,
    slot_frame, slot_frames, slot_offset, slot_start, slots_end, table_frames, Frame, IEND, IHDR,
};
use crate::bytes::{be16, be32, enc32, lemma_be32_enc32, lemma_be32_moved};
use crate::error::ConvertError;
use crate::laws::bytes::stands;
use crate::sfnt::first_table;

verus! {

broadcast use crate::bytes::group_encoded_lengths;

/// The chunks end behind the place where they begin, and what follows them makes no difference.
proof fn lemma_chunks_end(data: Seq<u8>, pos: int)
    requires
        0 <= pos,
        chunks_end(data, pos) is Some,
    ensures
        pos < chunks_end(data, pos)->0 <= data.len(),
        chunks_end(data.take(chunks_end(data, pos)->0), pos) == chunks_end(data, pos),
    decreases data.len() - pos,
{
    let next = pos + 12 + be32(data, pos);
    let end = chunks_end(data, pos)->0;
    if be32(data, pos + 4) != IEND {
        lemma_chunks_end(data, next);
    }
    let t = data.take(end);
    assert(be32(t, pos) == be32(data, pos));
    assert(be32(t, pos + 4) == be32(data, pos + 4));
}

/// A picture is a whole PNG file: it begins with the signature and ends with its `IEND` chunk.
pub open spec fn is_whole_png(png: Seq<u8>) -> bool {
    png_at(png, 0) && png_len(png) == Some(png.len() as int)
}

proof fn lemma_slot_frame(eimg: Seq<u8>, first: int, slot: int)
    ensures
        slot_frame(eimg, first, slot) matches Some(f) ==> f.slot == slot && is_whole_png(f.png),
{
    if let Some(f) = slot_frame(eimg, first, slot) {
        let data = slot_data(eimg, first, slot)->0;
        let end = png_len(data)->0;
        lemma_chunks_end(data, 8);
        let t = data.take(end);
        assert(be32(t, 0) == be32(data, 0));
        assert(be32(t, 4) == be32(data, 4));
    }
}

proof fn lemma_slot_frames(eimg: Seq<u8>, first: int, k: int)
    requires
        0 <= k,
    ensures
        forall|i: int|
            0 <= i < slot_frames(eimg, first, k).len() ==> {
                let f = #[trigger] slot_frames(eimg, first, k)[i];
                is_whole_png(f.png) && 0 <= f.slot < k
            },
        forall|i: int, j: int|
            0 <= i < j < slot_frames(eimg, first, k).len() ==> (#[trigger] slot_frames(
                eimg,
                first,
                k,
            )[i]).slot < (#[trigger] slot_frames(eimg, first, k)[j]).slot,
    decreases k,
{
    if k > 0 {
        lemma_slot_frames(eimg, first, k - 1);
        lemma_slot_frame(eimg, first, k - 1);
        let before = slot_frames(eimg, first, k - 1);
        let now = slot_frames(eimg, first, k);
        assert forall|i: int| 0 <= i < now.len() implies {
            let f = #[trigger] now[i];
            is_whole_png(f.png) && 0 <= f.slot < k
        } by {
            if i < before.len() {
                assert(now[i] == before[i]);
            }
        }
        assert forall|i: int, j: int| 0 <= i < j < now.len() implies (#[trigger] now[i]).slot < (
        #[trigger] now[j]).slot by {
            assert(now[i] == before[i]);
            if j < before.len() {
                assert(now[j] == before[j]);
            }
        }
    }
}

/// Each picture that comes out of an `eimg` table is a whole PNG file.
pub proof fn law_pictures_are_whole(eimg: Seq<u8>, i: int)
    requires
        0 <= i < table_frames(eimg).len(),
    ensures
        is_whole_png(table_frames(eimg)[i].png),
        0 <= table_frames(eimg)[i].slot < slot_count(eimg),
{
    let first = next_png(eimg, slots_end(eimg))->0;
    lemma_slot_frames(eimg, first, slot_count(eimg));
}

/// The pictures come in the order of their slots, at most one from each.
pub proof fn law_pictures_are_in_order(eimg: Seq<u8>, i: int, j: int)
    requires
        0 <= i < j < table_frames(eimg).len(),
    ensures
        table_frames(eimg)[i].slot < table_frames(eimg)[j].slot,
{
    let first = next_png(eimg, slots_end(eimg))->0;
    lemma_slot_frames(eimg, first, slot_count(eimg));
}

/// More data behind the chunks makes no difference.
proof fn lemma_chunks_go_on(data: Seq<u8>, end: int, pos: int)
    requires
        0 <= pos,
        0 <= end <= data.len(),
        chunks_end(data.take(end), pos) == Some(end),
    ensures
        chunks_end(data, pos) == Some(end),
    decreases end - pos,
{
    let t = data.take(end);
    assert(be32(t, pos) == be32(data, pos));
    assert(be32(t, pos + 4) == be32(data, pos + 4));
    if be32(data, pos + 4) != IEND {
        lemma_chunks_go_on(data, end, pos + 12 + be32(data, pos));
    }
}

/// A picture has its size in its own bytes.
proof fn lemma_png_size(data: Seq<u8>)
    requires
        png_len(data) is Some,
    ensures
        8 < png_len(data)->0 <= data.len(),
        png_size(data) == png_size(data.take(png_len(data)->0)),
{
    let len = png_len(data)->0;
    lemma_chunks_end(data, 8);
    let t = data.take(len);
    if be32(data, 12) == IHDR {
        let next = 20 + be32(data, 8);
        lemma_chunks_end(data, next);
        assert(len > next);
        assert(chunks_end(data, next) == Some(len));
        assert(len >= next + 12);
        assert(be32(t, 16) == be32(data, 16));
        assert(be32(t, 20) == be32(data, 20));
    }
    if len >= 24 {
        assert(be32(t, 12) == be32(data, 12));
    }
}

/// Data that begins with the bytes of a picture has that picture.
proof fn lemma_same_picture(a: Seq<u8>, b: Seq<u8>)
    requires
        png_len(a) is Some,
        png_len(a)->0 <= b.len(),
        b.take(png_len(a)->0) == a.take(png_len(a)->0),
    ensures
        png_len(b) == png_len(a),
        png_size(b) == png_size(a),
{
    let len = png_len(a)->0;
    lemma_chunks_end(a, 8);
    let t = b.take(len);
    assert(be32(t, 0) == be32(a, 0));
    assert(be32(t, 4) == be32(a, 4));
    assert(be32(t, 0) == be32(b, 0));
    assert(be32(t, 4) == be32(b, 4));
    lemma_chunks_go_on(b, len, 8);
    lemma_png_size(a);
    lemma_png_size(b);
}

/// The second table is the first with `k` added to each offset.
pub open spec fn offset_by(eimg: Seq<u8>, other: Seq<u8>, k: int) -> bool {
    &&& other.len() == eimg.len()
    &&& forall|i: int| 0 <= i < 20 ==> #[trigger] other[i] == eimg[i]
    &&& forall|i: int| slots_end(eimg) <= i < eimg.len() ==> #[trigger] other[i] == eimg[i]
    &&& forall|slot: int|
        0 <= slot <= slot_count(eimg) ==> #[trigger] slot_offset(other, slot) == slot_offset(
            eimg,
            slot,
        ) + k
}

/// No picture of the first table covers a byte that the second has otherwise.
pub open spec fn pictures_stand(eimg: Seq<u8>, other: Seq<u8>) -> bool {
    next_png(eimg, slots_end(eimg)) matches Some(first) ==> forall|slot: int|
        0 <= slot < slot_count(eimg) ==> (#[trigger] slot_frame(eimg, first, slot) matches Some(f)
            ==> {
            let start = slot_start(eimg, first, slot);
            other.subrange(start, start + f.png.len()) == f.png
        })
}

proof fn lemma_next_png_same(a: Seq<u8>, b: Seq<u8>, p: int)
    requires
        0 <= p,
        a.len() == b.len(),
        forall|i: int| p <= i < a.len() ==> #[trigger] b[i] == a[i],
    ensures
        next_png(b, p) == next_png(a, p),
        next_png(a, p) matches Some(q) ==> p <= q,
    decreases a.len() - p,
{
    if p + 8 <= a.len() {
        assert(be32(b, p) == be32(a, p));
        assert(be32(b, p + 4) == be32(a, p + 4));
        lemma_next_png_same(a, b, p + 1);
    }
}

/// A picture whose bytes stand in the other table is found there.
proof fn lemma_picture_found(a: Seq<u8>, b: Seq<u8>, first: int, slot: int)
    requires
        a.len() == b.len(),
        slot_start(b, first, slot) == slot_start(a, first, slot),
        slot_start(b, first, slot + 1) == slot_start(a, first, slot + 1),
        slot_frame(a, first, slot) matches Some(f) ==> {
            let start = slot_start(a, first, slot);
            b.subrange(start, start + f.png.len()) == f.png
        },
    ensures
        slot_frame(a, first, slot) is Some ==> slot_frame(b, first, slot) == slot_frame(
            a,
            first,
            slot,
        ),
{
    if let Some(f) = slot_frame(a, first, slot) {
        let start = slot_start(a, first, slot);
        let (x, y) = (slot_data(a, first, slot)->0, slot_data(b, first, slot)->0);
        lemma_png_size(x);
        let len = png_len(x)->0;
        assert(y.take(len) =~= b.subrange(start, start + len));
        lemma_same_picture(x, y);
    }
}

proof fn lemma_frames_same(a: Seq<u8>, b: Seq<u8>, first: int, k: int)
    requires
        forall|slot: int|
            0 <= slot < k ==> #[trigger] slot_frame(b, first, slot) == slot_frame(a, first, slot),
    ensures
        slot_frames(b, first, k) == slot_frames(a, first, k),
    decreases k,
{
    if k > 0 {
        lemma_frames_same(a, b, first, k - 1);
        assert(slot_frame(b, first, k - 1) == slot_frame(a, first, k - 1));
    }
}

/// Offsets count from nowhere in particular: one number added to all of them changes no picture,
/// unless a picture covers an offset.
pub proof fn law_offsets_are_relative(eimg: Seq<u8>, other: Seq<u8>, k: int)
    requires
        slots_end(eimg) <= eimg.len(),
        offset_by(eimg, other, k),
        pictures_stand(eimg, other),
        pictures_stand(other, eimg),
    ensures
        table_frames(other) == table_frames(eimg),
{
    let end = slots_end(eimg);
    let n = slot_count(eimg);
    assert(other[4] == eimg[4] && other[5] == eimg[5]);
    assert(slot_count(other) == n);
    lemma_next_png_same(eimg, other, end);
    if let Some(first) = next_png(eimg, end) {
        assert forall|slot: int| 0 <= slot <= n implies #[trigger] slot_start(other, first, slot)
            == slot_start(eimg, first, slot) by {
            assert(slot_offset(other, slot) == slot_offset(eimg, slot) + k);
            assert(slot_offset(other, 0) == slot_offset(eimg, 0) + k);
        }
        assert forall|slot: int| 0 <= slot < n implies #[trigger] slot_frame(other, first, slot)
            == slot_frame(eimg, first, slot) by {
            assert(slot_start(other, first, slot) == slot_start(eimg, first, slot));
            assert(slot_start(other, first, slot + 1) == slot_start(eimg, first, slot + 1));
            assert(slot_frame(eimg, first, slot) matches Some(f) ==> {
                let start = slot_start(eimg, first, slot);
                other.subrange(start, start + f.png.len()) == f.png
            });
            lemma_picture_found(eimg, other, first, slot);
            lemma_picture_found(other, eimg, first, slot);
        }
        lemma_frames_same(eimg, other, first, n);
    }
}

/// The pictures behind the offsets stand in the other table too.
proof fn lemma_pictures_stand(eimg: Seq<u8>, other: Seq<u8>)
    requires
        other.len() == eimg.len(),
        forall|i: int| slots_end(eimg) <= i < eimg.len() ==> #[trigger] other[i] == eimg[i],
        forall|slot: int|
            0 <= slot <= slot_count(eimg) ==> #[trigger] slot_offset(eimg, slot) >= slot_offset(
                eimg,
                0,
            ),
    ensures
        pictures_stand(eimg, other),
{
    lemma_next_png_same(eimg, eimg, slots_end(eimg));
    if let Some(first) = next_png(eimg, slots_end(eimg)) {
        assert forall|slot: int| 0 <= slot < slot_count(eimg) implies (#[trigger] slot_frame(
            eimg,
            first,
            slot,
        ) matches Some(f) ==> {
            let start = slot_start(eimg, first, slot);
            other.subrange(start, start + f.png.len()) == f.png
        }) by {
            assert(slot_offset(eimg, slot) >= slot_offset(eimg, 0));
            if let Some(f) = slot_frame(eimg, first, slot) {
                let start = slot_start(eimg, first, slot);
                let data = slot_data(eimg, first, slot)->0;
                lemma_png_size(data);
                assert(other.subrange(start, start + f.png.len()) =~= f.png);
            }
        }
    }
}

/// Where no slot begins before slot 0, one number added to all offsets changes no picture.
pub proof fn law_offsets_behind_the_first_are_relative(eimg: Seq<u8>, other: Seq<u8>, k: int)
    requires
        slots_end(eimg) <= eimg.len(),
        offset_by(eimg, other, k),
        forall|slot: int|
            0 <= slot <= slot_count(eimg) ==> #[trigger] slot_offset(eimg, slot) >= slot_offset(
                eimg,
                0,
            ),
    ensures
        table_frames(other) == table_frames(eimg),
{
    assert(other[4] == eimg[4] && other[5] == eimg[5]);
    assert forall|slot: int| 0 <= slot <= slot_count(other) implies #[trigger] slot_offset(
        other,
        slot,
    ) >= slot_offset(other, 0) by {
        assert(slot_offset(eimg, slot) >= slot_offset(eimg, 0));
        assert(slot_offset(other, 0) == slot_offset(eimg, 0) + k);
    }
    lemma_pictures_stand(eimg, other);
    lemma_pictures_stand(other, eimg);
    law_offsets_are_relative(eimg, other, k);
}

/// The eight bytes that a PNG file begins with stand at `p`.
pub open spec fn signature_at(d: Seq<u8>, p: int) -> bool {
    &&& 0 <= p
    &&& p + 8 <= d.len()
    &&& d[p] == 0x89
    &&& d[p + 1] == 0x50
    &&& d[p + 2] == 0x4E
    &&& d[p + 3] == 0x47
    &&& d[p + 4] == 0x0D
    &&& d[p + 5] == 0x0A
    &&& d[p + 6] == 0x1A
    &&& d[p + 7] == 0x0A
}

proof fn lemma_signature(d: Seq<u8>, p: int)
    requires
        0 <= p,
    ensures
        png_at(d, p) <==> signature_at(d, p),
{
}

/// The first picture from a place on begins with the signature, and none begins before it.
pub proof fn law_first_signature_is_found(d: Seq<u8>, p: int, q: int)
    requires
        0 <= p <= q,
    ensures
        next_png(d, p) matches Some(first) ==> p <= first && signature_at(d, first) && (q < first
            ==> !signature_at(d, q)),
        next_png(d, p) is None ==> !signature_at(d, q),
    decreases d.len() - p,
{
    if p + 8 <= d.len() {
        lemma_signature(d, p);
        law_first_signature_is_found(d, p + 1, if q > p {
            q
        } else {
            p + 1
        });
    }
}

/// A chunk of a PNG file: its length, its kind, its data and four bytes of checksum.
pub struct Chunk {
    pub kind: Seq<u8>,
    pub data: Seq<u8>,
    pub check: Seq<u8>,
}

/// A chunk as it stands in a file.
pub open spec fn chunk_bytes(c: Chunk) -> Seq<u8> {
    enc32(c.data.len() as int) + c.kind + c.data + c.check
}

/// The chunks from `i` on as they stand in a file.
pub open spec fn chunks_bytes(cs: Seq<Chunk>, i: int) -> Seq<u8>
    decreases cs.len() - i,
{
    if i >= cs.len() {
        Seq::empty()
    } else {
        chunk_bytes(cs[i]) + chunks_bytes(cs, i + 1)
    }
}

/// Chunks of which the last, and no other, is of kind `IEND`.
pub open spec fn ends_once(cs: Seq<Chunk>) -> bool {
    &&& cs.len() > 0
    &&& forall|i: int|
        0 <= i < cs.len() ==> (#[trigger] cs[i]).kind.len() == 4 && cs[i].check.len() == 4
            && cs[i].data.len() < 0x1_0000_0000 && (cs[i].kind == seq![0x49u8, 0x45, 0x4E, 0x44]
            <==> i == cs.len() - 1)
}

proof fn lemma_chunks_stand(d: Seq<u8>, p: int, cs: Seq<Chunk>, i: int)
    requires
        ends_once(cs),
        0 <= i < cs.len(),
        stands(d, p, chunks_bytes(cs, i)),
    ensures
        chunks_end(d, p) == Some(p + chunks_bytes(cs, i).len()),
    decreases cs.len() - i,
{
    let c = cs[i];
    let b = chunk_bytes(c);
    let all = chunks_bytes(cs, i);
    let rest = chunks_bytes(cs, i + 1);
    let len = enc32(c.data.len() as int);
    lemma_be32_enc32(c.data.len() as int);
    assert(all == b + rest);
    assert forall|j: int| 0 <= j < len.len() implies #[trigger] len[j] == d[p + j] by {
        assert(all[j] == len[j]);
    }
    lemma_be32_moved(d, p, len, 0);
    assert(c.kind[0] == all[4] && c.kind[1] == all[5] && c.kind[2] == all[6] && c.kind[3]
        == all[7]);
    assert(c.kind[0] == d[p + 4] && c.kind[1] == d[p + 5] && c.kind[2] == d[p + 6] && c.kind[3]
        == d[p + 7]);
    if i < cs.len() - 1 {
        assert(be32(d, p + 4) != IEND) by {
            if be32(d, p + 4) == IEND {
                assert(c.kind =~= seq![0x49u8, 0x45, 0x4E, 0x44]);
            }
        }
        assert forall|j: int| 0 <= j < rest.len() implies #[trigger] rest[j] == d[p + b.len()
            + j] by {
            assert(all[b.len() + j] == rest[j]);
        }
        lemma_chunks_stand(d, p + b.len(), cs, i + 1);
    } else {
        assert(rest.len() == 0);
        let end = seq![0x49u8, 0x45, 0x4E, 0x44];
        assert(end[0] == 0x49 && end[1] == 0x45 && end[2] == 0x4E && end[3] == 0x44);
    }
}

/// A PNG file is as long as its signature and its chunks up to `IEND`, whatever follows it.
pub proof fn law_png_is_measured(d: Seq<u8>, cs: Seq<Chunk>)
    requires
        ends_once(cs),
        signature_at(d, 0),
        stands(d, 8, chunks_bytes(cs, 0)),
    ensures
        png_len(d) == Some(8 + chunks_bytes(cs, 0).len() as int),
{
    lemma_signature(d, 0);
    lemma_chunks_stand(d, 8, cs, 0);
}

proof fn lemma_chunks_cut(d: Seq<u8>, m: int, pos: int)
    requires
        0 <= pos,
        0 <= m,
        chunks_end(d, pos) matches Some(end) && m < end,
        m <= d.len(),
    ensures
        chunks_end(d.take(m), pos) is None,
    decreases d.len() - pos,
{
    let t = d.take(m);
    if pos + 8 <= m {
        assert(be32(t, pos) == be32(d, pos));
        assert(be32(t, pos + 4) == be32(d, pos + 4));
        if be32(d, pos + 4) != IEND {
            let next = pos + 12 + be32(d, pos);
            lemma_chunks_end(d, next);
            lemma_chunks_cut(d, m, next);
        }
    }
}

/// A PNG file that is cut off is none, and one without its signature is none.
pub proof fn law_png_is_not_cut(d: Seq<u8>, m: int)
    requires
        0 <= m <= d.len(),
        png_len(d) matches Some(n) && m < n,
    ensures
        signature_at(d, 0),
        png_len(d.take(m)) is None,
{
    lemma_signature(d, 0);
    lemma_chunks_cut(d, m, 8);
}

proof fn lemma_frame_of(eimg: Seq<u8>, first: int, k: int, i: int)
    requires
        0 <= k,
        0 <= i < slot_frames(eimg, first, k).len(),
    ensures
        0 <= slot_frames(eimg, first, k)[i].slot < k,
        slot_frame(eimg, first, slot_frames(eimg, first, k)[i].slot) == Some(
            slot_frames(eimg, first, k)[i],
        ),
    decreases k,
{
    if k > 0 {
        let before = slot_frames(eimg, first, k - 1);
        if i < before.len() {
            lemma_frame_of(eimg, first, k - 1, i);
            assert(slot_frames(eimg, first, k)[i] == before[i]);
        }
    }
}

proof fn lemma_frame_there(eimg: Seq<u8>, first: int, k: int, slot: int) -> (i: int)
    requires
        0 <= slot < k,
        slot_frame(eimg, first, slot) is Some,
    ensures
        0 <= i < slot_frames(eimg, first, k).len(),
        slot_frames(eimg, first, k)[i] == slot_frame(eimg, first, slot)->0,
    decreases k,
{
    let before = slot_frames(eimg, first, k - 1);
    if slot == k - 1 {
        before.len() as int
    } else {
        let i = lemma_frame_there(eimg, first, k - 1, slot);
        assert(slot_frames(eimg, first, k)[i] == before[i]);
        i
    }
}

/// The width of a picture is the number at 16 of its file and the height the one at 20, where its
/// first chunk is `IHDR`. Elsewhere both are 0.
pub proof fn law_pictures_tell_their_size(eimg: Seq<u8>, i: int)
    requires
        0 <= i < table_frames(eimg).len(),
    ensures
        ({
            let f = table_frames(eimg)[i];
            let header = seq![0x49u8, 0x48, 0x44, 0x52];
            if f.png.len() >= 24 && f.png.subrange(12, 16) == header {
                f.width == be32(f.png, 16) && f.height == be32(f.png, 20)
            } else {
                f.width == 0 && f.height == 0
            }
        }),
{
    let first = next_png(eimg, slots_end(eimg))->0;
    let f = table_frames(eimg)[i];
    lemma_frame_of(eimg, first, slot_count(eimg), i);
    let data = slot_data(eimg, first, f.slot)->0;
    lemma_png_size(data);
    let header = seq![0x49u8, 0x48, 0x44, 0x52];
    if f.png.len() >= 24 {
        let part = f.png.subrange(12, 16);
        if be32(f.png, 12) == IHDR {
            assert(part =~= header);
        }
        if part == header {
            assert(part[0] == 0x49 && part[1] == 0x48 && part[2] == 0x44 && part[3] == 0x52);
        }
    }
}

/// Where the first picture behind the offsets begins.
pub open spec fn is_first_picture(eimg: Seq<u8>, first: int) -> bool {
    let end = 24 + 4 * be16(eimg, 4);
    &&& end <= first
    &&& signature_at(eimg, first)
    &&& forall|q: int| end <= q < first ==> !#[trigger] signature_at(eimg, q)
}

/// The place of a slot: its offset, counted so that slot 0 begins with the first picture.
pub open spec fn slot_place(eimg: Seq<u8>, first: int, slot: int) -> int {
    first + be32(eimg, 20 + 4 * slot) - be32(eimg, 20)
}

/// The bytes of a slot, as far as the table goes.
pub open spec fn slot_bytes(eimg: Seq<u8>, first: int, slot: int) -> Seq<u8> {
    let (a, b) = (slot_place(eimg, first, slot), slot_place(eimg, first, slot + 1));
    eimg.subrange(
        a,
        if b < eimg.len() {
            b
        } else {
            eimg.len() as int
        },
    )
}

/// Slot by slot: a slot that has bytes and begins with a whole PNG file gives a picture, which is
/// that file, and no other slot gives one.
pub proof fn law_slots_give_their_pictures(eimg: Seq<u8>, first: int, slot: int)
    requires
        24 + 4 * be16(eimg, 4) <= eimg.len(),
        is_first_picture(eimg, first),
        0 <= slot < be16(eimg, 4),
    ensures
        ({
            let (a, b) = (slot_place(eimg, first, slot), slot_place(eimg, first, slot + 1));
            let there = 0 <= a < b && a < eimg.len() && png_len(slot_bytes(eimg, first, slot))
                is Some;
            &&& there <==> exists|i: int|
                0 <= i < table_frames(eimg).len() && (#[trigger] table_frames(eimg)[i]).slot == slot
            &&& forall|i: int|
                0 <= i < table_frames(eimg).len() && (#[trigger] table_frames(eimg)[i]).slot == slot
                    ==> table_frames(eimg)[i].png == eimg.subrange(
                    a,
                    a + png_len(slot_bytes(eimg, first, slot))->0,
                )
        }),
{
    let end = 24 + 4 * be16(eimg, 4);
    let n = slot_count(eimg);
    law_first_signature_is_found(eimg, end, first);
    assert(next_png(eimg, end) == Some(first)) by {
        if let Some(q) = next_png(eimg, end) {
            assert(end <= q && signature_at(eimg, q));
            if first < q {
                law_first_signature_is_found(eimg, end, first);
            }
        }
    }
    assert(slots_end(eimg) == end);
    let fs = table_frames(eimg);
    assert(fs == slot_frames(eimg, first, n));
    let data = slot_bytes(eimg, first, slot);
    let (a, b) = (slot_place(eimg, first, slot), slot_place(eimg, first, slot + 1));
    assert(slot_start(eimg, first, slot) == a && slot_start(eimg, first, slot + 1) == b);
    if 0 <= a < b && a < eimg.len() {
        assert(slot_data(eimg, first, slot) == Some(data));
        if png_len(data) is Some {
            let i = lemma_frame_there(eimg, first, n, slot);
            assert(fs[i].slot == slot);
        }
    }
    assert forall|i: int| 0 <= i < fs.len() && (#[trigger] fs[i]).slot == slot implies 0 <= a < b
        && a < eimg.len() && png_len(data) is Some && fs[i].png == eimg.subrange(
        a,
        a + png_len(data)->0,
    ) by {
        lemma_frame_of(eimg, first, n, i);
        lemma_png_size(data);
        assert(data.take(png_len(data)->0) =~= eimg.subrange(a, a + png_len(data)->0));
    }
}

/// A table that is cut off in its offsets, has no slots or has no picture gives none.
pub proof fn law_no_pictures_without_slots(eimg: Seq<u8>)
    requires
        eimg.len() < 24 || be16(eimg, 4) == 0 || eimg.len() < 24 + 4 * be16(eimg, 4) || (forall|
            q: int,
        |
            24 + 4 * be16(eimg, 4) <= q ==> !#[trigger] signature_at(eimg, q)),
    ensures
        table_frames(eimg).len() == 0,
{
    let end = 24 + 4 * be16(eimg, 4);
    if eimg.len() >= 24 && eimg.len() >= end {
        law_first_signature_is_found(eimg, end, end);
    }
}

/// The pictures of a font are those of its first `eimg` table, and none where it has no such table.
pub proof fn law_pictures_of_a_font(raw: Seq<u8>)
    ensures
        font_frames(raw) == match first_table(raw, 0x6569_6D67) {
            Ok(Some(eimg)) => Ok(table_frames(eimg)),
            Ok(None) => Ok(Seq::empty()),
            Err(e) => Err::<Seq<Frame>, ConvertError>(e),
        },
{
}

} // verus!
