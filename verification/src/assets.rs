//! The pictures in the `eimg` table of a font: a series of PNG files.
//!
//! The table has the number of slots at 4 and, from 20 on, the offsets of the slots and of the end
//! of the last. They count from a place that the first picture after them gives away: slot 0 begins
//! there. A slot need not hold a picture.

use vstd::prelude::*;
use vstd::slice::{slice_subrange, slice_to_vec};
use crate::bytes::{be16, be32, get16, get32};
use crate::error::ConvertError;
use crate::sfnt::{find_table, first_table};
use crate::tags::EIMG;

verus! {

/// The chunk type `IEND`.
pub const IEND: u32 = 0x4945_4E44;

/// The chunk type `IHDR`.
pub const IHDR: u32 = 0x4948_4452;

/// The first half of the signature of a PNG file.
pub const PNG_SIG_1: u32 = 0x8950_4E47;

/// The second half of the signature of a PNG file.
pub const PNG_SIG_2: u32 = 0x0D0A_1A0A;

/// A picture of the `eimg` table.
#[derive(Debug, Clone)]
pub struct EimgFrame {
    /// The slot of the table that holds it.
    pub slot: usize,
    /// Its width in pixels.
    pub width: u32,
    /// Its height in pixels.
    pub height: u32,
    /// The whole PNG file.
    pub png: Vec<u8>,
}

/// What an `EimgFrame` holds.
pub struct Frame {
    pub slot: int,
    pub width: int,
    pub height: int,
    pub png: Seq<u8>,
}

impl View for EimgFrame {
    type V = Frame;

    open spec fn view(&self) -> Frame {
        Frame {
            slot: self.slot as int,
            width: self.width as int,
            height: self.height as int,
            png: self.png@,
        }
    }
}

/// The signature of a PNG file stands at `p`.
pub open spec fn png_at(data: Seq<u8>, p: int) -> bool {
    p + 8 <= data.len() && be32(data, p) == PNG_SIG_1 && be32(data, p + 4) == PNG_SIG_2
}

/// The first place from `p` on where the signature of a PNG file stands.
pub open spec fn next_png(data: Seq<u8>, p: int) -> Option<int>
    decreases data.len() - p,
{
    if p + 8 > data.len() {
        None
    } else if png_at(data, p) {
        Some(p)
    } else {
        next_png(data, p + 1)
    }
}

/// Where the chunks that begin at `pos` end: after the first `IEND` chunk, if all of them lie in
/// the data.
pub open spec fn chunks_end(data: Seq<u8>, pos: int) -> Option<int>
    decreases data.len() - pos,
{
    let next = pos + 12 + be32(data, pos);
    if pos + 8 > data.len() || next > data.len() {
        None
    } else if be32(data, pos + 4) == IEND {
        Some(next)
    } else {
        chunks_end(data, next)
    }
}

/// The length of the PNG file at the start of the data.
pub open spec fn png_len(data: Seq<u8>) -> Option<int> {
    if png_at(data, 0) {
        chunks_end(data, 8)
    } else {
        None
    }
}

/// The width and the height of a PNG file; zeros where it does not give them.
pub open spec fn png_size(data: Seq<u8>) -> (int, int) {
    if data.len() < 24 || be32(data, 12) != IHDR {
        (0, 0)
    } else {
        (be32(data, 16), be32(data, 20))
    }
}

/// The number of slots.
pub open spec fn slot_count(eimg: Seq<u8>) -> int {
    be16(eimg, 4)
}

/// The offset of a slot.
pub open spec fn slot_offset(eimg: Seq<u8>, slot: int) -> int {
    be32(eimg, 20 + 4 * slot)
}

/// Where the offsets end.
pub open spec fn slots_end(eimg: Seq<u8>) -> int {
    20 + 4 * (slot_count(eimg) + 1)
}

/// Where a slot begins, if slot 0 begins at `first`.
pub open spec fn slot_start(eimg: Seq<u8>, first: int, slot: int) -> int {
    slot_offset(eimg, slot) + (first - slot_offset(eimg, 0))
}

/// What a slot holds, as far as it lies in the table.
pub open spec fn slot_data(eimg: Seq<u8>, first: int, slot: int) -> Option<Seq<u8>> {
    let start = slot_start(eimg, first, slot);
    let end = slot_start(eimg, first, slot + 1);
    if start < 0 || end <= start || start >= eimg.len() {
        None
    } else if end > eimg.len() {
        Some(eimg.subrange(start, eimg.len() as int))
    } else {
        Some(eimg.subrange(start, end))
    }
}

/// The picture in a slot.
pub open spec fn slot_frame(eimg: Seq<u8>, first: int, slot: int) -> Option<Frame> {
    match slot_data(eimg, first, slot) {
        None => None,
        Some(data) => match png_len(data) {
            None => None,
            Some(len) => Some(
                Frame {
                    slot,
                    width: png_size(data).0,
                    height: png_size(data).1,
                    png: data.take(len),
                },
            ),
        },
    }
}

/// The pictures in the first `k` slots.
pub open spec fn slot_frames(eimg: Seq<u8>, first: int, k: int) -> Seq<Frame>
    decreases k,
{
    if k <= 0 {
        Seq::empty()
    } else {
        match slot_frame(eimg, first, k - 1) {
            Some(f) => slot_frames(eimg, first, k - 1).push(f),
            None => slot_frames(eimg, first, k - 1),
        }
    }
}

/// The pictures of an `eimg` table.
pub open spec fn table_frames(eimg: Seq<u8>) -> Seq<Frame> {
    if eimg.len() < 24 || slot_count(eimg) == 0 || eimg.len() < slots_end(eimg) {
        Seq::empty()
    } else {
        match next_png(eimg, slots_end(eimg)) {
            None => Seq::empty(),
            Some(first) => slot_frames(eimg, first, slot_count(eimg)),
        }
    }
}

/// The pictures of a font.
pub open spec fn font_frames(raw: Seq<u8>) -> Result<Seq<Frame>, ConvertError> {
    match first_table(raw, EIMG) {
        Err(e) => Err(e),
        Ok(None) => Ok(Seq::empty()),
        Ok(Some(eimg)) => Ok(table_frames(eimg)),
    }
}

/// What the pictures hold.
pub open spec fn frame_views(fs: Seq<EimgFrame>) -> Seq<Frame> {
    fs.map_values(|f: EimgFrame| f@)
}

/// Finds the first PNG file from `from` on.
fn find_png_signature(data: &[u8], from: usize) -> (r: Option<usize>)
    ensures
        match r {
            Some(p) => next_png(data@, from as int) == Some(p as int) && p + 8 <= data@.len(),
            None => next_png(data@, from as int) is None,
        },
{
    if data.len() < 8 {
        return None;
    }
    let mut p: usize = from;
    while p <= data.len() - 8
        invariant
            data.len() >= 8,
            next_png(data@, from as int) == next_png(data@, p as int),
        decreases data.len() - p,
    {
        if get32(data, p) == PNG_SIG_1 && get32(data, p + 4) == PNG_SIG_2 {
            return Some(p);
        }
        p += 1;
    }
    None
}

/// The length of the PNG file at the start of the data, with its `IEND` chunk.
pub fn png_total_len(data: &[u8]) -> (r: Option<usize>)
    ensures
        match r {
            Some(n) => png_len(data@) == Some(n as int) && n <= data@.len(),
            None => png_len(data@) is None,
        },
{
    if data.len() < 8 || get32(data, 0) != PNG_SIG_1 || get32(data, 4) != PNG_SIG_2 {
        return None;
    }
    let mut pos: usize = 8;
    while data.len() - pos >= 12
        invariant
            8 <= pos <= data.len(),
            png_len(data@) == chunks_end(data@, pos as int),
        decreases data.len() - pos,
    {
        let len = get32(data, pos);
        if len as u64 > (data.len() - pos - 12) as u64 {
            return None;
        }
        let kind = get32(data, pos + 4);
        pos += 12 + len as usize;
        if kind == IEND {
            return Some(pos);
        }
    }
    None
}

/// The width and the height of a PNG file; zeros where it does not give them.
fn png_dimensions(data: &[u8]) -> (r: (u32, u32))
    ensures
        (r.0 as int, r.1 as int) == png_size(data@),
{
    if data.len() < 24 || get32(data, 12) != IHDR {
        return (0, 0);
    }
    (get32(data, 16), get32(data, 20))
}

/// The picture in a slot.
fn read_slot(eimg: &[u8], first: usize, slot: usize) -> (r: Option<EimgFrame>)
    requires
        slot < slot_count(eimg@),
        slots_end(eimg@) <= eimg@.len(),
        first < eimg@.len(),
    ensures
        match r {
            Some(f) => slot_frame(eimg@, first as int, slot as int) == Some(f@),
            None => slot_frame(eimg@, first as int, slot as int) is None,
        },
{
    let total: i128 = eimg.len() as i128;
    let base: i128 = first as i128 - get32(eimg, 20) as i128;
    let start: i128 = get32(eimg, 20 + 4 * slot) as i128 + base;
    let end: i128 = get32(eimg, 20 + 4 * (slot + 1)) as i128 + base;
    if start < 0 || end <= start || start >= total {
        return None;
    }
    let stop: i128 = if end > total {
        total
    } else {
        end
    };
    let data = slice_subrange(eimg, start as usize, stop as usize);
    match png_total_len(data) {
        None => None,
        Some(len) => {
            let (width, height) = png_dimensions(data);
            let png = slice_to_vec(slice_subrange(data, 0, len));
            assert(png@ =~= data@.take(len as int));
            Some(EimgFrame { slot, width, height, png })
        },
    }
}

/// The pictures of an `eimg` table.
fn extract_frames_from_eimg(eimg: &[u8]) -> (r: Vec<EimgFrame>)
    ensures
        frame_views(r@) == table_frames(eimg@),
{
    let mut frames: Vec<EimgFrame> = Vec::new();
    assert(frame_views(frames@) =~= Seq::<Frame>::empty());
    if eimg.len() < 24 {
        return frames;
    }
    let count = get16(eimg, 4) as usize;
    let idx_end: usize = 20 + 4 * (count + 1);
    if count == 0 || eimg.len() < idx_end {
        return frames;
    }
    let first = match find_png_signature(eimg, idx_end) {
        None => return frames,
        Some(p) => p,
    };
    let mut slot: usize = 0;
    while slot < count
        invariant
            slot <= count,
            count == slot_count(eimg@),
            slots_end(eimg@) <= eimg@.len(),
            first < eimg@.len(),
            frame_views(frames@) == slot_frames(eimg@, first as int, slot as int),
        decreases count - slot,
    {
        match read_slot(eimg, first, slot) {
            None => {},
            Some(f) => {
                let ghost before = frame_views(frames@);
                let ghost v = f@;
                frames.push(f);
                assert(frame_views(frames@) =~= before.push(v));
            },
        }
        slot += 1;
    }
    frames
}

/// The pictures of a font, in the order of their slots; none where it has no `eimg` table or no
/// picture in it.
pub fn extract_eimg_frames(raw: &[u8]) -> (r: Result<Vec<EimgFrame>, ConvertError>)
    ensures
        match r {
            Ok(fs) => font_frames(raw@) == Ok::<Seq<Frame>, ConvertError>(frame_views(fs@)),
            Err(e) => font_frames(raw@) == Err::<Seq<Frame>, ConvertError>(e),
        },
{
    match find_table(raw, EIMG) {
        Err(e) => Err(e),
        Ok(None) => {
            let frames: Vec<EimgFrame> = Vec::new();
            assert(frame_views(frames@) =~= Seq::<Frame>::empty());
            Ok(frames)
        },
        Ok(Some(eimg)) => Ok(extract_frames_from_eimg(eimg)),
    }
}

} // verus!
