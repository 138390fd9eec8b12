use ftf2ttf::assets::png_total_len;
use ftf2ttf::error::ConvertError;
use ftf2ttf::extract_eimg_frames;

const TINY_PNG: [u8; 70] = [
    0x89, 0x50, 0x4e, 0x47, 0x0d, 0x0a, 0x1a, 0x0a, 0x00, 0x00, 0x00, 0x0d, 0x49, 0x48,
    0x44, 0x52, 0x00, 0x00, 0x00, 0x01, 0x00, 0x00, 0x00, 0x01, 0x08, 0x06, 0x00, 0x00,
    0x00, 0x1f, 0x15, 0xc4, 0x89, 0x00, 0x00, 0x00, 0x0d, 0x49, 0x44, 0x41, 0x54, 0x78,
    0x9c, 0x63, 0xf8, 0xcf, 0xc0, 0xf0, 0x1f, 0x00, 0x05, 0x00, 0x01, 0xff, 0x89, 0x99,
    0x3d, 0x1d, 0x00, 0x00, 0x00, 0x00, 0x49, 0x45, 0x4e, 0x44, 0xae, 0x42, 0x60, 0x82,
];

#[test]
fn png_len_rejects_garbage() {
    assert!(png_total_len(b"not a png").is_none());
}

#[test]
fn png_len_walks_chunks() {
    assert_eq!(png_total_len(&TINY_PNG), Some(TINY_PNG.len()));
}

#[test]
fn extracts_frames_from_minimal_eimg() {
    let count: u16 = 2;
    let header_len = 20usize + 4 * (count as usize + 1);
    let data_start = 32usize;

    let mut eimg = vec![0u8; header_len];
    eimg[0] = 0x00;
    eimg[1] = 0x01;
    eimg[4..6].copy_from_slice(&count.to_be_bytes());
    let offs = [0u32, TINY_PNG.len() as u32, TINY_PNG.len() as u32 + 4];
    for (k, o) in offs.iter().enumerate() {
        let at = 20 + 4 * k;
        eimg[at..at + 4].copy_from_slice(&o.to_be_bytes());
    }
    eimg.resize(data_start, 0);
    eimg.extend_from_slice(&TINY_PNG);
    eimg.extend_from_slice(b"skip");
    let mut raw = Vec::new();
    raw.extend_from_slice(&0x0001_0000u32.to_be_bytes());
    raw.extend_from_slice(&1u16.to_be_bytes());
    raw.extend_from_slice(&[0, 0, 0, 0, 0, 0]);
    raw.extend_from_slice(b"eimg");
    raw.extend_from_slice(&0u32.to_be_bytes());
    raw.extend_from_slice(&(28u32).to_be_bytes());
    raw.extend_from_slice(&(eimg.len() as u32).to_be_bytes());
    raw.extend_from_slice(&eimg);

    let frames = extract_eimg_frames(&raw).expect("extract");
    assert_eq!(frames.len(), 1, "only the PNG slot should be exported");
    assert_eq!(frames[0].slot, 0);
    assert_eq!((frames[0].width, frames[0].height), (1, 1));
    assert_eq!(frames[0].png, TINY_PNG);
}

#[test]
fn no_eimg_table_yields_no_frames() {
    let mut raw = Vec::new();
    raw.extend_from_slice(&0x0001_0000u32.to_be_bytes());
    raw.extend_from_slice(&0u16.to_be_bytes());
    raw.extend_from_slice(&[0, 0, 0, 0, 0, 0]);
    assert!(extract_eimg_frames(&raw).unwrap().is_empty());
}

fn sfnt(tag: &[u8; 4], table: &[u8]) -> Vec<u8> {
    let mut raw = Vec::new();
    raw.extend_from_slice(&0x0001_0000u32.to_be_bytes());
    raw.extend_from_slice(&1u16.to_be_bytes());
    raw.extend_from_slice(&[0; 6]);
    raw.extend_from_slice(tag);
    raw.extend_from_slice(&0u32.to_be_bytes());
    raw.extend_from_slice(&28u32.to_be_bytes());
    raw.extend_from_slice(&(table.len() as u32).to_be_bytes());
    raw.extend_from_slice(table);
    raw
}

fn eimg_table(offsets: &[u32], data: &[u8]) -> Vec<u8> {
    let mut t = vec![0u8; 20];
    t[1] = 1;
    t[4..6].copy_from_slice(&((offsets.len() - 1) as u16).to_be_bytes());
    for o in offsets {
        t.extend_from_slice(&o.to_be_bytes());
    }
    t.extend_from_slice(data);
    t
}

#[test]
fn offsets_count_from_the_first_picture() {
    let mut data = TINY_PNG.to_vec();
    data.extend_from_slice(&TINY_PNG);
    data.extend_from_slice(b"tail");
    let raw = sfnt(b"eimg", &eimg_table(&[1000, 1070, 1144, 1140], &data));
    let frames = extract_eimg_frames(&raw).unwrap();
    assert_eq!(frames.len(), 2);
    assert_eq!(frames[0].slot, 0);
    assert_eq!(frames[1].slot, 1);
    assert_eq!(frames[1].png, TINY_PNG);
}

#[test]
fn pictures_are_whole_and_in_order() {
    let mut data = TINY_PNG.to_vec();
    data.extend_from_slice(b"none");
    data.extend_from_slice(&TINY_PNG);
    let raw = sfnt(b"eimg", &eimg_table(&[0, 70, 74, 9999], &data));
    let frames = extract_eimg_frames(&raw).unwrap();
    let slots: Vec<usize> = frames.iter().map(|f| f.slot).collect();
    assert_eq!(slots, vec![0, 2]);
    for f in &frames {
        assert_eq!(png_total_len(&f.png), Some(f.png.len()));
        assert_eq!(&f.png[f.png.len() - 8..f.png.len() - 4], b"IEND");
    }
}

#[test]
fn pictures_that_are_cut_off_are_left_out() {
    let raw = sfnt(b"eimg", &eimg_table(&[0, 60], &TINY_PNG));
    assert!(extract_eimg_frames(&raw).unwrap().is_empty());
    let raw = sfnt(b"eimg", &eimg_table(&[0, 70], &TINY_PNG[..69]));
    assert!(extract_eimg_frames(&raw).unwrap().is_empty());
}

#[test]
fn tables_without_slots_have_no_pictures() {
    assert!(extract_eimg_frames(&sfnt(b"eimg", &[0; 23])).unwrap().is_empty());
    assert!(extract_eimg_frames(&sfnt(b"eimg", &eimg_table(&[0], &TINY_PNG))).unwrap().is_empty());
    let mut short = vec![0u8; 40];
    short[5] = 9;
    assert!(extract_eimg_frames(&sfnt(b"eimg", &short)).unwrap().is_empty());
    assert!(extract_eimg_frames(&sfnt(b"eimg", &eimg_table(&[0, 70], &[0; 70]))).unwrap().is_empty());
}

#[test]
fn a_picture_without_a_header_has_no_size() {
    let mut png = TINY_PNG.to_vec();
    png[12] = b'X';
    let raw = sfnt(b"eimg", &eimg_table(&[0, 70], &png));
    let frames = extract_eimg_frames(&raw).unwrap();
    assert_eq!((frames[0].width, frames[0].height), (0, 0));
}

#[test]
fn fonts_that_are_cut_off_are_refused() {
    assert_eq!(extract_eimg_frames(&[0; 11]).unwrap_err(), ConvertError::FileTooShort);
    let raw = sfnt(b"eimg", &[]);
    assert_eq!(extract_eimg_frames(&raw[..20]).unwrap_err(), ConvertError::CorruptedDirectory);
    let mut raw = sfnt(b"eimg", &[0; 30]);
    raw.truncate(50);
    assert_eq!(
        extract_eimg_frames(&raw).unwrap_err(),
        ConvertError::TableOutOfBounds(u32::from_be_bytes(*b"eimg"))
    );
    let mut raw = sfnt(b"glyf", &[0; 30]);
    raw.truncate(50);
    assert!(extract_eimg_frames(&raw).unwrap().is_empty());
}

fn pictures(eimg: &[u8]) -> Vec<(usize, u32, u32, Vec<u8>)> {
    extract_eimg_frames(&sfnt(b"eimg", eimg))
        .unwrap()
        .into_iter()
        .map(|f| (f.slot, f.width, f.height, f.png))
        .collect()
}

#[test]
fn one_number_added_to_all_offsets_changes_nothing() {
    let n = TINY_PNG.len() as u32;
    let mut data = TINY_PNG.to_vec();
    data.extend_from_slice(b"skip");
    data.extend_from_slice(&TINY_PNG);
    let offsets = [0, n, n + 4, 2 * n + 4];
    let expected = pictures(&eimg_table(&offsets, &data));
    assert_eq!(expected.len(), 2);
    assert_eq!((expected[0].0, expected[1].0), (0, 2));
    for k in [1, 32, 0x1234_5678] {
        let shifted: Vec<u32> = offsets.iter().map(|o| o + k).collect();
        assert_eq!(pictures(&eimg_table(&shifted, &data)), expected);
    }
}
