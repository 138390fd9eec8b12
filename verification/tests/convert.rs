use ftf2ttf::convert::{process, try_convert, Outcome};
use ftf2ttf::error::{ConvertError, OutlineError};
use ftf2ttf::sfnt::{calc_table_checksum, get_table, read_tables};
use ftf2ttf::{convert_ftf, convert_ftf_with, ConvertOptions};

type Table = ([u8; 4], Vec<u8>);

fn tag(t: &[u8; 4]) -> u32 {
    u32::from_be_bytes(*t)
}

fn font(tables: &[Table]) -> Vec<u8> {
    let mut raw = vec![0, 1, 0, 0];
    raw.extend_from_slice(&(tables.len() as u16).to_be_bytes());
    raw.extend_from_slice(&[0; 6]);
    let mut at = 12 + 16 * tables.len() as u32;
    for (t, data) in tables {
        raw.extend_from_slice(t);
        raw.extend_from_slice(&[0; 4]);
        raw.extend_from_slice(&at.to_be_bytes());
        raw.extend_from_slice(&(data.len() as u32).to_be_bytes());
        at += data.len() as u32;
    }
    for (_, data) in tables {
        raw.extend_from_slice(data);
    }
    raw
}

fn longs(v: &[u32]) -> Vec<u8> {
    v.iter().flat_map(|x| x.to_be_bytes()).collect()
}

fn words(v: &[u16]) -> Vec<u8> {
    v.iter().flat_map(|x| x.to_be_bytes()).collect()
}

fn cmap() -> Vec<u8> {
    let mut t = words(&[0, 1, 3, 1, 0, 12]);
    t.extend(words(&[
        4, 40, 0, 6, 0, 0, 0, 0x42, 0xFFFF, 0xFFFF, 0, 0x41, 0xFFFF, 0xFFFF, 0xFFBF, 1, 1, 0, 0, 0,
    ]));
    t
}

fn ftf() -> Vec<Table> {
    let mut ftfh = longs(&[0x1_0000, 2]);
    ftfh.extend_from_slice(&[1, 0, 8, 0x11]);
    let mut ftfg = vec![0x80, 0, 0, 3, 0xF6, 0xEC, 0x1E, 0xEC, 0x0A, 0x28, 1, 1, 1];
    ftfg.extend_from_slice(&[0x01, 0, 0x10, 5]);
    let mut hhea = vec![3; 36];
    hhea[34] = 0;
    hhea[35] = 1;
    vec![
        (*b"FTFG", ftfg),
        (*b"FTFH", ftfh),
        (*b"OS/2", vec![1, 2, 3]),
        (*b"cmap", cmap()),
        (*b"glyf", b"0000".to_vec()),
        (*b"head", vec![0xAA; 60]),
        (*b"hhea", hhea),
        (*b"hmtx", vec![1, 0, 0, 7]),
        (*b"kern", vec![]),
        (*b"loca", longs(&[0, 13, 17])),
        (*b"maxp", vec![0xFF; 32]),
    ]
}

fn with(name: &[u8; 4], data: Vec<u8>) -> Vec<Table> {
    let mut ts = ftf();
    ts.retain(|t| &t.0 != name);
    ts.push((*name, data));
    ts
}

fn without(name: &[u8; 4]) -> Vec<Table> {
    let mut ts = ftf();
    ts.retain(|t| &t.0 != name);
    ts
}

fn fault(tables: &[Table]) -> ConvertError {
    convert_ftf(&font(tables)).unwrap_err()
}

fn color() -> ConvertOptions {
    ConvertOptions { color: true, color_chars: None }
}

fn colored() -> Vec<Table> {
    let mut brsh = longs(&[0x1_0000, 1, 0, 5]);
    brsh.extend_from_slice(&[0, 0xFF, 0xBF, 0x3E, 0x1E]);
    with(b"brsh", brsh)
}

#[test]
fn a_font_is_converted() {
    let out = convert_ftf(&font(&ftf())).unwrap();
    let ts = read_tables(&out).unwrap();
    let names: Vec<u32> = ts.keys().copied().collect();
    let expected: Vec<u32> = [b"OS/2", b"cmap", b"glyf", b"head", b"hhea", b"hmtx", b"loca", b"maxp"]
        .iter()
        .map(|t| tag(*t))
        .collect();
    assert_eq!(names, expected);
    let glyf = [
        0, 1, 0, 0x76, 0, 0x34, 0, 0x9E, 0, 0x70, 0, 2, 0, 0, 0x37, 0x33, 0x07, 0x76, 0x28, 0x14, 0x70,
        0x3C, 0, 1, 0, 0x7B, 0, 0x34, 0, 0xA3, 0, 0x70, 0, 2, 0, 0, 0x37, 0x33, 0x07, 0x7B, 0x28, 0x14,
        0x70, 0x3C,
    ];
    assert_eq!(get_table(&ts, tag(b"glyf")), Some(&glyf[..]));
    assert_eq!(get_table(&ts, tag(b"loca")), Some(&longs(&[0, 22, 44])[..]));
    assert_eq!(get_table(&ts, tag(b"hmtx")), Some(&[1, 0, 0, 0x76, 1, 0, 0, 0x7B][..]));
    let hhea = get_table(&ts, tag(b"hhea")).unwrap();
    assert_eq!(&hhea[..5], &[0, 1, 0, 0, 3]);
    assert_eq!(&hhea[34..], &[0, 2]);
    let head = get_table(&ts, tag(b"head")).unwrap();
    assert_eq!(head.len(), 54);
    assert_eq!(&head[36..44], &[0, 0x76, 0, 0x34, 0, 0xA3, 0, 0x70]);
    assert_eq!(&head[50..], &[0, 1, 0, 0]);
    let maxp = get_table(&ts, tag(b"maxp")).unwrap();
    assert_eq!(&maxp[6..14], &[0, 3, 0, 1, 0, 0, 0, 0]);
    let new_cmap = get_table(&ts, tag(b"cmap")).unwrap();
    assert_eq!(new_cmap.len(), 12 + 32);
    assert_eq!(get_table(&ts, tag(b"OS/2")), Some(&[1u8, 2, 3][..]));
}

#[test]
fn a_converted_font_has_a_header_and_is_sealed() {
    let out = convert_ftf(&font(&ftf())).unwrap();
    assert!(out.len() > 12);
    assert_eq!(&out[..4], &[0, 1, 0, 0]);
    assert_eq!(calc_table_checksum(&out), 0xB1B0_AFBA);
}

#[test]
fn converting_again_changes_nothing() {
    let out = convert_ftf(&font(&ftf())).unwrap();
    assert_eq!(convert_ftf(&out).unwrap(), out);
    assert_eq!(convert_ftf_with(&out, &color()).unwrap(), out);
}

#[test]
fn standard_fonts_are_skipped() {
    let raw = font(&[(*b"glyf", vec![1]), (*b"head", vec![2; 54])]);
    assert_eq!(convert_ftf(&raw).unwrap(), raw);
    assert!(matches!(process(&raw, &ConvertOptions::default()), Outcome::Skip));
    let raw = font(&without(b"FTFH"));
    assert!(matches!(process(&raw, &ConvertOptions::default()), Outcome::Write(_)));
    let half = without(b"FTFG");
    let ts_out = convert_ftf(&font(&half)).unwrap();
    let ts = read_tables(&ts_out).unwrap();
    assert_eq!(ts.len(), 9);
    assert_eq!(get_table(&ts, tag(b"kern")), None);
}

#[test]
fn fonts_that_can_be_converted_are_to_be_written() {
    let raw = font(&ftf());
    match process(&raw, &ConvertOptions::default()) {
        Outcome::Write(out) => assert_eq!(out, convert_ftf(&raw).unwrap()),
        _ => panic!("expected a font"),
    }
    assert!(matches!(
        process(&[0; 3], &ConvertOptions::default()),
        Outcome::Refuse(ConvertError::FileTooShort)
    ));
}

#[test]
fn each_refusal_has_its_name() {
    assert_eq!(convert_ftf(&[0; 11]).unwrap_err(), ConvertError::FileTooShort);
    let raw = font(&ftf());
    assert_eq!(convert_ftf(&raw[..100]).unwrap_err(), ConvertError::CorruptedDirectory);
    assert_eq!(
        convert_ftf(&raw[..raw.len() - 1]).unwrap_err(),
        ConvertError::TableOutOfBounds(tag(b"maxp"))
    );
    for t in [b"loca", b"hhea", b"hmtx", b"head", b"maxp"] {
        assert_eq!(fault(&without(t)), ConvertError::MissingTable(tag(t)));
    }
    assert_eq!(fault(&with(b"FTFH", vec![0; 11])), ConvertError::HeaderTruncated);
    assert_eq!(
        fault(&with(b"FTFH", longs(&[0x2_0000, 2, 0x11]))),
        ConvertError::UnsupportedVersion(0x2_0000)
    );
    assert_eq!(
        fault(&with(b"loca", longs(&[0]))),
        ConvertError::LocaTooShort { entries: 1, glyphs: 2 }
    );
    assert_eq!(
        fault(&with(b"FTFG", vec![0x80; 17])),
        ConvertError::Outline(OutlineError::Coord8)
    );
}

#[test]
fn the_first_missing_table_is_named() {
    let mut ts = ftf();
    ts.retain(|t| &t.0 != b"maxp" && &t.0 != b"hmtx");
    assert_eq!(fault(&ts), ConvertError::MissingTable(tag(b"hmtx")));
}

#[test]
fn an_index_may_lack_its_end_or_be_too_long() {
    let expected = convert_ftf(&font(&ftf())).unwrap();
    let ts = with(b"loca", longs(&[0, 13]));
    assert_eq!(convert_ftf(&font(&ts)).unwrap(), expected);
    let mut long = longs(&[0, 13, 17, 99, 98]);
    long.push(1);
    let ts = with(b"loca", long);
    assert_eq!(convert_ftf(&font(&ts)).unwrap(), expected);
}

#[test]
fn a_glyph_with_itself_is_refused() {
    let mut ftfg = vec![0; 13];
    ftfg[0] = 0x01;
    ftfg.extend_from_slice(&[0x01, 0, 0x10, 5]);
    assert_eq!(fault(&with(b"FTFG", ftfg)), ConvertError::Outline(OutlineError::Cycle(0)));
}

#[test]
fn fonts_without_a_needed_field_are_irregular() {
    let short = |name: &[u8; 4], data: Vec<u8>| {
        try_convert(&font(&with(name, data)), &ConvertOptions::default()).is_none()
    };
    assert!(short(b"hhea", vec![0; 35]));
    assert!(short(b"head", vec![0; 53]));
    assert!(short(b"hmtx", vec![1, 0, 0]));
    assert!(short(b"hhea", vec![0; 36]));
    assert!(!short(b"head", vec![0; 54]));
    assert!(matches!(
        process(&font(&with(b"head", vec![0; 53])), &ConvertOptions::default()),
        Outcome::Irregular
    ));
}

#[test]
fn a_short_cmap_segment_matters_only_for_forced_characters() {
    let mut cut = words(&[0, 1, 3, 1, 0, 12]);
    cut.extend(words(&[4, 20, 0, 2, 0, 0, 0, 0xFFFF, 0, 0]));
    let raw = font(&with(b"cmap", cut));
    let forced = ConvertOptions { color: true, color_chars: Some(vec!['A']) };
    assert!(try_convert(&raw, &forced).is_none());
    assert!(try_convert(&raw, &color()).is_some());
    let plain = ConvertOptions { color: false, color_chars: Some(vec!['A']) };
    assert!(try_convert(&raw, &plain).is_some());
}

#[test]
fn characters_make_no_difference_without_colour() {
    let raw = font(&colored());
    let opts = ConvertOptions { color: false, color_chars: Some(vec!['A']) };
    assert_eq!(convert_ftf_with(&raw, &opts).unwrap(), convert_ftf(&raw).unwrap());
    let ts_out = convert_ftf(&raw).unwrap();
    let ts = read_tables(&ts_out).unwrap();
    assert!(get_table(&ts, tag(b"brsh")).is_some());
    assert!(get_table(&ts, tag(b"COLR")).is_none());
}

#[test]
fn coloured_fonts_have_standard_tables_only() {
    let raw = font(&colored());
    let out = convert_ftf_with(&raw, &color()).unwrap();
    let ts = read_tables(&out).unwrap();
    assert_eq!(get_table(&ts, tag(b"brsh")), None);
    let cpal = get_table(&ts, tag(b"CPAL")).unwrap();
    assert_eq!(&cpal[14..], &[0x1E, 0x3E, 0xBF, 0xFF]);
    let colr = get_table(&ts, tag(b"COLR")).unwrap();
    assert_eq!(&colr[34..38], &[0, 0, 0, 2]);
    assert_eq!(calc_table_checksum(&out), 0xB1B0_AFBA);
}

#[test]
fn private_tables_stay_where_there_is_no_colour() {
    let raw = font(&with(b"eimg", vec![5]));
    let out = convert_ftf_with(&raw, &color()).unwrap();
    let ts = read_tables(&out).unwrap();
    assert!(get_table(&ts, tag(b"eimg")).is_some());
    assert!(get_table(&ts, tag(b"COLR")).is_none());
}

fn cglf_without_paints() -> Vec<u8> {
    let mut t = longs(&[0x1_0000, 2, 0, 0]);
    t.extend(words(&[0, 1]));
    t.extend_from_slice(&[0; 50]);
    t.extend_from_slice(&[0x40, 0, 9, 0, 0x40, 0, 9, 0]);
    t
}

#[test]
fn forced_characters_get_colour() {
    let mut ts = colored();
    ts.push((*b"cglf", cglf_without_paints()));
    let raw = font(&ts);
    let out = convert_ftf_with(&raw, &color()).unwrap();
    assert!(get_table(&read_tables(&out).unwrap(), tag(b"COLR")).is_none());
    let opts = ConvertOptions { color: true, color_chars: Some(vec!['B', 'z', 'A']) };
    let out = convert_ftf_with(&raw, &opts).unwrap();
    let tables = read_tables(&out).unwrap();
    let colr = get_table(&tables, tag(b"COLR")).unwrap();
    assert_eq!(&colr[34..40], &[0, 0, 0, 1, 0, 1]);
}

#[test]
fn vertical_tables_are_rebuilt_together() {
    let mut vhea = vec![4; 36];
    vhea[34] = 0;
    vhea[35] = 9;
    let mut ts = with(b"vhea", vhea.clone());
    ts.push((*b"vmtx", vec![1, 2, 3, 4]));
    let out = convert_ftf(&font(&ts)).unwrap();
    let tables = read_tables(&out).unwrap();
    let new = get_table(&tables, tag(b"vhea")).unwrap();
    assert_eq!(&new[..4], &[0, 1, 0, 0]);
    assert_eq!(&new[34..], &[0, 2]);
    assert_eq!(get_table(&tables, tag(b"vmtx")), Some(&[1, 2, 3, 4, 0, 0, 0, 0][..]));
    let out = convert_ftf(&font(&with(b"vhea", vhea))).unwrap();
    let tables = read_tables(&out).unwrap();
    let new = get_table(&tables, tag(b"vhea")).unwrap();
    assert_eq!(&new[..4], &[0, 1, 0, 0]);
    assert_eq!(&new[34..], &[0, 9]);
    let mut ts = with(b"vhea", vec![4; 35]);
    ts.push((*b"vmtx", vec![1, 2]));
    let out = convert_ftf(&font(&ts)).unwrap();
    let tables = read_tables(&out).unwrap();
    assert_eq!(get_table(&tables, tag(b"vhea")), Some(&[4u8; 35][..]));
    assert_eq!(get_table(&tables, tag(b"vmtx")), Some(&[1u8, 2][..]));
}

#[test]
fn gasp_and_post_are_rebuilt_in_a_font() {
    let mut ts = with(b"gasp", vec![0, 0, 0, 0]);
    ts.push((*b"post", vec![8; 40]));
    let out = convert_ftf(&font(&ts)).unwrap();
    let tables = read_tables(&out).unwrap();
    assert_eq!(get_table(&tables, tag(b"gasp")), Some(&[0u8, 1, 0, 0][..]));
    let post = get_table(&tables, tag(b"post")).unwrap();
    assert_eq!(post.len(), 32);
    assert_eq!(&post[..5], &[0, 3, 0, 0, 8]);
}

#[test]
fn a_font_without_glyphs_is_converted() {
    let mut ftfh = longs(&[0x1_0000, 0]);
    ftfh.extend_from_slice(&[0, 0, 0, 0x11]);
    let mut ts = with(b"FTFH", ftfh);
    ts.retain(|t| &t.0 != b"loca");
    ts.push((*b"loca", vec![]));
    let out = convert_ftf(&font(&ts)).unwrap();
    let tables = read_tables(&out).unwrap();
    assert_eq!(get_table(&tables, tag(b"glyf")), Some(&[][..]));
    assert_eq!(get_table(&tables, tag(b"loca")), Some(&[0u8; 4][..]));
    assert_eq!(get_table(&tables, tag(b"hmtx")), Some(&[][..]));
}

#[test]
fn colour_changes_no_other_table() {
    let mut ts = colored();
    ts.push((*b"eimg", vec![5]));
    let raw = font(&ts);
    let plain = convert_ftf(&raw).unwrap();
    let color = convert_ftf_with(&raw, &color()).unwrap();
    let (a, b) = (read_tables(&color).unwrap(), read_tables(&plain).unwrap());
    for t in [b"OS/2", b"cmap", b"glyf", b"hhea", b"hmtx", b"loca", b"maxp"] {
        assert!(get_table(&a, tag(t)).is_some());
        assert_eq!(get_table(&a, tag(t)), get_table(&b, tag(t)));
    }
    assert_eq!(a.len(), 10);
    let (x, y) = (get_table(&a, tag(b"head")).unwrap(), get_table(&b, tag(b"head")).unwrap());
    assert_eq!(&x[..8], &y[..8]);
    assert_ne!(&x[8..12], &y[8..12]);
    assert_eq!(&x[12..], &y[12..]);
    assert_eq!(get_table(&a, tag(b"eimg")), None);
    assert_eq!(get_table(&b, tag(b"eimg")), Some(&[5u8][..]));
}

#[test]
fn colour_data_without_paints_changes_nothing() {
    let mut ts = with(b"brsh", longs(&[0x1_0000, 0, 0]));
    ts.push((*b"eimg", vec![5]));
    let raw = font(&ts);
    let opts = ConvertOptions { color: true, color_chars: Some(vec!['A']) };
    assert_eq!(convert_ftf_with(&raw, &opts).unwrap(), convert_ftf(&raw).unwrap());
}
