use ftf2ttf::error::ConvertError;
use ftf2ttf::sfnt::{
    assemble, calc_table_checksum, find_table, fix_normal_ttf, get_table, list_tables, put_table,
    read_tables, search_params,
};
use std::collections::BTreeMap;

fn tag(t: &[u8; 4]) -> u32 {
    u32::from_be_bytes(*t)
}

fn font(tables: &[(&[u8; 4], &[u8])]) -> Vec<u8> {
    let mut raw = vec![0, 1, 0, 0];
    raw.extend_from_slice(&(tables.len() as u16).to_be_bytes());
    raw.extend_from_slice(&[0; 6]);
    let mut at = 12 + 16 * tables.len() as u32;
    for (t, data) in tables {
        raw.extend_from_slice(*t);
        raw.extend_from_slice(&[0; 4]);
        raw.extend_from_slice(&at.to_be_bytes());
        raw.extend_from_slice(&(data.len() as u32).to_be_bytes());
        at += data.len() as u32;
    }
    for (_, data) in tables {
        raw.extend_from_slice(data);
    }
    raw
}

#[test]
fn checksum_adds_padded_words() {
    assert_eq!(calc_table_checksum(&[]), 0);
    assert_eq!(calc_table_checksum(&[1, 2, 3, 4, 5]), 0x0602_0304);
    assert_eq!(calc_table_checksum(&[0xFF, 0xFF, 0xFF, 0xFF, 0, 0, 0, 2]), 1);
}

#[test]
fn search_parameters_of_some_numbers() {
    assert_eq!(search_params(0), (0, 1));
    assert_eq!(search_params(1), (0, 1));
    assert_eq!(search_params(12), (3, 8));
    assert_eq!(search_params(16), (4, 16));
}

#[test]
fn tables_are_kept_in_order() {
    let mut ts: BTreeMap<u32, Vec<u8>> = BTreeMap::new();
    put_table(&mut ts, 5, vec![5]);
    put_table(&mut ts, 2, vec![2]);
    put_table(&mut ts, 9, vec![9]);
    put_table(&mut ts, 5, vec![55]);
    assert_eq!(list_tables(&ts), vec![(2, &vec![2]), (5, &vec![55]), (9, &vec![9])]);
}

#[test]
fn a_put_table_is_found() {
    let mut ts: BTreeMap<u32, &[u8]> = BTreeMap::new();
    put_table(&mut ts, 3, &[1u8][..]);
    put_table(&mut ts, 1, &[2u8][..]);
    assert_eq!(get_table(&ts, 3), Some(&[1u8][..]));
    assert_eq!(get_table(&ts, 1), Some(&[2u8][..]));
    assert_eq!(get_table(&ts, 2), None);
}

#[test]
fn assembled_font_has_exact_bytes() {
    let out = assemble(&BTreeMap::from([(tag(b"abcd"), vec![1, 2, 3, 4, 5])]));
    let mut expected = vec![0, 1, 0, 0, 0, 1, 0, 16, 0, 0, 0, 0];
    expected.extend_from_slice(b"abcd");
    expected.extend_from_slice(&[6, 2, 3, 4, 0, 0, 0, 28, 0, 0, 0, 5, 1, 2, 3, 4, 5, 0, 0, 0]);
    assert_eq!(out, expected);
}

#[test]
fn a_font_without_tables_has_only_a_header() {
    assert_eq!(assemble(&BTreeMap::new()), vec![0, 1, 0, 0, 0, 0, 0, 16, 0, 0, 0xFF, 0xF0]);
}

#[test]
fn assembled_tables_are_read_back() {
    let head = vec![0u8; 54];
    let ts = vec![(tag(b"OS/2"), vec![7; 3]), (tag(b"head"), head), (tag(b"post"), vec![9; 32])];
    let out = assemble(&ts.iter().cloned().collect());
    let back = read_tables(&out).unwrap();
    assert_eq!(back.len(), 3);
    assert_eq!(get_table(&back, tag(b"OS/2")), Some(&[7u8; 3][..]));
    assert_eq!(get_table(&back, tag(b"post")), Some(&[9u8; 32][..]));
    assert_eq!(get_table(&back, tag(b"head")).unwrap().len(), 54);
    assert_eq!(calc_table_checksum(&out), 0xB1B0_AFBA);
    for i in 0..3 {
        let at = u32::from_be_bytes([out[20 + 16 * i], out[21 + 16 * i], out[22 + 16 * i], out[23 + 16 * i]]);
        assert_eq!(at % 4, 0);
        let sum = u32::from_be_bytes([out[16 + 16 * i], out[17 + 16 * i], out[18 + 16 * i], out[19 + 16 * i]]);
        assert_eq!(sum, calc_table_checksum(&ts[i].1));
    }
}

#[test]
fn fonts_without_empty_tables_stay_as_they_are() {
    let raw = font(&[(b"zzzz", &[1, 2, 3]), (b"aaaa", &[4])]);
    assert_eq!(fix_normal_ttf(&raw).unwrap(), raw);
}

#[test]
fn empty_tables_are_removed_once() {
    let raw = font(&[(b"zzzz", &[1, 2, 3]), (b"kern", &[]), (b"aaaa", &[4])]);
    let out = fix_normal_ttf(&raw).unwrap();
    assert_eq!(
        out,
        assemble(&BTreeMap::from([(tag(b"zzzz"), vec![1, 2, 3]), (tag(b"aaaa"), vec![4])]))
    );
    assert_eq!(fix_normal_ttf(&out).unwrap(), out);
}

#[test]
fn an_entry_that_is_replaced_still_counts_as_empty() {
    let raw = font(&[(b"aaaa", &[]), (b"aaaa", &[4])]);
    let expected = assemble(&BTreeMap::from([(tag(b"aaaa"), vec![4])]));
    assert_eq!(fix_normal_ttf(&raw).unwrap(), expected);
}

#[test]
fn the_last_of_equal_tags_counts_but_the_first_is_found() {
    let raw = font(&[(b"aaaa", &[1]), (b"aaaa", &[2])]);
    assert_eq!(read_tables(&raw).unwrap(), BTreeMap::from([(tag(b"aaaa"), &[2u8][..])]));
    assert_eq!(find_table(&raw, tag(b"aaaa")).unwrap(), Some(&[1u8][..]));
    assert_eq!(find_table(&raw, tag(b"bbbb")).unwrap(), None);
}

#[test]
fn broken_directories_are_refused() {
    assert_eq!(read_tables(&[0; 11]).unwrap_err(), ConvertError::FileTooShort);
    let raw = font(&[(b"aaaa", &[1, 2, 3, 4])]);
    assert_eq!(read_tables(&raw[..27]).unwrap_err(), ConvertError::CorruptedDirectory);
    assert_eq!(
        read_tables(&raw[..31]).unwrap_err(),
        ConvertError::TableOutOfBounds(tag(b"aaaa"))
    );
    assert_eq!(fix_normal_ttf(&[0; 3]).unwrap_err(), ConvertError::FileTooShort);
    assert_eq!(
        fix_normal_ttf(&raw[..31]).unwrap_err(),
        ConvertError::TableOutOfBounds(tag(b"aaaa"))
    );
}
