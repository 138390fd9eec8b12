use ftf2ttf::bytes::{get16, get32, low16, set16, signed16, signed8, to_i16, to_i32};
use ftf2ttf::tables::{
    rebuild_gasp, rebuild_head, rebuild_hhea, rebuild_hmtx, rebuild_maxp, rebuild_post, rebuild_vhea,
    rebuild_vmtx_table,
};
use ftf2ttf::tags::is_private_color_table;

#[test]
fn numbers_are_cut_to_their_width() {
    assert_eq!(to_i32(0x1_8000_0000), i32::MIN);
    assert_eq!(to_i32(-0x8000_0001), i32::MAX);
    assert_eq!(to_i16(0x1_8000), i16::MIN);
    assert_eq!(low16(0x1_2345), 0x2345);
    assert_eq!(signed8(0xF6), -10);
    assert_eq!(signed16(0xFFFE), -2);
    assert_eq!(get16(&[1, 2, 3], 1), 0x0203);
    assert_eq!(get32(&[1, 2, 3, 4, 5], 1), 0x0203_0405);
    let mut v = vec![9; 4];
    set16(&mut v, 1, 0x0102);
    assert_eq!(v, vec![9, 1, 2, 9]);
}

#[test]
fn vertical_metrics_cover_all_glyphs() {
    let out = rebuild_vmtx_table(&[1, 2, 3, 4, 5, 6, 7, 8, 9], 1, 5);
    assert_eq!(out, vec![1, 2, 3, 4, 5, 6, 7, 8, 7, 8, 7, 8]);
    assert_eq!(rebuild_vmtx_table(&[0, 10, 0, 5], 1, 2), vec![0, 10, 0, 5, 0, 5]);
    assert_eq!(rebuild_vmtx_table(&[0, 10, 0, 5, 9], 1, 3), vec![0, 10, 0, 5, 0, 5, 0, 5]);
    assert_eq!(rebuild_vmtx_table(&[1, 2, 3], 1, 2), vec![1, 2, 3, 0, 3, 0]);
    assert_eq!(rebuild_vmtx_table(&[1, 2, 3], 2, 3), vec![1, 2, 3, 0, 0, 0, 0, 0, 0, 0]);
    assert_eq!(rebuild_vmtx_table(&[], 0, 2), vec![0, 0, 0, 0]);
    assert_eq!(rebuild_vmtx_table(&[1, 2, 3, 4, 5], 1, 1), vec![1, 2, 3, 4]);
}

#[test]
fn horizontal_metrics_cover_all_glyphs() {
    let boxes = vec![Some((-2, 0, 5, 5)), None, Some((3, 0, 9, 9))];
    let out = rebuild_hmtx(&[1, 0, 9, 9, 2, 0, 9, 9], 2, &boxes);
    assert_eq!(out, vec![1, 0, 0xFF, 0xFE, 2, 0, 0, 0, 2, 0, 0, 3]);
    let hhea = rebuild_hhea(&[7; 36], 3);
    assert_eq!(&hhea[..5], &[0, 1, 0, 0, 7]);
    assert_eq!(&hhea[33..], &[7, 0, 3]);
}

#[test]
fn a_head_table_gets_the_standard_form() {
    let head = rebuild_head(&[0xAA; 60], (-1, -2, 3, 0x104));
    assert_eq!(head.len(), 54);
    assert_eq!(&head[7..13], &[0xAA, 0, 0, 0, 0, 0xAA]);
    assert_eq!(&head[35..45], &[0xAA, 0xFF, 0xFF, 0xFF, 0xFE, 0, 3, 1, 4, 0xAA]);
    assert_eq!(&head[49..], &[0xAA, 0, 1, 0, 0]);
}

#[test]
fn a_maxp_table_tells_the_largest_glyph() {
    let maxp = rebuild_maxp(&[0xFF; 32], 0x1_0203, 5);
    assert_eq!(&maxp[5..15], &[0xFF, 2, 3, 0, 5, 0, 0, 0, 0, 0xFF]);
    assert_eq!(&maxp[27..], &[0xFF, 0, 0, 0, 0]);
    assert_eq!(rebuild_maxp(&[1, 2, 3], 9, 9), vec![1, 2, 3]);
}

#[test]
fn a_vhea_table_counts_no_more_than_the_glyphs() {
    let mut vhea = vec![7; 37];
    vhea[34] = 0;
    vhea[35] = 9;
    let out = rebuild_vhea(&vhea, true, 4);
    assert_eq!(&out[..4], &[0, 1, 0, 0]);
    assert_eq!(&out[34..], &[0, 4, 7]);
    assert_eq!(&rebuild_vhea(&vhea, false, 4)[34..], &[0, 9, 7]);
    assert_eq!(&rebuild_vhea(&vhea, true, 9)[34..], &[0, 9, 7]);
}

#[test]
fn gasp_and_post_get_the_standard_version() {
    assert_eq!(rebuild_gasp(&[0, 0, 0, 1, 5]), vec![0, 1, 0, 1, 5]);
    assert_eq!(rebuild_gasp(&[0, 0, 9]), vec![0, 0, 9]);
    let mut post = vec![6; 40];
    post[0..4].copy_from_slice(&[0, 2, 0, 0]);
    let out = rebuild_post(&post);
    assert_eq!(out.len(), 32);
    assert_eq!(&out[..5], &[0, 3, 0, 0, 6]);
    assert_eq!(rebuild_post(&post[..31]), post[..31].to_vec());
}

#[test]
fn private_tables_are_known() {
    for t in [
        b"brsh", b"cglf", b"eimg", b"scen", b"asst", b"smap", b"fpid", b"ganm", b"vgrp", b"vsty",
        b"csty", b"assy", b"sgrp",
    ] {
        assert!(is_private_color_table(u32::from_be_bytes(*t)));
    }
    assert!(!is_private_color_table(u32::from_be_bytes(*b"glyf")));
}
