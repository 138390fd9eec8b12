use ftf2ttf::color::{
    build_color_tables, encode_colr, encode_paint_block, parse_brsh, parse_cglf_brush, Paint, Palette,
    F2DOT14_ONE,
};

fn solid(argb: u32) -> Vec<u8> {
    let mut v = vec![0u8];
    v.extend_from_slice(&argb.to_be_bytes());
    v
}

#[test]
fn brsh_parses_solids_and_gradients() {
    let mut recs = Vec::new();
    recs.push(solid(0xFF11_2233));
    let mut grad = vec![4, 0, 0, 0, 0, 0, 0, 0, 0, 0, 0, 2];
    grad.extend_from_slice(&0xFF00_00FFu32.to_be_bytes());
    grad.extend_from_slice(&0xFF00_FF00u32.to_be_bytes());
    grad.extend_from_slice(&0u16.to_be_bytes());
    grad.extend_from_slice(&F2DOT14_ONE.to_be_bytes());
    recs.push(grad);

    let mut blob = Vec::new();
    blob.extend_from_slice(&0x0001_0000u32.to_be_bytes());
    blob.extend_from_slice(&2u32.to_be_bytes());
    let mut offsets = Vec::with_capacity(recs.len() + 1);
    let mut acc = 0u32;
    for r in &recs {
        offsets.push(acc);
        acc += r.len() as u32;
    }
    offsets.push(acc);
    for o in offsets {
        blob.extend_from_slice(&o.to_be_bytes());
    }
    for r in &recs {
        blob.extend_from_slice(r);
    }

    let paints = parse_brsh(&blob);
    assert_eq!(paints.len(), 2);
    assert!(matches!(paints[0], Paint::Solid(0xFF11_2233)));
    match &paints[1] {
        Paint::Linear(stops) => {
            assert_eq!(stops.len(), 2);
            assert_eq!(stops[0], (0, 0xFF00_00FF));
            assert_eq!(stops[1], (F2DOT14_ONE, 0xFF00_FF00));
        }
        _ => panic!("expected gradient"),
    }
}

#[test]
fn color_tables_build() {
    let paints = vec![
        Paint::Linear(vec![(0, 0xFF00_00FF), (F2DOT14_ONE, 0xFFFF_0000)]),
        Paint::Solid(0x0000_0000),
    ];
    let bboxes = vec![Some((0, 0, 100, 100)), None, Some((10, 20, 30, 40))];
    let tables = build_color_tables(&paints, None, &bboxes, 3, &[]).expect("tables");
    assert_eq!(&tables.colr[..2], &[0, 1]);
    let bgl = u32::from_be_bytes([
        tables.colr[34],
        tables.colr[35],
        tables.colr[36],
        tables.colr[37],
    ]);
    assert_eq!(bgl, 2);
    assert_eq!(u16::from_be_bytes([tables.cpal[2], tables.cpal[3]]), 2);
}

fn rec(brush: u16) -> [u8; 8] {
    let mut r = [0u8; 8];
    r[0..2].copy_from_slice(&0x4000u16.to_be_bytes());
    r[2..4].copy_from_slice(&(brush << 8).to_be_bytes());
    r[4..6].copy_from_slice(&0x4000u16.to_be_bytes());
    r[6..8].copy_from_slice(&(brush << 8).to_be_bytes());
    r
}

#[test]
fn cglf_brush_map_picks_per_group() {
    let ng = 4usize;
    let mut blob = Vec::new();
    blob.extend_from_slice(&0x0001_0000u32.to_be_bytes());
    blob.extend_from_slice(&(ng as u32).to_be_bytes());
    blob.extend_from_slice(&0x0000_FF00u32.to_be_bytes());
    blob.extend_from_slice(&1u32.to_be_bytes());
    for g in [0u16, 0, 1, 1] {
        blob.extend_from_slice(&g.to_be_bytes());
    }
    for _ in 0..25 {
        blob.extend_from_slice(&1u16.to_be_bytes());
    }
    blob.extend_from_slice(&rec(3));
    blob.extend_from_slice(&[0u8; 8]);

    let map = parse_cglf_brush(&blob, ng).expect("brush map");
    assert_eq!(map, vec![Some(3), Some(3), None, None]);
}

#[test]
fn cglf_brush_map_rejects_flagged_groups() {
    let ng = 2usize;
    let mut blob = Vec::new();
    blob.extend_from_slice(&0x0001_0000u32.to_be_bytes());
    blob.extend_from_slice(&(ng as u32).to_be_bytes());
    blob.extend_from_slice(&0x0000_FF00u32.to_be_bytes());
    blob.extend_from_slice(&1u32.to_be_bytes());
    for g in [0xFF00u16, 0xFF01] {
        blob.extend_from_slice(&g.to_be_bytes());
    }
    for _ in 0..25 {
        blob.extend_from_slice(&0u16.to_be_bytes());
    }
    blob.extend_from_slice(&rec(1));
    assert!(parse_cglf_brush(&blob, ng).is_none());
}

#[test]
fn color_tables_use_explicit_brush_map() {
    let paints = vec![
        Paint::Solid(0xFFBF_3E1E),
        Paint::Linear(vec![(0, 0xFF00_00FF), (F2DOT14_ONE, 0xFFFF_0000)]),
    ];
    let bboxes = vec![Some((0, 0, 100, 100)); 4];
    let map = vec![Some(0), None, Some(1), Some(9)];
    let tables = build_color_tables(&paints, Some(&map), &bboxes, 4, &[]).expect("tables");
    let bgl = u32::from_be_bytes([
        tables.colr[34],
        tables.colr[35],
        tables.colr[36],
        tables.colr[37],
    ]);
    assert_eq!(bgl, 2);
}

#[test]
fn forced_gids_use_first_visible_paint() {
    let paints = vec![
        Paint::Solid(0x0000_0000),
        Paint::Solid(0xFFBF_3E1E),
    ];
    let bboxes = vec![Some((0, 0, 100, 100)); 3];
    let empty = vec![None; 3];
    let tables =
        build_color_tables(&paints, Some(&empty), &bboxes, 3, &[2, 2, 99]).expect("tables");
    let bgl = u32::from_be_bytes([
        tables.colr[34],
        tables.colr[35],
        tables.colr[36],
        tables.colr[37],
    ]);
    assert_eq!(bgl, 1);
    assert_eq!(u16::from_be_bytes([tables.cpal[2], tables.cpal[3]]), 1);
}

fn be16(t: &[u8], i: usize) -> u16 {
    u16::from_be_bytes([t[i], t[i + 1]])
}

fn be32(t: &[u8], i: usize) -> u32 {
    u32::from_be_bytes([t[i], t[i + 1], t[i + 2], t[i + 3]])
}

fn gids(colr: &[u8]) -> Vec<u16> {
    (0..be32(colr, 34) as usize).map(|i| be16(colr, 38 + 6 * i)).collect()
}

#[test]
fn solid_colour_tables_have_exact_bytes() {
    let paints = vec![Paint::Solid(0xFFBF_3E1E)];
    let boxes = vec![Some((1, 2, 3, 4))];
    let t = build_color_tables(&paints, None, &boxes, 1, &[]).unwrap();
    let mut colr = vec![0, 1];
    colr.extend_from_slice(&[0; 12]);
    colr.extend_from_slice(&[0, 0, 0, 34]);
    colr.extend_from_slice(&[0; 16]);
    colr.extend_from_slice(&[0, 0, 0, 1, 0, 0, 0, 0, 0, 10]);
    colr.extend_from_slice(&[10, 0, 0, 6, 0, 0, 2, 0, 0, 0x40, 0]);
    assert_eq!(t.colr, colr);
    assert_eq!(
        t.cpal,
        vec![0, 0, 0, 1, 0, 1, 0, 1, 0, 0, 0, 14, 0, 0, 0x1E, 0x3E, 0xBF, 0xFF]
    );
}

#[test]
fn gradients_run_from_top_to_bottom() {
    let paints = vec![Paint::Linear(vec![(0, 0xFF00_0001), (20000, 0x8000_0002)])];
    let boxes = vec![Some((-11, -20, 10, 40))];
    let t = build_color_tables(&paints, None, &boxes, 1, &[]).unwrap();
    let block = &t.colr[34 + be32(&t.colr, 40) as usize..];
    let mut expected = vec![10, 0, 0, 6, 0, 0, 4, 0, 0, 16];
    for v in [-1i16, 40, -1, -20, -11, -20] {
        expected.extend_from_slice(&v.to_be_bytes());
    }
    expected.extend_from_slice(&[0, 0, 2, 0, 0, 0, 0, 0x40, 0, 0x40, 0, 0, 1, 0x40, 0]);
    assert_eq!(block, &expected[..]);
}

#[test]
fn narrow_halves_are_rounded_to_zero() {
    let paints = vec![Paint::Linear(vec![(0, 0xFF00_0001)])];
    let boxes = vec![Some((5, 0, 0, 9))];
    let t = build_color_tables(&paints, None, &boxes, 1, &[]).unwrap();
    let block = &t.colr[34 + be32(&t.colr, 40) as usize..];
    assert_eq!(be16(block, 10), 3);
}

#[test]
fn gradients_go_before_solids_in_turn() {
    let paints = vec![
        Paint::Solid(0xFF00_0001),
        Paint::Linear(vec![(0, 0xFF00_0002)]),
        Paint::Linear(vec![(0, 0xFF00_0003)]),
    ];
    let boxes = vec![Some((0, 0, 1, 1)); 3];
    let t = build_color_tables(&paints, None, &boxes, 3, &[]).unwrap();
    assert_eq!(gids(&t.colr), vec![0, 1, 2]);
    assert_eq!(be16(&t.cpal, 2), 2);
    assert_eq!(&t.cpal[14..], &[2, 0, 0, 0xFF, 3, 0, 0, 0xFF]);
}

#[test]
fn forced_glyphs_are_sorted_in_once() {
    let paints = vec![Paint::Solid(0xFF00_0001), Paint::Solid(0xFF00_0002)];
    let boxes = vec![Some((0, 0, 1, 1)); 5];
    let map = vec![None, Some(1), None, Some(1), None];
    let t = build_color_tables(&paints, Some(&map), &boxes, 5, &[4, 0, 3, 4]).unwrap();
    assert_eq!(gids(&t.colr), vec![0, 1, 3, 4]);
}

#[test]
fn glyphs_without_points_get_no_colour() {
    let paints = vec![Paint::Solid(0xFF00_0001)];
    let boxes = vec![None, Some((0, 0, 1, 1))];
    let map = vec![Some(0), Some(0)];
    let t = build_color_tables(&paints, Some(&map), &boxes, 2, &[0]).unwrap();
    assert_eq!(gids(&t.colr), vec![1]);
    assert!(build_color_tables(&paints, Some(&map), &[None, None], 2, &[0]).is_none());
}

#[test]
fn invisible_paints_give_no_tables() {
    let paints = vec![Paint::Solid(0x00FF_FFFF), Paint::Linear(vec![(0, 0x0012_3456)])];
    let boxes = vec![Some((0, 0, 1, 1))];
    assert!(build_color_tables(&paints, None, &boxes, 1, &[0]).is_none());
    assert!(build_color_tables(&[], None, &boxes, 1, &[0]).is_none());
}

#[test]
fn shared_colours_stand_once_in_the_palette() {
    let paints = vec![
        Paint::Linear(vec![(0, 0xFF00_0001), (9, 0xFF00_0002), (10, 0xFF00_0001)]),
        Paint::Solid(0xFF00_0002),
    ];
    let boxes = vec![Some((0, 0, 1, 1)); 2];
    let map = vec![Some(0), Some(1)];
    let t = build_color_tables(&paints, Some(&map), &boxes, 2, &[]).unwrap();
    assert_eq!(be16(&t.cpal, 2), 2);
    let second = &t.colr[34 + be32(&t.colr, 46) as usize..];
    assert_eq!(second, &[10, 0, 0, 6, 0, 1, 2, 0, 1, 0x40, 0]);
}

#[test]
fn odd_brsh_records_are_passed_over() {
    assert!(parse_brsh(&[0; 7]).is_empty());
    assert!(parse_brsh(&[0, 1, 0, 0, 0, 0, 0, 0, 0, 0, 0, 0]).is_empty());
    assert!(parse_brsh(&[0, 1, 0, 0, 0, 0, 0, 9, 0, 0, 0, 0]).is_empty());
    let mut blob = vec![0, 1, 0, 0, 0, 0, 0, 4];
    for o in [0u32, 5, 5, 10, 22] {
        blob.extend_from_slice(&o.to_be_bytes());
    }
    blob.extend_from_slice(&[1, 0xFF, 0, 0, 1]);
    blob.extend_from_slice(&[0, 0xFF, 0, 0, 2]);
    blob.extend_from_slice(&[0; 12]);
    let paints = parse_brsh(&blob);
    assert_eq!(paints.len(), 1);
    assert!(matches!(paints[0], Paint::Solid(0xFF00_0002)));
}

fn cglf(ng: u32, groups: &[u16], records: &[[u8; 8]]) -> Vec<u8> {
    let mut blob = Vec::new();
    blob.extend_from_slice(&0x0001_0000u32.to_be_bytes());
    blob.extend_from_slice(&ng.to_be_bytes());
    blob.extend_from_slice(&[0; 8]);
    for g in groups {
        blob.extend_from_slice(&g.to_be_bytes());
    }
    blob.extend_from_slice(&[0; 50]);
    for r in records {
        blob.extend_from_slice(r);
    }
    blob
}

#[test]
fn groups_after_the_last_record_have_no_paint() {
    let blob = cglf(3, &[0, 1, 1], &[[0, 0, 2, 0, 0, 0, 5, 1]]);
    assert_eq!(parse_cglf_brush(&blob, 3), Some(vec![Some(5), None, None]));
}

#[test]
fn odd_cglf_tables_are_not_read() {
    let good = cglf(1, &[0], &[[0, 0, 2, 0, 0, 0, 1, 0]]);
    assert_eq!(parse_cglf_brush(&good, 1), Some(vec![Some(2)]));
    assert!(parse_cglf_brush(&good, 2).is_none());
    assert!(parse_cglf_brush(&good[..15], 1).is_none());
    assert!(parse_cglf_brush(&good[..75], 1).is_none());
    assert!(parse_cglf_brush(&cglf(1, &[0], &[]), 1).is_none());
    assert!(parse_cglf_brush(&cglf(1, &[0], &[[0; 8]]), 1).is_none());
    assert!(parse_cglf_brush(&cglf(0, &[], &[[1; 8]]), 0).is_none());
    let mut other = good.clone();
    other[1] = 2;
    assert!(parse_cglf_brush(&other, 1).is_none());
}

#[test]
fn a_paint_block_brings_its_colours() {
    let paint = Paint::Linear(vec![(0, 0xFF00_00FF), (0xFFFF, 0xFF00_00FF)]);
    let mut palette = Palette::new();
    let block = encode_paint_block(5, &paint, &mut palette, (10, 20, 30, 41));
    let mut expected = vec![10, 0, 0, 6, 0, 5, 4, 0, 0, 16];
    expected.extend_from_slice(&[0, 20, 0, 41, 0, 20, 0, 20, 0, 10, 0, 20]);
    expected.extend_from_slice(&[0, 0, 2, 0, 0, 0, 0, 0x40, 0, 0x40, 0, 0, 0, 0x40, 0]);
    assert_eq!(block, expected);
    assert_eq!(palette.colors, vec![0xFF00_00FF]);
    let block = encode_paint_block(6, &Paint::Solid(0x8000_0001), &mut palette, (0, 0, 1, 1));
    assert_eq!(block, vec![10, 0, 0, 6, 0, 6, 2, 0, 1, 0x40, 0]);
    assert_eq!(palette.colors, vec![0xFF00_00FF, 0x8000_0001]);
}

#[test]
fn a_colr_table_brings_its_colours() {
    let paints = vec![Paint::Solid(0xFF00_0001), Paint::Solid(0xFF00_0002)];
    let boxes = vec![Some((0, 0, 1, 1)); 2];
    let mut palette = Palette::new();
    assert_eq!(palette.intern(0xFF00_0002), 0);
    let colr = encode_colr(&vec![(0, 0), (1, 1)], &paints, &mut palette, &boxes);
    assert_eq!(palette.colors, vec![0xFF00_0002, 0xFF00_0001]);
    assert_eq!(palette.index_of(0xFF00_0001), 1);
    let first = &colr[34 + be32(&colr, 40) as usize..];
    assert_eq!(&first[6..9], &[2, 0, 1]);
    let second = &colr[34 + be32(&colr, 46) as usize..];
    assert_eq!(&second[6..9], &[2, 0, 0]);
}

#[test]
fn forced_glyphs_count_as_a_set() {
    let paints = vec![Paint::Solid(0xFF00_0001), Paint::Solid(0xFF00_0002)];
    let boxes = vec![Some((0, 0, 1, 1)), Some((0, 0, 1, 1)), None, Some((0, 0, 1, 1))];
    let map = vec![None, Some(1), None, None];
    let t = build_color_tables(&paints, Some(&map), &boxes, 4, &[0, 3]).unwrap();
    assert_eq!(gids(&t.colr), vec![0, 1, 3]);
    for forced in [vec![3, 0], vec![0, 3, 0, 3], vec![2, 3, 1, 9, 0]] {
        let u = build_color_tables(&paints, Some(&map), &boxes, 4, &forced).unwrap();
        assert_eq!((u.colr, u.cpal), (t.colr.clone(), t.cpal.clone()));
    }
}

#[test]
fn forcing_a_glyph_keeps_the_paint_that_it_has() {
    let paints = vec![Paint::Solid(0xFF00_0001), Paint::Solid(0xFF00_0002)];
    let boxes = vec![Some((0, 0, 1, 1))];
    let map = vec![Some(1)];
    let t = build_color_tables(&paints, Some(&map), &boxes, 1, &[0]).unwrap();
    assert_eq!(&t.cpal[14..], &[2, 0, 0, 0xFF]);
}

#[test]
fn more_boxes_than_glyphs_are_no_harm() {
    let paints = vec![Paint::Solid(0xFF00_0001)];
    let boxes = vec![Some((0, 0, 1, 1)); 0x1_0003];
    let t = build_color_tables(&paints, None, &boxes, 2, &[0xFFFF]).unwrap();
    assert_eq!(gids(&t.colr), vec![0, 1, 0xFFFF]);
}

#[test]
fn forced_glyphs_count_as_a_set_beyond_16_bits() {
    let paints = vec![Paint::Solid(0xFF00_0001), Paint::Solid(0xFF00_0002)];
    let mut boxes = vec![Some((0, 0, 1, 1)); 0x1_0002];
    boxes[7] = None;
    let mut map = vec![None; 0x1_0002];
    map[0] = Some(0);
    map[0x1_0000] = Some(1);
    let t = build_color_tables(&paints, Some(&map), &boxes, 0x1_0002, &[9, 5]).unwrap();
    assert_eq!(gids(&t.colr), vec![0, 0, 5, 9]);
    let u = build_color_tables(&paints, Some(&map), &boxes, 0x1_0002, &[5, 7, 9, 0, 5]).unwrap();
    assert_eq!((u.colr, u.cpal), (t.colr, t.cpal));
}
