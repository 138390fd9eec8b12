use ftf2ttf::error::OutlineError;
use ftf2ttf::glyf::encode_simple_glyph;
use ftf2ttf::outline::{FtfParser, SubRecord};

fn parse(glyphs: &[&[u8]], mode1: u8, mode2: u8) -> Result<Vec<Vec<SubRecord>>, OutlineError> {
    let mut data = Vec::new();
    let mut loca = vec![0];
    for g in glyphs {
        data.extend_from_slice(g);
        loca.push(data.len());
    }
    FtfParser::new(&data, loca, glyphs.len(), mode1, mode2).parse_all(glyphs.len())
}

fn points(glyphs: &[&[u8]]) -> Vec<Vec<(i32, i32)>> {
    let parsed = parse(glyphs, 1, 1).unwrap();
    parsed
        .iter()
        .map(|recs| recs.iter().flat_map(|r| r.points.clone()).collect())
        .collect()
}

fn fault(glyph: &[u8], mode2: u8) -> OutlineError {
    parse(&[glyph], 1, mode2).unwrap_err()
}

const TRIANGLE: [u8; 13] = [0x80, 0, 0, 3, 0xF6, 0xEC, 0x1E, 0xEC, 0x0A, 0x28, 1, 1, 1];

#[test]
fn a_simple_glyph_is_moved_and_turned() {
    assert_eq!(points(&[&TRIANGLE]), vec![vec![(118, 112), (158, 112), (138, 52)]]);
    let recs = parse(&[&TRIANGLE], 1, 1).unwrap();
    assert_eq!(recs[0][0].flags, vec![1, 1, 0x81]);
}

#[test]
fn wide_coordinates_have_two_bytes() {
    let g = [0x80, 0, 0, 1, 0xFF, 0x38, 0x01, 0x00, 1];
    let recs = parse(&[&g], 1, 2).unwrap();
    assert_eq!(recs[0][0].points, vec![(-72, -164)]);
}

#[test]
fn a_component_is_placed_by_its_transform() {
    let move_by_5 = [0x01, 0, 0x10, 5];
    let double_x = [0x01, 0, 0x01, 0x7F];
    let ps = points(&[&TRIANGLE, &move_by_5, &double_x]);
    assert_eq!(ps[1], vec![(123, 112), (163, 112), (143, 52)]);
    assert_eq!(ps[2], vec![(108, 112), (187, 112), (147, 52)]);
}

#[test]
fn components_are_nested() {
    let a = [0x01, 0, 0x10, 5];
    let b = [0x01, 1, 0x20, 3];
    let ps = points(&[&TRIANGLE, &a, &b]);
    assert_eq!(ps[2], vec![(123, 109), (163, 109), (143, 49)]);
    let ps = points(&[&[0x01, 1, 0x20, 3], &[0x01, 2, 0x10, 5], &TRIANGLE]);
    assert_eq!(ps[0], vec![(123, 109), (163, 109), (143, 49)]);
}

#[test]
fn pieces_follow_one_another() {
    let mut g = TRIANGLE.to_vec();
    g[0] = 0xC0;
    g.extend_from_slice(&[0x41, 1, 0x00]);
    g.extend_from_slice(&[0x80, 0, 0, 1, 0, 0, 1]);
    g.extend_from_slice(&[9, 9, 9]);
    let dot = [0x80, 0, 0, 1, 2, 2, 1];
    let ps = points(&[&g, &dot]);
    assert_eq!(ps[0], vec![(118, 112), (158, 112), (138, 52), (130, 90), (128, 92)]);
}

#[test]
fn points_hang_on_anchors() {
    let g = [0x80, 1, 0, 2, 10, 20, 1, 2, 3, 4, 0, 1, 1, 0, 5];
    let recs = parse(&[&g], 1, 1).unwrap();
    assert_eq!(recs[0][0].points, vec![(139, 70)]);
    assert_eq!(recs[0][0].flags, vec![1, 0x81]);
    assert_eq!(encode_simple_glyph(&recs[0]).contours_count, 1);
    let scaled = [0x01, 0, 0x40, 32];
    let recs = parse(&[&g, &scaled], 1, 1).unwrap();
    assert_eq!(recs[1][0].points, vec![(138, 71)]);
}

#[test]
fn missing_glyphs_are_empty() {
    assert_eq!(points(&[&[0x01, 7, 0]]), vec![Vec::<(i32, i32)>::new()]);
    assert_eq!(points(&[&[0x07, 1, 0, 0, 0, 0, 0, 0, 0]]), vec![Vec::<(i32, i32)>::new()]);
}

#[test]
fn glyphs_beyond_the_data_are_empty() {
    let recs = FtfParser::new(&TRIANGLE, vec![0, 99, 5], 2, 1, 1).parse_all(2).unwrap();
    assert!(recs[0].is_empty());
    assert!(recs[1].is_empty());
}

#[test]
fn elements_of_extended_components_are_passed_over() {
    let g = [
        0x01, 1, 0x80, 0xC0, 0, 0xE1, 0x10, 5, 0x80, 1, 2, 0x80, 0x4A, 3, 0xC0, 0, 1, 2, 0x90, 0, 1,
        0x00, 0x00,
    ];
    let ps = points(&[&g, &TRIANGLE]);
    assert_eq!(ps[0], ps[1]);
}

#[test]
fn cycles_are_refused() {
    assert_eq!(fault(&[0x01, 0, 0], 1), OutlineError::Cycle(0));
    assert_eq!(
        parse(&[&[0x01, 1, 0], &[0x01, 0, 0]], 1, 1).unwrap_err(),
        OutlineError::Cycle(0)
    );
    assert_eq!(
        parse(&[&TRIANGLE, &[0x01, 2, 0], &[0x01, 2, 0]], 1, 1).unwrap_err(),
        OutlineError::Cycle(2)
    );
}

#[test]
fn a_glyph_may_be_used_twice() {
    let twice = [0x41, 0, 0x00, 0x01, 0, 0x10, 5];
    assert_eq!(points(&[&TRIANGLE, &twice])[1].len(), 6);
    assert_eq!(points(&[&[0x41, 1, 0x00, 0x01, 1, 0x00], &TRIANGLE])[0].len(), 6);
}

#[test]
fn each_fault_has_its_name() {
    assert_eq!(fault(&[0x80, 0, 0, 1], 1), OutlineError::Coord8);
    assert_eq!(fault(&[0x80, 0, 0, 1, 5], 2), OutlineError::Coord16);
    assert_eq!(fault(&[0x01, 7], 1), OutlineError::TransformFlags);
    assert_eq!(fault(&[0x01, 7, 0x80], 1), OutlineError::Element);
    assert_eq!(fault(&[0x01, 7, 0x80, 0x40], 1), OutlineError::ElementCount);
    assert_eq!(fault(&[0x01, 7, 0x80, 0x00], 1), OutlineError::ElementHeader);
    assert_eq!(fault(&[0x01, 7, 0x80, 0x00, 0x01], 1), OutlineError::Group);
    assert_eq!(fault(&[0x01, 7, 0x80, 0x00, 0x09, 0x00], 1), OutlineError::GroupIndex);
    assert_eq!(fault(&[0x80, 0, 0], 1), OutlineError::SimpleHeader(0));
    assert_eq!(fault(&[0x80, 0, 0, 1, 5, 6], 1), OutlineError::SimpleFlags(0));
    assert_eq!(fault(&[0x80, 1, 0, 1, 1, 1, 1, 1, 1, 1], 1), OutlineError::Anchors(0));
    assert_eq!(fault(&[0x02, 0], 1), OutlineError::ComponentGlyph(0));
}

#[test]
fn an_encoded_glyph_has_exact_bytes() {
    let recs = parse(&[&TRIANGLE], 1, 1).unwrap();
    let g = encode_simple_glyph(&recs[0]);
    assert_eq!(
        g.data,
        vec![
            0, 1, 0, 0x76, 0, 0x34, 0, 0x9E, 0, 0x70, 0, 2, 0, 0, 0x37, 0x33, 0x07, 0x76, 0x28, 0x14,
            0x70, 0x3C,
        ]
    );
    assert_eq!((g.pts_count, g.contours_count), (3, 1));
    assert_eq!(g.bbox, Some((118, 52, 158, 112)));
}

#[test]
fn large_steps_take_two_bytes() {
    let g = [0x80, 0, 0, 2, 0x01, 0x80, 0x00, 0x5C, 0xFE, 0x00, 0x00, 0x5C, 1, 0];
    let recs = parse(&[&g], 1, 2).unwrap();
    assert_eq!(recs[0][0].points, vec![(512, 0), (-384, 0)]);
    let e = encode_simple_glyph(&recs[0]);
    assert_eq!(&e.data[14..], &[0x21, 0x20, 0x02, 0x00, 0xFC, 0x80]);
}

#[test]
fn a_glyph_without_points_takes_no_room() {
    let g = encode_simple_glyph(&Vec::new());
    assert!(g.data.is_empty());
    assert_eq!(g.bbox, None);
}

fn decode(g: &[u8]) -> Vec<(i32, i32, bool, bool)> {
    let be = |i: usize| u16::from_be_bytes([g[i], g[i + 1]]);
    let contours = be(0) as usize;
    let ends: Vec<usize> = (0..contours).map(|i| be(10 + 2 * i) as usize).collect();
    let n = ends[contours - 1] + 1;
    let flags = 12 + 2 * contours + be(10 + 2 * contours) as usize;
    let mut at = flags + n;
    let mut axes = vec![Vec::new(), Vec::new()];
    for (axis, (short, same)) in [(2u8, 16u8), (4, 32)].iter().enumerate() {
        let mut v = 0i32;
        for i in 0..n {
            let f = g[flags + i];
            assert_eq!(f & 8, 0);
            if f & short != 0 {
                let d = g[at] as i32;
                v += if f & same != 0 { d } else { -d };
                at += 1;
            } else if f & same == 0 {
                v += be(at) as i16 as i32;
                at += 2;
            }
            axes[axis].push(v);
        }
    }
    assert_eq!(at, g.len());
    (0..n)
        .map(|i| (axes[0][i], axes[1][i], g[flags + i] & 1 == 1, ends.contains(&i)))
        .collect()
}

#[test]
fn an_encoded_glyph_is_read_back() {
    let g = [
        0x80, 0, 0, 5, 0x01, 0x80, 0x00, 0x5C, 0xFE, 0x00, 0x00, 0x5C, 0xFE, 0x00, 0x7F, 0xFF, 0, 0,
        0, 0, 0, 1, 0, 1, 1, 0x80, 1, 0, 1,
    ];
    let recs = parse(&[&g], 1, 2).unwrap();
    let e = encode_simple_glyph(&recs[0]);
    assert_eq!(
        decode(&e.data),
        vec![
            (512, 0, true, false),
            (-384, 0, false, true),
            (-384, -32675, true, false),
            (128, 92, false, false),
            (129, 91, true, true),
        ]
    );
}

#[test]
fn a_shifted_component_is_scaled_from_outside() {
    let shifted = [0x01, 0, 0x10, 5];
    let scaled = [0x01, 1, 0x01, 0x7F];
    let ps = points(&[&TRIANGLE, &shifted, &scaled]);
    assert_eq!(ps[2], vec![(118, 112), (197, 112), (157, 52)]);
}

#[test]
fn nested_components_are_rounded_from_inside() {
    let data = [0x80, 0, 0, 1, 3, 0, 1, 1, 0, 1, 32, 1, 1, 1, 127];
    let v = FtfParser::new(&data, vec![0, 7, 11, 15], 3, 1, 1).parse_all(3).unwrap();
    assert_eq!(v[0][0].points, vec![(131, 92)]);
    assert_eq!(v[1][0].points, vec![(129, 92)]);
    assert_eq!(v[2][0].points, vec![(129, 92)]);
}

#[test]
fn an_alias_equals_its_target() {
    let alias = [0x03, 0, 0, 1, 0];
    let v = parse(&[&alias, &TRIANGLE], 1, 1).unwrap();
    assert_eq!(v[0].len(), v[1].len());
    assert_eq!(v[0][0].points, v[1][0].points);
    assert_eq!(v[0][0].flags, v[1][0].flags);
    assert_eq!(v[0][0].c2, v[1][0].c2);
    assert_eq!((v[0][0].c1, v[0][0].extra.len()), (0, 0));
    let t = v[0][0].chain;
    assert_eq!((t.sx, t.kx, t.ky, t.sy, t.tx, t.ty, t.extra), (64, 0, 0, 64, 0, 0, 64));
}

#[test]
fn a_glyph_is_read_alike_again() {
    let mut data = TRIANGLE.to_vec();
    data.extend_from_slice(&[0x01, 1, 0, 0x01, 0, 0]);
    let mut p = FtfParser::new(&data, vec![0, 13, 16, 19], 3, 1, 1);
    let first = p.raw_outline(2).unwrap();
    assert_eq!(p.raw_outline(1).unwrap_err(), OutlineError::Cycle(1));
    let second = p.raw_outline(2).unwrap();
    assert_eq!(first[0].points, second[0].points);
    assert_eq!(first[0].flags, second[0].flags);
    assert!(p.raw_outline(1).is_err());
}

#[test]
fn an_empty_index_has_no_glyphs() {
    assert!(FtfParser::new(&[], Vec::new(), 0, 1, 1).parse_all(0).unwrap().is_empty());
    assert!(FtfParser::new(&[], Vec::new(), 9, 1, 1).parse_all(0).unwrap().is_empty());
}

#[test]
fn a_missing_glyph_leaves_the_parser_as_it_is() {
    let mut p = FtfParser::new(&TRIANGLE, vec![0, 13], 5, 1, 1);
    for gid in [1, 4, 5, 99, u64::MAX] {
        assert!(p.raw_outline(gid).unwrap().is_empty());
        assert!(p.raw_outline(gid).unwrap().is_empty());
    }
    assert_eq!(p.raw_outline(0).unwrap()[0].points.len(), 3);
}
