use ftf2ttf::cmap::{cmap_lookup, rebuild_cmap_table, rebuild_format4_subtable, Lookup};

fn words(ws: &[u16]) -> Vec<u8> {
    let mut v = Vec::new();
    for w in ws {
        v.extend_from_slice(&w.to_be_bytes());
    }
    v
}

fn format4(segs: &[(u16, u16, u16, u16)], glyphs: &[u16]) -> Vec<u8> {
    let n = segs.len() as u16;
    let length = 16 + 8 * n + 2 * glyphs.len() as u16;
    let mut ws = vec![4, length, 0, 2 * n, 0, 0, 0];
    ws.extend(segs.iter().map(|s| s.1));
    ws.push(0);
    ws.extend(segs.iter().map(|s| s.0));
    ws.extend(segs.iter().map(|s| s.2));
    ws.extend(segs.iter().map(|s| s.3));
    ws.extend_from_slice(glyphs);
    words(&ws)
}

fn table(subs: &[&[u8]]) -> Vec<u8> {
    let mut t = words(&[0, subs.len() as u16]);
    let mut at = 4 + 8 * subs.len() as u32;
    for s in subs {
        t.extend_from_slice(&[0, 3, 0, 1]);
        t.extend_from_slice(&at.to_be_bytes());
        at += s.len() as u32;
    }
    for s in subs {
        t.extend_from_slice(s);
    }
    t
}

#[test]
fn two_terminators_become_one() {
    let sub = format4(
        &[(0x41, 0x43, 0xFFC0, 0), (0xFFFF, 0xFFFF, 1, 0), (0xFFFF, 0xFFFF, 1, 0)],
        &[],
    );
    let expected = words(&[
        4, 32, 0, 4, 4, 1, 0, 0x43, 0xFFFF, 0, 0x41, 0xFFFF, 0xFFC0, 1, 0, 0,
    ]);
    assert_eq!(rebuild_format4_subtable(&sub), Some(expected.clone()));
    assert_eq!(rebuild_format4_subtable(&expected), Some(expected));
}

#[test]
fn a_well_terminated_subtable_stays_as_it_is() {
    let sub = format4(&[(0x41, 0x43, 0xFFC0, 0), (0xFFFF, 0xFFFF, 1, 0)], &[]);
    assert_eq!(rebuild_format4_subtable(&sub), Some(sub));
}

#[test]
fn a_terminator_before_the_end_is_moved() {
    let sub = format4(&[(0xFFFF, 0xFFFF, 1, 0), (0x41, 0x41, 0xFFC0, 0)], &[]);
    let out = rebuild_format4_subtable(&sub).unwrap();
    assert_eq!(
        out,
        words(&[4, 32, 0, 4, 4, 1, 0, 0x41, 0xFFFF, 0, 0x41, 0xFFFF, 0xFFC0, 1, 0, 0])
    );
}

#[test]
fn the_first_segment_that_gives_a_glyph_counts() {
    let sub = format4(&[(0x41, 0x42, 0xFFBF, 0), (0x41, 0x42, 9, 0)], &[]);
    let cmap = table(&[&rebuild_format4_subtable(&sub).unwrap()]);
    assert_eq!(cmap_lookup(&cmap, 0x41), Lookup::Glyph(0x4A));
    assert_eq!(cmap_lookup(&cmap, 0x42), Lookup::Glyph(1));
}

#[test]
fn glyph_lists_are_decoded() {
    let sub = format4(&[(0x61, 0x64, 0, 2)], &[7, 0, 8]);
    let out = rebuild_format4_subtable(&sub).unwrap();
    let cmap = table(&[&out]);
    assert_eq!(cmap_lookup(&cmap, 0x61), Lookup::Glyph(7));
    assert_eq!(cmap_lookup(&cmap, 0x62), Lookup::Missing);
    assert_eq!(cmap_lookup(&cmap, 0x63), Lookup::Glyph(8));
    assert_eq!(cmap_lookup(&cmap, 0x64), Lookup::Missing);
    assert_eq!(out.len(), 16 + 8 * 3);
}

#[test]
fn no_character_ffff_comes_out() {
    let sub = format4(&[(0xFFFE, 0xFFFF, 5, 0), (0xFFFF, 0xFFFF, 5, 0)], &[]);
    let out = rebuild_format4_subtable(&sub).unwrap();
    let cmap = table(&[&out]);
    assert_eq!(cmap_lookup(&cmap, 0xFFFE), Lookup::Glyph(3));
    assert_eq!(cmap_lookup(&cmap, 0xFFFF), Lookup::Missing);
}

#[test]
fn rebuilding_keeps_the_glyph_of_a_character() {
    let sub = format4(
        &[(0x30, 0x39, 0xFFE0, 0), (0x41, 0x45, 0x100, 0), (0xFFFF, 0xFFFF, 1, 0), (0, 0xFFFF, 1, 0)],
        &[],
    );
    let before = table(&[&sub]);
    let after = rebuild_cmap_table(&before).unwrap();
    for c in 0x30..0x3A {
        assert_eq!(cmap_lookup(&after, c), cmap_lookup(&before, c));
        assert_eq!(cmap_lookup(&after, c), Lookup::Glyph(c as u16 - 0x20));
    }
    assert_eq!(cmap_lookup(&after, 0x41), Lookup::Glyph(0x141));
}

#[test]
fn subtables_that_cannot_be_read_stay_as_they_are() {
    assert_eq!(rebuild_format4_subtable(&[0, 4, 0]), Some(vec![0, 4, 0]));
    let empty = words(&[4, 14, 0, 0, 0, 0, 0]);
    assert_eq!(rebuild_format4_subtable(&empty), Some(empty));
    let long = words(&[4, 99, 0, 2, 0, 0, 0, 1, 0, 1, 0, 0]);
    assert_eq!(rebuild_format4_subtable(&long), Some(long));
    let wide = words(&[4, 24, 0, 8, 0, 0, 0, 1, 0, 1, 0, 0]);
    assert_eq!(rebuild_format4_subtable(&wide), Some(wide));
}

#[test]
fn a_segment_that_points_before_the_glyphs_is_dropped_or_unreadable() {
    let sub = format4(&[(0, 0x10, 0, 1)], &[1]);
    assert_eq!(rebuild_format4_subtable(&sub), None);
    assert_eq!(rebuild_cmap_table(&table(&[&sub])), None);
    let sub = format4(&[(0, 0x10, 0, 1), (0x20, 0x20, 1, 0)], &[1]);
    let cmap = table(&[&rebuild_format4_subtable(&sub).unwrap()]);
    assert_eq!(cmap_lookup(&cmap, 5), Lookup::Missing);
    assert_eq!(cmap_lookup(&cmap, 0x20), Lookup::Glyph(0x21));
}

#[test]
fn equal_subtables_are_written_once() {
    let mut cmap = words(&[0, 3]);
    for (pid, off) in [(0u16, 28u32), (3, 28), (7, 99)] {
        cmap.extend_from_slice(&pid.to_be_bytes());
        cmap.extend_from_slice(&[0, 1]);
        cmap.extend_from_slice(&off.to_be_bytes());
    }
    cmap.extend_from_slice(&[0, 6, 1, 2, 3]);
    let mut expected = words(&[0, 2, 0, 1, 0, 20, 3, 1, 0, 20]);
    expected.extend_from_slice(&[0, 6, 1, 2, 3, 0, 0, 0]);
    assert_eq!(rebuild_cmap_table(&cmap), Some(expected));
}

#[test]
fn tables_with_a_broken_list_stay_as_they_are() {
    assert_eq!(rebuild_cmap_table(&[0, 0, 0]), Some(vec![0, 0, 0]));
    assert_eq!(rebuild_cmap_table(&[0, 0, 0, 1, 0]), Some(vec![0, 0, 0, 1, 0]));
    assert_eq!(rebuild_cmap_table(&[0, 0, 0, 0, 5, 5]), Some(vec![0, 0, 0, 0]));
}

fn format12(groups: &[(u32, u32, u32)]) -> Vec<u8> {
    let mut v = words(&[12, 0]);
    v.extend_from_slice(&(16 + 12 * groups.len() as u32).to_be_bytes());
    v.extend_from_slice(&0u32.to_be_bytes());
    v.extend_from_slice(&(groups.len() as u32).to_be_bytes());
    for g in groups {
        v.extend_from_slice(&g.0.to_be_bytes());
        v.extend_from_slice(&g.1.to_be_bytes());
        v.extend_from_slice(&g.2.to_be_bytes());
    }
    v
}

#[test]
fn characters_are_found_in_format_12() {
    let sub = format12(&[(0x20, 0x7E, 3), (0x1F600, 0x1F610, 900), (0x1F700, 0x1F700, 0x1_0001)]);
    let cmap = table(&[&sub]);
    assert_eq!(cmap_lookup(&cmap, 0x20), Lookup::Glyph(3));
    assert_eq!(cmap_lookup(&cmap, 0x1F602), Lookup::Glyph(902));
    assert_eq!(cmap_lookup(&cmap, 0x1F700), Lookup::Missing);
    assert_eq!(cmap_lookup(&cmap, 0x10), Lookup::Missing);
    assert_eq!(cmap_lookup(&table(&[&sub[..15]]), 0x20), Lookup::Missing);
    assert_eq!(cmap_lookup(&table(&[&sub[..30]]), 0x1F602), Lookup::Missing);
}

#[test]
fn the_first_encoding_with_an_answer_counts() {
    let a = format4(&[(0x41, 0x41, 1, 0), (0xFFFF, 0xFFFF, 1, 0)], &[]);
    let b = format12(&[(0x41, 0x42, 7)]);
    let cmap = table(&[&[0, 6], &a, &b]);
    assert_eq!(cmap_lookup(&cmap, 0x41), Lookup::Glyph(0x42));
    assert_eq!(cmap_lookup(&cmap, 0x42), Lookup::Glyph(8));
    assert_eq!(cmap_lookup(&[0, 0, 0], 0x41), Lookup::Missing);
    assert_eq!(cmap_lookup(&[0, 0, 0, 2], 0x41), Lookup::Missing);
}

#[test]
fn format_4_adds_to_listed_glyphs_on_lookup() {
    let sub = format4(&[(0x61, 0x62, 10, 4), (0xFFFF, 0xFFFF, 1, 0)], &[7, 0]);
    let cmap = table(&[&sub]);
    assert_eq!(cmap_lookup(&cmap, 0x61), Lookup::Glyph(17));
    assert_eq!(cmap_lookup(&cmap, 0x62), Lookup::Glyph(10));
}

#[test]
fn a_segment_that_is_cut_off_is_an_overrun() {
    let cmap = table(&[&words(&[4, 20, 0, 2, 0, 0, 0, 0xFFFF, 0, 0])]);
    assert_eq!(cmap_lookup(&cmap, 0x41), Lookup::Overrun);
    let cmap = table(&[&words(&[4, 22, 0, 2, 0, 0, 0, 0xFFFF, 0, 0, 1])]);
    assert_eq!(cmap_lookup(&cmap, 0x41), Lookup::Missing);
}

#[test]
fn distinct_subtables_are_read_back() {
    let a = format4(&[(0x41, 0x41, 1, 0), (0xFFFF, 0xFFFF, 1, 0)], &[]);
    let b = format12(&[(0x50, 0x52, 7)]);
    let out = rebuild_cmap_table(&table(&[&a, &b])).unwrap();
    assert_eq!(&out[..4], &[0, 0, 0, 2]);
    let second = u32::from_be_bytes([out[16], out[17], out[18], out[19]]) as usize;
    assert_eq!(&out[second..second + b.len()], &b[..]);
    assert_eq!(cmap_lookup(&out, 0x41), Lookup::Glyph(0x42));
    assert_eq!(cmap_lookup(&out, 0x51), Lookup::Glyph(8));
}

#[test]
fn neighbours_are_joined_as_far_as_they_can_be() {
    let sub = format4(
        &[
            (0x41, 0x42, 0xFFC0, 0),
            (0x43, 0x44, 0xFFC0, 0),
            (0x45, 0x46, 0xFFD0, 0),
            (0x48, 0x49, 0xFFD0, 0),
            (0xFFFF, 0xFFFF, 1, 0),
            (0xFFFF, 0xFFFF, 1, 0),
        ],
        &[],
    );
    let out = rebuild_format4_subtable(&sub).unwrap();
    let expected = words(&[
        4, 48, 0, 8, 8, 2, 0, 0x44, 0x46, 0x49, 0xFFFF, 0, 0x41, 0x45, 0x48, 0xFFFF, 0xFFC0, 0xFFD0,
        0xFFD0, 1, 0, 0, 0, 0,
    ]);
    assert_eq!(out, expected);
    assert_eq!(rebuild_format4_subtable(&out), Some(out));
}

#[test]
fn a_segment_whose_glyphs_turn_over_is_parted() {
    let sub = format4(&[(0x10, 0x14, 0xFFEE, 0), (0x20, 0x21, 0, 0)], &[]);
    let before = table(&[&sub]);
    let after = rebuild_cmap_table(&before).unwrap();
    assert_eq!(cmap_lookup(&before, 0x11), Lookup::Glyph(0xFFFF));
    assert_eq!(cmap_lookup(&before, 0x12), Lookup::Missing);
    assert_eq!(cmap_lookup(&before, 0x13), Lookup::Glyph(1));
    for cp in 0..0xFFFF {
        assert_eq!(cmap_lookup(&after, cp), cmap_lookup(&before, cp));
    }
    assert_eq!(&after[..8], &before[..8]);
    assert_eq!(after.len(), 12 + 16 + 8 * 4);
}
