use ftf2ttf::names::{frame_name, is_font_extension, result_name};
use ftf2ttf::error::{ConvertError, OutlineError};
use ftf2ttf::messages::{describe, describe_outline};
use ftf2ttf::numerals::{append_decimal, append_hexadecimal};
use ftf2ttf::ots::{assert_sanitized, read_report, rejection};
use ftf2ttf::text::{is_white_space, trim};

#[test]
fn a_report_tells_errors_from_warnings() {
    let said = "ERROR: one\r\nnote\nWARNING: two\nWARN\nERROR: three\r";
    let report = read_report(true, said.to_string());
    assert!(report.success);
    assert_eq!(report.errors, vec!["ERROR: one", "ERROR: three\r"]);
    assert_eq!(report.warnings, vec!["WARNING: two"]);
    assert_eq!(report.raw_stderr, said);
}

#[test]
fn lines_are_those_of_the_standard_library() {
    for text in ["", "\n", "\r\n", "a", "a\n", "a\r\nb", "\n\na\r\r\n\r", "a\rb\n", "é\n\u{2028}x"] {
        let report = read_report(false, text.to_string());
        let expected: Vec<&str> = text.lines().filter(|l| l.starts_with("ERROR:")).collect();
        assert_eq!(report.errors, expected);
        let marked = text.replace('\n', "\nERROR:");
        let report = read_report(false, marked.clone());
        let expected: Vec<&str> = marked.lines().filter(|l| l.starts_with("ERROR:")).collect();
        assert_eq!(report.errors, expected);
    }
}

#[test]
fn a_font_that_passes_keeps_its_report() {
    let report = read_report(true, "WARNING: x\n".to_string());
    let report = assert_sanitized("a.ttf", report).unwrap();
    assert_eq!(report.warnings, vec!["WARNING: x"]);
}

#[test]
fn a_font_that_fails_gives_its_name_and_what_was_said() {
    let report = read_report(false, " \n ERROR: bad\u{3000}\n".to_string());
    let said = assert_sanitized("fonts/a b.ttf", report);
    assert_eq!(said.unwrap_err(), "OTS rejected fonts/a b.ttf:\nERROR: bad");
    assert_eq!(rejection("", ""), "OTS rejected :\n");
}

#[test]
fn each_refusal_has_its_text() {
    let cases = [
        (ConvertError::FileTooShort, "File too short to be a valid TTF"),
        (ConvertError::CorruptedDirectory, "Corrupted table directory"),
        (ConvertError::TableOutOfBounds(7), "Table Ok(\"maxp\") points outside file boundary"),
        (ConvertError::MissingTable(u32::from_be_bytes(*b"loca")), "loca table missing"),
        (ConvertError::MissingTable(u32::from_be_bytes(*b"hhea")), "hhea table missing"),
        (ConvertError::MissingTable(u32::from_be_bytes(*b"hmtx")), "hmtx table missing"),
        (ConvertError::MissingTable(u32::from_be_bytes(*b"head")), "head table missing"),
        (ConvertError::MissingTable(u32::from_be_bytes(*b"maxp")), "maxp table missing"),
        (ConvertError::HeaderTruncated, "FTFH header truncated"),
        (ConvertError::UnsupportedVersion(0x2_0A1F), "Unsupported FTFH version: 0x20A1F"),
        (ConvertError::UnsupportedVersion(0), "Unsupported FTFH version: 0x0"),
        (
            ConvertError::LocaTooShort { entries: 1, glyphs: 20 },
            "loca entries (1) is less than num_glyphs (20)",
        ),
        (ConvertError::Outline(OutlineError::Coord8), "Unexpected EOF reading 1-byte coord"),
    ];
    for (e, text) in cases {
        assert_eq!(describe(e, "Ok(\"maxp\")"), text);
    }
}

#[test]
fn each_fault_in_a_glyph_has_its_text() {
    let cases = [
        (OutlineError::Coord8, "Unexpected EOF reading 1-byte coord"),
        (OutlineError::Coord16, "Unexpected EOF reading 2-byte coord"),
        (OutlineError::TransformFlags, "Unexpected EOF reading transform flags"),
        (OutlineError::Element, "Unexpected EOF in extended component"),
        (OutlineError::ElementCount, "Unexpected EOF reading extended count"),
        (OutlineError::ElementHeader, "Unexpected EOF reading element header"),
        (OutlineError::Group, "Unexpected EOF in group"),
        (OutlineError::GroupIndex, "Unexpected EOF in extended group index"),
        (OutlineError::SimpleHeader(0), "Corrupted simple glyph header at GID 0"),
        (OutlineError::SimpleFlags(9), "Corrupted simple glyph flags at GID 9"),
        (OutlineError::Anchors(10), "Corrupted extra bytes at GID 10"),
        (OutlineError::ComponentGlyph(14873), "Corrupted component GID offset at GID 14873"),
        (OutlineError::Cycle(102), "Glyph reference cycle detected at GID 102"),
    ];
    for (e, text) in cases {
        assert_eq!(describe_outline(e), text);
    }
}

#[test]
fn numbers_are_written_as_by_the_standard_library() {
    for n in [0usize, 9, 10, 15, 16, 255, 256, 65536, 0xABCDEF, usize::MAX] {
        let mut s = String::from("x");
        append_decimal(&mut s, n);
        append_hexadecimal(&mut s, n);
        assert_eq!(s, format!("x{n}{n:X}"));
    }
}

#[test]
fn white_space_is_that_of_the_standard_library() {
    for n in 0..0x11_0000u32 {
        if let Some(c) = char::from_u32(n) {
            assert_eq!(is_white_space(c), c.is_whitespace());
        }
    }
}

#[test]
fn trimmed_text_has_no_white_ends() {
    for text in ["", " ", "\t\n", "a", " a b ", "\u{85}é\u{a0}", "x\n"] {
        assert_eq!(trim(text), text.trim());
    }
}

#[test]
fn fonts_are_known_by_their_extension() {
    for ext in ["ttf", "TTF", "ftf", "FtF", "tTf"] {
        assert!(is_font_extension(ext));
    }
    for ext in ["", "tt", "ttff", "otf", "fft", "tft", "ŧtf"] {
        assert!(!is_font_extension(ext));
    }
}

#[test]
fn files_are_named() {
    assert_eq!(result_name("20563"), "20563_result.ttf");
    assert_eq!(result_name(""), "_result.ttf");
    for slot in [0usize, 7, 10, 99, 100, 1234, 65534, usize::MAX] {
        assert_eq!(frame_name(slot), format!("frame_{:03}.png", slot));
    }
    assert_eq!(frame_name(5), "frame_005.png");
}
