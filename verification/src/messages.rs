//! What is said of a font that cannot be converted.

use vstd::prelude::*;
use vstd::string::StringExecFns;
use crate::error::{ConvertError, OutlineError};
use crate::numerals::{append_decimal, append_hexadecimal, decimal, hexadecimal};
use crate::tags::{HEAD, HHEA, HMTX, LOCA, MAXP};

verus! {

/// What is said of a fault in a glyph.
pub open spec fn outline_text(e: OutlineError) -> Seq<char> {
    match e {
        OutlineError::Coord8 => "Unexpected EOF reading 1-byte coord"@,
        OutlineError::Coord16 => "Unexpected EOF reading 2-byte coord"@,
        OutlineError::TransformFlags => "Unexpected EOF reading transform flags"@,
        OutlineError::Element => "Unexpected EOF in extended component"@,
        OutlineError::ElementCount => "Unexpected EOF reading extended count"@,
        OutlineError::ElementHeader => "Unexpected EOF reading element header"@,
        OutlineError::Group => "Unexpected EOF in group"@,
        OutlineError::GroupIndex => "Unexpected EOF in extended group index"@,
        OutlineError::SimpleHeader(gid) => "Corrupted simple glyph header at GID "@ + decimal(
            gid as int,
        ),
        OutlineError::SimpleFlags(gid) => "Corrupted simple glyph flags at GID "@ + decimal(
            gid as int,
        ),
        OutlineError::Anchors(gid) => "Corrupted extra bytes at GID "@ + decimal(
            gid as int,
        ),
        OutlineError::ComponentGlyph(gid) => "Corrupted component GID offset at GID "@ + decimal(
            gid as int,
        ),
        OutlineError::Cycle(gid) => "Glyph reference cycle detected at GID "@ + decimal(
            gid as int,
        ),
    }
}

/// How a table that the conversion needs is called. No other table is ever missed; such a one would
/// be called by its number.
pub open spec fn needed_name(tag: u32) -> Seq<char> {
    if tag == LOCA {
        "loca"@
    } else if tag == HHEA {
        "hhea"@
    } else if tag == HMTX {
        "hmtx"@
    } else if tag == HEAD {
        "head"@
    } else if tag == MAXP {
        "maxp"@
    } else {
        "0x"@ + hexadecimal(tag as int)
    }
}

/// What is said of a font that cannot be converted. `table` is how a table that reaches beyond the
/// end of the file is called.
pub open spec fn convert_text(e: ConvertError, table: Seq<char>) -> Seq<char> {
    match e {
        ConvertError::FileTooShort => "File too short to be a valid TTF"@,
        ConvertError::CorruptedDirectory => "Corrupted table directory"@,
        ConvertError::TableOutOfBounds(_tag) => "Table "@ + table
            + " points outside file boundary"@,
        ConvertError::MissingTable(tag) => needed_name(tag) + " table missing"@,
        ConvertError::HeaderTruncated => "FTFH header truncated"@,
        ConvertError::UnsupportedVersion(v) => "Unsupported FTFH version: 0x"@ + hexadecimal(
            v as int,
        ),
        ConvertError::LocaTooShort { entries, glyphs } => "loca entries ("@ + decimal(
            entries as int,
        ) + ") is less than num_glyphs ("@ + decimal(glyphs as int) + ")"@,
        ConvertError::Outline(x) => outline_text(x),
    }
}

/// A text with a number behind it.
fn numbered(text: &str, n: usize) -> (r: String)
    ensures
        r@ == text@ + decimal(n as int),
{
    let mut s = String::from_str(text);
    append_decimal(&mut s, n);
    s
}

/// Says why a glyph could not be read.
pub fn describe_outline(e: OutlineError) -> (r: String)
    ensures
        r@ == outline_text(e),
{
    match e {
        OutlineError::Coord8 => String::from_str("Unexpected EOF reading 1-byte coord"),
        OutlineError::Coord16 => String::from_str("Unexpected EOF reading 2-byte coord"),
        OutlineError::TransformFlags => String::from_str("Unexpected EOF reading transform flags"),
        OutlineError::Element => String::from_str("Unexpected EOF in extended component"),
        OutlineError::ElementCount => String::from_str("Unexpected EOF reading extended count"),
        OutlineError::ElementHeader => String::from_str("Unexpected EOF reading element header"),
        OutlineError::Group => String::from_str("Unexpected EOF in group"),
        OutlineError::GroupIndex => String::from_str("Unexpected EOF in extended group index"),
        OutlineError::SimpleHeader(gid) => numbered("Corrupted simple glyph header at GID ", gid),
        OutlineError::SimpleFlags(gid) => numbered("Corrupted simple glyph flags at GID ", gid),
        OutlineError::Anchors(gid) => numbered("Corrupted extra bytes at GID ", gid),
        OutlineError::ComponentGlyph(gid) => numbered("Corrupted component GID offset at GID ", gid),
        OutlineError::Cycle(gid) => numbered("Glyph reference cycle detected at GID ", gid),
    }
}

/// Calls a table that the conversion needs by its name.
fn name_needed(tag: u32) -> (r: String)
    ensures
        r@ == needed_name(tag),
{
    if tag == LOCA {
        String::from_str("loca")
    } else if tag == HHEA {
        String::from_str("hhea")
    } else if tag == HMTX {
        String::from_str("hmtx")
    } else if tag == HEAD {
        String::from_str("head")
    } else if tag == MAXP {
        String::from_str("maxp")
    } else {
        let mut s = String::from_str("0x");
        append_hexadecimal(&mut s, tag as usize);
        s
    }
}

/// Says why a font could not be converted.
pub fn describe(e: ConvertError, table: &str) -> (r: String)
    ensures
        r@ == convert_text(e, table@),
{
    match e {
        ConvertError::FileTooShort => String::from_str("File too short to be a valid TTF"),
        ConvertError::CorruptedDirectory => String::from_str("Corrupted table directory"),
        ConvertError::TableOutOfBounds(_tag) => {
            let mut s = String::from_str("Table ");
            s.append(table);
            s.append(" points outside file boundary");
            s
        },
        ConvertError::MissingTable(tag) => {
            let mut s = name_needed(tag);
            s.append(" table missing");
            s
        },
        ConvertError::HeaderTruncated => String::from_str("FTFH header truncated"),
        ConvertError::UnsupportedVersion(v) => {
            let mut s = String::from_str("Unsupported FTFH version: 0x");
            append_hexadecimal(&mut s, v as usize);
            s
        },
        ConvertError::LocaTooShort { entries, glyphs } => {
            let mut s = numbered("loca entries (", entries);
            s.append(") is less than num_glyphs (");
            append_decimal(&mut s, glyphs);
            s.append(")");
            s
        },
        ConvertError::Outline(x) => describe_outline(x),
    }
}

} // verus!
