//! The ways in which a font can be refused.

use vstd::prelude::*;

verus! {

/// A fault in the private glyph data. A number is the glyph in which it was met.
#[derive(Debug, Clone, Copy, PartialEq, Eq, Structural)]
pub enum OutlineError {
    /// The data ends before a one-byte coordinate.
    Coord8,
    /// The data ends before a two-byte coordinate.
    Coord16,
    /// The data ends before the flags of a transform.
    TransformFlags,
    /// The data ends before an element of an extended component.
    Element,
    /// The data ends before the second byte of an element count.
    ElementCount,
    /// The data ends before the header of an element.
    ElementHeader,
    /// The data ends before a group of an element.
    Group,
    /// The data ends before the second byte of a group index.
    GroupIndex,
    /// The header of a simple record is cut off.
    SimpleHeader(usize),
    /// The point flags of a simple record are cut off.
    SimpleFlags(usize),
    /// The anchor indices of a simple record are cut off.
    Anchors(usize),
    /// The glyph number of a component is cut off.
    ComponentGlyph(usize),
    /// The glyph refers to itself, directly or through others.
    Cycle(usize),
}

/// Why a font could not be converted. A tag is the big-endian reading of its four bytes.
#[derive(Debug, Clone, Copy, PartialEq, Eq, Structural)]
pub enum ConvertError {
    /// Fewer bytes than a font header has.
    FileTooShort,
    /// The table directory does not fit in the file.
    CorruptedDirectory,
    /// A table reaches beyond the end of the file.
    TableOutOfBounds(u32),
    /// A table that the conversion needs is not there.
    MissingTable(u32),
    /// The private header table is shorter than 12 bytes.
    HeaderTruncated,
    /// The private header table has another version than 1.0.
    UnsupportedVersion(u32),
    /// The glyph index has fewer entries than there are glyphs.
    LocaTooShort { entries: usize, glyphs: usize },
    /// A glyph could not be read.
    Outline(OutlineError),
}

} // verus!
