//! Names of files.

use vstd::prelude::*;
use vstd::string::StringExecFns;
use crate::numerals::{append_decimal, decimal};
use crate::text::chars_of;

verus! {

/// A character is the letter `lower`, in either case.
pub open spec fn is_letter(c: char, lower: char) -> bool {
    c == lower || c as int + 32 == lower as int
}

/// The extension is `ttf` or `ftf`, in any case.
pub open spec fn names_font(ext: Seq<char>) -> bool {
    &&& ext.len() == 3
    &&& is_letter(ext[0], 't') || is_letter(ext[0], 'f')
    &&& is_letter(ext[1], 't')
    &&& is_letter(ext[2], 'f')
}

/// Whether files with an extension are fonts.
pub fn is_font_extension(ext: &str) -> (r: bool)
    ensures
        r == names_font(ext@),
{
    let v = chars_of(ext);
    v.len() == 3 && (v[0] == 't' || v[0] == 'T' || v[0] == 'f' || v[0] == 'F') && (v[1] == 't' || v[1]
        == 'T') && (v[2] == 'f' || v[2] == 'F')
}

/// The name of the converted font beside a font that is called `stem`.
pub fn result_name(stem: &str) -> (r: String)
    ensures
        r@ == stem@ + "_result.ttf"@,
{
    let mut s = String::from_str(stem);
    s.append("_result.ttf");
    s
}

/// A number in three decimal digits, or in more where it needs them.
pub open spec fn decimal3(n: int) -> Seq<char> {
    if n < 10 {
        seq!['0', '0'] + decimal(n)
    } else if n < 100 {
        seq!['0'] + decimal(n)
    } else {
        decimal(n)
    }
}

/// The name of the file for the picture in a slot.
pub fn frame_name(slot: usize) -> (r: String)
    ensures
        r@ == "frame_"@ + decimal3(slot as int) + ".png"@,
{
    proof {
        reveal_strlit("0");
        reveal_strlit("00");
    }
    let mut s = String::from_str("frame_");
    if slot < 10 {
        s.append("00");
    } else if slot < 100 {
        s.append("0");
    }
    append_decimal(&mut s, slot);
    assert(s@ =~= "frame_"@ + decimal3(slot as int));
    s.append(".png");
    s
}

} // verus!
