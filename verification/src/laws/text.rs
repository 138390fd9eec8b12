//! Lines, white space, numbers and names.

use vstd::prelude::*;
use crate::names::{decimal3, names_font};
use crate::numerals::{decimal, digit, hexadecimal};
use crate::text::{
    dark_end, dark_start, lemma_line_end, line_end, line_text, lines_with, trimmed, white_space,
};

verus! {

proof fn lemma_line_end_is_first(s: Seq<char>, i: int)
    requires
        0 <= i <= s.len(),
    ensures
        forall|k: int| i <= k < line_end(s, i) ==> #[trigger] s[k] != '\n',
    decreases s.len() - i,
{
    if i < s.len() && s[i] != '\n' {
        lemma_line_end_is_first(s, i + 1);
    }
}

/// The lines that are picked out begin with their mark and hold no line feed.
pub proof fn law_lines_begin_with_their_mark(s: Seq<char>, prefix: Seq<char>, i: int)
    requires
        0 <= i,
    ensures
        forall|k: int|
            0 <= k < lines_with(s, prefix, i).len() ==> prefix.is_prefix_of(
                #[trigger] lines_with(s, prefix, i)[k],
            ) && !lines_with(s, prefix, i)[k].contains('\n'),
    decreases s.len() + 1 - i,
{
    if i < s.len() {
        let e = line_end(s, i);
        lemma_line_end(s, i);
        lemma_line_end_is_first(s, i);
        law_lines_begin_with_their_mark(s, prefix, e + 1);
        let line = line_text(s, i, e);
        let rest = lines_with(s, prefix, e + 1);
        let all = lines_with(s, prefix, i);
        assert(!line.contains('\n')) by {
            if line.contains('\n') {
                let k = line.index_of('\n');
                assert(s[i + k] == '\n');
            }
        }
        assert forall|k: int| 0 <= k < all.len() implies prefix.is_prefix_of(#[trigger] all[k])
            && !all[k].contains('\n') by {
            if prefix.is_prefix_of(line) && k > 0 {
                assert(all[k] == rest[k - 1]);
            } else if !prefix.is_prefix_of(line) {
                assert(all[k] == rest[k]);
            }
        }
    }
}

proof fn lemma_dark_start(s: Seq<char>, i: int)
    requires
        0 <= i <= s.len(),
    ensures
        i <= dark_start(s, i) <= s.len(),
        dark_start(s, i) < s.len() ==> !white_space(s[dark_start(s, i)]),
    decreases s.len() - i,
{
    if i < s.len() && white_space(s[i]) {
        lemma_dark_start(s, i + 1);
    }
}

proof fn lemma_dark_end(s: Seq<char>, i: int, j: int)
    requires
        0 <= i <= j <= s.len(),
    ensures
        i <= dark_end(s, i, j) <= j,
        dark_end(s, i, j) > i ==> !white_space(s[dark_end(s, i, j) - 1]),
    decreases j - i,
{
    if j > i && white_space(s[j - 1]) {
        lemma_dark_end(s, i, j - 1);
    }
}

/// A trimmed text has no white space at its ends.
pub proof fn law_trimmed_text_is_dark(s: Seq<char>)
    requires
        trimmed(s).len() > 0,
    ensures
        !white_space(trimmed(s)[0]),
        !white_space(trimmed(s).last()),
{
    let i = dark_start(s, 0);
    lemma_dark_start(s, 0);
    lemma_dark_end(s, i, s.len() as int);
}

proof fn lemma_line_end_moved(a: Seq<char>, b: Seq<char>, i: int)
    requires
        0 <= i <= b.len(),
    ensures
        line_end(a + b, a.len() + i) == a.len() + line_end(b, i),
    decreases b.len() - i,
{
    if i < b.len() {
        assert((a + b)[a.len() + i] == b[i]);
        if b[i] != '\n' {
            lemma_line_end_moved(a, b, i + 1);
        }
    }
}

/// What stands before the place from which lines are picked makes no difference.
proof fn lemma_lines_moved(a: Seq<char>, b: Seq<char>, prefix: Seq<char>, i: int)
    requires
        0 <= i,
    ensures
        lines_with(a + b, prefix, a.len() + i) == lines_with(b, prefix, i),
    decreases b.len() + 1 - i,
{
    if i < b.len() {
        let s = a + b;
        let e = line_end(b, i);
        lemma_line_end(b, i);
        lemma_line_end_moved(a, b, i);
        lemma_lines_moved(a, b, prefix, e + 1);
        assert(i < e < b.len() ==> s[a.len() + e - 1] == b[e - 1]);
        assert(line_text(s, a.len() + i, a.len() + e) =~= line_text(b, i, e));
        assert(lines_with(s, prefix, a.len() + (e + 1)) == lines_with(b, prefix, e + 1));
    }
}

proof fn lemma_line_end_at(s: Seq<char>, i: int, e: int)
    requires
        0 <= i <= e <= s.len(),
        e == s.len() || s[e] == '\n',
        forall|k: int| i <= k < e ==> #[trigger] s[k] != '\n',
    ensures
        line_end(s, i) == e,
    decreases e - i,
{
    if i < e {
        lemma_line_end_at(s, i + 1, e);
    }
}

/// The line alone, if it begins with the mark.
pub open spec fn if_marked(line: Seq<char>, prefix: Seq<char>) -> Seq<Seq<char>> {
    if prefix.len() <= line.len() && line.take(prefix.len() as int) == prefix {
        seq![line]
    } else {
        Seq::empty()
    }
}

/// A line ends with a line feed, or with a carriage return and a line feed, and the text behind it
/// is gone through in the same way.
pub proof fn law_lines_are_gone_through(
    line: Seq<char>,
    returned: bool,
    rest: Seq<char>,
    prefix: Seq<char>,
)
    requires
        !line.contains('\n'),
        returned || line.len() == 0 || line.last() != '\r',
    ensures
        ({
            let end = if returned {
                seq!['\r', '\n']
            } else {
                seq!['\n']
            };
            lines_with(line + end + rest, prefix, 0) == if_marked(line, prefix) + lines_with(
                rest,
                prefix,
                0,
            )
        }),
{
    let end = if returned {
        seq!['\r', '\n']
    } else {
        seq!['\n']
    };
    let a = line + end;
    let s = a + rest;
    let e = a.len() - 1;
    assert forall|k: int| 0 <= k < e implies #[trigger] s[k] != '\n' by {
        if k < line.len() {
            assert(line.contains(line[k]));
        }
    }
    assert(s[e] == '\n');
    lemma_line_end_at(s, 0, e);
    assert(line_text(s, 0, e) =~= line) by {
        if 0 < e && s[e - 1] == '\r' && !returned {
            assert(line.last() == '\r');
        }
    }
    lemma_lines_moved(a, rest, prefix, 0);
    lemma_prefix(line, prefix);
    assert(lines_with(s, prefix, e + 1) == lines_with(rest, prefix, 0));
    assert(Seq::<Seq<char>>::empty() + lines_with(rest, prefix, 0) =~= lines_with(rest, prefix, 0));
}

proof fn lemma_prefix(line: Seq<char>, prefix: Seq<char>)
    ensures
        prefix.is_prefix_of(line) <==> prefix.len() <= line.len() && line.take(prefix.len() as int)
            == prefix,
{
    if prefix.len() <= line.len() {
        assert(line.take(prefix.len() as int) =~= line.subrange(0, prefix.len() as int));
    }
}

/// The last line needs no line feed. A text without characters has no line.
pub proof fn law_last_line_counts(line: Seq<char>, prefix: Seq<char>)
    requires
        !line.contains('\n'),
    ensures
        line.len() > 0 ==> lines_with(line, prefix, 0) == if_marked(line, prefix),
        line.len() == 0 ==> lines_with(line, prefix, 0).len() == 0,
{
    if line.len() > 0 {
        let e = line.len() as int;
        assert forall|k: int| 0 <= k < e implies #[trigger] line[k] != '\n' by {
            assert(line.contains(line[k]));
        }
        lemma_line_end_at(line, 0, e);
        assert(line_text(line, 0, e) =~= line);
        lemma_prefix(line, prefix);
        assert(lines_with(line, prefix, e + 1).len() == 0);
        assert(if_marked(line, prefix) + Seq::<Seq<char>>::empty() =~= if_marked(line, prefix));
        assert(lines_with(line, prefix, 0) =~= if_marked(line, prefix));
    }
}

/// Only white space stands there.
pub open spec fn all_white(s: Seq<char>) -> bool {
    forall|k: int| 0 <= k < s.len() ==> white_space(#[trigger] s[k])
}

proof fn lemma_dark_start_at(s: Seq<char>, i: int, e: int)
    requires
        0 <= i <= e <= s.len(),
        forall|k: int| i <= k < e ==> white_space(#[trigger] s[k]),
        e == s.len() || !white_space(s[e]),
    ensures
        dark_start(s, i) == e,
    decreases e - i,
{
    if i < e {
        lemma_dark_start_at(s, i + 1, e);
    }
}

proof fn lemma_dark_end_at(s: Seq<char>, i: int, e: int, j: int)
    requires
        0 <= i <= e <= j <= s.len(),
        forall|k: int| e <= k < j ==> white_space(#[trigger] s[k]),
        e == i || !white_space(s[e - 1]),
    ensures
        dark_end(s, i, j) == e,
    decreases j - e,
{
    if e < j {
        assert(white_space(s[j - 1]));
        lemma_dark_end_at(s, i, e, j - 1);
    }
}

/// Trimming takes away the white space at the ends, all of it and nothing else.
pub proof fn law_white_space_is_trimmed(a: Seq<char>, s: Seq<char>, b: Seq<char>)
    requires
        all_white(a),
        all_white(b),
        s.len() > 0 ==> !white_space(s[0]) && !white_space(s.last()),
    ensures
        trimmed(a + s + b) == s,
{
    let t = a + s + b;
    let (i, e) = (a.len() as int, (a.len() + s.len()) as int);
    if s.len() > 0 {
        assert(t[i] == s[0]);
        assert(t[e - 1] == s.last());
        lemma_dark_start_at(t, 0, i);
        assert forall|k: int| e <= k < t.len() implies white_space(#[trigger] t[k]) by {
            assert(t[k] == b[k - e]);
        }
        lemma_dark_end_at(t, i, e, t.len() as int);
    } else {
        assert forall|k: int| 0 <= k < t.len() implies white_space(#[trigger] t[k]) by {
            if k < i {
                assert(t[k] == a[k]);
            } else {
                assert(t[k] == b[k - i]);
            }
        }
        lemma_dark_start_at(t, 0, t.len() as int);
    }
    assert(trimmed(t) =~= s);
}

/// White space: from tab to carriage return, space, next line, the space that does not break, and
/// the spaces and separators of other scripts.
pub proof fn law_white_space(c: char)
    ensures
        white_space(c) <==> seq![
            '\t', '\n', '\u{0B}', '\u{0C}', '\r', ' ', '\u{85}', '\u{A0}', '\u{1680}', '\u{2000}',
            '\u{2001}', '\u{2002}', '\u{2003}', '\u{2004}', '\u{2005}', '\u{2006}', '\u{2007}',
            '\u{2008}', '\u{2009}', '\u{200A}', '\u{2028}', '\u{2029}', '\u{202F}', '\u{205F}',
            '\u{3000}',
        ].contains(c),
{
    let all = seq![
        '\t', '\n', '\u{0B}', '\u{0C}', '\r', ' ', '\u{85}', '\u{A0}', '\u{1680}', '\u{2000}',
        '\u{2001}', '\u{2002}', '\u{2003}', '\u{2004}', '\u{2005}', '\u{2006}', '\u{2007}',
        '\u{2008}', '\u{2009}', '\u{200A}', '\u{2028}', '\u{2029}', '\u{202F}', '\u{205F}',
        '\u{3000}',
    ];
    if white_space(c) {
        let n = c as int;
        let k: int = if n <= 0x0D {
            n - 9
        } else if n == 0x20 {
            5
        } else if n == 0x85 {
            6
        } else if n == 0xA0 {
            7
        } else if n == 0x1680 {
            8
        } else if n <= 0x200A {
            n - 0x2000 + 9
        } else if n == 0x2028 {
            20
        } else if n == 0x2029 {
            21
        } else if n == 0x202F {
            22
        } else if n == 0x205F {
            23
        } else {
            24
        };
        assert(all[k] == c);
    }
}

/// What a digit stands for.
pub open spec fn digit_value(c: char) -> int {
    if '0' <= c <= '9' {
        c as int - '0' as int
    } else {
        c as int - 'A' as int + 10
    }
}

/// A digit is one of the ten, or one of six great letters.
pub open spec fn is_digit(c: char, base: int) -> bool {
    '0' <= c <= '9' || base == 16 && 'A' <= c <= 'F'
}

/// The number that digits stand for.
pub open spec fn number_of(s: Seq<char>, base: int) -> int
    decreases s.len(),
{
    if s.len() == 0 {
        0
    } else {
        number_of(s.drop_last(), base) * base + digit_value(s.last())
    }
}

/// A text of digits.
pub open spec fn all_digits(s: Seq<char>, base: int) -> bool {
    forall|i: int| 0 <= i < s.len() ==> is_digit(#[trigger] s[i], base)
}

proof fn lemma_one_digit(d: int)
    requires
        0 <= d < 16,
    ensures
        digit_value(digit(d)) == d,
        is_digit(digit(d), 16),
        d < 10 ==> is_digit(digit(d), 10),
        number_of(seq![digit(d)], 10) == d,
        number_of(seq![digit(d)], 16) == d,
{
    let s = seq![digit(d)];
    assert(s.drop_last().len() == 0);
    assert(number_of(s.drop_last(), 10) == 0);
    assert(number_of(s.drop_last(), 16) == 0);
}

/// A number in decimal digits stands for itself, and has no zero before it.
pub proof fn law_decimal_is_read_back(n: int)
    requires
        0 <= n,
    ensures
        number_of(decimal(n), 10) == n,
        all_digits(decimal(n), 10),
        decimal(n).len() > 0,
        n > 0 ==> decimal(n)[0] != '0',
        n == 0 ==> decimal(n).len() == 1,
    decreases n,
{
    if n < 10 {
        lemma_one_digit(n);
    } else {
        law_decimal_is_read_back(n / 10);
        lemma_one_digit(n % 10);
        let s = decimal(n);
        assert(s.drop_last() =~= decimal(n / 10));
        assert(s[0] == decimal(n / 10)[0]);
    }
}

/// A number in hexadecimal digits stands for itself, and has no zero before it.
pub proof fn law_hexadecimal_is_read_back(n: int)
    requires
        0 <= n,
    ensures
        number_of(hexadecimal(n), 16) == n,
        all_digits(hexadecimal(n), 16),
        hexadecimal(n).len() > 0,
        n > 0 ==> hexadecimal(n)[0] != '0',
        n == 0 ==> hexadecimal(n).len() == 1,
    decreases n,
{
    if n < 16 {
        lemma_one_digit(n);
    } else {
        law_hexadecimal_is_read_back(n / 16);
        lemma_one_digit(n % 16);
        let s = hexadecimal(n);
        assert(s.drop_last() =~= hexadecimal(n / 16));
        assert(s[0] == hexadecimal(n / 16)[0]);
    }
}

/// The number of a slot stands for itself in three digits, or in more where it needs them.
pub proof fn law_slots_have_three_digits(n: int)
    requires
        0 <= n,
    ensures
        number_of(decimal3(n), 10) == n,
        all_digits(decimal3(n), 10),
        decimal3(n).len() >= 3,
        decimal3(n).len() > 3 ==> decimal3(n)[0] != '0',
{
    law_decimal_is_read_back(n);
    reveal_with_fuel(decimal, 4);
    reveal_with_fuel(number_of, 4);
    let s = decimal3(n);
    lemma_one_digit(n % 10);
    if n < 10 {
        assert(s =~= seq!['0', '0', digit(n)]);
        assert(s.drop_last() =~= seq!['0', '0']);
        assert(seq!['0', '0'].drop_last() =~= seq!['0']);
        assert(seq!['0'].drop_last() =~= Seq::<char>::empty());
    } else if n < 100 {
        lemma_one_digit(n / 10);
        assert(s =~= seq!['0', digit(n / 10), digit(n % 10)]);
        assert(s.drop_last() =~= seq!['0', digit(n / 10)]);
        assert(seq!['0', digit(n / 10)].drop_last() =~= seq!['0']);
        assert(seq!['0'].drop_last() =~= Seq::<char>::empty());
    } else {
        lemma_decimal_len(n);
    }
}

proof fn lemma_decimal_len(n: int)
    requires
        100 <= n,
    ensures
        decimal(n).len() >= 3,
    decreases n,
{
    reveal_with_fuel(decimal, 3);
    if n >= 1000 {
        lemma_decimal_len(n / 10);
    }
}

/// A text with its letters from A to Z made small.
pub open spec fn small(s: Seq<char>) -> Seq<char> {
    s.map_values(
        |c: char|
            if 'A' <= c <= 'Z' {
                (c as int + 32) as char
            } else {
                c
            },
    )
}

/// The extensions of fonts are `ttf` and `ftf`, whatever their case.
pub proof fn law_extensions_of_fonts(ext: Seq<char>)
    ensures
        names_font(ext) <==> small(ext) == seq!['t', 't', 'f'] || small(ext) == seq!['f', 't', 'f'],
{
    let s = small(ext);
    assert forall|i: int| 0 <= i < ext.len() implies #[trigger] s[i] == if 'A' <= ext[i] <= 'Z' {
        (ext[i] as int + 32) as char
    } else {
        ext[i]
    } by {}
    if names_font(ext) {
        if s[0] == 't' {
            assert(s =~= seq!['t', 't', 'f']);
        } else {
            assert(s =~= seq!['f', 't', 'f']);
        }
    }
    if s == seq!['t', 't', 'f'] || s == seq!['f', 't', 'f'] {
        assert(s.len() == 3);
        assert(s[0] == 't' || s[0] == 'f');
        assert(s[1] == 't' && s[2] == 'f');
    }
}

} // verus!
