//! Text: lines and white space.

use vstd::prelude::*;
use vstd::string::{StrSliceExecFns, StringExecFns};

verus! {

/// The text of strings.
pub open spec fn texts(v: Seq<String>) -> Seq<Seq<char>> {
    v.map_values(|s: String| s@)
}

/// Where the line that begins at `i` ends: at a line feed or at the end of the text.
pub open spec fn line_end(s: Seq<char>, i: int) -> int
    decreases s.len() - i,
{
    if i >= s.len() || s[i] == '\n' {
        i
    } else {
        line_end(s, i + 1)
    }
}

/// The line from `i` to `e`, without the carriage return that a line feed may follow.
pub open spec fn line_text(s: Seq<char>, i: int, e: int) -> Seq<char> {
    if i < e < s.len() && s[e - 1] == '\r' {
        s.subrange(i, e - 1)
    } else {
        s.subrange(i, e)
    }
}

/// The lines from `i` on that begin with `prefix`. The last line need not end with a line feed.
pub open spec fn lines_with(s: Seq<char>, prefix: Seq<char>, i: int) -> Seq<Seq<char>>
    decreases s.len() + 1 - i,
{
    if !(0 <= i < s.len()) {
        Seq::empty()
    } else {
        proof {
            lemma_line_end(s, i);
        }
        let e = line_end(s, i);
        let line = line_text(s, i, e);
        let rest = lines_with(s, prefix, e + 1);
        if prefix.is_prefix_of(line) {
            seq![line] + rest
        } else {
            rest
        }
    }
}

pub proof fn lemma_line_end(s: Seq<char>, i: int)
    requires
        0 <= i <= s.len(),
    ensures
        i <= line_end(s, i) <= s.len(),
    decreases s.len() - i,
{
    if i < s.len() && s[i] != '\n' {
        lemma_line_end(s, i + 1);
    }
}

/// The characters of a text.
pub fn chars_of(s: &str) -> (r: Vec<char>)
    ensures
        r@ == s@,
{
    let mut v: Vec<char> = Vec::new();
    for c in it: s.chars()
        invariant
            it.seq() == s@,
            v@ =~= s@.take(it.index() as int),
    {
        v.push(c);
    }
    assert(v@ =~= s@);
    v
}

/// Whether the line from `i` to `e` begins with `prefix`.
fn starts_with(v: &Vec<char>, i: usize, e: usize, prefix: &Vec<char>) -> (r: bool)
    requires
        i <= e <= v@.len(),
    ensures
        r == prefix@.is_prefix_of(v@.subrange(i as int, e as int)),
{
    if prefix.len() > e - i {
        return false;
    }
    let mut k: usize = 0;
    while k < prefix.len()
        invariant
            k <= prefix@.len(),
            i + prefix@.len() <= e <= v.len(),
            forall|j: int| 0 <= j < k ==> prefix@[j] == v@[i + j],
        decreases prefix@.len() - k,
    {
        if prefix[k] != v[i + k] {
            assert(prefix@[k as int] != v@.subrange(i as int, e as int)[k as int]);
            return false;
        }
        k += 1;
    }
    assert(prefix@ =~= v@.subrange(i as int, e as int).subrange(0, prefix@.len() as int));
    true
}

/// Collects the lines that begin with `prefix`.
pub fn collect_lines(text: &str, prefix: &str) -> (r: Vec<String>)
    ensures
        texts(r@) == lines_with(text@, prefix@, 0),
{
    let v = chars_of(text);
    let p = chars_of(prefix);
    let mut out: Vec<String> = Vec::new();
    assert(texts(out@) + lines_with(text@, prefix@, 0) =~= lines_with(text@, prefix@, 0));
    let mut i: usize = 0;
    while i < v.len()
        invariant
            i <= v.len(),
            v@ == text@,
            p@ == prefix@,
            texts(out@) + lines_with(text@, prefix@, i as int) == lines_with(text@, prefix@, 0),
        decreases v.len() - i,
    {
        let ghost before = texts(out@);
        let mut e: usize = i;
        while e < v.len() && v[e] != '\n'
            invariant
                i <= e <= v.len(),
                v@ == text@,
                line_end(text@, i as int) == line_end(text@, e as int),
            decreases v.len() - e,
        {
            e += 1;
        }
        let stop: usize = if e < v.len() && i < e && v[e - 1] == '\r' {
            e - 1
        } else {
            e
        };
        let ghost line = line_text(text@, i as int, e as int);
        assert(line == text@.subrange(i as int, stop as int));
        let ghost next: int = if e < v.len() {
            e + 1
        } else {
            e as int
        };
        assert(lines_with(text@, prefix@, next) == lines_with(text@, prefix@, e + 1));
        if starts_with(&v, i, stop, &p) {
            let s = String::from_str(text.substring_char(i, stop));
            out.push(s);
            assert(texts(out@) =~= before.push(line));
            assert(texts(out@) + lines_with(text@, prefix@, next) =~= before + (seq![line]
                + lines_with(text@, prefix@, next)));
        }
        i = if e < v.len() {
            e + 1
        } else {
            e
        };
    }
    assert(texts(out@) + Seq::<Seq<char>>::empty() =~= texts(out@));
    out
}

/// The characters with the Unicode property `White_Space`.
pub open spec fn white_space(c: char) -> bool {
    let n = c as int;
    ||| 0x09 <= n <= 0x0D
    ||| n == 0x20
    ||| n == 0x85
    ||| n == 0xA0
    ||| n == 0x1680
    ||| 0x2000 <= n <= 0x200A
    ||| n == 0x2028
    ||| n == 0x2029
    ||| n == 0x202F
    ||| n == 0x205F
    ||| n == 0x3000
}

/// Whether a character has the Unicode property `White_Space`.
pub fn is_white_space(c: char) -> (r: bool)
    ensures
        r == white_space(c),
{
    let n = c as u32;
    0x09 <= n && n <= 0x0D || n == 0x20 || n == 0x85 || n == 0xA0 || n == 0x1680 || 0x2000 <= n && n
        <= 0x200A || n == 0x2028 || n == 0x2029 || n == 0x202F || n == 0x205F || n == 0x3000
}

/// The first place from `i` on without white space.
pub open spec fn dark_start(s: Seq<char>, i: int) -> int
    decreases s.len() - i,
{
    if i >= s.len() || !white_space(s[i]) {
        i
    } else {
        dark_start(s, i + 1)
    }
}

/// The end of `s` from `i` up to `j` without the white space before `j`.
pub open spec fn dark_end(s: Seq<char>, i: int, j: int) -> int
    decreases j - i,
{
    if j <= i || !white_space(s[j - 1]) {
        j
    } else {
        dark_end(s, i, j - 1)
    }
}

/// A text without the white space at its ends.
pub open spec fn trimmed(s: Seq<char>) -> Seq<char> {
    let i = dark_start(s, 0);
    s.subrange(i, dark_end(s, i, s.len() as int))
}

/// A text without the white space at its ends.
pub fn trim(s: &str) -> (r: String)
    ensures
        r@ == trimmed(s@),
{
    let v = chars_of(s);
    let mut i: usize = 0;
    while i < v.len() && is_white_space(v[i])
        invariant
            i <= v.len(),
            v@ == s@,
            dark_start(s@, 0) == dark_start(s@, i as int),
        decreases v.len() - i,
    {
        i += 1;
    }
    let mut j: usize = v.len();
    while j > i && is_white_space(v[j - 1])
        invariant
            i <= j <= v.len(),
            v@ == s@,
            dark_end(s@, i as int, s@.len() as int) == dark_end(s@, i as int, j as int),
        decreases j,
    {
        j -= 1;
    }
    String::from_str(s.substring_char(i, j))
}

} // verus!
