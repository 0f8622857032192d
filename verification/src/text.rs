//! Text held as bytes.

use crate::bytes::{copy_range, find_byte, lemma_views_push, span_end, views};
use vstd::prelude::*;
use vstd::string::*;

verus! {

/// The bytes of a text of ASCII characters.
pub open spec fn ascii(s: Seq<char>) -> Seq<u8> {
    Seq::new(s.len(), |i: int| s[i] as u8)
}

/// The bytes of a text; for a text of ASCII characters they are its
/// characters.
pub fn ascii_bytes(s: &str) -> (r: &[u8])
    ensures
        r@ == s.spec_bytes(),
        is_ascii(s) ==> r@ == ascii(s@),
{
    broadcast use is_ascii_spec_bytes;

    s.as_bytes()
}

/// The byte that ends a line.
pub const NEWLINE: u8 = 0x0a;

/// The byte that may stand before the end of a line and is then not part of
/// the line.
pub const RETURN: u8 = 0x0d;

/// A line without the carriage return at its end, if it has one.
pub open spec fn without_return(line: Seq<u8>) -> Seq<u8> {
    if line.len() > 0 && line.last() == RETURN {
        line.drop_last()
    } else {
        line
    }
}

/// The lines of `text` from index `i` on. A line ends at a newline, which is
/// not part of it, nor is a carriage return before that newline. What
/// follows the last newline is a line if it is not empty.
pub open spec fn lines_from(text: Seq<u8>, i: int) -> Seq<Seq<u8>>
    decreases text.len() - i,
{
    if i < 0 || i >= text.len() {
        seq![]
    } else {
        let j = span_end(text, i, NEWLINE);
        if j < i || j > text.len() {
            seq![]
        } else if j < text.len() {
            seq![without_return(text.subrange(i, j))] + lines_from(text, j + 1)
        } else {
            seq![text.subrange(i, j)]
        }
    }
}

/// The lines of a text.
pub open spec fn lines_spec(text: Seq<u8>) -> Seq<Seq<u8>> {
    lines_from(text, 0)
}

/// Splits a text into its lines.
pub fn lines(text: &[u8]) -> (out: Vec<Vec<u8>>)
    ensures
        views(out@) == lines_spec(text@),
{
    let mut out: Vec<Vec<u8>> = Vec::new();
    let mut i: usize = 0;
    proof {
        assert(views(out@) =~= Seq::<Seq<u8>>::empty());
    }
    while i < text.len()
        invariant
            i <= text.len(),
            lines_spec(text@) == views(out@) + lines_from(text@, i as int),
        decreases text.len() - i,
    {
        let j = find_byte(text, i, NEWLINE);
        let ghost before = views(out@);
        if j < text.len() {
            let end = if j > i && text[j - 1] == RETURN {
                j - 1
            } else {
                j
            };
            let line = copy_range(text, i, end);
            proof {
                assert(line@ =~= without_return(text@.subrange(i as int, j as int)));
                lemma_views_push(out@, line);
                assert(before.push(line@) + lines_from(text@, j + 1) =~= before + (seq![line@]
                    + lines_from(text@, j + 1)));
            }
            out.push(line);
            i = j + 1;
        } else {
            let line = copy_range(text, i, j);
            proof {
                lemma_views_push(out@, line);
                assert(before.push(line@) + lines_from(text@, j as int) =~= before + seq![line@]);
            }
            out.push(line);
            i = j;
        }
    }
    proof {
        assert(views(out@) + Seq::<Seq<u8>>::empty() =~= views(out@));
    }
    out
}

/// Whether the byte is one of the white-space characters of ASCII: tab, line
/// feed, vertical tab, form feed, carriage return or space.
pub open spec fn is_space1(a: u8) -> bool {
    (0x09 <= a <= 0x0d) || a == 0x20
}

/// Whether the two bytes are a white-space character in UTF-8: U+0085 or
/// U+00A0.
pub open spec fn is_space2(a: u8, b: u8) -> bool {
    a == 0xc2 && (b == 0x85 || b == 0xa0)
}

/// Whether the three bytes are a white-space character in UTF-8: U+1680,
/// U+2000 to U+200A, U+2028, U+2029, U+202F, U+205F or U+3000.
pub open spec fn is_space3(a: u8, b: u8, c: u8) -> bool {
    ||| a == 0xe1 && b == 0x9a && c == 0x80
    ||| a == 0xe2 && b == 0x80 && ((0x80 <= c <= 0x8a) || c == 0xa8 || c == 0xa9 || c == 0xaf)
    ||| a == 0xe2 && b == 0x81 && c == 0x9f
    ||| a == 0xe3 && b == 0x80 && c == 0x80
}

/// The length in bytes of the white-space character that begins at index
/// `i` of `s`; 0 if none does.
pub open spec fn space_at(s: Seq<u8>, i: int) -> int {
    if 0 <= i < s.len() && is_space1(s[i]) {
        1
    } else if 0 <= i && i + 1 < s.len() && is_space2(s[i], s[i + 1]) {
        2
    } else if 0 <= i && i + 2 < s.len() && is_space3(s[i], s[i + 1], s[i + 2]) {
        3
    } else {
        0
    }
}

/// The length in bytes of the white-space character that ends before index
/// `end` of `s` and begins at `lo` or later; 0 if none does.
pub open spec fn space_before(s: Seq<u8>, lo: int, end: int) -> int {
    if 0 <= lo <= end - 1 && end <= s.len() && is_space1(s[end - 1]) {
        1
    } else if 0 <= lo <= end - 2 && end <= s.len() && is_space2(s[end - 2], s[end - 1]) {
        2
    } else if 0 <= lo <= end - 3 && end <= s.len() && is_space3(
        s[end - 3],
        s[end - 2],
        s[end - 1],
    ) {
        3
    } else {
        0
    }
}

/// The index of the first byte of `s` at or after `i` that is not part of
/// white space.
pub open spec fn space_end(s: Seq<u8>, i: int) -> int
    decreases s.len() - i,
{
    if space_at(s, i) > 0 {
        space_end(s, i + space_at(s, i))
    } else {
        i
    }
}

/// The index after the last byte of `s` before `end` that is not part of
/// white space, looking no further back than `lo`.
pub open spec fn space_start(s: Seq<u8>, lo: int, end: int) -> int
    decreases end,
{
    if space_before(s, lo, end) > 0 {
        space_start(s, lo, end - space_before(s, lo, end))
    } else {
        end
    }
}

/// The white space at the beginning of a text ends within the text.
pub proof fn lemma_space_end_bounds(s: Seq<u8>, i: int)
    requires
        0 <= i <= s.len(),
    ensures
        i <= space_end(s, i) <= s.len(),
    decreases s.len() - i,
{
    if space_at(s, i) > 0 {
        lemma_space_end_bounds(s, i + space_at(s, i));
    }
}

/// The white space at the end of a text begins within the part of the text
/// that is looked at.
pub proof fn lemma_space_start_bounds(s: Seq<u8>, lo: int, end: int)
    requires
        0 <= lo <= end <= s.len(),
    ensures
        lo <= space_start(s, lo, end) <= end,
    decreases end,
{
    if space_before(s, lo, end) > 0 {
        lemma_space_start_bounds(s, lo, end - space_before(s, lo, end));
    }
}

/// The text without the white space at its beginning and at its end.
pub open spec fn trimmed(s: Seq<u8>) -> Seq<u8> {
    let from = space_end(s, 0);
    s.subrange(from, space_start(s, from, s.len() as int))
}

/// The length of the white-space character that begins at index `i`.
fn space_len_at(s: &[u8], i: usize) -> (n: usize)
    requires
        i <= s.len(),
    ensures
        n == space_at(s@, i as int),
        i + n <= s.len(),
{
    let left = s.len() - i;
    if left >= 1 && ((0x09 <= s[i] && s[i] <= 0x0d) || s[i] == 0x20) {
        1
    } else if left >= 2 && s[i] == 0xc2 && (s[i + 1] == 0x85 || s[i + 1] == 0xa0) {
        2
    } else if left >= 3 && wide_space(s[i], s[i + 1], s[i + 2]) {
        3
    } else {
        0
    }
}

/// The length of the white-space character that ends before index `end`
/// and begins at `lo` or later.
fn space_len_before(s: &[u8], lo: usize, end: usize) -> (n: usize)
    requires
        lo <= end <= s.len(),
    ensures
        n == space_before(s@, lo as int, end as int),
        lo + n <= end,
{
    let left = end - lo;
    if left >= 1 && ((0x09 <= s[end - 1] && s[end - 1] <= 0x0d) || s[end - 1] == 0x20) {
        1
    } else if left >= 2 && s[end - 2] == 0xc2 && (s[end - 1] == 0x85 || s[end - 1] == 0xa0) {
        2
    } else if left >= 3 && wide_space(s[end - 3], s[end - 2], s[end - 1]) {
        3
    } else {
        0
    }
}

/// Whether the three bytes are a white-space character in UTF-8.
fn wide_space(a: u8, b: u8, c: u8) -> (r: bool)
    ensures
        r == is_space3(a, b, c),
{
    (a == 0xe1 && b == 0x9a && c == 0x80) || (a == 0xe2 && b == 0x80 && ((0x80 <= c && c <= 0x8a)
        || c == 0xa8 || c == 0xa9 || c == 0xaf)) || (a == 0xe2 && b == 0x81 && c == 0x9f) || (a
        == 0xe3 && b == 0x80 && c == 0x80)
}

/// The text without the white space at its beginning and at its end.
pub fn trim(s: &[u8]) -> (r: Vec<u8>)
    ensures
        r@ == trimmed(s@),
{
    let mut from: usize = 0;
    loop
        invariant
            from <= s.len(),
            space_end(s@, 0) == space_end(s@, from as int),
        ensures
            from <= s.len(),
            from == space_end(s@, 0),
        decreases s.len() - from,
    {
        let n = space_len_at(s, from);
        if n == 0 {
            break;
        }
        from += n;
    }
    let mut to: usize = s.len();
    loop
        invariant
            from <= to <= s.len(),
            space_start(s@, from as int, s.len() as int) == space_start(
                s@,
                from as int,
                to as int,
            ),
        ensures
            from <= to <= s.len(),
            to == space_start(s@, from as int, s.len() as int),
        decreases to,
    {
        let n = space_len_before(s, from, to);
        if n == 0 {
            break;
        }
        to -= n;
    }
    copy_range(s, from, to)
}

} // verus!
