//! Texts as sequences of characters: their lines and their widths.

use vstd::prelude::*;
use vstd::string::StrSliceExecFns;
use vstd::utf8::encode_utf8;

verus! {

/// The texts of some lines.
pub open spec fn texts(lines: Seq<&str>) -> Seq<Seq<char>> {
    lines.map_values(|line: &str| line@)
}

/// The length of a text in bytes, as `str::len` gives it.
pub open spec fn byte_len(text: Seq<char>) -> int {
    encode_utf8(text).len() as usize as int
}

/// The pieces of a text between the characters `separator`. A text without
/// one is one piece, an empty text too.
pub open spec fn pieces_by(s: Seq<char>, separator: char) -> Seq<Seq<char>>
    decreases s.len(),
{
    if s.len() == 0 {
        seq![Seq::empty()]
    } else {
        let before = pieces_by(s.drop_last(), separator);
        if s.last() == separator {
            before.push(Seq::empty())
        } else {
            before.drop_last().push(before.last().push(s.last()))
        }
    }
}

/// The lines of a text: what stands between its line feeds.
pub open spec fn lines_of(s: Seq<char>) -> Seq<Seq<char>> {
    pieces_by(s, '\n')
}

/// The length of the longest of some lines, in characters.
pub open spec fn widest(lines: Seq<Seq<char>>) -> nat
    decreases lines.len(),
{
    if lines.len() == 0 {
        0
    } else {
        let before = widest(lines.drop_last());
        if lines.last().len() > before {
            lines.last().len()
        } else {
            before
        }
    }
}

/// Calls `str::split` with a line feed and collects the pieces. Trusted:
/// the pieces are the substrings between the line feeds, in order, which
/// `lines_of` spells out.
#[verifier::external_body]
pub(crate) fn split_lines<'a>(s: &'a str) -> (lines: Vec<&'a str>)
    ensures
        texts(lines@) == lines_of(s@),
{
    s.split('\n').collect()
}

/// The length of the longest line of `s`, in characters.
pub fn max_line_len(s: &str) -> (len: usize)
    ensures
        len == widest(lines_of(s@)),
{
    let lines = split_lines(s);
    let mut len: usize = 0;
    let mut i: usize = 0;
    while i < lines.len()
        invariant
            i <= lines.len(),
            len == widest(texts(lines@).take(i as int)),
        decreases lines.len() - i,
    {
        let width: usize = lines[i].unicode_len();
        proof {
            let upto = texts(lines@).take(i + 1);
            assert(upto.drop_last() =~= texts(lines@).take(i as int));
            assert(upto.last() == lines@[i as int]@);
        }
        if width > len {
            len = width;
        }
        i += 1;
    }
    proof {
        assert(texts(lines@).take(lines@.len() as int) =~= texts(lines@));
    }
    len
}

/// `n` spaces; none where `n` is not positive.
pub open spec fn blank(n: int) -> Seq<char> {
    if n <= 0 {
        Seq::empty()
    } else {
        Seq::new(n as nat, |i: int| ' ')
    }
}

/// Calls `str::repeat` on one space. Trusted: the result is `n` spaces. std
/// panics where the result would be longer than `isize::MAX` bytes; the
/// precondition leaves those lengths out.
#[verifier::external_body]
pub(crate) fn spaces(n: usize) -> (text: String)
    requires
        n <= isize::MAX,
    ensures
        text@ == blank(n as int),
{
    " ".repeat(n)
}

} // verus!
