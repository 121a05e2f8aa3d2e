//! Cutting a line into pieces of a given width.

use crate::diff::ansi::{
    boundary_at, checked_total, lemma_total_bytes_not_negative, render_padded, rendered,
    sub_string,
    sub_string_fits, sub_string_of, total_bytes, unstyled_len,
};
use crate::diff::render::{span_views, Span, SpanView};
use crate::diff::text::blank;
use vstd::prelude::*;
use vstd::string::StringSliceAdditionalSpecFns;
use vstd::utf8::{encode_utf8_valid_utf8, is_char_boundary};

verus! {

/// The pieces of a string, each `wrap_at` bytes wide but the last, which
/// holds what is left. A string that is empty has one piece, empty too.
pub struct WrappedStrIter<'a> {
    s: &'a str,
    len: usize,
    wrap_at: usize,
    cur_pos: usize,
    output_once: bool,
}

/// Calls the byte-range index of `str`, `&s[from..to]`. Trusted: the piece
/// is the bytes of `s` from `from` up to `to`. std panics where either end
/// is no character boundary of `s` or `from` is behind `to`; the
/// precondition leaves those out.
#[verifier::external_body]
fn byte_range<'a>(s: &'a str, from: usize, to: usize) -> (piece: &'a str)
    requires
        from <= to,
        is_char_boundary(s.spec_bytes(), from as int),
        is_char_boundary(s.spec_bytes(), to as int),
    ensures
        piece.spec_bytes() == s.spec_bytes().subrange(from as int, to as int),
{
    &s[from..to]
}

impl<'a> WrappedStrIter<'a> {
    /// The string that is cut.
    pub closed spec fn text(&self) -> &'a str {
        self.s
    }

    /// The width of a piece, in bytes.
    pub closed spec fn width(&self) -> int {
        self.wrap_at as int
    }

    /// Where the next piece starts, in bytes.
    pub closed spec fn position(&self) -> int {
        self.cur_pos as int
    }

    /// A piece has been handed out.
    pub closed spec fn started(&self) -> bool {
        self.output_once
    }

    /// The length of the string, in bytes.
    pub closed spec fn length(&self) -> int {
        self.len as int
    }

    /// The next piece starts within the string, at a character boundary.
    pub closed spec fn wf(&self) -> bool {
        &&& self.len == self.s.len()
        &&& self.cur_pos <= self.len
        &&& is_char_boundary(self.s.spec_bytes(), self.cur_pos as int)
    }

    /// Nothing is left to hand out.
    pub open spec fn done(&self) -> bool {
        self.started() && self.position() >= self.length()
    }

    /// Where the next piece ends: one width on, or at the end of the string.
    pub open spec fn next_position(&self) -> int {
        if self.position() + self.width() <= self.length() {
            self.position() + self.width()
        } else {
            self.length()
        }
    }

    /// The next piece, if one is left. The piece must end at a character
    /// boundary, and its end must fit in `usize`.
    pub fn next(&mut self) -> (piece: Option<&'a str>)
        requires
            old(self).wf(),
            !old(self).done() ==> old(self).position() + old(self).width() <= usize::MAX,
            !old(self).done() ==> is_char_boundary(
                old(self).text().spec_bytes(),
                old(self).next_position(),
            ),
        ensures
            final(self).wf(),
            final(self).text() == old(self).text(),
            final(self).width() == old(self).width(),
            final(self).length() == old(self).length(),
            old(self).done() ==> piece is None && *final(self) == *old(self),
            !old(self).done() ==> {
                &&& piece is Some
                &&& piece->0.spec_bytes() == old(self).text().spec_bytes().subrange(
                    old(self).position(),
                    old(self).next_position(),
                )
                &&& final(self).position() == old(self).next_position()
                &&& final(self).started()
            },
    {
        if self.output_once && self.cur_pos >= self.len {
            return None;
        }
        self.output_once = true;
        let start_pos: usize = self.cur_pos;
        self.cur_pos = if self.cur_pos + self.wrap_at <= self.len {
            self.cur_pos + self.wrap_at
        } else {
            self.len
        };
        Some(byte_range(self.s, start_pos, self.cur_pos))
    }
}

impl<'a> WrappedStrIter<'a> {
    /// Why the next piece cannot be cut, if there is one and it cannot: its
    /// end does not fit in `usize`, or it would end within a character.
    pub open spec fn failure(&self) -> Option<WrapError> {
        if self.done() {
            None
        } else if self.position() + self.width() > usize::MAX {
            Some(WrapError::TooLong)
        } else if !is_char_boundary(self.text().spec_bytes(), self.next_position()) {
            Some(WrapError::SplitsCharacter)
        } else {
            None
        }
    }

    /// The next piece, if one is left and it can be cut. Where it cannot,
    /// says why and leaves the pieces as they are.
    pub fn try_next(&mut self) -> (piece: Result<Option<&'a str>, WrapError>)
        requires
            old(self).wf(),
        ensures
            final(self).wf(),
            final(self).text() == old(self).text(),
            final(self).width() == old(self).width(),
            final(self).length() == old(self).length(),
            match piece {
                Err(e) => old(self).failure() == Some(e) && *final(self) == *old(self),
                Ok(None) => old(self).done() && *final(self) == *old(self),
                Ok(Some(text)) => {
                    &&& !old(self).done()
                    &&& old(self).failure() is None
                    &&& text.spec_bytes() == old(self).text().spec_bytes().subrange(
                        old(self).position(),
                        old(self).next_position(),
                    )
                    &&& final(self).position() == old(self).next_position()
                    &&& final(self).started()
                },
            },
    {
        if !(self.output_once && self.cur_pos >= self.len) {
            if self.wrap_at > usize::MAX - self.cur_pos {
                return Err(WrapError::TooLong);
            }
            let end: usize = if self.cur_pos + self.wrap_at <= self.len {
                self.cur_pos + self.wrap_at
            } else {
                self.len
            };
            if !self.s.is_char_boundary(end) {
                return Err(WrapError::SplitsCharacter);
            }
        }
        Ok(self.next())
    }
}

/// The pieces of `s`, each `width` bytes wide.
pub fn wrap_str<'a>(s: &'a str, width: usize) -> (pieces: WrappedStrIter<'a>)
    ensures
        pieces.wf(),
        pieces.text() == s,
        pieces.width() == width,
        pieces.position() == 0,
        pieces.length() == s.len(),
        !pieces.started(),
{
    proof {
        encode_utf8_valid_utf8(s@);
    }
    WrappedStrIter { s: s, len: s.len(), wrap_at: width, cur_pos: 0, output_once: false }
}

/// The pieces of a line of styled text, each `wrap_at` bytes of text wide
/// and rendered with its styles. A piece that is shorter is filled up with
/// spaces.
pub struct WrappedANSIStringsIter<'s> {
    s: &'s Vec<Span>,
    unstyled_len: usize,
    wrap_at: usize,
    cur_pos: usize,
    output_once: bool,
}

/// Why a line of styled text cannot be cut into pieces.
#[derive(Debug, PartialEq, Eq, Clone, Copy)]
pub enum WrapError {
    /// The text is longer than `usize` can say.
    TooLong,
    /// A piece would not end where a character starts.
    SplitsCharacter,
    /// A piece would be wider than the width.
    TooWide,
    /// The width is nothing, and the text is not.
    NoWidth,
    /// There are more lines than `usize` can count.
    TooManyLines,
}

/// Where the piece that starts at `position` ends: one width on, or at the
/// end of the text. A text that fits in one piece is handed out whole.
pub open spec fn cut_end(spans: Seq<SpanView>, width: int, position: int) -> int {
    if total_bytes(spans) <= width || position + width > total_bytes(spans) {
        total_bytes(spans)
    } else {
        position + width
    }
}

/// What is cut out for the piece that starts at `position`, of a text that
/// does not fit in one piece: from the start of the piece, as many bytes as
/// lie before its end. From the second piece on that may be more than one
/// width: the second piece of a text of more than two widths is all that
/// is left of it, wider than the width, and cannot be cut.
pub open spec fn cut_spans(spans: Seq<SpanView>, width: int, position: int) -> Seq<SpanView> {
    sub_string_of(position, cut_end(spans, width, position), spans)
}

/// Why the piece that starts at `position` cannot be cut, if it cannot: the
/// width, which every piece is filled up to, is more than a string can
/// hold; the end of the piece does not fit in `usize`; it would be cut
/// where no character starts; or what is cut out is wider than the width.
pub open spec fn cut_failure(spans: Seq<SpanView>, width: int, position: int) -> Option<
    WrapError,
> {
    if width > isize::MAX {
        Some(WrapError::TooLong)
    } else if total_bytes(spans) <= width {
        None
    } else if position + width > usize::MAX || position + cut_end(spans, width, position)
        > usize::MAX {
        Some(WrapError::TooLong)
    } else if !sub_string_fits(position, cut_end(spans, width, position), spans) {
        Some(WrapError::SplitsCharacter)
    } else if total_bytes(cut_spans(spans, width, position)) > width {
        Some(WrapError::TooWide)
    } else {
        None
    }
}

/// What the piece that starts at `position` holds: the whole text where it
/// fits in one piece, else what is cut out, in both cases as `ansi_term`
/// writes it and filled up to the width with spaces.
pub open spec fn cut_piece(spans: Seq<SpanView>, width: int, position: int) -> Seq<char> {
    if total_bytes(spans) <= width {
        rendered(spans) + blank(width - total_bytes(spans))
    } else {
        rendered(cut_spans(spans, width, position)) + blank(
            width - total_bytes(cut_spans(spans, width, position)),
        )
    }
}

impl<'s> WrappedANSIStringsIter<'s> {
    /// The spans that are cut.
    pub closed spec fn spans(&self) -> Seq<SpanView> {
        span_views(self.s@)
    }

    /// The width of a piece, in bytes of text.
    pub closed spec fn width(&self) -> int {
        self.wrap_at as int
    }

    /// Where the next piece starts, in bytes of text.
    pub closed spec fn position(&self) -> int {
        self.cur_pos as int
    }

    /// A piece has been handed out.
    pub closed spec fn started(&self) -> bool {
        self.output_once
    }

    /// The length of the text, in bytes.
    pub closed spec fn wf(&self) -> bool {
        &&& self.unstyled_len == total_bytes(span_views(self.s@))
        &&& self.cur_pos <= self.unstyled_len
    }

    /// The length of the text of the spans, in bytes.
    pub open spec fn length(&self) -> int {
        total_bytes(self.spans())
    }

    /// Nothing is left to hand out.
    pub open spec fn done(&self) -> bool {
        self.started() && self.position() >= self.length()
    }

    /// The whole text fits in one piece.
    pub open spec fn fits(&self) -> bool {
        self.length() <= self.width()
    }

    /// Where the next piece ends.
    pub open spec fn next_position(&self) -> int {
        cut_end(self.spans(), self.width(), self.position())
    }

    /// Why the next piece cannot be cut, if there is one and it cannot.
    pub open spec fn failure(&self) -> Option<WrapError> {
        if self.done() {
            None
        } else {
            cut_failure(self.spans(), self.width(), self.position())
        }
    }

    /// What the next piece holds, where there is one and it can be cut.
    pub open spec fn next_piece(&self) -> Seq<char> {
        cut_piece(self.spans(), self.width(), self.position())
    }

    /// The next piece starts within the text, and the text is no longer
    /// than `usize` can say.
    pub proof fn lemma_position_in_text(&self)
        requires
            self.wf(),
        ensures
            0 <= self.position() <= self.length() <= usize::MAX,
    {
    }

    /// Whether there is no text to cut.
    pub fn is_empty(&self) -> (empty: bool)
        requires
            self.wf(),
        ensures
            empty == (self.length() == 0),
    {
        self.unstyled_len == 0
    }

    /// The next piece, if one is left. A text that fits in one piece is
    /// handed out whole.
    pub fn next(&mut self) -> (piece: Option<String>)
        requires
            old(self).wf(),
            old(self).failure() is None,
        ensures
            final(self).wf(),
            final(self).spans() == old(self).spans(),
            final(self).width() == old(self).width(),
            old(self).done() ==> piece is None && *final(self) == *old(self),
            !old(self).done() ==> {
                &&& piece is Some
                &&& piece->0@ == old(self).next_piece()
                &&& final(self).position() == old(self).next_position()
                &&& final(self).started()
            },
    {
        if self.output_once && self.cur_pos >= self.unstyled_len {
            return None;
        }
        self.output_once = true;
        let start_pos: usize = self.cur_pos;
        if self.unstyled_len <= self.wrap_at {
            self.cur_pos = self.unstyled_len;
            let padding_required: usize = self.wrap_at - self.unstyled_len;
            Some(render_padded(self.s, padding_required))
        } else {
            self.cur_pos = if self.cur_pos + self.wrap_at <= self.unstyled_len {
                self.cur_pos + self.wrap_at
            } else {
                self.unstyled_len
            };
            let split = sub_string(start_pos, self.cur_pos, self.s);
            proof {
                lemma_total_bytes_not_negative(span_views(split@));
            }
            let padding_required: usize = self.wrap_at - unstyled_len(&split);
            Some(render_padded(&split, padding_required))
        }
    }

    /// The next piece, if one is left and it can be cut. Where it cannot,
    /// says why and leaves the pieces as they are.
    pub fn try_next(&mut self) -> (piece: Result<Option<String>, WrapError>)
        requires
            old(self).wf(),
        ensures
            final(self).wf(),
            final(self).spans() == old(self).spans(),
            final(self).width() == old(self).width(),
            match piece {
                Err(e) => old(self).failure() == Some(e) && *final(self) == *old(self),
                Ok(None) => old(self).done() && *final(self) == *old(self),
                Ok(Some(text)) => {
                    &&& !old(self).done()
                    &&& old(self).failure() is None
                    &&& text@ == old(self).next_piece()
                    &&& final(self).position() == old(self).next_position()
                    &&& final(self).started()
                },
            },
    {
        if !(self.output_once && self.cur_pos >= self.unstyled_len) && self.wrap_at
            > isize::MAX as usize {
            return Err(WrapError::TooLong);
        }
        if !(self.output_once && self.cur_pos >= self.unstyled_len) && self.unstyled_len
            > self.wrap_at {
            if self.wrap_at > usize::MAX - self.cur_pos {
                return Err(WrapError::TooLong);
            }
            let end: usize = if self.cur_pos + self.wrap_at <= self.unstyled_len {
                self.cur_pos + self.wrap_at
            } else {
                self.unstyled_len
            };
            if end > usize::MAX - self.cur_pos {
                return Err(WrapError::TooLong);
            }
            if self.cur_pos < self.unstyled_len && !boundary_at(self.s, self.cur_pos) {
                return Err(WrapError::SplitsCharacter);
            }
            if self.cur_pos + end < self.unstyled_len && !boundary_at(self.s, self.cur_pos + end) {
                return Err(WrapError::SplitsCharacter);
            }
            let split = sub_string(self.cur_pos, end, self.s);
            match checked_total(&split) {
                None => {
                    return Err(WrapError::TooWide);
                },
                Some(width) => {
                    if width > self.wrap_at {
                        return Err(WrapError::TooWide);
                    }
                },
            }
        }
        Ok(self.next())
    }
}

/// The pieces of the spans, each `width` bytes of text wide.
pub fn wrap_ansistrings<'s>(s: &'s Vec<Span>, width: usize) -> (pieces: WrappedANSIStringsIter<'s>)
    requires
        total_bytes(span_views(s@)) <= usize::MAX,
    ensures
        pieces.wf(),
        pieces.spans() == span_views(s@),
        pieces.width() == width,
        pieces.position() == 0,
        !pieces.started(),
{
    WrappedANSIStringsIter {
        s: s,
        unstyled_len: unstyled_len(s),
        wrap_at: width,
        cur_pos: 0,
        output_once: false,
    }
}

/// The pieces of the spans, each `width` bytes of text wide, unless the
/// text is longer than `usize` can say.
pub fn try_wrap_ansistrings<'s>(s: &'s Vec<Span>, width: usize) -> (pieces: Option<
    WrappedANSIStringsIter<'s>,
>)
    ensures
        match pieces {
            Some(p) => {
                &&& total_bytes(span_views(s@)) <= usize::MAX
                &&& p.wf()
                &&& p.spans() == span_views(s@)
                &&& p.width() == width
                &&& p.position() == 0
                &&& !p.started()
            },
            None => total_bytes(span_views(s@)) > usize::MAX,
        },
{
    match checked_total(s) {
        None => None,
        Some(_) => Some(wrap_ansistrings(s, width)),
    }
}

} // verus!
