//! Styled text as the `ansi_term` crate cuts, measures and renders it.

use crate::diff::render::{span_views, Span, SpanView};
use crate::diff::text::{blank, byte_len, spaces};
use ansi_term::{ANSIString, ANSIStrings};
use std::ops::Deref;
use vstd::prelude::*;
use vstd::string::StringExecFns;
use vstd::utf8::{encode_utf8, is_char_boundary};

verus! {

/// The length of the text of some spans, in bytes.
pub open spec fn total_bytes(spans: Seq<SpanView>) -> int
    decreases spans.len(),
{
    if spans.len() == 0 {
        0
    } else {
        total_bytes(spans.drop_last()) + byte_len(spans.last().text)
    }
}

/// Byte `index` of the text of the spans is where a character starts, or
/// the end of the text.
pub open spec fn cut_ok(spans: Seq<SpanView>, index: int) -> bool
    decreases spans.len(),
{
    if spans.len() == 0 {
        index == 0
    } else if index <= byte_len(spans[0].text) {
        is_char_boundary(encode_utf8(spans[0].text), index)
    } else {
        cut_ok(spans.drop_first(), index - byte_len(spans[0].text))
    }
}

/// `ansi_term::sub_string` can cut `len` bytes from byte `start` of the
/// text of the spans: it cuts where characters start, and the end of the
/// cut fits in `usize`.
pub open spec fn sub_string_fits(start: int, len: int, spans: Seq<SpanView>) -> bool {
    &&& start + len <= usize::MAX
    &&& start < total_bytes(spans) ==> cut_ok(spans, start)
    &&& start + len < total_bytes(spans) ==> cut_ok(spans, start + len)
}

/// The spans that `ansi_term::sub_string` cuts out of the given spans: the
/// text from byte `start` on, `len` bytes long or up to the end, each part
/// in the style that it had.
pub uninterp spec fn sub_string_of(start: int, len: int, spans: Seq<SpanView>) -> Seq<SpanView>;

/// The text that `ansi_term` writes for the spans, with the escape
/// sequences of their styles.
pub uninterp spec fn rendered(spans: Seq<SpanView>) -> Seq<char>;

/// Calls `ansi_term::unstyled_len` on the spans. Trusted: the result is the
/// sum of the lengths of their texts, in bytes. The crate adds them up in a
/// `usize`; the precondition leaves out the spans whose sum does not fit.
#[verifier::external_body]
pub(crate) fn unstyled_len(spans: &Vec<Span>) -> (len: usize)
    requires
        total_bytes(span_views(spans@)) <= usize::MAX,
    ensures
        len == total_bytes(span_views(spans@)),
{
    let strings: Vec<ANSIString> = spans.iter().map(|s| s.style.paint(s.text.as_str())).collect();
    ansi_term::unstyled_len(&ANSIStrings(&strings))
}

/// Calls `ansi_term::sub_string` on the spans. Trusted: the result is what
/// that function cuts out, which `sub_string_of` names. The crate slices
/// the text by bytes and panics where a slice does not end where a
/// character starts; the precondition leaves those cuts out.
#[verifier::external_body]
pub(crate) fn sub_string(start: usize, len: usize, spans: &Vec<Span>) -> (cut: Vec<Span>)
    requires
        sub_string_fits(start as int, len as int, span_views(spans@)),
    ensures
        span_views(cut@) == sub_string_of(start as int, len as int, span_views(spans@)),
{
    let strings: Vec<ANSIString> = spans.iter().map(|s| s.style.paint(s.text.as_str())).collect();
    ansi_term::sub_string(start, len, &ANSIStrings(&strings)).iter().map(
        |a| Span { style: *a.style_ref(), text: a.deref().to_string() },
    ).collect()
}

/// Writes the spans as `ansi_term::ANSIStrings` displays them. Trusted: the
/// result is the text that the crate writes for these spans, which
/// `rendered` names.
#[verifier::external_body]
pub(crate) fn render(spans: &Vec<Span>) -> (text: String)
    ensures
        text@ == rendered(span_views(spans@)),
{
    let strings: Vec<ANSIString> = spans.iter().map(|s| s.style.paint(s.text.as_str())).collect();
    format!("{}", ANSIStrings(&strings))
}

/// The spans as `ansi_term` writes them, and `padding` spaces behind them.
pub fn render_padded(spans: &Vec<Span>, padding: usize) -> (text: String)
    requires
        padding <= isize::MAX,
    ensures
        text@ == rendered(span_views(spans@)) + blank(padding as int),
{
    let mut text = render(spans);
    let fill = spaces(padding);
    text.append(fill.as_str());
    text
}

/// The length of the text of the spans in bytes, if it fits in `usize`.
pub fn checked_total(spans: &Vec<Span>) -> (total: Option<usize>)
    ensures
        match total {
            Some(n) => n == total_bytes(span_views(spans@)),
            None => total_bytes(span_views(spans@)) > usize::MAX,
        },
{
    let ghost all = span_views(spans@);
    let mut total: usize = 0;
    let mut i: usize = 0;
    proof {
        assert(all.take(0) =~= Seq::<SpanView>::empty());
    }
    while i < spans.len()
        invariant
            i <= spans.len(),
            all == span_views(spans@),
            total == total_bytes(all.take(i as int)),
        decreases spans.len() - i,
    {
        proof {
            assert(all.take(i + 1).drop_last() =~= all.take(i as int));
            assert(all.take(i + 1).last() == spans@[i as int]@);
        }
        let len: usize = spans[i].text.as_str().len();
        if len > usize::MAX - total {
            proof {
                lemma_total_bytes_grows(all, i + 1);
            }
            return None;
        }
        total = total + len;
        i += 1;
    }
    proof {
        assert(all.take(all.len() as int) =~= all);
    }
    Some(total)
}

/// The text of the first spans is no longer than the text of all.
pub proof fn lemma_total_bytes_grows(spans: Seq<SpanView>, n: int)
    requires
        0 <= n <= spans.len(),
    ensures
        0 <= total_bytes(spans.take(n)) <= total_bytes(spans),
    decreases spans.len() - n,
{
    lemma_total_bytes_not_negative(spans.take(n));
    if n < spans.len() {
        lemma_total_bytes_grows(spans, n + 1);
        assert(spans.take(n + 1).drop_last() =~= spans.take(n));
    } else {
        assert(spans.take(n) =~= spans);
    }
}

/// No text is shorter than nothing.
pub proof fn lemma_total_bytes_not_negative(spans: Seq<SpanView>)
    ensures
        0 <= total_bytes(spans),
    decreases spans.len(),
{
    if spans.len() > 0 {
        lemma_total_bytes_not_negative(spans.drop_last());
    }
}

/// Whether byte `index` of the text of the spans is where a character
/// starts, or the end of the text.
pub fn boundary_at(spans: &Vec<Span>, index: usize) -> (ok: bool)
    ensures
        ok == cut_ok(span_views(spans@), index as int),
{
    let ghost all = span_views(spans@);
    let mut rest: usize = index;
    let mut i: usize = 0;
    proof {
        assert(all.skip(0) =~= all);
    }
    while i < spans.len()
        invariant
            i <= spans.len(),
            all == span_views(spans@),
            cut_ok(all, index as int) == cut_ok(all.skip(i as int), rest as int),
        decreases spans.len() - i,
    {
        proof {
            assert(all.skip(i as int)[0] == spans@[i as int]@);
            assert(all.skip(i as int).drop_first() =~= all.skip(i + 1));
        }
        let text = spans[i].text.as_str();
        let len: usize = text.len();
        if rest <= len {
            return text.is_char_boundary(rest);
        }
        rest = rest - len;
        i += 1;
    }
    rest == 0
}

} // verus!
