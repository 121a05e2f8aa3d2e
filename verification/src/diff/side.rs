//! The side-by-side view: the before-text in one column, the after-text in
//! the other, each line behind its number and cut to the width of its
//! column.

use crate::diff::align::{align, line_costs, line_grid, lines_fit, pair_costs};
use crate::diff::ansi::total_bytes;
use crate::diff::changeset::{changeset_fits, changeset_of};
use crate::diff::path::{alignment_entries, entries_over, lemma_entries_in_lines};
use crate::diff::render::{
    paint, segment_fits, segments_can_align, span_views, style_diff_line, styled_after,
    styled_before, DiffStyling, Span, SpanView,
};
use crate::diff::text::{blank, lines_of, spaces, split_lines, texts};
use crate::diff::{calc_max_line_width, classified, diff_views, max_line_widths, Diff, DiffView};
use crate::diff::wrap::{
    cut_end, cut_failure, cut_piece, try_wrap_ansistrings, WrapError,
};
use itertools::{EitherOrBoth, Itertools};
use vstd::prelude::*;

verus! {

/// The greatest width that a number can be formatted to: `u16::MAX`, the
/// greatest width that std takes at run time.
pub const MAX_NUMBER_WIDTH: usize = 0xffff;

/// One row of the side-by-side view: for each column a margin and a piece
/// of a line, rendered and as wide as the column.
#[derive(Debug, PartialEq)]
pub struct Row {
    pub margin_l: Span,
    pub left: String,
    pub margin_r: Span,
    pub right: String,
}

/// What a `Row` holds, as characters.
pub struct RowView {
    pub margin_l: SpanView,
    pub left: Seq<char>,
    pub margin_r: SpanView,
    pub right: Seq<char>,
}

impl View for Row {
    type V = RowView;

    open spec fn view(&self) -> RowView {
        RowView {
            margin_l: self.margin_l@,
            left: self.left@,
            margin_r: self.margin_r@,
            right: self.right@,
        }
    }
}

/// The rows, as characters.
pub open spec fn row_views(rows: Seq<Row>) -> Seq<RowView> {
    rows.map_values(|r: Row| r@)
}

/// The strings, as characters.
pub open spec fn string_views(strings: Seq<String>) -> Seq<Seq<char>> {
    strings.map_values(|s: String| s@)
}

/// The decimal digits of `n`.
pub open spec fn digits(n: nat) -> Seq<char>
    decreases n,
{
    if n < 10 {
        seq![(48 + n) as u8 as char]
    } else {
        digits(n / 10).push((48 + n % 10) as u8 as char)
    }
}

/// The margin that holds line number `n`: its digits, filled up from the
/// left with spaces to `width` characters where they are fewer, and a
/// colon.
pub open spec fn number_margin(n: nat, width: int) -> Seq<char> {
    (blank(width - digits(n).len()) + digits(n)).push(':')
}

/// Formats `n` with `{:w$}:`. Trusted: the result is the decimal digits of
/// `n`, right-aligned in `width` characters where they are fewer, and a
/// colon. std panics where a width given at run time is above `u16::MAX`;
/// the precondition leaves those widths out.
#[verifier::external_body]
pub(crate) fn number_text(n: usize, width: usize) -> (text: String)
    requires
        width <= MAX_NUMBER_WIDTH,
    ensures
        text@ == number_margin(n as nat, width as int),
{
    format!("{:w$}:", n, w = width)
}

/// Calls `itertools::Itertools::zip_longest` on the two vectors. Trusted:
/// the result pairs the items by position and goes on, with the longer
/// vector alone, until both are used up.
#[verifier::external_body]
pub(crate) fn zip_longest(left: Vec<String>, right: Vec<String>) -> (pairs: Vec<
    (Option<String>, Option<String>),
>)
    ensures
        pairs@.len() == if left@.len() > right@.len() {
            left@.len()
        } else {
            right@.len()
        },
        forall|i: int|
            0 <= i < pairs@.len() ==> (#[trigger] pairs@[i]).0 == (if i < left@.len() {
                Some(left@[i])
            } else {
                None
            }) && pairs@[i].1 == (if i < right@.len() {
                Some(right@[i])
            } else {
                None
            }),
{
    left.into_iter().zip_longest(right).map(
        |pair| match pair {
            EitherOrBoth::Both(l, r) => (Some(l), Some(r)),
            EitherOrBoth::Left(l) => (Some(l), None),
            EitherOrBoth::Right(r) => (None, Some(r)),
        },
    ).collect()
}

/// `rest` behind `done`, or the failure of `rest`.
pub open spec fn behind<T>(done: Seq<T>, rest: Result<Seq<T>, WrapError>) -> Result<
    Seq<T>,
    WrapError,
> {
    match rest {
        Ok(r) => Ok(done + r),
        Err(e) => Err(e),
    }
}

/// The pieces that are handed out from `position` on, or why one of them
/// cannot be cut.
pub open spec fn pieces_from(spans: Seq<SpanView>, width: int, position: int, started: bool) -> Result<
    Seq<Seq<char>>,
    WrapError,
>
    decreases total_bytes(spans) - position, (if started {
        0int
    } else {
        1int
    }),
    when (width > 0 || total_bytes(spans) <= width) && 0 <= position <= total_bytes(spans)
{
    if started && position >= total_bytes(spans) {
        Ok(Seq::empty())
    } else {
        match cut_failure(spans, width, position) {
            Some(e) => Err(e),
            None => behind(
                seq![cut_piece(spans, width, position)],
                pieces_from(spans, width, cut_end(spans, width, position), true),
            ),
        }
    }
}

/// The pieces that a line of styled text is cut into, each rendered and as
/// wide as `width`, or why it cannot be cut.
pub open spec fn pieces_of(spans: Seq<SpanView>, width: int) -> Result<Seq<Seq<char>>, WrapError> {
    if total_bytes(spans) > usize::MAX {
        Err(WrapError::TooLong)
    } else if width == 0 && total_bytes(spans) > 0 {
        Err(WrapError::NoWidth)
    } else {
        pieces_from(spans, width, 0, false)
    }
}

/// The pieces that a line of styled text is cut into, each rendered and as
/// wide as `width`.
pub fn wrapped_pieces(spans: &Vec<Span>, width: usize) -> (pieces: Result<Vec<String>, WrapError>)
    ensures
        match pieces {
            Ok(p) => width <= isize::MAX && pieces_of(span_views(spans@), width as int) == Ok::<
                Seq<Seq<char>>,
                WrapError,
            >(string_views(p@)),
            Err(e) => pieces_of(span_views(spans@), width as int) == Err::<
                Seq<Seq<char>>,
                WrapError,
            >(e),
        },
{
    let ghost sv = span_views(spans@);
    let mut it = match try_wrap_ansistrings(spans, width) {
        None => {
            return Err(WrapError::TooLong);
        },
        Some(it) => it,
    };
    proof {
        it.lemma_position_in_text();
    }
    if width == 0 && !it.is_empty() {
        return Err(WrapError::NoWidth);
    }
    let mut out: Vec<String> = Vec::new();
    let ghost whole = pieces_from(sv, width as int, 0, false);
    proof {
        assert(behind(string_views(out@), whole) == whole) by {
            match whole {
                Ok(r) => {
                    assert(string_views(out@) + r =~= r);
                },
                Err(_) => {},
            }
        }
    }
    loop
        invariant
            it.wf(),
            sv == span_views(spans@),
            it.spans() == sv,
            it.width() == width,
            0 <= it.position() <= total_bytes(sv),
            width > 0 || total_bytes(sv) <= width,
            pieces_of(sv, width as int) == whole,
            whole == behind(
                string_views(out@),
                pieces_from(sv, width as int, it.position(), it.started()),
            ),
        ensures
            pieces_of(sv, width as int) == Ok::<Seq<Seq<char>>, WrapError>(string_views(out@)),
        decreases total_bytes(sv) - it.position(), (if it.started() {
            0int
        } else {
            1int
        }),
    {
        let ghost done = string_views(out@);
        let ghost position = it.position();
        let ghost started = it.started();
        let next = it.try_next();
        proof {
            it.lemma_position_in_text();
        }
        match next {
            Err(e) => {
                proof {
                    assert(cut_failure(sv, width as int, position) == Some(e));
                    assert(!(started && position >= total_bytes(sv)));
                    assert(pieces_from(sv, width as int, position, started) == Err::<
                        Seq<Seq<char>>,
                        WrapError,
                    >(e));
                }
                return Err(e);
            },
            Ok(None) => {
                proof {
                    assert(done + Seq::<Seq<char>>::empty() =~= done);
                }
                break ;
            },
            Ok(Some(text)) => {
                out.push(text);
                proof {
                    let rest = pieces_from(sv, width as int, it.position(), true);
                    assert(string_views(out@) =~= done.push(text@));
                    match rest {
                        Ok(r) => {
                            assert(done + (seq![text@] + r) =~= done.push(text@) + r);
                        },
                        Err(_) => {},
                    }
                }
            },
        }
    }
    Ok(out)
}

/// The rows that one line is shown in: as many as the longer of its two
/// sides has pieces. The first row has the line numbers in its margins, the
/// others the margins of a line that goes on. Where one side has no piece
/// left, its column is blank.
pub open spec fn rows_of(
    lineno_l: SpanView,
    lineno_r: SpanView,
    wrapno_l: SpanView,
    wrapno_r: SpanView,
    pieces_l: Seq<Seq<char>>,
    pieces_r: Seq<Seq<char>>,
    line_width: (int, int),
) -> Seq<RowView> {
    Seq::new(
        if pieces_l.len() > pieces_r.len() {
            pieces_l.len()
        } else {
            pieces_r.len()
        },
        |i: int|
            RowView {
                margin_l: if i == 0 {
                    lineno_l
                } else {
                    wrapno_l
                },
                left: if i < pieces_l.len() {
                    pieces_l[i]
                } else {
                    blank(line_width.0)
                },
                margin_r: if i == 0 {
                    lineno_r
                } else {
                    wrapno_r
                },
                right: if i < pieces_r.len() {
                    pieces_r[i]
                } else {
                    blank(line_width.1)
                },
            },
    )
}

/// The rows that one line is shown in, given the spans of its two sides, or
/// why one of the sides cannot be cut.
pub open spec fn line_rows(
    lineno_l: SpanView,
    lineno_r: SpanView,
    wrapno_l: SpanView,
    wrapno_r: SpanView,
    line_l: Seq<SpanView>,
    line_r: Seq<SpanView>,
    line_width: (int, int),
) -> Result<Seq<RowView>, WrapError> {
    match pieces_of(line_l, line_width.0) {
        Err(e) => Err(e),
        Ok(pieces_l) => match pieces_of(line_r, line_width.1) {
            Err(e) => Err(e),
            Ok(pieces_r) => Ok(
                rows_of(lineno_l, lineno_r, wrapno_l, wrapno_r, pieces_l, pieces_r, line_width),
            ),
        },
    }
}

/// A span with the same style and text.
pub fn copy_span(span: &Span) -> (copy: Span)
    ensures
        copy@ == span@,
{
    Span { style: span.style, text: span.text.clone() }
}

/// Appends the rows that one line is shown in, unless one of its sides
/// cannot be cut.
pub fn side_by_side_line(
    lineno_l: &Span,
    lineno_r: &Span,
    wrapno_l: &Span,
    wrapno_r: &Span,
    line_l: &Vec<Span>,
    line_r: &Vec<Span>,
    line_width: (usize, usize),
    rows: &mut Vec<Row>,
) -> (done: Result<(), WrapError>)
    ensures
        behind(
            row_views(old(rows)@),
            line_rows(
                lineno_l@,
                lineno_r@,
                wrapno_l@,
                wrapno_r@,
                span_views(line_l@),
                span_views(line_r@),
                (line_width.0 as int, line_width.1 as int),
            ),
        ) == match done {
            Ok(_) => Ok::<Seq<RowView>, WrapError>(row_views(final(rows)@)),
            Err(e) => Err::<Seq<RowView>, WrapError>(e),
        },
        done is Err ==> final(rows)@ == old(rows)@,
{
    let ghost before = row_views(rows@);
    let ghost widths = (line_width.0 as int, line_width.1 as int);
    let pieces_l = match wrapped_pieces(line_l, line_width.0) {
        Err(e) => {
            return Err(e);
        },
        Ok(p) => p,
    };
    let pieces_r = match wrapped_pieces(line_r, line_width.1) {
        Err(e) => {
            return Err(e);
        },
        Ok(p) => p,
    };
    let ghost pl = string_views(pieces_l@);
    let ghost pr = string_views(pieces_r@);
    let ghost left = pieces_l@;
    let ghost right = pieces_r@;
    let ghost all = rows_of(lineno_l@, lineno_r@, wrapno_l@, wrapno_r@, pl, pr, widths);
    let zipped = zip_longest(pieces_l, pieces_r);
    let mut first_iteration = true;
    proof {
        assert(before + all.take(0) =~= before);
    }
    for pair in iter: zipped
        invariant
            iter.seq() == zipped@,
            zipped@.len() == all.len(),
            pl == string_views(left),
            pr == string_views(right),
            all == rows_of(lineno_l@, lineno_r@, wrapno_l@, wrapno_r@, pl, pr, widths),
            widths == (line_width.0 as int, line_width.1 as int),
            line_width.0 <= isize::MAX,
            line_width.1 <= isize::MAX,
            forall|i: int|
                0 <= i < zipped@.len() ==> (#[trigger] zipped@[i]).0 == (if i < left.len() {
                    Some(left[i])
                } else {
                    None
                }) && zipped@[i].1 == (if i < right.len() {
                    Some(right[i])
                } else {
                    None
                }),
            first_iteration == (iter.index() == 0),
            row_views(rows@) == before + all.take(iter.index() as int),
    {
        let ghost i = iter.index() as int;
        let ghost done = row_views(rows@);
        proof {
            assert(zipped@[i].0 == (if i < left.len() {
                Some(left[i])
            } else {
                None
            }));
        }
        let (wrapped_l, wrapped_r) = match pair {
            (Some(l), Some(r)) => (l, r),
            (Some(l), None) => (l, spaces(line_width.1)),
            (None, Some(r)) => (spaces(line_width.0), r),
            (None, None) => (spaces(line_width.0), spaces(line_width.1)),
        };
        let margin_l = if first_iteration {
            copy_span(lineno_l)
        } else {
            copy_span(wrapno_l)
        };
        let margin_r = if first_iteration {
            copy_span(lineno_r)
        } else {
            copy_span(wrapno_r)
        };
        rows.push(Row { margin_l, left: wrapped_l, margin_r, right: wrapped_r });
        first_iteration = false;
        proof {
            assert(row_views(rows@) =~= done.push(all[i]));
            assert(all.take(i + 1) =~= all.take(i).push(all[i]));
            assert(row_views(rows@) =~= before + all.take(i + 1));
        }
    }
    proof {
        assert(all.take(all.len() as int) =~= all);
    }
    Ok(())
}

/// One line of the side-by-side view: a line that stayed, one that came,
/// one that went, or a before-line and the after-line that it turned into.
#[derive(Debug, PartialEq, Eq, Clone, Copy)]
pub enum LineEvent<'a> {
    Same(&'a str),
    Add(&'a str),
    Remove(&'a str),
    Pair(&'a str, &'a str),
}

/// What a `LineEvent` holds, as characters.
pub enum LineEventView {
    Same(Seq<char>),
    Add(Seq<char>),
    Remove(Seq<char>),
    Pair(Seq<char>, Seq<char>),
}

impl<'a> View for LineEvent<'a> {
    type V = LineEventView;

    open spec fn view(&self) -> LineEventView {
        match self {
            LineEvent::Same(line) => LineEventView::Same(line@),
            LineEvent::Add(line) => LineEventView::Add(line@),
            LineEvent::Remove(line) => LineEventView::Remove(line@),
            LineEvent::Pair(before, after) => LineEventView::Pair(before@, after@),
        }
    }
}

/// The lines, as characters.
pub open spec fn event_views(events: Seq<LineEvent>) -> Seq<LineEventView> {
    events.map_values(|e: LineEvent| e@)
}

/// The lines of a replaced block, given the entries of its alignment: a
/// pair for each entry with two lines, else the one line as one that went
/// or one that came.
pub open spec fn replace_events(
    lines_b: Seq<Seq<char>>,
    lines_a: Seq<Seq<char>>,
    entries: Seq<(Option<usize>, Option<usize>)>,
) -> Seq<LineEventView>
    decreases entries.len(),
{
    if entries.len() == 0 {
        Seq::empty()
    } else {
        let before = replace_events(lines_b, lines_a, entries.drop_last());
        match entries.last() {
            (Some(i), Some(j)) => before.push(
                LineEventView::Pair(lines_b[i as int], lines_a[j as int]),
            ),
            (Some(i), None) => before.push(LineEventView::Remove(lines_b[i as int])),
            (None, Some(j)) => before.push(LineEventView::Add(lines_a[j as int])),
            (None, None) => before,
        }
    }
}

/// The lines of one segment.
pub open spec fn events_of(diff: DiffView) -> Seq<LineEventView> {
    match diff {
        DiffView::Same(same) => lines_of(same).map_values(
            |line: Seq<char>| LineEventView::Same(line),
        ),
        DiffView::Add(add) => lines_of(add).map_values(|line: Seq<char>| LineEventView::Add(line)),
        DiffView::Remove(rem) => lines_of(rem).map_values(
            |line: Seq<char>| LineEventView::Remove(line),
        ),
        DiffView::Replace(before, after) => replace_events(
            lines_of(before),
            lines_of(after),
            alignment_entries(line_grid(lines_of(before), lines_of(after))),
        ),
    }
}

/// The lines of a diff: those of its segments, in order.
pub open spec fn all_events(diffs: Seq<DiffView>) -> Seq<LineEventView>
    decreases diffs.len(),
{
    if diffs.len() == 0 {
        Seq::empty()
    } else {
        all_events(diffs.drop_last()) + events_of(diffs.last())
    }
}

/// Every pair among the lines can be compared character by character.
pub open spec fn events_fit(events: Seq<LineEventView>) -> bool {
    forall|i: int|
        0 <= i < events.len() ==> match #[trigger] events[i] {
            LineEventView::Pair(before, after) => changeset_fits(before, after, Seq::empty()),
            _ => true,
        }
}

/// Appends the lines of one segment to `events`.
pub fn line_events<'a>(diff: &'a Diff, events: &mut Vec<LineEvent<'a>>)
    requires
        segment_fits(diff@),
        events_fit(event_views(old(events)@)),
    ensures
        event_views(final(events)@) == event_views(old(events)@) + events_of(diff@),
        events_fit(event_views(final(events)@)),
{
    let ghost before = event_views(events@);
    let ghost all = events_of(diff@);
    match diff {
        Diff::Same(same) => {
            let lines = split_lines(same.as_str());
            let mut i: usize = 0;
            proof {
                assert(before + all.take(0) =~= before);
            }
            while i < lines.len()
                invariant
                    i <= lines.len(),
                    texts(lines@) == lines_of(same@),
                    all.len() == lines.len(),
                    forall|k: int|
                        0 <= k < all.len() ==> #[trigger] all[k] == LineEventView::Same(
                            lines_of(same@)[k],
                        ),
                    events_fit(event_views(events@)),
                    event_views(events@) == before + all.take(i as int),
                decreases lines.len() - i,
            {
                let ghost done = event_views(events@);
                events.push(LineEvent::Same(lines[i]));
                proof {
                    assert(texts(lines@)[i as int] == lines@[i as int]@);
                    assert(event_views(events@) =~= done.push(all[i as int]));
                    assert(all.take(i + 1) =~= all.take(i as int).push(all[i as int]));
                    assert(event_views(events@) =~= before + all.take(i + 1));
                }
                i += 1;
            }
            proof {
                assert(all.take(all.len() as int) =~= all);
            }
        },
        Diff::Add(add) => {
            let lines = split_lines(add.as_str());
            let mut i: usize = 0;
            proof {
                assert(before + all.take(0) =~= before);
            }
            while i < lines.len()
                invariant
                    i <= lines.len(),
                    texts(lines@) == lines_of(add@),
                    all.len() == lines.len(),
                    forall|k: int|
                        0 <= k < all.len() ==> #[trigger] all[k] == LineEventView::Add(
                            lines_of(add@)[k],
                        ),
                    events_fit(event_views(events@)),
                    event_views(events@) == before + all.take(i as int),
                decreases lines.len() - i,
            {
                let ghost done = event_views(events@);
                events.push(LineEvent::Add(lines[i]));
                proof {
                    assert(texts(lines@)[i as int] == lines@[i as int]@);
                    assert(event_views(events@) =~= done.push(all[i as int]));
                    assert(all.take(i + 1) =~= all.take(i as int).push(all[i as int]));
                    assert(event_views(events@) =~= before + all.take(i + 1));
                }
                i += 1;
            }
            proof {
                assert(all.take(all.len() as int) =~= all);
            }
        },
        Diff::Remove(rem) => {
            let lines = split_lines(rem.as_str());
            let mut i: usize = 0;
            proof {
                assert(before + all.take(0) =~= before);
            }
            while i < lines.len()
                invariant
                    i <= lines.len(),
                    texts(lines@) == lines_of(rem@),
                    all.len() == lines.len(),
                    forall|k: int|
                        0 <= k < all.len() ==> #[trigger] all[k] == LineEventView::Remove(
                            lines_of(rem@)[k],
                        ),
                    events_fit(event_views(events@)),
                    event_views(events@) == before + all.take(i as int),
                decreases lines.len() - i,
            {
                let ghost done = event_views(events@);
                events.push(LineEvent::Remove(lines[i]));
                proof {
                    assert(texts(lines@)[i as int] == lines@[i as int]@);
                    assert(event_views(events@) =~= done.push(all[i as int]));
                    assert(all.take(i + 1) =~= all.take(i as int).push(all[i as int]));
                    assert(event_views(events@) =~= before + all.take(i + 1));
                }
                i += 1;
            }
            proof {
                assert(all.take(all.len() as int) =~= all);
            }
        },
        Diff::Replace(before_text, after_text) => {
            let lines_b = split_lines(before_text.as_str());
            let lines_a = split_lines(after_text.as_str());
            let alignment = align(&lines_b, &lines_a);
            let ghost tb = lines_of(before_text@);
            let ghost ta = lines_of(after_text@);
            let ghost entries = alignment_entries(line_grid(tb, ta));
            proof {
                lemma_entries_in_lines(line_costs(tb), line_costs(ta), pair_costs(tb, ta));
                assert(entries.take(0) =~= Seq::<(Option<usize>, Option<usize>)>::empty());
                assert(before + replace_events(tb, ta, entries.take(0)) =~= before);
            }
            let mut k: usize = 0;
            while k < alignment.len()
                invariant
                    k <= alignment.len(),
                    tb == texts(lines_b@),
                    ta == texts(lines_a@),
                    lines_fit(tb, ta),
                    entries == alignment_entries(line_grid(tb, ta)),
                    alignment@ == entries_over(lines_b@, lines_a@, entries),
                    forall|n: int|
                        0 <= n < entries.len() ==> match #[trigger] entries[n] {
                            (Some(i), Some(j)) => i < tb.len() && j < ta.len(),
                            (Some(i), None) => i < tb.len(),
                            (None, Some(j)) => j < ta.len(),
                            (None, None) => true,
                        },
                    events_fit(event_views(events@)),
                    event_views(events@) == before + replace_events(
                        tb,
                        ta,
                        entries.take(k as int),
                    ),
                decreases alignment.len() - k,
            {
                let ghost upto = entries.take(k + 1);
                let ghost done = event_views(events@);
                proof {
                    assert(upto.drop_last() =~= entries.take(k as int));
                    assert(upto.last() == entries[k as int]);
                    assert(alignment@[k as int] == entries_over(lines_b@, lines_a@, entries)[k as int]);
                }
                match alignment[k] {
                    (Some(line_l), None) => {
                        proof {
                            let i = entries[k as int].0->0;
                            assert(tb[i as int] == lines_b@[i as int]@);
                        }
                        events.push(LineEvent::Remove(line_l));
                        proof {
                            assert(event_views(events@) =~= done.push(
                                LineEventView::Remove(line_l@),
                            ));
                        }
                    },
                    (None, Some(line_r)) => {
                        proof {
                            let j = entries[k as int].1->0;
                            assert(ta[j as int] == lines_a@[j as int]@);
                        }
                        events.push(LineEvent::Add(line_r));
                        proof {
                            assert(event_views(events@) =~= done.push(LineEventView::Add(line_r@)));
                        }
                    },
                    (Some(line_l), Some(line_r)) => {
                        proof {
                            let i = entries[k as int].0->0;
                            let j = entries[k as int].1->0;
                            assert(tb[i as int] == lines_b@[i as int]@);
                            assert(ta[j as int] == lines_a@[j as int]@);
                            assert(changeset_fits(tb[i as int], ta[j as int], Seq::empty()));
                        }
                        events.push(LineEvent::Pair(line_l, line_r));
                        proof {
                            assert(event_views(events@) =~= done.push(
                                LineEventView::Pair(line_l@, line_r@),
                            ));
                        }
                    },
                    (None, None) => {},
                }
                proof {
                    assert(event_views(events@) =~= before + replace_events(tb, ta, upto));
                }
                k += 1;
            }
            proof {
                assert(entries.take(entries.len() as int) =~= entries);
            }
        },
    }
}

/// How the side-by-side view is drawn: the styles of the line numbers and
/// of the lines, the width of a line number and the widths of the columns.
pub struct SideBySide {
    pub lineno_styling: DiffStyling,
    pub line_styling: DiffStyling,
    pub lineno_width: usize,
    pub line_width: (usize, usize),
}

/// The rows that one line is shown in, with `lineno_l` and `lineno_r` the
/// numbers of the next line of either text, or why it cannot be shown.
#[verifier::opaque]
pub open spec fn event_rows(view: SideBySide, event: LineEventView, lineno_l: nat, lineno_r: nat) -> Result<
    Seq<RowView>,
    WrapError,
> {
    let numbers = view.lineno_styling;
    let lines = view.line_styling;
    let widths = (view.line_width.0 as int, view.line_width.1 as int);
    let number_l = number_margin(lineno_l, view.lineno_width as int);
    let number_r = number_margin(lineno_r, view.lineno_width as int);
    let none = blank(view.lineno_width + 1);
    match event {
        LineEventView::Same(line) => line_rows(
            SpanView { style: numbers.same, text: number_l },
            SpanView { style: numbers.same, text: number_r },
            SpanView { style: numbers.same, text: none },
            SpanView { style: numbers.same, text: none },
            seq![SpanView { style: lines.same, text: line }],
            seq![SpanView { style: lines.same, text: line }],
            widths,
        ),
        LineEventView::Add(line) => line_rows(
            SpanView { style: numbers.same, text: none },
            SpanView { style: numbers.add_highlight, text: number_r },
            SpanView { style: numbers.same, text: none },
            SpanView { style: numbers.add_highlight, text: none },
            seq![SpanView { style: lines.same, text: Seq::empty() }],
            seq![SpanView { style: lines.add_highlight, text: line }],
            widths,
        ),
        LineEventView::Remove(line) => line_rows(
            SpanView { style: numbers.remove_highlight, text: number_l },
            SpanView { style: numbers.same, text: none },
            SpanView { style: numbers.remove_highlight, text: none },
            SpanView { style: numbers.same, text: none },
            seq![SpanView { style: lines.remove_highlight, text: line }],
            seq![SpanView { style: lines.same, text: Seq::empty() }],
            widths,
        ),
        LineEventView::Pair(before, after) => {
            let diffs = classified(changeset_of(before, after, Seq::empty()).1);
            line_rows(
                SpanView { style: numbers.remove, text: number_l },
                SpanView { style: numbers.add, text: number_r },
                SpanView { style: numbers.remove, text: none },
                SpanView { style: numbers.add, text: none },
                styled_before(lines, diffs),
                styled_after(lines, diffs),
                widths,
            )
        },
    }
}

/// The numbers of the next lines after a line: a line counts in the text
/// that has it.
pub open spec fn numbers_after(event: LineEventView, lineno_l: nat, lineno_r: nat) -> (nat, nat) {
    match event {
        LineEventView::Same(_) => (lineno_l + 1, lineno_r + 1),
        LineEventView::Add(_) => (lineno_l, lineno_r + 1),
        LineEventView::Remove(_) => (lineno_l + 1, lineno_r),
        LineEventView::Pair(_, _) => (lineno_l + 1, lineno_r + 1),
    }
}

/// The rows that the lines are shown in, one line after the other, or why
/// the first line that cannot be shown cannot.
pub open spec fn rows_from(
    view: SideBySide,
    events: Seq<LineEventView>,
    lineno_l: nat,
    lineno_r: nat,
) -> Result<Seq<RowView>, WrapError>
    decreases events.len(),
{
    if events.len() == 0 {
        Ok(Seq::empty())
    } else {
        match event_rows(view, events[0], lineno_l, lineno_r) {
            Err(e) => Err(e),
            Ok(rows) => {
                let next = numbers_after(events[0], lineno_l, lineno_r);
                if next.0 > usize::MAX || next.1 > usize::MAX {
                    Err(WrapError::TooManyLines)
                } else {
                    behind(rows, rows_from(view, events.drop_first(), next.0, next.1))
                }
            },
        }
    }
}

/// The rows of the side-by-side view of a diff. Lines are numbered from 1
/// in either text.
pub open spec fn side_by_side(view: SideBySide, diffs: Seq<DiffView>) -> Result<
    Seq<RowView>,
    WrapError,
> {
    rows_from(view, all_events(diffs), 1, 1)
}

/// Appends the rows that one line is shown in, with `lineno_l` and
/// `lineno_r` the numbers of the next line of either text.
pub fn push_event_rows(
    view: &SideBySide,
    event: LineEvent,
    lineno_l: usize,
    lineno_r: usize,
    rows: &mut Vec<Row>,
) -> (done: Result<(), WrapError>)
    requires
        view.lineno_width <= MAX_NUMBER_WIDTH,
        match event@ {
            LineEventView::Pair(before, after) => changeset_fits(before, after, Seq::empty()),
            _ => true,
        },
    ensures
        behind(
            row_views(old(rows)@),
            event_rows(*view, event@, lineno_l as nat, lineno_r as nat),
        ) == match done {
            Ok(_) => Ok::<Seq<RowView>, WrapError>(row_views(final(rows)@)),
            Err(e) => Err::<Seq<RowView>, WrapError>(e),
        },
        done is Err ==> final(rows)@ == old(rows)@,
{
    let numbers = &view.lineno_styling;
    let lines = &view.line_styling;
    let empty_lineno = spaces(view.lineno_width + 1);
    proof {
        reveal(event_rows);
        reveal_strlit("");
        assert(""@ =~= Seq::<char>::empty());
    }
    match event {
        LineEvent::Same(line) => {
            let lineno_l_fmt = number_text(lineno_l, view.lineno_width);
            let lineno_r_fmt = number_text(lineno_r, view.lineno_width);
            let line_l: Vec<Span> = vec![paint(lines.same, line)];
            let line_r: Vec<Span> = vec![paint(lines.same, line)];
            proof {
                assert(span_views(line_l@) =~= seq![SpanView { style: lines.same, text: line@ }]);
                assert(span_views(line_r@) =~= seq![SpanView { style: lines.same, text: line@ }]);
            }
            side_by_side_line(
                &paint(numbers.same, lineno_l_fmt.as_str()),
                &paint(numbers.same, lineno_r_fmt.as_str()),
                &paint(numbers.same, empty_lineno.as_str()),
                &paint(numbers.same, empty_lineno.as_str()),
                &line_l,
                &line_r,
                view.line_width,
                rows,
            )
        },
        LineEvent::Add(line) => {
            let lineno_r_fmt = number_text(lineno_r, view.lineno_width);
            let line_l: Vec<Span> = vec![paint(lines.same, "")];
            let line_r: Vec<Span> = vec![paint(lines.add_highlight, line)];
            proof {
                assert(span_views(line_l@) =~= seq![
                    SpanView { style: lines.same, text: Seq::empty() },
                ]);
                assert(span_views(line_r@) =~= seq![
                    SpanView { style: lines.add_highlight, text: line@ },
                ]);
            }
            side_by_side_line(
                &paint(numbers.same, empty_lineno.as_str()),
                &paint(numbers.add_highlight, lineno_r_fmt.as_str()),
                &paint(numbers.same, empty_lineno.as_str()),
                &paint(numbers.add_highlight, empty_lineno.as_str()),
                &line_l,
                &line_r,
                view.line_width,
                rows,
            )
        },
        LineEvent::Remove(line) => {
            let lineno_l_fmt = number_text(lineno_l, view.lineno_width);
            let line_l: Vec<Span> = vec![paint(lines.remove_highlight, line)];
            let line_r: Vec<Span> = vec![paint(lines.same, "")];
            proof {
                assert(span_views(line_l@) =~= seq![
                    SpanView { style: lines.remove_highlight, text: line@ },
                ]);
                assert(span_views(line_r@) =~= seq![
                    SpanView { style: lines.same, text: Seq::empty() },
                ]);
            }
            side_by_side_line(
                &paint(numbers.remove_highlight, lineno_l_fmt.as_str()),
                &paint(numbers.same, empty_lineno.as_str()),
                &paint(numbers.remove_highlight, empty_lineno.as_str()),
                &paint(numbers.same, empty_lineno.as_str()),
                &line_l,
                &line_r,
                view.line_width,
                rows,
            )
        },
        LineEvent::Pair(line_l, line_r) => {
            let lineno_l_fmt = number_text(lineno_l, view.lineno_width);
            let lineno_r_fmt = number_text(lineno_r, view.lineno_width);
            let mut fmt_l: Vec<Span> = Vec::new();
            let mut fmt_r: Vec<Span> = Vec::new();
            style_diff_line(line_l, line_r, lines, &mut fmt_l, &mut fmt_r);
            proof {
                let diffs = classified(changeset_of(line_l@, line_r@, Seq::empty()).1);
                assert(span_views(fmt_l@) =~= styled_before(*lines, diffs));
                assert(span_views(fmt_r@) =~= styled_after(*lines, diffs));
            }
            side_by_side_line(
                &paint(numbers.remove, lineno_l_fmt.as_str()),
                &paint(numbers.add, lineno_r_fmt.as_str()),
                &paint(numbers.remove, empty_lineno.as_str()),
                &paint(numbers.add, empty_lineno.as_str()),
                &fmt_l,
                &fmt_r,
                view.line_width,
                rows,
            )
        },
    }
}

/// The rows of the side-by-side view of a diff, or why a line of it cannot
/// be shown: it is longer than `usize` can say, it would be cut within a
/// character, a piece of it would be wider than its column, its column has
/// no width, or it has a number that `usize` cannot hold.
pub fn layout_side_by_side(diffs: &Vec<Diff>, view: &SideBySide) -> (rows: Result<
    Vec<Row>,
    WrapError,
>)
    requires
        view.lineno_width <= MAX_NUMBER_WIDTH,
        forall|i: int| 0 <= i < diffs@.len() ==> segment_fits(#[trigger] diffs@[i]@),
    ensures
        side_by_side(*view, diff_views(diffs@)) == match rows {
            Ok(r) => Ok::<Seq<RowView>, WrapError>(row_views(r@)),
            Err(e) => Err::<Seq<RowView>, WrapError>(e),
        },
{
    let ghost all = diff_views(diffs@);
    let mut events: Vec<LineEvent> = Vec::new();
    let mut i: usize = 0;
    proof {
        assert(all.take(0) =~= Seq::<DiffView>::empty());
        assert(event_views(events@) =~= all_events(all.take(0)));
    }
    while i < diffs.len()
        invariant
            i <= diffs.len(),
            all == diff_views(diffs@),
            forall|n: int| 0 <= n < diffs@.len() ==> segment_fits(#[trigger] diffs@[n]@),
            events_fit(event_views(events@)),
            event_views(events@) == all_events(all.take(i as int)),
        decreases diffs.len() - i,
    {
        proof {
            assert(all.take(i + 1).drop_last() =~= all.take(i as int));
            assert(all.take(i + 1).last() == diffs@[i as int]@);
            assert(segment_fits(diffs@[i as int]@));
        }
        line_events(&diffs[i], &mut events);
        i += 1;
    }
    proof {
        assert(all.take(all.len() as int) =~= all);
    }
    let ghost lines = event_views(events@);
    let ghost whole = rows_from(*view, lines, 1, 1);
    let mut rows: Vec<Row> = Vec::new();
    let mut lineno_l: usize = 1;
    let mut lineno_r: usize = 1;
    let mut k: usize = 0;
    proof {
        assert(lines.skip(0) =~= lines);
        match whole {
            Ok(r) => {
                assert(row_views(rows@) + r =~= r);
            },
            Err(_) => {},
        }
    }
    while k < events.len()
        invariant
            k <= events.len(),
            view.lineno_width <= MAX_NUMBER_WIDTH,
            lines == event_views(events@),
            events_fit(lines),
            whole == side_by_side(*view, diff_views(diffs@)),
            whole == behind(
                row_views(rows@),
                rows_from(*view, lines.skip(k as int), lineno_l as nat, lineno_r as nat),
            ),
        decreases events.len() - k,
    {
        let ghost done = row_views(rows@);
        let ghost rest = lines.skip(k as int);
        let event = events[k];
        proof {
            assert(rest[0] == event@);
            assert(rest.drop_first() =~= lines.skip(k + 1));
            assert(lines[k as int] == event@);
        }
        match push_event_rows(view, event, lineno_l, lineno_r, &mut rows) {
            Err(e) => {
                return Err(e);
            },
            Ok(_) => {},
        }
        let (bump_l, bump_r) = match event {
            LineEvent::Same(_) => (true, true),
            LineEvent::Add(_) => (false, true),
            LineEvent::Remove(_) => (true, false),
            LineEvent::Pair(_, _) => (true, true),
        };
        if (bump_l && lineno_l == usize::MAX) || (bump_r && lineno_r == usize::MAX) {
            return Err(WrapError::TooManyLines);
        }
        proof {
            let added = event_rows(*view, event@, lineno_l as nat, lineno_r as nat)->Ok_0;
            let next = numbers_after(event@, lineno_l as nat, lineno_r as nat);
            let tail = rows_from(*view, lines.skip(k + 1), next.0, next.1);
            assert(row_views(rows@) == done + added);
            match tail {
                Ok(t) => {
                    assert(done + (added + t) =~= (done + added) + t);
                },
                Err(_) => {},
            }
        }
        if bump_l {
            lineno_l += 1;
        }
        if bump_r {
            lineno_r += 1;
        }
        k += 1;
    }
    proof {
        assert(lines.skip(lines.len() as int) =~= Seq::<LineEventView>::empty());
        assert(row_views(rows@) + Seq::<RowView>::empty() =~= row_views(rows@));
    }
    Ok(rows)
}

/// The side-by-side view can be laid out: the width of a line number is one
/// that a number can be formatted to, and the lines of every replaced
/// segment can be aligned.
pub open spec fn side_by_side_fits(view: SideBySide, diffs: Seq<Diff>) -> bool {
    &&& view.lineno_width <= MAX_NUMBER_WIDTH
    &&& forall|i: int| 0 <= i < diffs.len() ==> segment_fits(#[trigger] diffs[i]@)
}

/// The rows of the side-by-side view of a diff, or why a line of it cannot
/// be shown; nothing where the view cannot be laid out at all.
pub fn try_layout_side_by_side(diffs: &Vec<Diff>, view: &SideBySide) -> (rows: Option<
    Result<Vec<Row>, WrapError>,
>)
    ensures
        match rows {
            None => !side_by_side_fits(*view, diffs@),
            Some(Ok(r)) => side_by_side_fits(*view, diffs@) && side_by_side(
                *view,
                diff_views(diffs@),
            ) == Ok::<Seq<RowView>, WrapError>(row_views(r@)),
            Some(Err(e)) => side_by_side_fits(*view, diffs@) && side_by_side(
                *view,
                diff_views(diffs@),
            ) == Err::<Seq<RowView>, WrapError>(e),
        },
{
    if view.lineno_width <= MAX_NUMBER_WIDTH && segments_can_align(diffs) {
        Some(layout_side_by_side(diffs, view))
    } else {
        None
    }
}

/// The widths of the two columns: with a terminal `term_width` wide, each
/// gets half of what the separator leaves, less its line numbers and their
/// margin; without one, each is as wide as its longest line.
pub open spec fn column_widths_of(
    term_width: Option<usize>,
    sep_width: int,
    lineno_width: int,
    diffs: Seq<DiffView>,
) -> (int, int) {
    match term_width {
        Some(width) => (
            (width - sep_width) / 2 - (lineno_width + 2),
            (width - sep_width) / 2 - (lineno_width + 2),
        ),
        None => (max_line_widths(diffs).0 as int, max_line_widths(diffs).1 as int),
    }
}

/// The terminal, if there is one, is wide enough for the separator, the
/// line numbers and their margins.
pub open spec fn columns_fit(term_width: Option<usize>, sep_width: int, lineno_width: int) -> bool {
    &&& lineno_width + 2 <= usize::MAX
    &&& match term_width {
        Some(width) => width >= sep_width && (width - sep_width) / 2 >= lineno_width + 2,
        None => true,
    }
}

/// The widths of the two columns of the side-by-side view. A terminal must
/// be wide enough for the separator, the line numbers and their margins.
pub fn column_widths(
    term_width: Option<usize>,
    sep_width: usize,
    lineno_width: usize,
    diffs: &Vec<Diff>,
) -> (line_width: (usize, usize))
    requires
        columns_fit(term_width, sep_width as int, lineno_width as int),
    ensures
        line_width.0 == column_widths_of(
            term_width,
            sep_width as int,
            lineno_width as int,
            diff_views(diffs@),
        ).0,
        line_width.1 == column_widths_of(
            term_width,
            sep_width as int,
            lineno_width as int,
            diff_views(diffs@),
        ).1,
{
    match term_width {
        Some(term_width) => {
            let line_width: usize = ((term_width - sep_width) / 2) - (lineno_width + 2);
            (line_width, line_width)
        },
        None => calc_max_line_width(diffs),
    }
}

/// The widths of the two columns of the side-by-side view, unless the
/// terminal is too narrow for them.
pub fn try_column_widths(
    term_width: Option<usize>,
    sep_width: usize,
    lineno_width: usize,
    diffs: &Vec<Diff>,
) -> (line_width: Option<(usize, usize)>)
    ensures
        match line_width {
            None => !columns_fit(term_width, sep_width as int, lineno_width as int),
            Some(w) => {
                &&& columns_fit(term_width, sep_width as int, lineno_width as int)
                &&& w.0 == column_widths_of(
                    term_width,
                    sep_width as int,
                    lineno_width as int,
                    diff_views(diffs@),
                ).0
                &&& w.1 == column_widths_of(
                    term_width,
                    sep_width as int,
                    lineno_width as int,
                    diff_views(diffs@),
                ).1
            },
        },
{
    if lineno_width > usize::MAX - 2 {
        return None;
    }
    match term_width {
        Some(width) => {
            if width < sep_width || (width - sep_width) / 2 < lineno_width + 2 {
                return None;
            }
        },
        None => {},
    }
    Some(column_widths(term_width, sep_width, lineno_width, diffs))
}

} // verus!
