//! What a diff looks like: the styled pieces of text that a view of it is
//! made of. Nothing here writes anything; the pieces are handed back as
//! values.

use crate::diff::align::{align, line_grid, lines_can_align, lines_fit};
use crate::diff::changeset::{changeset_fits, changeset_of};
use crate::diff::path::{alignment_entries, entries_over, lemma_entries_in_lines};
use crate::diff::text::{lines_of, split_lines, texts};
use crate::diff::{calculate_char_diff, classified, diff_views, Diff, DiffView};
use ansi_term::Style;
use vstd::prelude::*;

verus! {

/// `ansi_term::Style`: a colour and its attributes. The library hands
/// styles on and never looks inside one.
#[verifier::external_type_specification]
#[verifier::external_body]
pub struct ExStyle(Style);

/// The styles of one part of a view, by what a piece of text is.
pub struct DiffStyling {
    pub same: Style,
    pub add: Style,
    pub add_highlight: Style,
    pub remove: Style,
    pub remove_highlight: Style,
}

/// The styles of a view: those of the margin, those of the lines, and the
/// style of text that is not styled.
pub struct Styles {
    pub margin: DiffStyling,
    pub line: DiffStyling,
    pub plain: Style,
}

/// A piece of text in one style.
#[derive(Debug, PartialEq)]
pub struct Span {
    pub style: Style,
    pub text: String,
}

/// What a `Span` holds, as characters.
pub struct SpanView {
    pub style: Style,
    pub text: Seq<char>,
}

impl View for Span {
    type V = SpanView;

    open spec fn view(&self) -> SpanView {
        SpanView { style: self.style, text: self.text@ }
    }
}

/// The pieces of a sequence of spans, as characters.
pub open spec fn span_views(spans: Seq<Span>) -> Seq<SpanView> {
    spans.map_values(|s: Span| s@)
}

/// One unit of a view, written in one go: a margin and a line, followed by
/// a line feed, or a block of spans that brings its own line feeds.
#[derive(Debug, PartialEq)]
pub enum Printed {
    Line(Span, Span),
    Block(Vec<Span>),
}

/// What a `Printed` holds, as characters.
pub enum PrintedView {
    Line(SpanView, SpanView),
    Block(Seq<SpanView>),
}

impl View for Printed {
    type V = PrintedView;

    open spec fn view(&self) -> PrintedView {
        match self {
            Printed::Line(margin, line) => PrintedView::Line(margin@, line@),
            Printed::Block(spans) => PrintedView::Block(span_views(spans@)),
        }
    }
}

/// The units of a view, as characters.
pub open spec fn printed_views(units: Seq<Printed>) -> Seq<PrintedView> {
    units.map_values(|p: Printed| p@)
}

/// The text in the style.
pub fn paint(style: Style, text: &str) -> (span: Span)
    ensures
        span@ == (SpanView { style, text: text@ }),
{
    Span { style, text: text.to_owned() }
}

/// What the before-side of a pair of lines looks like, given the segments
/// of the diff between the two: what stayed in the style of a removal, what
/// went highlighted.
pub open spec fn styled_before(styling: DiffStyling, diffs: Seq<DiffView>) -> Seq<SpanView>
    decreases diffs.len(),
{
    if diffs.len() == 0 {
        Seq::empty()
    } else {
        let before = styled_before(styling, diffs.drop_last());
        match diffs.last() {
            DiffView::Same(same) => before.push(SpanView { style: styling.remove, text: same }),
            DiffView::Add(_) => before,
            DiffView::Remove(rem) => before.push(
                SpanView { style: styling.remove_highlight, text: rem },
            ),
            DiffView::Replace(rem, _) => before.push(
                SpanView { style: styling.remove_highlight, text: rem },
            ),
        }
    }
}

/// What the after-side of a pair of lines looks like, given the segments of
/// the diff between the two: what stayed in the style of an addition, what
/// came highlighted.
pub open spec fn styled_after(styling: DiffStyling, diffs: Seq<DiffView>) -> Seq<SpanView>
    decreases diffs.len(),
{
    if diffs.len() == 0 {
        Seq::empty()
    } else {
        let before = styled_after(styling, diffs.drop_last());
        match diffs.last() {
            DiffView::Same(same) => before.push(SpanView { style: styling.add, text: same }),
            DiffView::Add(add) => before.push(SpanView { style: styling.add_highlight, text: add }),
            DiffView::Remove(_) => before,
            DiffView::Replace(_, add) => before.push(
                SpanView { style: styling.add_highlight, text: add },
            ),
        }
    }
}

/// Appends to `before_fmts` and `after_fmts` what the two sides of a pair of
/// lines look like, given the segments of the diff between the two.
pub fn style_char_diff(
    diffs: Vec<Diff>,
    styling: &DiffStyling,
    before_fmts: &mut Vec<Span>,
    after_fmts: &mut Vec<Span>,
)
    ensures
        span_views(final(before_fmts)@) == span_views(old(before_fmts)@) + styled_before(
            *styling,
            diff_views(diffs@),
        ),
        span_views(final(after_fmts)@) == span_views(old(after_fmts)@) + styled_after(
            *styling,
            diff_views(diffs@),
        ),
{
    let ghost all = diff_views(diffs@);
    let ghost before0 = span_views(before_fmts@);
    let ghost after0 = span_views(after_fmts@);
    proof {
        assert(all.take(0) =~= Seq::<DiffView>::empty());
        assert(before0 + styled_before(*styling, all.take(0)) =~= before0);
        assert(after0 + styled_after(*styling, all.take(0)) =~= after0);
    }
    for char_change in iter: diffs
        invariant
            iter.seq() == diffs@,
            all == diff_views(diffs@),
            span_views(before_fmts@) == before0 + styled_before(
                *styling,
                all.take(iter.index() as int),
            ),
            span_views(after_fmts@) == after0 + styled_after(
                *styling,
                all.take(iter.index() as int),
            ),
    {
        let ghost upto = all.take(iter.index() + 1);
        let ghost done_b = span_views(before_fmts@);
        let ghost done_a = span_views(after_fmts@);
        proof {
            assert(upto.drop_last() =~= all.take(iter.index() as int));
            assert(upto.last() == char_change@);
        }
        match char_change {
            Diff::Same(same) => {
                before_fmts.push(Span { style: styling.remove, text: same.clone() });
                after_fmts.push(Span { style: styling.add, text: same });
                assert(span_views(before_fmts@) =~= done_b.push(
                    SpanView { style: styling.remove, text: same@ },
                ));
                assert(span_views(after_fmts@) =~= done_a.push(
                    SpanView { style: styling.add, text: same@ },
                ));
            },
            Diff::Add(add) => {
                after_fmts.push(Span { style: styling.add_highlight, text: add });
                assert(span_views(after_fmts@) =~= done_a.push(
                    SpanView { style: styling.add_highlight, text: add@ },
                ));
            },
            Diff::Remove(rem) => {
                before_fmts.push(Span { style: styling.remove_highlight, text: rem });
                assert(span_views(before_fmts@) =~= done_b.push(
                    SpanView { style: styling.remove_highlight, text: rem@ },
                ));
            },
            Diff::Replace(rem, add) => {
                before_fmts.push(Span { style: styling.remove_highlight, text: rem });
                after_fmts.push(Span { style: styling.add_highlight, text: add });
                assert(span_views(before_fmts@) =~= done_b.push(
                    SpanView { style: styling.remove_highlight, text: rem@ },
                ));
                assert(span_views(after_fmts@) =~= done_a.push(
                    SpanView { style: styling.add_highlight, text: add@ },
                ));
            },
        }
        proof {
            assert(span_views(before_fmts@) =~= before0 + styled_before(*styling, upto));
            assert(span_views(after_fmts@) =~= after0 + styled_after(*styling, upto));
        }
    }
    proof {
        assert(all.take(all.len() as int) =~= all);
    }
}

/// Appends to `before_fmts` and `after_fmts` what a pair of lines looks
/// like: the diff between the two, character by character, with what
/// changed highlighted.
pub fn style_diff_line(
    before: &str,
    after: &str,
    styling: &DiffStyling,
    before_fmts: &mut Vec<Span>,
    after_fmts: &mut Vec<Span>,
)
    requires
        changeset_fits(before@, after@, Seq::empty()),
    ensures
        span_views(final(before_fmts)@) == span_views(old(before_fmts)@) + styled_before(
            *styling,
            classified(changeset_of(before@, after@, Seq::empty()).1),
        ),
        span_views(final(after_fmts)@) == span_views(old(after_fmts)@) + styled_after(
            *styling,
            classified(changeset_of(before@, after@, Seq::empty()).1),
        ),
{
    style_char_diff(calculate_char_diff(before, after), styling, before_fmts, after_fmts)
}

/// The margin of a line that stayed.
pub open spec fn same_margin() -> Seq<char> {
    seq![' ', ' ']
}

/// The margin of a line that came.
pub open spec fn add_margin() -> Seq<char> {
    seq!['+', ' ']
}

/// The margin of a line that went.
pub open spec fn remove_margin() -> Seq<char> {
    seq!['-', ' ']
}

/// A line feed.
pub open spec fn line_feed() -> Seq<char> {
    seq!['\n']
}

/// One unit for each line of `text`: the margin, then the line in `style`.
pub open spec fn margin_lines(margin: SpanView, style: Style, text: Seq<char>) -> Seq<PrintedView> {
    lines_of(text).map_values(
        |line: Seq<char>| PrintedView::Line(margin, SpanView { style, text: line }),
    )
}

/// The spans of the two blocks that a replaced block is shown as, the one
/// of the before-lines and the one of the after-lines, given the entries of
/// its alignment. A line alone is highlighted as a whole. The two lines of
/// a pair are shown by the diff between them.
pub open spec fn replace_spans(
    styles: Styles,
    lines_b: Seq<Seq<char>>,
    lines_a: Seq<Seq<char>>,
    entries: Seq<(Option<usize>, Option<usize>)>,
) -> (Seq<SpanView>, Seq<SpanView>)
    decreases entries.len(),
{
    if entries.len() == 0 {
        (Seq::empty(), Seq::empty())
    } else {
        let before = replace_spans(styles, lines_b, lines_a, entries.drop_last());
        let feed = SpanView { style: styles.plain, text: line_feed() };
        match entries.last() {
            (Some(i), None) => (
                before.0 + seq![
                    SpanView { style: styles.margin.remove_highlight, text: remove_margin() },
                    SpanView { style: styles.line.remove_highlight, text: lines_b[i as int] },
                    feed,
                ],
                before.1,
            ),
            (None, Some(j)) => (
                before.0,
                before.1 + seq![
                    SpanView { style: styles.margin.add_highlight, text: add_margin() },
                    SpanView { style: styles.line.add_highlight, text: lines_a[j as int] },
                    feed,
                ],
            ),
            (Some(i), Some(j)) => {
                let diffs = classified(
                    changeset_of(lines_b[i as int], lines_a[j as int], Seq::empty()).1,
                );
                (
                    (before.0 + seq![
                        SpanView { style: styles.margin.remove, text: remove_margin() },
                    ] + styled_before(styles.line, diffs)).push(feed),
                    (before.1 + seq![SpanView { style: styles.margin.add, text: add_margin() }]
                        + styled_after(styles.line, diffs)).push(feed),
                )
            },
            (None, None) => before,
        }
    }
}

/// The two blocks that a replaced block is shown as.
pub open spec fn replace_blocks(styles: Styles, before: Seq<char>, after: Seq<char>) -> (
    Seq<SpanView>,
    Seq<SpanView>,
) {
    replace_spans(
        styles,
        lines_of(before),
        lines_of(after),
        alignment_entries(line_grid(lines_of(before), lines_of(after))),
    )
}

/// The units that one segment is shown as.
pub open spec fn segment_units(styles: Styles, diff: DiffView) -> Seq<PrintedView> {
    match diff {
        DiffView::Same(same) => margin_lines(
            SpanView { style: styles.margin.same, text: same_margin() },
            styles.line.same,
            same,
        ),
        DiffView::Add(add) => margin_lines(
            SpanView { style: styles.margin.add, text: add_margin() },
            styles.line.add,
            add,
        ),
        DiffView::Remove(rem) => margin_lines(
            SpanView { style: styles.margin.remove, text: remove_margin() },
            styles.line.remove,
            rem,
        ),
        DiffView::Replace(before, after) => seq![
            PrintedView::Block(replace_blocks(styles, before, after).0),
            PrintedView::Block(replace_blocks(styles, before, after).1),
        ],
    }
}

/// The units that a diff is shown as: those of its segments, in order.
pub open spec fn layout(styles: Styles, diffs: Seq<DiffView>) -> Seq<PrintedView>
    decreases diffs.len(),
{
    if diffs.len() == 0 {
        Seq::empty()
    } else {
        layout(styles, diffs.drop_last()) + segment_units(styles, diffs.last())
    }
}

/// The lines of a replaced segment can be aligned.
pub open spec fn segment_fits(diff: DiffView) -> bool {
    match diff {
        DiffView::Replace(before, after) => lines_fit(lines_of(before), lines_of(after)),
        _ => true,
    }
}

/// Appends one unit for each line of `text`: the margin in its style, then
/// the line in `style`.
fn push_lines(out: &mut Vec<Printed>, text: &str, margin_style: Style, margin: &str, style: Style)
    ensures
        printed_views(final(out)@) == printed_views(old(out)@) + margin_lines(
            SpanView { style: margin_style, text: margin@ },
            style,
            text@,
        ),
{
    let ghost before = printed_views(out@);
    let ghost all = margin_lines(SpanView { style: margin_style, text: margin@ }, style, text@);
    let lines = split_lines(text);
    let mut i: usize = 0;
    proof {
        assert(before + all.take(0) =~= before);
    }
    while i < lines.len()
        invariant
            i <= lines.len(),
            texts(lines@) == lines_of(text@),
            all == margin_lines(SpanView { style: margin_style, text: margin@ }, style, text@),
            printed_views(out@) == before + all.take(i as int),
        decreases lines.len() - i,
    {
        let ghost done = printed_views(out@);
        out.push(Printed::Line(paint(margin_style, margin), paint(style, lines[i])));
        proof {
            assert(texts(lines@)[i as int] == lines@[i as int]@);
            assert(printed_views(out@) =~= done.push(all[i as int]));
            assert(all.take(i + 1) =~= all.take(i as int).push(all[i as int]));
            assert(printed_views(out@) =~= before + all.take(i + 1));
        }
        i += 1;
    }
    proof {
        assert(all.take(all.len() as int) =~= all);
    }
}

/// The spans of the two blocks that a replaced block is shown as: its
/// before-lines and its after-lines, aligned, each pair with the diff
/// between its two lines.
pub fn layout_replace(before: &str, after: &str, styles: &Styles) -> (blocks: (
    Vec<Span>,
    Vec<Span>,
))
    requires
        lines_fit(lines_of(before@), lines_of(after@)),
    ensures
        span_views(blocks.0@) == replace_blocks(*styles, before@, after@).0,
        span_views(blocks.1@) == replace_blocks(*styles, before@, after@).1,
{
    let lines_b = split_lines(before);
    let lines_a = split_lines(after);
    let alignment = align(&lines_b, &lines_a);
    let ghost tb = lines_of(before@);
    let ghost ta = lines_of(after@);
    let ghost entries = alignment_entries(line_grid(tb, ta));
    let ghost feed = SpanView { style: styles.plain, text: line_feed() };
    proof {
        reveal_strlit("- ");
        reveal_strlit("+ ");
        reveal_strlit("\n");
        assert("- "@ =~= remove_margin());
        assert("+ "@ =~= add_margin());
        assert("\n"@ =~= line_feed());
        lemma_entries_in_lines(
            crate::diff::align::line_costs(tb),
            crate::diff::align::line_costs(ta),
            crate::diff::align::pair_costs(tb, ta),
        );
        assert(entries.take(0) =~= Seq::<(Option<usize>, Option<usize>)>::empty());
    }
    let mut fmts_b: Vec<Span> = Vec::new();
    let mut fmts_a: Vec<Span> = Vec::new();
    let mut k: usize = 0;
    while k < alignment.len()
        invariant
            k <= alignment.len(),
            tb == texts(lines_b@),
            ta == texts(lines_a@),
            tb == lines_of(before@),
            ta == lines_of(after@),
            lines_fit(tb, ta),
            entries == alignment_entries(line_grid(tb, ta)),
            alignment@ == entries_over(lines_b@, lines_a@, entries),
            feed == (SpanView { style: styles.plain, text: line_feed() }),
            "- "@ == remove_margin(),
            "+ "@ == add_margin(),
            "\n"@ == line_feed(),
            forall|n: int|
                0 <= n < entries.len() ==> match #[trigger] entries[n] {
                    (Some(i), Some(j)) => i < tb.len() && j < ta.len(),
                    (Some(i), None) => i < tb.len(),
                    (None, Some(j)) => j < ta.len(),
                    (None, None) => true,
                },
            span_views(fmts_b@) == replace_spans(*styles, tb, ta, entries.take(k as int)).0,
            span_views(fmts_a@) == replace_spans(*styles, tb, ta, entries.take(k as int)).1,
        decreases alignment.len() - k,
    {
        let ghost upto = entries.take(k + 1);
        let ghost done_b = span_views(fmts_b@);
        let ghost done_a = span_views(fmts_a@);
        proof {
            assert(upto.drop_last() =~= entries.take(k as int));
            assert(upto.last() == entries[k as int]);
            assert(alignment@[k as int] == entries_over(lines_b@, lines_a@, entries)[k as int]);
        }
        match alignment[k] {
            (Some(line_b), None) => {
                proof {
                    let i = entries[k as int].0->0;
                    assert(tb[i as int] == lines_b@[i as int]@);
                }
                fmts_b.push(paint(styles.margin.remove_highlight, "- "));
                fmts_b.push(paint(styles.line.remove_highlight, line_b));
                fmts_b.push(paint(styles.plain, "\n"));
                proof {
                    assert(span_views(fmts_b@) =~= done_b + seq![
                        SpanView { style: styles.margin.remove_highlight, text: remove_margin() },
                        SpanView { style: styles.line.remove_highlight, text: line_b@ },
                        feed,
                    ]);
                }
            },
            (None, Some(line_a)) => {
                proof {
                    let j = entries[k as int].1->0;
                    assert(ta[j as int] == lines_a@[j as int]@);
                }
                fmts_a.push(paint(styles.margin.add_highlight, "+ "));
                fmts_a.push(paint(styles.line.add_highlight, line_a));
                fmts_a.push(paint(styles.plain, "\n"));
                proof {
                    assert(span_views(fmts_a@) =~= done_a + seq![
                        SpanView { style: styles.margin.add_highlight, text: add_margin() },
                        SpanView { style: styles.line.add_highlight, text: line_a@ },
                        feed,
                    ]);
                }
            },
            (Some(line_b), Some(line_a)) => {
                proof {
                    let i = entries[k as int].0->0;
                    let j = entries[k as int].1->0;
                    assert(tb[i as int] == lines_b@[i as int]@);
                    assert(ta[j as int] == lines_a@[j as int]@);
                    assert(changeset_fits(tb[i as int], ta[j as int], Seq::empty()));
                }
                fmts_b.push(paint(styles.margin.remove, "- "));
                fmts_a.push(paint(styles.margin.add, "+ "));
                let ghost margin_b = span_views(fmts_b@);
                let ghost margin_a = span_views(fmts_a@);
                style_diff_line(line_b, line_a, &styles.line, &mut fmts_b, &mut fmts_a);
                let ghost styled_b = span_views(fmts_b@);
                let ghost styled_a = span_views(fmts_a@);
                fmts_b.push(paint(styles.plain, "\n"));
                fmts_a.push(paint(styles.plain, "\n"));
                proof {
                    let diffs = classified(changeset_of(line_b@, line_a@, Seq::empty()).1);
                    assert(margin_b =~= done_b + seq![
                        SpanView { style: styles.margin.remove, text: remove_margin() },
                    ]);
                    assert(margin_a =~= done_a + seq![
                        SpanView { style: styles.margin.add, text: add_margin() },
                    ]);
                    assert(span_views(fmts_b@) =~= styled_b.push(feed));
                    assert(span_views(fmts_a@) =~= styled_a.push(feed));
                }
            },
            (None, None) => {},
        }
        k += 1;
    }
    proof {
        assert(entries.take(entries.len() as int) =~= entries);
    }
    (fmts_b, fmts_a)
}

/// The units that a diff is shown as, one segment after the other. Lines
/// that stayed, came or went are shown one to a unit, behind their margin.
/// A replaced block is shown as two blocks, its before-lines and its
/// after-lines.
pub fn layout_diffs(diffs: &Vec<Diff>, styles: &Styles) -> (out: Vec<Printed>)
    requires
        forall|i: int| 0 <= i < diffs@.len() ==> segment_fits(#[trigger] diffs@[i]@),
    ensures
        printed_views(out@) == layout(*styles, diff_views(diffs@)),
{
    let ghost all = diff_views(diffs@);
    let mut out: Vec<Printed> = Vec::new();
    let mut i: usize = 0;
    proof {
        reveal_strlit("  ");
        reveal_strlit("- ");
        reveal_strlit("+ ");
        assert("  "@ =~= same_margin());
        assert("- "@ =~= remove_margin());
        assert("+ "@ =~= add_margin());
        assert(all.take(0) =~= Seq::<DiffView>::empty());
        assert(printed_views(out@) =~= layout(*styles, all.take(0)));
    }
    while i < diffs.len()
        invariant
            i <= diffs.len(),
            all == diff_views(diffs@),
            forall|n: int| 0 <= n < diffs@.len() ==> segment_fits(#[trigger] diffs@[n]@),
            "  "@ == same_margin(),
            "- "@ == remove_margin(),
            "+ "@ == add_margin(),
            printed_views(out@) == layout(*styles, all.take(i as int)),
        decreases diffs.len() - i,
    {
        let ghost done = printed_views(out@);
        proof {
            let upto = all.take(i + 1);
            assert(upto.drop_last() =~= all.take(i as int));
            assert(upto.last() == diffs@[i as int]@);
            assert(segment_fits(diffs@[i as int]@));
        }
        match &diffs[i] {
            Diff::Same(same) => {
                push_lines(&mut out, same.as_str(), styles.margin.same, "  ", styles.line.same);
            },
            Diff::Add(add) => {
                push_lines(&mut out, add.as_str(), styles.margin.add, "+ ", styles.line.add);
            },
            Diff::Remove(rem) => {
                push_lines(&mut out, rem.as_str(), styles.margin.remove, "- ", styles.line.remove);
            },
            Diff::Replace(before, after) => {
                let (fmts_b, fmts_a) = layout_replace(before.as_str(), after.as_str(), styles);
                out.push(Printed::Block(fmts_b));
                out.push(Printed::Block(fmts_a));
                proof {
                    assert(printed_views(out@) =~= done + segment_units(
                        *styles,
                        diffs@[i as int]@,
                    ));
                }
            },
        }
        i += 1;
    }
    proof {
        assert(all.take(all.len() as int) =~= all);
    }
    out
}

/// Whether the lines of a replaced segment can be aligned. Any other
/// segment needs no aligning.
pub fn segment_can_align(diff: &Diff) -> (fits: bool)
    ensures
        fits == segment_fits(diff@),
{
    match diff {
        Diff::Replace(before, after) => {
            let lines_b = split_lines(before.as_str());
            let lines_a = split_lines(after.as_str());
            lines_can_align(&lines_b, &lines_a)
        },
        _ => true,
    }
}

/// Whether the lines of every replaced segment can be aligned.
pub fn segments_can_align(diffs: &Vec<Diff>) -> (fits: bool)
    ensures
        fits == forall|i: int| 0 <= i < diffs@.len() ==> segment_fits(#[trigger] diffs@[i]@),
{
    let mut i: usize = 0;
    while i < diffs.len()
        invariant
            i <= diffs.len(),
            forall|n: int| 0 <= n < i ==> segment_fits(#[trigger] diffs@[n]@),
        decreases diffs.len() - i,
    {
        if !segment_can_align(&diffs[i]) {
            return false;
        }
        i += 1;
    }
    true
}

/// The units that a diff is shown as, unless the lines of one of its
/// replaced segments cannot be aligned.
pub fn try_layout_diffs(diffs: &Vec<Diff>, styles: &Styles) -> (out: Option<Vec<Printed>>)
    ensures
        match out {
            Some(units) => {
                &&& forall|i: int| 0 <= i < diffs@.len() ==> segment_fits(#[trigger] diffs@[i]@)
                &&& printed_views(units@) == layout(*styles, diff_views(diffs@))
            },
            None => !(forall|i: int| 0 <= i < diffs@.len() ==> segment_fits(#[trigger] diffs@[i]@)),
        },
{
    if segments_can_align(diffs) {
        Some(layout_diffs(diffs, styles))
    } else {
        None
    }
}

} // verus!
