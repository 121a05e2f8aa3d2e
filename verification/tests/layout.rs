use ansi_term::Colour::{Black, Green, Red};
use ansi_term::Style;
use jiff::diff::render::{
    layout_diffs, layout_replace, paint, style_char_diff, style_diff_line, DiffStyling, Printed,
    Span, Styles,
};
use jiff::diff::text::max_line_len;
use jiff::diff::{calc_max_line_width, calculate_line_diff, Diff};

fn plain() -> DiffStyling {
    DiffStyling {
        same: Style::default(),
        add: Style::default(),
        add_highlight: Style::default(),
        remove: Style::default(),
        remove_highlight: Style::default(),
    }
}

fn coloured() -> DiffStyling {
    DiffStyling {
        same: Style::default(),
        add: Green.normal(),
        add_highlight: Black.on(Green),
        remove: Red.normal(),
        remove_highlight: Black.on(Red),
    }
}

fn styles() -> Styles {
    Styles { margin: plain(), line: coloured(), plain: Style::default() }
}

fn span(style: Style, text: &str) -> Span {
    Span { style, text: text.to_string() }
}

#[test]
fn paint_keeps_style_and_text() {
    assert_eq!(paint(Red.bold(), "abc"), Span { style: Red.bold(), text: "abc".to_string() });
}

#[test]
fn max_line_len_counts_characters_of_the_longest_line() {
    assert_eq!(max_line_len(""), 0);
    assert_eq!(max_line_len("abc"), 3);
    assert_eq!(max_line_len("a\nbcd\nef"), 3);
    assert_eq!(max_line_len("abcd\n"), 4);
    assert_eq!(max_line_len("\n\n"), 0);
    assert_eq!(max_line_len("h\u{e9}llo\nab"), 5);
}

#[test]
fn calc_max_line_width_takes_each_segment_to_its_columns() {
    let diffs = vec![
        Diff::Same("ab\ncde".to_string()),
        Diff::Add("123456".to_string()),
        Diff::Remove("12345678".to_string()),
        Diff::Replace("x".to_string(), "1234567890".to_string()),
    ];
    assert_eq!(calc_max_line_width(&diffs), (6, 10));
    assert_eq!(calc_max_line_width(&vec![]), (0, 0));
    assert_eq!(calc_max_line_width(&vec![Diff::Same("abc".to_string())]), (3, 3));
    assert_eq!(calc_max_line_width(&vec![Diff::Add("abc".to_string())]), (3, 0));
    assert_eq!(calc_max_line_width(&vec![Diff::Remove("abc".to_string())]), (0, 3));
    assert_eq!(
        calc_max_line_width(&vec![Diff::Replace("ab\nabcd".to_string(), "a".to_string())]),
        (4, 1)
    );
}

#[test]
fn style_char_diff_highlights_what_changed() {
    let styling = coloured();
    let diffs = vec![
        Diff::Same("te".to_string()),
        Diff::Replace("s".to_string(), "n".to_string()),
        Diff::Same("t".to_string()),
        Diff::Add("!".to_string()),
        Diff::Remove("?".to_string()),
    ];
    let mut before = vec![span(Style::default(), "- ")];
    let mut after = Vec::new();
    style_char_diff(diffs, &styling, &mut before, &mut after);
    assert_eq!(
        before,
        vec![
            span(Style::default(), "- "),
            span(styling.remove, "te"),
            span(styling.remove_highlight, "s"),
            span(styling.remove, "t"),
            span(styling.remove_highlight, "?"),
        ]
    );
    assert_eq!(
        after,
        vec![
            span(styling.add, "te"),
            span(styling.add_highlight, "n"),
            span(styling.add, "t"),
            span(styling.add_highlight, "!"),
        ]
    );
}

#[test]
fn style_diff_line_diffs_the_two_lines() {
    let styling = coloured();
    let mut before = Vec::new();
    let mut after = Vec::new();
    style_diff_line("foo", "foobar", &styling, &mut before, &mut after);
    assert_eq!(before, vec![span(styling.remove, "foo")]);
    assert_eq!(after, vec![span(styling.add, "foo"), span(styling.add_highlight, "bar")]);
}

#[test]
fn layout_replace_aligns_and_highlights() {
    let s = styles();
    let (before, after) = layout_replace("foo\ngone", "foobar", &s);
    assert_eq!(
        before,
        vec![
            span(s.margin.remove, "- "),
            span(s.line.remove, "foo"),
            span(s.plain, "\n"),
            span(s.margin.remove_highlight, "- "),
            span(s.line.remove_highlight, "gone"),
            span(s.plain, "\n"),
        ]
    );
    assert_eq!(
        after,
        vec![
            span(s.margin.add, "+ "),
            span(s.line.add, "foo"),
            span(s.line.add_highlight, "bar"),
            span(s.plain, "\n"),
        ]
    );
}

#[test]
fn layout_diffs_shows_each_segment() {
    let s = styles();
    let diffs = vec![
        Diff::Same("a\nb".to_string()),
        Diff::Add("c".to_string()),
        Diff::Remove("d\n".to_string()),
        Diff::Replace("x".to_string(), "y".to_string()),
    ];
    assert_eq!(
        layout_diffs(&diffs, &s),
        vec![
            Printed::Line(span(s.margin.same, "  "), span(s.line.same, "a")),
            Printed::Line(span(s.margin.same, "  "), span(s.line.same, "b")),
            Printed::Line(span(s.margin.add, "+ "), span(s.line.add, "c")),
            Printed::Line(span(s.margin.remove, "- "), span(s.line.remove, "d")),
            Printed::Line(span(s.margin.remove, "- "), span(s.line.remove, "")),
            Printed::Block(vec![
                span(s.margin.remove, "- "),
                span(s.line.remove_highlight, "x"),
                span(s.plain, "\n"),
            ]),
            Printed::Block(vec![
                span(s.margin.add, "+ "),
                span(s.line.add_highlight, "y"),
                span(s.plain, "\n"),
            ]),
        ]
    );
    assert_eq!(layout_diffs(&vec![], &s), vec![]);
}

#[test]
fn layout_of_a_line_diff() {
    let s = styles();
    let diffs = calculate_line_diff("one\ntwo\nthree", "one\n2\nthree");
    assert_eq!(
        layout_diffs(&diffs, &s),
        vec![
            Printed::Line(span(s.margin.same, "  "), span(s.line.same, "one")),
            Printed::Block(vec![
                span(s.margin.remove, "- "),
                span(s.line.remove_highlight, "two"),
                span(s.plain, "\n"),
            ]),
            Printed::Block(vec![
                span(s.margin.add, "+ "),
                span(s.line.add_highlight, "2"),
                span(s.plain, "\n"),
            ]),
            Printed::Line(span(s.margin.same, "  "), span(s.line.same, "three")),
        ]
    );
}
