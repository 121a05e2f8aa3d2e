use ansi_term::Colour::{Green, Red};
use ansi_term::{ANSIStrings, Style};
use jiff::diff::ansi::{boundary_at, checked_total};
use jiff::diff::render::{DiffStyling, Span};
use jiff::diff::side::{
    column_widths, copy_span, layout_side_by_side, line_events, push_event_rows,
    side_by_side_line, wrapped_pieces, LineEvent, Row, SideBySide,
};
use jiff::diff::wrap::{try_wrap_ansistrings, wrap_ansistrings, WrapError};
use jiff::diff::Diff;

fn plain() -> DiffStyling {
    DiffStyling {
        same: Style::default(),
        add: Style::default(),
        add_highlight: Style::default(),
        remove: Style::default(),
        remove_highlight: Style::default(),
    }
}

fn numbers() -> DiffStyling {
    DiffStyling {
        same: Style::default().bold(),
        add: Green.bold(),
        add_highlight: Green.bold(),
        remove: Red.bold(),
        remove_highlight: Red.bold(),
    }
}

fn view(width: usize) -> SideBySide {
    SideBySide {
        lineno_styling: numbers(),
        line_styling: plain(),
        lineno_width: 2,
        line_width: (width, width),
    }
}

fn span(style: Style, text: &str) -> Span {
    Span { style, text: text.to_string() }
}

fn row(margin_l: Span, left: &str, margin_r: Span, right: &str) -> Row {
    Row { margin_l, left: left.to_string(), margin_r, right: right.to_string() }
}

#[test]
fn checked_total_adds_up_bytes() {
    assert_eq!(checked_total(&vec![]), Some(0));
    let spans = vec![span(Red.normal(), "ab"), span(Style::default(), "h\u{e9}")];
    assert_eq!(checked_total(&spans), Some(5));
}

#[test]
fn boundary_at_looks_into_the_right_span() {
    let spans = vec![span(Red.normal(), "ab"), span(Style::default(), "h\u{e9}!")];
    assert!(boundary_at(&spans, 0));
    assert!(boundary_at(&spans, 2));
    assert!(boundary_at(&spans, 3));
    assert!(!boundary_at(&spans, 4));
    assert!(boundary_at(&spans, 5));
    assert!(boundary_at(&spans, 6));
    assert!(!boundary_at(&spans, 7));
    assert!(boundary_at(&vec![], 0));
    assert!(!boundary_at(&vec![], 1));
}

#[test]
fn wrap_ansistrings_pads_a_line_that_fits() {
    let spans = vec![span(Red.normal(), "ab"), span(Style::default(), "cd")];
    let mut pieces = wrap_ansistrings(&spans, 6);
    let strings = [Red.paint("ab"), Style::default().paint("cd")];
    assert_eq!(pieces.next(), Some(format!("{}  ", ANSIStrings(&strings))));
    assert_eq!(pieces.next(), None);
    assert_eq!(pieces.try_next(), Ok(None));
}

#[test]
fn wrap_ansistrings_cuts_a_line_in_two() {
    let spans = vec![span(Red.normal(), "abcd"), span(Green.normal(), "efghij")];
    let mut pieces = wrap_ansistrings(&spans, 6);
    assert!(!pieces.is_empty());
    let first = [Red.paint("abcd"), Green.paint("ef")];
    let second = [Green.paint("ghij")];
    assert_eq!(pieces.try_next(), Ok(Some(format!("{}", ANSIStrings(&first)))));
    assert_eq!(pieces.try_next(), Ok(Some(format!("{}  ", ANSIStrings(&second)))));
    assert_eq!(pieces.try_next(), Ok(None));
}

#[test]
fn wrap_ansistrings_of_nothing_gives_one_blank_piece() {
    let spans: Vec<Span> = vec![];
    let mut pieces = try_wrap_ansistrings(&spans, 3).unwrap();
    assert!(pieces.is_empty());
    assert_eq!(pieces.try_next(), Ok(Some("   ".to_string())));
    assert_eq!(pieces.try_next(), Ok(None));
}

#[test]
fn try_next_refuses_a_piece_wider_than_the_width() {
    let spans = vec![span(Style::default(), "abcdefghijklm")];
    let mut pieces = wrap_ansistrings(&spans, 6);
    assert_eq!(pieces.try_next(), Ok(Some("abcdef".to_string())));
    assert_eq!(pieces.try_next(), Err(WrapError::TooWide));
    assert_eq!(pieces.try_next(), Err(WrapError::TooWide));
}

#[test]
fn try_next_refuses_to_cut_within_a_character() {
    let spans = vec![span(Style::default(), "h\u{e9}llo")];
    let mut pieces = wrap_ansistrings(&spans, 2);
    assert_eq!(pieces.try_next(), Err(WrapError::SplitsCharacter));
}

#[test]
fn wrapped_pieces_collects_every_piece() {
    let spans = vec![span(Style::default(), "abcdefgh")];
    assert_eq!(wrapped_pieces(&spans, 5), Ok(vec!["abcde".to_string(), "fgh  ".to_string()]));
    assert_eq!(wrapped_pieces(&spans, 8), Ok(vec!["abcdefgh".to_string()]));
    assert_eq!(wrapped_pieces(&spans, 3), Err(WrapError::TooWide));
    assert_eq!(wrapped_pieces(&spans, 0), Err(WrapError::NoWidth));
    assert_eq!(wrapped_pieces(&vec![], 0), Ok(vec!["".to_string()]));
    assert_eq!(wrapped_pieces(&vec![span(Style::default(), "")], 2), Ok(vec!["  ".to_string()]));
}

#[test]
fn copy_span_copies() {
    let s = span(Red.bold(), "12:");
    assert_eq!(copy_span(&s), s);
}

#[test]
fn side_by_side_line_fills_the_shorter_side_with_blanks() {
    let lineno_l = span(Red.bold(), " 7:");
    let lineno_r = span(Green.bold(), " 9:");
    let wrapno_l = span(Red.bold(), "   ");
    let wrapno_r = span(Green.bold(), "   ");
    let line_l = vec![span(Style::default(), "abcdefgh")];
    let line_r = vec![span(Style::default(), "xy")];
    let mut rows = Vec::new();
    assert_eq!(
        side_by_side_line(
            &lineno_l, &lineno_r, &wrapno_l, &wrapno_r, &line_l, &line_r, (5, 4), &mut rows
        ),
        Ok(())
    );
    assert_eq!(
        rows,
        vec![
            row(span(Red.bold(), " 7:"), "abcde", span(Green.bold(), " 9:"), "xy  "),
            row(span(Red.bold(), "   "), "fgh  ", span(Green.bold(), "   "), "    "),
        ]
    );
    let mut rows = Vec::new();
    assert_eq!(
        side_by_side_line(
            &lineno_l, &lineno_r, &wrapno_l, &wrapno_r, &line_r, &line_l, (4, 5), &mut rows
        ),
        Ok(())
    );
    assert_eq!(
        rows,
        vec![
            row(span(Red.bold(), " 7:"), "xy  ", span(Green.bold(), " 9:"), "abcde"),
            row(span(Red.bold(), "   "), "    ", span(Green.bold(), "   "), "fgh  "),
        ]
    );
}

#[test]
fn side_by_side_line_leaves_rows_alone_on_failure() {
    let m = span(Style::default(), "");
    let line_l = vec![span(Style::default(), "abcdefgh")];
    let line_r = vec![span(Style::default(), "xy")];
    let mut rows = vec![row(span(Red.bold(), " 1:"), "a", span(Red.bold(), " 1:"), "a")];
    assert_eq!(
        side_by_side_line(&m, &m, &m, &m, &line_r, &line_l, (2, 2), &mut rows),
        Err(WrapError::TooWide)
    );
    assert_eq!(rows.len(), 1);
}

#[test]
fn line_events_of_each_segment() {
    let same = Diff::Same("a\nb".to_string());
    let add = Diff::Add("c".to_string());
    let remove = Diff::Remove("d".to_string());
    let replace = Diff::Replace("foo\ngone".to_string(), "foobar".to_string());
    let mut events = Vec::new();
    line_events(&same, &mut events);
    line_events(&add, &mut events);
    line_events(&remove, &mut events);
    line_events(&replace, &mut events);
    assert_eq!(
        events,
        vec![
            LineEvent::Same("a"),
            LineEvent::Same("b"),
            LineEvent::Add("c"),
            LineEvent::Remove("d"),
            LineEvent::Pair("foo", "foobar"),
            LineEvent::Remove("gone"),
        ]
    );
}

#[test]
fn push_event_rows_numbers_the_margins() {
    let v = view(6);
    let n = numbers();
    let mut rows = Vec::new();
    assert_eq!(push_event_rows(&v, LineEvent::Same("ab"), 3, 12, &mut rows), Ok(()));
    assert_eq!(push_event_rows(&v, LineEvent::Add("cd"), 4, 13, &mut rows), Ok(()));
    assert_eq!(push_event_rows(&v, LineEvent::Remove("ef"), 4, 14, &mut rows), Ok(()));
    assert_eq!(push_event_rows(&v, LineEvent::Pair("gh", "gi"), 5, 123, &mut rows), Ok(()));
    assert_eq!(
        rows,
        vec![
            row(span(n.same, " 3:"), "ab    ", span(n.same, "12:"), "ab    "),
            row(span(n.same, "   "), "      ", span(n.add_highlight, "13:"), "cd    "),
            row(span(n.remove_highlight, " 4:"), "ef    ", span(n.same, "   "), "      "),
            row(span(n.remove, " 5:"), "gh    ", span(n.add, "123:"), "gi    "),
        ]
    );
}

#[test]
fn layout_side_by_side_counts_lines_in_either_text() {
    let v = view(8);
    let n = numbers();
    let diffs = vec![
        Diff::Same("one".to_string()),
        Diff::Remove("gone".to_string()),
        Diff::Add("new\nnewer".to_string()),
        Diff::Replace("foo".to_string(), "foobar".to_string()),
        Diff::Same("end".to_string()),
    ];
    assert_eq!(
        layout_side_by_side(&diffs, &v),
        Ok(vec![
            row(span(n.same, " 1:"), "one     ", span(n.same, " 1:"), "one     "),
            row(span(n.remove_highlight, " 2:"), "gone    ", span(n.same, "   "), "        "),
            row(span(n.same, "   "), "        ", span(n.add_highlight, " 2:"), "new     "),
            row(span(n.same, "   "), "        ", span(n.add_highlight, " 3:"), "newer   "),
            row(span(n.remove, " 3:"), "foo     ", span(n.add, " 4:"), "foobar  "),
            row(span(n.same, " 4:"), "end     ", span(n.same, " 5:"), "end     "),
        ])
    );
}

#[test]
fn layout_side_by_side_wraps_long_lines() {
    let v = view(4);
    let n = numbers();
    let diffs = vec![Diff::Same("abcdefg".to_string())];
    assert_eq!(
        layout_side_by_side(&diffs, &v),
        Ok(vec![
            row(span(n.same, " 1:"), "abcd", span(n.same, " 1:"), "abcd"),
            row(span(n.same, "   "), "efg ", span(n.same, "   "), "efg "),
        ])
    );
}

#[test]
fn layout_side_by_side_says_why_it_fails() {
    let diffs = vec![Diff::Same("ok".to_string()), Diff::Add("abcdefghijklm".to_string())];
    assert_eq!(layout_side_by_side(&diffs, &view(4)), Err(WrapError::TooWide));
    assert_eq!(layout_side_by_side(&diffs, &view(0)), Err(WrapError::NoWidth));
    let diffs = vec![Diff::Remove("h\u{e9}llo".to_string())];
    assert_eq!(layout_side_by_side(&diffs, &view(2)), Err(WrapError::SplitsCharacter));
    assert_eq!(layout_side_by_side(&vec![], &view(0)), Ok(vec![]));
}

#[test]
fn column_widths_halve_the_terminal_or_take_the_longest_lines() {
    let diffs = vec![Diff::Same("abc".to_string()), Diff::Add("abcdef".to_string())];
    assert_eq!(column_widths(Some(80), 3, 2, &diffs), (34, 34));
    assert_eq!(column_widths(Some(11), 3, 2, &diffs), (0, 0));
    assert_eq!(column_widths(None, 3, 2, &diffs), (6, 3));
}
