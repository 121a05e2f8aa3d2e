use ansi_term::Style;
use jiff::diff::align::{lines_can_align, try_align, MAX_LINES, WEIGHT_LIMIT};
use jiff::diff::changeset::can_tabulate;
use jiff::diff::render::{
    segment_can_align, segments_can_align, try_layout_diffs, DiffStyling, Printed, Span, Styles,
};
use jiff::diff::side::{try_column_widths, try_layout_side_by_side, Row, SideBySide};
use jiff::diff::wrap::{wrap_str, WrapError};
use jiff::diff::{try_calculate_char_diff, try_calculate_line_diff, Diff};

fn plain() -> DiffStyling {
    DiffStyling {
        same: Style::default(),
        add: Style::default(),
        add_highlight: Style::default(),
        remove: Style::default(),
        remove_highlight: Style::default(),
    }
}

#[test]
fn limits_are_what_they_say() {
    assert_eq!(MAX_LINES, 2147483647);
    assert_eq!(WEIGHT_LIMIT, 1i128 << 94);
}

#[test]
fn can_tabulate_up_to_isize_max_bytes() {
    let word = (usize::BITS / 8) as usize;
    let most = isize::MAX as usize / word;
    assert!(can_tabulate(0, 0));
    assert!(can_tabulate(0, usize::MAX));
    assert!(can_tabulate(usize::MAX, 0));
    assert!(can_tabulate(1000, 1000));
    assert!(can_tabulate(most, 1));
    assert!(can_tabulate(1, most));
    assert!(!can_tabulate(most + 1, 1));
    assert!(!can_tabulate(most / 2 + 1, 2));
    assert!(!can_tabulate(usize::MAX, usize::MAX));
    assert!(!can_tabulate(usize::MAX, 2));
}

#[test]
fn short_lines_can_align() {
    assert!(lines_can_align(&vec!["a", "bc"], &vec!["d"]));
    assert!(lines_can_align(&vec![], &vec![]));
    assert_eq!(
        try_align(&vec!["foo"], &vec!["foobar"]),
        Some(vec![(Some("foo"), Some("foobar"))])
    );
    assert_eq!(try_align(&vec![], &vec!["x"]), Some(vec![(None, Some("x"))]));
}

#[test]
fn try_diffs_give_the_diffs() {
    assert_eq!(
        try_calculate_line_diff("a\nb", "a\nc"),
        Some(vec![Diff::Same("a".to_string()), Diff::Replace("b".to_string(), "c".to_string())])
    );
    assert_eq!(
        try_calculate_char_diff("ab", "ac"),
        Some(vec![Diff::Same("a".to_string()), Diff::Replace("b".to_string(), "c".to_string())])
    );
}

#[test]
fn segments_can_align_when_their_lines_are_short() {
    let replace = Diff::Replace("a\nb".to_string(), "c".to_string());
    assert!(segment_can_align(&replace));
    assert!(segment_can_align(&Diff::Same("a".to_string())));
    assert!(segments_can_align(&vec![replace, Diff::Add("x".to_string())]));
    assert!(segments_can_align(&vec![]));
}

#[test]
fn try_layouts_give_the_layouts() {
    let styles = Styles { margin: plain(), line: plain(), plain: Style::default() };
    let diffs = vec![Diff::Add("x".to_string())];
    let d = Style::default();
    assert_eq!(
        try_layout_diffs(&diffs, &styles),
        Some(vec![Printed::Line(
            Span { style: d, text: "+ ".to_string() },
            Span { style: d, text: "x".to_string() }
        )])
    );
    let view = SideBySide {
        lineno_styling: plain(),
        line_styling: plain(),
        lineno_width: 1,
        line_width: (3, 3),
    };
    assert_eq!(
        try_layout_side_by_side(&diffs, &view),
        Some(Ok(vec![Row {
            margin_l: Span { style: d, text: "  ".to_string() },
            left: "   ".to_string(),
            margin_r: Span { style: d, text: "1:".to_string() },
            right: "x  ".to_string(),
        }]))
    );
    let narrow = SideBySide {
        lineno_styling: plain(),
        line_styling: plain(),
        lineno_width: 1,
        line_width: (3, 0),
    };
    assert_eq!(try_layout_side_by_side(&diffs, &narrow), Some(Err(WrapError::NoWidth)));
    let endless = SideBySide {
        lineno_styling: plain(),
        line_styling: plain(),
        lineno_width: usize::MAX,
        line_width: (3, 3),
    };
    assert_eq!(try_layout_side_by_side(&diffs, &endless), None);
}

#[test]
fn try_column_widths_refuses_a_narrow_terminal() {
    let diffs = vec![Diff::Same("abc".to_string())];
    assert_eq!(try_column_widths(Some(80), 3, 2, &diffs), Some((34, 34)));
    assert_eq!(try_column_widths(Some(11), 3, 2, &diffs), Some((0, 0)));
    assert_eq!(try_column_widths(Some(10), 3, 2, &diffs), None);
    assert_eq!(try_column_widths(Some(2), 3, 2, &diffs), None);
    assert_eq!(try_column_widths(None, 3, 2, &diffs), Some((3, 3)));
    assert_eq!(try_column_widths(None, 3, usize::MAX, &diffs), None);
    assert_eq!(try_column_widths(None, 3, usize::MAX - 2, &diffs), Some((3, 3)));
}

#[test]
fn wrap_str_try_next_refuses_to_cut_within_a_character() {
    let mut pieces = wrap_str("h\u{e9}llo", 2);
    assert_eq!(pieces.try_next(), Err(WrapError::SplitsCharacter));
    let mut pieces = wrap_str("h\u{e9}llo", 3);
    assert_eq!(pieces.try_next(), Ok(Some("h\u{e9}")));
    assert_eq!(pieces.try_next(), Ok(Some("llo")));
    assert_eq!(pieces.try_next(), Ok(None));
    let mut pieces = wrap_str("abc", usize::MAX);
    assert_eq!(pieces.try_next(), Ok(Some("abc")));
    assert_eq!(pieces.try_next(), Ok(None));
}

#[test]
fn wrap_str_with_no_width_never_ends() {
    let mut pieces = wrap_str("abc", 0);
    assert_eq!(pieces.next(), Some(""));
    assert_eq!(pieces.next(), Some(""));
    assert_eq!(pieces.try_next(), Ok(Some("")));
}

#[test]
fn a_wide_column_is_filled_with_spaces() {
    let spans: Vec<Span> = vec![];
    let mut pieces = jiff::diff::wrap::wrap_ansistrings(&spans, 100000);
    assert_eq!(pieces.next(), Some(" ".repeat(100000)));
    assert_eq!(pieces.next(), None);
    let spans = vec![Span { style: Style::default(), text: "ab".to_string() }];
    let mut pieces = jiff::diff::wrap::wrap_ansistrings(&spans, 70000);
    assert_eq!(pieces.try_next(), Ok(Some(format!("ab{}", " ".repeat(69998)))));
}

#[test]
fn a_width_beyond_any_string_is_refused() {
    let spans = vec![Span { style: Style::default(), text: "ab".to_string() }];
    let mut pieces = jiff::diff::wrap::wrap_ansistrings(&spans, isize::MAX as usize + 1);
    assert_eq!(pieces.try_next(), Err(WrapError::TooLong));
    let mut pieces = jiff::diff::wrap::wrap_ansistrings(&spans, usize::MAX);
    assert_eq!(pieces.try_next(), Err(WrapError::TooLong));
    assert_eq!(
        jiff::diff::side::wrapped_pieces(&spans, usize::MAX),
        Err(WrapError::TooLong)
    );
}

#[test]
fn a_long_line_beside_a_short_one_is_laid_out() {
    let long = "x".repeat(70000);
    let diffs = vec![Diff::Replace("a".to_string(), long.clone())];
    let view = SideBySide {
        lineno_styling: plain(),
        line_styling: plain(),
        lineno_width: 1,
        line_width: (1, 70000),
    };
    let rows = try_layout_side_by_side(&diffs, &view).unwrap().unwrap();
    assert_eq!(rows.len(), 1);
    assert_eq!(rows[0].left, "a");
    assert_eq!(rows[0].right, long);
    let view = SideBySide {
        lineno_styling: plain(),
        line_styling: plain(),
        lineno_width: 1,
        line_width: (70000, 70000),
    };
    let rows = try_layout_side_by_side(&diffs, &view).unwrap().unwrap();
    assert_eq!(rows[0].left, format!("a{}", " ".repeat(69999)));
}

#[test]
fn line_numbers_wider_than_their_margin_are_not_cut() {
    let view = SideBySide {
        lineno_styling: plain(),
        line_styling: plain(),
        lineno_width: 2,
        line_width: (1, 1),
    };
    let mut rows = Vec::new();
    assert_eq!(
        jiff::diff::side::push_event_rows(
            &view,
            jiff::diff::side::LineEvent::Same("a"),
            100,
            7,
            &mut rows
        ),
        Ok(())
    );
    assert_eq!(rows[0].margin_l.text, "100:");
    assert_eq!(rows[0].margin_r.text, " 7:");
    let view = SideBySide {
        lineno_styling: plain(),
        line_styling: plain(),
        lineno_width: 0,
        line_width: (1, 1),
    };
    let mut rows = Vec::new();
    assert_eq!(
        jiff::diff::side::push_event_rows(
            &view,
            jiff::diff::side::LineEvent::Same("a"),
            0,
            12,
            &mut rows
        ),
        Ok(())
    );
    assert_eq!(rows[0].margin_l.text, "0:");
    assert_eq!(rows[0].margin_r.text, "12:");
}

#[test]
fn a_number_width_that_cannot_be_formatted_is_refused() {
    let diffs = vec![Diff::Add("x".to_string())];
    let widest = SideBySide {
        lineno_styling: plain(),
        line_styling: plain(),
        lineno_width: jiff::diff::side::MAX_NUMBER_WIDTH,
        line_width: (3, 3),
    };
    let rows = try_layout_side_by_side(&diffs, &widest).unwrap().unwrap();
    assert_eq!(rows[0].margin_r.text, format!("{}1:", " ".repeat(65534)));
    assert_eq!(rows[0].margin_l.text, " ".repeat(65536));
    let too_wide = SideBySide {
        lineno_styling: plain(),
        line_styling: plain(),
        lineno_width: jiff::diff::side::MAX_NUMBER_WIDTH + 1,
        line_width: (3, 3),
    };
    assert_eq!(try_layout_side_by_side(&diffs, &too_wide), None);
}

#[test]
fn a_fresh_grid_is_unrelaxed_and_try_new_builds_it() {
    let m = jiff::diff::align::AlignmentMatrix::try_new(&vec![], &vec![]).unwrap();
    assert_eq!(m.width(), 1);
    assert_eq!(m.height(), 1);
    assert_eq!(m.node(0, 0).weight, -1);
    assert_eq!(m.node(0, 0).relax_weight, i128::MAX);
    assert_eq!(m.node(0, 0).relax_parent, jiff::diff::align::Point { x: 0, y: 0 });
    assert_eq!(m.exit(), None);
    let m = jiff::diff::align::AlignmentMatrix::try_new(&vec!["ab"], &vec!["cd", "e"]).unwrap();
    for x in 0..m.width() {
        for y in 0..m.height() {
            assert_eq!(m.node(x, y).id, jiff::diff::align::Point { x, y });
            assert_eq!(m.node(x, y).relax_weight, i128::MAX);
            assert_eq!(m.node(x, y).relax_parent, jiff::diff::align::Point { x: 0, y: 0 });
        }
    }
}
