use jiff::diff::changeset::Change;
use jiff::diff::wrap::wrap_str;
use jiff::diff::{advance, calculate_char_diff, calculate_line_diff, classify, Diff, Pending};

fn s(text: &str) -> String {
    text.to_string()
}

#[test]
fn line_diff_merges_removal_and_addition() {
    let left = "Roses are red, violets are blue,\nI wrote this library,\njust for you.\n(It's true).";
    let right = "Roses are red, violets are blue,\nI wrote this documentation,\njust for you.\n(It's quite true).";
    assert_eq!(
        calculate_line_diff(left, right),
        vec![
            Diff::Same(s("Roses are red, violets are blue,")),
            Diff::Replace(s("I wrote this library,"), s("I wrote this documentation,")),
            Diff::Same(s("just for you.")),
            Diff::Replace(s("(It's true)."), s("(It's quite true).")),
        ]
    );
}

#[test]
fn line_diff_keeps_trailing_addition() {
    assert_eq!(
        calculate_line_diff("Hello\nworld", "Ola\nworld\nHow is it\ngoing?"),
        vec![
            Diff::Replace(s("Hello"), s("Ola")),
            Diff::Same(s("world")),
            Diff::Add(s("How is it\ngoing?")),
        ]
    );
}

#[test]
fn line_diff_keeps_trailing_removal() {
    assert_eq!(
        calculate_line_diff("Hello\nworld\nWhat a \nbeautiful\nday!", "Hello\nwoRLd\nbeautiful"),
        vec![
            Diff::Same(s("Hello")),
            Diff::Replace(s("world\nWhat a "), s("woRLd")),
            Diff::Same(s("beautiful")),
            Diff::Remove(s("day!")),
        ]
    );
}

#[test]
fn char_diff_of_test_and_tent() {
    assert_eq!(
        calculate_char_diff("test", "tent"),
        vec![Diff::Same(s("te")), Diff::Replace(s("s"), s("n")), Diff::Same(s("t"))]
    );
}

#[test]
fn char_diff_of_equal_and_empty_texts() {
    assert_eq!(calculate_char_diff("same", "same"), vec![Diff::Same(s("same"))]);
    assert_eq!(calculate_char_diff("", ""), vec![]);
    assert_eq!(calculate_char_diff("", "abc"), vec![Diff::Add(s("abc"))]);
    assert_eq!(calculate_char_diff("abc", ""), vec![Diff::Remove(s("abc"))]);
}

#[test]
fn classify_turns_addition_then_removal_into_replacement() {
    let changes = vec![Change::Add(s("new")), Change::Rem(s("old")), Change::Same(s("x"))];
    assert_eq!(
        classify(changes),
        vec![Diff::Replace(s("old"), s("new")), Diff::Same(s("x"))]
    );
}

#[test]
fn classify_sends_a_lone_run_on_before_the_next_same() {
    let changes = vec![
        Change::Same(s("a")),
        Change::Rem(s("b")),
        Change::Same(s("c")),
        Change::Add(s("d")),
    ];
    assert_eq!(
        classify(changes),
        vec![Diff::Same(s("a")), Diff::Remove(s("b")), Diff::Same(s("c")), Diff::Add(s("d"))]
    );
}

#[test]
fn classify_keeps_repeated_runs_apart() {
    let changes = vec![Change::Add(s("a")), Change::Add(s("b")), Change::Rem(s("c"))];
    assert_eq!(classify(changes), vec![Diff::Add(s("a")), Diff::Replace(s("c"), s("b"))]);
    let changes = vec![Change::Rem(s("a")), Change::Rem(s("b"))];
    assert_eq!(classify(changes), vec![Diff::Remove(s("a")), Diff::Remove(s("b"))]);
}

#[test]
fn advance_follows_the_three_states() {
    let mut diffs: Vec<Diff> = Vec::new();
    let state = advance(Pending::Idle, Change::Rem(s("r")), &mut diffs);
    assert_eq!(state, Pending::PendingRemove(s("r")));
    assert_eq!(diffs, vec![]);
    let state = advance(state, Change::Add(s("a")), &mut diffs);
    assert_eq!(state, Pending::Idle);
    assert_eq!(diffs, vec![Diff::Replace(s("r"), s("a"))]);
    let state = advance(state, Change::Add(s("b")), &mut diffs);
    assert_eq!(state, Pending::PendingAdd(s("b")));
    let state = advance(state, Change::Same(s("c")), &mut diffs);
    assert_eq!(state, Pending::Idle);
    assert_eq!(
        diffs,
        vec![Diff::Replace(s("r"), s("a")), Diff::Add(s("b")), Diff::Same(s("c"))]
    );
}

#[test]
fn wrap_str_cuts_pieces_of_the_width() {
    let mut pieces = wrap_str("abcdefgh", 3);
    assert_eq!(pieces.next(), Some("abc"));
    assert_eq!(pieces.next(), Some("def"));
    assert_eq!(pieces.next(), Some("gh"));
    assert_eq!(pieces.next(), None);
    assert_eq!(pieces.next(), None);
}

#[test]
fn wrap_str_gives_one_empty_piece_for_an_empty_string() {
    let mut pieces = wrap_str("", 4);
    assert_eq!(pieces.next(), Some(""));
    assert_eq!(pieces.next(), None);
}

#[test]
fn wrap_str_with_exact_fit_and_wide_width() {
    let mut pieces = wrap_str("abcd", 2);
    assert_eq!(pieces.next(), Some("ab"));
    assert_eq!(pieces.next(), Some("cd"));
    assert_eq!(pieces.next(), None);
    let mut pieces = wrap_str("abcd", 10);
    assert_eq!(pieces.next(), Some("abcd"));
    assert_eq!(pieces.next(), None);
}

#[test]
fn classify_keeps_the_text_of_either_side() {
    let changes = vec![
        Change::Same(s("a")),
        Change::Add(s("b")),
        Change::Rem(s("c")),
        Change::Rem(s("d")),
        Change::Same(s("e")),
        Change::Add(s("f")),
    ];
    let diffs = classify(changes);
    let mut before: Vec<String> = Vec::new();
    let mut after: Vec<String> = Vec::new();
    for d in diffs {
        match d {
            Diff::Same(x) => {
                before.push(x.clone());
                after.push(x);
            }
            Diff::Add(x) => after.push(x),
            Diff::Remove(x) => before.push(x),
            Diff::Replace(x, y) => {
                before.push(x);
                after.push(y);
            }
        }
    }
    assert_eq!(before, vec![s("a"), s("c"), s("d"), s("e")]);
    assert_eq!(after, vec![s("a"), s("b"), s("e"), s("f")]);
}
