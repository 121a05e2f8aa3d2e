//! Diff classification, line alignment and layout.

pub mod align;
pub mod ansi;
pub mod changeset;
pub mod path;
pub mod render;
pub mod side;
pub mod text;
pub mod wrap;

use crate::diff::changeset::{
    can_tabulate, change_views, changeset, changeset_fits, changeset_of, Change, ChangeView,
};
use crate::diff::text::{lines_of, max_line_len, split_lines, texts, widest};
use vstd::prelude::*;
use vstd::string::StrSliceExecFns;

verus! {

/// One segment of a classified diff.
#[derive(Debug, PartialEq, Eq)]
pub enum Diff {
    Same(String),
    Add(String),
    Remove(String),
    Replace(String, String),
}

/// What a `Diff` holds, as characters.
pub enum DiffView {
    Same(Seq<char>),
    Add(Seq<char>),
    Remove(Seq<char>),
    Replace(Seq<char>, Seq<char>),
}

impl View for Diff {
    type V = DiffView;

    open spec fn view(&self) -> DiffView {
        match self {
            Diff::Same(s) => DiffView::Same(s@),
            Diff::Add(a) => DiffView::Add(a@),
            Diff::Remove(r) => DiffView::Remove(r@),
            Diff::Replace(r, a) => DiffView::Replace(r@, a@),
        }
    }
}

/// The segments of a diff, as characters.
pub open spec fn diff_views(diffs: Seq<Diff>) -> Seq<DiffView> {
    diffs.map_values(|d: Diff| d@)
}

/// What the classifier holds back between two runs of an edit script: an
/// addition or a removal that the next run may turn into a replacement.
#[derive(Debug, PartialEq, Eq)]
pub enum Pending {
    Idle,
    PendingAdd(String),
    PendingRemove(String),
}

/// What a `Pending` holds, as characters.
pub enum PendingView {
    Idle,
    PendingAdd(Seq<char>),
    PendingRemove(Seq<char>),
}

impl View for Pending {
    type V = PendingView;

    open spec fn view(&self) -> PendingView {
        match self {
            Pending::Idle => PendingView::Idle,
            Pending::PendingAdd(a) => PendingView::PendingAdd(a@),
            Pending::PendingRemove(r) => PendingView::PendingRemove(r@),
        }
    }
}

/// The segments that a held-back run becomes when nothing can join it.
pub open spec fn flush(state: PendingView) -> Seq<DiffView> {
    match state {
        PendingView::Idle => Seq::empty(),
        PendingView::PendingAdd(a) => seq![DiffView::Add(a)],
        PendingView::PendingRemove(r) => seq![DiffView::Remove(r)],
    }
}

/// One transition of the classifier: the state after `change`, and the
/// segments that it gives out. A removal and an addition next to each other,
/// in either order, become one replacement. Any other run first sends what
/// was held back on its way.
pub open spec fn step(state: PendingView, change: ChangeView) -> (PendingView, Seq<DiffView>) {
    match (state, change) {
        (PendingView::PendingRemove(r), ChangeView::Add(a)) => (
            PendingView::Idle,
            seq![DiffView::Replace(r, a)],
        ),
        (PendingView::PendingAdd(a), ChangeView::Rem(r)) => (
            PendingView::Idle,
            seq![DiffView::Replace(r, a)],
        ),
        (_, ChangeView::Same(s)) => (PendingView::Idle, flush(state).push(DiffView::Same(s))),
        (_, ChangeView::Add(a)) => (PendingView::PendingAdd(a), flush(state)),
        (_, ChangeView::Rem(r)) => (PendingView::PendingRemove(r), flush(state)),
    }
}

/// The segments that the classifier gives out for `changes`, starting from
/// `state`.
pub open spec fn classify_from(state: PendingView, changes: Seq<ChangeView>) -> Seq<DiffView>
    decreases changes.len(),
{
    if changes.len() == 0 {
        flush(state)
    } else {
        step(state, changes[0]).1 + classify_from(step(state, changes[0]).0, changes.skip(1))
    }
}

/// The classified diff of an edit script.
pub open spec fn classified(changes: Seq<ChangeView>) -> Seq<DiffView> {
    classify_from(PendingView::Idle, changes)
}

/// The texts that the before-side of an edit script holds, run by run:
/// what stayed and what went.
pub open spec fn before_runs(changes: Seq<ChangeView>) -> Seq<Seq<char>>
    decreases changes.len(),
{
    if changes.len() == 0 {
        Seq::empty()
    } else {
        match changes[0] {
            ChangeView::Same(s) => seq![s] + before_runs(changes.skip(1)),
            ChangeView::Rem(r) => seq![r] + before_runs(changes.skip(1)),
            ChangeView::Add(_) => before_runs(changes.skip(1)),
        }
    }
}

/// The texts that the after-side of an edit script holds, run by run: what
/// stayed and what came.
pub open spec fn after_runs(changes: Seq<ChangeView>) -> Seq<Seq<char>>
    decreases changes.len(),
{
    if changes.len() == 0 {
        Seq::empty()
    } else {
        match changes[0] {
            ChangeView::Same(s) => seq![s] + after_runs(changes.skip(1)),
            ChangeView::Add(a) => seq![a] + after_runs(changes.skip(1)),
            ChangeView::Rem(_) => after_runs(changes.skip(1)),
        }
    }
}

/// The texts that the before-side of a classified diff holds, segment by
/// segment.
pub open spec fn before_texts(diffs: Seq<DiffView>) -> Seq<Seq<char>>
    decreases diffs.len(),
{
    if diffs.len() == 0 {
        Seq::empty()
    } else {
        match diffs[0] {
            DiffView::Same(s) => seq![s] + before_texts(diffs.skip(1)),
            DiffView::Remove(r) => seq![r] + before_texts(diffs.skip(1)),
            DiffView::Replace(r, _) => seq![r] + before_texts(diffs.skip(1)),
            DiffView::Add(_) => before_texts(diffs.skip(1)),
        }
    }
}

/// The texts that the after-side of a classified diff holds, segment by
/// segment.
pub open spec fn after_texts(diffs: Seq<DiffView>) -> Seq<Seq<char>>
    decreases diffs.len(),
{
    if diffs.len() == 0 {
        Seq::empty()
    } else {
        match diffs[0] {
            DiffView::Same(s) => seq![s] + after_texts(diffs.skip(1)),
            DiffView::Add(a) => seq![a] + after_texts(diffs.skip(1)),
            DiffView::Replace(_, a) => seq![a] + after_texts(diffs.skip(1)),
            DiffView::Remove(_) => after_texts(diffs.skip(1)),
        }
    }
}

/// The before-texts of two diffs in a row are those of the first, then
/// those of the second; likewise for the after-texts.
pub proof fn lemma_texts_of_both(first: Seq<DiffView>, second: Seq<DiffView>)
    ensures
        before_texts(first + second) == before_texts(first) + before_texts(second),
        after_texts(first + second) == after_texts(first) + after_texts(second),
    decreases first.len(),
{
    if first.len() == 0 {
        assert(first + second =~= second);
        assert(before_texts(first) + before_texts(second) =~= before_texts(second));
        assert(after_texts(first) + after_texts(second) =~= after_texts(second));
    } else {
        lemma_texts_of_both(first.skip(1), second);
        assert((first + second).skip(1) =~= first.skip(1) + second);
        assert((first + second)[0] == first[0]);
        assert(before_texts(first + second) =~= before_texts(first) + before_texts(second));
        assert(after_texts(first + second) =~= after_texts(first) + after_texts(second));
    }
}

/// What the classifier holds back, on the before-side and on the
/// after-side.
pub open spec fn held_back(state: PendingView) -> (Seq<Seq<char>>, Seq<Seq<char>>) {
    match state {
        PendingView::Idle => (Seq::empty(), Seq::empty()),
        PendingView::PendingAdd(a) => (Seq::empty(), seq![a]),
        PendingView::PendingRemove(r) => (seq![r], Seq::empty()),
    }
}

/// The texts of a diff of one segment.
proof fn lemma_texts_of_one(diff: DiffView)
    ensures
        before_texts(seq![diff]) == match diff {
            DiffView::Same(s) => seq![s],
            DiffView::Remove(r) => seq![r],
            DiffView::Replace(r, _) => seq![r],
            DiffView::Add(_) => Seq::<Seq<char>>::empty(),
        },
        after_texts(seq![diff]) == match diff {
            DiffView::Same(s) => seq![s],
            DiffView::Add(a) => seq![a],
            DiffView::Replace(_, a) => seq![a],
            DiffView::Remove(_) => Seq::<Seq<char>>::empty(),
        },
{
    let one = seq![diff];
    assert(one.skip(1) =~= Seq::<DiffView>::empty());
    assert(before_texts(one.skip(1)) =~= Seq::<Seq<char>>::empty());
    assert(after_texts(one.skip(1)) =~= Seq::<Seq<char>>::empty());
    match diff {
        DiffView::Same(s) => {
            assert(seq![s] + Seq::<Seq<char>>::empty() =~= seq![s]);
        },
        DiffView::Add(a) => {
            assert(seq![a] + Seq::<Seq<char>>::empty() =~= seq![a]);
        },
        DiffView::Remove(r) => {
            assert(seq![r] + Seq::<Seq<char>>::empty() =~= seq![r]);
        },
        DiffView::Replace(r, a) => {
            assert(seq![r] + Seq::<Seq<char>>::empty() =~= seq![r]);
            assert(seq![a] + Seq::<Seq<char>>::empty() =~= seq![a]);
        },
    }
}

/// What is sent on its way is what was held back.
proof fn lemma_flush_texts(state: PendingView)
    ensures
        before_texts(flush(state)) == held_back(state).0,
        after_texts(flush(state)) == held_back(state).1,
{
    match state {
        PendingView::Idle => {},
        PendingView::PendingAdd(a) => {
            lemma_texts_of_one(DiffView::Add(a));
        },
        PendingView::PendingRemove(r) => {
            lemma_texts_of_one(DiffView::Remove(r));
        },
    }
}

/// From any state, the classifier gives out on either side the text that it
/// holds back and then the text of the runs that it takes, run by run.
pub proof fn lemma_classify_from_keeps_text(state: PendingView, changes: Seq<ChangeView>)
    ensures
        before_texts(classify_from(state, changes)) == held_back(state).0 + before_runs(changes),
        after_texts(classify_from(state, changes)) == held_back(state).1 + after_runs(changes),
    decreases changes.len(),
{
    let out = classify_from(state, changes);
    lemma_flush_texts(state);
    if changes.len() == 0 {
        assert(before_texts(out) =~= held_back(state).0 + before_runs(changes));
        assert(after_texts(out) =~= held_back(state).1 + after_runs(changes));
    } else {
        let next = step(state, changes[0]).0;
        let given = step(state, changes[0]).1;
        let rest = classify_from(next, changes.skip(1));
        lemma_classify_from_keeps_text(next, changes.skip(1));
        lemma_texts_of_both(given, rest);
        match (state, changes[0]) {
            (PendingView::PendingRemove(r), ChangeView::Add(a)) => {
                lemma_texts_of_one(DiffView::Replace(r, a));
            },
            (PendingView::PendingAdd(a), ChangeView::Rem(r)) => {
                lemma_texts_of_one(DiffView::Replace(r, a));
            },
            (_, ChangeView::Same(s)) => {
                let same = seq![DiffView::Same(s)];
                lemma_texts_of_one(DiffView::Same(s));
                lemma_texts_of_both(flush(state), same);
                assert(given =~= flush(state) + same);
            },
            (_, ChangeView::Add(a)) => {},
            (_, ChangeView::Rem(r)) => {},
        }
        assert(before_texts(out) =~= held_back(state).0 + before_runs(changes));
        assert(after_texts(out) =~= held_back(state).1 + after_runs(changes));
    }
}

/// Classifying neither loses nor invents text: on the before-side and on
/// the after-side, the segments of the classified diff hold the texts of
/// the runs of the edit script, one for one and in order.
pub proof fn lemma_classified_keeps_text(changes: Seq<ChangeView>)
    ensures
        before_texts(classified(changes)) == before_runs(changes),
        after_texts(classified(changes)) == after_runs(changes),
{
    lemma_classify_from_keeps_text(PendingView::Idle, changes);
    assert(Seq::<Seq<char>>::empty() + before_runs(changes) =~= before_runs(changes));
    assert(Seq::<Seq<char>>::empty() + after_runs(changes) =~= after_runs(changes));
}

/// Sends what is held back on its way.
fn commit(state: Pending, diffs: &mut Vec<Diff>)
    ensures
        diff_views(final(diffs)@) == diff_views(old(diffs)@) + flush(state@),
{
    match state {
        Pending::Idle => {},
        Pending::PendingAdd(add) => {
            diffs.push(Diff::Add(add));
        },
        Pending::PendingRemove(rem) => {
            diffs.push(Diff::Remove(rem));
        },
    }
    assert(diff_views(diffs@) =~= diff_views(old(diffs)@) + flush(state@));
}

/// Takes one run of the edit script: appends to `diffs` the segments that it
/// completes and hands back what is held back after it.
pub fn advance(state: Pending, change: Change, diffs: &mut Vec<Diff>) -> (next: Pending)
    ensures
        next@ == step(state@, change@).0,
        diff_views(final(diffs)@) == diff_views(old(diffs)@) + step(state@, change@).1,
{
    let ghost before = diff_views(diffs@);
    let ghost out = step(state@, change@).1;
    match (state, change) {
        (Pending::PendingRemove(rem), Change::Add(add)) => {
            diffs.push(Diff::Replace(rem, add));
            assert(diff_views(diffs@) =~= before + out);
            Pending::Idle
        },
        (Pending::PendingAdd(add), Change::Rem(rem)) => {
            diffs.push(Diff::Replace(rem, add));
            assert(diff_views(diffs@) =~= before + out);
            Pending::Idle
        },
        (state, Change::Same(same)) => {
            commit(state, diffs);
            let ghost flushed = diff_views(diffs@);
            diffs.push(Diff::Same(same));
            assert(diff_views(diffs@) =~= flushed.push(DiffView::Same(same@)));
            assert(diff_views(diffs@) =~= before + out);
            Pending::Idle
        },
        (state, Change::Add(add)) => {
            commit(state, diffs);
            Pending::PendingAdd(add)
        },
        (state, Change::Rem(rem)) => {
            commit(state, diffs);
            Pending::PendingRemove(rem)
        },
    }
}

/// Classifies an edit script: every run becomes a segment of its own kind,
/// but that a removal and an addition next to each other become one
/// replacement.
pub fn classify(changes: Vec<Change>) -> (diffs: Vec<Diff>)
    ensures
        diff_views(diffs@) == classified(change_views(changes@)),
        before_texts(diff_views(diffs@)) == before_runs(change_views(changes@)),
        after_texts(diff_views(diffs@)) == after_runs(change_views(changes@)),
{
    let ghost all = change_views(changes@);
    let mut diffs: Vec<Diff> = Vec::new();
    let mut previous = Pending::Idle;
    proof {
        assert(all.skip(0) =~= all);
        assert(diff_views(diffs@) + classified(all) =~= classified(all));
    }
    for change in iter: changes
        invariant
            iter.seq() == changes@,
            all == change_views(changes@),
            diff_views(diffs@) + classify_from(previous@, all.skip(iter.index() as int))
                == classified(all),
    {
        proof {
            let rest = all.skip(iter.index() as int);
            assert(rest[0] == change@);
            assert(rest.skip(1) =~= all.skip(iter.index() + 1));
        }
        let ghost held = previous@;
        let ghost done = diff_views(diffs@);
        previous = advance(previous, change, &mut diffs);
        proof {
            let rest = all.skip(iter.index() as int);
            assert(diff_views(diffs@) + classify_from(previous@, rest.skip(1)) =~= done + (step(
                held,
                change@,
            ).1 + classify_from(previous@, rest.skip(1))));
        }
    }
    proof {
        assert(all.skip(all.len() as int).len() == 0);
    }
    commit(previous, &mut diffs);
    proof {
        lemma_classified_keeps_text(all);
    }
    diffs
}

fn calculate_diff(left: &str, right: &str, split: &str) -> (diffs: Vec<Diff>)
    requires
        changeset_fits(left@, right@, split@),
    ensures
        diff_views(diffs@) == classified(changeset_of(left@, right@, split@).1),
{
    let (_, changes) = changeset(left, right, split);
    classify(changes)
}

/// The classified diff of two texts, compared line by line.
pub fn calculate_line_diff(left: &str, right: &str) -> (diffs: Vec<Diff>)
    requires
        changeset_fits(left@, right@, seq!['\n']),
    ensures
        diff_views(diffs@) == classified(changeset_of(left@, right@, seq!['\n']).1),
{
    proof {
        reveal_strlit("\n");
        assert("\n"@ =~= seq!['\n']);
    }
    calculate_diff(left, right, "\n")
}

/// The classified diff of two texts, compared character by character.
pub fn calculate_char_diff(left: &str, right: &str) -> (diffs: Vec<Diff>)
    requires
        changeset_fits(left@, right@, Seq::empty()),
    ensures
        diff_views(diffs@) == classified(changeset_of(left@, right@, Seq::empty()).1),
{
    proof {
        reveal_strlit("");
        assert(""@ =~= Seq::<char>::empty());
    }
    calculate_diff(left, right, "")
}

/// The classified diff of two texts, compared line by line, unless the texts
/// have too many lines for their edit script to be computed.
pub fn try_calculate_line_diff(left: &str, right: &str) -> (diffs: Option<Vec<Diff>>)
    ensures
        match diffs {
            Some(d) => changeset_fits(left@, right@, seq!['\n']) && diff_views(d@) == classified(
                changeset_of(left@, right@, seq!['\n']).1,
            ),
            None => !changeset_fits(left@, right@, seq!['\n']),
        },
{
    let lines_l = split_lines(left);
    let lines_r = split_lines(right);
    proof {
        assert(texts(lines_l@).len() == lines_l@.len());
        assert(texts(lines_r@).len() == lines_r@.len());
    }
    if can_tabulate(lines_l.len(), lines_r.len()) {
        Some(calculate_line_diff(left, right))
    } else {
        None
    }
}

/// The classified diff of two texts, compared character by character,
/// unless the texts are too long for their edit script to be computed.
pub fn try_calculate_char_diff(left: &str, right: &str) -> (diffs: Option<Vec<Diff>>)
    ensures
        match diffs {
            Some(d) => changeset_fits(left@, right@, Seq::empty()) && diff_views(d@)
                == classified(changeset_of(left@, right@, Seq::empty()).1),
            None => !changeset_fits(left@, right@, Seq::empty()),
        },
{
    if can_tabulate(left.unicode_len(), right.unicode_len()) {
        Some(calculate_char_diff(left, right))
    } else {
        None
    }
}

/// The greater of two widths.
pub open spec fn wider(a: nat, b: nat) -> nat {
    if b > a {
        b
    } else {
        a
    }
}

/// Two widths for the columns of a side-by-side view, each the longest
/// line, in characters, of the segments that count for it. What stayed
/// counts for both. What came counts for the first and what went for the
/// second, though the view shows them the other way round; in a
/// replacement the before-text counts for the first and the after-text for
/// the second.
pub open spec fn max_line_widths(diffs: Seq<DiffView>) -> (nat, nat)
    decreases diffs.len(),
{
    if diffs.len() == 0 {
        (0, 0)
    } else {
        let before = max_line_widths(diffs.drop_last());
        match diffs.last() {
            DiffView::Same(same) => (
                wider(before.0, widest(lines_of(same))),
                wider(before.1, widest(lines_of(same))),
            ),
            DiffView::Add(add) => (wider(before.0, widest(lines_of(add))), before.1),
            DiffView::Remove(rem) => (before.0, wider(before.1, widest(lines_of(rem)))),
            DiffView::Replace(rem, add) => (
                wider(before.0, widest(lines_of(rem))),
                wider(before.1, widest(lines_of(add))),
            ),
        }
    }
}

/// The two widths that `max_line_widths` gives for `diffs`.
pub fn calc_max_line_width(diffs: &Vec<Diff>) -> (max_width: (usize, usize))
    ensures
        max_width.0 == max_line_widths(diff_views(diffs@)).0,
        max_width.1 == max_line_widths(diff_views(diffs@)).1,
{
    let mut max_width: (usize, usize) = (0, 0);
    let mut i: usize = 0;
    while i < diffs.len()
        invariant
            i <= diffs.len(),
            max_width.0 == max_line_widths(diff_views(diffs@).take(i as int)).0,
            max_width.1 == max_line_widths(diff_views(diffs@).take(i as int)).1,
        decreases diffs.len() - i,
    {
        proof {
            let upto = diff_views(diffs@).take(i + 1);
            assert(upto.drop_last() =~= diff_views(diffs@).take(i as int));
            assert(upto.last() == diffs@[i as int]@);
        }
        match &diffs[i] {
            Diff::Same(same) => {
                let len: usize = max_line_len(same.as_str());
                if len > max_width.0 {
                    max_width.0 = len;
                }
                if len > max_width.1 {
                    max_width.1 = len;
                }
            },
            Diff::Add(add) => {
                let len: usize = max_line_len(add.as_str());
                if len > max_width.0 {
                    max_width.0 = len;
                }
            },
            Diff::Remove(rem) => {
                let len: usize = max_line_len(rem.as_str());
                if len > max_width.1 {
                    max_width.1 = len;
                }
            },
            Diff::Replace(before, after) => {
                let len: usize = max_line_len(before.as_str());
                if len > max_width.0 {
                    max_width.0 = len;
                }
                let len: usize = max_line_len(after.as_str());
                if len > max_width.1 {
                    max_width.1 = len;
                }
            },
        }
        i += 1;
    }
    proof {
        assert(diff_views(diffs@).take(diffs@.len() as int) =~= diff_views(diffs@));
    }
    max_width
}

} // verus!
