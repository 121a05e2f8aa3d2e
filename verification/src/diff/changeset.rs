//! The edit script between two texts, as the `difference` crate computes it.

use crate::diff::text::pieces_by;
use difference::{Changeset, Difference};
use vstd::prelude::*;

verus! {

/// One run of an edit script: pieces that both texts have, pieces that only
/// the second has, or pieces that only the first has.
#[derive(Debug)]
pub enum Change {
    Same(String),
    Add(String),
    Rem(String),
}

/// What a `Change` holds, as characters.
pub enum ChangeView {
    Same(Seq<char>),
    Add(Seq<char>),
    Rem(Seq<char>),
}

impl View for Change {
    type V = ChangeView;

    open spec fn view(&self) -> ChangeView {
        match self {
            Change::Same(s) => ChangeView::Same(s@),
            Change::Add(s) => ChangeView::Add(s@),
            Change::Rem(s) => ChangeView::Rem(s@),
        }
    }
}

/// The runs of an edit script, as characters.
pub open spec fn change_views(changes: Seq<Change>) -> Seq<ChangeView> {
    changes.map_values(|c: Change| c@)
}

/// The edit distance and the edit script that `difference::Changeset::new`
/// computes for two texts and the separator that they are split at.
pub uninterp spec fn changeset_of(orig: Seq<char>, edit: Seq<char>, split: Seq<char>) -> (int, Seq<ChangeView>);

/// The number of pieces that a text is compared by: its characters where the
/// separator is empty, else the pieces between the separators.
pub open spec fn piece_count(s: Seq<char>, split: Seq<char>) -> nat {
    if split.len() == 0 {
        s.len()
    } else {
        pieces_by(s, split[0]).len()
    }
}

/// A table of one machine word for each pair of pieces can be allocated:
/// it has no more bytes than `isize::MAX`.
pub open spec fn table_fits(pieces_l: nat, pieces_r: nat) -> bool {
    pieces_l * pieces_r * (usize::BITS / 8) <= isize::MAX
}

/// The edit script between the two texts can be computed: the separator is
/// at most one character, and the table for the pieces can be allocated.
pub open spec fn changeset_fits(orig: Seq<char>, edit: Seq<char>, split: Seq<char>) -> bool {
    &&& split.len() <= 1
    &&& table_fits(piece_count(orig, split), piece_count(edit, split))
}

/// A table for no more than `0x0fff_ffff` pairs of pieces can be allocated
/// on any machine.
pub proof fn lemma_small_table_fits(pieces_l: nat, pieces_r: nat)
    requires
        pieces_l * pieces_r <= 0x0fff_ffff,
    ensures
        table_fits(pieces_l, pieces_r),
{
    let word = (usize::BITS / 8) as int;
    assert(pieces_l * pieces_r * word <= 0x7fff_ffff) by (nonlinear_arith)
        requires
            pieces_l * pieces_r <= 0x0fff_ffff,
            0 <= word <= 8,
    ;
}

/// Whether a table of one machine word for each pair of pieces can be
/// allocated.
pub fn can_tabulate(pieces_l: usize, pieces_r: usize) -> (fits: bool)
    ensures
        fits == table_fits(pieces_l as nat, pieces_r as nat),
{
    let word: usize = (usize::BITS / 8) as usize;
    match pieces_l.checked_mul(pieces_r) {
        None => {
            assert(pieces_l * pieces_r * word > isize::MAX) by (nonlinear_arith)
                requires
                    pieces_l * pieces_r > usize::MAX,
                    word >= 1,
                    usize::MAX >= isize::MAX,
            ;
            false
        },
        Some(pairs) => match pairs.checked_mul(word) {
            None => false,
            Some(bytes) => bytes <= isize::MAX as usize,
        },
    }
}

/// Calls `difference::Changeset::new` and hands back its `distance` and its
/// `diffs`, each `Difference` as the `Change` of the same kind and text.
/// Trusted: the result is the one that the crate computes from the three
/// texts alone, which `changeset_of` names. The crate allocates a table of
/// one word for each pair of pieces and panics where that exceeds what a
/// vector may hold; the precondition leaves those texts out.
#[verifier::external_body]
pub(crate) fn changeset(orig: &str, edit: &str, split: &str) -> (r: (i32, Vec<Change>))
    requires
        changeset_fits(orig@, edit@, split@),
    ensures
        r.0 == changeset_of(orig@, edit@, split@).0,
        change_views(r.1@) == changeset_of(orig@, edit@, split@).1,
{
    let changeset = Changeset::new(orig, edit, split);
    let diffs = changeset.diffs.into_iter().map(|d| match d {
        Difference::Same(s) => Change::Same(s),
        Difference::Add(s) => Change::Add(s),
        Difference::Rem(s) => Change::Rem(s),
    }).collect();
    (changeset.distance, diffs)
}

} // verus!
