//! What a review comes to: each decision by itself, in turn, until one fails.

use vstd::prelude::*;
use crate::overlay::{DiffKind, FileDiff, FileDiffView, HunkView, LineKind};
use crate::review;
use crate::review::{
    ActionView,
    FileReview,
    ReviewAction,
    ReviewErrorView,
    StepView,
};

verus! {

/// What decision `i` comes to by itself.
pub open spec fn outcome(
    diffs: Seq<FileDiff>,
    decisions: Seq<FileReview>,
    originals: Seq<Result<String, String>>,
    i: int,
) -> StepView {
    if decisions[i].file_index >= diffs.len() {
        StepView::Fail(ReviewErrorView::FileIndexOutOfRange(decisions[i].file_index))
    } else {
        review::review_step(
            diffs[decisions[i].file_index as int]@,
            decisions[i].accepted_hunks@,
            review::read_view(originals[i]),
        )
    }
}

/// The decisions among the first `n` that come to a change.
pub open spec fn acting(
    diffs: Seq<FileDiff>,
    decisions: Seq<FileReview>,
    originals: Seq<Result<String, String>>,
    n: nat,
) -> Seq<int> {
    Seq::new(n, |i: int| i).filter(|i: int| outcome(diffs, decisions, originals, i) is Act)
}

/// The decisions among the first `n` that are passed over.
pub open spec fn passing(
    diffs: Seq<FileDiff>,
    decisions: Seq<FileReview>,
    originals: Seq<Result<String, String>>,
    n: nat,
) -> Seq<int> {
    Seq::new(n, |i: int| i).filter(|i: int| outcome(diffs, decisions, originals, i) is Skip)
}

/// A plan holds the changes of the decisions that come to one, in their order, and
/// the paths of those that are passed over; the first decision that fails is what
/// the whole review fails with.
pub proof fn law_plan_in_turn(
    diffs: Seq<FileDiff>,
    decisions: Seq<FileReview>,
    originals: Seq<Result<String, String>>,
    n: nat,
)
    ensures
        match review::planned(diffs, decisions, originals, n as int) {
            Ok((actions, skipped)) => {
                &&& forall|i: int|
                    0 <= i < n ==> !(#[trigger] outcome(diffs, decisions, originals, i) is Fail)
                &&& actions == acting(diffs, decisions, originals, n).map_values(
                    |i: int| outcome(diffs, decisions, originals, i)->Act_0,
                )
                &&& skipped == passing(diffs, decisions, originals, n).map_values(
                    |i: int| diffs[decisions[i].file_index as int]@.path,
                )
            },
            Err(e) => exists|k: int|
                {
                    &&& 0 <= k < n
                    &&& #[trigger] outcome(diffs, decisions, originals, k) == StepView::Fail(e)
                    &&& forall|j: int|
                        0 <= j < k ==> !(#[trigger] outcome(diffs, decisions, originals, j) is Fail)
                },
        },
    decreases n,
{
    reveal(Seq::filter);
    if n > 0 {
        let less = (n - 1) as nat;
        let last = n - 1;
        law_plan_in_turn(diffs, decisions, originals, less);
        assert(Seq::new(n, |i: int| i).drop_last() =~= Seq::new(less, |i: int| i));
        assert(Seq::new(n, |i: int| i).last() == last);
        let step = outcome(diffs, decisions, originals, last);
        match review::planned(diffs, decisions, originals, less as int) {
            Ok((actions, skipped)) => {
                let act = |i: int| outcome(diffs, decisions, originals, i)->Act_0;
                let path = |i: int| diffs[decisions[i].file_index as int]@.path;
                let a = acting(diffs, decisions, originals, less);
                let p = passing(diffs, decisions, originals, less);
                assert(a.push(last).map_values(act) =~= a.map_values(act).push(act(last)));
                assert(p.push(last).map_values(path) =~= p.map_values(path).push(path(last)));
            },
            Err(e) => {},
        }
    } else {
        let none = Seq::new(0nat, |i: int| i);
        assert(none =~= Seq::empty());
        assert(acting(diffs, decisions, originals, 0) =~= Seq::empty());
        assert(passing(diffs, decisions, originals, 0) =~= Seq::empty());
        assert(acting(diffs, decisions, originals, 0).map_values(
            |i: int| outcome(diffs, decisions, originals, i)->Act_0,
        ) =~= Seq::empty());
        assert(passing(diffs, decisions, originals, 0).map_values(
            |i: int| diffs[decisions[i].file_index as int]@.path,
        ) =~= Seq::empty());
    }
}

/// A file of which nothing is accepted is passed over. Of the others one that was
/// deleted is deleted; a binary one that was modified is passed over; a text that
/// was modified cannot go on without its original.
pub proof fn law_outcome_by_kind(
    d: FileDiffView,
    accepted: Set<usize>,
    original: Result<Seq<char>, Seq<char>>,
    h: usize,
)
    ensures
        review::review_step(d, Set::empty(), original) is Skip,
        accepted.contains(h) && d.kind == DiffKind::Deleted ==> review::review_step(
            d,
            accepted,
            original,
        ) == StepView::Act(ActionView::Delete { path: d.path }),
        accepted.contains(h) && d.kind == DiffKind::Added ==> (match review::review_step(
            d,
            accepted,
            original,
        ) {
            StepView::Act(ActionView::Write { path, content }) => path == d.path
                && review::review_step(d, accepted.insert(h), original) == review::review_step(
                d,
                set![h],
                original,
            ),
            _ => false,
        }),
        d.kind == DiffKind::Modified && d.binary ==> review::review_step(
            d,
            accepted,
            original,
        ) is Skip,
        accepted.contains(h) && d.kind == DiffKind::Modified && !d.binary ==> (match original {
            Ok(t) => review::review_step(d, accepted, original) matches StepView::Act(
                ActionView::Write { path, .. },
            ) && path == d.path,
            Err(e) => review::review_step(d, accepted, original) == StepView::Fail(
                ReviewErrorView::ReadOriginal { path: d.path, message: e },
            ),
        }),
{
    assert(!set![h].is_empty()) by {
        assert(set![h].contains(h));
    }
    if accepted.contains(h) {
        assert(!accepted.is_empty());
        assert(accepted.insert(h) =~= accepted);
    }
    assert(Set::<usize>::empty().is_empty());
}

/// The new side of a hunk is its lines that are not removed, the old side those
/// that are not added.
pub proof fn law_sides_of_a_hunk(lines: Seq<(LineKind, Seq<char>)>)
    ensures
        review::side(lines, true) == lines.filter(
            |l: (LineKind, Seq<char>)| l.0 != LineKind::Removed,
        ).map_values(|l: (LineKind, Seq<char>)| l.1),
        review::side(lines, false) == lines.filter(
            |l: (LineKind, Seq<char>)| l.0 != LineKind::Added,
        ).map_values(|l: (LineKind, Seq<char>)| l.1),
    decreases lines.len(),
{
    reveal(Seq::filter);
    let text_of = |l: (LineKind, Seq<char>)| l.1;
    let stay = |l: (LineKind, Seq<char>)| l.0 != LineKind::Removed;
    let were = |l: (LineKind, Seq<char>)| l.0 != LineKind::Added;
    if lines.len() > 0 {
        law_sides_of_a_hunk(lines.drop_last());
        let (s, w) = (lines.drop_last().filter(stay), lines.drop_last().filter(were));
        let last = lines.last();
        assert(s.push(last).map_values(text_of) =~= s.map_values(text_of).push(last.1));
        assert(w.push(last).map_values(text_of) =~= w.map_values(text_of).push(last.1));
    } else {
        assert(review::side(lines, true) =~= Seq::empty());
        assert(lines.filter(stay).map_values(text_of) =~= Seq::empty());
        assert(lines.filter(were).map_values(text_of) =~= Seq::empty());
    }
}

/// The new sides of hunks stand one behind the other.
pub proof fn law_new_sides(hunks: Seq<HunkView>, h: HunkView)
    ensures
        review::new_sides(Seq::empty()) == Seq::<Seq<char>>::empty(),
        review::new_sides(hunks.push(h)) == review::new_sides(hunks) + review::side(h.lines, true),
{
    assert(hunks.push(h).drop_last() =~= hunks);
}

/// Lines are written one behind the other, each with a line end.
pub proof fn law_ended_lines(lines: Seq<Seq<char>>, t: Seq<char>)
    ensures
        review::with_newlines(Seq::empty()) == Seq::<char>::empty(),
        review::with_newlines(lines.push(t)) == review::with_newlines(lines) + t + seq!['\n'],
{
    assert(lines.push(t).drop_last() =~= lines);
}

/// The report counts the changes that wrote, and those that deleted a file that
/// was there.
pub proof fn law_report_counts(actions: Seq<ReviewAction>, existed: Seq<bool>, n: nat)
    ensures
        review::writes(actions, n as int) == Seq::new(n, |i: int| i).filter(
            |i: int| actions[i] is Write,
        ).len(),
        review::deletes(actions, existed, n as int) == Seq::new(n, |i: int| i).filter(
            |i: int| actions[i] is Delete && existed[i],
        ).len(),
    decreases n,
{
    reveal(Seq::filter);
    if n > 0 {
        let less = (n - 1) as nat;
        law_report_counts(actions, existed, less);
        assert(Seq::new(n, |i: int| i).drop_last() =~= Seq::new(less, |i: int| i));
        assert(Seq::new(n, |i: int| i).last() == n - 1);
    }
}

} // verus!
