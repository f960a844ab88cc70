//! Tables: sequences of rows, and what a step on one of them leaves.

use vstd::prelude::*;

verus! {

/// The first row of which `fits` holds.
pub open spec fn row_of<R>(rows: Seq<R>, fits: spec_fn(R) -> bool) -> Option<R>
    decreases rows.len(),
{
    if rows.len() == 0 {
        None
    } else {
        match row_of(rows.drop_last(), fits) {
            Some(r) => Some(r),
            None => if fits(rows.last()) {
                Some(rows.last())
            } else {
                None
            },
        }
    }
}

/// The rows of which `fits` holds, in order.
pub open spec fn rows_of<R>(rows: Seq<R>, fits: spec_fn(R) -> bool) -> Seq<R>
    decreases rows.len(),
{
    if rows.len() == 0 {
        Seq::empty()
    } else {
        let front = rows_of(rows.drop_last(), fits);
        if fits(rows.last()) {
            front.push(rows.last())
        } else {
            front
        }
    }
}

/// The rows of which `fits` does not hold, in order.
pub open spec fn rows_without<R>(rows: Seq<R>, fits: spec_fn(R) -> bool) -> Seq<R> {
    rows_of(rows, |r: R| !fits(r))
}

/// The rows, with `row` in place of each of which `fits` holds.
pub open spec fn rows_with<R>(rows: Seq<R>, fits: spec_fn(R) -> bool, row: R) -> Seq<R> {
    rows.map_values(
        |r: R|
            if fits(r) {
                row
            } else {
                r
            },
    )
}

/// There is a row exactly where one of the rows is one.
pub proof fn lemma_row_of<R>(rows: Seq<R>, fits: spec_fn(R) -> bool)
    ensures
        row_of(rows, fits) is Some <==> exists|i: int| 0 <= i < rows.len() && fits(#[trigger] rows[i]),
        row_of(rows, fits) matches Some(r) ==> fits(r) && rows.contains(r),
    decreases rows.len(),
{
    if rows.len() > 0 {
        let front = rows.drop_last();
        lemma_row_of(front, fits);
        if row_of(front, fits) is Some {
            let i = choose|i: int| 0 <= i < front.len() && fits(#[trigger] front[i]);
            assert(fits(rows[i]));
            let r = row_of(front, fits)->0;
            let k = choose|k: int| 0 <= k < front.len() && front[k] == r;
            assert(rows[k] == r);
        } else if fits(rows.last()) {
            assert(rows[rows.len() - 1] == rows.last());
        } else {
            assert forall|i: int| 0 <= i < rows.len() implies !fits(#[trigger] rows[i]) by {
                if i < front.len() {
                    assert(front[i] == rows[i]);
                }
            }
        }
    }
}

/// Once rows are gone they are not found, the others are as they were, and
/// nothing more goes the next time.
pub proof fn lemma_without<R>(rows: Seq<R>, fits: spec_fn(R) -> bool, other: spec_fn(R) -> bool)
    requires
        forall|r: R| #[trigger] other(r) ==> !fits(r),
    ensures
        row_of(rows_without(rows, fits), fits) is None,
        row_of(rows_without(rows, fits), other) == row_of(rows, other),
        rows_without(rows_without(rows, fits), fits) == rows_without(rows, fits),
        row_of(rows, fits) is None ==> rows_without(rows, fits) == rows,
    decreases rows.len(),
{
    if rows.len() > 0 {
        let front = rows.drop_last();
        let last = rows.last();
        lemma_without(front, fits, other);
        let kept = rows_without(rows, fits);
        if !fits(last) {
            assert(kept.drop_last() =~= rows_without(front, fits));
            assert(kept.last() == last);
            if row_of(rows, fits) is None {
                assert(kept =~= rows);
            }
        }
    } else {
        assert(rows_without(rows, fits) =~= rows);
    }
}

/// A row that comes last is found where none was; the others are as they were.
pub proof fn lemma_added<R>(
    rows: Seq<R>,
    row: R,
    fits: spec_fn(R) -> bool,
    other: spec_fn(R) -> bool,
)
    requires
        row_of(rows, fits) is None,
        fits(row),
        !other(row),
    ensures
        row_of(rows.push(row), fits) == Some(row),
        row_of(rows.push(row), other) == row_of(rows, other),
{
    assert(rows.push(row).drop_last() =~= rows);
}

/// A row that takes the place of one is found there; the others are as they
/// were.
pub proof fn lemma_replaced<R>(
    rows: Seq<R>,
    row: R,
    fits: spec_fn(R) -> bool,
    other: spec_fn(R) -> bool,
)
    requires
        fits(row),
        !other(row),
        forall|r: R| #[trigger] other(r) ==> !fits(r),
    ensures
        row_of(rows, fits) is Some ==> row_of(rows_with(rows, fits, row), fits) == Some(row),
        row_of(rows_with(rows, fits, row), other) == row_of(rows, other),
        row_of(rows, fits) is None ==> row_of(rows_with(rows, fits, row), fits) is None,
    decreases rows.len(),
{
    if rows.len() > 0 {
        lemma_replaced(rows.drop_last(), row, fits, other);
        assert(rows_with(rows, fits, row).drop_last() =~= rows_with(rows.drop_last(), fits, row));
    }
}

/// Where there is no row, there are none; replacing keeps their number, and one
/// that comes last is one more.
pub proof fn lemma_how_many<R>(rows: Seq<R>, row: R, fits: spec_fn(R) -> bool)
    requires
        fits(row),
    ensures
        row_of(rows, fits) is None <==> rows_of(rows, fits).len() == 0,
        rows_of(rows_with(rows, fits, row), fits).len() == rows_of(rows, fits).len(),
        rows_of(rows.push(row), fits).len() == rows_of(rows, fits).len() + 1,
    decreases rows.len(),
{
    assert(rows.push(row).drop_last() =~= rows);
    if rows.len() > 0 {
        lemma_how_many(rows.drop_last(), row, fits);
        assert(rows_with(rows, fits, row).drop_last() =~= rows_with(rows.drop_last(), fits, row));
    }
}

/// Rows behind rows that are none of them are all there is of them.
pub proof fn lemma_rows_added<R>(rows: Seq<R>, more: Seq<R>, fits: spec_fn(R) -> bool)
    requires
        row_of(rows, fits) is None,
        forall|i: int| 0 <= i < more.len() ==> fits(#[trigger] more[i]),
    ensures
        rows_of(rows + more, fits) == more,
    decreases rows.len() + more.len(),
{
    if more.len() > 0 {
        assert((rows + more).drop_last() =~= rows + more.drop_last());
        assert((rows + more).last() == more.last());
        lemma_rows_added(rows, more.drop_last(), fits);
        assert(more[more.len() - 1] == more.last());
        assert(more =~= more.drop_last().push(more.last()));
    } else {
        assert(rows + more =~= rows);
        if rows.len() > 0 {
            lemma_rows_added(rows.drop_last(), more, fits);
            assert(rows.drop_last() + more =~= rows.drop_last());
        }
        assert(more =~= Seq::empty());
    }
}

} // verus!
