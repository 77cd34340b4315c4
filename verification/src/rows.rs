//! Rows of a table: how they are found, counted and removed.

use vstd::prelude::*;

verus! {

/// The views of the rows.
pub open spec fn rows_of<T: View>(rows: Seq<T>) -> Seq<T::V> {
    rows.map_values(|row: T| row@)
}

/// The rows without those with the property `p`.
pub open spec fn without<R>(rows: Seq<R>, p: spec_fn(R) -> bool) -> Seq<R> {
    rows.filter(|row: R| !p(row))
}

/// Whether `i` is the index of the first row with the property `p`.
pub open spec fn is_first<R>(rows: Seq<R>, p: spec_fn(R) -> bool, i: int) -> bool {
    &&& 0 <= i < rows.len()
    &&& p(rows[i])
    &&& forall|j: int| 0 <= j < i ==> !p(#[trigger] rows[j])
}

/// The index of the first row with the property `p`, if any row has it.
pub open spec fn first_where<R>(rows: Seq<R>, p: spec_fn(R) -> bool) -> Option<int> {
    if exists|i: int| is_first(rows, p, i) {
        Some(choose|i: int| is_first(rows, p, i))
    } else {
        None
    }
}

/// There is at most one first row.
pub proof fn lemma_first_where<R>(rows: Seq<R>, p: spec_fn(R) -> bool, i: int)
    requires
        is_first(rows, p, i),
    ensures
        first_where(rows, p) == Some(i),
{
    let k = choose|k: int| is_first(rows, p, k);
    if k < i {
        assert(!p(rows[k]));
    }
    if i < k {
        assert(!p(rows[i]));
    }
}

/// There is a first row where there is one at all.
pub proof fn lemma_first_exists<R>(rows: Seq<R>, p: spec_fn(R) -> bool, i: int)
    requires
        0 <= i < rows.len(),
        p(rows[i]),
    ensures
        first_where(rows, p) matches Some(k) && is_first(rows, p, k) && k <= i,
    decreases i,
{
    if forall|j: int| 0 <= j < i ==> !p(#[trigger] rows[j]) {
        assert(is_first(rows, p, i));
        lemma_first_where(rows, p, i);
    } else {
        let j = choose|j: int| 0 <= j < i && p(#[trigger] rows[j]);
        lemma_first_exists(rows, p, j);
    }
}

/// `first_where` is the index of a first row, or no row has the property.
pub proof fn lemma_first_where_is_first<R>(rows: Seq<R>, p: spec_fn(R) -> bool)
    ensures
        match first_where(rows, p) {
            Some(i) => is_first(rows, p, i),
            None => forall|i: int| 0 <= i < rows.len() ==> !p(#[trigger] rows[i]),
        },
{
    if first_where(rows, p) is None {
        assert forall|i: int| 0 <= i < rows.len() implies !p(#[trigger] rows[i]) by {
            if p(rows[i]) {
                lemma_first_exists(rows, p, i);
            }
        }
    }
}

/// Where the row at `i` stood before others were removed.
pub proof fn lemma_without_origin<R>(rows: Seq<R>, p: spec_fn(R) -> bool, i: int) -> (origin: int)
    requires
        0 <= i < without(rows, p).len(),
    ensures
        0 <= origin < rows.len(),
        rows[origin] == without(rows, p)[i],
        !p(rows[origin]),
    decreases rows.len(),
{
    reveal(Seq::filter);
    let head = rows.drop_last();
    if i < without(head, p).len() {
        lemma_without_origin(head, p, i)
    } else {
        rows.len() - 1
    }
}

/// Rows that stay keep their order.
pub proof fn lemma_without_order<R>(rows: Seq<R>, p: spec_fn(R) -> bool, i: int, j: int) -> (origin:
    (int, int))
    requires
        0 <= i < j < without(rows, p).len(),
    ensures
        0 <= origin.0 < origin.1 < rows.len(),
        rows[origin.0] == without(rows, p)[i],
        rows[origin.1] == without(rows, p)[j],
    decreases rows.len(),
{
    reveal(Seq::filter);
    let head = rows.drop_last();
    if j < without(head, p).len() {
        lemma_without_order(head, p, i, j)
    } else {
        (lemma_without_origin(head, p, i), rows.len() - 1)
    }
}

/// A row without the property stays.
pub proof fn lemma_without_keeps<R>(rows: Seq<R>, p: spec_fn(R) -> bool, i: int) -> (k: int)
    requires
        0 <= i < rows.len(),
        !p(rows[i]),
    ensures
        0 <= k < without(rows, p).len(),
        without(rows, p)[k] == rows[i],
    decreases rows.len(),
{
    reveal(Seq::filter);
    let head = rows.drop_last();
    if i < head.len() {
        lemma_without_keeps(head, p, i)
    } else {
        without(head, p).len() as int
    }
}

/// To remove rows adds none.
pub proof fn lemma_without_len<R>(rows: Seq<R>, p: spec_fn(R) -> bool)
    ensures
        without(rows, p).len() <= rows.len(),
    decreases rows.len(),
{
    reveal(Seq::filter);
    if rows.len() > 0 {
        lemma_without_len(rows.drop_last(), p);
    }
}

/// Where no row has the property, all rows stay.
pub proof fn lemma_without_none<R>(rows: Seq<R>, p: spec_fn(R) -> bool)
    requires
        forall|i: int| 0 <= i < rows.len() ==> !p(#[trigger] rows[i]),
    ensures
        without(rows, p) == rows,
    decreases rows.len(),
{
    reveal(Seq::filter);
    if rows.len() > 0 {
        let head = rows.drop_last();
        assert forall|i: int| 0 <= i < head.len() implies !p(#[trigger] head[i]) by {
            assert(head[i] == rows[i]);
        }
        lemma_without_none(head, p);
        assert(head.push(rows.last()) =~= rows);
    } else {
        assert(without(rows, p) =~= rows);
    }
}

/// The index of the first row that `test` holds of.
pub(crate) fn position<T: View, F: Fn(&T) -> bool>(
    rows: &Vec<T>,
    test: F,
    Ghost(p): Ghost<spec_fn(T::V) -> bool>,
) -> (index: Option<usize>)
    requires
        forall|row: &T| call_requires(test, (row,)),
        forall|row: &T, b: bool| call_ensures(test, (row,), b) ==> b == p(row@),
    ensures
        match index {
            Some(i) => first_where(rows_of(rows@), p) == Some(i as int) && is_first(
                rows_of(rows@),
                p,
                i as int,
            ),
            None => first_where(rows_of(rows@), p) is None && forall|i: int|
                0 <= i < rows@.len() ==> !p(#[trigger] rows_of(rows@)[i]),
        },
{
    let ghost views = rows_of(rows@);
    let mut i: usize = 0;
    while i < rows.len()
        invariant
            i <= rows.len(),
            views == rows_of(rows@),
            forall|row: &T| call_requires(test, (row,)),
            forall|row: &T, b: bool| call_ensures(test, (row,), b) ==> b == p(row@),
            forall|j: int| 0 <= j < i ==> !p(#[trigger] views[j]),
        decreases rows.len() - i,
    {
        if test(&rows[i]) {
            proof {
                assert(is_first(views, p, i as int));
                lemma_first_where(views, p, i as int);
            }
            return Some(i);
        }
        i = i + 1;
    }
    proof {
        lemma_first_where_is_first(views, p);
    }
    None
}

/// Removes the rows that `test` holds of.
pub(crate) fn remove_where<T: View, F: Fn(&T) -> bool>(
    rows: &mut Vec<T>,
    test: F,
    Ghost(p): Ghost<spec_fn(T::V) -> bool>,
)
    requires
        forall|row: &T| call_requires(test, (row,)),
        forall|row: &T, b: bool| call_ensures(test, (row,), b) ==> b == p(row@),
    ensures
        rows_of(final(rows)@) == without(rows_of(old(rows)@), p),
{
    let ghost all = rows_of(rows@);
    let ghost keep = |row: T::V| !p(row);
    let ghost mut k: int = 0;
    let mut i: usize = 0;
    proof {
        reveal(Seq::filter);
        assert(all.take(0).filter(keep) =~= rows_of(rows@).take(0));
    }
    while i < rows.len()
        invariant
            i <= rows.len(),
            0 <= k <= all.len(),
            rows.len() - i == all.len() - k,
            keep == (|row: T::V| !p(row)),
            forall|row: &T| call_requires(test, (row,)),
            forall|row: &T, b: bool| call_ensures(test, (row,), b) ==> b == p(row@),
            rows_of(rows@).take(i as int) == all.take(k).filter(keep),
            rows_of(rows@).skip(i as int) == all.skip(k),
        decreases rows.len() - i,
    {
        let ghost before = rows_of(rows@);
        proof {
            reveal(Seq::filter);
            assert(all.take(k + 1).drop_last() =~= all.take(k));
            assert(all.skip(k)[0] == before.skip(i as int)[0]);
            assert(all.skip(k).skip(1) =~= all.skip(k + 1));
            assert(before.skip(i as int).skip(1) =~= before.skip(i + 1));
        }
        if test(&rows[i]) {
            rows.remove(i);
            proof {
                assert(rows_of(rows@).take(i as int) =~= before.take(i as int));
                assert(rows_of(rows@).skip(i as int) =~= before.skip(i + 1));
            }
        } else {
            i = i + 1;
            proof {
                assert(before.take(i as int) =~= before.take(i - 1).push(before[i - 1]));
            }
        }
        proof {
            k = k + 1;
        }
    }
    proof {
        assert(all.take(k) =~= all);
        assert(rows_of(rows@).take(i as int) =~= rows_of(rows@));
    }
}

} // verus!
