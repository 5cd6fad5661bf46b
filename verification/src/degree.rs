//! Counting the set cells of a row of booleans.

use vstd::prelude::*;

verus! {

/// The number of `true` cells in the row.
pub open spec fn degree(row: Seq<bool>) -> nat
    decreases row.len(),
{
    if row.len() == 0 {
        0
    } else {
        degree(row.drop_last()) + if row.last() {
            1nat
        } else {
            0nat
        }
    }
}

/// Counts the `true` cells of a row.
pub fn row_degree(row: &Vec<bool>) -> (d: usize)
    ensures
        d == degree(row@),
{
    let mut d: usize = 0;
    let mut i: usize = 0;
    proof {
        assert(row@.take(0) =~= Seq::<bool>::empty());
    }
    while i < row.len()
        invariant
            i <= row.len(),
            d <= i,
            d == degree(row@.take(i as int)),
        decreases row.len() - i,
    {
        proof {
            assert(row@.take(i + 1).drop_last() =~= row@.take(i as int));
        }
        if row[i] {
            d += 1;
        }
        i += 1;
    }
    assert(row@.take(i as int) =~= row@);
    d
}

/// A row has no more set cells than cells; if it has as many, all are set;
/// if it has fewer, some cell is clear; if it has any, some cell is set.
pub proof fn lemma_degree_bounds(row: Seq<bool>)
    ensures
        degree(row) <= row.len(),
        degree(row) == row.len() ==> forall|i: int| 0 <= i < row.len() ==> row[i],
        degree(row) < row.len() ==> exists|i: int| 0 <= i < row.len() && !row[i],
        degree(row) > 0 ==> exists|i: int| 0 <= i < row.len() && row[i],
    decreases row.len(),
{
    if row.len() > 0 {
        let init = row.drop_last();
        lemma_degree_bounds(init);
        if degree(row) == row.len() {
            assert forall|i: int| 0 <= i < row.len() implies row[i] by {
                if i < init.len() {
                    assert(init[i]);
                }
            }
        }
        if degree(row) < row.len() {
            if row.last() {
                let i = choose|i: int| 0 <= i < init.len() && !init[i];
                assert(!row[i]);
            } else {
                assert(!row[row.len() - 1]);
            }
        }
        if degree(row) > 0 {
            if row.last() {
                assert(row[row.len() - 1]);
            } else {
                let i = choose|i: int| 0 <= i < init.len() && init[i];
                assert(row[i]);
            }
        }
    }
}

/// Setting a clear cell adds one to the degree.
pub proof fn lemma_degree_set(row: Seq<bool>, i: int)
    requires
        0 <= i < row.len(),
        !row[i],
    ensures
        degree(row.update(i, true)) == degree(row) + 1,
    decreases row.len(),
{
    let next = row.update(i, true);
    if i == row.len() - 1 {
        assert(next.drop_last() =~= row.drop_last());
    } else {
        lemma_degree_set(row.drop_last(), i);
        assert(next.drop_last() =~= row.drop_last().update(i, true));
    }
}

/// A row whose set cells are all set in another has no greater degree, and
/// a smaller one if the other has a set cell more.
pub proof fn lemma_degree_monotone(q: Seq<bool>, p: Seq<bool>)
    requires
        q.len() == p.len(),
        forall|i: int| 0 <= i < q.len() && q[i] ==> p[i],
    ensures
        degree(q) <= degree(p),
        (exists|i: int| 0 <= i < p.len() && p[i] && !q[i]) ==> degree(q) < degree(p),
    decreases q.len(),
{
    if q.len() > 0 {
        let qi = q.drop_last();
        let pi = p.drop_last();
        assert forall|i: int| 0 <= i < qi.len() && qi[i] implies pi[i] by {
            assert(q[i]);
        }
        lemma_degree_monotone(qi, pi);
        if exists|i: int| 0 <= i < p.len() && p[i] && !q[i] {
            let i = choose|i: int| 0 <= i < p.len() && p[i] && !q[i];
            if i < pi.len() {
                assert(pi[i] && !qi[i]);
            }
        }
    }
}

} // verus!
