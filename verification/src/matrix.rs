//! Dense matrices as vectors of rows.

use vstd::prelude::*;
use vstd::std_specs::cmp::PartialEqSpec;

verus! {

/// A vector of rows as a sequence of sequences.
pub open spec fn grid<T>(m: Vec<Vec<T>>) -> Seq<Seq<T>> {
    Seq::new(m@.len(), |r: int| m@[r]@)
}

/// The matrix has `rows` rows of `cols` cells each.
pub open spec fn has_shape<T>(m: Seq<Seq<T>>, rows: nat, cols: nat) -> bool {
    m.len() == rows && forall|r: int| 0 <= r < rows ==> (#[trigger] m[r]).len() == cols
}

/// The matrix with the cell at row `r`, column `i` replaced by `v`.
pub open spec fn with_cell<T>(m: Seq<Seq<T>>, r: int, i: int, v: T) -> Seq<Seq<T>> {
    m.update(r, m[r].update(i, v))
}

/// Writes `v` to the cell at row `r`, column `i`.
pub fn set_cell<T>(m: &mut Vec<Vec<T>>, r: usize, i: usize, v: T)
    requires
        r < grid(*old(m)).len(),
        i < grid(*old(m))[r as int].len(),
    ensures
        grid(*final(m)) == with_cell(grid(*old(m)), r as int, i as int, v),
{
    m[r][i] = v;
    assert(grid(*m) =~= with_cell(grid(*old(m)), r as int, i as int, v));
}

/// Every row is as long as the first.
pub open spec fn rectangular<T>(m: Seq<Seq<T>>) -> bool {
    forall|r: int| 0 <= r < m.len() ==> (#[trigger] m[r]).len() == m[0].len()
}

/// The matrix of a graph is symmetric.
pub open spec fn symmetric(m: Seq<Seq<bool>>) -> bool {
    forall|a: int, b: int|
        0 <= a < m.len() && 0 <= b < m.len() ==> #[trigger] m[a][b] == m[b][a]
}

/// No node is its own neighbour.
pub open spec fn irreflexive(m: Seq<Seq<bool>>) -> bool {
    forall|a: int| 0 <= a < m.len() ==> !#[trigger] m[a][a]
}

/// A matrix of `rows` by `cols` cells, each holding `v`.
pub fn filled<T: Copy>(rows: usize, cols: usize, v: T) -> (m: Vec<Vec<T>>)
    ensures
        has_shape(grid(m), rows as nat, cols as nat),
        forall|r: int, i: int| 0 <= r < rows && 0 <= i < cols ==> (#[trigger] grid(m)[r][i]) == v,
{
    let mut m: Vec<Vec<T>> = Vec::new();
    let mut r: usize = 0;
    while r < rows
        invariant
            r <= rows,
            m@.len() == r,
            forall|a: int| 0 <= a < r ==> (#[trigger] m@[a])@.len() == cols,
            forall|a: int, i: int| 0 <= a < r && 0 <= i < cols ==> (#[trigger] m@[a]@[i]) == v,
        decreases rows - r,
    {
        let mut row: Vec<T> = Vec::new();
        let mut i: usize = 0;
        while i < cols
            invariant
                i <= cols,
                row@.len() == i,
                forall|j: int| 0 <= j < i ==> (#[trigger] row@[j]) == v,
            decreases cols - i,
        {
            row.push(v);
            i += 1;
        }
        m.push(row);
        r += 1;
    }
    m
}

/// Whether every cell of the matrix equals `null_value`.
pub open spec fn all_null<T: PartialEq>(m: Seq<Seq<T>>, null_value: T) -> bool {
    forall|r: int, i: int|
        0 <= r < m.len() && 0 <= i < m[r].len() ==> (#[trigger] m[r][i]).eq_spec(&null_value)
}

/// Tells whether every cell of the matrix equals `null_value`, for a cell
/// type whose `==` has a stated meaning.
pub fn is_empty<T: PartialEq>(matrix_graph: &Vec<Vec<T>>, null_value: T) -> (empty: bool)
    ensures
        T::obeys_eq_spec() ==> empty == all_null(grid(*matrix_graph), null_value),
{
    let mut r: usize = 0;
    while r < matrix_graph.len()
        invariant
            r <= matrix_graph.len(),
            T::obeys_eq_spec() ==> forall|a: int, i: int|
                0 <= a < r && 0 <= i < grid(*matrix_graph)[a].len() ==> (#[trigger] grid(
                    *matrix_graph,
                )[a][i]).eq_spec(&null_value),
        decreases matrix_graph.len() - r,
    {
        let row = &matrix_graph[r];
        let mut i: usize = 0;
        while i < row.len()
            invariant
                i <= row.len(),
                r < matrix_graph.len(),
                row@ == grid(*matrix_graph)[r as int],
                T::obeys_eq_spec() ==> forall|j: int|
                    0 <= j < i ==> (#[trigger] row@[j]).eq_spec(&null_value),
            decreases row.len() - i,
        {
            let elem = &row[i];
            if elem != &null_value {
                assert(T::obeys_eq_spec() ==> !grid(*matrix_graph)[r as int][i as int].eq_spec(
                    &null_value,
                ));
                return false;
            }
            i += 1;
        }
        r += 1;
    }
    true
}

} // verus!
