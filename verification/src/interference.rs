//! The interference graph: which registers are live at the same time.

use crate::liveness::LiveRangeCell;
use crate::matrix::{
    filled, grid, has_shape, irreflexive, rectangular, set_cell, symmetric,
};
use vstd::prelude::*;

verus! {

/// Whether registers `a` and `b` are both live at index `i`.
pub open spec fn both_live(lr: Seq<Seq<LiveRangeCell>>, a: int, b: int, i: int) -> bool {
    lr[a][i].is_live() && lr[b][i].is_live()
}

/// Whether two different registers are live at some common index.
pub open spec fn overlap(lr: Seq<Seq<LiveRangeCell>>, a: int, b: int) -> bool {
    a != b && exists|i: int| 0 <= i < lr[a].len() && #[trigger] both_live(lr, a, b, i)
}

/// The interference matrix of a live-range matrix: the cell at `(a, b)`
/// tells whether `a` and `b` overlap.
pub open spec fn interference(lr: Seq<Seq<LiveRangeCell>>) -> Seq<Seq<bool>> {
    Seq::new(lr.len(), |a: int| Seq::new(lr.len(), |b: int| overlap(lr, a, b)))
}

/// The interference matrix is symmetric and its diagonal is false.
pub proof fn lemma_interference_symmetric(lr: Seq<Seq<LiveRangeCell>>)
    requires
        rectangular(lr),
    ensures
        symmetric(interference(lr)),
        irreflexive(interference(lr)),
{
    assert forall|a: int, b: int| 0 <= a < lr.len() && 0 <= b < lr.len() && overlap(
        lr,
        a,
        b,
    ) implies overlap(lr, b, a) by {
        let i = choose|i: int| 0 <= i < lr[a].len() && #[trigger] both_live(lr, a, b, i);
        assert(both_live(lr, b, a, i));
    }
}

/// Whether the two rows are live at some common index.
fn rows_overlap(
    live_range: &Vec<Vec<LiveRangeCell>>,
    reg_id1: usize,
    reg_id2: usize,
) -> (found: bool)
    requires
        rectangular(grid(*live_range)),
        reg_id1 < live_range@.len(),
        reg_id2 < live_range@.len(),
    ensures
        found == exists|i: int|
            0 <= i < grid(*live_range)[reg_id1 as int].len() && #[trigger] both_live(
                grid(*live_range),
                reg_id1 as int,
                reg_id2 as int,
                i,
            ),
{
    let ghost lr = grid(*live_range);
    let row1 = &live_range[reg_id1];
    let row2 = &live_range[reg_id2];
    assert(lr[reg_id1 as int].len() == lr[0].len());
    assert(lr[reg_id2 as int].len() == lr[0].len());
    let mut i: usize = 0;
    while i < row1.len()
        invariant
            i <= row1.len(),
            lr == grid(*live_range),
            reg_id1 < lr.len(),
            reg_id2 < lr.len(),
            row1@ == lr[reg_id1 as int],
            row2@ == lr[reg_id2 as int],
            row1@.len() == row2@.len(),
            forall|j: int| 0 <= j < i ==> !#[trigger] both_live(
                lr,
                reg_id1 as int,
                reg_id2 as int,
                j,
            ),
        decreases row1.len() - i,
    {
        if row1[i].is_live() && row2[i].is_live() {
            assert(both_live(lr, reg_id1 as int, reg_id2 as int, i as int));
            return true;
        }
        i += 1;
    }
    false
}

/// Builds the interference matrix of a live-range matrix.
pub fn build_interference(live_range: &Vec<Vec<LiveRangeCell>>) -> (interf_matrix: Vec<Vec<bool>>)
    requires
        rectangular(grid(*live_range)),
    ensures
        grid(interf_matrix) == interference(grid(*live_range)),
        symmetric(grid(interf_matrix)),
        irreflexive(grid(interf_matrix)),
{
    let ghost lr = grid(*live_range);
    let register_num = live_range.len();
    let ghost n = register_num as nat;
    let mut interf_matrix = filled(register_num, register_num, false);
    let mut reg_id1: usize = 0;
    while reg_id1 < register_num
        invariant
            reg_id1 <= register_num,
            register_num == live_range@.len(),
            n == register_num,
            lr == grid(*live_range),
            rectangular(lr),
            has_shape(grid(interf_matrix), n, n),
            forall|a: int, b: int|
                0 <= a < n && 0 <= b < n && #[trigger] grid(interf_matrix)[a][b] ==> overlap(
                    lr,
                    a,
                    b,
                ),
            forall|a: int, b: int|
                0 <= a < reg_id1 && 0 <= b < n && overlap(lr, a, b) ==> #[trigger] grid(
                    interf_matrix,
                )[a][b],
        decreases register_num - reg_id1,
    {
        let mut reg_id2: usize = 0;
        while reg_id2 < register_num
            invariant
                reg_id1 < register_num,
                reg_id2 <= register_num,
                register_num == live_range@.len(),
                n == register_num,
                lr == grid(*live_range),
                rectangular(lr),
                has_shape(grid(interf_matrix), n, n),
                forall|a: int, b: int|
                    0 <= a < n && 0 <= b < n && #[trigger] grid(interf_matrix)[a][b] ==> overlap(
                        lr,
                        a,
                        b,
                    ),
                forall|a: int, b: int|
                    0 <= a < n && 0 <= b < n && (a < reg_id1 || (a == reg_id1 && b < reg_id2))
                        && overlap(lr, a, b) ==> #[trigger] grid(interf_matrix)[a][b],
            decreases register_num - reg_id2,
        {
            if reg_id1 != reg_id2 && rows_overlap(live_range, reg_id1, reg_id2) {
                let ghost m0 = grid(interf_matrix);
                assert(m0[reg_id1 as int].len() == n);
                set_cell(&mut interf_matrix, reg_id1, reg_id2, true);
                let ghost m1 = grid(interf_matrix);
                assert(m1[reg_id2 as int].len() == n) by {
                    assert(m0[reg_id2 as int].len() == n);
                }
                set_cell(&mut interf_matrix, reg_id2, reg_id1, true);
                proof {
                    let m2 = grid(interf_matrix);
                    let i = choose|i: int|
                        0 <= i < lr[reg_id1 as int].len() && #[trigger] both_live(
                            lr,
                            reg_id1 as int,
                            reg_id2 as int,
                            i,
                        );
                    assert(lr[reg_id1 as int].len() == lr[0].len());
                    assert(lr[reg_id2 as int].len() == lr[0].len());
                    assert(both_live(lr, reg_id2 as int, reg_id1 as int, i));
                    assert(overlap(lr, reg_id1 as int, reg_id2 as int));
                    assert(overlap(lr, reg_id2 as int, reg_id1 as int));
                    assert forall|a: int| 0 <= a < n implies (#[trigger] m2[a]).len() == n by {
                        assert(m0[a].len() == n);
                    }
                    assert forall|a: int, b: int|
                        0 <= a < n && 0 <= b < n && #[trigger] m2[a][b] implies overlap(
                        lr,
                        a,
                        b,
                    ) by {
                        assert(m0[a].len() == n);
                        if !((a == reg_id1 && b == reg_id2) || (a == reg_id2 && b == reg_id1)) {
                            assert(m0[a][b]);
                        }
                    }
                    assert forall|a: int, b: int|
                        0 <= a < n && 0 <= b < n && (a < reg_id1 || (a == reg_id1 && b < reg_id2
                            + 1)) && overlap(lr, a, b) implies #[trigger] m2[a][b] by {
                        assert(m0[a].len() == n);
                        if !((a == reg_id1 && b == reg_id2) || (a == reg_id2 && b == reg_id1)) {
                            assert(m0[a][b]);
                        }
                    }
                }
            }
            reg_id2 += 1;
        }
        reg_id1 += 1;
    }
    proof {
        let m = grid(interf_matrix);
        assert forall|a: int| 0 <= a < n implies (#[trigger] m[a]) =~= interference(lr)[a] by {
            assert(m[a].len() == n);
        }
        assert(m =~= interference(lr));
        lemma_interference_symmetric(lr);
    }
    interf_matrix
}

} // verus!
