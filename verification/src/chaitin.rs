//! The graph-coloring strategy: analyse, simplify, and either color or kill
//! the live ranges of the spill candidates and start over.

use crate::coloring::{assign_colors, lemma_paint, paint, proper};
use crate::degree::{degree, lemma_degree_monotone};
use crate::interference::{
    both_live, build_interference, interference, lemma_interference_symmetric, overlap,
};
use crate::ir::{
    has_operand, in_range, is_well_formed, mentions, outcome, reads, well_formed, writes,
    AllocError, OpeCode, Register,
};
use crate::liveness::{
    build_live_ranges, cell, lemma_max_id_bounds, live_ranges, max_id, needed_from,
    register_count, LiveRangeCell,
};
use crate::matrix::{grid, has_shape, rectangular, set_cell};
use crate::simplify::{lemma_peel_from, lemma_peel_start, peel, simplify, touched};
use crate::simulation::{
    addresses_clear_of, lemma_rewritten_prints_the_same, matters_after, simulable,
};
use crate::spill::{
    emit_spill_code, lemma_rewritten_in_range, lemma_spill_order_members, rewritten,
    spill_order, Placement, Plan, MAX_PROGRAM_LEN,
};
use crate::vm::{printed, MEMORY_SIZE};
use std::collections::HashMap;
use vstd::prelude::*;

verus! {

/// A row of dead cells.
pub open spec fn dead_row(len: nat) -> Seq<LiveRangeCell> {
    Seq::new(len, |i: int| LiveRangeCell::Dead)
}

/// The live ranges with the rows of the spill candidates made all dead.
pub open spec fn kill(lr: Seq<Seq<LiveRangeCell>>, spills: Seq<usize>) -> Seq<Seq<LiveRangeCell>> {
    Seq::new(
        lr.len(),
        |r: int|
            if spills.contains(r as usize) {
                dead_row(lr[r].len())
            } else {
                lr[r]
            },
    )
}

/// Whether the register is live anywhere.
pub open spec fn row_live(row: Seq<LiveRangeCell>) -> bool {
    exists|i: int| 0 <= i < row.len() && (#[trigger] row[i]).is_live()
}

/// The number of registers that are live somewhere.
pub open spec fn live_rows(lr: Seq<Seq<LiveRangeCell>>) -> nat {
    degree(Seq::new(lr.len(), |r: int| row_live(lr[r])))
}

/// Killing a non-empty set of spill candidates leaves fewer live registers:
/// every candidate had a neighbour, so it was live somewhere.
pub proof fn lemma_kill_shrinks(lr: Seq<Seq<LiveRangeCell>>, k: usize)
    requires
        rectangular(lr),
        lr.len() <= usize::MAX,
        k >= 3,
        peel(interference(lr), (k - 2) as usize).1.len() > 0,
    ensures
        live_rows(kill(lr, peel(interference(lr), (k - 2) as usize).1)) < live_rows(lr),
{
    let m = interference(lr);
    let t = (k - 2) as usize;
    let (removed, spills) = peel(m, t);
    lemma_peel_start(m, t);
    lemma_peel_from(m, t, Seq::empty(), Seq::empty());
    let s = spills[0];
    assert(removed.contains(s) && touched(m, s as int));
    let i0 = choose|i: int| 0 <= i < removed.len() && removed[i] == s;
    assert(removed[i0] < m.len());
    let b = choose|b: int| 0 <= b < m[s as int].len() && m[s as int][b];
    assert(overlap(lr, s as int, b));
    let i = choose|i: int| 0 <= i < lr[s as int].len() && #[trigger] both_live(lr, s as int, b, i);
    assert(lr[s as int][i].is_live());
    let after = kill(lr, spills);
    let p = Seq::new(lr.len(), |r: int| row_live(lr[r]));
    let q = Seq::new(after.len(), |r: int| row_live(after[r]));
    assert(p[s as int]);
    assert(!q[s as int]) by {
        assert(spills.contains(s));
    }
    lemma_degree_monotone(q, p);
}

/// The coloring that the strategy settles on, and the spill set beside it:
/// after a simplification that marks nothing, the colors; otherwise the same
/// again on the live ranges without the marked registers, which then become
/// the spill set.
pub open spec fn settle(lr: Seq<Seq<LiveRangeCell>>, spilled: Seq<usize>, k: usize) -> (
    Map<usize, usize>,
    Seq<usize>,
)
    decreases live_rows(lr),
    when rectangular(lr) && lr.len() <= usize::MAX && k >= 3
{
    let m = interference(lr);
    let (removed, spills) = peel(m, (k - 2) as usize);
    if spills.len() == 0 {
        (paint(m, removed, k), spilled)
    } else {
        proof {
            lemma_kill_shrinks(lr, k);
        }
        settle(kill(lr, spills), spills, k)
    }
}

/// The placement that the coloring strategy settles on for `prog`.
pub open spec fn coloring_placement(prog: Seq<OpeCode>, k: usize) -> Placement {
    let (colors, spilled) = settle(live_ranges(prog), Seq::empty(), k);
    Placement::Colored { colors, spilled }
}

/// What the coloring strategy answers for `prog` with `k` physical
/// registers.
pub open spec fn coloring_result(prog: Seq<OpeCode>, k: usize) -> Result<Seq<OpeCode>, AllocError> {
    if k < 4 {
        Err(AllocError::InsufficientRegisters)
    } else if !well_formed(prog) {
        Err(AllocError::MalformedIR)
    } else {
        Ok(rewritten(prog, coloring_placement(prog, k), k))
    }
}

/// Makes every cell of row `reg_id` dead.
fn clear_row(live_range: &mut Vec<Vec<LiveRangeCell>>, reg_id: usize)
    requires
        reg_id < old(live_range)@.len(),
    ensures
        grid(*final(live_range)) == grid(*old(live_range)).update(
            reg_id as int,
            dead_row(grid(*old(live_range))[reg_id as int].len()),
        ),
{
    let ghost lr0 = grid(*live_range);
    let len = live_range[reg_id].len();
    let mut i: usize = 0;
    while i < len
        invariant
            i <= len,
            reg_id < lr0.len(),
            len == lr0[reg_id as int].len(),
            grid(*live_range).len() == lr0.len(),
            grid(*live_range)[reg_id as int].len() == len,
            forall|r: int| 0 <= r < lr0.len() && r != reg_id ==> grid(*live_range)[r] == lr0[r],
            forall|j: int|
                0 <= j < i ==> grid(*live_range)[reg_id as int][j] == LiveRangeCell::Dead,
        decreases len - i,
    {
        set_cell(live_range, reg_id, i, LiveRangeCell::Dead);
        i += 1;
    }
    assert(grid(*live_range)[reg_id as int] =~= dead_row(len as nat));
    assert(grid(*live_range) =~= lr0.update(reg_id as int, dead_row(len as nat)));
}

/// Kills the live ranges of the spill candidates.
fn kill_ranges(live_range: &mut Vec<Vec<LiveRangeCell>>, spill_list: &Vec<usize>)
    requires
        forall|i: int|
            0 <= i < spill_list@.len() ==> #[trigger] spill_list@[i] < old(live_range)@.len(),
    ensures
        grid(*final(live_range)) == kill(grid(*old(live_range)), spill_list@),
{
    let ghost lr0 = grid(*live_range);
    let ghost spills = spill_list@;
    let mut s: usize = 0;
    proof {
        assert(grid(*live_range) =~= kill(lr0, spills.take(0)));
    }
    while s < spill_list.len()
        invariant
            s <= spill_list@.len(),
            spills == spill_list@,
            lr0.len() == live_range.len(),
            forall|i: int| 0 <= i < spills.len() ==> #[trigger] spills[i] < lr0.len(),
            grid(*live_range) == kill(lr0, spills.take(s as int)),
        decreases spill_list.len() - s,
    {
        let reg_id = spill_list[s];
        let ghost prev = grid(*live_range);
        clear_row(live_range, reg_id);
        proof {
            let done = spills.take(s as int);
            let done2 = spills.take(s + 1);
            assert forall|x: usize| done2.contains(x) <==> (done.contains(x) || x == reg_id) by {
                if done.contains(x) {
                    let i = choose|i: int| 0 <= i < done.len() && done[i] == x;
                    assert(done2[i] == x);
                }
                if x == reg_id {
                    assert(done2[s as int] == x);
                }
                if done2.contains(x) {
                    let i = choose|i: int| 0 <= i < done2.len() && done2[i] == x;
                    if i < s {
                        assert(done[i] == x);
                    }
                }
            }
            assert forall|r: int| 0 <= r < lr0.len() implies #[trigger] grid(*live_range)[r]
                =~= kill(lr0, done2)[r] by {
                assert(prev[r] == if done.contains(r as usize) {
                    dead_row(lr0[r].len())
                } else {
                    lr0[r]
                });
                assert(prev[r].len() == lr0[r].len());
                if r != reg_id {
                    assert(done2.contains(r as usize) <==> done.contains(r as usize));
                } else {
                    assert(done2.contains(reg_id));
                }
            }
            assert(grid(*live_range) =~= kill(lr0, done2));
        }
        s += 1;
    }
    assert(spills.take(s as int) =~= spills);
}

/// The live ranges that the final, clean pass works on: those of the program
/// without the registers that earlier passes marked.
pub open spec fn settled_ranges(lr: Seq<Seq<LiveRangeCell>>, k: usize) -> Seq<Seq<LiveRangeCell>>
    decreases live_rows(lr),
    when rectangular(lr) && lr.len() <= usize::MAX && k >= 3
{
    let spills = peel(interference(lr), (k - 2) as usize).1;
    if spills.len() == 0 {
        lr
    } else {
        proof {
            lemma_kill_shrinks(lr, k);
        }
        settled_ranges(kill(lr, spills), k)
    }
}

/// The strategy settles on a coloring that gives every register a color in
/// `1..=k - 2` and gives different colors to any two registers that overlap
/// in the live ranges of the final pass, in which each row is that of the
/// program or all dead.
pub proof fn lemma_settle(lr: Seq<Seq<LiveRangeCell>>, spilled: Seq<usize>, k: usize)
    requires
        rectangular(lr),
        lr.len() <= usize::MAX,
        k >= 3,
    ensures
        forall|a: usize| settle(lr, spilled, k).0.contains_key(a) <==> a < lr.len(),
        forall|a: usize|
            a < lr.len() ==> 1 <= #[trigger] settle(lr, spilled, k).0[a] <= k - 2,
        proper(interference(settled_ranges(lr, k)), settle(lr, spilled, k).0),
        settled_ranges(lr, k).len() == lr.len(),
        forall|r: int|
            0 <= r < lr.len() ==> #[trigger] settled_ranges(lr, k)[r] == lr[r] || settled_ranges(
                lr,
                k,
            )[r] == dead_row(lr[r].len()),
    decreases live_rows(lr),
{
    let m = interference(lr);
    let t = (k - 2) as usize;
    let (removed, spills) = peel(m, t);
    lemma_peel_start(m, t);
    lemma_peel_from(m, t, Seq::empty(), Seq::empty());
    if spills.len() == 0 {
        lemma_interference_symmetric(lr);
        lemma_paint(m, removed, k, 0);
        assert(removed.skip(0) =~= removed);
        let colors = paint(m, removed, k);
        assert forall|a: usize| colors.contains_key(a) <==> a < lr.len() by {
            if colors.contains_key(a) {
                let i = choose|i: int| 0 <= i < removed.len() && removed[i] == a;
                assert(removed[i] < m.len());
            }
        }
    } else {
        lemma_kill_shrinks(lr, k);
        let next = kill(lr, spills);
        assert(rectangular(next)) by {
            assert forall|r: int| 0 <= r < next.len() implies (#[trigger] next[r]).len()
                == next[0].len() by {
                assert(lr[r].len() == lr[0].len());
            }
        }
        lemma_settle(next, spills, k);
        assert forall|r: int| 0 <= r < lr.len() implies #[trigger] settled_ranges(lr, k)[r]
            == lr[r] || settled_ranges(lr, k)[r] == dead_row(lr[r].len()) by {
            assert(settled_ranges(next, k)[r] == next[r] || settled_ranges(next, k)[r]
                == dead_row(next[r].len()));
        }
    }
}

/// Allocates by graph coloring. The live ranges of the program give an
/// interference graph; simplification peels it with threshold
/// `register_num - 2`. While simplification marks registers for spilling,
/// their live ranges are killed and the analysis is repeated; the marks of
/// the last such pass are the spill set. The clean pass colors the graph, and
/// the program is rewritten with each register replaced by its color, or
/// routed through memory where that color is listed in the spill set. Fewer
/// than four registers are refused, and so is a program that reads a
/// register before writing it. The output names only the registers
/// `1..=register_num`.
pub fn allocate_registers2(opcodes: Vec<OpeCode>, register_num: usize) -> (result: Result<
    Vec<OpeCode>,
    AllocError,
>)
    requires
        opcodes.len() <= MAX_PROGRAM_LEN,
        max_id(opcodes@) < usize::MAX,
    ensures
        outcome(result) == coloring_result(opcodes@, register_num),
        match result {
            Ok(v) => in_range(v@, 1, register_num as int),
            Err(_) => true,
        },
{
    if register_num < 4 {
        return Err(AllocError::InsufficientRegisters);
    }
    if !is_well_formed(&opcodes) {
        return Err(AllocError::MalformedIR);
    }
    let ghost prog = opcodes@;
    proof {
        lemma_coloring_register_bound(prog, register_num);
    }
    let ghost goal = settle(live_ranges(prog), Seq::empty(), register_num);
    let mut live_range = build_live_ranges(&opcodes);
    let mut reg_map: HashMap<usize, usize> = HashMap::new();
    let mut spilled_reg: Vec<usize> = Vec::new();
    let ghost n = register_count(prog);
    loop
        invariant_except_break
            register_num >= 4,
            n <= usize::MAX,
            grid(live_range).len() == n,
            rectangular(grid(live_range)),
            settle(grid(live_range), spilled_reg@, register_num) == goal,
        ensures
            (reg_map@, spilled_reg@) == goal,
        decreases live_rows(grid(live_range)),
    {
        let ghost lr = grid(live_range);
        let interf_matrix = build_interference(&live_range);
        let ghost m = grid(interf_matrix);
        assert(has_shape(m, n, n));
        let (removed_regs, spill_list) = simplify(&interf_matrix, register_num - 2);
        if spill_list.len() == 0 {
            reg_map = assign_colors(&interf_matrix, &removed_regs, register_num);
            break;
        } else {
            proof {
                lemma_kill_shrinks(lr, register_num);
                assert forall|i: int| 0 <= i < spill_list@.len() implies #[trigger] spill_list@[i]
                    < n by {
                    let s = spill_list@[i];
                    assert(removed_regs@.contains(s));
                    let j = choose|j: int| 0 <= j < removed_regs@.len() && removed_regs@[j] == s;
                    assert(removed_regs@[j] < m.len());
                }
            }
            spilled_reg = spill_list.clone();
            assert(spilled_reg@ =~= spill_list@);
            kill_ranges(&mut live_range, &spill_list);
            proof {
                let next = grid(live_range);
                assert forall|r: int| 0 <= r < next.len() implies (#[trigger] next[r]).len()
                    == next[0].len() by {
                    assert(lr[r].len() == lr[0].len());
                }
            }
        }
    }
    proof {
        lemma_settle(live_ranges(prog), Seq::empty(), register_num);
        lemma_max_id_bounds(prog);
    }
    let plan = Plan::Colored { reg_map: reg_map, spilled: spilled_reg };
    Ok(emit_spill_code(&opcodes, &plan, register_num))
}

/// Register bound: when the coloring strategy succeeds, its output names
/// only the registers `1..=k`.
pub proof fn lemma_coloring_register_bound(prog: Seq<OpeCode>, k: usize)
    requires
        max_id(prog) < usize::MAX,
        coloring_result(prog, k) is Ok,
    ensures
        in_range(coloring_result(prog, k)->Ok_0, 1, k as int),
{
    let (colors, spilled) = settle(live_ranges(prog), Seq::empty(), k);
    let pl = Placement::Colored { colors, spilled };
    lemma_settle(live_ranges(prog), Seq::empty(), k);
    lemma_max_id_bounds(prog);
    assert forall|i: int, r: Register|
        0 <= i < prog.len() && #[trigger] has_operand(prog[i], r) && !pl.in_memory(
            k,
            r.id,
        ) implies 1 <= pl.home(r).id <= k - 2 by {
        assert(mentions(prog[i], r.id));
    }
    lemma_rewritten_in_range(prog, pl, k, spill_order(prog, pl, k));
}

/// Interference respected: two registers that are live at a common index get
/// different colors, unless an earlier pass killed the live range of one of
/// them. A register that no pass killed keeps the live range that the
/// program gives it.
pub proof fn lemma_coloring_respects_interference(prog: Seq<OpeCode>, k: usize, a: usize, b: usize)
    requires
        k >= 4,
        max_id(prog) < usize::MAX,
        a <= max_id(prog),
        b <= max_id(prog),
        overlap(settled_ranges(live_ranges(prog), k), a as int, b as int),
    ensures
        settle(live_ranges(prog), Seq::empty(), k).0[a] != settle(
            live_ranges(prog),
            Seq::empty(),
            k,
        ).0[b],
        overlap(live_ranges(prog), a as int, b as int),
        settled_ranges(live_ranges(prog), k)[a as int] == live_ranges(prog)[a as int],
        settled_ranges(live_ranges(prog), k)[b as int] == live_ranges(prog)[b as int],
{
    let lr = live_ranges(prog);
    let fin = settled_ranges(lr, k);
    lemma_settle(lr, Seq::empty(), k);
    let i = choose|i: int| 0 <= i < fin[a as int].len() && #[trigger] both_live(
        fin,
        a as int,
        b as int,
        i,
    );
    assert(fin[a as int][i].is_live() && fin[b as int][i].is_live());
    assert(fin[a as int] == lr[a as int]);
    assert(fin[b as int] == lr[b as int]);
    assert(both_live(lr, a as int, b as int, i));
    assert(interference(fin)[a as int][b as int]);
}

/// No instruction reads the register that it writes.
pub open spec fn no_self_update(prog: Seq<OpeCode>) -> bool {
    forall|i: int, v: usize| 0 <= i < prog.len() && #[trigger] reads(prog[i], v) ==> !writes(
        prog[i],
        v,
    )
}

/// Semantic preservation without spills: where the first simplification
/// marks nothing, a well-formed program in which no instruction reads its
/// own destination prints the same as its allocation by coloring, the first
/// on a machine with room for all its registers, the second on `k`
/// registers, and both stop with the same error if the program names an
/// address outside the memory.
pub proof fn lemma_coloring_preserves_output(prog: Seq<OpeCode>, k: usize)
    requires
        k >= 4,
        well_formed(prog),
        no_self_update(prog),
        max_id(prog) < usize::MAX,
        peel(interference(live_ranges(prog)), (k - 2) as usize).1.len() == 0,
    ensures
        coloring_result(prog, k) is Ok,
        printed(coloring_result(prog, k)->Ok_0, k) == printed(prog, max_id(prog)),
{
    let lr = live_ranges(prog);
    let n = max_id(prog);
    let (colors, spilled) = settle(lr, Seq::empty(), k);
    let pl = Placement::Colored { colors, spilled };
    let valid = |v: usize, i: int| needed_from(prog, v, i);
    lemma_settle(lr, Seq::empty(), k);
    lemma_max_id_bounds(prog);
    assert(spilled =~= Seq::<usize>::empty());
    assert(settled_ranges(lr, k) == lr);
    let order = spill_order(prog, pl, k);
    if order.len() > 0 {
        lemma_spill_order_members(prog, pl, k, order[0]);
        assert(order.contains(order[0]));
    }
    assert forall|i: int, v: usize|
        0 <= i < prog.len() && #[trigger] matters_after(valid, v, i) && !writes(
            prog[i],
            v,
        ) implies valid(v, i) by {
        assert(needed_from(prog, v, i + 1));
    }
    assert forall|i: int, d: usize, v: usize|
        0 <= i < prog.len() && #[trigger] writes(prog[i], d) && !pl.in_memory(k, d) && v != d
            && v <= n && !pl.in_memory(k, v) && #[trigger] matters_after(
            valid,
            v,
            i,
        ) implies pl.home_id(v) != pl.home_id(d) by {
        assert(needed_from(prog, v, i + 1));
        assert(mentions(prog[i], d));
        assert(cell(prog, d, i) == LiveRangeCell::Birth);
        assert(cell(prog, v, i).is_live());
        assert(lr[d as int][i] == cell(prog, d, i));
        assert(lr[v as int][i] == cell(prog, v, i));
        assert(both_live(lr, v as int, d as int, i));
        assert(overlap(lr, v as int, d as int));
        assert(interference(lr)[v as int][d as int]);
    }
    assert(simulable(prog, pl, k, n, valid));
    lemma_rewritten_prints_the_same(prog, pl, k, n, valid);
}

/// Semantic preservation with everything spilled: where the color of every
/// register is in the spill set, a well-formed program prints the same as
/// its allocation by coloring, and stops with the same error if the program
/// names an address outside the memory, provided that the spill slots fit
/// the memory and the program names none of their addresses.
pub proof fn lemma_coloring_preserves_output_in_memory(prog: Seq<OpeCode>, k: usize)
    requires
        k >= 4,
        well_formed(prog),
        max_id(prog) < usize::MAX,
        coloring_result(prog, k) is Ok,
        forall|v: usize|
            v <= max_id(prog) ==> (#[trigger] coloring_placement(prog, k).in_memory(k, v)),
        spill_order(prog, coloring_placement(prog, k), k).len() <= MEMORY_SIZE,
        addresses_clear_of(
            prog,
            spill_order(prog, coloring_placement(prog, k), k).len() as int,
        ),
    ensures
        printed(coloring_result(prog, k)->Ok_0, k) == printed(prog, max_id(prog)),
{
    let pl = coloring_placement(prog, k);
    let valid = |v: usize, i: int| true;
    lemma_max_id_bounds(prog);
    assert forall|i: int, v: usize|
        0 <= i < prog.len() && #[trigger] reads(prog[i], v) && !pl.in_memory(k, v) implies valid(
        v,
        i,
    ) by {}
    assert forall|i: int, d: usize, v: usize|
        0 <= i < prog.len() && #[trigger] writes(prog[i], d) && !pl.in_memory(k, d) && v != d
            && v <= max_id(prog) && !pl.in_memory(k, v) && #[trigger] matters_after(
            valid,
            v,
            i,
        ) implies pl.home_id(v) != pl.home_id(d) by {
        assert(mentions(prog[i], d));
    }
    assert(simulable(prog, pl, k, max_id(prog), valid));
    lemma_rewritten_prints_the_same(prog, pl, k, max_id(prog), valid);
}

/// Determinism: the answer is a function of the program and the number of
/// registers, so two answers to the same request are equal.
pub proof fn lemma_coloring_deterministic(
    prog: Seq<OpeCode>,
    k: usize,
    first: Result<Vec<OpeCode>, AllocError>,
    second: Result<Vec<OpeCode>, AllocError>,
)
    requires
        outcome(first) == coloring_result(prog, k),
        outcome(second) == coloring_result(prog, k),
    ensures
        outcome(first) == outcome(second),
{
}

} // verus!
