//! The trivial strategy: the lowest-numbered registers stay in place, every
//! other register lives in memory.

use crate::ir::{
    has_operand, in_range, is_well_formed, mentions, outcome, well_formed, AllocError, OpeCode,
    Register,
};
use crate::spill::{
    emit_spill_code, lemma_rewritten_in_range, rewrite_one, rewritten, rewritten_with,
    spill_order, Placement, Plan, MAX_PROGRAM_LEN,
};
use crate::simulation::{addresses_clear_of, lemma_rewritten_prints_the_same, simulable};
use crate::vm::{fits, printed, MEMORY_SIZE};
use vstd::prelude::*;

verus! {

/// What the trivial strategy answers for `prog` with `k` physical registers.
pub open spec fn trivial_result(prog: Seq<OpeCode>, k: usize) -> Result<Seq<OpeCode>, AllocError> {
    if k < 4 {
        Err(AllocError::InsufficientRegisters)
    } else if !well_formed(prog) {
        Err(AllocError::MalformedIR)
    } else {
        Ok(rewritten(prog, Placement::Threshold, k))
    }
}

/// Allocates by the trivial strategy: registers `1..=register_num - 2` keep
/// their number, and every higher one is loaded from its memory slot before
/// each use and stored to it after each definition, through the scratch
/// registers `register_num - 1` and `register_num`. Fewer than four
/// registers are refused, and so is a program that reads a register before
/// writing it. The output of a program with positive register identifiers
/// names only the registers `1..=register_num`; a program that names no
/// register above `register_num - 2` comes back unchanged.
pub fn allocate_registers1(opcodes: Vec<OpeCode>, register_num: usize) -> (result: Result<
    Vec<OpeCode>,
    AllocError,
>)
    requires
        opcodes.len() <= MAX_PROGRAM_LEN,
    ensures
        outcome(result) == trivial_result(opcodes@, register_num),
        in_range(opcodes@, 1, usize::MAX as int) ==> match result {
            Ok(v) => in_range(v@, 1, register_num as int),
            Err(_) => true,
        },
        in_range(opcodes@, 0, register_num - 2) ==> match result {
            Ok(v) => v@ == opcodes@,
            Err(_) => true,
        },
{
    if register_num < 4 {
        return Err(AllocError::InsufficientRegisters);
    }
    if !is_well_formed(&opcodes) {
        return Err(AllocError::MalformedIR);
    }
    proof {
        if in_range(opcodes@, 1, usize::MAX as int) {
            lemma_trivial_register_bound(opcodes@, register_num);
        }
        if in_range(opcodes@, 0, register_num - 2) {
            lemma_trivial_idempotent(opcodes@, register_num);
        }
    }
    Ok(emit_spill_code(&opcodes, &Plan::Threshold, register_num))
}

/// Register bound: when the trivial strategy succeeds on a program whose
/// register identifiers are all positive, its output names only the
/// registers `1..=k`.
pub proof fn lemma_trivial_register_bound(prog: Seq<OpeCode>, k: usize)
    requires
        in_range(prog, 1, usize::MAX as int),
        trivial_result(prog, k) is Ok,
    ensures
        in_range(trivial_result(prog, k)->Ok_0, 1, k as int),
{
    let pl = Placement::Threshold;
    assert forall|i: int, r: Register|
        0 <= i < prog.len() && #[trigger] has_operand(prog[i], r) && !pl.in_memory(
            k,
            r.id,
        ) implies 1 <= pl.home(r).id <= k - 2 by {
        assert(mentions(prog[i], r.id));
    }
    lemma_rewritten_in_range(prog, pl, k, spill_order(prog, pl, k));
}

/// Semantic preservation: a well-formed program and its trivial allocation
/// print the same, the first on a machine with room for all its registers,
/// the second on `k` registers, and stop with the same error if the program
/// names an address outside the memory, provided that the spill slots fit
/// the memory and the program names none of their addresses.
pub proof fn lemma_trivial_preserves_output(prog: Seq<OpeCode>, k: usize, n: usize)
    requires
        k >= 4,
        well_formed(prog),
        fits(prog, n),
        spill_order(prog, Placement::Threshold, k).len() <= MEMORY_SIZE,
        addresses_clear_of(prog, spill_order(prog, Placement::Threshold, k).len() as int),
    ensures
        trivial_result(prog, k) is Ok,
        printed(trivial_result(prog, k)->Ok_0, k) == printed(prog, n),
{
    let valid = |v: usize, i: int| true;
    assert(simulable(prog, Placement::Threshold, k, n, valid));
    lemma_rewritten_prints_the_same(prog, Placement::Threshold, k, n, valid);
}

/// Determinism: the answer is a function of the program and the number of
/// registers, so two answers to the same request are equal.
pub proof fn lemma_trivial_deterministic(
    prog: Seq<OpeCode>,
    k: usize,
    first: Result<Vec<OpeCode>, AllocError>,
    second: Result<Vec<OpeCode>, AllocError>,
)
    requires
        outcome(first) == trivial_result(prog, k),
        outcome(second) == trivial_result(prog, k),
    ensures
        outcome(first) == outcome(second),
{
}

/// Idempotence: a well-formed program that names no register above `k - 2`
/// comes back unchanged.
pub proof fn lemma_trivial_idempotent(prog: Seq<OpeCode>, k: usize)
    requires
        k >= 4,
        well_formed(prog),
        in_range(prog, 0, k - 2),
    ensures
        trivial_result(prog, k) == Ok::<Seq<OpeCode>, AllocError>(prog),
{
    let pl = Placement::Threshold;
    lemma_unchanged(prog, k, spill_order(prog, pl, k));
}

/// Without a register above `k - 2`, rewriting changes nothing, whatever the
/// slot order.
proof fn lemma_unchanged(prog: Seq<OpeCode>, k: usize, order: Seq<usize>)
    requires
        k >= 4,
        in_range(prog, 0, k - 2),
    ensures
        rewritten_with(prog, Placement::Threshold, k, order) == prog,
    decreases prog.len(),
{
    let pl = Placement::Threshold;
    if prog.len() > 0 {
        let init = prog.drop_last();
        let op = prog.last();
        assert forall|i: int, id: usize| 0 <= i < init.len() && #[trigger] mentions(
            init[i],
            id,
        ) implies 0 <= id <= k - 2 by {
            assert(mentions(prog[i], id));
        }
        lemma_unchanged(init, k, order);
        assert(rewrite_one(op, pl, k, order) =~= seq![op]) by {
            match op {
                OpeCode::Add { dst, src1, src2 } => {
                    assert(mentions(prog[prog.len() - 1], dst.id));
                    assert(mentions(prog[prog.len() - 1], src1.id));
                    assert(mentions(prog[prog.len() - 1], src2.id));
                },
                OpeCode::LdI { dst, .. } => {
                    assert(mentions(prog[prog.len() - 1], dst.id));
                },
                OpeCode::Store { src, .. } => {
                    assert(mentions(prog[prog.len() - 1], src.id));
                },
                OpeCode::Load { dst, .. } => {
                    assert(mentions(prog[prog.len() - 1], dst.id));
                },
                OpeCode::Print { src } => {
                    assert(mentions(prog[prog.len() - 1], src.id));
                },
            }
        }
        assert(init + seq![op] =~= prog);
    } else {
        assert(rewritten_with(prog, pl, k, order) =~= prog);
    }
}

} // verus!
