//! Live ranges: for every register and every instruction index, what the
//! register is doing there.

use crate::ir::{defined_before, mentions, reads, well_formed, writes, OpeCode};
use crate::matrix::{filled, grid, has_shape, set_cell};
use vstd::prelude::*;

verus! {

/// The state of one register at one instruction index.
#[derive(Clone, Copy, Debug, PartialEq, Eq, Structural)]
pub enum LiveRangeCell {
    /// The register holds nothing that is still needed.
    Dead,
    /// The instruction writes the register.
    Birth,
    /// The register holds a value that a later instruction reads.
    Live,
    /// The instruction reads the register, and so does a later one.
    Used,
    /// The instruction is the last to read the value.
    EndPoint,
}

impl LiveRangeCell {
    /// A cell is live if it is a birth, live or used.
    pub open spec fn spec_is_live(&self) -> bool {
        *self == LiveRangeCell::Birth || *self == LiveRangeCell::Live || *self
            == LiveRangeCell::Used
    }

    /// A cell is used if it is a birth, used or an end point.
    pub open spec fn spec_is_used(&self) -> bool {
        *self == LiveRangeCell::Birth || *self == LiveRangeCell::Used || *self
            == LiveRangeCell::EndPoint
    }

    /// Whether the register occupies storage past this index: it was just
    /// written, or its value is needed later.
    #[verifier::when_used_as_spec(spec_is_live)]
    pub fn is_live(&self) -> (b: bool)
        ensures
            b == self.spec_is_live(),
    {
        match self {
            LiveRangeCell::Birth | LiveRangeCell::Live | LiveRangeCell::Used => true,
            _ => false,
        }
    }

    /// Whether the instruction at this index refers to the register.
    #[verifier::when_used_as_spec(spec_is_used)]
    pub fn is_used(&self) -> (b: bool)
        ensures
            b == self.spec_is_used(),
    {
        match self {
            LiveRangeCell::Birth | LiveRangeCell::Used | LiveRangeCell::EndPoint => true,
            _ => false,
        }
    }
}

/// The largest register identifier in one instruction.
pub open spec fn op_max_id(op: OpeCode) -> usize {
    match op {
        OpeCode::Add { dst, src1, src2 } => if dst.id >= src1.id && dst.id >= src2.id {
            dst.id
        } else if src1.id >= src2.id {
            src1.id
        } else {
            src2.id
        },
        OpeCode::LdI { dst, .. } => dst.id,
        OpeCode::Store { src, .. } => src.id,
        OpeCode::Load { dst, .. } => dst.id,
        OpeCode::Print { src } => src.id,
    }
}

/// The largest register identifier in the program; 0 for the empty program.
pub open spec fn max_id(prog: Seq<OpeCode>) -> usize
    decreases prog.len(),
{
    if prog.len() == 0 {
        0
    } else if op_max_id(prog.last()) > max_id(prog.drop_last()) {
        op_max_id(prog.last())
    } else {
        max_id(prog.drop_last())
    }
}

/// The number of rows of the live-range matrix: one per identifier from 0 to
/// the largest in the program.
pub open spec fn register_count(prog: Seq<OpeCode>) -> nat {
    (max_id(prog) + 1) as nat
}

/// No register of the program has an identifier above `max_id`.
pub proof fn lemma_max_id_bounds(prog: Seq<OpeCode>)
    ensures
        forall|i: int, id: usize|
            0 <= i < prog.len() && #[trigger] mentions(prog[i], id) ==> id <= max_id(prog),
    decreases prog.len(),
{
    if prog.len() > 0 {
        lemma_max_id_bounds(prog.drop_last());
        assert forall|i: int, id: usize|
            0 <= i < prog.len() && #[trigger] mentions(prog[i], id) implies id <= max_id(
            prog,
        ) by {
            if i < prog.len() - 1 {
                assert(prog.drop_last()[i] == prog[i]);
            }
        }
    }
}

/// What the instruction alone says of register `r`: a write makes a birth
/// (and wins over a read by the same instruction), a read a use.
pub open spec fn mark(op: OpeCode, r: usize) -> LiveRangeCell {
    if writes(op, r) {
        LiveRangeCell::Birth
    } else if reads(op, r) {
        LiveRangeCell::Used
    } else {
        LiveRangeCell::Dead
    }
}

/// Whether the value of `r` is needed at index `i` or later: the first
/// instruction from `i` on that refers to `r` reads it.
pub open spec fn needed_from(prog: Seq<OpeCode>, r: usize, i: int) -> bool
    decreases prog.len() - i,
{
    if i < 0 || i >= prog.len() {
        false
    } else {
        match mark(prog[i], r) {
            LiveRangeCell::Birth => false,
            LiveRangeCell::Used => true,
            _ => needed_from(prog, r, i + 1),
        }
    }
}

/// The cell of register `r` at index `i`.
pub open spec fn cell(prog: Seq<OpeCode>, r: usize, i: int) -> LiveRangeCell {
    match mark(prog[i], r) {
        LiveRangeCell::Birth => LiveRangeCell::Birth,
        LiveRangeCell::Used => if needed_from(prog, r, i + 1) {
            LiveRangeCell::Used
        } else {
            LiveRangeCell::EndPoint
        },
        _ => if needed_from(prog, r, i + 1) {
            LiveRangeCell::Live
        } else {
            LiveRangeCell::Dead
        },
    }
}

/// The live-range matrix of a program: one row per register, one cell per
/// instruction.
pub open spec fn live_ranges(prog: Seq<OpeCode>) -> Seq<Seq<LiveRangeCell>> {
    Seq::new(
        register_count(prog),
        |r: int| Seq::new(prog.len(), |i: int| cell(prog, r as usize, i)),
    )
}

/// In a well-formed program, every register that an instruction mentions
/// has a birth in its live range.
pub proof fn lemma_mentioned_register_is_born(prog: Seq<OpeCode>, i: int, r: usize)
    requires
        well_formed(prog),
        0 <= i < prog.len(),
        mentions(prog[i], r),
    ensures
        exists|j: int| 0 <= j < prog.len() && #[trigger] cell(prog, r, j) == LiveRangeCell::Birth,
{
    if writes(prog[i], r) {
        assert(cell(prog, r, i) == LiveRangeCell::Birth);
    } else {
        assert(defined_before(prog, i, r));
        let j = choose|j: int| 0 <= j < i && j < prog.len() && #[trigger] writes(prog[j], r);
        assert(cell(prog, r, j) == LiveRangeCell::Birth);
    }
}

/// After the end point of a live range, the register is dead until its next
/// birth.
pub proof fn lemma_dead_after_end_point(prog: Seq<OpeCode>, r: usize, i: int, j: int)
    requires
        0 <= i < j < prog.len(),
        cell(prog, r, i) == LiveRangeCell::EndPoint,
        forall|x: int| i < x <= j ==> #[trigger] cell(prog, r, x) != LiveRangeCell::Birth,
    ensures
        cell(prog, r, j) == LiveRangeCell::Dead,
        !needed_from(prog, r, j + 1),
    decreases j - i,
{
    if j > i + 1 {
        lemma_dead_after_end_point(prog, r, i, j - 1);
    }
    assert(!needed_from(prog, r, j));
    assert(cell(prog, r, j) != LiveRangeCell::Birth);
}

/// One more than the largest register identifier in the program.
pub fn count_registers(opcodes: &Vec<OpeCode>) -> (n: usize)
    requires
        max_id(opcodes@) < usize::MAX,
    ensures
        n == register_count(opcodes@),
{
    let ghost prog = opcodes@;
    let mut top: usize = 0;
    let mut i: usize = 0;
    proof {
        assert(prog.take(0) =~= Seq::<OpeCode>::empty());
    }
    while i < opcodes.len()
        invariant
            i <= opcodes.len(),
            prog == opcodes@,
            top == max_id(prog.take(i as int)),
        decreases opcodes.len() - i,
    {
        let id = match opcodes[i] {
            OpeCode::Add { dst, src1, src2 } => {
                if dst.id >= src1.id && dst.id >= src2.id {
                    dst.id
                } else if src1.id >= src2.id {
                    src1.id
                } else {
                    src2.id
                }
            },
            OpeCode::LdI { dst, .. } => dst.id,
            OpeCode::Store { src, .. } => src.id,
            OpeCode::Load { dst, .. } => dst.id,
            OpeCode::Print { src } => src.id,
        };
        proof {
            assert(prog.take(i + 1).drop_last() =~= prog.take(i as int));
            assert(prog.take(i + 1).last() == prog[i as int]);
        }
        if id > top {
            top = id;
        }
        i += 1;
    }
    assert(prog.take(i as int) =~= prog);
    top + 1
}

/// Marks definition and use sites: the forward pass.
fn mark_sites(opcodes: &Vec<OpeCode>, live_range: &mut Vec<Vec<LiveRangeCell>>)
    requires
        has_shape(grid(*old(live_range)), register_count(opcodes@), opcodes@.len() as nat),
        forall|r: int, i: int|
            0 <= r < register_count(opcodes@) && 0 <= i < opcodes@.len() ==> (#[trigger] grid(
                *old(live_range),
            )[r][i]) == LiveRangeCell::Dead,
    ensures
        has_shape(grid(*final(live_range)), register_count(opcodes@), opcodes@.len() as nat),
        forall|r: int, i: int|
            0 <= r < register_count(opcodes@) && 0 <= i < opcodes@.len() ==> (#[trigger] grid(
                *final(live_range),
            )[r][i]) == mark(opcodes@[i], r as usize),
{
    let ghost prog = opcodes@;
    let ghost n = register_count(prog);
    let ghost len = prog.len();
    proof {
        lemma_max_id_bounds(prog);
    }
    let mut i: usize = 0;
    while i < opcodes.len()
        invariant
            i <= opcodes.len(),
            prog == opcodes@,
            n == register_count(prog),
            len == prog.len(),
            has_shape(grid(*live_range), n, len),
            forall|k: int, id: usize|
                0 <= k < prog.len() && #[trigger] mentions(prog[k], id) ==> id <= max_id(prog),
            forall|r: int, j: int|
                0 <= r < n && 0 <= j < len ==> (#[trigger] grid(*live_range)[r][j]) == if j < i {
                    mark(prog[j], r as usize)
                } else {
                    LiveRangeCell::Dead
                },
        decreases opcodes.len() - i,
    {
        let ghost before = grid(*live_range);
        match opcodes[i] {
            OpeCode::Add { dst, src1, src2 } => {
                assert(mentions(prog[i as int], dst.id));
                assert(mentions(prog[i as int], src1.id));
                assert(mentions(prog[i as int], src2.id));
                assert(grid(*live_range)[src1.id as int].len() == len);
                set_cell(live_range, src1.id, i, LiveRangeCell::Used);
                assert(grid(*live_range)[src2.id as int].len() == len);
                set_cell(live_range, src2.id, i, LiveRangeCell::Used);
                assert(grid(*live_range)[dst.id as int].len() == len);
                set_cell(live_range, dst.id, i, LiveRangeCell::Birth);
            },
            OpeCode::LdI { dst, .. } => {
                assert(mentions(prog[i as int], dst.id));
                assert(grid(*live_range)[dst.id as int].len() == len);
                set_cell(live_range, dst.id, i, LiveRangeCell::Birth);
            },
            OpeCode::Store { src, .. } => {
                assert(mentions(prog[i as int], src.id));
                assert(grid(*live_range)[src.id as int].len() == len);
                set_cell(live_range, src.id, i, LiveRangeCell::Used);
            },
            OpeCode::Load { dst, .. } => {
                assert(mentions(prog[i as int], dst.id));
                assert(grid(*live_range)[dst.id as int].len() == len);
                set_cell(live_range, dst.id, i, LiveRangeCell::Birth);
            },
            OpeCode::Print { src } => {
                assert(mentions(prog[i as int], src.id));
                assert(grid(*live_range)[src.id as int].len() == len);
                set_cell(live_range, src.id, i, LiveRangeCell::Used);
            },
        }
        proof {
            assert forall|r: int| 0 <= r < n implies (#[trigger] grid(*live_range)[r]).len()
                == len by {
                assert(before[r].len() == len);
            }
            assert forall|r: int, j: int| 0 <= r < n && 0 <= j < len implies (#[trigger] grid(
                *live_range,
            )[r][j]) == if j < i + 1 {
                mark(prog[j], r as usize)
            } else {
                LiveRangeCell::Dead
            } by {
                assert(before[r].len() == len);
                assert(before[r][j] == if j < i {
                    mark(prog[j], r as usize)
                } else {
                    LiveRangeCell::Dead
                });
            }
        }
        i += 1;
    }
}

/// Spreads liveness leftwards along each row: the backward pass.
fn spread_liveness(opcodes: &Vec<OpeCode>, live_range: &mut Vec<Vec<LiveRangeCell>>)
    requires
        has_shape(grid(*old(live_range)), register_count(opcodes@), opcodes@.len() as nat),
        forall|r: int, i: int|
            0 <= r < register_count(opcodes@) && 0 <= i < opcodes@.len() ==> (#[trigger] grid(
                *old(live_range),
            )[r][i]) == mark(opcodes@[i], r as usize),
    ensures
        grid(*final(live_range)) == live_ranges(opcodes@),
{
    let ghost prog = opcodes@;
    let ghost n = register_count(prog);
    let ghost len = prog.len();
    let register_num = live_range.len();
    let mut living: Vec<bool> = Vec::new();
    living.resize(register_num, false);
    let mut reg_id: usize = 0;
    while reg_id < live_range.len()
        invariant
            reg_id <= live_range.len(),
            prog == opcodes@,
            n == register_count(prog),
            len == prog.len(),
            has_shape(grid(*live_range), n, len),
            living@.len() == n,
            forall|r: int| reg_id <= r < n ==> !(#[trigger] living@[r]),
            forall|r: int, j: int|
                0 <= r < n && 0 <= j < len ==> (#[trigger] grid(*live_range)[r][j]) == if r
                    < reg_id {
                    cell(prog, r as usize, j)
                } else {
                    mark(prog[j], r as usize)
                },
        decreases live_range.len() - reg_id,
    {
        assert(grid(*live_range)[reg_id as int].len() == len);
        let mut i: usize = live_range[reg_id].len();
        while i > 0
            invariant
                i <= len,
                reg_id < n,
                prog == opcodes@,
                n == register_count(prog),
                len == prog.len(),
                has_shape(grid(*live_range), n, len),
                living@.len() == n,
                forall|r: int| reg_id < r < n ==> !(#[trigger] living@[r]),
                living@[reg_id as int] == needed_from(prog, reg_id, i as int),
                forall|r: int, j: int|
                    0 <= r < n && 0 <= j < len ==> (#[trigger] grid(*live_range)[r][j]) == if r
                        < reg_id || (r == reg_id && j >= i) {
                        cell(prog, r as usize, j)
                    } else {
                        mark(prog[j], r as usize)
                    },
            decreases i,
        {
            i -= 1;
            let ghost before = grid(*live_range);
            assert(before[reg_id as int].len() == len);
            assert(before[reg_id as int][i as int] == mark(prog[i as int], reg_id));
            let current = live_range[reg_id][i];
            match current {
                LiveRangeCell::Dead => {
                    if living[reg_id] {
                        set_cell(live_range, reg_id, i, LiveRangeCell::Live);
                    }
                },
                LiveRangeCell::Live | LiveRangeCell::Used => {
                    if !living[reg_id] {
                        set_cell(live_range, reg_id, i, LiveRangeCell::EndPoint);
                    }
                    living[reg_id] = true;
                },
                LiveRangeCell::Birth => {
                    living[reg_id] = false;
                },
                LiveRangeCell::EndPoint => {},
            }
            proof {
                assert forall|r: int| 0 <= r < n implies (#[trigger] grid(*live_range)[r]).len()
                    == len by {
                    assert(before[r].len() == len);
                }
                assert forall|r: int, j: int| 0 <= r < n && 0 <= j < len implies (#[trigger] grid(
                    *live_range,
                )[r][j]) == if r < reg_id || (r == reg_id && j >= i) {
                    cell(prog, r as usize, j)
                } else {
                    mark(prog[j], r as usize)
                } by {
                    assert(before[r].len() == len);
                    assert(before[r][j] == if r < reg_id || (r == reg_id && j >= i + 1) {
                        cell(prog, r as usize, j)
                    } else {
                        mark(prog[j], r as usize)
                    });
                }
            }
        }
        reg_id += 1;
    }
    proof {
        assert forall|r: int| 0 <= r < n implies (#[trigger] grid(*live_range)[r])
            =~= live_ranges(prog)[r] by {
            assert forall|j: int| 0 <= j < len implies grid(*live_range)[r][j] == live_ranges(
                prog,
            )[r][j] by {}
        }
        assert(grid(*live_range) =~= live_ranges(prog));
    }
}

/// Builds the live-range matrix of a program.
pub fn build_live_ranges(opcodes: &Vec<OpeCode>) -> (live_range: Vec<Vec<LiveRangeCell>>)
    requires
        max_id(opcodes@) < usize::MAX,
    ensures
        grid(live_range) == live_ranges(opcodes@),
{
    let register_num = count_registers(opcodes);
    let mut live_range = filled(register_num, opcodes.len(), LiveRangeCell::Dead);
    mark_sites(opcodes, &mut live_range);
    spread_liveness(opcodes, &mut live_range);
    live_range
}

} // verus!
