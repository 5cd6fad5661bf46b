//! Why rewriting keeps what a program prints: the rewritten program, run on
//! the physical machine, follows the input program step by step.

use crate::ir::{
    defined_before, mentions, reads, well_formed, writes, Integer, OpeCode, Register,
};
use crate::spill::{
    dst_reg, dst_store, first_touch, lemma_spill_order_grows, lemma_spill_order_members,
    lemma_spill_order_shape, rewrite_one, rewritten, rewritten_with, slot_of, spill_order,
    src_load, src_reg, starts, touch_op, Placement,
};
use crate::vm::{advance, fits, going, printed, run_state, step, Run, State, MEMORY_SIZE};
use vstd::prelude::*;

verus! {

/// The run `r` continued with `ops`.
pub open spec fn run_more(r: Run, ops: Seq<OpeCode>) -> Run
    decreases ops.len(),
{
    if ops.len() == 0 {
        r
    } else {
        advance(run_more(r, ops.drop_last()), ops.last())
    }
}

/// Running two pieces one after the other is running their concatenation.
pub proof fn lemma_run_more_concat(r: Run, a: Seq<OpeCode>, b: Seq<OpeCode>)
    ensures
        run_more(r, a + b) == run_more(run_more(r, a), b),
    decreases b.len(),
{
    if b.len() == 0 {
        assert(a + b =~= a);
    } else {
        lemma_run_more_concat(r, a, b.drop_last());
        assert((a + b).drop_last() =~= a + b.drop_last());
    }
}

/// A run of a whole program is a run of its first part, continued.
pub proof fn lemma_run_state_concat(a: Seq<OpeCode>, b: Seq<OpeCode>, k: usize)
    ensures
        run_state(a + b, k) == run_more(run_state(a, k), b),
    decreases b.len(),
{
    if b.len() == 0 {
        assert(a + b =~= a);
    } else {
        lemma_run_state_concat(a, b.drop_last(), k);
        assert((a + b).drop_last() =~= a + b.drop_last());
    }
}

/// Running a single instruction is one step.
pub proof fn lemma_run_more_one(r: Run, op: OpeCode)
    ensures
        run_more(r, seq![op]) == advance(r, op),
{
    assert(seq![op].drop_last() =~= Seq::<OpeCode>::empty());
    assert(run_more(r, Seq::<OpeCode>::empty()) == r);
    assert(seq![op].last() == op);
}

/// A stopped run stays as it is.
pub proof fn lemma_run_more_stopped(r: Run, ops: Seq<OpeCode>)
    requires
        r.error is Some,
    ensures
        run_more(r, ops) == r,
    decreases ops.len(),
{
    if ops.len() > 0 {
        lemma_run_more_stopped(r, ops.drop_last());
    }
}

/// The memory address that an instruction names, if any.
pub open spec fn address_of(op: OpeCode) -> Option<i32> {
    match op {
        OpeCode::Store { dst, .. } => Some(dst.value),
        OpeCode::Load { src, .. } => Some(src.value),
        _ => None,
    }
}

/// Whether no memory address in the program lies in `0..slots`.
pub open spec fn addresses_clear_of(prog: Seq<OpeCode>, slots: int) -> bool {
    forall|i: int|
        0 <= i < prog.len() ==> match #[trigger] address_of(prog[i]) {
            Some(a) => a < 0 || slots <= a,
            None => true,
        }
}

/// Whether the value of register `v` matters after instruction `i`.
pub open spec fn matters_after(valid: spec_fn(usize, int) -> bool, v: usize, i: int) -> bool {
    valid(v, i + 1)
}

/// What the simulation asks of a program, a placement and a notion of which
/// registers matter at which index: the input program runs on registers `0..=n`;
/// reads follow writes; the slots fit the memory and the program names none
/// of their addresses; registers out of memory live below the scratch registers; a
/// register that is read matters; one that matters after an instruction that
/// does not write it mattered before; and an instruction never writes the
/// home of another register that still matters.
pub open spec fn simulable(
    prog: Seq<OpeCode>,
    pl: Placement,
    k: usize,
    n: usize,
    valid: spec_fn(usize, int) -> bool,
) -> bool {
    &&& k >= 2
    &&& fits(prog, n)
    &&& well_formed(prog)
    &&& spill_order(prog, pl, k).len() <= MEMORY_SIZE
    &&& addresses_clear_of(prog, spill_order(prog, pl, k).len() as int)
    &&& forall|v: usize| v <= n && !pl.in_memory(k, v) ==> #[trigger] pl.home_id(v) <= k - 2
    &&& forall|i: int, v: usize|
        0 <= i < prog.len() && #[trigger] reads(prog[i], v) && !pl.in_memory(k, v) ==> valid(v, i)
    &&& forall|i: int, v: usize|
        0 <= i < prog.len() && #[trigger] matters_after(valid, v, i) && !writes(prog[i], v)
            ==> valid(v, i)
    &&& forall|i: int, d: usize, v: usize|
        0 <= i < prog.len() && #[trigger] writes(prog[i], d) && !pl.in_memory(k, d) && v != d
            && v <= n && !pl.in_memory(k, v) && #[trigger] matters_after(valid, v, i)
            ==> pl.home_id(v) != pl.home_id(d)
}

/// How the physical machine `sp` mirrors the virtual machine `sv` before
/// instruction `i`, with the slots of `order` handed out: the same output;
/// every register out of memory that matters is in its home; every register
/// with a slot is in its slot; and above the slots the memories agree.
pub open spec fn mirrors(
    pl: Placement,
    k: usize,
    n: usize,
    valid: spec_fn(usize, int) -> bool,
    slots: int,
    order: Seq<usize>,
    i: int,
    sv: State,
    sp: State,
) -> bool {
    &&& sv.out == sp.out
    &&& sv.regs.len() == n + 1
    &&& sp.regs.len() == k + 1
    &&& sv.mem.len() == MEMORY_SIZE
    &&& sp.mem.len() == MEMORY_SIZE
    &&& order.len() <= slots <= MEMORY_SIZE
    &&& forall|v: usize|
        v <= n && !pl.in_memory(k, v) && #[trigger] valid(v, i) ==> sp.regs[pl.home_id(v) as int]
            == sv.regs[v as int]
    &&& forall|j: int|
        0 <= j < order.len() ==> order[j] <= n && sp.mem[j] == sv.regs[(#[trigger] order[j]) as int]
    &&& forall|a: int| slots <= a < MEMORY_SIZE ==> #[trigger] sp.mem[a] == sv.mem[a]
}

/// In a well-formed program, a register in memory that an instruction reads
/// has got its slot before.
proof fn lemma_read_has_slot(prog: Seq<OpeCode>, pl: Placement, k: usize, i: int, v: usize)
    requires
        well_formed(prog),
        0 <= i < prog.len(),
        reads(prog[i], v),
        pl.in_memory(k, v),
    ensures
        spill_order(prog.take(i), pl, k).contains(v),
{
    assert(defined_before(prog, i, v));
    let j = choose|j: int| 0 <= j < i && j < prog.len() && #[trigger] writes(prog[j], v);
    assert(mentions(prog.take(i)[j], v));
    lemma_spill_order_members(prog.take(i), pl, k, v);
}

/// Every register in the slot order lives in memory.
proof fn lemma_slots_hold_memory_registers(prog: Seq<OpeCode>, pl: Placement, k: usize)
    ensures
        forall|j: int|
            0 <= j < spill_order(prog, pl, k).len() ==> pl.in_memory(
                k,
                #[trigger] spill_order(prog, pl, k)[j],
            ),
{
    let order = spill_order(prog, pl, k);
    assert forall|j: int| 0 <= j < order.len() implies pl.in_memory(k, #[trigger] order[j]) by {
        lemma_spill_order_members(prog, pl, k, order[j]);
        assert(order.contains(order[j]));
    }
}

/// Preparing a source: after the load, if any, the register that the
/// instruction reads holds the value that the source has on the virtual
/// machine, and nothing but the scratch register has changed.
proof fn lemma_source(
    pl: Placement,
    k: usize,
    n: usize,
    valid: spec_fn(usize, int) -> bool,
    order: Seq<usize>,
    fin: Seq<usize>,
    i: int,
    sv: State,
    sp: State,
    r: Register,
    scratch: usize,
)
    requires
        k >= 2,
        scratch == k - 1 || scratch == k,
        mirrors(pl, k, n, valid, fin.len() as int, order, i, sv, sp),
        r.id <= n,
        starts(order, fin),
        fin.no_duplicates(),
        pl.in_memory(k, r.id) ==> order.contains(r.id),
        !pl.in_memory(k, r.id) ==> valid(r.id, i) && pl.home_id(r.id) <= k - 2,
    ensures
        run_more(going(sp), src_load(r, scratch, pl, k, fin)).error is None,
        ({
            let sp1 = run_more(going(sp), src_load(r, scratch, pl, k, fin)).state;
            &&& src_reg(r, scratch, pl, k).id <= k
            &&& sp1.regs[src_reg(r, scratch, pl, k).id as int] == sv.regs[r.id as int]
            &&& sp1.mem == sp.mem
            &&& sp1.out == sp.out
            &&& sp1.regs.len() == sp.regs.len()
            &&& forall|x: int| 0 <= x <= k && x != scratch ==> sp1.regs[x] == sp.regs[x]
        }),
{
    if pl.in_memory(k, r.id) {
        let j = choose|j: int| 0 <= j < order.len() && order[j] == r.id;
        assert(fin[j] == r.id);
        assert(slot_of(fin, r.id) == j);
        let load = src_load(r, scratch, pl, k, fin)[0];
        assert(src_load(r, scratch, pl, k, fin) =~= seq![load]);
        lemma_run_more_one(going(sp), load);
        assert(sp.mem[j] == sv.regs[order[j] as int]);
    } else {
        assert(src_load(r, scratch, pl, k, fin) =~= Seq::<OpeCode>::empty());
        assert(valid(r.id, i));
    }
}

/// Finishing a definition: once the defining instruction has put the value
/// into the register that stands for the destination, and the store, if any,
/// has run, the physical machine mirrors the virtual one after the instruction.
proof fn lemma_finish_def(
    prog: Seq<OpeCode>,
    pl: Placement,
    k: usize,
    n: usize,
    valid: spec_fn(usize, int) -> bool,
    i: int,
    sv: State,
    sp: State,
    mid: State,
    dst: Register,
    val: i32,
)
    requires
        simulable(prog, pl, k, n, valid),
        0 <= i < prog.len(),
        writes(prog[i], dst.id),
        touch_op(spill_order(prog.take(i), pl, k), pl, k, prog[i]) == first_touch(
            spill_order(prog.take(i), pl, k),
            pl,
            k,
            dst.id,
        ),
        mirrors(
            pl,
            k,
            n,
            valid,
            spill_order(prog, pl, k).len() as int,
            spill_order(prog.take(i), pl, k),
            i,
            sv,
            sp,
        ),
        mid.out == sp.out,
        mid.mem == sp.mem,
        mid.regs.len() == sp.regs.len(),
        mid.regs[dst_reg(dst, pl, k).id as int] == val,
        forall|x: int|
            0 <= x <= k - 2 && x != dst_reg(dst, pl, k).id ==> mid.regs[x] == sp.regs[x],
    ensures
        run_more(going(mid), dst_store(dst, pl, k, spill_order(prog, pl, k))).error is None,
        mirrors(
            pl,
            k,
            n,
            valid,
            spill_order(prog, pl, k).len() as int,
            spill_order(prog.take(i + 1), pl, k),
            i + 1,
            State { regs: sv.regs.update(dst.id as int, val), ..sv },
            run_more(going(mid), dst_store(dst, pl, k, spill_order(prog, pl, k))).state,
        ),
{
    let fin = spill_order(prog, pl, k);
    let order = spill_order(prog.take(i), pl, k);
    let order2 = spill_order(prog.take(i + 1), pl, k);
    let sv2 = State { regs: sv.regs.update(dst.id as int, val), ..sv };
    let end = run_more(going(mid), dst_store(dst, pl, k, fin));
    lemma_spill_order_shape(prog, pl, k);
    lemma_spill_order_grows(prog, pl, k, i + 1, prog.len() as int);
    assert(prog.take(prog.len() as int) =~= prog);
    assert(prog.take(i + 1).drop_last() =~= prog.take(i));
    assert(prog.take(i + 1).last() == prog[i]);
    assert(order2 == first_touch(order, pl, k, dst.id));
    assert(starts(order2, fin));
    lemma_slots_hold_memory_registers(prog.take(i), pl, k);
    assert(mentions(prog[i], dst.id));
    assert(dst.id <= n);
    if pl.in_memory(k, dst.id) {
        let store = dst_store(dst, pl, k, fin)[0];
        assert(dst_store(dst, pl, k, fin) =~= seq![store]);
        lemma_run_more_one(going(mid), store);
        let j = if order.contains(dst.id) {
            choose|j: int| 0 <= j < order.len() && order[j] == dst.id
        } else {
            order.len() as int
        };
        assert(order2[j] == dst.id);
        assert(fin[j] == dst.id);
        assert(slot_of(fin, dst.id) == j);
        let sp2 = end.state;
        assert(sp2.mem == mid.mem.update(j, val));
        assert forall|x: int| 0 <= x < order2.len() implies order2[x] <= n && sp2.mem[x]
            == sv2.regs[(#[trigger] order2[x]) as int] by {
            assert(fin[x] == order2[x]);
            if x != j {
                assert(order2[x] != dst.id);
                assert(x < order.len());
                assert(order[x] == order2[x]);
            }
        }
        assert forall|v: usize|
            v <= n && !pl.in_memory(k, v) && #[trigger] valid(v, i + 1) implies sp2.regs[pl.home_id(
            v,
        ) as int] == sv2.regs[v as int] by {
            assert(matters_after(valid, v, i));
            assert(valid(v, i));
        }
    } else {
        assert(dst_store(dst, pl, k, fin) =~= Seq::<OpeCode>::empty());
        assert(order2 == order);
        assert forall|x: int| 0 <= x < order2.len() implies order2[x] <= n && mid.mem[x]
            == sv2.regs[(#[trigger] order2[x]) as int] by {
            assert(pl.in_memory(k, order[x]));
        }
        assert forall|v: usize|
            v <= n && !pl.in_memory(k, v) && #[trigger] valid(v, i + 1) implies mid.regs[pl.home_id(
            v,
        ) as int] == sv2.regs[v as int] by {
            assert(matters_after(valid, v, i));
            if v != dst.id {
                assert(valid(v, i));
                assert(pl.home_id(v) != pl.home_id(dst.id));
            }
        }
    }
}

/// A change of the scratch registers alone does not disturb the mirror.
proof fn lemma_scratch_is_free(
    pl: Placement,
    k: usize,
    n: usize,
    valid: spec_fn(usize, int) -> bool,
    slots: int,
    order: Seq<usize>,
    i: int,
    sv: State,
    sp: State,
    sp1: State,
)
    requires
        k >= 2,
        mirrors(pl, k, n, valid, slots, order, i, sv, sp),
        forall|v: usize| v <= n && !pl.in_memory(k, v) ==> #[trigger] pl.home_id(v) <= k - 2,
        sp1.mem == sp.mem,
        sp1.out == sp.out,
        sp1.regs.len() == sp.regs.len(),
        forall|x: int| 0 <= x <= k - 2 ==> sp1.regs[x] == sp.regs[x],
    ensures
        mirrors(pl, k, n, valid, slots, order, i, sv, sp1),
{
    assert forall|v: usize|
        v <= n && !pl.in_memory(k, v) && #[trigger] valid(v, i) implies sp1.regs[pl.home_id(
        v,
    ) as int] == sv.regs[v as int] by {
        assert(pl.home_id(v) <= k - 2);
    }
}

/// The physical machine mirrors the virtual one before instruction `i`.
pub open spec fn ready(
    prog: Seq<OpeCode>,
    pl: Placement,
    k: usize,
    n: usize,
    valid: spec_fn(usize, int) -> bool,
    i: int,
    sv: State,
    sp: State,
) -> bool {
    &&& simulable(prog, pl, k, n, valid)
    &&& 0 <= i < prog.len()
    &&& mirrors(
        pl,
        k,
        n,
        valid,
        spill_order(prog, pl, k).len() as int,
        spill_order(prog.take(i), pl, k),
        i,
        sv,
        sp,
    )
}

/// Instruction `i` and its rewritten group end alike: either both run
/// without error and the physical machine mirrors the virtual one after
/// them, or both stop with the same error, having printed the same.
pub open spec fn stepped(
    prog: Seq<OpeCode>,
    pl: Placement,
    k: usize,
    n: usize,
    valid: spec_fn(usize, int) -> bool,
    i: int,
    sv: State,
    sp: State,
) -> bool {
    let after = run_more(going(sp), rewrite_one(prog[i], pl, k, spill_order(prog, pl, k)));
    match step(sv, prog[i]) {
        Ok(sv2) => after.error is None && mirrors(
            pl,
            k,
            n,
            valid,
            spill_order(prog, pl, k).len() as int,
            spill_order(prog.take(i + 1), pl, k),
            i + 1,
            sv2,
            after.state,
        ),
        Err(e) => after.error == Some(e) && after.state.out == sv.out,
    }
}

/// The slot order after instruction `i` is the one before it, with the
/// instruction's registers referred to; both are initial parts of the whole.
proof fn lemma_orders(prog: Seq<OpeCode>, pl: Placement, k: usize, i: int)
    requires
        0 <= i < prog.len(),
    ensures
        spill_order(prog.take(i + 1), pl, k) == touch_op(
            spill_order(prog.take(i), pl, k),
            pl,
            k,
            prog[i],
        ),
        starts(spill_order(prog.take(i), pl, k), spill_order(prog, pl, k)),
        spill_order(prog, pl, k).no_duplicates(),
{
    lemma_spill_order_shape(prog, pl, k);
    lemma_spill_order_grows(prog, pl, k, i, prog.len() as int);
    assert(prog.take(prog.len() as int) =~= prog);
    assert(prog.take(i + 1).drop_last() =~= prog.take(i));
    assert(prog.take(i + 1).last() == prog[i]);
}

/// The register that stands for an operand is one of `0..=k`.
proof fn lemma_operand_register(
    prog: Seq<OpeCode>,
    pl: Placement,
    k: usize,
    n: usize,
    valid: spec_fn(usize, int) -> bool,
    i: int,
    r: Register,
    scratch: usize,
)
    requires
        simulable(prog, pl, k, n, valid),
        0 <= i < prog.len(),
        mentions(prog[i], r.id),
        scratch == k - 1 || scratch == k,
    ensures
        src_reg(r, scratch, pl, k).id <= k,
        r.id <= n,
        !pl.in_memory(k, r.id) ==> pl.home_id(r.id) <= k - 2 && src_reg(r, scratch, pl, k).id
            == pl.home_id(r.id),
        pl.in_memory(k, r.id) ==> src_reg(r, scratch, pl, k).id == scratch,
{
    if !pl.in_memory(k, r.id) {
        assert(pl.home_id(r.id) <= k - 2);
    }
}

/// A step that writes no register: the mirror carries over.
proof fn lemma_finish_use(
    prog: Seq<OpeCode>,
    pl: Placement,
    k: usize,
    n: usize,
    valid: spec_fn(usize, int) -> bool,
    i: int,
    sv: State,
    sp: State,
    sv2: State,
    sp2: State,
)
    requires
        ready(prog, pl, k, n, valid, i, sv, sp),
        forall|v: usize| !writes(prog[i], v),
        spill_order(prog.take(i + 1), pl, k) == spill_order(prog.take(i), pl, k),
        sv2.regs == sv.regs,
        sp2.regs.len() == sp.regs.len(),
        forall|x: int| 0 <= x <= k - 2 ==> sp2.regs[x] == sp.regs[x],
        sv2.out == sp2.out,
        sv2.mem.len() == sv.mem.len(),
        sp2.mem.len() == sp.mem.len(),
        forall|a: int| 0 <= a < spill_order(prog, pl, k).len() ==> sp2.mem[a] == sp.mem[a],
        forall|a: int|
            spill_order(prog, pl, k).len() <= a < MEMORY_SIZE ==> sp2.mem[a] == sv2.mem[a],
    ensures
        mirrors(
            pl,
            k,
            n,
            valid,
            spill_order(prog, pl, k).len() as int,
            spill_order(prog.take(i + 1), pl, k),
            i + 1,
            sv2,
            sp2,
        ),
{
    assert forall|v: usize|
        v <= n && !pl.in_memory(k, v) && #[trigger] valid(v, i + 1) implies sp2.regs[pl.home_id(
        v,
    ) as int] == sv2.regs[v as int] by {
        assert(matters_after(valid, v, i));
        assert(valid(v, i));
        assert(pl.home_id(v) <= k - 2);
    }
}

/// The step of an addition.
proof fn lemma_step_add(
    prog: Seq<OpeCode>,
    pl: Placement,
    k: usize,
    n: usize,
    valid: spec_fn(usize, int) -> bool,
    i: int,
    sv: State,
    sp: State,
    dst: Register,
    src1: Register,
    src2: Register,
)
    requires
        ready(prog, pl, k, n, valid, i, sv, sp),
        prog[i] == (OpeCode::Add { dst, src1, src2 }),
    ensures
        stepped(prog, pl, k, n, valid, i, sv, sp),
{
    let fin = spill_order(prog, pl, k);
    let slots = fin.len() as int;
    let order = spill_order(prog.take(i), pl, k);
    let op = prog[i];
    let hi = (k - 1) as usize;
    lemma_orders(prog, pl, k, i);
    assert(mentions(op, dst.id) && mentions(op, src1.id) && mentions(op, src2.id));
    assert(reads(prog[i], src1.id) && reads(prog[i], src2.id));
    assert(writes(prog[i], dst.id));
    lemma_operand_register(prog, pl, k, n, valid, i, dst, hi);
    lemma_operand_register(prog, pl, k, n, valid, i, src1, hi);
    lemma_operand_register(prog, pl, k, n, valid, i, src2, k);
    if pl.in_memory(k, src1.id) {
        lemma_read_has_slot(prog, pl, k, i, src1.id);
    }
    if pl.in_memory(k, src2.id) {
        lemma_read_has_slot(prog, pl, k, i, src2.id);
    }
    let l1 = src_load(src1, hi, pl, k, fin);
    let l2 = src_load(src2, k, pl, k, fin);
    let main = OpeCode::Add {
        dst: dst_reg(dst, pl, k),
        src1: src_reg(src1, hi, pl, k),
        src2: src_reg(src2, k, pl, k),
    };
    let st = dst_store(dst, pl, k, fin);
    lemma_source(pl, k, n, valid, order, fin, i, sv, sp, src1, hi);
    let sp1 = run_more(going(sp), l1).state;
    lemma_scratch_is_free(pl, k, n, valid, slots, order, i, sv, sp, sp1);
    lemma_source(pl, k, n, valid, order, fin, i, sv, sp1, src2, k);
    let sp2 = run_more(going(sp1), l2).state;
    lemma_run_more_one(going(sp2), main);
    let mid = step(sp2, main)->Ok_0;
    let val = sv.regs[src1.id as int].wrapping_add(sv.regs[src2.id as int]);
    assert(sp2.regs[src_reg(src1, hi, pl, k).id as int] == sv.regs[src1.id as int]);
    assert(mid.regs[dst_reg(dst, pl, k).id as int] == val);
    lemma_finish_def(prog, pl, k, n, valid, i, sv, sp, mid, dst, val);
    lemma_run_more_concat(going(sp), l1, l2);
    lemma_run_more_concat(going(sp), l1 + l2, seq![main]);
    lemma_run_more_concat(going(sp), l1 + l2 + seq![main], st);
    assert(rewrite_one(op, pl, k, fin) == l1 + l2 + seq![main] + st);
}

/// The step of a load-immediate.
proof fn lemma_step_ldi(
    prog: Seq<OpeCode>,
    pl: Placement,
    k: usize,
    n: usize,
    valid: spec_fn(usize, int) -> bool,
    i: int,
    sv: State,
    sp: State,
    dst: Register,
    value: Integer,
)
    requires
        ready(prog, pl, k, n, valid, i, sv, sp),
        prog[i] == (OpeCode::LdI { dst, value }),
    ensures
        stepped(prog, pl, k, n, valid, i, sv, sp),
{
    let fin = spill_order(prog, pl, k);
    let op = prog[i];
    lemma_orders(prog, pl, k, i);
    assert(mentions(op, dst.id));
    assert(writes(prog[i], dst.id));
    lemma_operand_register(prog, pl, k, n, valid, i, dst, (k - 1) as usize);
    let main = OpeCode::LdI { dst: dst_reg(dst, pl, k), value };
    let st = dst_store(dst, pl, k, fin);
    lemma_run_more_one(going(sp), main);
    let mid = step(sp, main)->Ok_0;
    lemma_finish_def(prog, pl, k, n, valid, i, sv, sp, mid, dst, value.value);
    lemma_run_more_concat(going(sp), seq![main], st);
    assert(rewrite_one(op, pl, k, fin) == seq![main] + st);
}

/// The step of a load from memory.
proof fn lemma_step_load(
    prog: Seq<OpeCode>,
    pl: Placement,
    k: usize,
    n: usize,
    valid: spec_fn(usize, int) -> bool,
    i: int,
    sv: State,
    sp: State,
    dst: Register,
    src: Integer,
)
    requires
        ready(prog, pl, k, n, valid, i, sv, sp),
        prog[i] == (OpeCode::Load { dst, src }),
    ensures
        stepped(prog, pl, k, n, valid, i, sv, sp),
{
    let fin = spill_order(prog, pl, k);
    let op = prog[i];
    lemma_orders(prog, pl, k, i);
    assert(mentions(op, dst.id));
    assert(writes(prog[i], dst.id));
    assert(address_of(prog[i]) == Some(src.value));
    lemma_operand_register(prog, pl, k, n, valid, i, dst, (k - 1) as usize);
    let main = OpeCode::Load { dst: dst_reg(dst, pl, k), src };
    let st = dst_store(dst, pl, k, fin);
    lemma_run_more_one(going(sp), main);
    lemma_run_more_concat(going(sp), seq![main], st);
    assert(rewrite_one(op, pl, k, fin) == seq![main] + st);
    if step(sv, op) is Ok {
        let mid = step(sp, main)->Ok_0;
        assert(sp.mem[src.value as int] == sv.mem[src.value as int]);
        lemma_finish_def(prog, pl, k, n, valid, i, sv, sp, mid, dst, sv.mem[src.value as int]);
    } else {
        lemma_run_more_stopped(advance(going(sp), main), st);
    }
}

/// The step of a store to memory.
proof fn lemma_step_store(
    prog: Seq<OpeCode>,
    pl: Placement,
    k: usize,
    n: usize,
    valid: spec_fn(usize, int) -> bool,
    i: int,
    sv: State,
    sp: State,
    dst: Integer,
    src: Register,
)
    requires
        ready(prog, pl, k, n, valid, i, sv, sp),
        prog[i] == (OpeCode::Store { dst, src }),
    ensures
        stepped(prog, pl, k, n, valid, i, sv, sp),
{
    let fin = spill_order(prog, pl, k);
    let slots = fin.len() as int;
    let order = spill_order(prog.take(i), pl, k);
    let op = prog[i];
    lemma_orders(prog, pl, k, i);
    assert(mentions(op, src.id));
    assert(reads(prog[i], src.id));
    assert(address_of(prog[i]) == Some(dst.value));
    lemma_operand_register(prog, pl, k, n, valid, i, src, k);
    if pl.in_memory(k, src.id) {
        lemma_read_has_slot(prog, pl, k, i, src.id);
    }
    let l1 = src_load(src, k, pl, k, fin);
    let main = OpeCode::Store { dst, src: src_reg(src, k, pl, k) };
    lemma_source(pl, k, n, valid, order, fin, i, sv, sp, src, k);
    let sp1 = run_more(going(sp), l1).state;
    lemma_run_more_one(going(sp1), main);
    lemma_run_more_concat(going(sp), l1, seq![main]);
    assert(rewrite_one(op, pl, k, fin) == l1 + seq![main]);
    if step(sv, op) is Ok {
        let sv2 = step(sv, op)->Ok_0;
        let sp2 = step(sp1, main)->Ok_0;
        lemma_finish_use(prog, pl, k, n, valid, i, sv, sp, sv2, sp2);
    }
}

/// The step of a print.
proof fn lemma_step_print(
    prog: Seq<OpeCode>,
    pl: Placement,
    k: usize,
    n: usize,
    valid: spec_fn(usize, int) -> bool,
    i: int,
    sv: State,
    sp: State,
    src: Register,
)
    requires
        ready(prog, pl, k, n, valid, i, sv, sp),
        prog[i] == (OpeCode::Print { src }),
    ensures
        stepped(prog, pl, k, n, valid, i, sv, sp),
{
    let fin = spill_order(prog, pl, k);
    let order = spill_order(prog.take(i), pl, k);
    let op = prog[i];
    lemma_orders(prog, pl, k, i);
    assert(mentions(op, src.id));
    assert(reads(prog[i], src.id));
    lemma_operand_register(prog, pl, k, n, valid, i, src, k);
    if pl.in_memory(k, src.id) {
        lemma_read_has_slot(prog, pl, k, i, src.id);
    }
    let l1 = src_load(src, k, pl, k, fin);
    let main = OpeCode::Print { src: src_reg(src, k, pl, k) };
    lemma_source(pl, k, n, valid, order, fin, i, sv, sp, src, k);
    let sp1 = run_more(going(sp), l1).state;
    lemma_run_more_one(going(sp1), main);
    lemma_run_more_concat(going(sp), l1, seq![main]);
    assert(rewrite_one(op, pl, k, fin) == l1 + seq![main]);
    let sv2 = step(sv, op)->Ok_0;
    let sp2 = step(sp1, main)->Ok_0;
    lemma_finish_use(prog, pl, k, n, valid, i, sv, sp, sv2, sp2);
}

/// One instruction of the input against its rewritten group: if the
/// physical machine mirrors the virtual one before, both go on without error
/// and it mirrors the virtual one after.
proof fn lemma_step(
    prog: Seq<OpeCode>,
    pl: Placement,
    k: usize,
    n: usize,
    valid: spec_fn(usize, int) -> bool,
    i: int,
    sv: State,
    sp: State,
)
    requires
        ready(prog, pl, k, n, valid, i, sv, sp),
    ensures
        stepped(prog, pl, k, n, valid, i, sv, sp),
{
    match prog[i] {
        OpeCode::Add { dst, src1, src2 } => {
            lemma_step_add(prog, pl, k, n, valid, i, sv, sp, dst, src1, src2);
        },
        OpeCode::LdI { dst, value } => {
            lemma_step_ldi(prog, pl, k, n, valid, i, sv, sp, dst, value);
        },
        OpeCode::Load { dst, src } => {
            lemma_step_load(prog, pl, k, n, valid, i, sv, sp, dst, src);
        },
        OpeCode::Store { dst, src } => {
            lemma_step_store(prog, pl, k, n, valid, i, sv, sp, dst, src);
        },
        OpeCode::Print { src } => {
            lemma_step_print(prog, pl, k, n, valid, i, sv, sp, src);
        },
    }
}

/// The two runs after `i` instructions of the input: both have stopped
/// with the same error or neither has, they have printed the same, and
/// while they go on the physical machine mirrors the virtual one.
pub open spec fn in_step(
    prog: Seq<OpeCode>,
    pl: Placement,
    k: usize,
    n: usize,
    valid: spec_fn(usize, int) -> bool,
    i: int,
) -> bool {
    let rv = run_state(prog.take(i), n);
    let rp = run_state(rewritten_with(prog.take(i), pl, k, spill_order(prog, pl, k)), k);
    &&& rv.error == rp.error
    &&& rv.state.out == rp.state.out
    &&& rv.error is None ==> mirrors(
        pl,
        k,
        n,
        valid,
        spill_order(prog, pl, k).len() as int,
        spill_order(prog.take(i), pl, k),
        i,
        rv.state,
        rp.state,
    )
}

/// The simulation: after any number of instructions, the run of the input
/// and the run of the rewritten program are in step.
pub proof fn lemma_simulation(
    prog: Seq<OpeCode>,
    pl: Placement,
    k: usize,
    n: usize,
    valid: spec_fn(usize, int) -> bool,
    i: int,
)
    requires
        simulable(prog, pl, k, n, valid),
        0 <= i <= prog.len(),
    ensures
        in_step(prog, pl, k, n, valid, i),
    decreases i,
{
    let fin = spill_order(prog, pl, k);
    if i == 0 {
        assert(prog.take(0) =~= Seq::<OpeCode>::empty());
    } else {
        lemma_simulation(prog, pl, k, n, valid, i - 1);
        let before = prog.take(i - 1);
        let rv = run_state(before, n);
        let rp = run_state(rewritten_with(before, pl, k, fin), k);
        let group = rewrite_one(prog[i - 1], pl, k, fin);
        assert(prog.take(i).drop_last() =~= before);
        assert(prog.take(i).last() == prog[i - 1]);
        lemma_run_state_concat(rewritten_with(before, pl, k, fin), group, k);
        if rv.error is None {
            lemma_step(prog, pl, k, n, valid, i - 1, rv.state, rp.state);
        } else {
            lemma_run_more_stopped(rp, group);
        }
    }
}

/// Semantic preservation of the emitter: under the conditions of the
/// simulation, the rewritten program prints on `k` registers what the
/// input prints on registers `0..=n`, and stops with an error where the
/// input does.
pub proof fn lemma_rewritten_prints_the_same(
    prog: Seq<OpeCode>,
    pl: Placement,
    k: usize,
    n: usize,
    valid: spec_fn(usize, int) -> bool,
)
    requires
        simulable(prog, pl, k, n, valid),
    ensures
        printed(rewritten(prog, pl, k), k) == printed(prog, n),
{
    lemma_simulation(prog, pl, k, n, valid, prog.len() as int);
    assert(prog.take(prog.len() as int) =~= prog);
}

} // verus!
