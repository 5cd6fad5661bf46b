//! Spill-code emission: rewriting a program so that some registers live in
//! memory slots and pass through two scratch registers on every reference.

use crate::ir::{has_operand, in_range, mentions, Integer, OpeCode, Register};
use std::collections::HashMap;
use vstd::prelude::*;

verus! {

/// The longest program the emitter takes: with at most three operands per
/// instruction, every slot address then fits a 32-bit immediate.
pub const MAX_PROGRAM_LEN: usize = 715827882;

/// Where each register of the input program is to live.
pub enum Placement {
    /// Registers up to `k - 2` stay where they are; all others live in memory.
    Threshold,
    /// Each register takes the color the map gives it; it lives in memory
    /// when that color is listed in `spilled`.
    Colored { colors: Map<usize, usize>, spilled: Seq<usize> },
}

impl Placement {
    /// Whether register `id` is kept in a memory slot.
    pub open spec fn in_memory(self, k: usize, id: usize) -> bool {
        match self {
            Placement::Threshold => id > k - 2,
            Placement::Colored { colors, spilled } => spilled.contains(colors[id]),
        }
    }

    /// The physical register that stands for `r` when it is not in memory.
    pub open spec fn home(self, r: Register) -> Register {
        match self {
            Placement::Threshold => r,
            Placement::Colored { colors, .. } => Register::spec_new(colors[r.id]),
        }
    }

    /// The identifier of the physical register that stands for register
    /// `id` when it is not in memory.
    pub open spec fn home_id(self, id: usize) -> usize {
        match self {
            Placement::Threshold => id,
            Placement::Colored { colors, .. } => colors[id],
        }
    }

    /// Whether the placement says where register `id` goes.
    pub open spec fn knows(self, id: usize) -> bool {
        match self {
            Placement::Threshold => true,
            Placement::Colored { colors, .. } => colors.contains_key(id),
        }
    }

    /// Whether the placement knows every register of the program.
    pub open spec fn covers(self, prog: Seq<OpeCode>) -> bool {
        forall|i: int, id: usize|
            0 <= i < prog.len() && #[trigger] mentions(prog[i], id) ==> self.knows(id)
    }
}

/// The slot order after a reference to `id`: a register that lives in memory
/// and has no slot yet takes the next one.
pub open spec fn first_touch(order: Seq<usize>, pl: Placement, k: usize, id: usize) -> Seq<
    usize,
> {
    if pl.in_memory(k, id) && !order.contains(id) {
        order.push(id)
    } else {
        order
    }
}

/// The slot order after one instruction: sources are referenced before the
/// destination.
pub open spec fn touch_op(order: Seq<usize>, pl: Placement, k: usize, op: OpeCode) -> Seq<usize> {
    match op {
        OpeCode::Add { dst, src1, src2 } => first_touch(
            first_touch(first_touch(order, pl, k, src1.id), pl, k, src2.id),
            pl,
            k,
            dst.id,
        ),
        OpeCode::LdI { dst, .. } => first_touch(order, pl, k, dst.id),
        OpeCode::Store { src, .. } => first_touch(order, pl, k, src.id),
        OpeCode::Load { dst, .. } => first_touch(order, pl, k, dst.id),
        OpeCode::Print { src } => first_touch(order, pl, k, src.id),
    }
}

/// The registers that live in memory, each once, in the order in which the
/// program first refers to them. The register at position `i` owns slot `i`.
pub open spec fn spill_order(prog: Seq<OpeCode>, pl: Placement, k: usize) -> Seq<usize>
    decreases prog.len(),
{
    if prog.len() == 0 {
        Seq::empty()
    } else {
        touch_op(spill_order(prog.drop_last(), pl, k), pl, k, prog.last())
    }
}

/// The memory address that backs register `id`.
pub open spec fn slot_of(order: Seq<usize>, id: usize) -> int {
    order.index_of(id)
}

/// The register an instruction reads in place of source `r`.
pub open spec fn src_reg(r: Register, scratch: usize, pl: Placement, k: usize) -> Register {
    if pl.in_memory(k, r.id) {
        Register::spec_new(scratch)
    } else {
        pl.home(r)
    }
}

/// The load that brings source `r` into its scratch register, if it lives in
/// memory.
pub open spec fn src_load(
    r: Register,
    scratch: usize,
    pl: Placement,
    k: usize,
    order: Seq<usize>,
) -> Seq<OpeCode> {
    if pl.in_memory(k, r.id) {
        seq![
            OpeCode::Load {
                dst: Register::spec_new(scratch),
                src: Integer::spec_new(slot_of(order, r.id) as i32),
            },
        ]
    } else {
        Seq::empty()
    }
}

/// The register an instruction writes in place of destination `r`.
pub open spec fn dst_reg(r: Register, pl: Placement, k: usize) -> Register {
    src_reg(r, (k - 1) as usize, pl, k)
}

/// The store that saves destination `r` from the scratch register, if it
/// lives in memory.
pub open spec fn dst_store(r: Register, pl: Placement, k: usize, order: Seq<usize>) -> Seq<
    OpeCode,
> {
    if pl.in_memory(k, r.id) {
        seq![
            OpeCode::Store {
                dst: Integer::spec_new(slot_of(order, r.id) as i32),
                src: Register::spec_new((k - 1) as usize),
            },
        ]
    } else {
        Seq::empty()
    }
}

/// What one instruction becomes: loads of its spilled sources, the
/// instruction itself on physical registers, and a store of its spilled
/// destination.
pub open spec fn rewrite_one(op: OpeCode, pl: Placement, k: usize, order: Seq<usize>) -> Seq<
    OpeCode,
> {
    let hi = (k - 1) as usize;
    match op {
        OpeCode::Add { dst, src1, src2 } => src_load(src1, hi, pl, k, order) + src_load(
            src2,
            k,
            pl,
            k,
            order,
        ) + seq![
            OpeCode::Add {
                dst: dst_reg(dst, pl, k),
                src1: src_reg(src1, hi, pl, k),
                src2: src_reg(src2, k, pl, k),
            },
        ] + dst_store(dst, pl, k, order),
        OpeCode::LdI { dst, value } => seq![OpeCode::LdI { dst: dst_reg(dst, pl, k), value }]
            + dst_store(dst, pl, k, order),
        OpeCode::Store { dst, src } => src_load(src, k, pl, k, order) + seq![
            OpeCode::Store { dst, src: src_reg(src, k, pl, k) },
        ],
        OpeCode::Load { dst, src } => seq![OpeCode::Load { dst: dst_reg(dst, pl, k), src }]
            + dst_store(dst, pl, k, order),
        OpeCode::Print { src } => src_load(src, k, pl, k, order) + seq![
            OpeCode::Print { src: src_reg(src, k, pl, k) },
        ],
    }
}

/// The rewritten instructions of `prog`, one group after another, with slots
/// taken from `order`.
pub open spec fn rewritten_with(
    prog: Seq<OpeCode>,
    pl: Placement,
    k: usize,
    order: Seq<usize>,
) -> Seq<OpeCode>
    decreases prog.len(),
{
    if prog.len() == 0 {
        Seq::empty()
    } else {
        rewritten_with(prog.drop_last(), pl, k, order) + rewrite_one(prog.last(), pl, k, order)
    }
}

/// The whole rewritten program under a placement and `k` physical registers.
pub open spec fn rewritten(prog: Seq<OpeCode>, pl: Placement, k: usize) -> Seq<OpeCode> {
    rewritten_with(prog, pl, k, spill_order(prog, pl, k))
}

/// `a` is an initial part of `b`.
pub open spec fn starts(a: Seq<usize>, b: Seq<usize>) -> bool {
    a.len() <= b.len() && forall|i: int| 0 <= i < a.len() ==> a[i] == b[i]
}

/// The slot order of a program never repeats a register, and holds at most
/// three registers per instruction.
pub proof fn lemma_spill_order_shape(prog: Seq<OpeCode>, pl: Placement, k: usize)
    ensures
        spill_order(prog, pl, k).no_duplicates(),
        spill_order(prog, pl, k).len() <= 3 * prog.len(),
    decreases prog.len(),
{
    if prog.len() > 0 {
        lemma_spill_order_shape(prog.drop_last(), pl, k);
    }
}

/// Slots are stable: the order after the first `i` instructions is an initial
/// part of the order after the first `n`.
pub proof fn lemma_spill_order_grows(prog: Seq<OpeCode>, pl: Placement, k: usize, i: int, n: int)
    requires
        0 <= i <= n <= prog.len(),
    ensures
        starts(spill_order(prog.take(i), pl, k), spill_order(prog.take(n), pl, k)),
    decreases n - i,
{
    if i < n {
        lemma_spill_order_grows(prog, pl, k, i, n - 1);
        assert(prog.take(n).drop_last() =~= prog.take(n - 1));
    }
}

/// Whether every register that stays out of memory gets a physical register
/// in `1..=k - 2`.
pub open spec fn homes_in_range(prog: Seq<OpeCode>, pl: Placement, k: usize) -> bool {
    forall|i: int, r: Register|
        0 <= i < prog.len() && #[trigger] has_operand(prog[i], r) && !pl.in_memory(k, r.id) ==> 1
            <= pl.home(r).id <= k - 2
}

/// Register bound of the emitter: if the placement keeps every register
/// that it leaves out of memory within `1..=k - 2`, the rewritten program
/// names only the registers `1..=k`.
pub proof fn lemma_rewritten_in_range(
    prog: Seq<OpeCode>,
    pl: Placement,
    k: usize,
    order: Seq<usize>,
)
    requires
        k >= 2,
        homes_in_range(prog, pl, k),
    ensures
        in_range(rewritten_with(prog, pl, k, order), 1, k as int),
    decreases prog.len(),
{
    if prog.len() > 0 {
        let init = prog.drop_last();
        let op = prog.last();
        assert forall|i: int, r: Register|
            0 <= i < init.len() && #[trigger] has_operand(init[i], r) && !pl.in_memory(
                k,
                r.id,
            ) implies 1 <= pl.home(r).id <= k - 2 by {
            assert(has_operand(prog[i], r));
        }
        lemma_rewritten_in_range(init, pl, k, order);
        let head = rewritten_with(init, pl, k, order);
        let tail = rewrite_one(op, pl, k, order);
        let out = rewritten_with(prog, pl, k, order);
        assert(out == head + tail);
        assert forall|j: int, id: usize| 0 <= j < tail.len() && #[trigger] mentions(
            tail[j],
            id,
        ) implies 1 <= id <= k by {
            match op {
                OpeCode::Add { dst, src1, src2 } => {
                    assert(has_operand(prog[prog.len() - 1], dst));
                    assert(has_operand(prog[prog.len() - 1], src1));
                    assert(has_operand(prog[prog.len() - 1], src2));
                },
                OpeCode::LdI { dst, .. } => {
                    assert(has_operand(prog[prog.len() - 1], dst));
                },
                OpeCode::Store { src, .. } => {
                    assert(has_operand(prog[prog.len() - 1], src));
                },
                OpeCode::Load { dst, .. } => {
                    assert(has_operand(prog[prog.len() - 1], dst));
                },
                OpeCode::Print { src } => {
                    assert(has_operand(prog[prog.len() - 1], src));
                },
            }
        }
        assert forall|j: int, id: usize| 0 <= j < out.len() && #[trigger] mentions(
            out[j],
            id,
        ) implies 1 <= id <= k by {
            if j < head.len() {
                assert(mentions(head[j], id));
            } else {
                assert(mentions(tail[j - head.len()], id));
            }
        }
    }
}

/// Slot stability: the register at position `i` of the slot order, the
/// `i + 1`-th that the program refers to among those in memory, has the
/// address `i`.
pub proof fn lemma_slot_is_position(prog: Seq<OpeCode>, pl: Placement, k: usize, i: int)
    requires
        0 <= i < spill_order(prog, pl, k).len(),
    ensures
        slot_of(spill_order(prog, pl, k), spill_order(prog, pl, k)[i]) == i,
{
    lemma_spill_order_shape(prog, pl, k);
}

/// The slot order holds exactly the registers of the program that live in
/// memory.
pub proof fn lemma_spill_order_members(prog: Seq<OpeCode>, pl: Placement, k: usize, id: usize)
    ensures
        spill_order(prog, pl, k).contains(id) <==> pl.in_memory(k, id) && exists|i: int|
            0 <= i < prog.len() && #[trigger] mentions(prog[i], id),
    decreases prog.len(),
{
    if prog.len() > 0 {
        let init = prog.drop_last();
        let op = prog.last();
        lemma_spill_order_members(init, pl, k, id);
        let before = spill_order(init, pl, k);
        let after = spill_order(prog, pl, k);
        lemma_touch_members(before, pl, k, op, id);
        if exists|i: int| 0 <= i < init.len() && #[trigger] mentions(init[i], id) {
            let i = choose|i: int| 0 <= i < init.len() && #[trigger] mentions(init[i], id);
            assert(mentions(prog[i], id));
        }
        if mentions(op, id) {
            assert(mentions(prog[prog.len() - 1], id));
        }
        if exists|i: int| 0 <= i < prog.len() && #[trigger] mentions(prog[i], id) {
            let i = choose|i: int| 0 <= i < prog.len() && #[trigger] mentions(prog[i], id);
            if i < init.len() {
                assert(mentions(init[i], id));
            }
        }
    }
}

/// A register is in the slot order after a reference if it was there before
/// or is the register referred to and lives in memory.
proof fn lemma_first_touch_members(order: Seq<usize>, pl: Placement, k: usize, v: usize, id: usize)
    ensures
        first_touch(order, pl, k, v).contains(id) <==> order.contains(id) || (id == v
            && pl.in_memory(k, v)),
{
    let next = first_touch(order, pl, k, v);
    if order.contains(id) {
        let i = choose|i: int| 0 <= i < order.len() && order[i] == id;
        assert(next[i] == id);
    }
    if next.contains(id) {
        let i = choose|i: int| 0 <= i < next.len() && next[i] == id;
        if i < order.len() {
            assert(order[i] == id);
        }
    }
    if id == v && pl.in_memory(k, v) && !order.contains(v) {
        assert(next[order.len() as int] == id);
    }
}

/// A register is in the slot order after an instruction if it was there
/// before or the instruction mentions it and it lives in memory.
proof fn lemma_touch_members(order: Seq<usize>, pl: Placement, k: usize, op: OpeCode, id: usize)
    ensures
        touch_op(order, pl, k, op).contains(id) <==> order.contains(id) || (mentions(op, id)
            && pl.in_memory(k, id)),
{
    match op {
        OpeCode::Add { dst, src1, src2 } => {
            let o1 = first_touch(order, pl, k, src1.id);
            let o2 = first_touch(o1, pl, k, src2.id);
            lemma_first_touch_members(order, pl, k, src1.id, id);
            lemma_first_touch_members(o1, pl, k, src2.id, id);
            lemma_first_touch_members(o2, pl, k, dst.id, id);
        },
        OpeCode::LdI { dst, .. } => {
            lemma_first_touch_members(order, pl, k, dst.id, id);
        },
        OpeCode::Store { src, .. } => {
            lemma_first_touch_members(order, pl, k, src.id, id);
        },
        OpeCode::Load { dst, .. } => {
            lemma_first_touch_members(order, pl, k, dst.id, id);
        },
        OpeCode::Print { src } => {
            lemma_first_touch_members(order, pl, k, src.id, id);
        },
    }
}

/// The slots handed out so far: the registers in the order in which they
/// got one, beside a map from register to address.
pub struct SlotTable {
    addr: HashMap<usize, usize>,
    order: Ghost<Seq<usize>>,
}

impl SlotTable {
    /// The registers that own a slot, by address.
    pub closed spec fn view(&self) -> Seq<usize> {
        self.order@
    }

    /// The map and the order agree.
    pub closed spec fn wf(&self) -> bool {
        &&& self.order@.no_duplicates()
        &&& self.addr@.dom() =~= self.order@.to_set()
        &&& forall|i: int|
            0 <= i < self.order@.len() ==> self.addr@[#[trigger] self.order@[i]] == i
    }

    /// A table with no slot handed out.
    pub fn new() -> (t: SlotTable)
        ensures
            t.wf(),
            t@ == Seq::<usize>::empty(),
    {
        broadcast use vstd::std_specs::hash::group_hash_axioms;

        let t = SlotTable { addr: HashMap::new(), order: Ghost(Seq::empty()) };
        assert(t.addr@.dom() =~= t.order@.to_set());
        t
    }

    /// The address of register `id`, which gets the next free one if it has
    /// none yet.
    pub fn slot_for(&mut self, id: usize) -> (slot: usize)
        requires
            old(self).wf(),
        ensures
            final(self).wf(),
            final(self)@ == if old(self)@.contains(id) {
                old(self)@
            } else {
                old(self)@.push(id)
            },
            0 <= slot < final(self)@.len(),
            final(self)@[slot as int] == id,
    {
        broadcast use vstd::std_specs::hash::group_hash_axioms;

        proof {
            self.order@.unique_seq_to_set();
        }
        match self.addr.get(&id) {
            Some(a) => {
                let slot = *a;
                assert(self.order@.to_set().contains(id));
                let ghost j = choose|j: int| 0 <= j < self.order@.len() && self.order@[j] == id;
                assert(self.addr@[self.order@[j]] == j);
                slot
            },
            None => {
                let new_addr = self.addr.len();
                assert(!self.order@.to_set().contains(id));
                self.addr.insert(id, new_addr);
                proof {
                    let prev = self.order@;
                    self.order@ = prev.push(id);
                    assert(self.order@.to_set() =~= prev.to_set().insert(id)) by {
                        assert forall|x: usize|
                            self.order@.to_set().contains(x) <==> prev.to_set().insert(
                                id,
                            ).contains(x) by {
                            if prev.contains(x) {
                                let i = choose|i: int| 0 <= i < prev.len() && prev[i] == x;
                                assert(self.order@[i] == x);
                            }
                            if self.order@.contains(x) {
                                let i = choose|i: int|
                                    0 <= i < self.order@.len() && self.order@[i] == x;
                                if i < prev.len() {
                                    assert(prev[i] == x);
                                }
                            }
                            if x == id {
                                assert(self.order@[prev.len() as int] == x);
                            }
                        }
                    }
                }
                new_addr
            },
        }
    }
}

/// Whether `x` occurs in `v`.
pub fn contains(v: &Vec<usize>, x: usize) -> (found: bool)
    ensures
        found == v@.contains(x),
{
    let mut i: usize = 0;
    while i < v.len()
        invariant
            i <= v.len(),
            forall|j: int| 0 <= j < i ==> v@[j] != x,
        decreases v.len() - i,
    {
        if v[i] == x {
            return true;
        }
        i += 1;
    }
    false
}

/// A placement in executable form.
pub enum Plan {
    /// See [`Placement::Threshold`].
    Threshold,
    /// See [`Placement::Colored`].
    Colored { reg_map: HashMap<usize, usize>, spilled: Vec<usize> },
}

impl View for Plan {
    type V = Placement;

    open spec fn view(&self) -> Placement {
        match self {
            Plan::Threshold => Placement::Threshold,
            Plan::Colored { reg_map, spilled } => Placement::Colored {
                colors: reg_map@,
                spilled: spilled@,
            },
        }
    }
}

impl Plan {
    /// The physical register of `reg`, or `None` when it lives in memory.
    pub fn locate(&self, reg: Register, k: usize) -> (home: Option<Register>)
        requires
            k >= 2,
            self@.knows(reg.id),
        ensures
            home == if self@.in_memory(k, reg.id) {
                None
            } else {
                Some(self@.home(reg))
            },
    {
        broadcast use vstd::std_specs::hash::group_hash_axioms;

        match self {
            Plan::Threshold => {
                if reg.id <= k - 2 {
                    Some(reg)
                } else {
                    None
                }
            },
            Plan::Colored { reg_map, spilled } => {
                let color = match reg_map.get(&reg.id) {
                    Some(c) => *c,
                    None => unreached(),
                };
                if contains(spilled, color) {
                    None
                } else {
                    Some(Register::new(color))
                }
            },
        }
    }
}

/// If `a` is an initial part of the duplicate-free `b` and holds `id` at
/// `slot`, then `slot` is where `b` has `id`.
proof fn lemma_slot_fixed(a: Seq<usize>, b: Seq<usize>, id: usize, slot: int)
    requires
        starts(a, b),
        b.no_duplicates(),
        0 <= slot < a.len(),
        a[slot] == id,
    ensures
        slot_of(b, id) == slot,
{
    assert(b[slot] == id);
}

/// Prepares source operand `reg`: where it lives in memory, a load into
/// `temp_reg` is appended and `temp_reg` stands for it.
fn alloc_src_reg(
    reg: Register,
    temp_reg: usize,
    plan: &Plan,
    k: usize,
    slots: &mut SlotTable,
    result: &mut Vec<OpeCode>,
    Ghost(fin): Ghost<Seq<usize>>,
) -> (r: Register)
    requires
        k >= 2,
        plan@.knows(reg.id),
        old(slots).wf(),
        fin.no_duplicates(),
        fin.len() <= i32::MAX,
        starts(first_touch(old(slots)@, plan@, k, reg.id), fin),
    ensures
        final(slots).wf(),
        final(slots)@ == first_touch(old(slots)@, plan@, k, reg.id),
        r == src_reg(reg, temp_reg, plan@, k),
        final(result)@ == old(result)@ + src_load(reg, temp_reg, plan@, k, fin),
{
    match plan.locate(reg, k) {
        Some(home) => {
            assert(result@ =~= old(result)@ + src_load(reg, temp_reg, plan@, k, fin));
            home
        },
        None => {
            let slot = slots.slot_for(reg.id);
            proof {
                lemma_slot_fixed(slots@, fin, reg.id, slot as int);
            }
            let addr = Integer::new(slot as i32);
            result.push(OpeCode::Load { dst: Register::new(temp_reg), src: addr });
            assert(result@ =~= old(result)@ + src_load(reg, temp_reg, plan@, k, fin));
            Register::new(temp_reg)
        },
    }
}

/// Prepares destination operand `reg`: where it lives in memory, the scratch
/// register stands for it and the address to save it to is returned.
fn alloc_dst_reg(
    reg: Register,
    plan: &Plan,
    k: usize,
    slots: &mut SlotTable,
    Ghost(fin): Ghost<Seq<usize>>,
) -> (r: (Register, Option<Integer>))
    requires
        k >= 2,
        plan@.knows(reg.id),
        old(slots).wf(),
        fin.no_duplicates(),
        fin.len() <= i32::MAX,
        starts(first_touch(old(slots)@, plan@, k, reg.id), fin),
    ensures
        final(slots).wf(),
        final(slots)@ == first_touch(old(slots)@, plan@, k, reg.id),
        r.0 == dst_reg(reg, plan@, k),
        r.1 == if plan@.in_memory(k, reg.id) {
            Some(Integer::spec_new(slot_of(fin, reg.id) as i32))
        } else {
            None
        },
{
    let temp_reg = k - 1;
    match plan.locate(reg, k) {
        Some(home) => (home, None),
        None => {
            let slot = slots.slot_for(reg.id);
            proof {
                lemma_slot_fixed(slots@, fin, reg.id, slot as int);
            }
            (Register::new(temp_reg), Some(Integer::new(slot as i32)))
        },
    }
}

/// Appends the store that follows a definition, if its destination lives in
/// memory.
fn save_dst(reg: Register, addr: Option<Integer>, result: &mut Vec<OpeCode>)
    ensures
        final(result)@ == old(result)@ + match addr {
            Some(a) => seq![OpeCode::Store { dst: a, src: reg }],
            None => Seq::empty(),
        },
{
    match addr {
        Some(a) => {
            result.push(OpeCode::Store { dst: a, src: reg });
            assert(result@ =~= old(result)@ + seq![OpeCode::Store { dst: a, src: reg }]);
        },
        None => {
            assert(result@ =~= old(result)@ + Seq::<OpeCode>::empty());
        },
    }
}

/// Rewrites `opcodes` under `plan` for `k` physical registers, of which
/// `k - 1` and `k` serve as scratch: every register that lives in memory is
/// loaded before each use and stored after each definition, at the address
/// it was given when the program first referred to it.
pub fn emit_spill_code(opcodes: &Vec<OpeCode>, plan: &Plan, k: usize) -> (result: Vec<OpeCode>)
    requires
        k >= 2,
        opcodes.len() <= MAX_PROGRAM_LEN,
        plan@.covers(opcodes@),
    ensures
        result@ == rewritten(opcodes@, plan@, k),
{
    let ghost prog = opcodes@;
    let ghost pl = plan@;
    let ghost fin = spill_order(prog, pl, k);
    let mut result: Vec<OpeCode> = Vec::new();
    let mut slots = SlotTable::new();
    proof {
        lemma_spill_order_shape(prog, pl, k);
        assert(prog.take(0) =~= Seq::<OpeCode>::empty());
    }
    let mut i: usize = 0;
    while i < opcodes.len()
        invariant
            i <= opcodes.len(),
            k >= 2,
            prog == opcodes@,
            pl == plan@,
            pl.covers(prog),
            fin == spill_order(prog, pl, k),
            fin.no_duplicates(),
            fin.len() <= i32::MAX,
            slots.wf(),
            slots@ == spill_order(prog.take(i as int), pl, k),
            result@ == rewritten_with(prog.take(i as int), pl, k, fin),
        decreases opcodes.len() - i,
    {
        let opcode = opcodes[i];
        let ghost before = result@;
        proof {
            lemma_spill_order_grows(prog, pl, k, i + 1, prog.len() as int);
            assert(prog.take(prog.len() as int) =~= prog);
            assert(prog.take(i + 1).drop_last() =~= prog.take(i as int));
            assert(prog.take(i + 1).last() == opcode);
            assert(starts(touch_op(slots@, pl, k, opcode), fin));
        }
        match opcode {
            OpeCode::LdI { dst, value } => {
                assert(mentions(prog[i as int], dst.id));
                let (reg, addr) = alloc_dst_reg(dst, plan, k, &mut slots, Ghost(fin));
                result.push(OpeCode::LdI { dst: reg, value: value });
                save_dst(reg, addr, &mut result);
            },
            OpeCode::Add { dst, src1, src2 } => {
                assert(mentions(prog[i as int], dst.id));
                assert(mentions(prog[i as int], src1.id));
                assert(mentions(prog[i as int], src2.id));
                let src1 = alloc_src_reg(src1, k - 1, plan, k, &mut slots, &mut result, Ghost(fin));
                let src2 = alloc_src_reg(src2, k, plan, k, &mut slots, &mut result, Ghost(fin));
                let (reg, addr) = alloc_dst_reg(dst, plan, k, &mut slots, Ghost(fin));
                result.push(OpeCode::Add { dst: reg, src1: src1, src2: src2 });
                save_dst(reg, addr, &mut result);
            },
            OpeCode::Store { dst, src } => {
                assert(mentions(prog[i as int], src.id));
                let src = alloc_src_reg(src, k, plan, k, &mut slots, &mut result, Ghost(fin));
                result.push(OpeCode::Store { dst: dst, src: src });
            },
            OpeCode::Load { dst, src } => {
                assert(mentions(prog[i as int], dst.id));
                let (reg, addr) = alloc_dst_reg(dst, plan, k, &mut slots, Ghost(fin));
                result.push(OpeCode::Load { dst: reg, src: src });
                save_dst(reg, addr, &mut result);
            },
            OpeCode::Print { src } => {
                assert(mentions(prog[i as int], src.id));
                let src = alloc_src_reg(src, k, plan, k, &mut slots, &mut result, Ghost(fin));
                result.push(OpeCode::Print { src: src });
            },
        }
        assert(result@ =~= before + rewrite_one(opcode, pl, k, fin));
        i += 1;
    }
    assert(prog.take(i as int) =~= prog);
    result
}

} // verus!
