//! The instruction set: registers, immediates and the five instruction forms.

use std::collections::HashSet;
use vstd::prelude::*;

verus! {

/// A register operand. In an input program the identifier names a virtual
/// register; in a rewritten program it names a physical one.
#[derive(Clone, Copy, Debug, PartialEq, Eq, Structural)]
pub struct Register {
    pub id: usize,
    pub size: usize,
}

impl Register {
    /// A 32-bit register with the given identifier.
    pub fn new(id: usize) -> (r: Register)
        ensures
            r == Register::spec_new(id),
    {
        Register { id: id, size: 32 }
    }

    /// What [`Register::new`] returns.
    pub open spec fn spec_new(id: usize) -> Register {
        Register { id: id, size: 32 }
    }
}

/// An immediate operand: a literal value or a memory address.
#[derive(Clone, Copy, Debug, PartialEq, Eq, Structural)]
pub struct Integer {
    pub value: i32,
}

impl Integer {
    /// An immediate with the given value.
    pub fn new(value: i32) -> (n: Integer)
        ensures
            n == Integer::spec_new(value),
    {
        Integer { value: value }
    }

    /// What [`Integer::new`] returns.
    pub open spec fn spec_new(value: i32) -> Integer {
        Integer { value: value }
    }
}

/// One instruction of the straight-line program.
#[allow(inconsistent_fields)]
#[derive(Clone, Copy, Debug, PartialEq, Eq, Structural)]
pub enum OpeCode {
    /// `dst <- src1 + src2`
    Add { dst: Register, src1: Register, src2: Register },
    /// `dst <- value`
    LdI { dst: Register, value: Integer },
    /// `mem[dst] <- src`
    Store { dst: Integer, src: Register },
    /// `dst <- mem[src]`
    Load { dst: Register, src: Integer },
    /// Emit the value of `src`.
    Print { src: Register },
}

/// Whether the instruction writes register `id`.
pub open spec fn writes(op: OpeCode, id: usize) -> bool {
    match op {
        OpeCode::Add { dst, .. } => dst.id == id,
        OpeCode::LdI { dst, .. } => dst.id == id,
        OpeCode::Store { .. } => false,
        OpeCode::Load { dst, .. } => dst.id == id,
        OpeCode::Print { .. } => false,
    }
}

/// Whether the instruction reads register `id`.
pub open spec fn reads(op: OpeCode, id: usize) -> bool {
    match op {
        OpeCode::Add { src1, src2, .. } => src1.id == id || src2.id == id,
        OpeCode::LdI { .. } => false,
        OpeCode::Store { src, .. } => src.id == id,
        OpeCode::Load { .. } => false,
        OpeCode::Print { src } => src.id == id,
    }
}

/// Whether register `id` occurs in the instruction at all.
pub open spec fn mentions(op: OpeCode, id: usize) -> bool {
    reads(op, id) || writes(op, id)
}

/// Whether `r` is one of the instruction's register operands.
pub open spec fn has_operand(op: OpeCode, r: Register) -> bool {
    match op {
        OpeCode::Add { dst, src1, src2 } => dst == r || src1 == r || src2 == r,
        OpeCode::LdI { dst, .. } => dst == r,
        OpeCode::Store { src, .. } => src == r,
        OpeCode::Load { dst, .. } => dst == r,
        OpeCode::Print { src } => src == r,
    }
}

/// Whether every register identifier in the program lies in `lo..=hi`.
pub open spec fn in_range(prog: Seq<OpeCode>, lo: int, hi: int) -> bool {
    forall|i: int, id: usize|
        0 <= i < prog.len() && #[trigger] mentions(prog[i], id) ==> lo <= id <= hi
}

/// Why an allocation request was turned down.
#[derive(Clone, Copy, Debug, PartialEq, Eq, Structural)]
pub enum AllocError {
    /// Some instruction reads a register that no earlier instruction wrote.
    MalformedIR,
    /// Fewer than four physical registers: no room for two scratch registers.
    InsufficientRegisters,
}

/// An allocator's answer with the program taken as a sequence.
pub open spec fn outcome(result: Result<Vec<OpeCode>, AllocError>) -> Result<
    Seq<OpeCode>,
    AllocError,
> {
    match result {
        Ok(v) => Ok(v@),
        Err(e) => Err(e),
    }
}

/// Whether some instruction before index `i` writes register `id`.
pub open spec fn defined_before(prog: Seq<OpeCode>, i: int, id: usize) -> bool {
    exists|j: int| 0 <= j < i && j < prog.len() && #[trigger] writes(prog[j], id)
}

/// Every register is written before it is first read.
pub open spec fn well_formed(prog: Seq<OpeCode>) -> bool {
    forall|i: int, id: usize|
        0 <= i < prog.len() && #[trigger] reads(prog[i], id) ==> defined_before(prog, i, id)
}

/// Tells whether every register of the program is written before it is
/// first read.
pub fn is_well_formed(opcodes: &Vec<OpeCode>) -> (ok: bool)
    ensures
        ok == well_formed(opcodes@),
{
    broadcast use vstd::std_specs::hash::group_hash_axioms;

    let ghost prog = opcodes@;
    let mut defined: HashSet<usize> = HashSet::new();
    let mut i: usize = 0;
    while i < opcodes.len()
        invariant
            i <= opcodes.len(),
            prog == opcodes@,
            forall|id: usize| defined@.contains(id) <==> defined_before(prog, i as int, id),
            forall|j: int, id: usize|
                0 <= j < i && #[trigger] reads(prog[j], id) ==> defined_before(prog, j, id),
        decreases opcodes.len() - i,
    {
        let opcode = opcodes[i];
        let ghost seen = defined@;
        match opcode {
            OpeCode::Add { dst, src1, src2 } => {
                if !defined.contains(&src1.id) || !defined.contains(&src2.id) {
                    assert(reads(prog[i as int], src1.id) && reads(prog[i as int], src2.id));
                    return false;
                }
                defined.insert(dst.id);
            },
            OpeCode::LdI { dst, .. } => {
                defined.insert(dst.id);
            },
            OpeCode::Store { src, .. } => {
                if !defined.contains(&src.id) {
                    assert(reads(prog[i as int], src.id));
                    return false;
                }
            },
            OpeCode::Load { dst, .. } => {
                defined.insert(dst.id);
            },
            OpeCode::Print { src } => {
                if !defined.contains(&src.id) {
                    assert(reads(prog[i as int], src.id));
                    return false;
                }
            },
        }
        proof {
            assert forall|id: usize|
                defined@.contains(id) <==> defined_before(prog, i + 1, id) by {
                if defined_before(prog, i + 1, id) {
                    let j = choose|j: int| 0 <= j < i + 1 && j < prog.len() && writes(prog[j], id);
                    if j < i {
                        assert(defined_before(prog, i as int, id));
                    }
                }
                if seen.contains(id) {
                    let j = choose|j: int| 0 <= j < i && j < prog.len() && writes(prog[j], id);
                    assert(writes(prog[j], id));
                }
                if writes(prog[i as int], id) {
                    assert(defined_before(prog, i + 1, id));
                }
            }
        }
        i += 1;
    }
    true
}

} // verus!
