//! A reference interpreter: a register file, a flat memory of fixed size and
//! the stream of printed values.

use crate::ir::{mentions, OpeCode};
use vstd::prelude::*;

verus! {

/// The number of memory words.
pub const MEMORY_SIZE: usize = 1024;

/// Why a run stopped.
#[derive(Clone, Copy, Debug, PartialEq, Eq, Structural)]
pub enum VmError {
    /// A load or store named an address outside the memory.
    MemoryAddressOutOfRange,
}

/// The machine between two instructions.
pub struct State {
    pub regs: Seq<i32>,
    pub mem: Seq<i32>,
    pub out: Seq<i32>,
}

/// The machine at start: `k + 1` registers and the memory all zero, nothing
/// printed.
pub open spec fn initial(k: usize) -> State {
    State {
        regs: Seq::new((k + 1) as nat, |i: int| 0i32),
        mem: Seq::new(MEMORY_SIZE as nat, |i: int| 0i32),
        out: Seq::empty(),
    }
}

/// Whether `addr` names a memory word.
pub open spec fn in_memory_range(addr: i32) -> bool {
    0 <= addr < MEMORY_SIZE
}

/// The effect of one instruction. Addition wraps in 32 bits.
pub open spec fn step(s: State, op: OpeCode) -> Result<State, VmError> {
    match op {
        OpeCode::LdI { dst, value } => Ok(
            State { regs: s.regs.update(dst.id as int, value.value), ..s },
        ),
        OpeCode::Add { dst, src1, src2 } => Ok(
            State {
                regs: s.regs.update(
                    dst.id as int,
                    s.regs[src1.id as int].wrapping_add(s.regs[src2.id as int]),
                ),
                ..s
            },
        ),
        OpeCode::Store { dst, src } => if in_memory_range(dst.value) {
            Ok(State { mem: s.mem.update(dst.value as int, s.regs[src.id as int]), ..s })
        } else {
            Err(VmError::MemoryAddressOutOfRange)
        },
        OpeCode::Load { dst, src } => if in_memory_range(src.value) {
            Ok(State { regs: s.regs.update(dst.id as int, s.mem[src.value as int]), ..s })
        } else {
            Err(VmError::MemoryAddressOutOfRange)
        },
        OpeCode::Print { src } => Ok(State { out: s.out.push(s.regs[src.id as int]), ..s }),
    }
}

/// A run so far: the machine, and the error that stopped it, if any. A
/// stopped machine stays as it was before the instruction that failed.
pub struct Run {
    pub state: State,
    pub error: Option<VmError>,
}

/// A run that has not stopped.
pub open spec fn going(s: State) -> Run {
    Run { state: s, error: None }
}

/// The run after one more instruction; a stopped run stays as it is.
pub open spec fn advance(r: Run, op: OpeCode) -> Run {
    if r.error is Some {
        r
    } else {
        match step(r.state, op) {
            Ok(t) => going(t),
            Err(e) => Run { state: r.state, error: Some(e) },
        }
    }
}

/// The run of the whole of `prog` on a machine with registers `0..=k`.
pub open spec fn run_state(prog: Seq<OpeCode>, k: usize) -> Run
    decreases prog.len(),
{
    if prog.len() == 0 {
        going(initial(k))
    } else {
        advance(run_state(prog.drop_last(), k), prog.last())
    }
}

/// The values that `prog` prints on a machine with registers `0..=k`; if an
/// error stops the run, the error and the values printed before it.
pub open spec fn printed(prog: Seq<OpeCode>, k: usize) -> Result<Seq<i32>, (VmError, Seq<i32>)> {
    let r = run_state(prog, k);
    match r.error {
        None => Ok(r.state.out),
        Some(e) => Err((e, r.state.out)),
    }
}

/// A run that an error stopped: the error, and what was printed before it.
#[derive(Debug, PartialEq, Eq)]
pub struct Halt {
    pub error: VmError,
    pub printed: Vec<i32>,
}

/// Whether every register of the program exists on a machine with registers
/// `0..=k`.
pub open spec fn fits(prog: Seq<OpeCode>, k: usize) -> bool {
    forall|i: int, id: usize| 0 <= i < prog.len() && #[trigger] mentions(prog[i], id) ==> id <= k
}

/// A run's answer with the printed values taken as sequences.
pub open spec fn printed_view(result: Result<Vec<i32>, Halt>) -> Result<
    Seq<i32>,
    (VmError, Seq<i32>),
> {
    match result {
        Ok(v) => Ok(v@),
        Err(h) => Err((h.error, h.printed@)),
    }
}

/// Runs the program on a machine with registers `0..=register_num` and
/// returns what it prints, one value per `Print`, in order. A load or store
/// outside the memory stops the run; the error then comes with the values
/// printed up to there.
pub fn run_vm(opcodes: Vec<OpeCode>, register_num: usize) -> (result: Result<Vec<i32>, Halt>)
    requires
        register_num < usize::MAX,
        fits(opcodes@, register_num),
    ensures
        printed_view(result) == printed(opcodes@, register_num),
{
    let ghost prog = opcodes@;
    let mut reg: Vec<i32> = Vec::new();
    reg.resize(register_num + 1, 0);
    let mut mem: Vec<i32> = Vec::new();
    mem.resize(MEMORY_SIZE, 0);
    let mut out: Vec<i32> = Vec::new();
    proof {
        assert(prog.take(0) =~= Seq::<OpeCode>::empty());
        assert(reg@ =~= initial(register_num).regs);
        assert(mem@ =~= initial(register_num).mem);
    }
    let mut i: usize = 0;
    while i < opcodes.len()
        invariant
            i <= opcodes.len(),
            prog == opcodes@,
            fits(prog, register_num),
            reg@.len() == register_num + 1,
            mem@.len() == MEMORY_SIZE,
            run_state(prog.take(i as int), register_num) == going(
                State { regs: reg@, mem: mem@, out: out@ },
            ),
        decreases opcodes.len() - i,
    {
        let opcode = opcodes[i];
        proof {
            assert(prog.take(i + 1).drop_last() =~= prog.take(i as int));
            assert(prog.take(i + 1).last() == opcode);
        }
        match opcode {
            OpeCode::LdI { dst, value } => {
                assert(mentions(prog[i as int], dst.id));
                reg[dst.id] = value.value;
            },
            OpeCode::Add { dst, src1, src2 } => {
                assert(mentions(prog[i as int], dst.id));
                assert(mentions(prog[i as int], src1.id));
                assert(mentions(prog[i as int], src2.id));
                reg[dst.id] = reg[src1.id].wrapping_add(reg[src2.id]);
            },
            OpeCode::Store { dst, src } => {
                assert(mentions(prog[i as int], src.id));
                if dst.value < 0 || dst.value >= MEMORY_SIZE as i32 {
                    proof {
                        lemma_error_stays(prog, register_num, i + 1, prog.len() as int);
                        assert(prog.take(prog.len() as int) =~= prog);
                    }
                    return Err(Halt { error: VmError::MemoryAddressOutOfRange, printed: out });
                }
                mem[dst.value as usize] = reg[src.id];
            },
            OpeCode::Load { dst, src } => {
                assert(mentions(prog[i as int], dst.id));
                if src.value < 0 || src.value >= MEMORY_SIZE as i32 {
                    proof {
                        lemma_error_stays(prog, register_num, i + 1, prog.len() as int);
                        assert(prog.take(prog.len() as int) =~= prog);
                    }
                    return Err(Halt { error: VmError::MemoryAddressOutOfRange, printed: out });
                }
                reg[dst.id] = mem[src.value as usize];
            },
            OpeCode::Print { src } => {
                assert(mentions(prog[i as int], src.id));
                out.push(reg[src.id]);
            },
        }
        i += 1;
    }
    assert(prog.take(i as int) =~= prog);
    Ok(out)
}

/// Once a part of the program has stopped with an error, every longer part
/// is stopped in the same state.
pub proof fn lemma_error_stays(prog: Seq<OpeCode>, k: usize, i: int, n: int)
    requires
        0 <= i <= n <= prog.len(),
        run_state(prog.take(i), k).error is Some,
    ensures
        run_state(prog.take(n), k) == run_state(prog.take(i), k),
    decreases n - i,
{
    if i < n {
        lemma_error_stays(prog, k, i, n - 1);
        assert(prog.take(n).drop_last() =~= prog.take(n - 1));
    }
}

} // verus!
