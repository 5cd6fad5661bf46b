use code_gen::spill::{contains, emit_spill_code, Plan, SlotTable};
use code_gen::{
    allocate_registers1, allocate_registers2, run_vm, Halt, Integer, OpeCode, Register, VmError,
};
use std::collections::HashMap;

fn ldi(dst: usize, value: i32) -> OpeCode {
    OpeCode::LdI { dst: Register::new(dst), value: Integer::new(value) }
}

fn add(dst: usize, src1: usize, src2: usize) -> OpeCode {
    OpeCode::Add { dst: Register::new(dst), src1: Register::new(src1), src2: Register::new(src2) }
}

fn store(addr: i32, src: usize) -> OpeCode {
    OpeCode::Store { dst: Integer::new(addr), src: Register::new(src) }
}

fn load(dst: usize, addr: i32) -> OpeCode {
    OpeCode::Load { dst: Register::new(dst), src: Integer::new(addr) }
}

fn print(src: usize) -> OpeCode {
    OpeCode::Print { src: Register::new(src) }
}

fn registers(op: &OpeCode) -> Vec<usize> {
    match op {
        OpeCode::Add { dst, src1, src2 } => vec![dst.id, src1.id, src2.id],
        OpeCode::LdI { dst, .. } => vec![dst.id],
        OpeCode::Store { src, .. } => vec![src.id],
        OpeCode::Load { dst, .. } => vec![dst.id],
        OpeCode::Print { src } => vec![src.id],
    }
}

fn largest_register(program: &Vec<OpeCode>) -> usize {
    program.iter().flat_map(|op| registers(op)).max().unwrap_or(0)
}

/// A well-formed program without self-updating additions, made from a seed.
fn sample(seed: u64, length: usize, registers: usize) -> Vec<OpeCode> {
    let mut state = seed;
    let mut next = move |bound: usize| {
        state = state.wrapping_mul(6364136223846793005).wrapping_add(1442695040888963407);
        ((state >> 33) as usize) % bound
    };
    let mut defined: Vec<usize> = Vec::new();
    let mut program = Vec::new();
    for _ in 0..length {
        let dst = 1 + next(registers);
        let kind = if defined.is_empty() { 0 } else { next(6) };
        match kind {
            0 | 1 => {
                program.push(ldi(dst, next(1000) as i32 - 500));
                defined.push(dst);
            }
            2 | 3 => {
                let src1 = defined[next(defined.len())];
                let src2 = defined[next(defined.len())];
                if dst != src1 && dst != src2 {
                    program.push(add(dst, src1, src2));
                    defined.push(dst);
                }
            }
            4 => {
                let addr = 1000 + next(24) as i32;
                program.push(store(addr, defined[next(defined.len())]));
                program.push(load(dst, addr));
                defined.push(dst);
            }
            _ => program.push(print(defined[next(defined.len())])),
        }
    }
    for &id in &defined {
        program.push(print(id));
    }
    program
}

#[test]
fn trivial_allocation_prints_what_the_program_prints() {
    for seed in 0..40 {
        let program = sample(seed, 60, 12);
        let expected = run_vm(program.clone(), largest_register(&program));
        assert!(expected.is_ok());
        for k in 4..12 {
            let out = allocate_registers1(program.clone(), k).unwrap();
            assert_eq!(run_vm(out, k), expected, "seed {}, k = {}", seed, k);
        }
    }
}

#[test]
fn coloring_without_spills_prints_what_the_program_prints() {
    let mut clean = 0;
    for seed in 0..40 {
        let program = sample(seed, 30, 6);
        let expected = run_vm(program.clone(), largest_register(&program));
        // six registers never interfere with more than five others
        let out = allocate_registers2(program.clone(), 9).unwrap();
        assert_eq!(out.len(), program.len());
        assert_eq!(run_vm(out, 9), expected, "seed {}", seed);
        clean += 1;
    }
    assert_eq!(clean, 40);
}

#[test]
fn outputs_name_physical_registers_only() {
    for seed in 0..40 {
        let program = sample(seed, 60, 15);
        for k in 4..10 {
            for out in [
                allocate_registers1(program.clone(), k).unwrap(),
                allocate_registers2(program.clone(), k).unwrap(),
            ] {
                for op in &out {
                    for id in registers(op) {
                        assert!(1 <= id && id <= k, "seed {}, k = {}", seed, k);
                    }
                }
            }
        }
    }
}

#[test]
fn allocation_is_deterministic() {
    for seed in 0..10 {
        let program = sample(seed, 60, 15);
        for k in 4..8 {
            assert_eq!(
                allocate_registers1(program.clone(), k),
                allocate_registers1(program.clone(), k)
            );
            assert_eq!(
                allocate_registers2(program.clone(), k),
                allocate_registers2(program.clone(), k)
            );
        }
    }
}

#[test]
fn trivial_allocation_keeps_low_registers() {
    for seed in 0..20 {
        let program = sample(seed, 60, 5);
        assert_eq!(allocate_registers1(program.clone(), 7), Ok(program.clone()));
        assert_eq!(allocate_registers1(program.clone(), 20), Ok(program));
    }
    let program = vec![ldi(1, 1), ldi(2, 2), add(2, 1, 2), print(2)];
    assert_eq!(allocate_registers1(program.clone(), 4), Ok(program));
}

#[test]
fn slots_follow_first_reference_order() {
    let program =
        vec![ldi(9, 1), ldi(7, 2), ldi(8, 3), print(7), ldi(9, 4), print(9), print(8), ldi(30, 0)];
    let out = allocate_registers1(program, 4).unwrap();
    let expected = vec![
        ldi(3, 1),
        store(0, 3),
        ldi(3, 2),
        store(1, 3),
        ldi(3, 3),
        store(2, 3),
        load(4, 1),
        print(4),
        ldi(3, 4),
        store(0, 3),
        load(4, 0),
        print(4),
        load(4, 2),
        print(4),
        ldi(3, 0),
        store(3, 3),
    ];
    assert_eq!(out, expected);
}

#[test]
fn slot_table_hands_out_successive_addresses() {
    let mut table = SlotTable::new();
    assert_eq!(table.slot_for(40), 0);
    assert_eq!(table.slot_for(7), 1);
    assert_eq!(table.slot_for(40), 0);
    assert_eq!(table.slot_for(8), 2);
    assert_eq!(table.slot_for(7), 1);
}

#[test]
fn membership_in_a_list() {
    assert!(contains(&vec![3, 1, 2], 1));
    assert!(!contains(&vec![3, 1, 2], 4));
    assert!(!contains(&Vec::new(), 0));
}

#[test]
fn plan_locates_registers() {
    let plan = Plan::Threshold;
    assert_eq!(plan.locate(Register::new(2), 4), Some(Register::new(2)));
    assert_eq!(plan.locate(Register::new(3), 4), None);
    assert_eq!(plan.locate(Register::new(3), 5), Some(Register::new(3)));
    let mut reg_map = HashMap::new();
    reg_map.insert(10, 1);
    reg_map.insert(11, 2);
    let plan = Plan::Colored { reg_map, spilled: vec![2] };
    assert_eq!(plan.locate(Register::new(10), 4), Some(Register::new(1)));
    assert_eq!(plan.locate(Register::new(11), 4), None);
}

#[test]
fn emitter_keys_slots_by_the_virtual_register() {
    let mut reg_map = HashMap::new();
    reg_map.insert(10, 1);
    reg_map.insert(11, 2);
    reg_map.insert(12, 2);
    let plan = Plan::Colored { reg_map, spilled: vec![2] };
    let program = vec![ldi(10, 1), ldi(11, 2), ldi(12, 3), add(10, 11, 12), print(10)];
    let out = emit_spill_code(&program, &plan, 4);
    let expected = vec![
        ldi(1, 1),
        ldi(3, 2),
        store(0, 3),
        ldi(3, 3),
        store(1, 3),
        load(3, 0),
        load(4, 1),
        add(1, 3, 4),
        print(1),
    ];
    assert_eq!(out, expected);
    assert_eq!(run_vm(out, 4), Ok(vec![5]));
}

#[test]
fn overlapping_registers_get_different_colors_without_spills() {
    // three values live at once, colored with three registers
    let program = vec![ldi(4, 1), ldi(5, 2), ldi(6, 3), print(4), print(5), print(6)];
    let out = allocate_registers2(program, 5).unwrap();
    assert_eq!(out, vec![ldi(3, 1), ldi(2, 2), ldi(1, 3), print(3), print(2), print(1)]);
}

#[test]
fn addition_wraps() {
    let program = vec![ldi(1, i32::MAX), ldi(2, 1), add(3, 1, 2), print(3)];
    assert_eq!(run_vm(program, 3), Ok(vec![i32::MIN]));
    let program = vec![ldi(1, i32::MIN), ldi(2, -1), add(3, 1, 2), print(3)];
    assert_eq!(run_vm(program, 3), Ok(vec![i32::MAX]));
}

#[test]
fn registers_and_memory_start_at_zero() {
    assert_eq!(run_vm(vec![print(0), print(4), load(1, 1023), print(1)], 4), Ok(vec![0, 0, 0]));
}

#[test]
fn a_stopped_program_stops_alike_after_allocation() {
    let halted = |printed: Vec<i32>| -> Result<Vec<i32>, Halt> {
        Err(Halt { error: VmError::MemoryAddressOutOfRange, printed })
    };
    let program = vec![ldi(5, 3), print(5), ldi(6, 4), store(5000, 6), print(6)];
    assert_eq!(run_vm(program.clone(), 6), halted(vec![3]));
    assert_eq!(run_vm(allocate_registers1(program.clone(), 4).unwrap(), 4), halted(vec![3]));
    assert_eq!(run_vm(allocate_registers2(program, 4).unwrap(), 4), halted(vec![3]));
    let program = vec![ldi(5, 3), print(5), print(5), load(6, -1), print(6)];
    assert_eq!(run_vm(program.clone(), 6), halted(vec![3, 3]));
    assert_eq!(run_vm(allocate_registers1(program.clone(), 4).unwrap(), 4), halted(vec![3, 3]));
    assert_eq!(run_vm(allocate_registers2(program, 4).unwrap(), 4), halted(vec![3, 3]));
}

#[test]
fn everything_in_memory_prints_what_the_program_prints() {
    // both colors are in the spill set, so every register goes through
    // memory
    let program = vec![
        ldi(1, 1),
        ldi(2, 2),
        ldi(3, 3),
        ldi(4, 4),
        add(5, 1, 2),
        add(6, 5, 3),
        add(7, 6, 4),
        print(5),
        print(6),
        print(7),
    ];
    let out = allocate_registers2(program.clone(), 4).unwrap();
    for op in &out {
        for id in registers(op) {
            assert!(id == 3 || id == 4);
        }
    }
    assert_eq!(run_vm(out, 4), run_vm(program, 7));
}

#[test]
fn spill_slots_share_the_memory_with_the_program() {
    // register 5 takes slot 0, the address that the program itself uses
    let program = vec![ldi(1, 7), store(0, 1), ldi(5, 9), load(1, 0), print(1)];
    assert_eq!(run_vm(program.clone(), 5), Ok(vec![7]));
    let out = allocate_registers1(program, 4).unwrap();
    assert_eq!(run_vm(out, 4), Ok(vec![9]));
}

#[test]
fn self_updating_addition_is_a_birth() {
    // register 1 counts as dead between its definition and the addition
    // that reads and writes it, so register 2 takes the same color
    let program = vec![ldi(1, 1), ldi(2, 5), add(1, 1, 1), print(1)];
    assert_eq!(run_vm(program.clone(), 2), Ok(vec![2]));
    let out = allocate_registers2(program, 4).unwrap();
    assert_eq!(out, vec![ldi(1, 1), ldi(1, 5), add(1, 1, 1), print(1)]);
    assert_eq!(run_vm(out, 4), Ok(vec![10]));
}
