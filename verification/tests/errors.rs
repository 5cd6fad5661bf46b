use code_gen::{
    allocate_registers1, allocate_registers2, run_vm, AllocError, Halt, Integer, OpeCode,
    Register, VmError,
};

fn halted(printed: Vec<i32>) -> Result<Vec<i32>, Halt> {
    Err(Halt { error: VmError::MemoryAddressOutOfRange, printed })
}

fn ldi(dst: usize, value: i32) -> OpeCode {
    OpeCode::LdI { dst: Register::new(dst), value: Integer::new(value) }
}

fn print(src: usize) -> OpeCode {
    OpeCode::Print { src: Register::new(src) }
}

#[test]
fn fewer_than_four_registers_is_rejected() {
    let program = vec![ldi(1, 1), print(1)];
    for k in 0..4 {
        assert_eq!(
            allocate_registers1(program.clone(), k),
            Err(AllocError::InsufficientRegisters)
        );
        assert_eq!(
            allocate_registers2(program.clone(), k),
            Err(AllocError::InsufficientRegisters)
        );
    }
    assert!(allocate_registers1(program.clone(), 4).is_ok());
    assert!(allocate_registers2(program, 4).is_ok());
}

#[test]
fn use_before_definition_is_rejected() {
    let program = vec![print(1), ldi(1, 1)];
    assert_eq!(allocate_registers1(program.clone(), 4), Err(AllocError::MalformedIR));
    assert_eq!(allocate_registers2(program, 4), Err(AllocError::MalformedIR));
    let program = vec![
        ldi(1, 1),
        OpeCode::Add { dst: Register::new(3), src1: Register::new(1), src2: Register::new(2) },
    ];
    assert_eq!(allocate_registers1(program.clone(), 8), Err(AllocError::MalformedIR));
    assert_eq!(allocate_registers2(program, 8), Err(AllocError::MalformedIR));
    let program = vec![OpeCode::Store { dst: Integer::new(0), src: Register::new(1) }];
    assert_eq!(allocate_registers1(program.clone(), 8), Err(AllocError::MalformedIR));
    assert_eq!(allocate_registers2(program, 8), Err(AllocError::MalformedIR));
}

#[test]
fn register_count_is_checked_first() {
    let program = vec![print(1)];
    assert_eq!(allocate_registers1(program.clone(), 3), Err(AllocError::InsufficientRegisters));
    assert_eq!(allocate_registers2(program, 3), Err(AllocError::InsufficientRegisters));
}

#[test]
fn address_outside_memory_stops_the_run() {
    let store = |addr: i32| OpeCode::Store { dst: Integer::new(addr), src: Register::new(1) };
    let load = |addr: i32| OpeCode::Load { dst: Register::new(1), src: Integer::new(addr) };
    assert_eq!(run_vm(vec![ldi(1, 1), store(1024)], 4), halted(vec![]));
    assert_eq!(run_vm(vec![ldi(1, 1), store(-1)], 4), halted(vec![]));
    assert_eq!(run_vm(vec![load(1024), print(1)], 4), halted(vec![]));
    assert_eq!(run_vm(vec![load(i32::MIN)], 4), halted(vec![]));
    assert_eq!(run_vm(vec![ldi(1, 9), store(1023), load(1023), print(1)], 4), Ok(vec![9]));
}

#[test]
fn a_stopped_run_keeps_what_it_printed() {
    let store = |addr: i32| OpeCode::Store { dst: Integer::new(addr), src: Register::new(1) };
    let program = vec![ldi(1, 1), print(1), ldi(1, 2), print(1), store(5000), print(1)];
    assert_eq!(run_vm(program, 4), halted(vec![1, 2]));
    let program = vec![ldi(1, 1), print(1), store(5000), store(0), print(1), store(-4)];
    assert_eq!(run_vm(program, 4), halted(vec![1]));
}
