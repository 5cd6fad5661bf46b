use code_gen::{allocate_registers1, allocate_registers2, run_vm, Integer, OpeCode, Register};

fn ldi(dst: usize, value: i32) -> OpeCode {
    OpeCode::LdI { dst: Register::new(dst), value: Integer::new(value) }
}

fn add(dst: usize, src1: usize, src2: usize) -> OpeCode {
    OpeCode::Add { dst: Register::new(dst), src1: Register::new(src1), src2: Register::new(src2) }
}

fn store(addr: i32, src: usize) -> OpeCode {
    OpeCode::Store { dst: Integer::new(addr), src: Register::new(src) }
}

fn load(dst: usize, addr: i32) -> OpeCode {
    OpeCode::Load { dst: Register::new(dst), src: Integer::new(addr) }
}

fn print(src: usize) -> OpeCode {
    OpeCode::Print { src: Register::new(src) }
}

fn linear_add_chain() -> Vec<OpeCode> {
    vec![
        ldi(1, 1),
        ldi(2, 2),
        ldi(3, 3),
        ldi(4, 4),
        add(5, 1, 2),
        add(6, 5, 3),
        add(7, 6, 4),
        print(7),
    ]
}

fn parallel_pairs() -> Vec<OpeCode> {
    vec![
        ldi(1, 1),
        ldi(2, 2),
        ldi(3, 3),
        ldi(4, 4),
        ldi(5, 5),
        ldi(6, 6),
        add(7, 1, 2),
        add(8, 3, 4),
        add(9, 5, 6),
        print(7),
        print(8),
        print(9),
    ]
}

#[test]
fn linear_add_chain_prints_ten() {
    let program = linear_add_chain();
    assert_eq!(run_vm(program.clone(), 7), Ok(vec![10]));
    let trivial = allocate_registers1(program.clone(), 4).unwrap();
    assert_eq!(run_vm(trivial, 4), Ok(vec![10]));
    let colored = allocate_registers2(program, 4).unwrap();
    assert_eq!(run_vm(colored, 4), Ok(vec![10]));
}

#[test]
fn parallel_pairs_print_three_seven_eleven() {
    let program = parallel_pairs();
    assert_eq!(run_vm(program.clone(), 9), Ok(vec![3, 7, 11]));
    for k in 4..10 {
        let trivial = allocate_registers1(program.clone(), k).unwrap();
        assert_eq!(run_vm(trivial, k), Ok(vec![3, 7, 11]), "trivial, k = {}", k);
        let colored = allocate_registers2(program.clone(), k).unwrap();
        assert_eq!(run_vm(colored, k), Ok(vec![3, 7, 11]), "coloring, k = {}", k);
    }
}

#[test]
fn single_load_immediate_prints_forty_two() {
    let program = vec![ldi(1, 42), print(1)];
    assert_eq!(run_vm(program.clone(), 1), Ok(vec![42]));
    let trivial = allocate_registers1(program.clone(), 4).unwrap();
    assert_eq!(trivial, program);
    assert_eq!(run_vm(trivial, 4), Ok(vec![42]));
    let colored = allocate_registers2(program.clone(), 4).unwrap();
    assert_eq!(colored, program);
    assert_eq!(run_vm(colored, 4), Ok(vec![42]));
}

#[test]
fn trivial_spill_routes_through_scratch() {
    let program = vec![ldi(1, 1), ldi(2, 2), ldi(3, 3), ldi(4, 4), ldi(5, 5), print(5)];
    let out = allocate_registers1(program, 4).unwrap();
    let expected = vec![
        ldi(1, 1),
        ldi(2, 2),
        ldi(3, 3),
        store(0, 3),
        ldi(3, 4),
        store(1, 3),
        ldi(3, 5),
        store(2, 3),
        load(4, 2),
        print(4),
    ];
    assert_eq!(out, expected);
    assert_eq!(run_vm(out, 4), Ok(vec![5]));
}

#[test]
fn trivial_add_uses_both_scratch_registers() {
    let program = vec![ldi(7, 10), ldi(8, 20), add(9, 7, 8), print(9)];
    let out = allocate_registers1(program, 4).unwrap();
    let expected = vec![
        ldi(3, 10),
        store(0, 3),
        ldi(3, 20),
        store(1, 3),
        load(3, 0),
        load(4, 1),
        add(3, 3, 4),
        store(2, 3),
        load(4, 2),
        print(4),
    ];
    assert_eq!(out, expected);
    assert_eq!(run_vm(out, 4), Ok(vec![30]));
}

#[test]
fn trivial_mixed_operands() {
    // spilled destination, sources in place
    let program = vec![ldi(1, 4), ldi(2, 5), add(3, 1, 2), print(3)];
    let out = allocate_registers1(program, 4).unwrap();
    assert_eq!(out, vec![ldi(1, 4), ldi(2, 5), add(3, 1, 2), store(0, 3), load(4, 0), print(4)]);
    assert_eq!(run_vm(out, 4), Ok(vec![9]));
    // destination in place, sources spilled
    let program = vec![ldi(5, 4), ldi(6, 5), add(1, 5, 6), print(1)];
    let out = allocate_registers1(program, 4).unwrap();
    assert_eq!(
        out,
        vec![
            ldi(3, 4),
            store(0, 3),
            ldi(3, 5),
            store(1, 3),
            load(3, 0),
            load(4, 1),
            add(1, 3, 4),
            print(1)
        ]
    );
    assert_eq!(run_vm(out, 4), Ok(vec![9]));
}

#[test]
fn trivial_store_and_load_pass_addresses_through() {
    let program = vec![ldi(9, 77), store(100, 9), load(8, 100), print(8)];
    let out = allocate_registers1(program.clone(), 4).unwrap();
    let expected = vec![
        ldi(3, 77),
        store(0, 3),
        load(4, 0),
        store(100, 4),
        load(3, 100),
        store(1, 3),
        load(4, 1),
        print(4),
    ];
    assert_eq!(out, expected);
    assert_eq!(run_vm(program, 9), Ok(vec![77]));
    assert_eq!(run_vm(out, 4), Ok(vec![77]));
}

#[test]
fn linear_add_chain_instruction_counts() {
    let program = linear_add_chain();
    // with six registers the graph colors without a spill
    let trivial = allocate_registers1(program.clone(), 6).unwrap();
    let colored = allocate_registers2(program.clone(), 6).unwrap();
    assert_eq!(colored.len(), 8);
    assert!(colored.len() <= trivial.len());
    assert_eq!(run_vm(colored, 6), Ok(vec![10]));
    // with four, the spill set holds both colors, so every operand goes
    // through memory
    let trivial = allocate_registers1(program.clone(), 4).unwrap();
    let colored = allocate_registers2(program, 4).unwrap();
    assert_eq!(trivial.len(), 18);
    assert_eq!(colored.len(), 22);
}

#[test]
fn serial_definitions_share_one_register() {
    let mut program = Vec::new();
    let mut expected = Vec::new();
    let mut printed = Vec::new();
    for id in 1..101 {
        program.push(ldi(id, id as i32));
        program.push(print(id));
        expected.push(ldi(1, id as i32));
        expected.push(print(1));
        printed.push(id as i32);
    }
    let out = allocate_registers2(program, 4).unwrap();
    assert_eq!(out, expected);
    assert_eq!(run_vm(out, 4), Ok(printed));
}

#[test]
fn empty_program() {
    assert_eq!(allocate_registers1(Vec::new(), 4), Ok(Vec::new()));
    assert_eq!(allocate_registers2(Vec::new(), 4), Ok(Vec::new()));
    assert_eq!(run_vm(Vec::new(), 4), Ok(Vec::new()));
}

#[test]
fn spill_set_is_matched_against_colors() {
    let program =
        vec![ldi(1, 0), ldi(2, 10), ldi(3, 20), ldi(4, 30), print(2), print(3), print(4)];
    // The first pass marks register 2. The clean pass gives registers 2 and
    // 4 the color 1 and register 3 the color 2; the color 2 is in the spill
    // set, so register 3 goes through memory and the others share register 1.
    let out = allocate_registers2(program, 4).unwrap();
    let expected = vec![
        ldi(1, 0),
        ldi(1, 10),
        ldi(3, 20),
        store(0, 3),
        ldi(1, 30),
        print(1),
        load(4, 0),
        print(4),
        print(1),
    ];
    assert_eq!(out, expected);
    assert_eq!(run_vm(out, 4), Ok(vec![30, 20, 30]));
}
