use code_gen::{Integer, OpeCode, Register};

#[test]
fn register_is_thirty_two_bits_wide() {
    let r = Register::new(5);
    assert_eq!(r.id, 5);
    assert_eq!(r.size, 32);
}

#[test]
fn integer_holds_its_value() {
    assert_eq!(Integer::new(-3).value, -3);
}

#[test]
fn instructions_as_text() {
    let add = OpeCode::Add {
        dst: Register::new(5),
        src1: Register::new(1),
        src2: Register::new(20),
    };
    assert_eq!(add.to_string(), "Add %5, %1, %20");
    let ldi = OpeCode::LdI { dst: Register::new(1), value: Integer::new(42) };
    assert_eq!(ldi.to_string(), "LdI %1, 42");
    let store = OpeCode::Store { dst: Integer::new(1023), src: Register::new(3) };
    assert_eq!(store.to_string(), "Store 1023, %3");
    let load = OpeCode::Load { dst: Register::new(4), src: Integer::new(0) };
    assert_eq!(load.to_string(), "Load %4, 0");
    let print = OpeCode::Print { src: Register::new(100) };
    assert_eq!(print.to_string(), "Print %100");
}

#[test]
fn extreme_operands_as_text() {
    let ldi = OpeCode::LdI { dst: Register::new(0), value: Integer::new(-7) };
    assert_eq!(ldi.to_string(), "LdI %0, -7");
    let ldi = OpeCode::LdI { dst: Register::new(usize::MAX), value: Integer::new(i32::MIN) };
    assert_eq!(ldi.to_string(), format!("LdI %{}, -2147483648", usize::MAX));
    let ldi = OpeCode::LdI { dst: Register::new(10), value: Integer::new(i32::MAX) };
    assert_eq!(ldi.to_string(), "LdI %10, 2147483647");
}
