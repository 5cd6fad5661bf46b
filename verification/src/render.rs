//! The textual form of instructions: a mnemonic, then the operands separated
//! by a comma and a space; registers as `%` and the identifier, immediates in
//! decimal.

use crate::ir::{Integer, OpeCode, Register};
use vstd::prelude::*;
use vstd::string::StringExecFns;

verus! {

/// The character of a decimal digit.
pub open spec fn digit(d: int) -> char {
    if d == 0 {
        '0'
    } else if d == 1 {
        '1'
    } else if d == 2 {
        '2'
    } else if d == 3 {
        '3'
    } else if d == 4 {
        '4'
    } else if d == 5 {
        '5'
    } else if d == 6 {
        '6'
    } else if d == 7 {
        '7'
    } else if d == 8 {
        '8'
    } else {
        '9'
    }
}

/// A natural number in decimal, without leading zeros.
pub open spec fn decimal(n: nat) -> Seq<char>
    decreases n,
{
    if n < 10 {
        seq![digit(n as int)]
    } else {
        decimal(n / 10).push(digit((n % 10) as int))
    }
}

/// An integer in decimal, with a minus sign if it is negative.
pub open spec fn signed_decimal(v: int) -> Seq<char> {
    if v < 0 {
        seq!['-'] + decimal((-v) as nat)
    } else {
        decimal(v as nat)
    }
}

/// A register operand as text.
pub open spec fn register_text(r: Register) -> Seq<char> {
    seq!['%'] + decimal(r.id as nat)
}

/// An immediate operand as text.
pub open spec fn integer_text(n: Integer) -> Seq<char> {
    signed_decimal(n.value as int)
}

/// An instruction as text.
pub open spec fn opcode_text(op: OpeCode) -> Seq<char> {
    match op {
        OpeCode::Add { dst, src1, src2 } => seq!['A', 'd', 'd', ' '] + register_text(dst) + seq![
            ',',
            ' ',
        ] + register_text(src1) + seq![',', ' '] + register_text(src2),
        OpeCode::LdI { dst, value } => seq!['L', 'd', 'I', ' '] + register_text(dst) + seq![
            ',',
            ' ',
        ] + integer_text(value),
        OpeCode::Store { dst, src } => seq!['S', 't', 'o', 'r', 'e', ' '] + integer_text(dst)
            + seq![',', ' '] + register_text(src),
        OpeCode::Load { dst, src } => seq!['L', 'o', 'a', 'd', ' '] + register_text(dst) + seq![
            ',',
            ' ',
        ] + integer_text(src),
        OpeCode::Print { src } => seq!['P', 'r', 'i', 'n', 't', ' '] + register_text(src),
    }
}

/// The text of one decimal digit.
fn digit_str(d: u64) -> (s: &'static str)
    requires
        d < 10,
    ensures
        s@ == seq![digit(d as int)],
{
    proof {
        reveal_strlit("0");
        reveal_strlit("1");
        reveal_strlit("2");
        reveal_strlit("3");
        reveal_strlit("4");
        reveal_strlit("5");
        reveal_strlit("6");
        reveal_strlit("7");
        reveal_strlit("8");
        reveal_strlit("9");
    }
    let s = if d == 0 {
        "0"
    } else if d == 1 {
        "1"
    } else if d == 2 {
        "2"
    } else if d == 3 {
        "3"
    } else if d == 4 {
        "4"
    } else if d == 5 {
        "5"
    } else if d == 6 {
        "6"
    } else if d == 7 {
        "7"
    } else if d == 8 {
        "8"
    } else {
        "9"
    };
    assert(s@ =~= seq![digit(d as int)]);
    s
}

/// Appends `n` in decimal.
fn push_decimal(out: &mut String, n: u64)
    ensures
        final(out)@ == old(out)@ + decimal(n as nat),
    decreases n,
{
    if n >= 10 {
        push_decimal(out, n / 10);
    }
    out.append(digit_str(n % 10));
    assert(out@ =~= old(out)@ + decimal(n as nat));
}

/// Appends a register operand.
fn push_register(out: &mut String, r: Register)
    ensures
        final(out)@ == old(out)@ + register_text(r),
{
    proof {
        reveal_strlit("%");
    }
    out.append("%");
    push_decimal(out, r.id as u64);
    assert(out@ =~= old(out)@ + register_text(r));
}

/// Appends an immediate operand.
fn push_integer(out: &mut String, n: Integer)
    ensures
        final(out)@ == old(out)@ + integer_text(n),
{
    if n.value < 0 {
        proof {
            reveal_strlit("-");
        }
        out.append("-");
        let magnitude: i64 = -(n.value as i64);
        push_decimal(out, magnitude as u64);
    } else {
        push_decimal(out, n.value as u64);
    }
    assert(out@ =~= old(out)@ + integer_text(n));
}

/// Appends the separator between two operands.
fn push_separator(out: &mut String)
    ensures
        final(out)@ == old(out)@ + seq![',', ' '],
{
    proof {
        reveal_strlit(", ");
    }
    out.append(", ");
    assert(out@ =~= old(out)@ + seq![',', ' ']);
}

impl OpeCode {
    /// The instruction as text, such as `Add %5, %1, %2` or `LdI %1, -7`.
    pub fn to_string(&self) -> (text: String)
        ensures
            text@ == opcode_text(*self),
    {
        let mut out = String::new();
        match *self {
            OpeCode::Add { dst, src1, src2 } => {
                proof {
                    reveal_strlit("Add ");
                }
                out.append("Add ");
                push_register(&mut out, dst);
                push_separator(&mut out);
                push_register(&mut out, src1);
                push_separator(&mut out);
                push_register(&mut out, src2);
            },
            OpeCode::LdI { dst, value } => {
                proof {
                    reveal_strlit("LdI ");
                }
                out.append("LdI ");
                push_register(&mut out, dst);
                push_separator(&mut out);
                push_integer(&mut out, value);
            },
            OpeCode::Store { dst, src } => {
                proof {
                    reveal_strlit("Store ");
                }
                out.append("Store ");
                push_integer(&mut out, dst);
                push_separator(&mut out);
                push_register(&mut out, src);
            },
            OpeCode::Load { dst, src } => {
                proof {
                    reveal_strlit("Load ");
                }
                out.append("Load ");
                push_register(&mut out, dst);
                push_separator(&mut out);
                push_integer(&mut out, src);
            },
            OpeCode::Print { src } => {
                proof {
                    reveal_strlit("Print ");
                }
                out.append("Print ");
                push_register(&mut out, src);
            },
        }
        assert(out@ =~= opcode_text(*self));
        out
    }
}

} // verus!
