//! Register allocation for a straight-line three-address intermediate
//! representation, with two interchangeable strategies and a small
//! interpreter that serves as a correctness oracle.

pub mod chaitin;
pub mod coloring;
pub mod degree;
pub mod interference;
pub mod ir;
pub mod liveness;
pub mod matrix;
pub mod render;
pub mod simplify;
pub mod simulation;
pub mod spill;
pub mod trivial;
pub mod vm;

pub use crate::chaitin::allocate_registers2;
pub use crate::ir::{AllocError, Integer, OpeCode, Register};
pub use crate::liveness::LiveRangeCell;
pub use crate::matrix::is_empty;
pub use crate::trivial::allocate_registers1;
pub use crate::vm::{run_vm, Halt, VmError};
