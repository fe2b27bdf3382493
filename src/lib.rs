//! Execution traces of Brainfuck programs laid out as the tables of an
//! algebraic proof over the BN254 scalar field, and the polynomial
//! constraints that tie those tables together.
//!
//! - `field`: field elements, with arithmetic from `halo2curves`.
//! - `program`: opcodes, and the compiler that writes jump targets in.
//! - `table`: the five tables, their views, and their orderings.
//! - `interpreter`: the tracer, proved to follow a mathematical machine.
//! - `laws`: what holds of every compiled program and every trace.
//! - `constraints`: the constraints and lookups, evaluated on tables.
//! - `less_than`: the gadget that orders the Input and Output clocks.
use vstd::prelude::*;

pub mod field;
pub mod program;
pub mod table;
pub mod interpreter;
pub mod laws;
pub mod constraints;
pub mod less_than;

verus! {

} // verus!
