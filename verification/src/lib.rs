//! A Brainfuck front end built around a verified peephole optimizer.
//!
//! `parse` turns source text into the extended instruction set of `ast`;
//! `optimize` rewrites a program to a fixpoint of the peephole sweep; the
//! `Machine` of `machine` is a bounded reference interpreter for the same
//! instruction set. `semantics` gives the instructions their meaning, and
//! `equiv` proves that the optimizer preserves it: a run of the source
//! program that completes is matched, state for state, by a run of the
//! optimized program.

pub mod ast;
pub mod optimizer;
pub mod parser;
pub mod semantics;
pub mod equiv;
pub mod machine;

pub use ast::Instruction;
pub use ast::Program;
pub use optimizer::optimize;
pub use parser::parse;
pub use parser::try_parse;
pub use machine::Machine;
pub use machine::MachineStatus;
