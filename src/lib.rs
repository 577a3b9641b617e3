//! Turns a program for a tape machine of 4-bit cells into the deterministic
//! automaton over the inputs `0..16` that accepts where the program accepts,
//! minimizes it, and writes it as Graphviz text.

mod bound;
mod tape;
mod program;
mod table;
mod dot;

pub use program::{Instruction, Program};
pub use table::Table;
