//! A builder, compiler and runner for programs of a minimal tape machine.
//!
//! The machine has a tape of cells, a pointer, and eight commands: `+` and
//! `-` step the current cell, `<` and `>` move the pointer, `,` reads and
//! `.` writes, and `[` and `]` loop while the current cell is not zero.
//!
//! - [`builder`] writes program text: it hands out cells of the tape and
//!   offers arithmetic on them.
//! - [`program`] compiles program text into a tree of instructions.
//! - [`runner`] runs a compiled program on a tape.
//! - [`machine`] says what running a program means.
//! - [`laws`] and [`division`] state what the text written by the builder
//!   does when it runs.

pub mod builder;
pub mod division;
pub mod laws;
pub mod machine;
pub mod program;
pub mod runner;
