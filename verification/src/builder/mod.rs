//! Defines an allocator which can build programs.

pub mod allocator;
pub mod arith;
pub mod cell;
pub mod code;
pub mod string;
pub(crate) mod trace;
pub mod types;
