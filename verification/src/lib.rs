//! The managed runtime's allocator, class checks and string operations.
//!
//! Memory is addressed by plain numbers. An address lies either in the program
//! image, which is read-only and never moves, or in the managed region, which
//! is split into two semispaces of equal size. Address zero is null.

pub mod abort;
pub mod allocator;
pub mod cast;
pub mod geometry;
pub mod laws;
pub mod memory;
pub mod object;
pub mod outcomes;
pub mod runtime;
pub mod shadow_stack;
pub mod state;
pub mod string_ops;
pub mod text;
