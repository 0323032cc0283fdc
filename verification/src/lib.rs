//! Integers kept in text, one per line.
//!
//! The crate reads a text of lines into the signed 32-bit integers that it
//! holds, renders such integers back into a text, and proves that reading
//! what was rendered gives the integers back. Three small arithmetic
//! helpers stand beside them.

pub mod arith;
pub mod decimal;
pub mod laws;
pub mod reader;
pub mod text;
pub mod writer;
