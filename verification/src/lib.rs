//! Storage layer of a stacked, append-oriented key-range database.
//!
//! A [`base::layer::Layer`] holds the byte ranges written during one
//! generation, answers collision and read queries over them, and can be
//! frozen into a compact big-endian image from which it is later reopened.
pub mod errors;

pub mod base;
