//! A parser for LIN (Local Interconnect Network) description files.
//!
//! The crate turns the full text of an LDF file into a validated in-memory
//! database of signals, frames, node roles and communication schedules,
//! or into the first [`Error`] met on the way.  Reading the file from disk is
//! the caller's concern: the parser takes the complete text.

pub mod encoding;
pub mod error;
pub mod ldf;
pub mod namemap;
pub mod numbers;
pub mod text;
pub mod tokenizer;

pub use crate::encoding::Database;
pub use crate::error::Error;
pub use crate::ldf::parse_ldf;
