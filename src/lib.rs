//! A bytecode virtual machine for a small dynamically typed language whose
//! call sites name their arguments with Korean particles ("josa").
//!
//! The library holds the value model, the binary loader and the execution
//! engine, each with its contract proved by Verus.

pub mod opcode;
pub mod instruction;
pub mod host;
mod shared;
pub mod josa;
pub mod constant;
pub mod error;
pub mod machine;
pub mod builtin;
pub mod program;
pub mod parser;
pub mod laws;
pub mod codec;
