//! Lowering: from a checked program to an intermediate representation that a JIT can run.
//!
//! *Lowering* rewrites a program into a lower-level form, here the typed [`crate::parser::Ast`]
//! into the instructions of [`ir`]. Names are resolved and every type is known by then, so it is a
//! walk that emits, for each construct, the instructions that compute it. [`lowering`] says what
//! these are; [`builder`] holds the state and its single steps, and the emitters live beside them.
//! [`results`] says what the code of a program computes when it runs, and [`ownership`] that it
//! releases every string it makes.

pub mod builder;
pub mod building;
pub mod effects;
pub mod emit;
pub mod evaluation;
pub mod execution;
pub mod expr;
pub mod flow;
pub mod ir;
pub mod joining;
pub mod lowering;
pub mod meaning;
pub mod ownership;
pub mod program;
pub mod results;
pub mod soundness;
pub mod steady;
pub mod stmt;
pub mod string;
pub mod texts;
pub mod validity;
pub mod value;

pub use builder::CodegenError;
pub use program::generate;
pub use value::PinpValue;
