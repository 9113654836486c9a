//! Evaluation core of a small stack-oriented scripting language: a tagged
//! value model, lexically nested scopes with externally stored symbol
//! tables, a registry of built-in operations with declared arities, and a
//! dispatcher that resolves each incoming symbol to a built-in invocation,
//! a variable reference, or a literal push.
//!
//! Numbers are 64-bit machine integers: addition, subtraction and
//! multiplication wrap around the signed range, and a division without a
//! representable quotient is an argument error.

pub mod callback;
pub mod error;
pub mod parser;
pub mod scope;
pub mod tables;
pub mod token;
