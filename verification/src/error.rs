use vstd::prelude::*;

verus! {

/// The possible failures during evaluation of the language.
#[derive(Debug, Clone, Copy, PartialEq, Eq, Structural)]
pub enum Error {
    /// A token was not understood by the evaluator's caller (the tokenizer).
    InvalidToken,
    /// An argument of the wrong kind was supplied, such as a string where a
    /// number was expected, or a divisor for which no quotient exists.
    ArgumentMismatch,
    /// An identifier could not be found in any enclosing scope's symbol table.
    UnknownIdentifier,
    /// An operation was invoked with the wrong number of arguments.
    ArityMismatch,
    /// An operation required a stack element and the stack was empty.
    EmptyStack,
}

} // verus!
