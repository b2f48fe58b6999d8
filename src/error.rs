use vstd::prelude::*;

verus! {

/// Why the evaluation of one form failed.
#[derive(Clone, Debug, PartialEq, Eq)]
pub enum RuntimeError {
    /// The symbol is bound to nothing in the environment.
    UnboundSymbol(String),
    /// The head of an application is not a native function.
    NotCallable,
    /// The arguments of an application do not end in `Nil`.
    ImproperList,
    /// Too few arguments for the operator.
    ArityError,
    /// An operand is not a number, or two values cannot be compared for equality.
    TypeError,
    /// A complex operand was given to an ordering operator.
    UnorderedType,
}

/// The reader found no form at `offset`, or a list that is never closed.
#[derive(Clone, Debug, PartialEq, Eq)]
pub struct ParseError {
    /// Where in the input the reader stopped.
    pub offset: usize,
    /// The input from `offset` on.
    pub remainder: Vec<u8>,
}

} // verus!
