use vstd::prelude::*;

verus! {

/// What the interpreter loop does next.
#[derive(PartialEq, Eq, Copy, Clone, Structural)]
pub enum Signal {
    Done,
    More,
    RuntimeError,
}

/// An error that stops the interpreter.
#[derive(Debug, Copy, Clone, PartialEq, Eq, Structural)]
pub enum VmError {
    Unknown,
    StackEmpty,
    FrameEmpty,
    StringConstantExpected,
    GlobalNotDefined,
    InvalidCallee,
    IncorrectArity,
    UnexpectedConstant,
    ClosureConstantExpected,
    UnexpectedValue,
    UndefinedProperty,
    Unimplemented,
    UnknownImport,
    IndexOutOfRange,
}

} // verus!
