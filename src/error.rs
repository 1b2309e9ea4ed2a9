use vstd::prelude::*;
use crate::token::Token;

verus! {

/// Every way in which processing of one input can fail.
#[derive(Debug, Clone, PartialEq, Eq)]
pub enum LangError {
    /// The source holds a character outside ASCII.
    NonAscii,
    /// The source holds a character that starts no token.
    InvalidCharacter(char),
    /// A number literal does not fit the integer type.
    NumberTooLarge,
    /// The parser met a token that the grammar does not allow there: the
    /// token, or nothing where the input ran out.
    UnexpectedToken(Option<Token>),
    /// A `const` declaration without an initializer.
    ConstantWithoutValue,
    /// The right-hand side of `.` is not an identifier.
    ExpectedIdentifierAfterDot,
    /// A name declared twice in one scope.
    AlreadyDeclared(String),
    /// A name that no enclosing scope defines.
    Undefined(String),
    /// An assignment to a constant binding.
    ConstantReassignment(String),
    /// The left-hand side of an assignment is not an identifier.
    InvalidAssignee,
    /// Member access on a value that is not an object.
    NotAnObject,
    /// A computed member whose value cannot name a key: no value is a name.
    NotAKey,
    /// Member access with a key that the object lacks.
    MissingKey(String),
    /// Division or remainder by zero.
    DivisionByZero,
    /// An arithmetic result outside the integer type.
    Overflow,
}

/// An error that evaluation reports, as opposed to reading or parsing.
pub open spec fn is_runtime_error(e: LangError) -> bool {
    e is AlreadyDeclared || e is Undefined || e is ConstantReassignment || e is InvalidAssignee
        || e is NotAnObject || e is NotAKey || e is MissingKey || e is DivisionByZero || e is Overflow
}

} // verus!
