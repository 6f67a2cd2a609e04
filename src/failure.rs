use vstd::prelude::*;

verus! {

/// The class of a parse failure.
#[derive(Debug, Clone, Copy, PartialEq, Eq, Structural)]
pub enum FailureKind {
    /// The current character belongs to no class that was expected there.
    Lexical,
    /// A fixed token (keyword or punctuation) is missing.
    Syntactic,
    /// A recognized numeric literal does not convert to its target width.
    NumericConversion,
    /// Text other than whitespace and comments follows the last declaration.
    TrailingInput,
}

/// What the failing grammar rule expected at the failure position.
#[derive(Debug, Clone, Copy, PartialEq, Eq, Structural)]
pub enum Expected {
    Identifier,
    Digit,
    DecimalPoint,
    Comment,
    CommentEnd,
    Separator,
    Boolean,
    PrimitiveType,
    Expression,
    Declaration,
    Arrow,
    FnKeyword,
    Char(char),
    I32,
}

/// A failure: where matching stopped (a character offset), its class, and what was expected.
#[derive(Debug, Clone, Copy, PartialEq, Eq, Structural)]
pub struct ParseFailure {
    pub pos: usize,
    pub kind: FailureKind,
    pub expected: Expected,
}

/// The failure value at character offset `pos`.
pub open spec fn fail(pos: int, kind: FailureKind, expected: Expected) -> ParseFailure {
    ParseFailure { pos: pos as usize, kind, expected }
}

/// A position result of an executable rule, read as a mathematical position.
pub open spec fn pos_result(r: Result<usize, ParseFailure>) -> Result<int, ParseFailure> {
    match r {
        Ok(p) => Ok(p as int),
        Err(e) => Err(e),
    }
}

pub fn make_fail(pos: usize, kind: FailureKind, expected: Expected) -> (r: ParseFailure)
    ensures
        r == fail(pos as int, kind, expected),
{
    ParseFailure { pos, kind, expected }
}

} // verus!
