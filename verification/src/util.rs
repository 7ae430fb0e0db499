use vstd::prelude::*;

verus! {

/// Coarse failure of a caller that drives the decoder.
#[derive(Debug, Clone, Copy, PartialEq, Eq, Structural)]
pub enum CerealError {
    StringParseFailure,
    Unknown,
}

/// What a `CerealError` says of itself.
pub open spec fn spec_message(error: CerealError) -> Seq<char> {
    match error {
        CerealError::StringParseFailure => "failed to parse string after lexing"@,
        CerealError::Unknown => "unknown error"@,
    }
}

impl CerealError {
    /// The text that describes the error.
    pub fn message(&self) -> (text: &'static str)
        ensures
            text@ == spec_message(*self),
    {
        match self {
            CerealError::StringParseFailure => "failed to parse string after lexing",
            CerealError::Unknown => "unknown error",
        }
    }
}

/// What is wrong where a recognizer could not go on.
#[derive(Debug, Clone, Copy, PartialEq, Eq, Structural)]
pub enum ErrorKind {
    /// A tag, delimiter or terminator is absent.
    SyntaxMismatch,
    /// A declared length or count disagrees with the payload.
    LengthMismatch,
    /// Digits, a decimal point or a boolean token are absent.
    MalformedScalar,
    /// The input ends where a container still needs content.
    Exhausted,
}

/// The rules of the grammar.
#[derive(Debug, Clone, Copy, PartialEq, Eq, Structural)]
pub enum Rule {
    Integer,
    Null,
    Double,
    Bool,
    String,
    Array,
    Object,
    /// The end of the input.
    Eof,
    /// The choice among the forms of a value.
    Any,
}

/// Why decoding failed: what is wrong, the rule that could not go on, and
/// how many bytes into the input it stopped.
#[derive(Debug, Clone, Copy, PartialEq, Eq, Structural)]
pub struct ParseError {
    pub kind: ErrorKind,
    pub rule: Rule,
    pub at: usize,
}

} // verus!
