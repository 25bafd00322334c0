use vstd::prelude::*;

verus! {

/// The structural errors that end a parse run.
#[derive(Debug, Clone, Copy, PartialEq, Eq, Structural)]
pub enum ParseError {
    /// A namespace name, or one of its segments, does not start with an
    /// uppercase letter.
    MalformedConstantName,
    /// A non-final segment of a qualified name is not a child of the scope
    /// it is looked up in.
    UndefinedNamespaceSegment,
    /// A close with nothing open.
    UnmatchedClose,
    /// A function definition without a name.
    MissingFunctionName,
    /// A positional parameter after a keyword parameter.
    ParameterOrderViolation,
    /// A literal or a parameter list that the end of input cuts short.
    UnexpectedEndOfInput,
}

impl ParseError {
    /// A short description of the error, for reports.
    pub fn message(&self) -> (text: &'static str)
        ensures
            text@ == self.message_text(),
    {
        match self {
            ParseError::MalformedConstantName => "expected a constant name",
            ParseError::UndefinedNamespaceSegment => "undefined constant",
            ParseError::UnmatchedClose => "unexpected keyword \"end\"",
            ParseError::MissingFunctionName => "expected function name",
            ParseError::ParameterOrderViolation => "positional params must come first",
            ParseError::UnexpectedEndOfInput => "unexpected end of input",
        }
    }

    pub open spec fn message_text(&self) -> Seq<char> {
        match self {
            ParseError::MalformedConstantName => "expected a constant name"@,
            ParseError::UndefinedNamespaceSegment => "undefined constant"@,
            ParseError::UnmatchedClose => "unexpected keyword \"end\""@,
            ParseError::MissingFunctionName => "expected function name"@,
            ParseError::ParameterOrderViolation => "positional params must come first"@,
            ParseError::UnexpectedEndOfInput => "unexpected end of input"@,
        }
    }
}

} // verus!
