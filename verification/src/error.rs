use vstd::prelude::*;
use vstd::string::StringExecFns;

verus! {

/// Everything that can go wrong while parsing a line of dice notation.
///
/// `ParseError` carries a descriptive message built around the text that
/// could not be consumed; `InvalidNumberInput` reports a digit run whose
/// value does not fit the target integer width; `Unknown` is a defensive
/// fallback for an incomplete-input condition that cannot arise for
/// fully-buffered input.
#[derive(Debug, PartialEq)]
pub enum ParserError {
    ParseError(String),
    InvalidNumberInput,
    Unknown,
}

impl ParserError {
    /// The human-readable description of this error.
    pub open spec fn spec_message(&self) -> Seq<char> {
        match self {
            ParserError::ParseError(m) => "An error occurred while parsing the input. "@ + m@,
            ParserError::InvalidNumberInput => "An invalid number was entered."@,
            ParserError::Unknown => "An unknown error occurred."@,
        }
    }

    /// Renders the error for presentation to a user.
    pub fn message(&self) -> (r: String)
        ensures
            r@ == self.spec_message(),
    {
        match self {
            ParserError::ParseError(m) => String::from_str(
                "An error occurred while parsing the input. ",
            ).concat(m.as_str()),
            ParserError::InvalidNumberInput => String::from_str("An invalid number was entered."),
            ParserError::Unknown => String::from_str("An unknown error occurred."),
        }
    }
}

} // verus!
