use vstd::prelude::*;

verus! {

/// Typed failure returned by every solver.  The solvers never panic on bad
/// input: each kind of malformed input maps to one of these variants.
#[derive(Debug, PartialEq, Eq)]
pub enum AocError {
    /// A field that should be a decimal number is empty, holds a non-digit,
    /// or does not fit in the machine word.
    BadInt,
    /// A character outside `0-9`, `A-F`, `a-f` where hex digits are expected.
    MalformedHex,
    /// A read asked for more bits than the stream still holds.
    UnexpectedEndOfStream,
    /// An operator packet's type has no defined evaluation rule.
    UnknownOperator,
    /// An operator packet has too few child packets for its operation.
    MissingOperand,
    /// Any other way an input can fail to make sense, with a description.
    Misc(String),
}

impl AocError {
    /// A human-readable description, standing in for `Display`.
    pub fn message(&self) -> (r: String)
        ensures
            match self {
                AocError::BadInt => r@ == "Bad integer"@,
                AocError::MalformedHex => r@ == "Malformed hex digit"@,
                AocError::UnexpectedEndOfStream => r@ == "Unexpected end of bit stream"@,
                AocError::UnknownOperator => r@ == "Unknown operator type"@,
                AocError::MissingOperand => r@ == "Operator packet is missing an operand"@,
                AocError::Misc(message) => r@ == message@,
            },
    {
        match self {
            AocError::BadInt => "Bad integer".to_owned(),
            AocError::MalformedHex => "Malformed hex digit".to_owned(),
            AocError::UnexpectedEndOfStream => "Unexpected end of bit stream".to_owned(),
            AocError::UnknownOperator => "Unknown operator type".to_owned(),
            AocError::MissingOperand => "Operator packet is missing an operand".to_owned(),
            AocError::Misc(message) => message.clone(),
        }
    }
}

} // verus!
