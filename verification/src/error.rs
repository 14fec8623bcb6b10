use vstd::prelude::*;
use crate::text::{push_string, string_from_str};

verus! {

#[derive(Debug, Clone, PartialEq)]
pub enum SpreadsheetError {
    UnknownCell(String),
    CircularReference(String),
    InvalidFormula(String),
    DivisionByZero,
    /// Excel `#NUM!`
    Num,
    /// Excel `#VALUE!`
    Value,
    /// Excel `#SPILL!` — array result blocked by a non-empty cell
    Spill,
    /// Excel `#CALC!` — e.g. FILTER with no matching rows
    Calc,
}

/// The human-readable message of an error.
pub open spec fn spec_error_message(e: SpreadsheetError) -> Seq<char> {
    match e {
        SpreadsheetError::UnknownCell(c) => "unknown cell: "@ + c@,
        SpreadsheetError::CircularReference(c) => "circular reference detected at: "@ + c@,
        SpreadsheetError::InvalidFormula(x) => "invalid formula: "@ + x@,
        SpreadsheetError::DivisionByZero => "division by zero"@,
        SpreadsheetError::Num => "#NUM!"@,
        SpreadsheetError::Value => "#VALUE!"@,
        SpreadsheetError::Spill => "#SPILL!"@,
        SpreadsheetError::Calc => "#CALC!"@,
    }
}

impl SpreadsheetError {
    /// The human-readable message of this error (what the error prints as).
    pub fn message(&self) -> (r: String)
        ensures
            r@ == spec_error_message(*self),
    {
        match self {
            SpreadsheetError::UnknownCell(c) => {
                let mut s = string_from_str("unknown cell: ");
                push_string(&mut s, c);
                s
            },
            SpreadsheetError::CircularReference(c) => {
                let mut s = string_from_str("circular reference detected at: ");
                push_string(&mut s, c);
                s
            },
            SpreadsheetError::InvalidFormula(x) => {
                let mut s = string_from_str("invalid formula: ");
                push_string(&mut s, x);
                s
            },
            SpreadsheetError::DivisionByZero => string_from_str("division by zero"),
            SpreadsheetError::Num => string_from_str("#NUM!"),
            SpreadsheetError::Value => string_from_str("#VALUE!"),
            SpreadsheetError::Spill => string_from_str("#SPILL!"),
            SpreadsheetError::Calc => string_from_str("#CALC!"),
        }
    }
}

} // verus!
