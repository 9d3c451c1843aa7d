//! Error values shared by the calculator and the numeric helpers.

use vstd::prelude::*;

verus! {

/// The closed set of errors this library reports. Every fallible operation
/// returns one of these as a value; nothing panics or aborts.
#[derive(Debug, Clone)]
pub enum ProjectError {
    DivisionByZero,
    OverflowError(String),
    InvalidInput(String),
    IoError(String),
    ParseError(String),
}

/// The human-readable description of an error, as a sequence of characters.
pub open spec fn message_spec(e: ProjectError) -> Seq<char> {
    match e {
        ProjectError::DivisionByZero => "Division durch Null ist nicht erlaubt"@,
        ProjectError::OverflowError(d) => "Overflow-Fehler: "@ + d@,
        ProjectError::InvalidInput(d) => "Ungültige Eingabe: "@ + d@,
        ProjectError::IoError(d) => "IO-Fehler: "@ + d@,
        ProjectError::ParseError(d) => "Parsing-Fehler: "@ + d@,
    }
}

impl ProjectError {
    /// The error's description: a fixed phrase per variant, followed by the
    /// carried detail text.
    pub fn message(&self) -> (r: String)
        ensures
            r@ == message_spec(*self),
    {
        match self {
            ProjectError::DivisionByZero => String::from_str(
                "Division durch Null ist nicht erlaubt",
            ),
            ProjectError::OverflowError(d) => String::from_str("Overflow-Fehler: ").concat(
                d.as_str(),
            ),
            ProjectError::InvalidInput(d) => String::from_str("Ungültige Eingabe: ").concat(
                d.as_str(),
            ),
            ProjectError::IoError(d) => String::from_str("IO-Fehler: ").concat(d.as_str()),
            ProjectError::ParseError(d) => String::from_str("Parsing-Fehler: ").concat(
                d.as_str(),
            ),
        }
    }
}

/// Two errors are the same when they are the same variant carrying the same
/// detail text.
pub open spec fn error_eq_spec(a: ProjectError, b: ProjectError) -> bool {
    match (a, b) {
        (ProjectError::DivisionByZero, ProjectError::DivisionByZero) => true,
        (ProjectError::OverflowError(x), ProjectError::OverflowError(y)) => x@ == y@,
        (ProjectError::InvalidInput(x), ProjectError::InvalidInput(y)) => x@ == y@,
        (ProjectError::IoError(x), ProjectError::IoError(y)) => x@ == y@,
        (ProjectError::ParseError(x), ProjectError::ParseError(y)) => x@ == y@,
        _ => false,
    }
}

impl PartialEq for ProjectError {
    fn eq(&self, other: &Self) -> (r: bool) {
        match (self, other) {
            (ProjectError::DivisionByZero, ProjectError::DivisionByZero) => true,
            (ProjectError::OverflowError(x), ProjectError::OverflowError(y)) => *x == *y,
            (ProjectError::InvalidInput(x), ProjectError::InvalidInput(y)) => *x == *y,
            (ProjectError::IoError(x), ProjectError::IoError(y)) => *x == *y,
            (ProjectError::ParseError(x), ProjectError::ParseError(y)) => *x == *y,
            _ => false,
        }
    }
}

impl vstd::std_specs::cmp::PartialEqSpecImpl for ProjectError {
    open spec fn obeys_eq_spec() -> bool {
        true
    }

    open spec fn eq_spec(&self, other: &Self) -> bool {
        error_eq_spec(*self, *other)
    }
}

/// Declares `std::io::Error` so conversions can take it; the value stays
/// opaque and only its `Display` text is used.
#[verifier::external_type_specification]
#[verifier::external_body]
pub struct ExIoError(std::io::Error);

/// Declares `std::num::ParseIntError` so conversions can take it; the value
/// stays opaque and only its `Display` text is used.
#[verifier::external_type_specification]
#[verifier::external_body]
pub struct ExParseIntError(std::num::ParseIntError);

/// Declares `std::num::ParseFloatError` so conversions can take it; the
/// value stays opaque and only its `Display` text is used.
#[verifier::external_type_specification]
#[verifier::external_body]
pub struct ExParseFloatError(std::num::ParseFloatError);

impl From<std::io::Error> for ProjectError {
    fn from(error: std::io::Error) -> Self {
        ProjectError::IoError(error.to_string())
    }
}

impl vstd::std_specs::convert::FromSpecImpl<std::io::Error> for ProjectError {
    open spec fn obeys_from_spec() -> bool {
        false
    }

    open spec fn from_spec(error: std::io::Error) -> Self {
        ProjectError::DivisionByZero
    }
}

impl From<std::num::ParseIntError> for ProjectError {
    fn from(error: std::num::ParseIntError) -> Self {
        ProjectError::ParseError(error.to_string())
    }
}

impl vstd::std_specs::convert::FromSpecImpl<std::num::ParseIntError> for ProjectError {
    open spec fn obeys_from_spec() -> bool {
        false
    }

    open spec fn from_spec(error: std::num::ParseIntError) -> Self {
        ProjectError::DivisionByZero
    }
}

impl From<std::num::ParseFloatError> for ProjectError {
    fn from(error: std::num::ParseFloatError) -> Self {
        ProjectError::ParseError(error.to_string())
    }
}

impl vstd::std_specs::convert::FromSpecImpl<std::num::ParseFloatError> for ProjectError {
    open spec fn obeys_from_spec() -> bool {
        false
    }

    open spec fn from_spec(error: std::num::ParseFloatError) -> Self {
        ProjectError::DivisionByZero
    }
}

} // verus!
