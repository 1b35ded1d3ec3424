//! The errors of the scripture domain.
use vstd::prelude::*;

verus! {

/// What can go wrong when reading or resolving scripture.
#[derive(Debug)]
pub enum ScriptureError {
    /// The coordinate was not found.
    NotFound,
    /// A source text could not be parsed; the message says where.
    ParseError(String),
    /// A cryptographic signature did not match.
    IntegrityError,
}

impl ScriptureError {
    /// The human-readable message of the error.
    pub fn message(&self) -> (m: String)
        ensures
            m@ == match self {
                ScriptureError::NotFound => "Coordinate not found in FSI"@,
                ScriptureError::ParseError(s) => "Parsing error: "@ + s@,
                ScriptureError::IntegrityError => "Cryptographic mismatch in Merkle Tree"@,
            },
    {
        match self {
            ScriptureError::NotFound => String::from_str("Coordinate not found in FSI"),
            ScriptureError::ParseError(s) => {
                let mut m = String::from_str("Parsing error: ");
                m.append(s.as_str());
                m
            },
            ScriptureError::IntegrityError => String::from_str("Cryptographic mismatch in Merkle Tree"),
        }
    }
}

} // verus!
