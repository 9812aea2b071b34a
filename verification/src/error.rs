//! The library's error type.
//!
//! Extraction and classification never fail: malformed input degrades to
//! "no keys" or "unclassified".  The one error the library's callers meet
//! is an input/output failure raised by the surrounding program.

use vstd::prelude::*;

verus! {

/// Declares the standard I/O error type so that it can stand in a field.
/// Relies on `std::io::Error` only as an opaque value to carry.
#[verifier::external_type_specification]
#[verifier::external_body]
pub struct ExIoError(std::io::Error);

/// Crate errors.
#[derive(Debug)]
pub enum InspirerError {
    Io(std::io::Error),
    __Nonexhaustive,
}

impl InspirerError {
    /// A short description of the error.
    pub fn message(&self) -> (r: String)
        requires
            !(self is __Nonexhaustive),
        ensures
            r@ == "IO Error"@,
    {
        match self {
            InspirerError::Io(_) => "IO Error".to_owned(),
            InspirerError::__Nonexhaustive => {
                proof {
                    assert(false);
                }
                String::new()
            },
        }
    }
}

} // verus!
