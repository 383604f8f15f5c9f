//! The crate error type.

use vstd::prelude::*;
use crate::text::concat;

verus! {

#[verifier::external_type_specification]
#[verifier::external_body]
pub struct ExIoError(std::io::Error);

/// Errors raised by petekTools.
///
/// The numeric surface is narrow (bad inputs, degenerate geometry); the
/// container adds I/O, corrupt-data and missing-section errors; the formula
/// language reports parse errors and invalid arguments.
#[derive(Debug)]
#[non_exhaustive]
pub enum AlgoError {
    /// A kernel was handed no data to work with.
    EmptyInput(&'static str),
    /// The target lattice is degenerate (e.g. zero node spacing).
    InvalidGeometry(&'static str),
    /// A parameter or range argument was invalid.
    InvalidArgument(String),
    /// Underlying I/O failure.
    Io(std::io::Error),
    /// A byte stream or a text could not be parsed.
    Parse(String),
    /// A named item (e.g. a container section) was not found.
    NotFound(String),
}

/// The text of an I/O error, as its `Display` writes it. The text comes
/// from the operating system for OS errors, so nothing is stated of it.
#[verifier::external_body]
fn io_text(e: &std::io::Error) -> (r: String) {
    e.to_string()
}

impl AlgoError {
    /// The error's message: a prefix naming the kind of failure, then the
    /// detail.
    pub fn message(&self) -> (r: String)
        ensures
            match self {
                AlgoError::EmptyInput(d) => r@ == "empty input: "@ + d@,
                AlgoError::InvalidGeometry(d) => r@ == "invalid geometry: "@ + d@,
                AlgoError::InvalidArgument(d) => r@ == "invalid argument: "@ + d@,
                AlgoError::Io(_) => exists|d: Seq<char>| r@ == "I/O error: "@ + d,
                AlgoError::Parse(d) => r@ == "parse error: "@ + d@,
                AlgoError::NotFound(d) => r@ == "not found: "@ + d@,
            },
    {
        match self {
            AlgoError::EmptyInput(d) => concat("empty input: ", d),
            AlgoError::InvalidGeometry(d) => concat("invalid geometry: ", d),
            AlgoError::InvalidArgument(d) => concat("invalid argument: ", d.as_str()),
            AlgoError::Io(e) => {
                let t = io_text(e);
                let r = concat("I/O error: ", t.as_str());
                assert(r@ == "I/O error: "@ + t@);
                r
            },
            AlgoError::Parse(d) => concat("parse error: ", d.as_str()),
            AlgoError::NotFound(d) => concat("not found: ", d.as_str()),
        }
    }
}

} // verus!
