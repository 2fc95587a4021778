//! Errors raised while rendering.
use vstd::prelude::*;

verus! {

/// `std::fmt::Error`, the failure a formatter reports; carried through, never inspected.
#[verifier::external_type_specification]
#[verifier::external_body]
pub struct ExFmtError(std::fmt::Error);

/// Errors raised while rendering.
#[derive(Debug)]
pub enum Error {
    /// The descriptor referenced an expression the bindings do not provide.
    UnknownExpression {
        /// Index the descriptor asked for.
        index: usize,
        /// How many expressions the bindings actually provide.
        available: usize,
    },
    /// Writing into the sink failed.
    Write(std::fmt::Error),
}

} // verus!
