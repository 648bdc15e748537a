//! Error kinds of the registry and the protocol codecs.

use vstd::prelude::*;

verus! {

/// What can go wrong when registering parameters, decoding tokens, or
/// reading the simulator's output.
#[derive(Debug)]
pub enum Error {
    /// A range over strings was requested.
    StringRange,
    /// Range endpoints of mixed or unsupported kinds; holds a description.
    InvalidType(String),
    /// A parameter with this name is already registered; holds the name.
    ArgumentAlreadyExists(String),
    /// A token did not have the `name U+00A7 kind U+00A7 value` shape or its
    /// kind is unknown; holds the token.
    InvalidParamTypeStr(String),
    /// The integer portion of a token was malformed.
    ParseInt,
    /// The decimal portion of a token was malformed.
    ParseFloat,
    /// The simulator exited with a failure.
    MeasurementFailure,
    /// The simulator's output file was missing an expected line or event.
    ParseOutput,
}

} // verus!
