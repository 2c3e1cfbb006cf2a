//! Why reading a value back from bytes, or moving a buffer elsewhere, failed.
use vstd::prelude::*;

verus! {

/// What went wrong while reading a value back from bytes.
#[derive(Debug)]
pub enum SerializeError {
    /// Fewer bytes remain than the value needs.
    TruncatedInput,
    /// A discriminant names no known variant or optional state.
    InvalidDiscriminant,
    /// The payload bytes do not represent a value of the target type.
    InvalidEncoding,
    /// Reading or writing the whole buffer elsewhere failed.
    IOError(std::io::Error),
}

/// The standard library's I/O error, carried unchanged in `SerializeError::IOError`.
#[verifier::external_type_specification]
#[verifier::external_body]
pub struct ExIoError(std::io::Error);

impl From<std::io::Error> for SerializeError {
    fn from(e: std::io::Error) -> (r: SerializeError) {
        SerializeError::IOError(e)
    }
}

impl vstd::std_specs::convert::FromSpecImpl<std::io::Error> for SerializeError {
    open spec fn obeys_from_spec() -> bool {
        true
    }

    open spec fn from_spec(e: std::io::Error) -> SerializeError {
        SerializeError::IOError(e)
    }
}

} // verus!
