use vstd::prelude::*;

verus! {

/// The error kinds of the library. Each variant carries the offending value
/// (or a short description of it) so that a caller can diagnose the failure.
#[derive(Debug)]
pub enum OuiError {
    /// The backing file or resource cannot be read.
    SourceUnavailable(String),
    /// A row's address-block field cannot be parsed into a value plus mask.
    MalformedBlockNotation(String),
    /// The parsed mask lies outside `[8, 48]`.
    InvalidMask(String),
    /// The input does not decode into the expected row structure at all.
    TableSchemaMismatch(String),
    /// Internal failure converting a validated MAC byte sequence to an
    /// integer; unreachable through this library's own entry points.
    EncodingError(String),
    /// A caller-supplied MAC address string is not a valid address literal.
    AddressParseError(String),
}

impl OuiError {
    /// The offending value carried by the error.
    pub fn context(&self) -> (r: &String)
        ensures
            r == match self {
                OuiError::SourceUnavailable(s) => s,
                OuiError::MalformedBlockNotation(s) => s,
                OuiError::InvalidMask(s) => s,
                OuiError::TableSchemaMismatch(s) => s,
                OuiError::EncodingError(s) => s,
                OuiError::AddressParseError(s) => s,
            },
    {
        match self {
            OuiError::SourceUnavailable(s) => s,
            OuiError::MalformedBlockNotation(s) => s,
            OuiError::InvalidMask(s) => s,
            OuiError::TableSchemaMismatch(s) => s,
            OuiError::EncodingError(s) => s,
            OuiError::AddressParseError(s) => s,
        }
    }
}

} // verus!
