use vstd::prelude::*;

verus! {

/// Errors from the write/validation path.
///
/// The printer is total and never raises one of these; they are an extension
/// point for a future validating writer.
#[derive(Debug)]
pub enum SerializeError {
    /// A value has a type that cannot be serialized to JSON.
    InvalidType(String),
    /// A value cannot be represented in JSON.
    InvalidValue(String),
    /// The structure of the data is not valid for JSON serialization.
    InvalidStructure(String),
}

/// Errors from the read path.
///
/// `parse` only ever produces `InvalidJson`; the other variants are reserved
/// for a higher-level structured-deserialization layer.
#[derive(Debug)]
pub enum DeserializeError {
    /// The text violates the JSON grammar; the payload describes how.
    InvalidJson(String),
    /// A required field is missing from a JSON object.
    MissingField(String),
    /// A value has a different type than expected.
    TypeMismatch(String),
    /// A value is not valid in its context.
    InvalidValue(String),
}

} // verus!
