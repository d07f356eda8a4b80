use vstd::prelude::*;

verus! {

/// An error met while serializing or deserializing a value.
#[derive(Debug, PartialEq, Eq)]
pub enum SavefileError {
    /// The schema stored with the data differs from the schema in memory.
    IncompatibleSchema { message: String },
    /// The byte source ended before the value did.
    IOError { message: String },
    /// A string payload was not valid UTF-8.
    InvalidUtf8 { msg: String },
    /// A buffer for a bulk copy could not be obtained.
    OutOfMemory { message: String },
    /// The memory layout requested for a bulk allocation could not be formed.
    MemoryAllocationLayoutError,
    /// A fixed-capacity buffer would overflow.
    ArrayvecCapacityError { msg: String },
    /// The stream holds a tag or discriminant that no known shape has.
    CorruptData { message: String },
    /// A field's version range is not allowed, such as a removed field that
    /// never stops existing.
    InvalidVersionRange { message: String },
    /// A cross-binary call could not be carried out.
    Protocol { message: String },
}

} // verus!
