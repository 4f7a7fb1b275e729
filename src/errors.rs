use vstd::prelude::*;

verus! {

/// Errors of encoding and decoding.
#[derive(Debug, Clone, PartialEq, Eq)]
#[non_exhaustive]
pub enum Error {
    /// A message reported by an outside traversal framework; never produced by this library.
    Serde(String),
    SerializeSequenceMustHaveLength,
    BufferOverflow,
    BufferUnderflow,
    PrematureEndOfInput,
    InvalidByteSequenceEscape,
    DeserializeAnyNotSupported,
    DeserializeIdentifierNotSupported,
    DeserializeIgnoredAny,
    InvalidUtf8Encoding,
    InvalidTagEncoding,
    InvalidVarintEncoding,
}

/// The human-readable description of each error kind.
pub open spec fn error_text(e: Error) -> Seq<char> {
    match e {
        Error::Serde(_) => "serde custom error"@,
        Error::SerializeSequenceMustHaveLength => "serialized sequence must have length"@,
        Error::BufferOverflow => "serialized data buffer overflow"@,
        Error::BufferUnderflow => "serialized data buffer underflow"@,
        Error::PrematureEndOfInput => "premature end of input"@,
        Error::InvalidByteSequenceEscape => "invalid byte sequence escaping"@,
        Error::DeserializeAnyNotSupported => "deserialize to any type not supported"@,
        Error::DeserializeIdentifierNotSupported => "deserialize of identifiers not supported"@,
        Error::DeserializeIgnoredAny => "deserialize of ignored any not supported"@,
        Error::InvalidUtf8Encoding => "invalid UTF-8 encoding"@,
        Error::InvalidTagEncoding => "invalid encoding for enum tag"@,
        Error::InvalidVarintEncoding => "invalid varint encoding"@,
    }
}

impl Error {
    /// Describes the error in words.
    pub fn descr(&self) -> (r: &'static str)
        ensures
            r@ == error_text(*self),
    {
        match self {
            Error::Serde(_) => "serde custom error",
            Error::SerializeSequenceMustHaveLength => "serialized sequence must have length",
            Error::BufferOverflow => "serialized data buffer overflow",
            Error::BufferUnderflow => "serialized data buffer underflow",
            Error::PrematureEndOfInput => "premature end of input",
            Error::InvalidByteSequenceEscape => "invalid byte sequence escaping",
            Error::DeserializeAnyNotSupported => "deserialize to any type not supported",
            Error::DeserializeIdentifierNotSupported => "deserialize of identifiers not supported",
            Error::DeserializeIgnoredAny => "deserialize of ignored any not supported",
            Error::InvalidUtf8Encoding => "invalid UTF-8 encoding",
            Error::InvalidTagEncoding => "invalid encoding for enum tag",
            Error::InvalidVarintEncoding => "invalid varint encoding",
        }
    }

    /// The description as an owned string, for display.
    pub fn to_string(&self) -> (r: String)
        ensures
            r@ == error_text(*self),
    {
        self.descr().to_string()
    }
}

} // verus!
