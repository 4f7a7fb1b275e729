//! Prefix-free binary encoding that preserves the lexicographic order of values,
//! for keys and values of ordered key-value stores.
//!
//! Content goes forward from the start of a buffer of exactly known size;
//! lengths of variable-size content go backward from its end. No escaping is
//! needed, comparing encoded bytes compares the values (ascending order) or
//! reverses that (descending order), and the exact size of an encoding is
//! known before writing it.
use vstd::prelude::*;

pub mod errors;
pub mod params;
pub mod buf;
pub mod primitives;
pub mod varint;
pub mod token;
pub mod ser;
pub mod de;
pub mod order;

pub use errors::Error;
pub use params::{EncodingParams, Endianness, Order};
pub use buf::{DeBytesReader, DeBytesWriter};
pub use token::Token;
pub use ser::{
    calc_size, new_ser_asc, ser_to_buf_asc_exact, ser_to_buf_ordered, ser_to_vec_ordered,
    Serializer,
};
pub use de::{de_from_bytes_asc, de_from_bytes_ordered, new_de_asc, Deserializer, TokenKind};

verus! {

/// The version of the data format that a serializer or deserializer speaks.
pub trait FormatVersion {
    fn format_version(&self) -> (r: u32)
        ensures
            r == FORMAT_VERSION,
    ;
}

/// The current version of the data format.
pub const FORMAT_VERSION: u32 = 1;

impl FormatVersion for Serializer {
    fn format_version(&self) -> (r: u32) {
        FORMAT_VERSION
    }
}

impl FormatVersion for Deserializer {
    fn format_version(&self) -> (r: u32) {
        FORMAT_VERSION
    }
}

} // verus!
