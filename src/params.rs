use vstd::prelude::*;

verus! {

/// The order that comparing encoded bytes follows.
#[derive(Debug, Clone, Copy, PartialEq, Eq, Structural)]
pub enum Order {
    /// Byte comparison matches the order of values.
    Ascending,
    /// Byte comparison is the reverse of the order of values.
    Descending,
    /// No ordering guarantee.
    Unordered,
}

/// Byte layout of fixed-width integers.
#[derive(Debug, Clone, Copy, PartialEq, Eq, Structural)]
pub enum Endianness {
    Little,
    Big,
}

/// An immutable encoding configuration, passed to every operation.
#[derive(Debug, Clone, Copy, PartialEq, Eq, Structural)]
pub struct EncodingParams {
    pub endianness: Endianness,
    pub order: Order,
}

/// The ascending, big-endian configuration.
pub open spec fn ascending_params() -> EncodingParams {
    EncodingParams { endianness: Endianness::Big, order: Order::Ascending }
}

/// The descending, big-endian configuration.
pub open spec fn descending_params() -> EncodingParams {
    EncodingParams { endianness: Endianness::Big, order: Order::Descending }
}

/// Order-preserving preset: big-endian, ascending.
pub fn ascending_order() -> (r: EncodingParams)
    ensures
        r == (EncodingParams { endianness: Endianness::Big, order: Order::Ascending }),
{
    EncodingParams { endianness: Endianness::Big, order: Order::Ascending }
}

/// Order-preserving preset: big-endian, descending.
pub fn descending_order() -> (r: EncodingParams)
    ensures
        r == (EncodingParams { endianness: Endianness::Big, order: Order::Descending }),
{
    EncodingParams { endianness: Endianness::Big, order: Order::Descending }
}

/// Portable preset without ordering: little-endian, unordered.
pub fn portable_binary() -> (r: EncodingParams)
    ensures
        r == (EncodingParams { endianness: Endianness::Little, order: Order::Unordered }),
{
    EncodingParams { endianness: Endianness::Little, order: Order::Unordered }
}

} // verus!
