//! The events of a depth-first walk over a composite value, and the bytes
//! that each of them puts at the head and at the tail of a buffer.
//!
//! A value is presented as the sequence of its events: scalars in place,
//! strings and byte strings with their content, an option as its presence
//! flag followed (when present) by the inner value's events, a sequence or
//! map as its element count followed by its elements (each key then value),
//! a tuple or struct as its fields in order, and an enum as its discriminant
//! followed by its payload.
use vstd::prelude::*;
use crate::params::EncodingParams;
use crate::primitives::{
    apply_order, lemma_order_involution, lemma_pow256_values, signed_key, uint_bytes,
    uint_round_trip,
};
use crate::varint::{raw_stream, varint_bytes, varint_stored};

verus! {

/// One event of the walk over a value.
#[derive(Debug, Clone, PartialEq, Eq)]
pub enum Token {
    Bool(bool),
    U8(u8),
    U16(u16),
    U32(u32),
    U64(u64),
    U128(u128),
    I8(i8),
    I16(i16),
    I32(i32),
    I64(i64),
    I128(i128),
    Char(char),
    /// A byte string.
    Bytes(Vec<u8>),
    /// A text string, as its UTF-8 bytes.
    Str(Vec<u8>),
    /// An absent option.
    OptionNone,
    /// A present option; the inner value's events follow.
    OptionSome,
    /// A sequence or map of this many elements; the elements follow.
    SeqLen(u64),
    /// An enum variant by discriminant; the payload's events follow.
    Variant(u32),
}

/// What a token puts at the head.
pub open spec fn token_head(t: Token, p: EncodingParams) -> Seq<u8> {
    match t {
        Token::Bool(b) => uint_bytes(p, if b { 1 } else { 0 }, 1),
        Token::U8(v) => uint_bytes(p, v as nat, 1),
        Token::U16(v) => uint_bytes(p, v as nat, 2),
        Token::U32(v) => uint_bytes(p, v as nat, 4),
        Token::U64(v) => uint_bytes(p, v as nat, 8),
        Token::U128(v) => uint_bytes(p, v as nat, 16),
        Token::I8(v) => uint_bytes(p, signed_key(v as int, 1), 1),
        Token::I16(v) => uint_bytes(p, signed_key(v as int, 2), 2),
        Token::I32(v) => uint_bytes(p, signed_key(v as int, 4), 4),
        Token::I64(v) => uint_bytes(p, signed_key(v as int, 8), 8),
        Token::I128(v) => uint_bytes(p, signed_key(v as int, 16), 16),
        Token::Char(c) => uint_bytes(p, c as u32 as nat, 4),
        Token::Bytes(b) => apply_order(p.order, b@),
        Token::Str(b) => apply_order(p.order, b@),
        Token::OptionNone => uint_bytes(p, 0, 1),
        Token::OptionSome => uint_bytes(p, 1, 1),
        Token::SeqLen(_) => Seq::empty(),
        Token::Variant(d) => varint_stored(p, d as nat, false),
    }
}

/// What a token puts before the tail: the length or count, if any.
pub open spec fn token_tail(t: Token, p: EncodingParams) -> Seq<u8> {
    match t {
        Token::Bytes(b) => varint_stored(p, b@.len(), true),
        Token::Str(b) => varint_stored(p, b@.len(), true),
        Token::SeqLen(n) => varint_stored(p, n as nat, true),
        _ => Seq::empty(),
    }
}

/// The number of bytes a token takes, whatever the configuration.
pub open spec fn token_size(t: Token) -> nat {
    match t {
        Token::Bool(_) | Token::U8(_) | Token::I8(_) | Token::OptionNone | Token::OptionSome => 1,
        Token::U16(_) | Token::I16(_) => 2,
        Token::U32(_) | Token::I32(_) | Token::Char(_) => 4,
        Token::U64(_) | Token::I64(_) => 8,
        Token::U128(_) | Token::I128(_) => 16,
        Token::Bytes(b) => b@.len() + varint_bytes(b@.len()).len(),
        Token::Str(b) => b@.len() + varint_bytes(b@.len()).len(),
        Token::SeqLen(n) => varint_bytes(n as nat).len(),
        Token::Variant(d) => varint_bytes(d as nat).len(),
    }
}

/// Head content of a token sequence, in order.
pub open spec fn heads(ts: Seq<Token>, p: EncodingParams) -> Seq<u8>
    decreases ts.len(),
{
    if ts.len() == 0 {
        Seq::empty()
    } else {
        heads(ts.drop_last(), p) + token_head(ts.last(), p)
    }
}

/// Tail metadata of a token sequence: the latest token's first.
pub open spec fn tails(ts: Seq<Token>, p: EncodingParams) -> Seq<u8>
    decreases ts.len(),
{
    if ts.len() == 0 {
        Seq::empty()
    } else {
        token_tail(ts.last(), p) + tails(ts.drop_last(), p)
    }
}

/// The complete encoding of a token sequence: head content, then tail metadata.
pub open spec fn encoding(ts: Seq<Token>, p: EncodingParams) -> Seq<u8> {
    heads(ts, p) + tails(ts, p)
}

/// The sum of the sizes of the tokens.
pub open spec fn total_size(ts: Seq<Token>) -> nat
    decreases ts.len(),
{
    if ts.len() == 0 {
        0
    } else {
        total_size(ts.drop_last()) + token_size(ts.last())
    }
}

/// Head and tail together take exactly the token's size.
pub proof fn lemma_token_len(t: Token, p: EncodingParams)
    ensures
        token_head(t, p).len() + token_tail(t, p).len() == token_size(t),
{
    lemma_pow256_values();
    match t {
        Token::Bool(b) => uint_round_trip(p, if b { 1 } else { 0 }, 1),
        Token::U8(v) => uint_round_trip(p, v as nat, 1),
        Token::U16(v) => uint_round_trip(p, v as nat, 2),
        Token::U32(v) => uint_round_trip(p, v as nat, 4),
        Token::U64(v) => uint_round_trip(p, v as nat, 8),
        Token::U128(v) => uint_round_trip(p, v as nat, 16),
        Token::I8(v) => uint_round_trip(p, signed_key(v as int, 1), 1),
        Token::I16(v) => uint_round_trip(p, signed_key(v as int, 2), 2),
        Token::I32(v) => uint_round_trip(p, signed_key(v as int, 4), 4),
        Token::I64(v) => uint_round_trip(p, signed_key(v as int, 8), 8),
        Token::I128(v) => uint_round_trip(p, signed_key(v as int, 16), 16),
        Token::Char(c) => uint_round_trip(p, c as u32 as nat, 4),
        Token::Bytes(b) => {
            lemma_order_involution(p.order, b@);
            lemma_order_involution(p.order, raw_stream(true, varint_bytes(b@.len())));
        },
        Token::Str(b) => {
            lemma_order_involution(p.order, b@);
            lemma_order_involution(p.order, raw_stream(true, varint_bytes(b@.len())));
        },
        Token::OptionNone => uint_round_trip(p, 0, 1),
        Token::OptionSome => uint_round_trip(p, 1, 1),
        Token::SeqLen(n) => {
            lemma_order_involution(p.order, raw_stream(true, varint_bytes(n as nat)));
        },
        Token::Variant(d) => {
            lemma_order_involution(p.order, raw_stream(false, varint_bytes(d as nat)));
        },
    }
}

/// The encoding of a token sequence takes exactly the sum of the token sizes.
pub proof fn size_exact(ts: Seq<Token>, p: EncodingParams)
    ensures
        encoding(ts, p).len() == total_size(ts),
    decreases ts.len(),
{
    if ts.len() > 0 {
        size_exact(ts.drop_last(), p);
        lemma_token_len(ts.last(), p);
    }
}

/// A prefix of a token sequence takes no more than the whole.
pub proof fn lemma_total_size_prefix(ts: Seq<Token>, i: int)
    requires
        0 <= i <= ts.len(),
    ensures
        total_size(ts.take(i)) <= total_size(ts),
    decreases ts.len(),
{
    if i < ts.len() {
        assert(ts.drop_last().take(i) =~= ts.take(i));
        lemma_total_size_prefix(ts.drop_last(), i);
    } else {
        assert(ts.take(i) =~= ts);
    }
}

/// Splitting off the first token: its head comes first and its tail last.
pub proof fn lemma_split_first(ts: Seq<Token>, p: EncodingParams)
    requires
        ts.len() > 0,
    ensures
        heads(ts, p) == token_head(ts[0], p) + heads(ts.drop_first(), p),
        tails(ts, p) == tails(ts.drop_first(), p) + token_tail(ts[0], p),
        total_size(ts) == token_size(ts[0]) + total_size(ts.drop_first()),
    decreases ts.len(),
{
    if ts.len() == 1 {
        assert(ts.drop_last() =~= Seq::<Token>::empty());
        assert(ts.drop_first() =~= Seq::<Token>::empty());
        assert(heads(ts.drop_last(), p) == Seq::<u8>::empty());
        assert(tails(ts.drop_last(), p) == Seq::<u8>::empty());
        assert(heads(ts.drop_first(), p) == Seq::<u8>::empty());
        assert(tails(ts.drop_first(), p) == Seq::<u8>::empty());
        assert(ts.last() == ts[0]);
        assert(heads(ts, p) =~= token_head(ts[0], p) + Seq::<u8>::empty());
        assert(tails(ts, p) =~= Seq::<u8>::empty() + token_tail(ts[0], p));
    } else {
        let init = ts.drop_last();
        lemma_split_first(init, p);
        assert(init.drop_first() =~= ts.drop_first().drop_last());
        assert(ts.drop_first().last() == ts.last());
        assert(heads(ts, p) =~= token_head(ts[0], p) + heads(ts.drop_first(), p));
        assert(tails(ts, p) =~= tails(ts.drop_first(), p) + token_tail(ts[0], p));
    }
}

} // verus!
