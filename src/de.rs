//! The structured deserializer: reads back the tokens of a value whose shape
//! the caller knows.
use vstd::prelude::*;
use crate::buf::DeBytesReader;
use vstd::utf8::valid_utf8;
use crate::errors::Error;
use crate::params::{ascending_order, EncodingParams, Endianness, Order};
use crate::primitives::{
    apply_order, deserialize_char, deserialize_i16, deserialize_i32,
    deserialize_i64, deserialize_i8, deserialize_i128, deserialize_u128, deserialize_u16, deserialize_u32, deserialize_u64,
    deserialize_u8, invert_buffer, lemma_order_involution, lemma_pow256_values, pow256,
    signed_key, uint_bytes, uint_bytes_of_value, uint_round_trip, uint_value,
    lemma_uint_value_bound, is_scalar,
};
use crate::token::{encoding, heads, lemma_split_first, tails, token_head, token_tail, Token};
use crate::params::ascending_params;
use crate::varint::{
    consume, lemma_parse_sound, raw_stream, read_varint, MAX_VARINT_LEN, varint_bytes, varint_decode, varint_round_trip,
    varint_stored,
};

verus! {

/// The shape of the next token that the caller expects.
#[derive(Debug, Clone, Copy, PartialEq, Eq, Structural)]
pub enum TokenKind {
    Bool,
    U8,
    U16,
    U32,
    U64,
    U128,
    I8,
    I16,
    I32,
    I64,
    I128,
    Char,
    Bytes,
    Str,
    /// An option's presence flag.
    Option,
    /// The element count of a sequence or map.
    SeqLen,
    /// An enum discriminant, below the given number of variants.
    Variant(u32),
}

/// Relies on core::str::from_utf8: it accepts exactly the well-formed UTF-8
/// byte strings.
#[verifier::external_body]
fn check_utf8(b: &[u8]) -> (r: bool)
    ensures
        r == valid_utf8(b@),
{
    core::str::from_utf8(b).is_ok()
}

/// Token `t` has shape `k` and is well-formed: strings are UTF-8, byte
/// strings fit memory, discriminants are in range.
pub open spec fn token_fits(t: Token, k: TokenKind) -> bool {
    match (t, k) {
        (Token::Bool(_), TokenKind::Bool) => true,
        (Token::U8(_), TokenKind::U8) => true,
        (Token::U16(_), TokenKind::U16) => true,
        (Token::U32(_), TokenKind::U32) => true,
        (Token::U64(_), TokenKind::U64) => true,
        (Token::U128(_), TokenKind::U128) => true,
        (Token::I8(_), TokenKind::I8) => true,
        (Token::I16(_), TokenKind::I16) => true,
        (Token::I32(_), TokenKind::I32) => true,
        (Token::I64(_), TokenKind::I64) => true,
        (Token::I128(_), TokenKind::I128) => true,
        (Token::Char(_), TokenKind::Char) => true,
        (Token::Bytes(b), TokenKind::Bytes) => b@.len() <= usize::MAX,
        (Token::Str(b), TokenKind::Str) => b@.len() <= usize::MAX && valid_utf8(b@),
        (Token::OptionNone, TokenKind::Option) => true,
        (Token::OptionSome, TokenKind::Option) => true,
        (Token::SeqLen(_), TokenKind::SeqLen) => true,
        (Token::Variant(d), TokenKind::Variant(n)) => d < n,
        _ => false,
    }
}

/// The same token, byte strings compared by content.
pub open spec fn same_token(a: Token, b: Token) -> bool {
    match (a, b) {
        (Token::Bytes(x), Token::Bytes(y)) => x@ == y@,
        (Token::Str(x), Token::Str(y)) => x@ == y@,
        (Token::Char(x), Token::Char(y)) => x as u32 == y as u32,
        (Token::Bytes(_), _) => false,
        (Token::Str(_), _) => false,
        _ => a == b,
    }
}

/// A token's bytes around what lies between its head content and its tail metadata.
pub open spec fn framed(t: Token, mid: Seq<u8>, p: EncodingParams) -> Seq<u8> {
    token_head(t, p) + mid + token_tail(t, p)
}

proof fn lemma_fixed_frame(p: EncodingParams, x: nat, n: nat, mid: Seq<u8>, rem: Seq<u8>)
    requires
        x < pow256(n),
        rem == uint_bytes(p, x, n) + mid + Seq::<u8>::empty(),
    ensures
        n <= rem.len(),
        uint_value(p, rem.take(n as int)) == x,
        rem.skip(n as int) == mid,
{
    uint_round_trip(p, x, n);
    lemma_pow256_values();
    assert(rem.take(n as int) =~= uint_bytes(p, x, n));
    assert(rem.skip(n as int) =~= mid);
}

proof fn lemma_order_concat(o: Order, a: Seq<u8>, b: Seq<u8>)
    ensures
        apply_order(o, a + b) == apply_order(o, a) + apply_order(o, b),
        apply_order(o, a.reverse()) == apply_order(o, a).reverse(),
{
    assert(apply_order(o, a + b) =~= apply_order(o, a) + apply_order(o, b));
    assert(apply_order(o, a.reverse()) =~= apply_order(o, a).reverse());
}

/// Reading a varint from the tail of `h + mid + varint_stored(v)` gives `v`
/// and leaves `h + mid`.
proof fn lemma_tail_varint(p: EncodingParams, v: nat, hm: Seq<u8>, rem: Seq<u8>)
    requires
        v < 0x1_0000_0000_0000_0000,
        rem == hm + varint_stored(p, v, true),
    ensures
        varint_decode(apply_order(p.order, raw_stream(true, rem))) == Ok::<(nat, nat), Error>(
            (v, varint_bytes(v).len()),
        ),
        consume(true, rem, varint_bytes(v).len()) == hm,
{
    let vb = varint_bytes(v);
    lemma_order_involution(p.order, vb.reverse());
    lemma_order_concat(p.order, vb.reverse(), hm.reverse());
    lemma_order_concat(p.order, vb, Seq::<u8>::empty());
    assert(rem.reverse() =~= apply_order(p.order, vb.reverse()).reverse() + hm.reverse());
    lemma_order_concat(p.order, vb.reverse(), Seq::<u8>::empty());
    assert(vb.reverse().reverse() =~= vb);
    lemma_order_concat(p.order, apply_order(p.order, vb.reverse()).reverse(), hm.reverse());
    lemma_order_involution(p.order, vb);
    assert(apply_order(p.order, apply_order(p.order, vb.reverse()).reverse()) =~= vb) by {
        lemma_order_concat(p.order, apply_order(p.order, vb.reverse()), Seq::<u8>::empty());
        lemma_order_concat(p.order, vb.reverse(), Seq::<u8>::empty());
        assert(apply_order(p.order, vb.reverse()).reverse() =~= apply_order(p.order, vb));
    }
    varint_round_trip(v, apply_order(p.order, hm.reverse()));
    assert(consume(true, rem, vb.len()) =~= hm);
}

/// Reading a varint from the head of `varint_stored(v) + rest` gives `v` and
/// leaves `rest`.
proof fn lemma_head_varint(p: EncodingParams, v: nat, rest: Seq<u8>, rem: Seq<u8>)
    requires
        v < 0x1_0000_0000_0000_0000,
        rem == varint_stored(p, v, false) + rest,
    ensures
        varint_decode(apply_order(p.order, raw_stream(false, rem))) == Ok::<(nat, nat), Error>(
            (v, varint_bytes(v).len()),
        ),
        consume(false, rem, varint_bytes(v).len()) == rest,
{
    let vb = varint_bytes(v);
    lemma_order_concat(p.order, apply_order(p.order, vb), rest);
    lemma_order_involution(p.order, vb);
    varint_round_trip(v, apply_order(p.order, rest));
    lemma_order_involution(p.order, vb);
    assert(consume(false, rem, vb.len()) =~= rest);
}

/// Consumes `n` content bytes at the head, undoing the order's inversion.
fn read_content(r: &mut DeBytesReader, n: usize, p: EncodingParams) -> (res: Result<Vec<u8>, Error>)
    requires
        old(r).wf(),
    ensures
        final(r).wf(),
        match res {
            Ok(b) => n <= old(r).remaining().len() && b@ == apply_order(
                p.order,
                old(r).remaining().take(n as int),
            ) && final(r).remaining() == old(r).remaining().skip(n as int),
            Err(e) => n > old(r).remaining().len() && e == Error::PrematureEndOfInput,
        },
{
    let mut b = r.read(n)?;
    if p.order == Order::Descending {
        invert_buffer(&mut b);
    }
    Ok(b)
}

/// The deserializer: a reader and the configuration it decodes with.
pub struct Deserializer {
    pub reader: DeBytesReader,
    pub params: EncodingParams,
}

/// A deserializer with the ascending-order configuration.
pub fn new_de_asc(reader: DeBytesReader) -> (r: Deserializer)
    ensures
        r.reader == reader,
        r.params == (EncodingParams { endianness: Endianness::Big, order: Order::Ascending }),
{
    Deserializer { reader, params: ascending_order() }
}

/// A token sequence's bytes around what lies between its head content and
/// its tail metadata.
pub open spec fn framed_all(ts: Seq<Token>, mid: Seq<u8>, p: EncodingParams) -> Seq<u8> {
    heads(ts, p) + mid + tails(ts, p)
}

/// Each token has the shape at its place, and is well-formed.
pub open spec fn tokens_fit(ts: Seq<Token>, ks: Seq<TokenKind>) -> bool {
    ts.len() == ks.len() && forall|i: int| 0 <= i < ts.len() ==> token_fits(#[trigger] ts[i], ks[i])
}

/// The same tokens in the same order.
pub open spec fn same_tokens(a: Seq<Token>, b: Seq<Token>) -> bool {
    a.len() == b.len() && forall|i: int| 0 <= i < a.len() ==> same_token(#[trigger] a[i], b[i])
}

/// The error that decoding shapes `ks` from `rem` gives, if any: that of
/// the first token that fails.
pub open spec fn tokens_error(rem: Seq<u8>, ks: Seq<TokenKind>, p: EncodingParams) -> Option<Error>
    decreases ks.len(),
{
    if ks.len() == 0 {
        None
    } else {
        match token_error(rem, ks[0], p) {
            Some(e) => Some(e),
            None => tokens_error(after_token(rem, ks[0], p), ks.drop_first(), p),
        }
    }
}

/// What remains of `rem` after decoding shapes `ks` from it.
pub open spec fn tokens_rest(rem: Seq<u8>, ks: Seq<TokenKind>, p: EncodingParams) -> Seq<u8>
    decreases ks.len(),
{
    if ks.len() == 0 {
        rem
    } else {
        tokens_rest(after_token(rem, ks[0], p), ks.drop_first(), p)
    }
}

proof fn lemma_framed_push(ts: Seq<Token>, t: Token, mid: Seq<u8>, p: EncodingParams)
    ensures
        framed_all(ts.push(t), mid, p) == framed_all(ts, framed(t, mid, p), p),
{
    assert(ts.push(t).drop_last() =~= ts);
    assert(framed_all(ts.push(t), mid, p) =~= framed_all(ts, framed(t, mid, p), p));
}

proof fn lemma_framed_step(ts: Seq<Token>, i: int, mid: Seq<u8>, p: EncodingParams)
    requires
        0 <= i < ts.len(),
    ensures
        framed_all(ts.skip(i), mid, p) == framed(ts[i], framed_all(ts.skip(i + 1), mid, p), p),
{
    let s = ts.skip(i);
    lemma_split_first(s, p);
    assert(s.drop_first() =~= ts.skip(i + 1));
    assert(framed_all(s, mid, p) =~= framed(ts[i], framed_all(ts.skip(i + 1), mid, p), p));
}

/// Errors that malformed input can give.
pub open spec fn is_input_error(e: Error) -> bool {
    e == Error::PrematureEndOfInput || e == Error::InvalidTagEncoding || e
        == Error::InvalidUtf8Encoding || e == Error::InvalidVarintEncoding
}

/// Too few bytes for a fixed-width value of `n` bytes.
pub open spec fn fixed_error(rem: Seq<u8>, n: nat) -> Option<Error> {
    if rem.len() < n {
        Some(Error::PrematureEndOfInput)
    } else {
        None
    }
}

/// A one-byte flag must be 0 or 1.
pub open spec fn flag_error(rem: Seq<u8>, p: EncodingParams) -> Option<Error> {
    if rem.len() < 1 {
        Some(Error::PrematureEndOfInput)
    } else if uint_value(p, rem.take(1)) > 1 {
        Some(Error::InvalidTagEncoding)
    } else {
        None
    }
}

/// The varint at the head, as the decoder reads it.
pub open spec fn head_varint(rem: Seq<u8>, p: EncodingParams) -> Result<(nat, nat), Error> {
    varint_decode(apply_order(p.order, raw_stream(false, rem)))
}

/// The varint at the tail, as the decoder reads it.
pub open spec fn tail_varint(rem: Seq<u8>, p: EncodingParams) -> Result<(nat, nat), Error> {
    varint_decode(apply_order(p.order, raw_stream(true, rem)))
}

/// The error that decoding shape `k` from `rem` gives, if any: too few
/// bytes, a malformed varint, a flag other than 0 or 1, a discriminant out of
/// range, a code point that is no character, or string content that is not
/// UTF-8.
pub open spec fn token_error(rem: Seq<u8>, k: TokenKind, p: EncodingParams) -> Option<Error> {
    match k {
        TokenKind::U8 | TokenKind::I8 => fixed_error(rem, 1),
        TokenKind::U16 | TokenKind::I16 => fixed_error(rem, 2),
        TokenKind::U32 | TokenKind::I32 => fixed_error(rem, 4),
        TokenKind::U64 | TokenKind::I64 => fixed_error(rem, 8),
        TokenKind::U128 | TokenKind::I128 => fixed_error(rem, 16),
        TokenKind::Bool | TokenKind::Option => flag_error(rem, p),
        TokenKind::Char => if rem.len() < 4 {
            Some(Error::PrematureEndOfInput)
        } else if !is_scalar(uint_value(p, rem.take(4)) as u32) {
            Some(Error::InvalidUtf8Encoding)
        } else {
            None
        },
        TokenKind::Variant(count) => match head_varint(rem, p) {
            Err(e) => Some(e),
            Ok((d, _)) => if d >= count {
                Some(Error::InvalidTagEncoding)
            } else {
                None
            },
        },
        TokenKind::SeqLen => match tail_varint(rem, p) {
            Err(e) => Some(e),
            Ok(_) => None,
        },
        TokenKind::Bytes => match tail_varint(rem, p) {
            Err(e) => Some(e),
            Ok((len, n)) => if len > rem.len() - n {
                Some(Error::PrematureEndOfInput)
            } else {
                None
            },
        },
        TokenKind::Str => match tail_varint(rem, p) {
            Err(e) => Some(e),
            Ok((len, n)) => if len > rem.len() - n {
                Some(Error::PrematureEndOfInput)
            } else if !valid_utf8(apply_order(p.order, rem.take(len as int))) {
                Some(Error::InvalidUtf8Encoding)
            } else {
                None
            },
        },
    }
}

/// How many bytes decoding shape `k` takes from the head and from the tail
/// of `rem`, when it succeeds.
pub open spec fn token_extent(rem: Seq<u8>, k: TokenKind, p: EncodingParams) -> (nat, nat) {
    match k {
        TokenKind::U8 | TokenKind::I8 | TokenKind::Bool | TokenKind::Option => (1, 0),
        TokenKind::U16 | TokenKind::I16 => (2, 0),
        TokenKind::U32 | TokenKind::I32 | TokenKind::Char => (4, 0),
        TokenKind::U64 | TokenKind::I64 => (8, 0),
        TokenKind::U128 | TokenKind::I128 => (16, 0),
        TokenKind::Variant(_) => match head_varint(rem, p) {
            Ok((_, n)) => (n, 0),
            Err(_) => (0, 0),
        },
        TokenKind::SeqLen => match tail_varint(rem, p) {
            Ok((_, n)) => (0, n),
            Err(_) => (0, 0),
        },
        TokenKind::Bytes | TokenKind::Str => match tail_varint(rem, p) {
            Ok((len, n)) => (len, n),
            Err(_) => (0, 0),
        },
    }
}

/// What remains of `rem` after decoding shape `k` from it.
pub open spec fn after_token(rem: Seq<u8>, k: TokenKind, p: EncodingParams) -> Seq<u8> {
    rem.subrange(token_extent(rem, k, p).0 as int, rem.len() - token_extent(rem, k, p).1)
}

proof fn lemma_fixed_sound(p: EncodingParams, rem: Seq<u8>, n: nat)
    ensures
        n <= rem.len() ==> rem == uint_bytes(p, uint_value(p, rem.take(n as int)), n) + rem.skip(
            n as int,
        ) + Seq::<u8>::empty() && rem.skip(n as int) == rem.subrange(n as int, rem.len() - 0)
            && uint_value(p, rem.take(n as int)) < pow256(n),
{
    if n <= rem.len() {
        uint_bytes_of_value(p, rem.take(n as int));
        lemma_uint_value_bound(p, rem.take(n as int));
        assert(rem =~= rem.take(n as int) + rem.skip(n as int) + Seq::<u8>::empty());
        assert(rem.skip(n as int) =~= rem.subrange(n as int, rem.len() - 0));
    }
}

proof fn lemma_head_sound(p: EncodingParams, rem: Seq<u8>)
    ensures
        head_varint(rem, p) matches Ok((v, n)) ==> n <= rem.len() && rem == varint_stored(p, v, false)
            + consume(false, rem, n) + Seq::<u8>::empty() && consume(false, rem, n) == rem.subrange(
            n as int,
            rem.len() - 0,
        ),
{
    let st = apply_order(p.order, rem);
    lemma_parse_sound(st, MAX_VARINT_LEN as nat, true);
    if let Ok((v, n)) = head_varint(rem, p) {
        lemma_order_involution(p.order, rem);
        assert(apply_order(p.order, st.take(n as int)) =~= rem.take(n as int));
        assert(rem =~= varint_stored(p, v, false) + consume(false, rem, n) + Seq::<u8>::empty());
        assert(consume(false, rem, n) =~= rem.subrange(n as int, rem.len() - 0));
    }
}

proof fn lemma_tail_sound(p: EncodingParams, rem: Seq<u8>)
    ensures
        tail_varint(rem, p) matches Ok((v, n)) ==> n <= rem.len() && rem == consume(true, rem, n)
            + varint_stored(p, v, true),
{
    let st = apply_order(p.order, rem.reverse());
    lemma_parse_sound(st, MAX_VARINT_LEN as nat, true);
    if let Ok((v, n)) = tail_varint(rem, p) {
        let vb = varint_bytes(v);
        assert(vb == st.take(n as int));
        let vs = varint_stored(p, v, true);
        assert forall|j: int| 0 <= j < n implies vs[j] == rem[rem.len() - n + j] by {
            assert(vs[j] == apply_order(p.order, vb.reverse())[j]);
            assert(vb.reverse()[j] == st[n - 1 - j]);
            assert(st[n - 1 - j] == apply_order(p.order, rem.reverse())[n - 1 - j]);
            if p.order == Order::Descending {
                assert(rem.reverse()[n - 1 - j] == rem[rem.len() - n + j]);
            }
        }
        assert(rem =~= consume(true, rem, n) + vs);
    }
}

/// Decoding shape `k` from `before`, leaving `after`, gave `r`: whenever
/// `before` is some well-formed token of that shape around other bytes, that
/// token is read and exactly its bytes are consumed; errors are those of
/// malformed input.
pub open spec fn decodes(
    before: Seq<u8>,
    after: Seq<u8>,
    k: TokenKind,
    p: EncodingParams,
    r: Result<Token, Error>,
) -> bool {
    &&& forall|t0: Token, mid: Seq<u8>|
        #[trigger] framed(t0, mid, p) == before && token_fits(t0, k) ==> (r matches Ok(t)
            && same_token(t, t0) && after == mid)
    &&& r matches Ok(t) ==> token_fits(t, k) && before == framed(t, after, p) && after
        == after_token(before, k, p)
    &&& match token_error(before, k, p) {
        Some(e) => r == Err::<Token, Error>(e),
        None => r is Ok,
    }
    &&& r matches Err(e) ==> is_input_error(e)
}

/// The width in bytes of an integer shape.
pub open spec fn int_width(k: TokenKind) -> nat {
    match k {
        TokenKind::U8 | TokenKind::I8 => 1,
        TokenKind::U16 | TokenKind::I16 => 2,
        TokenKind::U32 | TokenKind::I32 => 4,
        TokenKind::U64 | TokenKind::I64 => 8,
        _ => 16,
    }
}

/// The unsigned value that an integer token is encoded as.
pub open spec fn int_key(t: Token) -> nat {
    match t {
        Token::U8(x) => x as nat,
        Token::U16(x) => x as nat,
        Token::U32(x) => x as nat,
        Token::U64(x) => x as nat,
        Token::U128(x) => x as nat,
        Token::I8(x) => signed_key(x as int, 1),
        Token::I16(x) => signed_key(x as int, 2),
        Token::I32(x) => signed_key(x as int, 4),
        Token::I64(x) => signed_key(x as int, 8),
        Token::I128(x) => signed_key(x as int, 16),
        _ => 0,
    }
}

/// An integer token framed in `rem` is read back from its first bytes.
proof fn lemma_int_complete(p: EncodingParams, rem: Seq<u8>, k: TokenKind)
    requires
        matches!(k, TokenKind::U8 | TokenKind::U16 | TokenKind::U32 | TokenKind::U64
            | TokenKind::U128 | TokenKind::I8 | TokenKind::I16 | TokenKind::I32 | TokenKind::I64
            | TokenKind::I128),
    ensures
        forall|t0: Token, mid: Seq<u8>|
            #[trigger] framed(t0, mid, p) == rem && token_fits(t0, k)
                ==> int_width(k) <= rem.len() && uint_value(p, rem.take(int_width(k) as int))
                == int_key(t0) && rem.skip(int_width(k) as int) == mid,
{
    lemma_pow256_values();
    assert forall|t0: Token, mid: Seq<u8>|
        #[trigger] framed(t0, mid, p) == rem && token_fits(t0, k)
        implies int_width(k) <= rem.len() && uint_value(p, rem.take(int_width(k) as int))
        == int_key(t0) && rem.skip(int_width(k) as int) == mid by {
        match t0 {
            Token::U8(x) => {
                assert(k == TokenKind::U8);
                lemma_fixed_frame(p, x as nat, 1, mid, rem);
            },
            Token::U16(x) => {
                assert(k == TokenKind::U16);
                lemma_fixed_frame(p, x as nat, 2, mid, rem);
            },
            Token::U32(x) => {
                assert(k == TokenKind::U32);
                lemma_fixed_frame(p, x as nat, 4, mid, rem);
            },
            Token::U64(x) => {
                assert(k == TokenKind::U64);
                lemma_fixed_frame(p, x as nat, 8, mid, rem);
            },
            Token::I8(x) => {
                assert(k == TokenKind::I8);
                lemma_fixed_frame(p, signed_key(x as int, 1), 1, mid, rem);
            },
            Token::I16(x) => {
                assert(k == TokenKind::I16);
                lemma_fixed_frame(p, signed_key(x as int, 2), 2, mid, rem);
            },
            Token::I32(x) => {
                assert(k == TokenKind::I32);
                lemma_fixed_frame(p, signed_key(x as int, 4), 4, mid, rem);
            },
            Token::I64(x) => {
                assert(k == TokenKind::I64);
                lemma_fixed_frame(p, signed_key(x as int, 8), 8, mid, rem);
            },
            Token::U128(x) => {
                assert(k == TokenKind::U128);
                lemma_fixed_frame(p, x as nat, 16, mid, rem);
            },
            Token::I128(x) => {
                assert(k == TokenKind::I128);
                lemma_fixed_frame(p, signed_key(x as int, 16), 16, mid, rem);
            },
            _ => {},
        }
    }
}

#[verifier::rlimit(100)]
fn de_int(rd: &mut DeBytesReader, k: TokenKind, p: EncodingParams) -> (r: Result<Token, Error>)
    requires
        old(rd).wf(),
        matches!(k, TokenKind::U8 | TokenKind::U16 | TokenKind::U32 | TokenKind::U64
            | TokenKind::U128 | TokenKind::I8 | TokenKind::I16 | TokenKind::I32 | TokenKind::I64
            | TokenKind::I128),
    ensures
        final(rd).wf(),
        decodes(old(rd).remaining(), final(rd).remaining(), k, p, r),
{
    let ghost rem = rd.remaining();
    proof {
        lemma_pow256_values();
        lemma_fixed_sound(p, rem, int_width(k));
        lemma_int_complete(p, rem, k);
    }
    let t = match k {
        TokenKind::U8 => Token::U8(deserialize_u8(rd, p)?),
        TokenKind::U16 => Token::U16(deserialize_u16(rd, p)?),
        TokenKind::U32 => Token::U32(deserialize_u32(rd, p)?),
        TokenKind::U64 => Token::U64(deserialize_u64(rd, p)?),
        TokenKind::I8 => Token::I8(deserialize_i8(rd, p)?),
        TokenKind::I16 => Token::I16(deserialize_i16(rd, p)?),
        TokenKind::I32 => Token::I32(deserialize_i32(rd, p)?),
        TokenKind::I64 => Token::I64(deserialize_i64(rd, p)?),
        TokenKind::U128 => Token::U128(deserialize_u128(rd, p)?),
        _ => Token::I128(deserialize_i128(rd, p)?),
    };
    Ok(t)
}

#[verifier::rlimit(60)]
fn de_flag(rd: &mut DeBytesReader, k: TokenKind, p: EncodingParams) -> (r: Result<Token, Error>)
    requires
        old(rd).wf(),
        matches!(k, TokenKind::Bool | TokenKind::Char | TokenKind::Option),
    ensures
        final(rd).wf(),
        decodes(old(rd).remaining(), final(rd).remaining(), k, p, r),
{
    let ghost rem = rd.remaining();
    proof {
        lemma_pow256_values();
        lemma_fixed_sound(p, rem, 1);
        lemma_fixed_sound(p, rem, 2);
        lemma_fixed_sound(p, rem, 4);
        lemma_fixed_sound(p, rem, 8);
    }
    let t = match k {
            TokenKind::Bool => {
                let b = deserialize_u8(rd, p)?;
                let v = b == 1;
                proof {
                    assert forall|t0: Token, mid: Seq<u8>|
                        #[trigger] framed(t0, mid, p) == rem && token_fits(t0, k) implies rd.remaining() == mid
                        && b <= 1 && same_token(Token::Bool(v), t0) by {
                        match t0 {
                            Token::Bool(x) => {
                                lemma_fixed_frame(p, if x { 1 } else { 0 }, 1, mid, rem);
                            },
                            _ => {},
                        }
                    }
                }
                if b > 1 {
                    return Err(Error::InvalidTagEncoding);
                }
                Token::Bool(v)
            },
            TokenKind::Char => {
                let v = match deserialize_char(rd, p) {
                    Ok(c) => c,
                    Err(e) => {
                        proof {
                            assert forall|t0: Token, mid: Seq<u8>|
                                #[trigger] framed(t0, mid, p) == rem && token_fits(t0, k) implies false by {
                                match t0 {
                                    Token::Char(x) => {
                                        lemma_fixed_frame(p, x as u32 as nat, 4, mid, rem);
                                    },
                                    _ => {},
                                }
                            }
                        }
                        return Err(e);
                    },
                };
                proof {
                    assert forall|t0: Token, mid: Seq<u8>|
                        #[trigger] framed(t0, mid, p) == rem && token_fits(t0, k) implies rd.remaining() == mid
                        && same_token(Token::Char(v), t0) by {
                        match t0 {
                            Token::Char(x) => {
                                lemma_fixed_frame(p, x as u32 as nat, 4, mid, rem);
                            },
                            _ => {},
                        }
                    }
                }
                Token::Char(v)
            },
            TokenKind::Option => {
                proof {
                    assert forall|t0: Token, mid: Seq<u8>|
                        #[trigger] framed(t0, mid, p) == rem && token_fits(t0, k) implies 1 <= rem.len() by {
                        match t0 {
                            Token::U8(x) => {
                assert(k == TokenKind::U8);
                lemma_fixed_frame(p, x as nat, 1, mid, rem);
            },
                            _ => {},
                        }
                    }
                }
                let v = deserialize_u8(rd, p)?;
                proof {
                    assert forall|t0: Token, mid: Seq<u8>|
                        #[trigger] framed(t0, mid, p) == rem && token_fits(t0, k) implies rd.remaining() == mid
                        && (v == 0 || v == 1)
                        && (v == 0 <==> t0 == Token::OptionNone) by {
                        match t0 {
                            Token::OptionNone => lemma_fixed_frame(p, 0, 1, mid, rem),
                            Token::OptionSome => lemma_fixed_frame(p, 1, 1, mid, rem),
                            _ => {},
                        }
                    }
                }
                if v == 0 {
                    Token::OptionNone
                } else if v == 1 {
                    Token::OptionSome
                } else {
                    return Err(Error::InvalidTagEncoding);
                }
            },
            _ => {
                return Err(Error::InvalidTagEncoding);
            },
        };
    Ok(t)
}

#[verifier::rlimit(60)]
fn de_meta(rd: &mut DeBytesReader, k: TokenKind, p: EncodingParams) -> (r: Result<Token, Error>)
    requires
        old(rd).wf(),
        matches!(k, TokenKind::Variant(_) | TokenKind::SeqLen),
    ensures
        final(rd).wf(),
        decodes(old(rd).remaining(), final(rd).remaining(), k, p, r),
{
    let ghost rem = rd.remaining();
    proof {
        lemma_head_sound(p, rem);
        lemma_tail_sound(p, rem);
    }
    let t = match k {
            TokenKind::Variant(count) => {
                proof {
                    assert forall|t0: Token, mid: Seq<u8>|
                        #[trigger] framed(t0, mid, p) == rem && token_fits(t0, k) implies varint_decode(
                            apply_order(p.order, raw_stream(false, rem)),
                        ) is Ok by {
                        match t0 {
                            Token::Variant(d) => {
                                assert(rem =~= varint_stored(p, d as nat, false) + (mid + Seq::<u8>::empty()));
                                lemma_head_varint(p, d as nat, mid + Seq::<u8>::empty(), rem);
                            },
                            _ => {},
                        }
                    }
                }
                let v = read_varint(rd, false, p)?;
                proof {
                    assert forall|t0: Token, mid: Seq<u8>|
                        #[trigger] framed(t0, mid, p) == rem && token_fits(t0, k) implies rd.remaining() == mid
                        && v < count as u64 && same_token(Token::Variant(v as u32), t0) by {
                        match t0 {
                            Token::Variant(d) => {
                                assert(rem =~= varint_stored(p, d as nat, false) + (mid + Seq::<u8>::empty()));
                                lemma_head_varint(p, d as nat, mid + Seq::<u8>::empty(), rem);
                                assert(mid + Seq::<u8>::empty() =~= mid);
                            },
                            _ => {},
                        }
                    }
                }
                if v >= count as u64 {
                    return Err(Error::InvalidTagEncoding);
                }
                Token::Variant(v as u32)
            },
            TokenKind::SeqLen => {
                proof {
                    assert forall|t0: Token, mid: Seq<u8>|
                        #[trigger] framed(t0, mid, p) == rem && token_fits(t0, k) implies varint_decode(
                            apply_order(p.order, raw_stream(true, rem)),
                        ) is Ok by {
                        match t0 {
                            Token::SeqLen(n) => {
                                assert(rem =~= (Seq::<u8>::empty() + mid) + varint_stored(p, n as nat, true));
                                lemma_tail_varint(p, n as nat, Seq::<u8>::empty() + mid, rem);
                            },
                            _ => {},
                        }
                    }
                }
                let v = read_varint(rd, true, p)?;
                proof {
                    assert forall|t0: Token, mid: Seq<u8>|
                        #[trigger] framed(t0, mid, p) == rem && token_fits(t0, k) implies rd.remaining() == mid
                        && same_token(Token::SeqLen(v), t0) by {
                        match t0 {
                            Token::SeqLen(n) => {
                                assert(rem =~= (Seq::<u8>::empty() + mid) + varint_stored(p, n as nat, true));
                                lemma_tail_varint(p, n as nat, Seq::<u8>::empty() + mid, rem);
                                assert(Seq::<u8>::empty() + mid =~= mid);
                            },
                            _ => {},
                        }
                    }
                }
                Token::SeqLen(v)
            },
            _ => {
                return Err(Error::InvalidTagEncoding);
            },
        };
    Ok(t)
}

#[verifier::rlimit(60)]
fn de_bytes(rd: &mut DeBytesReader, k: TokenKind, p: EncodingParams) -> (r: Result<Token, Error>)
    requires
        old(rd).wf(),
        matches!(k, TokenKind::Bytes | TokenKind::Str),
    ensures
        final(rd).wf(),
        decodes(old(rd).remaining(), final(rd).remaining(), k, p, r),
{
    let ghost rem = rd.remaining();
    proof {
        rd.lemma_remaining_bound();
        lemma_tail_sound(p, rem);
    }
    let t = match k {
            TokenKind::Bytes | TokenKind::Str => {
                proof {
                    assert forall|t0: Token, mid: Seq<u8>|
                        #[trigger] framed(t0, mid, p) == rem && token_fits(t0, k) implies varint_decode(
                            apply_order(p.order, raw_stream(true, rem)),
                        ) is Ok by {
                        match t0 {
                            Token::Bytes(b) => {
                                assert(rem =~= (apply_order(p.order, b@) + mid) + varint_stored(p, b@.len(), true));
                                lemma_tail_varint(p, b@.len(), apply_order(p.order, b@) + mid, rem);
                            },
                            Token::Str(b) => {
                                assert(rem =~= (apply_order(p.order, b@) + mid) + varint_stored(p, b@.len(), true));
                                lemma_tail_varint(p, b@.len(), apply_order(p.order, b@) + mid, rem);
                            },
                            _ => {},
                        }
                    }
                }
                let len = read_varint(rd, true, p)?;
                let ghost rem1 = rd.remaining();
                if len > usize::MAX as u64 {
                    proof {
                        assert forall|t0: Token, mid: Seq<u8>|
                            #[trigger] framed(t0, mid, p) == rem && token_fits(t0, k) implies false by {
                            match t0 {
                                Token::Bytes(b) => {
                                    assert(rem =~= (apply_order(p.order, b@) + mid) + varint_stored(p, b@.len(), true));
                                    lemma_tail_varint(p, b@.len(), apply_order(p.order, b@) + mid, rem);
                                },
                                Token::Str(b) => {
                                    assert(rem =~= (apply_order(p.order, b@) + mid) + varint_stored(p, b@.len(), true));
                                    lemma_tail_varint(p, b@.len(), apply_order(p.order, b@) + mid, rem);
                                },
                                _ => {},
                            }
                        }
                    }
                    return Err(Error::PrematureEndOfInput);
                }
                proof {
                    assert forall|t0: Token, mid: Seq<u8>|
                        #[trigger] framed(t0, mid, p) == rem && token_fits(t0, k) implies len <= rem1.len() by {
                        match t0 {
                            Token::Bytes(x) => {
                                assert(rem =~= (apply_order(p.order, x@) + mid) + varint_stored(p, x@.len(), true));
                                lemma_tail_varint(p, x@.len(), apply_order(p.order, x@) + mid, rem);
                                lemma_order_involution(p.order, x@);
                            },
                            Token::Str(x) => {
                                assert(rem =~= (apply_order(p.order, x@) + mid) + varint_stored(p, x@.len(), true));
                                lemma_tail_varint(p, x@.len(), apply_order(p.order, x@) + mid, rem);
                                lemma_order_involution(p.order, x@);
                            },
                            _ => {},
                        }
                    }
                }
                let b = read_content(rd, len as usize, p)?;
                proof {
                    assert forall|t0: Token, mid: Seq<u8>|
                        #[trigger] framed(t0, mid, p) == rem && token_fits(t0, k) implies rd.remaining() == mid
                        && b@ == (match t0 { Token::Bytes(x) => x@, Token::Str(x) => x@, _ => b@ }) by {
                        match t0 {
                            Token::Bytes(x) => {
                                assert(rem =~= (apply_order(p.order, x@) + mid) + varint_stored(p, x@.len(), true));
                                lemma_tail_varint(p, x@.len(), apply_order(p.order, x@) + mid, rem);
                                lemma_order_involution(p.order, x@);
                                assert(rem1.take(len as int) =~= apply_order(p.order, x@));
                                assert(rem1.skip(len as int) =~= mid);
                            },
                            Token::Str(x) => {
                                assert(rem =~= (apply_order(p.order, x@) + mid) + varint_stored(p, x@.len(), true));
                                lemma_tail_varint(p, x@.len(), apply_order(p.order, x@) + mid, rem);
                                lemma_order_involution(p.order, x@);
                                assert(rem1.take(len as int) =~= apply_order(p.order, x@));
                                assert(rem1.skip(len as int) =~= mid);
                            },
                            _ => {},
                        }
                    }
                }
                proof {
                    lemma_order_involution(p.order, rem1.take(len as int));
                    assert(rem1.take(len as int) =~= rem.take(len as int));
                    assert(rem1.skip(len as int) =~= rem.subrange(len as int, rem.len() - (rem.len() - rem1.len())));
                    assert(rem1 =~= rem1.take(len as int) + rem1.skip(len as int));
                    assert(apply_order(p.order, b@) == rem1.take(len as int));
                    assert(rem =~= apply_order(p.order, b@) + rd.remaining() + varint_stored(p, b@.len(), true));
                }
                if matches!(k, TokenKind::Str) {
                    if !check_utf8(b.as_slice()) {
                        return Err(Error::InvalidUtf8Encoding);
                    }
                    Token::Str(b)
                } else {
                    Token::Bytes(b)
                }
            },
            _ => {
                return Err(Error::InvalidTagEncoding);
            },
        };
    Ok(t)
}

impl Deserializer {
    pub fn new(reader: DeBytesReader, params: EncodingParams) -> (r: Deserializer)
        ensures
            r.reader == reader,
            r.params == params,
    {
        Deserializer { reader, params }
    }

    /// Reads one token of shape `k`. Whenever the remaining bytes are some
    /// well-formed token of that shape around other bytes, that token is read
    /// and exactly its bytes are consumed.
    pub fn deserialize_token(&mut self, k: TokenKind) -> (r: Result<Token, Error>)
        requires
            old(self).reader.wf(),
        ensures
            final(self).params == old(self).params,
            final(self).reader.wf(),
            decodes(old(self).reader.remaining(), final(self).reader.remaining(), k, old(self).params, r),
    {
        let p = self.params;
        match k {
            TokenKind::U8 | TokenKind::U16 | TokenKind::U32 | TokenKind::U64 | TokenKind::U128
            | TokenKind::I8 | TokenKind::I16 | TokenKind::I32 | TokenKind::I64
            | TokenKind::I128 => de_int(&mut self.reader, k, p),
            TokenKind::Bool | TokenKind::Char | TokenKind::Option => de_flag(&mut self.reader, k, p),
            TokenKind::Variant(_) | TokenKind::SeqLen => de_meta(&mut self.reader, k, p),
            TokenKind::Bytes | TokenKind::Str => de_bytes(&mut self.reader, k, p),
        }
    }

    /// Reads tokens of the shapes `ks`, in order. Whenever the remaining bytes
    /// are a well-formed token sequence of those shapes around other bytes,
    /// those tokens are read and exactly their bytes are consumed.
    pub fn deserialize_tokens(&mut self, ks: &Vec<TokenKind>) -> (r: Result<Vec<Token>, Error>)
        requires
            old(self).reader.wf(),
        ensures
            final(self).params == old(self).params,
            final(self).reader.wf(),
            forall|ts0: Seq<Token>, mid: Seq<u8>|
                #[trigger] framed_all(ts0, mid, old(self).params) == old(self).reader.remaining()
                    && tokens_fit(ts0, ks@) ==> (r matches Ok(ts) && same_tokens(ts@, ts0)
                    && final(self).reader.remaining() == mid),
            r matches Err(e) ==> is_input_error(e),
            r matches Ok(ts) ==> tokens_fit(ts@, ks@) && old(self).reader.remaining() == framed_all(
                ts@,
                final(self).reader.remaining(),
                old(self).params,
            ) && final(self).reader.remaining() == tokens_rest(
                old(self).reader.remaining(),
                ks@,
                old(self).params,
            ),
            match tokens_error(old(self).reader.remaining(), ks@, old(self).params) {
                Some(e) => r == Err::<Vec<Token>, Error>(e),
                None => r is Ok,
            },
    {
        let ghost p = self.params;
        let ghost rem0 = self.reader.remaining();
        assert(ks@.skip(0) =~= ks@);
        assert(framed_all(Seq::<Token>::empty(), rem0, p) =~= rem0) by {
            assert(heads(Seq::<Token>::empty(), p) == Seq::<u8>::empty());
            assert(tails(Seq::<Token>::empty(), p) == Seq::<u8>::empty());
        }
        let mut out: Vec<Token> = Vec::new();
        let mut i: usize = 0;
        proof {
            assert forall|ts0: Seq<Token>, mid: Seq<u8>|
                #[trigger] framed_all(ts0, mid, p) == rem0 && tokens_fit(ts0, ks@)
                implies framed_all(ts0.skip(0), mid, p) == rem0 by {
                assert(ts0.skip(0) =~= ts0);
            }
        }
        while i < ks.len()
            invariant
                self.params == p,
                p == old(self).params,
                rem0 == old(self).reader.remaining(),
                self.reader.wf(),
                i <= ks@.len(),
                out@.len() == i,
                tokens_error(rem0, ks@, p) == tokens_error(self.reader.remaining(), ks@.skip(i as int), p),
                tokens_rest(rem0, ks@, p) == tokens_rest(self.reader.remaining(), ks@.skip(i as int), p),
                rem0 == framed_all(out@, self.reader.remaining(), p),
                forall|j: int| 0 <= j < i ==> token_fits(#[trigger] out@[j], ks@[j]),
                forall|ts0: Seq<Token>, mid: Seq<u8>|
                    #[trigger] framed_all(ts0, mid, p) == rem0 && tokens_fit(ts0, ks@) ==> (
                    self.reader.remaining() == framed_all(ts0.skip(i as int), mid, p)
                    && forall|j: int| 0 <= j < i ==> same_token(#[trigger] out@[j], ts0[j])),
            decreases ks@.len() - i,
        {
            let ghost before = self.reader.remaining();
            let k = ks[i];
            assert(ks@.skip(i as int)[0] == k);
            assert(ks@.skip(i as int).drop_first() =~= ks@.skip(i + 1));
            let t = match self.deserialize_token(k) {
                Ok(t) => t,
                Err(e) => {
                    proof {
                        assert forall|ts0: Seq<Token>, mid: Seq<u8>|
                            #[trigger] framed_all(ts0, mid, p) == rem0 && tokens_fit(ts0, ks@)
                            implies false by {
                            lemma_framed_step(ts0, i as int, mid, p);
                            assert(token_fits(ts0[i as int], ks@[i as int]));
                            let m2 = framed_all(ts0.skip(i + 1), mid, p);
                            assert(framed(ts0[i as int], m2, p) == before);
                        }
                    }
                    return Err(e);
                },
            };
            let ghost prev = out@;
            out.push(t);
            proof {
                lemma_framed_push(prev, t, self.reader.remaining(), p);
                assert forall|j: int| 0 <= j < i + 1 implies token_fits(#[trigger] out@[j], ks@[j]) by {
                    if j < i {
                        assert(out@[j] == prev[j]);
                    }
                }
                assert forall|ts0: Seq<Token>, mid: Seq<u8>|
                    #[trigger] framed_all(ts0, mid, p) == rem0 && tokens_fit(ts0, ks@) implies (
                    self.reader.remaining() == framed_all(ts0.skip(i + 1), mid, p)
                    && forall|j: int| 0 <= j < i + 1 ==> same_token(#[trigger] out@[j], ts0[j])) by {
                    lemma_framed_step(ts0, i as int, mid, p);
                    assert(token_fits(ts0[i as int], ks@[i as int]));
                    let m2 = framed_all(ts0.skip(i + 1), mid, p);
                    assert(framed(ts0[i as int], m2, p) == before);
                    assert forall|j: int| 0 <= j < i + 1 implies same_token(#[trigger] out@[j], ts0[j]) by {
                        if j < i {
                            assert(out@[j] == prev[j]);
                        }
                    }
                }
            }
            i += 1;
        }
        proof {
            assert forall|ts0: Seq<Token>, mid: Seq<u8>|
                #[trigger] framed_all(ts0, mid, p) == rem0 && tokens_fit(ts0, ks@)
                implies framed_all(ts0.skip(i as int), mid, p) == mid by {
                let e = ts0.skip(i as int);
                assert(e =~= Seq::<Token>::empty());
                assert(heads(e, p) == Seq::<u8>::empty());
                assert(tails(e, p) == Seq::<u8>::empty());
                assert(framed_all(e, mid, p) =~= mid);
            }
        }
        assert(ks@.skip(i as int) =~= Seq::<TokenKind>::empty());
        Ok(out)
    }
}

/// Decodes tokens of the shapes `ks` from bytes that `ser_to_vec_ordered`
/// made with the same order: the input is inverted first under descending
/// order, then read in the ascending layout, and must be consumed exactly
/// (else underflow). Whenever the input is the encoding of a well-formed
/// token sequence of those shapes, that sequence comes back.
pub fn de_from_bytes_ordered(input: Vec<u8>, ks: &Vec<TokenKind>, order: Order) -> (r: Result<Vec<Token>, Error>)
    ensures
        forall|ts0: Seq<Token>|
            tokens_fit(ts0, ks@) && input@ == #[trigger] apply_order(order, encoding(ts0, ascending_params()))
                ==> (r matches Ok(ts) && same_tokens(ts@, ts0)),
        r matches Err(e) ==> is_input_error(e) || e == Error::BufferUnderflow,
        r matches Ok(ts) ==> tokens_fit(ts@, ks@) && input@ == apply_order(
            order,
            encoding(ts@, ascending_params()),
        ),
        match tokens_error(apply_order(order, input@), ks@, ascending_params()) {
            Some(e) => r == Err::<Vec<Token>, Error>(e),
            None => if tokens_rest(apply_order(order, input@), ks@, ascending_params()).len() == 0 {
                r is Ok
            } else {
                r == Err::<Vec<Token>, Error>(Error::BufferUnderflow)
            },
        },
{
    let mut bytes = input;
    if order == Order::Descending {
        invert_buffer(&mut bytes);
    }
    let ghost plain = bytes@;
    let mut de = new_de_asc(DeBytesReader::new(bytes));
    proof {
        assert forall|ts0: Seq<Token>|
            tokens_fit(ts0, ks@) && input@ == #[trigger] apply_order(order, encoding(ts0, ascending_params()))
            implies framed_all(ts0, Seq::<u8>::empty(), ascending_params()) == plain by {
            lemma_order_involution(order, encoding(ts0, ascending_params()));
            assert(framed_all(ts0, Seq::<u8>::empty(), ascending_params()) =~= encoding(ts0, ascending_params()));
        }
    }
    let ts = de.deserialize_tokens(ks)?;
    de.reader.is_complete()?;
    proof {
        lemma_order_involution(order, input@);
        assert(framed_all(ts@, Seq::<u8>::empty(), ascending_params()) =~= encoding(ts@, ascending_params()));
    }
    Ok(ts)
}

/// Same as `de_from_bytes_ordered` with ascending order.
pub fn de_from_bytes_asc(input: Vec<u8>, ks: &Vec<TokenKind>) -> (r: Result<Vec<Token>, Error>)
    ensures
        forall|ts0: Seq<Token>|
            tokens_fit(ts0, ks@) && input@ == #[trigger] encoding(ts0, ascending_params())
                ==> (r matches Ok(ts) && same_tokens(ts@, ts0)),
        r matches Err(e) ==> is_input_error(e) || e == Error::BufferUnderflow,
        r matches Ok(ts) ==> tokens_fit(ts@, ks@) && input@ == encoding(ts@, ascending_params()),
        match tokens_error(input@, ks@, ascending_params()) {
            Some(e) => r == Err::<Vec<Token>, Error>(e),
            None => if tokens_rest(input@, ks@, ascending_params()).len() == 0 {
                r is Ok
            } else {
                r == Err::<Vec<Token>, Error>(Error::BufferUnderflow)
            },
        },
{
    proof {
        assert forall|ts0: Seq<Token>|
            tokens_fit(ts0, ks@) && input@ == #[trigger] encoding(ts0, ascending_params())
            implies input@ == apply_order(Order::Ascending, encoding(ts0, ascending_params())) by {}
    }
    de_from_bytes_ordered(input, ks, Order::Ascending)
}

} // verus!
