//! The structured serializer and the size calculator.
use vstd::prelude::*;
use crate::buf::DeBytesWriter;
use crate::primitives::invert;
use crate::errors::Error;
use crate::params::{ascending_order, ascending_params, EncodingParams, Endianness, Order};
use crate::primitives::{
    apply_order, invert_buffer, serialize_bool, serialize_char, serialize_i16, serialize_i32,
    serialize_i64, serialize_i8, serialize_i128, serialize_u128, serialize_u16, serialize_u32, serialize_u64, serialize_u8,
    write_bytes,
};
use crate::token::{
    heads, lemma_token_len, lemma_total_size_prefix, tails, token_head, token_size,
    token_tail, total_size, encoding, Token,
};
use crate::varint::{varint_size, write_varint};

verus! {

/// The effect of writing token `t` with result `r`: its head content is
/// appended and its tail metadata placed before the tail when it fits, and
/// overflow is reported when it does not.
pub open spec fn token_write(
    before: DeBytesWriter,
    after: DeBytesWriter,
    t: Token,
    p: EncodingParams,
    r: Result<(), Error>,
) -> bool {
    after.wf() && after.capacity() == before.capacity() && match r {
        Ok(()) => token_size(t) <= before.room() && after.head_region() == before.head_region()
            + token_head(t, p) && after.tail_region() == token_tail(t, p) + before.tail_region()
            && after.room() == before.room() - token_size(t),
        Err(e) => token_size(t) > before.room() && e == Error::BufferOverflow,
    }
}

/// Writes an integer token at the head.
#[verifier::rlimit(100)]
fn serialize_int_token(w: &mut DeBytesWriter, t: &Token, p: EncodingParams) -> (r: Result<(), Error>)
    requires
        old(w).wf(),
        matches!(*t, Token::U8(_) | Token::U16(_) | Token::U32(_) | Token::U64(_) | Token::U128(_) | Token::I8(_) | Token::I16(_) | Token::I32(_) | Token::I64(_) | Token::I128(_)),
    ensures
        token_write(*old(w), *final(w), *t, p, r),
{
    proof {
        lemma_token_len(*t, p);
        assert(Seq::<u8>::empty() + old(w).tail_region() =~= old(w).tail_region());
    }
    match t {
        Token::U8(v) => serialize_u8(w, *v, p),
        Token::U16(v) => serialize_u16(w, *v, p),
        Token::U32(v) => serialize_u32(w, *v, p),
        Token::U64(v) => serialize_u64(w, *v, p),
        Token::U128(v) => serialize_u128(w, *v, p),
        Token::I8(v) => serialize_i8(w, *v, p),
        Token::I16(v) => serialize_i16(w, *v, p),
        Token::I32(v) => serialize_i32(w, *v, p),
        Token::I64(v) => serialize_i64(w, *v, p),
        Token::I128(v) => serialize_i128(w, *v, p),
        _ => Err(Error::BufferOverflow),
    }
}

/// The serializer: a writer and the configuration it encodes with.
pub struct Serializer {
    pub writer: DeBytesWriter,
    pub params: EncodingParams,
}

/// A serializer with the ascending-order configuration.
pub fn new_ser_asc(writer: DeBytesWriter) -> (r: Serializer)
    ensures
        r.writer == writer,
        r.params == (EncodingParams { endianness: Endianness::Big, order: Order::Ascending }),
{
    Serializer { writer, params: ascending_order() }
}

impl Serializer {
    pub fn new(writer: DeBytesWriter, params: EncodingParams) -> (r: Serializer)
        ensures
            r.writer == writer,
            r.params == params,
    {
        Serializer { writer, params }
    }

    /// Writes one token: content at the head, length or count at the tail.
    #[verifier::rlimit(100)]
    pub fn serialize_token(&mut self, t: &Token) -> (r: Result<(), Error>)
        requires
            old(self).writer.wf(),
        ensures
            final(self).params == old(self).params,
            token_write(old(self).writer, final(self).writer, *t, old(self).params, r),
    {
        let p = self.params;
        proof {
            lemma_token_len(*t, p);
            assert(Seq::<u8>::empty() + old(self).writer.tail_region() =~= old(self).writer.tail_region());
            assert(old(self).writer.head_region() + Seq::<u8>::empty() =~= old(self).writer.head_region());
        }
        match t {
            Token::Bool(v) => serialize_bool(&mut self.writer, *v, p),
            Token::U8(_) | Token::U16(_) | Token::U32(_) | Token::U64(_) | Token::U128(_) | Token::I8(_) | Token::I16(_) | Token::I32(_) | Token::I64(_) | Token::I128(_) => serialize_int_token(&mut self.writer, t, p),
            Token::Char(v) => serialize_char(&mut self.writer, *v, p),
            Token::Bytes(b) => {
                write_bytes(&mut self.writer, b.as_slice(), p)?;
                write_varint(&mut self.writer, b.len() as u64, true, p)
            },
            Token::Str(b) => {
                write_bytes(&mut self.writer, b.as_slice(), p)?;
                write_varint(&mut self.writer, b.len() as u64, true, p)
            },
            Token::OptionNone => serialize_u8(&mut self.writer, 0, p),
            Token::OptionSome => serialize_u8(&mut self.writer, 1, p),
            Token::SeqLen(n) => write_varint(&mut self.writer, *n, true, p),
            Token::Variant(d) => write_varint(&mut self.writer, *d as u64, false, p),
        }
    }

    /// Writes a token sequence in order. Succeeds exactly when the sum of the
    /// token sizes fits the room between the cursors.
    pub fn serialize_tokens(&mut self, ts: &Vec<Token>) -> (r: Result<(), Error>)
        requires
            old(self).writer.wf(),
        ensures
            final(self).params == old(self).params,
            final(self).writer.wf(),
            final(self).writer.capacity() == old(self).writer.capacity(),
            match r {
                Ok(()) => total_size(ts@) <= old(self).writer.room()
                    && final(self).writer.head_region() == old(self).writer.head_region()
                    + heads(ts@, old(self).params)
                    && final(self).writer.tail_region() == tails(ts@, old(self).params)
                    + old(self).writer.tail_region()
                    && final(self).writer.room() == old(self).writer.room() - total_size(ts@),
                Err(e) => total_size(ts@) > old(self).writer.room() && e == Error::BufferOverflow,
            },
    {
        let ghost p = self.params;
        let ghost w0 = self.writer;
        let mut i: usize = 0;
        assert(ts@.take(0) =~= Seq::<Token>::empty());
        assert(w0.head_region() + Seq::<u8>::empty() =~= w0.head_region());
        assert(Seq::<u8>::empty() + w0.tail_region() =~= w0.tail_region());
        while i < ts.len()
            invariant
                i <= ts@.len(),
                self.params == p,
                p == old(self).params,
                w0 == old(self).writer,
                self.writer.wf(),
                self.writer.capacity() == w0.capacity(),
                total_size(ts@.take(i as int)) <= w0.room(),
                self.writer.head_region() == w0.head_region() + heads(ts@.take(i as int), p),
                self.writer.tail_region() == tails(ts@.take(i as int), p) + w0.tail_region(),
                self.writer.room() == w0.room() - total_size(ts@.take(i as int)),
            decreases ts@.len() - i,
        {
            let ghost pre = ts@.take(i as int);
            let ghost next = ts@.take(i + 1);
            assert(next.drop_last() =~= pre);
            assert(next.last() == ts@[i as int]);
            proof {
                lemma_total_size_prefix(ts@, i + 1);
            }
            self.serialize_token(&ts[i])?;
            assert(self.writer.head_region() =~= w0.head_region() + heads(next, p));
            assert(self.writer.tail_region() =~= tails(next, p) + w0.tail_region());
            i += 1;
        }
        assert(ts@.take(ts@.len() as int) =~= ts@);
        Ok(())
    }
}

/// The number of bytes a token takes.
pub fn token_byte_size(t: &Token) -> (r: u128)
    ensures
        r == token_size(*t),
        r <= 0x1_0000_0000_0000_0010,
{
    match t {
        Token::Bool(_) | Token::U8(_) | Token::I8(_) | Token::OptionNone | Token::OptionSome => 1,
        Token::U16(_) | Token::I16(_) => 2,
        Token::U32(_) | Token::I32(_) | Token::Char(_) => 4,
        Token::U64(_) | Token::I64(_) => 8,
        Token::U128(_) | Token::I128(_) => 16,
        Token::Bytes(b) => b.len() as u128 + varint_size(b.len() as u64) as u128,
        Token::Str(b) => b.len() as u128 + varint_size(b.len() as u64) as u128,
        Token::SeqLen(n) => varint_size(*n) as u128,
        Token::Variant(d) => varint_size(*d as u64) as u128,
    }
}

/// The exact number of bytes that serializing `ts` produces, in any
/// configuration. Fails with overflow when that does not fit `usize`.
pub fn calc_size(ts: &Vec<Token>) -> (r: Result<usize, Error>)
    ensures
        match r {
            Ok(n) => n == total_size(ts@),
            Err(e) => total_size(ts@) > usize::MAX && e == Error::BufferOverflow,
        },
{
    let mut acc: u128 = 0;
    let mut i: usize = 0;
    assert(ts@.take(0) =~= Seq::<Token>::empty());
    while i < ts.len()
        invariant
            i <= ts@.len(),
            acc == total_size(ts@.take(i as int)),
            acc <= usize::MAX,
        decreases ts@.len() - i,
    {
        let ghost next = ts@.take(i + 1);
        assert(next.drop_last() =~= ts@.take(i as int));
        assert(next.last() == ts@[i as int]);
        acc = acc + token_byte_size(&ts[i]);
        i += 1;
        if acc > usize::MAX as u128 {
            proof {
                lemma_total_size_prefix(ts@, i as int);
            }
            return Err(Error::BufferOverflow);
        }
    }
    assert(ts@.take(ts@.len() as int) =~= ts@);
    Ok(acc as usize)
}

fn zeroed(n: usize) -> (r: Vec<u8>)
    ensures
        r@.len() == n,
{
    let mut v: Vec<u8> = Vec::new();
    let mut i: usize = 0;
    while i < n
        invariant
            i <= n,
            v@.len() == i,
        decreases n - i,
    {
        v.push(0);
        i += 1;
    }
    v
}

/// Serializes `ts` into a new vector of exactly the computed size, in the
/// ascending big-endian layout, inverted as a whole under descending order.
pub fn ser_to_vec_ordered(ts: &Vec<Token>, order: Order) -> (r: Result<Vec<u8>, Error>)
    ensures
        match r {
            Ok(b) => total_size(ts@) <= usize::MAX && b@ == apply_order(
                order,
                encoding(ts@, ascending_params()),
            ),
            Err(e) => total_size(ts@) > usize::MAX && e == Error::BufferOverflow,
        },
{
    let n = calc_size(ts)?;
    let mut ser = new_ser_asc(DeBytesWriter::new(zeroed(n)));
    match ser.serialize_tokens(ts) {
        Ok(()) => {},
        Err(e) => return Err(e),
    }
    let mut b = match ser.writer.finalize() {
        Ok(b) => b,
        Err(e) => return Err(e),
    };
    if order == Order::Descending {
        invert_buffer(&mut b);
    }
    Ok(b)
}

/// Serializes `ts` in the ascending layout into `buf`, which must be of the
/// exact size: a smaller one fails with overflow, a larger one with underflow.
pub fn ser_to_buf_asc_exact(buf: &mut Vec<u8>, ts: &Vec<Token>) -> (r: Result<(), Error>)
    ensures
        final(buf)@.len() == old(buf)@.len(),
        r is Ok <==> total_size(ts@) == old(buf)@.len(),
        r is Ok ==> final(buf)@ == encoding(ts@, ascending_params()),
        r matches Err(e) ==> if total_size(ts@) > old(buf)@.len() {
            e == Error::BufferOverflow
        } else {
            e == Error::BufferUnderflow
        },
{
    let mut region: Vec<u8> = Vec::new();
    std::mem::swap(buf, &mut region);
    let mut ser = new_ser_asc(DeBytesWriter::new(region));
    let r = ser.serialize_tokens(ts);
    let done = ser.writer.is_complete();
    proof {
        ser.writer.lemma_capacity();
    }
    let mut out = ser.writer.into_inner();
    std::mem::swap(buf, &mut out);
    match r {
        Ok(()) => done,
        Err(e) => Err(e),
    }
}

/// Serializes `ts` in the ascending layout into the front of `buf`, which may
/// be larger than needed, and inverts the whole buffer under descending
/// order. Returns the number of bytes used.
pub fn ser_to_buf_ordered(buf: &mut Vec<u8>, ts: &Vec<Token>, order: Order) -> (r: Result<usize, Error>)
    ensures
        final(buf)@.len() == old(buf)@.len(),
        r is Ok <==> total_size(ts@) <= old(buf)@.len(),
        r matches Ok(n) ==> n == total_size(ts@) && final(buf)@.take(n as int) == apply_order(
            order,
            encoding(ts@, ascending_params()),
        ),
        r matches Err(e) ==> e == Error::BufferOverflow,
{
    let mut region: Vec<u8> = Vec::new();
    std::mem::swap(buf, &mut region);
    let mut ser = new_ser_asc(DeBytesWriter::new(region));
    let r = ser.serialize_tokens(ts);
    proof {
        ser.writer.lemma_capacity();
    }
    let (mut out, n) = ser.writer.into_compacted();
    if r.is_ok() && order == Order::Descending {
        let ghost plain = out@;
        invert_buffer(&mut out);
        assert(out@.take(n as int) =~= invert(plain.take(n as int)));
    }
    std::mem::swap(buf, &mut out);
    match r {
        Ok(()) => Ok(n),
        Err(e) => Err(e),
    }
}

/// Under descending order the encoding of any token sequence is the
/// bitwise inversion of its ascending encoding.
pub proof fn descending_is_inverted(ts: Seq<Token>, e: Endianness)
    ensures
        encoding(ts, EncodingParams { endianness: e, order: Order::Descending }) == invert(
            encoding(ts, EncodingParams { endianness: e, order: Order::Ascending }),
        ),
    decreases ts.len(),
{
    let d = EncodingParams { endianness: e, order: Order::Descending };
    let a = EncodingParams { endianness: e, order: Order::Ascending };
    lemma_heads_tails_inverted(ts, e);
    assert(invert(heads(ts, a) + tails(ts, a)) =~= invert(heads(ts, a)) + invert(tails(ts, a)));
}

proof fn lemma_heads_tails_inverted(ts: Seq<Token>, e: Endianness)
    ensures
        heads(ts, EncodingParams { endianness: e, order: Order::Descending }) == invert(
            heads(ts, EncodingParams { endianness: e, order: Order::Ascending }),
        ),
        tails(ts, EncodingParams { endianness: e, order: Order::Descending }) == invert(
            tails(ts, EncodingParams { endianness: e, order: Order::Ascending }),
        ),
    decreases ts.len(),
{
    let d = EncodingParams { endianness: e, order: Order::Descending };
    let a = EncodingParams { endianness: e, order: Order::Ascending };
    if ts.len() == 0 {
        assert(invert(Seq::<u8>::empty()) =~= Seq::<u8>::empty());
    } else {
        lemma_heads_tails_inverted(ts.drop_last(), e);
        let t = ts.last();
        assert(token_head(t, d) =~= invert(token_head(t, a)));
        assert(token_tail(t, d) =~= invert(token_tail(t, a)));
        assert(invert(heads(ts.drop_last(), a) + token_head(t, a)) =~= invert(
            heads(ts.drop_last(), a),
        ) + invert(token_head(t, a)));
        assert(invert(token_tail(t, a) + tails(ts.drop_last(), a)) =~= invert(token_tail(t, a))
            + invert(tails(ts.drop_last(), a)));
    }
}

} // verus!
