//! Order-preserving encodings of fixed-width scalars.
//!
//! Unsigned integers are laid out in the configured byte order; signed integers
//! are first shifted by half their range (the same as flipping the sign bit),
//! so that big-endian bytes compare as the values do. Under descending order
//! every byte is inverted.
use vstd::prelude::*;
use crate::buf::{head_read, head_write, DeBytesReader, DeBytesWriter};
use crate::errors::Error;
use crate::params::{EncodingParams, Endianness, Order};

verus! {

/// Data format version of the primitive encodings.
pub const VERSION: u8 = 1;

/// `256` to the power `n`.
pub open spec fn pow256(n: nat) -> nat
    decreases n,
{
    if n == 0 {
        1
    } else {
        256 * pow256((n - 1) as nat)
    }
}

/// The `n` low bytes of `v`, least significant first.
pub open spec fn le_bytes(v: nat, n: nat) -> Seq<u8>
    decreases n,
{
    if n == 0 {
        Seq::empty()
    } else {
        seq![(v % 256) as u8] + le_bytes(v / 256, (n - 1) as nat)
    }
}

/// The number whose least significant byte comes first in `s`.
pub open spec fn le_value(s: Seq<u8>) -> nat
    decreases s.len(),
{
    if s.len() == 0 {
        0
    } else {
        s[0] as nat + 256 * le_value(s.drop_first())
    }
}

/// Every byte bitwise inverted.
pub open spec fn invert(s: Seq<u8>) -> Seq<u8> {
    s.map_values(|b: u8| (255 - b) as u8)
}

/// Inverts the bytes under descending order.
pub open spec fn apply_order(o: Order, s: Seq<u8>) -> Seq<u8> {
    if o == Order::Descending {
        invert(s)
    } else {
        s
    }
}

/// Turns little-endian bytes into the configured layout (and back).
pub open spec fn apply_layout(e: Endianness, s: Seq<u8>) -> Seq<u8> {
    if e == Endianness::Big {
        s.reverse()
    } else {
        s
    }
}

/// The encoding of an unsigned value `v` of `n` bytes.
pub open spec fn uint_bytes(p: EncodingParams, v: nat, n: nat) -> Seq<u8> {
    apply_order(p.order, apply_layout(p.endianness, le_bytes(v, n)))
}

/// The unsigned value that the encoded bytes `s` stand for.
pub open spec fn uint_value(p: EncodingParams, s: Seq<u8>) -> nat {
    le_value(apply_layout(p.endianness, apply_order(p.order, s)))
}

/// A signed value of `n` bytes shifted onto the unsigned range.
pub open spec fn signed_key(v: int, n: nat) -> nat {
    (v + pow256(n) / 2) as nat
}

/// The signed value that a shifted key of `n` bytes stands for.
pub open spec fn signed_of_key(k: nat, n: nat) -> int {
    k - pow256(n) / 2
}

/// The Unicode scalar values: code points that are not surrogates.
pub open spec fn is_scalar(v: u32) -> bool {
    v < 0xD800 || (0xE000 <= v && v <= 0x10FFFF)
}

pub proof fn lemma_pow256_values()
    ensures
        pow256(1) == 256,
        pow256(2) == 0x1_0000,
        pow256(4) == 0x1_0000_0000,
        pow256(8) == 0x1_0000_0000_0000_0000,
        pow256(16) == 0x1_0000_0000_0000_0000_0000_0000_0000_0000,
{
    reveal_with_fuel(pow256, 17);
}

proof fn lemma_pow256_mono(a: nat, b: nat)
    requires
        a <= b,
    ensures
        1 <= pow256(a) <= pow256(b),
    decreases b,
{
    if b > 0 {
        if a < b {
            lemma_pow256_mono(a, (b - 1) as nat);
        } else {
            lemma_pow256_mono((b - 1) as nat, (b - 1) as nat);
        }
    } else {
    }
}

pub proof fn lemma_le_bytes_len(v: nat, n: nat)
    ensures
        le_bytes(v, n).len() == n,
    decreases n,
{
    if n > 0 {
        lemma_le_bytes_len(v / 256, (n - 1) as nat);
    }
}

pub proof fn lemma_le_value_bound(s: Seq<u8>)
    ensures
        le_value(s) < pow256(s.len()),
    decreases s.len(),
{
    if s.len() > 0 {
        lemma_le_value_bound(s.drop_first());
        let r = le_value(s.drop_first());
        let p = pow256((s.len() - 1) as nat);
        let b = s[0] as nat;
        assert(b + 256 * r < 256 * p) by (nonlinear_arith)
            requires
                r < p,
                b < 256,
        ;
    }
}

pub proof fn lemma_le_round_trip(v: nat, n: nat)
    requires
        v < pow256(n),
    ensures
        le_value(le_bytes(v, n)) == v,
    decreases n,
{
    if n > 0 {
        let p = pow256((n - 1) as nat);
        assert(v / 256 < p) by (nonlinear_arith)
            requires
                v < 256 * p,
        ;
        lemma_le_round_trip(v / 256, (n - 1) as nat);
        let s = le_bytes(v, n);
        assert(s.drop_first() =~= le_bytes(v / 256, (n - 1) as nat));
    } else {
        assert(v == 0);
    }
}

/// Bytes are the little-endian encoding of the value they stand for.
pub proof fn lemma_le_bytes_of_value(s: Seq<u8>)
    ensures
        le_bytes(le_value(s), s.len()) == s,
    decreases s.len(),
{
    if s.len() > 0 {
        lemma_le_bytes_of_value(s.drop_first());
        let v = le_value(s);
        assert(v % 256 == s[0] as nat && v / 256 == le_value(s.drop_first()));
        assert(le_bytes(v, s.len()) =~= s);
    } else {
        assert(le_bytes(le_value(s), 0) =~= s);
    }
}

/// Any `n` bytes are the encoding of the value they are read as.
pub proof fn uint_bytes_of_value(p: EncodingParams, s: Seq<u8>)
    ensures
        uint_bytes(p, uint_value(p, s), s.len()) == s,
{
    let x = apply_layout(p.endianness, apply_order(p.order, s));
    lemma_order_involution(p.order, s);
    lemma_layout_involution(p.endianness, apply_order(p.order, s));
    lemma_le_bytes_of_value(x);
}

pub proof fn lemma_invert_invert(s: Seq<u8>)
    ensures
        invert(invert(s)) == s,
{
    assert(invert(invert(s)) =~= s);
}

pub proof fn lemma_order_involution(o: Order, s: Seq<u8>)
    ensures
        apply_order(o, apply_order(o, s)) == s,
        apply_order(o, s).len() == s.len(),
{
    lemma_invert_invert(s);
}

pub proof fn lemma_layout_involution(e: Endianness, s: Seq<u8>)
    ensures
        apply_layout(e, apply_layout(e, s)) == s,
        apply_layout(e, s).len() == s.len(),
{
    assert(s.reverse().reverse() =~= s);
}

/// The value read back from the encoding of an unsigned value that fits its
/// width is the value itself, in every configuration.
pub proof fn uint_round_trip(p: EncodingParams, v: nat, n: nat)
    requires
        v < pow256(n),
    ensures
        uint_value(p, uint_bytes(p, v, n)) == v,
        uint_bytes(p, v, n).len() == n,
{
    let le = le_bytes(v, n);
    lemma_le_bytes_len(v, n);
    lemma_layout_involution(p.endianness, le);
    lemma_order_involution(p.order, apply_layout(p.endianness, le));
    lemma_le_round_trip(v, n);
}

/// Decoding the encoding of a signed value of `n` bytes gives the value back.
pub proof fn signed_round_trip(p: EncodingParams, v: int, n: nat)
    requires
        1 <= n,
        -(pow256(n) / 2) <= v < pow256(n) / 2,
    ensures
        signed_of_key(uint_value(p, uint_bytes(p, signed_key(v, n), n)), n) == v,
{
    uint_round_trip(p, signed_key(v, n), n);
}

/// The value read from `n` encoded bytes fits `n` bytes.
pub proof fn lemma_uint_value_bound(p: EncodingParams, s: Seq<u8>)
    ensures
        uint_value(p, s) < pow256(s.len()),
{
    lemma_order_involution(p.order, s);
    lemma_layout_involution(p.endianness, apply_order(p.order, s));
    lemma_le_value_bound(apply_layout(p.endianness, apply_order(p.order, s)));
}

/// Bitwise inverts every byte of `buf`.
pub fn invert_buffer(buf: &mut Vec<u8>)
    ensures
        final(buf)@ == invert(old(buf)@),
{
    let mut i: usize = 0;
    while i < buf.len()
        invariant
            buf@.len() == old(buf)@.len(),
            i <= buf@.len(),
            forall|j: int| 0 <= j < i ==> buf@[j] == 255 - old(buf)@[j],
            forall|j: int| i <= j < buf@.len() ==> buf@[j] == old(buf)@[j],
        decreases buf@.len() - i,
    {
        let b = buf[i];
        buf.set(i, 255 - b);
        i += 1;
    }
    assert(buf@ =~= invert(old(buf)@));
}

fn reversed(s: &Vec<u8>) -> (r: Vec<u8>)
    ensures
        r@ == s@.reverse(),
{
    let mut r: Vec<u8> = Vec::new();
    let mut i: usize = 0;
    while i < s.len()
        invariant
            i <= s@.len(),
            r@ == s@.reverse().take(i as int),
        decreases s@.len() - i,
    {
        r.push(s[s.len() - 1 - i]);
        i += 1;
        assert(r@ =~= s@.reverse().take(i as int));
    }
    assert(r@ =~= s@.reverse());
    r
}

fn le_encode(v: u128, n: usize) -> (r: Vec<u8>)
    ensures
        r@ == le_bytes(v as nat, n as nat),
{
    let mut out: Vec<u8> = Vec::new();
    let mut cur: u128 = v;
    let mut i: usize = 0;
    while i < n
        invariant
            i <= n,
            out@ + le_bytes(cur as nat, (n - i) as nat) == le_bytes(v as nat, n as nat),
        decreases n - i,
    {
        let ghost rest = le_bytes(cur as nat / 256, (n - i - 1) as nat);
        assert(le_bytes(cur as nat, (n - i) as nat) == seq![(cur % 256) as u8] + rest);
        let ghost prev = out@;
        out.push((cur % 256) as u8);
        assert(out@ + rest =~= prev + (seq![(cur % 256) as u8] + rest));
        cur = cur / 256;
        i += 1;
    }
    assert(out@ + le_bytes(cur as nat, 0) =~= out@);
    out
}

fn le_decode(s: &Vec<u8>) -> (r: u128)
    requires
        s@.len() <= 16,
    ensures
        r == le_value(s@),
{
    let mut acc: u128 = 0;
    let mut i: usize = s.len();
    assert(s@.skip(s@.len() as int) =~= Seq::<u8>::empty());
    while i > 0
        invariant
            i <= s@.len() <= 16,
            acc == le_value(s@.skip(i as int)),
        decreases i,
    {
        let ghost next = s@.skip(i - 1);
        assert(next.drop_first() =~= s@.skip(i as int));
        proof {
            lemma_le_value_bound(next);
            lemma_pow256_mono(next.len(), 16);
            lemma_pow256_values();
        }
        acc = acc * 256 + s[i - 1] as u128;
        i -= 1;
    }
    assert(s@.skip(0) =~= s@);
    acc
}

/// Encodes the unsigned value `v` as `n` bytes.
fn encode_uint(v: u128, n: usize, p: EncodingParams) -> (r: Vec<u8>)
    ensures
        r@ == uint_bytes(p, v as nat, n as nat),
{
    let mut b = le_encode(v, n);
    if p.endianness == Endianness::Big {
        b = reversed(&b);
    }
    if p.order == Order::Descending {
        invert_buffer(&mut b);
    }
    b
}

/// Decodes `n` encoded bytes into the unsigned value they stand for.
fn decode_uint(s: Vec<u8>, p: EncodingParams) -> (r: u128)
    requires
        s@.len() <= 16,
    ensures
        r == uint_value(p, s@),
{
    let mut b = s;
    if p.order == Order::Descending {
        invert_buffer(&mut b);
    }
    if p.endianness == Endianness::Big {
        b = reversed(&b);
    }
    le_decode(&b)
}

/// Writes the `n`-byte encoding of `v` at the head.
fn serialize_uint(w: &mut DeBytesWriter, v: u128, n: usize, p: EncodingParams) -> (r: Result<(), Error>)
    requires
        old(w).wf(),
    ensures
        head_write(*old(w), *final(w), uint_bytes(p, v as nat, n as nat), r),
{
    let b = encode_uint(v, n, p);
    proof {
        lemma_le_bytes_len(v as nat, n as nat);
        lemma_layout_involution(p.endianness, le_bytes(v as nat, n as nat));
        lemma_order_involution(p.order, apply_layout(p.endianness, le_bytes(v as nat, n as nat)));
    }
    w.write(b.as_slice())
}

/// Reads `n` encoded bytes at the head as an unsigned value.
fn deserialize_uint(r: &mut DeBytesReader, n: usize, p: EncodingParams) -> (res: Result<u128, Error>)
    requires
        old(r).wf(),
        n <= 16,
    ensures
        final(r).wf(),
        match res {
            Ok(v) => n <= old(r).remaining().len()
                && v == uint_value(p, old(r).remaining().take(n as int))
                && final(r).remaining() == old(r).remaining().skip(n as int),
            Err(e) => n > old(r).remaining().len() && e == Error::PrematureEndOfInput,
        },
{
    let b = r.read(n)?;
    Ok(decode_uint(b, p))
}


/// Writes `v` as 1 ordered byte at the head.
pub fn serialize_u8(w: &mut DeBytesWriter, v: u8, p: EncodingParams) -> (r: Result<(), Error>)
    requires
        old(w).wf(),
    ensures
        head_write(*old(w), *final(w), uint_bytes(p, v as nat, 1), r),
{
    serialize_uint(w, v as u128, 1, p)
}

/// Writes `v` as 1 ordered byte at the head, shifted onto the unsigned range.
pub fn serialize_i8(w: &mut DeBytesWriter, v: i8, p: EncodingParams) -> (r: Result<(), Error>)
    requires
        old(w).wf(),
    ensures
        head_write(*old(w), *final(w), uint_bytes(p, signed_key(v as int, 1), 1), r),
{
    proof {
        lemma_pow256_values();
    }
    serialize_uint(w, (v as i128 + 0x80) as u128, 1, p)
}

/// Reads a `u8` from the head.
pub fn deserialize_u8(r: &mut DeBytesReader, p: EncodingParams) -> (res: Result<u8, Error>)
    requires
        old(r).wf(),
    ensures
        head_read(*old(r), *final(r), 1, res is Ok),
        res matches Ok(v) ==> v as nat == uint_value(p, old(r).remaining().take(1)),
        res matches Err(e) ==> e == Error::PrematureEndOfInput,
{
    let v = deserialize_uint(r, 1, p)?;
    proof {
        lemma_uint_value_bound(p, old(r).remaining().take(1));
        lemma_pow256_values();
    }
    Ok(v as u8)
}

/// Reads an `i8` from the head.
pub fn deserialize_i8(r: &mut DeBytesReader, p: EncodingParams) -> (res: Result<i8, Error>)
    requires
        old(r).wf(),
    ensures
        head_read(*old(r), *final(r), 1, res is Ok),
        res matches Ok(v) ==> v as int == signed_of_key(
            uint_value(p, old(r).remaining().take(1)),
            1,
        ),
        res matches Err(e) ==> e == Error::PrematureEndOfInput,
{
    let v = deserialize_uint(r, 1, p)?;
    proof {
        lemma_uint_value_bound(p, old(r).remaining().take(1));
        lemma_pow256_values();
    }
    Ok((v as i128 - 0x80) as i8)
}

/// Writes `v` as 2 ordered bytes at the head.
pub fn serialize_u16(w: &mut DeBytesWriter, v: u16, p: EncodingParams) -> (r: Result<(), Error>)
    requires
        old(w).wf(),
    ensures
        head_write(*old(w), *final(w), uint_bytes(p, v as nat, 2), r),
{
    serialize_uint(w, v as u128, 2, p)
}

/// Writes `v` as 2 ordered bytes at the head, shifted onto the unsigned range.
pub fn serialize_i16(w: &mut DeBytesWriter, v: i16, p: EncodingParams) -> (r: Result<(), Error>)
    requires
        old(w).wf(),
    ensures
        head_write(*old(w), *final(w), uint_bytes(p, signed_key(v as int, 2), 2), r),
{
    proof {
        lemma_pow256_values();
    }
    serialize_uint(w, (v as i128 + 0x8000) as u128, 2, p)
}

/// Reads a `u16` from the head.
pub fn deserialize_u16(r: &mut DeBytesReader, p: EncodingParams) -> (res: Result<u16, Error>)
    requires
        old(r).wf(),
    ensures
        head_read(*old(r), *final(r), 2, res is Ok),
        res matches Ok(v) ==> v as nat == uint_value(p, old(r).remaining().take(2)),
        res matches Err(e) ==> e == Error::PrematureEndOfInput,
{
    let v = deserialize_uint(r, 2, p)?;
    proof {
        lemma_uint_value_bound(p, old(r).remaining().take(2));
        lemma_pow256_values();
    }
    Ok(v as u16)
}

/// Reads an `i16` from the head.
pub fn deserialize_i16(r: &mut DeBytesReader, p: EncodingParams) -> (res: Result<i16, Error>)
    requires
        old(r).wf(),
    ensures
        head_read(*old(r), *final(r), 2, res is Ok),
        res matches Ok(v) ==> v as int == signed_of_key(
            uint_value(p, old(r).remaining().take(2)),
            2,
        ),
        res matches Err(e) ==> e == Error::PrematureEndOfInput,
{
    let v = deserialize_uint(r, 2, p)?;
    proof {
        lemma_uint_value_bound(p, old(r).remaining().take(2));
        lemma_pow256_values();
    }
    Ok((v as i128 - 0x8000) as i16)
}

/// Writes `v` as 4 ordered bytes at the head.
pub fn serialize_u32(w: &mut DeBytesWriter, v: u32, p: EncodingParams) -> (r: Result<(), Error>)
    requires
        old(w).wf(),
    ensures
        head_write(*old(w), *final(w), uint_bytes(p, v as nat, 4), r),
{
    serialize_uint(w, v as u128, 4, p)
}

/// Writes `v` as 4 ordered bytes at the head, shifted onto the unsigned range.
pub fn serialize_i32(w: &mut DeBytesWriter, v: i32, p: EncodingParams) -> (r: Result<(), Error>)
    requires
        old(w).wf(),
    ensures
        head_write(*old(w), *final(w), uint_bytes(p, signed_key(v as int, 4), 4), r),
{
    proof {
        lemma_pow256_values();
    }
    serialize_uint(w, (v as i128 + 0x8000_0000) as u128, 4, p)
}

/// Reads a `u32` from the head.
pub fn deserialize_u32(r: &mut DeBytesReader, p: EncodingParams) -> (res: Result<u32, Error>)
    requires
        old(r).wf(),
    ensures
        head_read(*old(r), *final(r), 4, res is Ok),
        res matches Ok(v) ==> v as nat == uint_value(p, old(r).remaining().take(4)),
        res matches Err(e) ==> e == Error::PrematureEndOfInput,
{
    let v = deserialize_uint(r, 4, p)?;
    proof {
        lemma_uint_value_bound(p, old(r).remaining().take(4));
        lemma_pow256_values();
    }
    Ok(v as u32)
}

/// Reads an `i32` from the head.
pub fn deserialize_i32(r: &mut DeBytesReader, p: EncodingParams) -> (res: Result<i32, Error>)
    requires
        old(r).wf(),
    ensures
        head_read(*old(r), *final(r), 4, res is Ok),
        res matches Ok(v) ==> v as int == signed_of_key(
            uint_value(p, old(r).remaining().take(4)),
            4,
        ),
        res matches Err(e) ==> e == Error::PrematureEndOfInput,
{
    let v = deserialize_uint(r, 4, p)?;
    proof {
        lemma_uint_value_bound(p, old(r).remaining().take(4));
        lemma_pow256_values();
    }
    Ok((v as i128 - 0x8000_0000) as i32)
}

/// Writes `v` as 8 ordered bytes at the head.
pub fn serialize_u64(w: &mut DeBytesWriter, v: u64, p: EncodingParams) -> (r: Result<(), Error>)
    requires
        old(w).wf(),
    ensures
        head_write(*old(w), *final(w), uint_bytes(p, v as nat, 8), r),
{
    serialize_uint(w, v as u128, 8, p)
}

/// Writes `v` as 8 ordered bytes at the head, shifted onto the unsigned range.
pub fn serialize_i64(w: &mut DeBytesWriter, v: i64, p: EncodingParams) -> (r: Result<(), Error>)
    requires
        old(w).wf(),
    ensures
        head_write(*old(w), *final(w), uint_bytes(p, signed_key(v as int, 8), 8), r),
{
    proof {
        lemma_pow256_values();
    }
    serialize_uint(w, (v as i128 + 0x8000_0000_0000_0000) as u128, 8, p)
}

/// Reads a `u64` from the head.
pub fn deserialize_u64(r: &mut DeBytesReader, p: EncodingParams) -> (res: Result<u64, Error>)
    requires
        old(r).wf(),
    ensures
        head_read(*old(r), *final(r), 8, res is Ok),
        res matches Ok(v) ==> v as nat == uint_value(p, old(r).remaining().take(8)),
        res matches Err(e) ==> e == Error::PrematureEndOfInput,
{
    let v = deserialize_uint(r, 8, p)?;
    proof {
        lemma_uint_value_bound(p, old(r).remaining().take(8));
        lemma_pow256_values();
    }
    Ok(v as u64)
}

/// Reads an `i64` from the head.
pub fn deserialize_i64(r: &mut DeBytesReader, p: EncodingParams) -> (res: Result<i64, Error>)
    requires
        old(r).wf(),
    ensures
        head_read(*old(r), *final(r), 8, res is Ok),
        res matches Ok(v) ==> v as int == signed_of_key(
            uint_value(p, old(r).remaining().take(8)),
            8,
        ),
        res matches Err(e) ==> e == Error::PrematureEndOfInput,
{
    let v = deserialize_uint(r, 8, p)?;
    proof {
        lemma_uint_value_bound(p, old(r).remaining().take(8));
        lemma_pow256_values();
    }
    Ok((v as i128 - 0x8000_0000_0000_0000) as i64)
}

/// Writes `v` as 16 ordered bytes at the head.
pub fn serialize_u128(w: &mut DeBytesWriter, v: u128, p: EncodingParams) -> (r: Result<(), Error>)
    requires
        old(w).wf(),
    ensures
        head_write(*old(w), *final(w), uint_bytes(p, v as nat, 16), r),
{
    serialize_uint(w, v, 16, p)
}

/// Writes `v` as 16 ordered bytes at the head, shifted onto the unsigned range.
pub fn serialize_i128(w: &mut DeBytesWriter, v: i128, p: EncodingParams) -> (r: Result<(), Error>)
    requires
        old(w).wf(),
    ensures
        head_write(*old(w), *final(w), uint_bytes(p, signed_key(v as int, 16), 16), r),
{
    proof {
        lemma_pow256_values();
    }
    let key: u128 = if v >= 0 {
        v as u128 + 0x8000_0000_0000_0000_0000_0000_0000_0000
    } else {
        (v + 0x7fff_ffff_ffff_ffff_ffff_ffff_ffff_ffff + 1) as u128
    };
    serialize_uint(w, key, 16, p)
}

/// Reads a `u128` from the head.
pub fn deserialize_u128(r: &mut DeBytesReader, p: EncodingParams) -> (res: Result<u128, Error>)
    requires
        old(r).wf(),
    ensures
        head_read(*old(r), *final(r), 16, res is Ok),
        res matches Ok(v) ==> v as nat == uint_value(p, old(r).remaining().take(16)),
        res matches Err(e) ==> e == Error::PrematureEndOfInput,
{
    deserialize_uint(r, 16, p)
}

/// Reads an `i128` from the head.
pub fn deserialize_i128(r: &mut DeBytesReader, p: EncodingParams) -> (res: Result<i128, Error>)
    requires
        old(r).wf(),
    ensures
        head_read(*old(r), *final(r), 16, res is Ok),
        res matches Ok(v) ==> v as int == signed_of_key(
            uint_value(p, old(r).remaining().take(16)),
            16,
        ),
        res matches Err(e) ==> e == Error::PrematureEndOfInput,
{
    let u = deserialize_uint(r, 16, p)?;
    proof {
        lemma_uint_value_bound(p, old(r).remaining().take(16));
        lemma_pow256_values();
    }
    if u >= 0x8000_0000_0000_0000_0000_0000_0000_0000 {
        Ok((u - 0x8000_0000_0000_0000_0000_0000_0000_0000) as i128)
    } else {
        Ok(u as i128 - 0x7fff_ffff_ffff_ffff_ffff_ffff_ffff_ffff - 1)
    }
}

/// Writes `false` as 0 and `true` as 1, one byte.
pub fn serialize_bool(w: &mut DeBytesWriter, v: bool, p: EncodingParams) -> (r: Result<(), Error>)
    requires
        old(w).wf(),
    ensures
        head_write(*old(w), *final(w), uint_bytes(p, if v { 1 } else { 0 }, 1), r),
{
    serialize_u8(w, if v { 1 } else { 0 }, p)
}

/// Reads a byte from the head; any value but 0 is `true`.
pub fn deserialize_bool(r: &mut DeBytesReader, p: EncodingParams) -> (res: Result<bool, Error>)
    requires
        old(r).wf(),
    ensures
        head_read(*old(r), *final(r), 1, res is Ok),
        res matches Ok(v) ==> v == (uint_value(p, old(r).remaining().take(1)) != 0),
        res matches Err(e) ==> e == Error::PrematureEndOfInput,
{
    let v = deserialize_u8(r, p)?;
    Ok(v != 0)
}

/// Writes a character as its 32-bit Unicode scalar value.
pub fn serialize_char(w: &mut DeBytesWriter, v: char, p: EncodingParams) -> (r: Result<(), Error>)
    requires
        old(w).wf(),
    ensures
        head_write(*old(w), *final(w), uint_bytes(p, v as u32 as nat, 4), r),
{
    serialize_u32(w, v as u32, p)
}

/// Relies on char::from_u32: a character exactly for Unicode scalar values,
/// with that value.
#[verifier::external_body]
fn char_from_u32(v: u32) -> (r: Option<char>)
    ensures
        r is Some <==> is_scalar(v),
        r matches Some(c) ==> c as u32 == v,
{
    core::char::from_u32(v)
}

/// Reads a character; fails if the 32-bit value is no Unicode scalar value.
pub fn deserialize_char(r: &mut DeBytesReader, p: EncodingParams) -> (res: Result<char, Error>)
    requires
        old(r).wf(),
    ensures
        final(r).wf(),
        4 <= old(r).remaining().len() ==> final(r).remaining() == old(r).remaining().skip(4),
        match res {
            Ok(c) => 4 <= old(r).remaining().len() && is_scalar(
                uint_value(p, old(r).remaining().take(4)) as u32,
            ) && c as u32 == uint_value(
                p,
                old(r).remaining().take(4),
            ),
            Err(e) => if 4 <= old(r).remaining().len() {
                e == Error::InvalidUtf8Encoding && !is_scalar(
                    uint_value(p, old(r).remaining().take(4)) as u32,
                )
            } else {
                e == Error::PrematureEndOfInput
            },
        },
{
    let v = deserialize_u32(r, p)?;
    match char_from_u32(v) {
        Some(c) => Ok(c),
        None => Err(Error::InvalidUtf8Encoding),
    }
}

/// Writes raw bytes at the head, inverted under descending order.
pub fn write_bytes(w: &mut DeBytesWriter, v: &[u8], p: EncodingParams) -> (r: Result<(), Error>)
    requires
        old(w).wf(),
    ensures
        head_write(*old(w), *final(w), apply_order(p.order, v@), r),
{
    if p.order == Order::Descending {
        let mut b = vstd::slice::slice_to_vec(v);
        invert_buffer(&mut b);
        w.write(b.as_slice())
    } else {
        w.write(v)
    }
}

} // verus!
