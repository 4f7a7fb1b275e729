//! Compact encoding of lengths, counts and tags.
//!
//! Each byte carries seven payload bits above a low flag bit; the flag is set
//! on the last byte only. Groups come least significant first. The encoding is
//! not order-preserving and is used only for metadata.
use vstd::prelude::*;
use crate::buf::{head_write, DeBytesReader, DeBytesWriter};
use crate::errors::Error;
use crate::params::{EncodingParams, Order};
use crate::primitives::{apply_order, invert_buffer, lemma_order_involution};

verus! {

/// Longest encoding of a 64-bit value, in bytes.
pub const MAX_VARINT_LEN: usize = 10;

/// `128` to the power `n`.
pub open spec fn pow128(n: nat) -> nat
    decreases n,
{
    if n == 0 {
        1
    } else {
        128 * pow128((n - 1) as nat)
    }
}

/// The encoding of `v`.
pub open spec fn varint_bytes(v: nat) -> Seq<u8>
    decreases v,
{
    if v < 128 {
        seq![(v * 2 + 1) as u8]
    } else {
        seq![((v % 128) * 2) as u8] + varint_bytes(v / 128)
    }
}

/// Parses a value from the front of `s`, reading at most `k` bytes: the value
/// and the number of bytes it took. `lead` marks the first byte; a last byte
/// after it must carry a non-zero payload, so that every value has one
/// encoding only.
pub open spec fn varint_parse(s: Seq<u8>, k: nat, lead: bool) -> Result<(nat, nat), Error>
    decreases k,
{
    if k == 0 {
        Err(Error::InvalidVarintEncoding)
    } else if s.len() == 0 {
        Err(Error::PrematureEndOfInput)
    } else if s[0] % 2 == 1 {
        if !lead && s[0] / 2 == 0 {
            Err(Error::InvalidVarintEncoding)
        } else {
            Ok(((s[0] / 2) as nat, 1))
        }
    } else {
        match varint_parse(s.drop_first(), (k - 1) as nat, false) {
            Ok((v, n)) => Ok(((s[0] / 2) as nat + 128 * v, n + 1)),
            Err(e) => Err(e),
        }
    }
}

/// Decodes a 64-bit value from the front of `s`.
pub open spec fn varint_decode(s: Seq<u8>) -> Result<(nat, nat), Error> {
    match varint_parse(s, MAX_VARINT_LEN as nat, true) {
        Ok((v, n)) => if v < 0x1_0000_0000_0000_0000 {
            Ok((v, n))
        } else {
            Err(Error::InvalidVarintEncoding)
        },
        Err(e) => Err(e),
    }
}

/// The bytes as a varint reader meets them: from the head forward, or from
/// the tail backward.
pub open spec fn raw_stream(from_tail: bool, rem: Seq<u8>) -> Seq<u8> {
    if from_tail {
        rem.reverse()
    } else {
        rem
    }
}

/// What is left of `rem` once `n` bytes are taken from the head or the tail.
pub open spec fn consume(from_tail: bool, rem: Seq<u8>, n: nat) -> Seq<u8> {
    if from_tail {
        rem.take(rem.len() - n)
    } else {
        rem.skip(n as int)
    }
}

/// The bytes stored for `v` at the head, or at the tail.
pub open spec fn varint_stored(p: EncodingParams, v: nat, to_tail: bool) -> Seq<u8> {
    apply_order(p.order, raw_stream(to_tail, varint_bytes(v)))
}

proof fn lemma_pow128_ten()
    ensures
        pow128(9) == 0x8000_0000_0000_0000,
        pow128(10) == 0x40_0000_0000_0000_0000,
{
    reveal_with_fuel(pow128, 11);
}

/// The encoding of `v` is at most `k` bytes when `v < 128^k`.
proof fn lemma_varint_len(v: nat, k: nat)
    requires
        1 <= k,
        v < pow128(k),
    ensures
        1 <= varint_bytes(v).len() <= k,
    decreases v,
{
    if v >= 128 {
        let p = pow128((k - 1) as nat);
        assert(v / 128 < p) by (nonlinear_arith)
            requires
                v < 128 * p,
        ;
        if k == 1 {
            assert(pow128(0) == 1);
        } else {
            lemma_varint_len(v / 128, (k - 1) as nat);
        }
    }
}

/// Every 64-bit value takes one to ten bytes.
pub proof fn lemma_varint_len_u64(v: nat)
    requires
        v < 0x1_0000_0000_0000_0000,
    ensures
        1 <= varint_bytes(v).len() <= MAX_VARINT_LEN,
{
    lemma_pow128_ten();
    lemma_varint_len(v, 10);
}

proof fn lemma_varint_parse_bytes(v: nat, rest: Seq<u8>, k: nat, lead: bool)
    requires
        varint_bytes(v).len() <= k,
        !lead ==> v >= 1,
    ensures
        varint_parse(varint_bytes(v) + rest, k, lead) == Ok::<(nat, nat), Error>(
            (v, varint_bytes(v).len()),
        ),
    decreases v,
{
    let s = varint_bytes(v) + rest;
    if v < 128 {
        assert(s[0] == (v * 2 + 1) as u8);
    } else {
        let b = ((v % 128) * 2) as u8;
        assert(s[0] == b);
        assert(s.drop_first() =~= varint_bytes(v / 128) + rest);
        lemma_varint_parse_bytes(v / 128, rest, (k - 1) as nat, false);
    }
}

/// A successful parse read exactly the encoding of the value it gives.
pub proof fn lemma_parse_sound(s: Seq<u8>, k: nat, lead: bool)
    ensures
        varint_parse(s, k, lead) matches Ok((v, n)) ==> 1 <= n <= s.len() && s.take(n as int)
            == varint_bytes(v) && (!lead ==> v >= 1),
    decreases k,
{
    if k > 0 && s.len() > 0 && s[0] % 2 == 0 {
        lemma_parse_sound(s.drop_first(), (k - 1) as nat, false);
        if let Ok((v1, n1)) = varint_parse(s.drop_first(), (k - 1) as nat, false) {
            let v = (s[0] / 2) as nat + 128 * v1;
            assert(v % 128 == (s[0] / 2) as nat && v / 128 == v1);
            assert(s.take(n1 + 1 as int) =~= seq![s[0]] + s.drop_first().take(n1 as int));
            assert(varint_bytes(v) == seq![((v % 128) * 2) as u8] + varint_bytes(v / 128));
        }
    }
}

/// Decoding the encoding of a 64-bit value, whatever follows it, gives the
/// value back and consumes exactly its bytes.
pub proof fn varint_round_trip(v: nat, rest: Seq<u8>)
    requires
        v < 0x1_0000_0000_0000_0000,
    ensures
        varint_decode(varint_bytes(v) + rest) == Ok::<(nat, nat), Error>(
            (v, varint_bytes(v).len()),
        ),
{
    lemma_varint_len_u64(v);
    lemma_varint_parse_bytes(v, rest, MAX_VARINT_LEN as nat, true);
}

/// Encodes `v`.
pub fn varint_encode(v: u64) -> (r: Vec<u8>)
    ensures
        r@ == varint_bytes(v as nat),
{
    let mut out: Vec<u8> = Vec::new();
    let mut cur: u64 = v;
    while cur >= 128
        invariant
            out@ + varint_bytes(cur as nat) == varint_bytes(v as nat),
        decreases cur,
    {
        let ghost prev = out@;
        let ghost rest = varint_bytes(cur as nat / 128);
        out.push(((cur % 128) * 2) as u8);
        assert(out@ + rest =~= prev + (seq![((cur % 128) * 2) as u8] + rest));
        cur = cur / 128;
    }
    let ghost prev = out@;
    out.push((cur * 2 + 1) as u8);
    assert(out@ =~= prev + varint_bytes(cur as nat));
    out
}

/// The number of bytes that the encoding of `v` takes.
pub fn varint_size(v: u64) -> (r: usize)
    ensures
        r == varint_bytes(v as nat).len(),
        1 <= r <= MAX_VARINT_LEN,
{
    proof {
        lemma_varint_len_u64(v as nat);
    }
    let mut n: usize = 1;
    let mut cur: u64 = v;
    while cur >= 128
        invariant
            n + varint_bytes(cur as nat).len() == varint_bytes(v as nat).len() + 1,
            varint_bytes(v as nat).len() <= MAX_VARINT_LEN,
            1 <= varint_bytes(cur as nat).len(),
        decreases cur,
    {
        proof {
            lemma_varint_len_u64(cur as nat / 128);
        }
        n += 1;
        cur = cur / 128;
    }
    n
}

/// Writes the encoding of `v` at the head (`to_tail` false) or before the
/// tail, in the order that reading it back from that end expects.
pub fn write_varint(w: &mut DeBytesWriter, v: u64, to_tail: bool, p: EncodingParams) -> (r: Result<(), Error>)
    requires
        old(w).wf(),
    ensures
        !to_tail ==> head_write(*old(w), *final(w), varint_stored(p, v as nat, false), r),
        to_tail ==> final(w).wf() && final(w).capacity() == old(w).capacity() && match r {
            Ok(()) => varint_stored(p, v as nat, true).len() <= old(w).room()
                && final(w).tail_region() == varint_stored(p, v as nat, true) + old(w).tail_region()
                && final(w).head_region() == old(w).head_region()
                && final(w).room() == old(w).room() - varint_stored(p, v as nat, true).len(),
            Err(e) => varint_stored(p, v as nat, true).len() > old(w).room() && e == Error::BufferOverflow,
        },
{
    let mut b = varint_encode(v);
    if to_tail {
        b = reverse_bytes(&b);
    }
    if p.order == Order::Descending {
        invert_buffer(&mut b);
    }
    if to_tail {
        w.write_to_tail(b.as_slice())
    } else {
        w.write(b.as_slice())
    }
}

fn reverse_bytes(s: &Vec<u8>) -> (r: Vec<u8>)
    ensures
        r@ == s@.reverse(),
{
    let mut r: Vec<u8> = Vec::new();
    let mut i: usize = s.len();
    while i > 0
        invariant
            i <= s@.len(),
            r@ == s@.skip(i as int).reverse(),
        decreases i,
    {
        i -= 1;
        r.push(s[i]);
        assert(r@ =~= s@.skip(i as int).reverse());
    }
    assert(s@.skip(0) =~= s@);
    r
}

/// Consumes one byte from the head or from the tail.
fn read_one(r: &mut DeBytesReader, from_tail: bool) -> (res: Result<u8, Error>)
    requires
        old(r).wf(),
    ensures
        final(r).wf(),
        match res {
            Ok(b) => old(r).remaining().len() > 0
                && b == raw_stream(from_tail, old(r).remaining())[0]
                && final(r).remaining() == consume(from_tail, old(r).remaining(), 1),
            Err(e) => old(r).remaining().len() == 0 && e == Error::PrematureEndOfInput,
        },
{
    let b = if from_tail {
        r.read_from_tail(1)?
    } else {
        r.read(1)?
    };
    Ok(b[0])
}

/// What the full parse is, given the value gathered from the first `i` bytes
/// and the parse of what follows them.
pub open spec fn shift_parse(acc: nat, mul: nat, i: nat, rest: Result<(nat, nat), Error>) -> Result<(nat, nat), Error> {
    match rest {
        Ok((v, n)) => Ok((acc + mul * v, n + i)),
        Err(e) => Err(e),
    }
}

/// Parsing fails only by running out of input or by an unterminated chain.
pub proof fn lemma_parse_errors(s: Seq<u8>, k: nat, lead: bool)
    ensures
        varint_parse(s, k, lead) matches Err(e) ==> e == Error::PrematureEndOfInput || e
            == Error::InvalidVarintEncoding,
    decreases k,
{
    if k > 0 && s.len() > 0 {
        lemma_parse_errors(s.drop_first(), (k - 1) as nat, false);
    }
}

/// Reads a 64-bit value from the head (`from_tail` false) or from the tail.
pub fn read_varint(r: &mut DeBytesReader, from_tail: bool, p: EncodingParams) -> (res: Result<u64, Error>)
    requires
        old(r).wf(),
    ensures
        final(r).wf(),
        res matches Err(e) ==> e == Error::PrematureEndOfInput || e == Error::InvalidVarintEncoding,
        match varint_decode(apply_order(p.order, raw_stream(from_tail, old(r).remaining()))) {
            Ok((v, n)) => res == Ok::<u64, Error>(v as u64)
                && final(r).remaining() == consume(from_tail, old(r).remaining(), n),
            Err(e) => res == Err::<u64, Error>(e),
        },
{
    let ghost rem0 = old(r).remaining();
    let ghost s = apply_order(p.order, raw_stream(from_tail, rem0));
    proof {
        lemma_parse_errors(s, MAX_VARINT_LEN as nat, true);
    }
    let mut acc: u128 = 0;
    let mut mul: u128 = 1;
    let mut i: usize = 0;
    assert(s.skip(0) =~= s);
    assert(consume(from_tail, rem0, 0) =~= rem0);
    while i < MAX_VARINT_LEN
        invariant
            r.wf(),
            rem0 == old(r).remaining(),
            i <= MAX_VARINT_LEN,
            s == apply_order(p.order, raw_stream(from_tail, rem0)),
            r.remaining() == consume(from_tail, rem0, i as nat),
            i <= rem0.len(),
            mul == pow128(i as nat),
            acc < mul,
            varint_parse(s, MAX_VARINT_LEN as nat, true) == shift_parse(
                acc as nat,
                mul as nat,
                i as nat,
                varint_parse(s.skip(i as int), (MAX_VARINT_LEN - i) as nat, i == 0),
            ),
        decreases MAX_VARINT_LEN - i,
    {
        proof {
            lemma_pow128_ten();
            lemma_pow128_mono(i as nat, 9);
            lemma_order_involution(p.order, raw_stream(from_tail, rem0));
        }
        let ghost rem = r.remaining();
        let ghost t = s.skip(i as int);
        assert(raw_stream(from_tail, rem) =~= raw_stream(from_tail, rem0).skip(i as int));
        let raw = match read_one(r, from_tail) {
            Ok(b) => b,
            Err(e) => {
                assert(t.len() == 0);
                assert(varint_parse(t, (MAX_VARINT_LEN - i) as nat, i == 0) == Err::<(nat, nat), Error>(
                    Error::PrematureEndOfInput,
                ));
                assert(varint_parse(s, MAX_VARINT_LEN as nat, true) == Err::<(nat, nat), Error>(
                    Error::PrematureEndOfInput,
                ));
                assert(varint_decode(s) == Err::<(nat, nat), Error>(Error::PrematureEndOfInput));
                return Err(e);
            },
        };
        let b = if p.order == Order::Descending {
            255 - raw
        } else {
            raw
        };
        assert(b == t[0]);
        assert(t.drop_first() =~= s.skip(i + 1));
        assert(r.remaining() =~= consume(from_tail, rem0, (i + 1) as nat));
        let part = (b / 2) as u128;
        assert(acc + mul * part < mul * 128) by (nonlinear_arith)
            requires
                acc < mul,
                part < 128,
        ;
        assert(mul * 128 <= 0x40_0000_0000_0000_0000) by (nonlinear_arith)
            requires
                mul <= 0x8000_0000_0000_0000,
        ;
        let ghost acc0 = acc;
        let ghost mul0 = mul;
        acc = acc + mul * part;
        mul = mul * 128;
        i += 1;
        if b % 2 == 1 {
            if i > 1 && b / 2 == 0 {
                assert(varint_parse(t, (MAX_VARINT_LEN - (i - 1)) as nat, false) == Err::<(nat, nat), Error>(
                    Error::InvalidVarintEncoding,
                ));
                assert(varint_decode(s) == Err::<(nat, nat), Error>(Error::InvalidVarintEncoding));
                return Err(Error::InvalidVarintEncoding);
            }
            assert(varint_parse(t, (MAX_VARINT_LEN - (i - 1)) as nat, i == 1) == Ok::<(nat, nat), Error>(
                ((b / 2) as nat, 1),
            ));
            assert(varint_parse(s, MAX_VARINT_LEN as nat, true) == Ok::<(nat, nat), Error>(
                (acc as nat, i as nat),
            ));
            if acc > 0xFFFF_FFFF_FFFF_FFFF {
                assert(varint_decode(s) == Err::<(nat, nat), Error>(Error::InvalidVarintEncoding));
                return Err(Error::InvalidVarintEncoding);
            }
            return Ok(acc as u64);
        }
        proof {
            let k = (MAX_VARINT_LEN - i) as nat;
            match varint_parse(s.skip(i as int), k, false) {
                Ok((v, n)) => {
                    assert(acc0 + mul0 * (part + 128 * v) == acc + mul * v) by (nonlinear_arith)
                        requires
                            acc == acc0 + mul0 * part,
                            mul == mul0 * 128,
                    ;
                },
                Err(e) => {},
            }
        }
    }
    assert(varint_parse(s.skip(i as int), 0, i == 0) == Err::<(nat, nat), Error>(Error::InvalidVarintEncoding));
    Err(Error::InvalidVarintEncoding)
}

proof fn lemma_pow128_mono(a: nat, b: nat)
    requires
        a <= b,
    ensures
        1 <= pow128(a) <= pow128(b),
    decreases b,
{
    if b > 0 {
        if a < b {
            lemma_pow128_mono(a, (b - 1) as nat);
        } else {
            lemma_pow128_mono((b - 1) as nat, (b - 1) as nat);
        }
    }
}

} // verus!
