//! Lexicographic comparison of encodings, and the laws that make comparing
//! encoded bytes compare the values.
use vstd::prelude::*;
use crate::params::{ascending_params, descending_params, EncodingParams};
use crate::primitives::{
    is_scalar, lemma_pow256_values, uint_round_trip, uint_value, invert, le_bytes, lemma_le_bytes_len, lemma_le_round_trip, pow256, signed_key, uint_bytes,
};
use crate::token::{encoding, heads, lemma_split_first, tails, token_head, Token};

verus! {

/// `a` sorts strictly before `b`, byte by byte, a proper prefix first.
pub open spec fn lex_lt(a: Seq<u8>, b: Seq<u8>) -> bool
    decreases a.len(),
{
    if a.len() == 0 {
        b.len() > 0
    } else if b.len() == 0 {
        false
    } else if a[0] != b[0] {
        a[0] < b[0]
    } else {
        lex_lt(a.drop_first(), b.drop_first())
    }
}

proof fn lemma_lex_push(x: Seq<u8>, y: Seq<u8>, a: u8, b: u8)
    requires
        x.len() == y.len(),
    ensures
        lex_lt(x.push(a), y.push(b)) == (lex_lt(x, y) || (x == y && a < b)),
    decreases x.len(),
{
    if x.len() == 0 {
        assert(x =~= y);
        assert(x.push(a)[0] == a);
        assert(y.push(b)[0] == b);
        assert(lex_lt(Seq::<u8>::empty(), Seq::<u8>::empty()) == false);
        assert(x.push(a).drop_first() =~= Seq::<u8>::empty());
        assert(y.push(b).drop_first() =~= Seq::<u8>::empty());
    } else {
        assert(x.push(a)[0] == x[0]);
        assert(y.push(b)[0] == y[0]);
        if x[0] == y[0] {
            assert(x.push(a).drop_first() =~= x.drop_first().push(a));
            assert(y.push(b).drop_first() =~= y.drop_first().push(b));
            lemma_lex_push(x.drop_first(), y.drop_first(), a, b);
            if x.drop_first() == y.drop_first() {
                assert(x =~= seq![x[0]] + x.drop_first());
                assert(y =~= seq![y[0]] + y.drop_first());
            }
            if x == y {
                assert(x.drop_first() == y.drop_first());
            }
        } else {
            assert(x != y);
        }
    }
}

proof fn lemma_lex_invert(a: Seq<u8>, b: Seq<u8>)
    requires
        a.len() == b.len(),
    ensures
        lex_lt(invert(a), invert(b)) == lex_lt(b, a),
    decreases a.len(),
{
    if a.len() > 0 {
        assert(invert(a).drop_first() =~= invert(a.drop_first()));
        assert(invert(b).drop_first() =~= invert(b.drop_first()));
        lemma_lex_invert(a.drop_first(), b.drop_first());
    }
}

proof fn lemma_be_bytes(v: nat, w: nat, n: nat)
    requires
        v < pow256(n),
        w < pow256(n),
    ensures
        v < w <==> lex_lt(le_bytes(v, n).reverse(), le_bytes(w, n).reverse()),
    decreases n,
{
    if n == 0 {
        assert(le_bytes(v, n).reverse() =~= Seq::<u8>::empty());
        assert(le_bytes(w, n).reverse() =~= Seq::<u8>::empty());
    } else {
        let m = (n - 1) as nat;
        let p = pow256(m);
        assert(v / 256 < p && w / 256 < p) by (nonlinear_arith)
            requires
                v < 256 * p,
                w < 256 * p,
        ;
        lemma_be_bytes(v / 256, w / 256, m);
        let hv = le_bytes(v / 256, m).reverse();
        let hw = le_bytes(w / 256, m).reverse();
        assert(le_bytes(v, n).reverse() =~= hv.push((v % 256) as u8));
        assert(le_bytes(w, n).reverse() =~= hw.push((w % 256) as u8));
        lemma_le_bytes_len(v / 256, m);
        lemma_le_bytes_len(w / 256, m);
        lemma_lex_push(hv, hw, (v % 256) as u8, (w % 256) as u8);
        if hv == hw {
            assert(le_bytes(v / 256, m) =~= hv.reverse());
            assert(le_bytes(w / 256, m) =~= hw.reverse());
            lemma_le_round_trip(v / 256, m);
            lemma_le_round_trip(w / 256, m);
        }
        assert(v < w <==> (v / 256 < w / 256 || (v / 256 == w / 256 && v % 256 < w % 256)));
    }
}

/// Under the ascending configuration, comparing the encodings of two
/// unsigned values of the same width compares the values; under the
/// descending one it compares them the other way round.
pub proof fn uint_order_preserved(v: nat, w: nat, n: nat)
    requires
        v < pow256(n),
        w < pow256(n),
    ensures
        v < w <==> lex_lt(uint_bytes(ascending_params(), v, n), uint_bytes(ascending_params(), w, n)),
        v < w <==> lex_lt(uint_bytes(descending_params(), w, n), uint_bytes(descending_params(), v, n)),
{
    lemma_be_bytes(v, w, n);
    lemma_le_bytes_len(v, n);
    lemma_le_bytes_len(w, n);
    lemma_lex_invert(le_bytes(w, n).reverse(), le_bytes(v, n).reverse());
}

/// The same for signed values of `n` bytes.
pub proof fn signed_order_preserved(a: int, b: int, n: nat)
    requires
        1 <= n,
        -(pow256(n) / 2) <= a < pow256(n) / 2,
        -(pow256(n) / 2) <= b < pow256(n) / 2,
    ensures
        a < b <==> lex_lt(
            uint_bytes(ascending_params(), signed_key(a, n), n),
            uint_bytes(ascending_params(), signed_key(b, n), n),
        ),
        a < b <==> lex_lt(
            uint_bytes(descending_params(), signed_key(b, n), n),
            uint_bytes(descending_params(), signed_key(a, n), n),
        ),
{
    uint_order_preserved(signed_key(a, n), signed_key(b, n), n);
}

/// An absent option sorts before a present one, whatever follows either,
/// under ascending order; after it under descending order.
pub proof fn option_absent_first(rest_none: Seq<Token>, rest_some: Seq<Token>)
    ensures
        lex_lt(
            encoding(seq![Token::OptionNone] + rest_none, ascending_params()),
            encoding(seq![Token::OptionSome] + rest_some, ascending_params()),
        ),
        lex_lt(
            encoding(seq![Token::OptionSome] + rest_some, descending_params()),
            encoding(seq![Token::OptionNone] + rest_none, descending_params()),
        ),
{
    lemma_option_first_byte(rest_none, ascending_params(), Token::OptionNone, 0);
    lemma_option_first_byte(rest_some, ascending_params(), Token::OptionSome, 1);
    lemma_option_first_byte(rest_none, descending_params(), Token::OptionNone, 255);
    lemma_option_first_byte(rest_some, descending_params(), Token::OptionSome, 254);
}

proof fn lemma_option_first_byte(rest: Seq<Token>, p: EncodingParams, t: Token, b: u8)
    requires
        p.endianness == crate::params::Endianness::Big,
        (t == Token::OptionNone && b == (if p.order == crate::params::Order::Descending { 255u8 } else { 0u8 }))
            || (t == Token::OptionSome && b == (if p.order == crate::params::Order::Descending { 254u8 } else { 1u8 })),
    ensures
        encoding(seq![t] + rest, p).len() > 0,
        encoding(seq![t] + rest, p)[0] == b,
{
    let ts = seq![t] + rest;
    lemma_split_first(ts, p);
    assert(ts[0] == t);
    assert(le_bytes(0, 1) =~= seq![0u8]) by {
        assert(le_bytes(0, 0) =~= Seq::<u8>::empty());
    }
    assert(le_bytes(1, 1) =~= seq![1u8]) by {
        assert(le_bytes(0, 0) =~= Seq::<u8>::empty());
    }
    assert(token_head(t, p) =~= seq![b]);
    assert(encoding(ts, p) == token_head(t, p) + heads(ts.drop_first(), p) + tails(ts, p));
}

/// `false` sorts before `true` under ascending order and after it under
/// descending order.
pub proof fn bool_order_preserved()
    ensures
        lex_lt(uint_bytes(ascending_params(), 0, 1), uint_bytes(ascending_params(), 1, 1)),
        lex_lt(uint_bytes(descending_params(), 1, 1), uint_bytes(descending_params(), 0, 1)),
{
    lemma_pow256_values();
    uint_order_preserved(0, 1, 1);
}

/// Characters compare as their encodings do: ascending in the same
/// direction, descending in the other.
pub proof fn char_order_preserved(a: char, b: char)
    ensures
        a < b <==> lex_lt(
            uint_bytes(ascending_params(), a as u32 as nat, 4),
            uint_bytes(ascending_params(), b as u32 as nat, 4),
        ),
        a < b <==> lex_lt(
            uint_bytes(descending_params(), b as u32 as nat, 4),
            uint_bytes(descending_params(), a as u32 as nat, 4),
        ),
{
    lemma_pow256_values();
    uint_order_preserved(a as u32 as nat, b as u32 as nat, 4);
}

/// A character reads back from its encoding, in every configuration, and is
/// accepted as a Unicode scalar value.
pub proof fn char_round_trip(p: EncodingParams, c: char)
    ensures
        uint_value(p, uint_bytes(p, c as u32 as nat, 4)) == c as u32,
        is_scalar(c as u32),
{
    lemma_pow256_values();
    uint_round_trip(p, c as u32 as nat, 4);
}

/// A boolean reads back from its encoding, in every configuration.
pub proof fn bool_round_trip(p: EncodingParams, v: bool)
    ensures
        (uint_value(p, uint_bytes(p, if v { 1 } else { 0 }, 1)) != 0) == v,
{
    lemma_pow256_values();
    uint_round_trip(p, if v { 1 } else { 0 }, 1);
}

} // verus!
