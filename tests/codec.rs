use ordcode::params::{ascending_order, descending_order, portable_binary};
use ordcode::primitives::{
    deserialize_bool, deserialize_char, deserialize_i16, deserialize_i32, deserialize_i64,
    deserialize_i8, deserialize_u16, deserialize_u32, deserialize_u64, deserialize_u8,
    invert_buffer, serialize_bool, serialize_char, serialize_i16, serialize_i32, serialize_i64,
    serialize_i8, serialize_u16, serialize_u32, serialize_u64, serialize_u8, write_bytes,
};
use ordcode::varint::{read_varint, varint_encode, varint_size, write_varint};
use ordcode::{
    calc_size, de_from_bytes_asc, de_from_bytes_ordered, new_de_asc, new_ser_asc,
    ser_to_buf_asc_exact, ser_to_buf_ordered, ser_to_vec_ordered, DeBytesReader, DeBytesWriter,
    EncodingParams, Error, FormatVersion, Order, Token, TokenKind,
};

fn foo() -> Vec<Token> {
    vec![Token::U16(1), Token::Str(b"abc".to_vec())]
}

fn all_params() -> Vec<EncodingParams> {
    vec![ascending_order(), descending_order(), portable_binary()]
}

fn enc_i16(v: i16, p: EncodingParams) -> Vec<u8> {
    let mut w = DeBytesWriter::new(vec![0; 2]);
    serialize_i16(&mut w, v, p).unwrap();
    w.finalize().unwrap()
}

fn enc_u32(v: u32, p: EncodingParams) -> Vec<u8> {
    let mut w = DeBytesWriter::new(vec![0; 4]);
    serialize_u32(&mut w, v, p).unwrap();
    w.finalize().unwrap()
}

fn enc_tokens(ts: Vec<Token>, order: Order) -> Vec<u8> {
    ser_to_vec_ordered(&ts, order).unwrap()
}

#[test]
fn scenario_ascending_bytes() {
    let ts = foo();
    assert_eq!(calc_size(&ts).unwrap(), 6);
    assert_eq!(enc_tokens(ts, Order::Ascending), vec![0x00, 0x01, 0x61, 0x62, 0x63, 0x07]);
}

#[test]
fn scenario_descending_bytes() {
    assert_eq!(enc_tokens(foo(), Order::Descending), vec![0xFF, 0xFE, 0x9E, 0x9D, 0x9C, 0xF8]);
}

#[test]
fn scenario_truncated_input() {
    let mut bytes = enc_tokens(foo(), Order::Ascending);
    bytes.pop();
    let r = de_from_bytes_asc(bytes, &vec![TokenKind::U16, TokenKind::Str]);
    assert_eq!(r, Err(Error::PrematureEndOfInput));
}

#[test]
fn scenario_option_u8() {
    let none = enc_tokens(vec![Token::OptionNone], Order::Ascending);
    let some = enc_tokens(vec![Token::OptionSome, Token::U8(5)], Order::Ascending);
    assert_eq!(none, vec![0x00]);
    assert_eq!(some, vec![0x01, 0x05]);
    assert!(none < some);
}

#[test]
fn option_absent_sorts_first() {
    for v in [0u8, 1, 255] {
        let none = enc_tokens(vec![Token::OptionNone], Order::Ascending);
        let some = enc_tokens(vec![Token::OptionSome, Token::U8(v)], Order::Ascending);
        assert!(none < some);
        let none_d = enc_tokens(vec![Token::OptionNone], Order::Descending);
        let some_d = enc_tokens(vec![Token::OptionSome, Token::U8(v)], Order::Descending);
        assert!(none_d > some_d);
    }
    let none = enc_tokens(vec![Token::OptionNone], Order::Ascending);
    let some = enc_tokens(vec![Token::OptionSome, Token::Str(Vec::new())], Order::Ascending);
    assert!(none < some);
}

#[test]
fn decode_descending_example() {
    let buf = vec![255u8, 254, 158, 157, 156, 248];
    let ts = de_from_bytes_ordered(buf, &vec![TokenKind::U16, TokenKind::Str], Order::Descending)
        .unwrap();
    assert_eq!(ts, foo());
}

#[test]
fn decode_ascending_example() {
    let buf = vec![0u8, 1, b'a', b'b', b'c', 7];
    let ts = de_from_bytes_asc(buf, &vec![TokenKind::U16, TokenKind::Str]).unwrap();
    assert_eq!(ts, foo());
}

#[test]
fn ser_to_larger_buffer() {
    let mut buf = vec![0u8; 100];
    assert_eq!(ser_to_buf_ordered(&mut buf, &foo(), Order::Ascending).unwrap(), 6);
    assert_eq!(&buf[2..5], b"abc");
    assert_eq!(buf[5], 7);
    let mut small = vec![0u8; 5];
    assert_eq!(ser_to_buf_ordered(&mut small, &foo(), Order::Ascending), Err(Error::BufferOverflow));
    let mut desc = vec![0u8; 8];
    assert_eq!(ser_to_buf_ordered(&mut desc, &foo(), Order::Descending).unwrap(), 6);
    assert_eq!(&desc[..6], &[0xFF, 0xFE, 0x9E, 0x9D, 0x9C, 0xF8]);
}

#[test]
fn fill_exactness() {
    let mut exact = vec![0u8; 6];
    assert_eq!(ser_to_buf_asc_exact(&mut exact, &foo()), Ok(()));
    assert_eq!(exact, vec![0, 1, 0x61, 0x62, 0x63, 7]);
    let mut under = vec![0u8; 5];
    assert_eq!(ser_to_buf_asc_exact(&mut under, &foo()), Err(Error::BufferOverflow));
    let mut over = vec![0u8; 7];
    assert_eq!(ser_to_buf_asc_exact(&mut over, &foo()), Err(Error::BufferUnderflow));
}

fn nested() -> Vec<Token> {
    // (Vec<(u32, String)>, Option<i64>, enum variant 2 holding bytes, char, bool)
    vec![
        Token::SeqLen(2),
        Token::U32(7),
        Token::Str(b"x".to_vec()),
        Token::U32(300),
        Token::Str(vec![b'y'; 200]),
        Token::OptionSome,
        Token::I64(-5),
        Token::Variant(2),
        Token::Bytes(vec![1, 2, 3]),
        Token::Char('\u{e9}'),
        Token::Bool(true),
        Token::SeqLen(0),
    ]
}

fn nested_kinds() -> Vec<TokenKind> {
    vec![
        TokenKind::SeqLen,
        TokenKind::U32,
        TokenKind::Str,
        TokenKind::U32,
        TokenKind::Str,
        TokenKind::Option,
        TokenKind::I64,
        TokenKind::Variant(3),
        TokenKind::Bytes,
        TokenKind::Char,
        TokenKind::Bool,
        TokenKind::SeqLen,
    ]
}

#[test]
fn size_exactness_nested() {
    let ts = nested();
    let n = calc_size(&ts).unwrap();
    // 1 + 4 + (1+1) + 4 + (200+2) + 1 + 8 + 1 + (3+1) + 4 + 1 + 1
    assert_eq!(n, 233);
    for order in [Order::Ascending, Order::Descending] {
        assert_eq!(ser_to_vec_ordered(&ts, order).unwrap().len(), n);
    }
}

#[test]
fn round_trip_nested() {
    for order in [Order::Ascending, Order::Descending, Order::Unordered] {
        let bytes = ser_to_vec_ordered(&nested(), order).unwrap();
        let back = de_from_bytes_ordered(bytes, &nested_kinds(), order).unwrap();
        assert_eq!(back, nested());
    }
}

#[test]
fn round_trip_integers_all_params() {
    for p in all_params() {
        let mut w = DeBytesWriter::new(vec![0; 48]);
        for v in [u8::MIN, 0, 1, u8::MAX] {
            serialize_u8(&mut w, v, p).unwrap();
        }
        for v in [u16::MIN, 1, 0x1234, u16::MAX] {
            serialize_u16(&mut w, v, p).unwrap();
        }
        for v in [i8::MIN, -1, 0, i8::MAX] {
            serialize_i8(&mut w, v, p).unwrap();
        }
        for v in [i16::MIN, -1, 0, i16::MAX] {
            serialize_i16(&mut w, v, p).unwrap();
        }
        serialize_u32(&mut w, u32::MAX, p).unwrap();
        serialize_i32(&mut w, i32::MIN, p).unwrap();
        serialize_u64(&mut w, u64::MAX, p).unwrap();
        serialize_i64(&mut w, i64::MIN, p).unwrap();
        let bytes = w.finalize().unwrap();
        let mut r = DeBytesReader::new(bytes);
        for v in [u8::MIN, 0, 1, u8::MAX] {
            assert_eq!(deserialize_u8(&mut r, p).unwrap(), v);
        }
        for v in [u16::MIN, 1, 0x1234, u16::MAX] {
            assert_eq!(deserialize_u16(&mut r, p).unwrap(), v);
        }
        for v in [i8::MIN, -1, 0, i8::MAX] {
            assert_eq!(deserialize_i8(&mut r, p).unwrap(), v);
        }
        for v in [i16::MIN, -1, 0, i16::MAX] {
            assert_eq!(deserialize_i16(&mut r, p).unwrap(), v);
        }
        assert_eq!(deserialize_u32(&mut r, p).unwrap(), u32::MAX);
        assert_eq!(deserialize_i32(&mut r, p).unwrap(), i32::MIN);
        assert_eq!(deserialize_u64(&mut r, p).unwrap(), u64::MAX);
        assert_eq!(deserialize_i64(&mut r, p).unwrap(), i64::MIN);
        assert_eq!(r.is_complete(), Ok(()));
    }
}

#[test]
fn round_trip_bool_and_char() {
    for p in all_params() {
        let mut w = DeBytesWriter::new(vec![0; 10]);
        serialize_bool(&mut w, true, p).unwrap();
        serialize_bool(&mut w, false, p).unwrap();
        serialize_char(&mut w, 'z', p).unwrap();
        serialize_char(&mut w, '\u{10FFFF}', p).unwrap();
        let mut r = DeBytesReader::new(w.finalize().unwrap());
        assert!(deserialize_bool(&mut r, p).unwrap());
        assert!(!deserialize_bool(&mut r, p).unwrap());
        assert_eq!(deserialize_char(&mut r, p).unwrap(), 'z');
        assert_eq!(deserialize_char(&mut r, p).unwrap(), '\u{10FFFF}');
    }
}

#[test]
fn signed_order_preserved() {
    let vals = [i16::MIN, -1, 0, 1, i16::MAX];
    for i in 0..vals.len() {
        for j in 0..vals.len() {
            let a = enc_i16(vals[i], ascending_order());
            let b = enc_i16(vals[j], ascending_order());
            assert_eq!(vals[i] < vals[j], a < b);
            let ad = enc_i16(vals[i], descending_order());
            let bd = enc_i16(vals[j], descending_order());
            assert_eq!(vals[i] < vals[j], ad > bd);
        }
    }
}

#[test]
fn unsigned_order_preserved() {
    let vals = [0u32, 1, 255, 256, 0xFFFF, 0x1_0000, u32::MAX];
    for i in 0..vals.len() {
        for j in 0..vals.len() {
            let a = enc_u32(vals[i], ascending_order());
            let b = enc_u32(vals[j], ascending_order());
            assert_eq!(vals[i] < vals[j], a < b);
        }
    }
}

#[test]
fn layout_little_endian() {
    assert_eq!(enc_u32(0x0102_0304, portable_binary()), vec![4, 3, 2, 1]);
    assert_eq!(enc_u32(0x0102_0304, ascending_order()), vec![1, 2, 3, 4]);
    assert_eq!(enc_i16(0, ascending_order()), vec![0x80, 0]);
    assert_eq!(enc_i16(-1, ascending_order()), vec![0x7F, 0xFF]);
}

#[test]
fn varint_values() {
    assert_eq!(varint_encode(0), vec![1]);
    assert_eq!(varint_encode(3), vec![7]);
    assert_eq!(varint_encode(127), vec![255]);
    assert_eq!(varint_encode(300), vec![88, 5]);
    assert_eq!(varint_size(300), 2);
    assert_eq!(varint_size(u64::MAX), 10);
    assert_eq!(varint_encode(u64::MAX).len(), 10);
}

#[test]
fn varint_round_trip_both_ends() {
    for p in all_params() {
        for v in [0u64, 127, 128, 300, u64::MAX] {
            let mut w = DeBytesWriter::new(vec![0; 2 * varint_size(v)]);
            write_varint(&mut w, v, false, p).unwrap();
            write_varint(&mut w, v, true, p).unwrap();
            let mut r = DeBytesReader::new(w.finalize().unwrap());
            assert_eq!(read_varint(&mut r, true, p).unwrap(), v);
            assert_eq!(read_varint(&mut r, false, p).unwrap(), v);
            assert_eq!(r.is_complete(), Ok(()));
        }
    }
}

#[test]
fn varint_unterminated() {
    let mut r = DeBytesReader::new(vec![0u8; 12]);
    assert_eq!(read_varint(&mut r, false, ascending_order()), Err(Error::InvalidVarintEncoding));
    let mut short = DeBytesReader::new(vec![0u8; 3]);
    assert_eq!(read_varint(&mut short, false, ascending_order()), Err(Error::PrematureEndOfInput));
}

#[test]
fn invalid_option_flag() {
    let r = de_from_bytes_asc(vec![2], &vec![TokenKind::Option]);
    assert_eq!(r, Err(Error::InvalidTagEncoding));
}

#[test]
fn invalid_variant() {
    let r = de_from_bytes_asc(vec![7], &vec![TokenKind::Variant(3)]);
    assert_eq!(r, Err(Error::InvalidTagEncoding));
    let ok = de_from_bytes_asc(vec![5], &vec![TokenKind::Variant(3)]);
    assert_eq!(ok, Ok(vec![Token::Variant(2)]));
}

#[test]
fn invalid_utf8_string() {
    let r = de_from_bytes_asc(vec![0xFF, 3], &vec![TokenKind::Str]);
    assert_eq!(r, Err(Error::InvalidUtf8Encoding));
    let b = de_from_bytes_asc(vec![0xFF, 3], &vec![TokenKind::Bytes]);
    assert_eq!(b, Ok(vec![Token::Bytes(vec![0xFF])]));
}

#[test]
fn invalid_char() {
    let r = de_from_bytes_asc(vec![0, 0, 0xD8, 0], &vec![TokenKind::Char]);
    assert_eq!(r, Err(Error::InvalidUtf8Encoding));
}

#[test]
fn trailing_bytes_underflow() {
    let r = de_from_bytes_asc(vec![1, 2], &vec![TokenKind::U8]);
    assert_eq!(r, Err(Error::BufferUnderflow));
}

#[test]
fn writer_overflow_and_underflow() {
    let mut w = DeBytesWriter::new(vec![0; 3]);
    assert_eq!(serialize_u32(&mut w, 1, ascending_order()), Err(Error::BufferOverflow));
    serialize_u16(&mut w, 1, ascending_order()).unwrap();
    assert_eq!(w.is_complete(), Err(Error::BufferUnderflow));
    assert_eq!(w.finalize(), Err(Error::BufferUnderflow));
}

#[test]
fn tail_writes_in_order() {
    let mut w = DeBytesWriter::new(vec![0; 4]);
    w.write_to_tail(&[1, 2]).unwrap();
    w.write(&[9]).unwrap();
    w.write_to_tail(&[3]).unwrap();
    assert_eq!(w.finalize().unwrap(), vec![9, 3, 1, 2]);
    let mut r = DeBytesReader::new(vec![9, 3, 1, 2]);
    assert_eq!(r.read_from_tail(2).unwrap(), vec![1, 2]);
    assert_eq!(r.read_from_tail(1).unwrap(), vec![3]);
    assert_eq!(r.read(1).unwrap(), vec![9]);
    assert_eq!(r.read(1), Err(Error::PrematureEndOfInput));
}

#[test]
fn inversion_helpers() {
    let mut b = vec![0u8, 0x0F, 0xFF];
    invert_buffer(&mut b);
    assert_eq!(b, vec![0xFF, 0xF0, 0x00]);
    let mut w = DeBytesWriter::new(vec![0; 2]);
    write_bytes(&mut w, &[1, 2], descending_order()).unwrap();
    assert_eq!(w.finalize().unwrap(), vec![0xFE, 0xFD]);
    let mut w2 = DeBytesWriter::new(vec![0; 2]);
    write_bytes(&mut w2, &[1, 2], ascending_order()).unwrap();
    assert_eq!(w2.finalize().unwrap(), vec![1, 2]);
}

#[test]
fn serializer_and_deserializer_objects() {
    let mut s = new_ser_asc(DeBytesWriter::new(vec![0; 6]));
    assert_eq!(s.format_version(), 1);
    s.serialize_tokens(&foo()).unwrap();
    let bytes = s.writer.finalize().unwrap();
    let mut d = new_de_asc(DeBytesReader::new(bytes));
    assert_eq!(d.format_version(), 1);
    assert_eq!(d.deserialize_tokens(&vec![TokenKind::U16, TokenKind::Str]).unwrap(), foo());
}

#[test]
fn error_descriptions() {
    assert_eq!(Error::PrematureEndOfInput.descr(), "premature end of input");
    assert_eq!(Error::BufferOverflow.to_string(), "serialized data buffer overflow");
    assert_eq!(Error::InvalidTagEncoding.descr(), "invalid encoding for enum tag");
}

#[test]
fn bool_flag_must_be_zero_or_one() {
    assert_eq!(de_from_bytes_asc(vec![2], &vec![TokenKind::Bool]), Err(Error::InvalidTagEncoding));
    assert_eq!(de_from_bytes_asc(vec![1], &vec![TokenKind::Bool]), Ok(vec![Token::Bool(true)]));
}

#[test]
fn noncanonical_varint_rejected() {
    let r = de_from_bytes_asc(vec![0, 1], &vec![TokenKind::Variant(3)]);
    assert_eq!(r, Err(Error::InvalidVarintEncoding));
}

#[test]
fn option_flag_with_payload_rejected() {
    let r = de_from_bytes_asc(vec![2, 5], &vec![TokenKind::Option, TokenKind::U8]);
    assert_eq!(r, Err(Error::InvalidTagEncoding));
}

#[test]
fn round_trip_128_bit() {
    let ts = vec![Token::U128(u128::MAX), Token::I128(i128::MIN), Token::I128(-1), Token::U128(0)];
    let ks = vec![TokenKind::U128, TokenKind::I128, TokenKind::I128, TokenKind::U128];
    assert_eq!(calc_size(&ts).unwrap(), 64);
    for order in [Order::Ascending, Order::Descending] {
        let bytes = ser_to_vec_ordered(&ts, order).unwrap();
        assert_eq!(de_from_bytes_ordered(bytes, &ks, order).unwrap(), ts);
    }
    let a = ser_to_vec_ordered(&vec![Token::I128(-1)], Order::Ascending).unwrap();
    let b = ser_to_vec_ordered(&vec![Token::I128(0)], Order::Ascending).unwrap();
    assert!(a < b);
    assert_eq!(b[0], 0x80);
}
