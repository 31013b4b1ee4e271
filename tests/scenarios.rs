use encdec::collection::{decode_count, decode_greedy_all, encode_all};
use encdec::{
    DecodeExt, DecodeIter, DecodeOwned, DecodePrefixed, DecodedTagged, Encode, EncodeExt,
    EncodePrefixed, Error, Field, FieldAttrs, FieldType, IntKind, MarkedBigEndian, Schema, Value,
};

fn plain(ty: FieldType) -> Field {
    Field::new(ty, &FieldAttrs::none())
}

fn schema(fields: Vec<Field>) -> Schema<MarkedBigEndian> {
    Schema::new(fields, vec![]).expect("well-formed schema")
}

#[test]
fn record_little_endian_layout() {
    let s = schema(vec![
        plain(FieldType::Int(IntKind::U8)),
        plain(FieldType::Int(IntKind::U16)),
        plain(FieldType::Int(IntKind::U8)),
    ]);
    let rec = vec![Value::Int(0x10), Value::Int(0xabcd), Value::Int(0x11)];
    let mut buff = [0u8; 16];
    let n = s.encode(&rec, &mut buff).unwrap();
    assert_eq!(n, 4);
    assert_eq!(&buff[..n], &[0x10, 0xcd, 0xab, 0x11]);
    assert_eq!(s.encode_len(&rec), Ok(4));
    let (d, m) = s.decode(&buff[..n]).unwrap();
    assert_eq!(d, rec);
    assert_eq!(m, 4);
}

#[test]
fn length_of_is_derived_on_encode() {
    let l = FieldAttrs { length_of: Some(1), ..FieldAttrs::none() };
    let a = FieldAttrs { length: Some(0), ..FieldAttrs::none() };
    let s = schema(vec![
        Field::new(FieldType::Int(IntKind::U8), &l),
        Field::new(FieldType::Bytes, &a),
    ]);
    let rec = vec![Value::Int(0), Value::Bytes(vec![0xa1, 0xa2, 0xa3])];
    let mut buff = [0u8; 16];
    let n = s.encode(&rec, &mut buff).unwrap();
    assert_eq!(&buff[..n], &[3, 0xa1, 0xa2, 0xa3]);
    let (d, m) = s.decode(&buff[..n]).unwrap();
    assert_eq!(d, vec![Value::Int(3), Value::Bytes(vec![0xa1, 0xa2, 0xa3])]);
    assert_eq!(m, 4);
}

#[test]
fn length_of_overflow_is_length_error() {
    let l = FieldAttrs { length_of: Some(1), ..FieldAttrs::none() };
    let a = FieldAttrs { length: Some(0), ..FieldAttrs::none() };
    let s = schema(vec![
        Field::new(FieldType::Int(IntKind::U8), &l),
        Field::new(FieldType::Bytes, &a),
    ]);
    let rec = vec![Value::Int(0), Value::Bytes(vec![1u8; 300])];
    let mut buff = [0u8; 512];
    assert_eq!(s.encode(&rec, &mut buff), Err(Error::Length));
}

#[test]
fn fixed_array_layout() {
    let s = schema(vec![plain(FieldType::Array(IntKind::U8, 3))]);
    let rec = vec![Value::Ints(vec![9, 8, 7])];
    let mut buff = [0u8; 8];
    let n = s.encode(&rec, &mut buff).unwrap();
    assert_eq!(&buff[..n], &[9, 8, 7]);
    let (d, m) = s.decode(&buff[..n]).unwrap();
    assert_eq!(d, rec);
    assert_eq!(m, 3);
    assert_eq!(s.decode(&buff[..2]), Err(Error::Length));
}

#[test]
fn prefixed_field_layout() {
    let s = schema(vec![plain(FieldType::Prefixed(IntKind::U8))]);
    let body = vec![1u8, 2, 3, 4, 5];
    let rec = vec![Value::Bytes(body.clone())];
    let mut buff = [0u8; 16];
    let n = s.encode(&rec, &mut buff).unwrap();
    assert_eq!(n, 6);
    assert_eq!(&buff[..6], &[5, 1, 2, 3, 4, 5]);
    let seven = [5u8, 1, 2, 3, 4, 5, 99];
    let (d, m) = s.decode(&seven).unwrap();
    assert_eq!(d, rec);
    assert_eq!(m, 6);
    assert_eq!(s.decode(&seven[..5]), Err(Error::Length));
}

#[test]
fn prefixed_field_too_long_for_prefix() {
    let s = schema(vec![plain(FieldType::Prefixed(IntKind::U8))]);
    let rec = vec![Value::Bytes(vec![0u8; 256])];
    let mut buff = [0u8; 512];
    assert_eq!(s.encode(&rec, &mut buff), Err(Error::Length));
}

#[test]
fn prefixed_trait_round_trip() {
    let mut buff = [0u8; 16];
    let v: u32 = 0x0102_0304;
    let n = <u32 as EncodePrefixed<u8>>::encode_prefixed(&v, &mut buff).unwrap();
    assert_eq!(n, 5);
    assert_eq!(&buff[..5], &[4, 0x04, 0x03, 0x02, 0x01]);
    let (d, m) = <u32 as DecodePrefixed<u8>>::decode_prefixed(&buff[..7]).unwrap();
    assert_eq!(d, v);
    assert_eq!(m, 5);
    let short = [9u8, 1, 2];
    assert_eq!(<u32 as DecodePrefixed<u8>>::decode_prefixed(&short), Err(Error::Length));
}

#[test]
fn greedy_sequence_decode() {
    let six = [1u8, 0, 2, 0, 3, 0];
    let (v, n) = decode_greedy_all::<u16>(&six).unwrap();
    assert_eq!(v, vec![1, 2, 3]);
    assert_eq!(n, 6);
    let seven = [1u8, 0, 2, 0, 3, 0, 4];
    assert_eq!(decode_greedy_all::<u16>(&seven), Err(Error::Length));
}

#[test]
fn greedy_field_decode() {
    let s = schema(vec![plain(FieldType::Greedy(IntKind::U16))]);
    let (d, n) = s.decode(&[1u8, 0, 2, 0, 3, 0]).unwrap();
    assert_eq!(d, vec![Value::Ints(vec![1, 2, 3])]);
    assert_eq!(n, 6);
    assert_eq!(s.decode(&[1u8, 0, 2, 0, 3, 0, 4]), Err(Error::Length));
}

#[test]
fn decode_iter_stops_at_end_or_errors() {
    let six = [1u8, 0, 2, 0, 3, 0];
    let mut it: DecodeIter<'_, u16> = u16::decode_iter(&six);
    assert_eq!(it.next(), Some(Ok(1)));
    assert_eq!(it.next(), Some(Ok(2)));
    assert_eq!(it.next(), Some(Ok(3)));
    assert_eq!(it.next(), None);

    let seven = [1u8, 0, 2, 0, 3, 0, 4];
    let mut it = DecodeIter::<u16>::new(&seven);
    assert_eq!(it.next(), Some(Ok(1)));
    let mut again = it.restart();
    assert_eq!(it.next(), Some(Ok(2)));
    assert_eq!(it.next(), Some(Ok(3)));
    assert_eq!(it.next(), Some(Err(Error::Length)));
    assert_eq!(again.next(), Some(Ok(1)));
}

#[test]
fn fixed_count_decode() {
    let buf = [1u8, 0, 2, 0, 3, 0, 4];
    let (v, n) = decode_count::<u16>(&buf, 3).unwrap();
    assert_eq!(v, vec![1, 2, 3]);
    assert_eq!(n, 6);
    assert_eq!(decode_count::<u16>(&buf, 4), Err(Error::Length));
}

#[test]
fn encode_sequence_and_overrun() {
    let items: [u16; 3] = [0x0102, 0x0304, 0x0506];
    let mut buff = [0u8; 6];
    assert_eq!(encode_all(&items, &mut buff), Ok(6));
    assert_eq!(buff, [0x02, 0x01, 0x04, 0x03, 0x06, 0x05]);
    let mut short = [0xeeu8; 5];
    assert_eq!(encode_all(&items, &mut short), Err(Error::Length));
    assert_eq!(short, [0xee; 5]);
    let mut short = [0xeeu8; 5];
    assert_eq!(u16::encode_iter(&items, &mut short), Err(Error::Length));
    assert_eq!(&short[..4], &[0x02, 0x01, 0x04, 0x03]);
}

#[test]
fn encode_vec_sizes_buffer() {
    let (b, n) = 0xdead_beefu32.encode_vec().unwrap();
    assert_eq!(b, vec![0xef, 0xbe, 0xad, 0xde]);
    assert_eq!(n, 4);
}

#[test]
fn signed_two_complement() {
    let mut buff = [0u8; 8];
    assert_eq!((-2i16).encode(&mut buff), Ok(2));
    assert_eq!(&buff[..2], &[0xfe, 0xff]);
    assert_eq!(i16::decode_owned(&buff[..2]), Ok((-2, 2)));
    assert_eq!(i64::decode_owned(&[0xff; 8]), Ok((-1, 8)));
    assert_eq!(i8::decode_owned(&[0x80]), Ok((-128, 1)));
}

#[test]
fn primitive_overrun() {
    let mut buff = [0u8; 3];
    assert_eq!(0x01020304u32.encode(&mut buff), Err(Error::Length));
    assert_eq!(buff, [0, 0, 0]);
    assert_eq!(u32::decode_owned(&buff), Err(Error::Length));
    assert_eq!(0u64.encode_len(), Ok(8));
}

#[test]
fn record_overrun_keeps_earlier_fields() {
    let s = schema(vec![plain(FieldType::Int(IntKind::U8)), plain(FieldType::Int(IntKind::U32))]);
    let rec = vec![Value::Int(7), Value::Int(1)];
    let mut buff = [0u8; 3];
    assert_eq!(s.encode(&rec, &mut buff), Err(Error::Length));
    assert_eq!(buff, [7, 0, 0]);
}

fn text_schema() -> Schema<MarkedBigEndian> {
    let l = FieldAttrs { length_of: Some(1), ..FieldAttrs::none() };
    let t = FieldAttrs { length: Some(0), ..FieldAttrs::none() };
    schema(vec![
        Field::new(FieldType::Int(IntKind::U8), &l),
        Field::new(FieldType::Text, &t),
    ])
}

#[test]
fn text_round_trip() {
    let s = text_schema();
    let rec = vec![Value::Int(0), Value::Text("héllo".to_string())];
    let mut buff = [0u8; 16];
    let n = s.encode(&rec, &mut buff).unwrap();
    assert_eq!(n, 7);
    assert_eq!(buff[0], 6);
    let (d, m) = s.decode(&buff[..n]).unwrap();
    assert_eq!(d, vec![Value::Int(6), Value::Text("héllo".to_string())]);
    assert_eq!(m, 7);
}

#[test]
fn text_invalid_utf8_is_rejected() {
    let s = text_schema();
    assert_eq!(s.decode(&[2, 0xff, 0xfe]), Err(Error::Utf8));
    assert_eq!(s.decode(&[3, b'a', b'b']), Err(Error::Length));
}

#[test]
fn tagged_slices() {
    let buf = [b'h', b'i', 0xff];
    assert_eq!(<&[u8] as DecodedTagged>::decode_len(&buf, 2), Ok(&buf[..2]));
    assert_eq!(<&[u8] as DecodedTagged>::decode_len(&buf, 4), Err(Error::Length));
    assert_eq!(<&str as DecodedTagged>::decode_len(&buf, 2), Ok("hi"));
    assert_eq!(<&str as DecodedTagged>::decode_len(&buf, 3), Err(Error::Utf8));
    assert_eq!(<&str as DecodedTagged>::decode_len(&buf, 4), Err(Error::Length));
}

#[test]
fn schema_rejects_bad_directives() {
    let later = FieldAttrs { length: Some(1), ..FieldAttrs::none() };
    assert!(Schema::<MarkedBigEndian>::new(
        vec![Field::new(FieldType::Bytes, &later), plain(FieldType::Int(IntKind::U8))],
        vec![]
    )
    .is_none());
    assert!(Schema::<MarkedBigEndian>::new(vec![plain(FieldType::Bytes)], vec![]).is_none());
    assert!(Schema::<MarkedBigEndian>::new(
        vec![plain(FieldType::Greedy(IntKind::U8)), plain(FieldType::Int(IntKind::U8))],
        vec![]
    )
    .is_none());
    let of_text = FieldAttrs { length_of: Some(0), ..FieldAttrs::none() };
    assert!(Schema::<MarkedBigEndian>::new(
        vec![Field::new(FieldType::Array(IntKind::U8, 2), &of_text)],
        vec![]
    )
    .is_none());
    let missing_codec = FieldAttrs { with: Some(0), ..FieldAttrs::none() };
    assert!(Schema::<MarkedBigEndian>::new(
        vec![Field::new(FieldType::Int(IntKind::U8), &missing_codec)],
        vec![]
    )
    .is_none());
}

#[test]
fn decode_short_buffer() {
    let s = schema(vec![plain(FieldType::Int(IntKind::U16)), plain(FieldType::Int(IntKind::I32))]);
    assert_eq!(s.decode(&[1, 0, 0xff, 0xff, 0xff]), Err(Error::Length));
    let (d, n) = s.decode(&[1, 0, 0xff, 0xff, 0xff, 0xff, 9]).unwrap();
    assert_eq!(d, vec![Value::Int(1), Value::Int(-1)]);
    assert_eq!(n, 6);
}

#[test]
fn borrowed_decode_of_owned_type() {
    let buf = [0x34u8, 0x12, 0xff];
    assert_eq!(<u16 as encdec::Decode>::decode(&buf), Ok((0x1234, 2)));
    assert_eq!(<u32 as encdec::Decode>::decode(&buf), Err(Error::Length));
}

#[test]
fn custom_codec_writes_marker_and_big_endian() {
    let c = MarkedBigEndian { marker: 0xAA, kind: IntKind::I16 };
    let with = FieldAttrs { with: Some(0), ..FieldAttrs::none() };
    let s = Schema::new(
        vec![plain(FieldType::Int(IntKind::U8)), Field::new(FieldType::Int(IntKind::I16), &with)],
        vec![c],
    )
    .unwrap();
    let rec = vec![Value::Int(1), Value::Int(-2)];
    let mut buff = [0u8; 8];
    assert_eq!(s.encode_len(&rec), Ok(4));
    let n = s.encode(&rec, &mut buff).unwrap();
    assert_eq!(&buff[..n], &[1, 0xAA, 0xff, 0xfe]);
    assert_eq!(s.decode(&buff[..n]), Ok((rec, 4)));
    assert_eq!(s.decode(&buff[..3]), Err(Error::Length));
}

#[test]
fn encode_buff_fixed_size() {
    let (b, n) = 0x0102u16.encode_buff::<4>().unwrap();
    assert_eq!(b, [0x02, 0x01, 0, 0]);
    assert_eq!(n, 2);
    assert_eq!(0x0102_0304u32.encode_buff::<3>(), Err(Error::Length));
}

#[test]
fn vec_and_str_encode() {
    let v: Vec<u16> = vec![1, 2];
    let mut buff = [0u8; 8];
    assert_eq!(v.encode_len(), Ok(4));
    assert_eq!(v.encode(&mut buff), Ok(4));
    assert_eq!(&buff[..4], &[1, 0, 2, 0]);
    let s: &str = "hé";
    assert_eq!(s.encode_len(), Ok(3));
    assert_eq!(s.encode(&mut buff), Ok(3));
    assert_eq!(&buff[..3], "hé".as_bytes());
    let mut short = [0u8; 2];
    assert_eq!(s.encode(&mut short), Err(Error::Length));
}

#[test]
fn custom_codec_error_is_returned() {
    let c = MarkedBigEndian { marker: 0xAA, kind: IntKind::U8 };
    let with = FieldAttrs { with: Some(0), ..FieldAttrs::none() };
    let s = Schema::new(
        vec![plain(FieldType::Int(IntKind::U8)), Field::new(FieldType::Int(IntKind::U16), &with)],
        vec![c],
    )
    .unwrap();
    let rec = vec![Value::Int(1), Value::Int(300)];
    let mut buff = [0u8; 8];
    assert_eq!(s.encode_len(&rec), Err(Error::Length));
    assert_eq!(s.encode(&rec, &mut buff), Err(Error::Length));
    assert_eq!(buff, [1, 0, 0, 0, 0, 0, 0, 0]);
}

#[test]
fn prefixed_borrowed_bytes() {
    let buf = [5u8, 1, 2, 3, 4, 5, 0xEE];
    let (body, n) = <&[u8] as DecodePrefixed<u8>>::decode_prefixed(&buf).unwrap();
    assert_eq!(body, &[1u8, 2, 3, 4, 5][..]);
    assert_eq!(n, 6);
    let (all, m) = decode_count::<&[u8]>(&buf[1..3], 1).unwrap();
    assert_eq!(all, vec![&[1u8, 2][..]]);
    assert_eq!(m, 2);
}

#[test]
fn round_trip_helper_leaves_encoding() {
    let mut buff = [0xeeu8; 6];
    let (d, n) = encdec::helpers::test_encode_decode(&mut buff, 0x0102_0304u32);
    assert_eq!(d, 0x0102_0304);
    assert_eq!(n, 4);
    assert_eq!(buff, [0x04, 0x03, 0x02, 0x01, 0xee, 0xee]);
}

#[test]
fn borrowed_record_decode_is_zero_copy() {
    let l = FieldAttrs { length_of: Some(1), ..FieldAttrs::none() };
    let a = FieldAttrs { length: Some(0), ..FieldAttrs::none() };
    let s = schema(vec![
        Field::new(FieldType::Int(IntKind::U8), &l),
        Field::new(FieldType::Bytes, &a),
    ]);
    let buf = [3u8, 0xa1, 0xa2, 0xa3, 0x99];
    let (d, n) = s.decode_borrowed(&buf).unwrap();
    assert_eq!(n, 4);
    assert_eq!(d[0], encdec::Borrowed::Owned(Value::Int(3)));
    match d[1] {
        encdec::Borrowed::Bytes(b) => {
            assert_eq!(b, &[0xa1u8, 0xa2, 0xa3][..]);
            assert!(std::ptr::eq(b.as_ptr(), buf[1..].as_ptr()));
        }
        _ => panic!(),
    }
    let t = text_schema();
    let (d, _) = t.decode_borrowed(&[2, b'h', b'i']).unwrap();
    assert_eq!(d[1], encdec::Borrowed::Text("hi"));
    assert_eq!(t.decode_borrowed(&[2, 0xff, 0xfe]), Err(Error::Utf8));
}

/// `inner { a: u8, b: u16 }`, nested as field `r` of `outer { x: u8, r: inner, y: u8 }`.
fn outer() -> Schema<encdec::Nested<MarkedBigEndian>> {
    let inner = schema(vec![plain(FieldType::Int(IntKind::U8)), plain(FieldType::Int(IntKind::U16))]);
    let with = FieldAttrs { with: Some(0), ..FieldAttrs::none() };
    Schema::new(
        vec![
            plain(FieldType::Int(IntKind::U8)),
            Field::new(FieldType::Record, &with),
            plain(FieldType::Int(IntKind::U8)),
        ],
        vec![encdec::Nested { schema: inner }],
    )
    .unwrap()
}

#[test]
fn nested_record_round_trip() {
    let s = outer();
    let rec = vec![
        Value::Int(1),
        Value::Record(vec![Value::Int(2), Value::Int(0x0403)]),
        Value::Int(5),
    ];
    let mut buff = [0u8; 16];
    assert_eq!(s.encode_len(&rec), Ok(5));
    let n = s.encode(&rec, &mut buff).unwrap();
    assert_eq!(&buff[..n], &[1, 2, 3, 4, 5]);
    let (d, m) = s.decode(&buff[..n]).unwrap();
    assert_eq!(d, rec);
    assert_eq!(m, 5);
    assert_eq!(s.decode(&buff[..3]), Err(Error::Length));
}

#[test]
fn nested_record_rejects_ill_typed_value() {
    let s = outer();
    let rec = vec![Value::Int(1), Value::Record(vec![Value::Int(2)]), Value::Int(5)];
    let mut buff = [0xeeu8; 16];
    assert_eq!(s.encode_len(&rec), Err(Error::Length));
    assert_eq!(s.encode(&rec, &mut buff), Err(Error::Length));
    assert_eq!(buff[1], 0xee);
    assert!(s.is_typed(&rec));
    assert!(!s.is_typed(&vec![Value::Int(1)]));
}

#[test]
fn list_of_custom_codec_elements() {
    let list = encdec::Repeated { elem: MarkedBigEndian { marker: 0xAA, kind: IntKind::U16 }, count: 2 };
    let with = FieldAttrs { with: Some(0), ..FieldAttrs::none() };
    let s = Schema::new(vec![Field::new(FieldType::List, &with)], vec![list]).unwrap();
    let rec = vec![Value::List(vec![Value::Int(0x0102), Value::Int(0x0304)])];
    let mut buff = [0u8; 8];
    assert_eq!(s.encode_len(&rec), Ok(6));
    assert_eq!(s.encode(&rec, &mut buff), Ok(6));
    assert_eq!(&buff[..6], &[0xAA, 0x01, 0x02, 0xAA, 0x03, 0x04]);
    assert_eq!(s.decode(&buff[..6]), Ok((rec, 6)));
    let short = vec![Value::List(vec![Value::Int(1)])];
    assert_eq!(s.encode_len(&short), Err(Error::Length));
    let mut small = [0u8; 5];
    let rec2 = vec![Value::List(vec![Value::Int(1), Value::Int(2)])];
    assert_eq!(s.encode(&rec2, &mut small), Err(Error::Length));
    assert_eq!(small, [0u8; 5]);
}

#[test]
fn list_of_nested_records() {
    let inner = schema(vec![plain(FieldType::Int(IntKind::U8)), plain(FieldType::Int(IntKind::U16))]);
    let list = encdec::Repeated { elem: encdec::Nested { schema: inner }, count: 2 };
    let with = FieldAttrs { with: Some(0), ..FieldAttrs::none() };
    let s = Schema::new(vec![Field::new(FieldType::List, &with)], vec![list]).unwrap();
    let rec = vec![Value::List(vec![
        Value::Record(vec![Value::Int(1), Value::Int(0x0302)]),
        Value::Record(vec![Value::Int(4), Value::Int(0x0605)]),
    ])];
    let mut buff = [0u8; 8];
    let n = s.encode(&rec, &mut buff).unwrap();
    assert_eq!(&buff[..n], &[1, 2, 3, 4, 5, 6]);
    assert_eq!(s.decode(&buff[..n]), Ok((rec, 6)));
}
