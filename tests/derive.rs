use encdec::{
    Error, Field, FieldAttrs, FieldType, IntKind, MarkedBigEndian, Schema, Strategy, Value,
};
use rand::random;

fn plain(ty: FieldType) -> Field {
    Field::new(ty, &FieldAttrs::none())
}

fn schema(fields: Vec<Field>) -> Schema<MarkedBigEndian> {
    Schema::new(fields, vec![]).expect("well-formed schema")
}

/// `a: u8, b: u16, c: u32, d: u64`
fn basic() -> Schema<MarkedBigEndian> {
    schema(vec![
        plain(FieldType::Int(IntKind::U8)),
        plain(FieldType::Int(IntKind::U16)),
        plain(FieldType::Int(IntKind::U32)),
        plain(FieldType::Int(IntKind::U64)),
    ])
}

fn basic_values(a: u8, b: u16, c: u32, d: u64) -> Vec<Value> {
    vec![
        Value::Int(a as i128),
        Value::Int(b as i128),
        Value::Int(c as i128),
        Value::Int(d as i128),
    ]
}

/// Encodes, checks the length against `encode_len`, decodes and returns the
/// decoded record and length.
fn round_trip(s: &Schema<MarkedBigEndian>, buff: &mut [u8], rec: &Vec<Value>) -> (Vec<Value>, usize) {
    let encoded_len = s.encode(rec, buff).unwrap();
    assert_eq!(encoded_len, s.encode_len(rec).unwrap(), "actual and expected encode_len differ");
    let (decoded, decoded_len) = s.decode(&buff[..encoded_len]).expect("decode failed");
    assert_eq!(encoded_len, decoded_len, "encode and decode length differ");
    (decoded, decoded_len)
}

#[test]
fn derive_basic_derive() {
    let mut buff = [0u8; 256];
    let rec = basic_values(random(), random(), random(), random());
    let (d, _) = round_trip(&basic(), &mut buff, &rec);
    assert_eq!(d, rec);
}

#[test]
fn derive_basic_layout() {
    let (a, b, c, d): (u8, u16, u32, u64) = (random(), random(), random(), random());
    let rec = basic_values(a, b, c, d);
    let mut buff = [0u8; 256];

    let n = basic().encode(&rec, &mut buff).unwrap();
    assert_eq!(n, 15);

    assert_eq!(buff[0], a);
    assert_eq!(&buff[1..][..2], &b.to_le_bytes());
    assert_eq!(&buff[3..][..4], &c.to_le_bytes());
    assert_eq!(&buff[7..][..8], &d.to_le_bytes());
}

#[test]
fn basic_owned_derive() {
    let mut buff = [0u8; 256];
    let rec = basic_values(random(), random(), random(), random());
    let (d, _) = round_trip(&basic(), &mut buff, &rec);
    assert_eq!(d, rec);
}

#[test]
fn derive_array_derive() {
    let mut buff = [0u8; 256];
    let s = schema(vec![plain(FieldType::Array(IntKind::U8, 3))]);
    let a: [u8; 3] = [random(), random(), random()];
    let rec = vec![Value::Ints(a.iter().map(|x| *x as i128).collect())];
    let (d, _) = round_trip(&s, &mut buff, &rec);
    assert_eq!(d, rec);
}

#[test]
fn derive_tuple_derive() {
    let mut buff = [0u8; 256];
    let s = schema(vec![plain(FieldType::Int(IntKind::U8)), plain(FieldType::Int(IntKind::U16))]);
    let rec = vec![Value::Int(random::<u8>() as i128), Value::Int(random::<u16>() as i128)];
    let (d, _) = round_trip(&s, &mut buff, &rec);
    assert_eq!(d, rec);
}

/// `l: u8` holding the length of `a`, and `a: bytes` of length `l`.
fn refs() -> Schema<MarkedBigEndian> {
    let l = FieldAttrs { length_of: Some(1), ..FieldAttrs::none() };
    let a = FieldAttrs { length: Some(0), ..FieldAttrs::none() };
    schema(vec![
        Field::new(FieldType::Int(IntKind::U8), &l),
        Field::new(FieldType::Bytes, &a),
    ])
}

#[test]
fn derive_ref_derive() {
    let mut buff = [0u8; 256];
    let rec = vec![Value::Int(3), Value::Bytes(vec![random(), random(), random()])];
    let (d, _) = round_trip(&refs(), &mut buff, &rec);
    assert_eq!(d, rec);
}

#[test]
fn ref_encode_len() {
    let mut buff = [0u8; 256];
    let a: Vec<u8> = vec![random(), random()];
    let t = vec![Value::Int(0), Value::Bytes(a.clone())];
    let s = refs();

    let encoded_len = s.encode(&t, &mut buff).unwrap();
    assert_eq!(encoded_len, 3);

    let (d, decoded_len) = s.decode(&buff[..encoded_len]).unwrap();

    assert_eq!(d, vec![Value::Int(2), Value::Bytes(a)]);
    assert_eq!(encoded_len, decoded_len);
}

fn u64_ovr() -> MarkedBigEndian {
    MarkedBigEndian { marker: 0xFF, kind: IntKind::U64 }
}

#[test]
fn override_enc_dec() {
    let mut buff = [0u8; 256];
    let attrs = FieldAttrs { enc: Some(0), enc_len: Some(0), dec: Some(0), ..FieldAttrs::none() };
    let s = Schema::new(vec![Field::new(FieldType::Int(IntKind::U64), &attrs)], vec![u64_ovr()])
        .unwrap();

    let a: u64 = random();
    let rec = vec![Value::Int(a as i128)];
    let (d, _) = round_trip(&s, &mut buff, &rec);
    assert_eq!(d, rec);

    assert_eq!(buff[0], 0xFF);
    assert_eq!(&buff[1..][..8], &a.to_be_bytes());
}

#[test]
fn override_enc_dec_with() {
    let mut buff = [0u8; 256];
    let attrs = FieldAttrs { with: Some(0), ..FieldAttrs::none() };
    let s = Schema::new(vec![Field::new(FieldType::Int(IntKind::U64), &attrs)], vec![u64_ovr()])
        .unwrap();

    let a: u64 = random();
    let rec = vec![Value::Int(a as i128)];
    let (d, _) = round_trip(&s, &mut buff, &rec);
    assert_eq!(d, rec);

    assert_eq!(buff[0], 0xFF);
    assert_eq!(&buff[1..][..8], &a.to_be_bytes());
}

#[derive(Clone, PartialEq, Debug)]
enum NewError {
    Length,
    Utf8,
}

impl From<Error> for NewError {
    fn from(e: Error) -> Self {
        match e {
            Error::Length => Self::Length,
            Error::Utf8 => Self::Utf8,
        }
    }
}

#[test]
fn override_error() {
    let mut buff = [0u8; 256];
    let s = schema(vec![plain(FieldType::Int(IntKind::U64))]);
    let t = vec![Value::Int(random::<u64>() as i128)];

    let n = match s.encode_as::<NewError>(&t, &mut buff) {
        Ok(n) => n,
        Err(NewError::Length) => panic!(),
        Err(NewError::Utf8) => panic!(),
    };

    let (t1, _n1) = match s.decode_as::<NewError>(&buff[..n]) {
        Ok(v) => v,
        Err(NewError::Length) => panic!(),
        Err(NewError::Utf8) => panic!(),
    };

    assert_eq!(t, t1);
}

#[test]
fn override_error_reports_replacement_kind() {
    let mut buff = [0u8; 4];
    let s = schema(vec![plain(FieldType::Int(IntKind::U64))]);
    let t = vec![Value::Int(7)];
    assert_eq!(s.encode_as::<NewError>(&t, &mut buff), Err(NewError::Length));
    assert_eq!(s.decode_as::<NewError>(&buff[..3]), Err(NewError::Length));
}

#[test]
fn resolve_precedence() {
    let all = FieldAttrs {
        length: Some(0),
        length_of: Some(1),
        with: Some(2),
        enc: Some(3),
        enc_len: Some(4),
        dec: Some(5),
    };
    assert_eq!(all.resolve(), Strategy::With(2));
    let funcs = FieldAttrs { with: None, ..all };
    assert_eq!(funcs.resolve(), Strategy::Functions { enc: Some(3), enc_len: Some(4), dec: Some(5) });
    let only_dec = FieldAttrs { length: Some(0), dec: Some(1), ..FieldAttrs::none() };
    assert_eq!(only_dec.resolve(), Strategy::Functions { enc: None, enc_len: None, dec: Some(1) });
    let tagged = FieldAttrs { length: Some(0), length_of: Some(1), ..FieldAttrs::none() };
    assert_eq!(tagged.resolve(), Strategy::ExplicitLength(0));
    let of = FieldAttrs { length_of: Some(1), ..FieldAttrs::none() };
    assert_eq!(of.resolve(), Strategy::LengthOf(1));
    assert_eq!(FieldAttrs::none().resolve(), Strategy::Default);
}
