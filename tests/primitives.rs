use encdec::helpers::test_encode_decode;
use rand::random;

#[test]
fn primitives_encode_decode_u8() {
    let mut buff = [0u8; 256];
    let v: u8 = random();
    let (d, n) = test_encode_decode::<u8>(&mut buff, v);
    assert_eq!(d, v);
    assert_eq!(n, 1);
}

#[test]
fn primitives_encode_decode_u16() {
    let mut buff = [0u8; 256];
    let v: u16 = random();
    let (d, n) = test_encode_decode::<u16>(&mut buff, v);
    assert_eq!(d, v);
    assert_eq!(n, 2);
}

#[test]
fn primitives_encode_decode_u32() {
    let mut buff = [0u8; 256];
    let v: u32 = random();
    let (d, n) = test_encode_decode::<u32>(&mut buff, v);
    assert_eq!(d, v);
    assert_eq!(n, 4);
}

#[test]
fn primitives_encode_decode_u64() {
    let mut buff = [0u8; 256];
    let v: u64 = random();
    let (d, n) = test_encode_decode::<u64>(&mut buff, v);
    assert_eq!(d, v);
    assert_eq!(n, 8);
}

#[test]
fn encode_decode_i8() {
    let mut buff = [0u8; 256];
    let v: i8 = random();
    let (d, n) = test_encode_decode::<i8>(&mut buff, v);
    assert_eq!(d, v);
    assert_eq!(n, 1);
}

#[test]
fn encode_decode_i16() {
    let mut buff = [0u8; 256];
    let v: i16 = random();
    let (d, n) = test_encode_decode::<i16>(&mut buff, v);
    assert_eq!(d, v);
    assert_eq!(n, 2);
}

#[test]
fn encode_decode_i32() {
    let mut buff = [0u8; 256];
    let v: i32 = random();
    let (d, n) = test_encode_decode::<i32>(&mut buff, v);
    assert_eq!(d, v);
    assert_eq!(n, 4);
}

#[test]
fn encode_decode_i64() {
    let mut buff = [0u8; 256];
    let v: i64 = random();
    let (d, n) = test_encode_decode::<i64>(&mut buff, v);
    assert_eq!(d, v);
    assert_eq!(n, 8);
}
