//! Round trips and exact wire bytes for the codec.

use greychain::{Serializer, Transaction};

#[test]
fn u64_round_trip_exact_bytes() {
    let v: u64 = 0x0102030405060708;
    let mut buf: Vec<u8> = Vec::new();
    let n = v.serialize(&mut buf);
    assert_eq!(n, 8);
    assert_eq!(buf, vec![0x08, 0x07, 0x06, 0x05, 0x04, 0x03, 0x02, 0x01]);
    let (consumed, back) = u64::deserialize(&buf, 0).unwrap();
    assert_eq!(consumed, 8);
    assert_eq!(back, v);
}

#[test]
fn u64_decode_short_buffer_fails() {
    let buf = vec![1u8, 2, 3];
    assert!(u64::deserialize(&buf, 0).is_none());
}

#[test]
fn u16_round_trip() {
    let v: u16 = 6969;
    let mut buf: Vec<u8> = Vec::new();
    let n = v.serialize(&mut buf);
    assert_eq!(n, 2);
    assert_eq!(buf, vec![0x39, 0x1b]);
    let (consumed, back) = u16::deserialize(&buf, 0).unwrap();
    assert_eq!((consumed, back), (2, v));
}

#[test]
fn u128_round_trip() {
    let v: u128 = 0xdeadbeef_cafebabe_01234567_89abcdefu128;
    let mut buf: Vec<u8> = Vec::new();
    let n = v.serialize(&mut buf);
    assert_eq!(n, 16);
    let (consumed, back) = u128::deserialize(&buf, 0).unwrap();
    assert_eq!((consumed, back), (16, v));
}

#[test]
fn u8_round_trip() {
    let v: u8 = 0xa5;
    let mut buf: Vec<u8> = Vec::new();
    assert_eq!(v.serialize(&mut buf), 1);
    assert_eq!(buf, vec![0xa5]);
    let (consumed, back) = u8::deserialize(&buf, 0).unwrap();
    assert_eq!((consumed, back), (1, v));
}

#[test]
fn bool_round_trip_and_strictness() {
    let mut buf: Vec<u8> = Vec::new();
    assert_eq!(true.serialize(&mut buf), 1);
    assert_eq!(false.serialize(&mut buf), 1);
    assert_eq!(buf, vec![1, 0]);
    assert_eq!(bool::deserialize(&buf, 0).unwrap(), (1, true));
    assert_eq!(bool::deserialize(&buf, 1).unwrap(), (1, false));
    // any byte other than 0 or 1 is no boolean
    let bad = vec![2u8];
    assert!(bool::deserialize(&bad, 0).is_none());
}

#[test]
fn string_round_trip_exact_prefix() {
    let s = String::from("hello");
    let mut buf: Vec<u8> = Vec::new();
    let n = s.serialize(&mut buf);
    assert_eq!(n, 8 + 5);
    assert_eq!(&buf[..8], &[5, 0, 0, 0, 0, 0, 0, 0]);
    assert_eq!(&buf[8..], b"hello");
    let (consumed, back) = String::deserialize(&buf, 0).unwrap();
    assert_eq!(consumed, 13);
    assert_eq!(back, s);
}

#[test]
fn string_decode_rejects_invalid_utf8() {
    let mut buf: Vec<u8> = Vec::new();
    let _ = 2u64.serialize(&mut buf);
    buf.push(0xff);
    buf.push(0xfe);
    assert!(String::deserialize(&buf, 0).is_none());
}

#[test]
fn bytes_round_trip() {
    let v: Vec<u8> = vec![9, 8, 7, 6];
    let mut buf: Vec<u8> = Vec::new();
    let n = v.serialize(&mut buf);
    assert_eq!(n, 12);
    let (consumed, back) = <Vec<u8>>::deserialize(&buf, 0).unwrap();
    assert_eq!(consumed, 12);
    assert_eq!(back, v);
}

#[test]
fn transaction_round_trip() {
    let payer = String::from("payer-pem");
    let payee = String::from("payee-pem");
    let tx = Transaction::new(42, (420.69f64).to_bits(), &payer, &payee);
    let mut buf: Vec<u8> = Vec::new();
    let n = tx.serialize(&mut buf);
    // id + amount bits + two length-prefixed strings
    assert_eq!(n, 8 + 8 + (8 + 9) + (8 + 9));
    let (consumed, back) = Transaction::deserialize(&buf, 0).unwrap();
    assert_eq!(consumed, n);
    assert!(back == tx);
    assert_eq!(back.id, 42);
    assert_eq!(f64::from_bits(back.amount_bits), 420.69f64);
    assert_eq!(back.payer, payer);
    assert_eq!(back.payee, payee);
}

#[test]
fn transaction_round_trip_with_trailing_bytes() {
    let tx = Transaction::new(7, 0, &String::from("a"), &String::from("b"));
    let mut buf: Vec<u8> = Vec::new();
    let n = tx.serialize(&mut buf);
    buf.extend_from_slice(&[0u8; 100]);
    let (consumed, back) = Transaction::deserialize(&buf, 0).unwrap();
    assert_eq!(consumed, n);
    assert!(back == tx);
}
