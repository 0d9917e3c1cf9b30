use bytes::{Bytes, BytesMut};
use com_tool::codec::lenq_coder::LenqCoder;
use com_tool::codec::{Decoder, Encoder};

fn buf(b: &[u8]) -> BytesMut {
    let mut m = BytesMut::new();
    m.extend_from_slice(b);
    m
}

#[test]
fn lenq_encode_hello() {
    let mut coder = LenqCoder::new();
    let mut dst = BytesMut::new();
    assert_eq!(coder.encode(Bytes::from_static(b"hello"), &mut dst), Ok(()));
    assert_eq!(&dst[..], &[40, 0, 0, 5, 0, 45, 104, 101, 108, 108, 111, 2, 65][..]);
}

#[test]
fn lenq_encode_escapes_and_sums() {
    let mut coder = LenqCoder::new();
    let mut dst = BytesMut::new();
    coder.encode(Bytes::from_static(&[40, 43]), &mut dst).unwrap();
    assert_eq!(&dst[..], &[40, 0, 0, 2, 0, 42, 43, 48, 43, 43, 0, 219][..]);
}

#[test]
fn lenq_encode_empty_bumps_header_check() {
    let mut coder = LenqCoder::new();
    let mut dst = BytesMut::new();
    coder.encode(Bytes::from_static(b""), &mut dst).unwrap();
    assert_eq!(&dst[..], &[40, 0, 0, 0, 0, 41, 0, 41][..]);
}

#[test]
fn lenq_round_trip() {
    let mut enc = LenqCoder::new();
    let mut dec = LenqCoder::new();
    let mut src = BytesMut::new();
    enc.encode(Bytes::from_static(b"hello"), &mut src).unwrap();
    src.extend_from_slice(&[7]);
    let out = dec.decode(&mut src).unwrap();
    assert_eq!(out.as_deref(), Some(&b"hello"[..]));
    assert_eq!(&src[..], &[7][..]);
}

#[test]
fn lenq_round_trip_escaped() {
    let mut enc = LenqCoder::new();
    let mut dec = LenqCoder::new();
    let mut src = BytesMut::new();
    enc.encode(Bytes::from_static(&[40, 43]), &mut src).unwrap();
    let out = dec.decode(&mut src).unwrap();
    assert_eq!(out.as_deref(), Some(&[40, 43][..]));
    assert!(src.is_empty());
}

#[test]
fn lenq_head_restarts_a_stale_reader() {
    let mut dec = LenqCoder::new();
    let mut src = buf(&[40, 0, 0, 9, 0, 49, 1, 2]);
    assert_eq!(dec.decode(&mut src).unwrap(), None);
    let mut enc = LenqCoder::new();
    let mut src = BytesMut::new();
    enc.encode(Bytes::from_static(b"hi"), &mut src).unwrap();
    let out = dec.decode(&mut src).unwrap();
    assert_eq!(out.as_deref(), Some(&b"hi"[..]));
}

#[test]
fn lenq_check_byte_equal_to_head_is_not_read_back() {
    let mut enc = LenqCoder::new();
    let mut dec = LenqCoder::new();
    let mut src = BytesMut::new();
    enc.encode(Bytes::from_static(&[255]), &mut src).unwrap();
    assert_eq!(&src[..], &[40, 0, 0, 1, 0, 41, 255, 1, 40][..]);
    assert_eq!(dec.decode(&mut src).unwrap(), None);
}

#[test]
fn lenq_bad_header_check_is_skipped() {
    let mut dec = LenqCoder::new();
    let mut src = buf(&[40, 0, 0, 1, 0, 99, 5, 0, 46]);
    assert_eq!(dec.decode(&mut src).unwrap(), None);
    assert!(src.is_empty());
}

#[test]
fn lenq_reset_read() {
    let mut dec = LenqCoder::new();
    let mut src = buf(&[40, 0, 0, 3, 0, 43, 1]);
    assert_eq!(dec.decode(&mut src).unwrap(), None);
    dec.reset_read();
    let mut src = buf(&[2, 3, 0, 49]);
    assert_eq!(dec.decode(&mut src).unwrap(), None);
}
