use bytes::{Bytes, BytesMut};
use com_tool::codec::crc_len_coder::CRCLenCoder;
use com_tool::codec::lenq_coder::LenqCoder;
use com_tool::codec::slip_lng_coder::SlipLnqCoder;
use com_tool::codec::Encoder;

fn buf(b: &[u8]) -> BytesMut {
    let mut m = BytesMut::new();
    m.extend_from_slice(b);
    m
}

#[test]
fn lenq_can_decode_a_frame() {
    let mut enc = LenqCoder::new();
    let dec = LenqCoder::new();
    let mut src = BytesMut::new();
    enc.encode(Bytes::from_static(b"hello"), &mut src).unwrap();
    assert!(dec.can_decode(&src));
}

#[test]
fn lenq_cannot_decode_an_overflowing_frame() {
    let dec = LenqCoder::new();
    let mut bytes = vec![40u8, 0, 4, 0, 4, 40];
    bytes.extend_from_slice(&[255u8; 300]);
    let src = buf(&bytes);
    assert!(!dec.can_decode(&src));
    // The check stays in range over fewer payload bytes.
    let src = buf(&bytes[..206]);
    assert!(dec.can_decode(&src));
}

#[test]
fn lenq_can_encode_checks_the_frame_sum() {
    let coder = LenqCoder::new();
    let dst = BytesMut::new();
    assert!(coder.can_encode(&Bytes::from_static(b"hello"), &dst));
    assert!(!coder.can_encode(&Bytes::from(vec![255u8; 1024]), &dst));
    assert!(coder.can_encode(&Bytes::from(vec![255u8; 200]), &dst));
}

#[test]
fn crc_len_can_decode() {
    let mut enc = CRCLenCoder::new();
    let dec = CRCLenCoder::new();
    let mut src = BytesMut::new();
    enc.encode(Bytes::from_static(b"hello"), &mut src).unwrap();
    assert!(dec.can_decode(&src));
    // A zero length field followed by another byte would underflow.
    let src = buf(&[0x7e, 0, 3, 0, 0, 0, 5]);
    assert!(!dec.can_decode(&src));
    let src = buf(&[0x7e, 0, 3, 0, 0, 0]);
    assert!(dec.can_decode(&src));
}

#[test]
fn slip_can_decode_only_empty() {
    let dec = SlipLnqCoder::new();
    assert!(dec.can_decode(&BytesMut::new()));
    assert!(!dec.can_decode(&buf(&[1])));
}
