use bytes::{Bytes, BytesMut};
use com_tool::codec::crc_len_coder::CRCLenCoder;
use com_tool::codec::{full_crc16, Decoder, Encoder};

fn buf(b: &[u8]) -> BytesMut {
    let mut m = BytesMut::new();
    m.extend_from_slice(b);
    m
}

#[test]
fn crc_len_encode_hello() {
    let mut coder = CRCLenCoder::new();
    let mut dst = BytesMut::new();
    assert_eq!(coder.encode(Bytes::from_static(b"hello"), &mut dst), Ok(()));
    assert_eq!(
        &dst[..],
        &[0x7e, 0x00, 0x03, 0x00, 0x00, 0x05, 0x68, 0x65, 0x6c, 0x6c, 0x6f, 0x91, 0xc0][..]
    );
}

#[test]
fn crc_len_trailer_is_full_crc16_of_the_rest() {
    let mut coder = CRCLenCoder::new();
    let mut dst = BytesMut::new();
    coder.encode(Bytes::from_static(b"some payload"), &mut dst).unwrap();
    let n = dst.len();
    let crc = full_crc16(&dst[..n - 2]);
    assert_eq!(&dst[n - 2..], &crc.to_be_bytes()[..]);
}

#[test]
fn crc_len_round_trip_takes_two_calls() {
    let mut enc = CRCLenCoder::new();
    let mut dec = CRCLenCoder::new();
    let mut src = BytesMut::new();
    enc.encode(Bytes::from_static(b"hello"), &mut src).unwrap();
    src.extend_from_slice(&[7]);
    assert_eq!(dec.decode(&mut src).unwrap(), None);
    assert_eq!(&src[..], &[0x91, 0xc0, 7][..]);
    let out = dec.decode(&mut src).unwrap();
    assert_eq!(out.as_deref(), Some(&b"hello"[..]));
    assert_eq!(&src[..], &[7][..]);
}

#[test]
fn crc_len_bad_control_resets() {
    let mut dec = CRCLenCoder::new();
    let mut src = buf(&[0x7e, 0, 4, 0, 1, 2]);
    assert_eq!(dec.decode(&mut src).unwrap(), None);
    assert_eq!(&src[..], &[0, 1, 2][..]);
}

#[test]
fn crc_len_skips_one_stray_byte_per_call() {
    let mut dec = CRCLenCoder::new();
    let mut src = buf(&[1, 2, 3, 4, 5]);
    assert_eq!(dec.decode(&mut src).unwrap(), None);
    assert_eq!(&src[..], &[2, 3, 4, 5][..]);
}

#[test]
fn crc_len_short_header_waits() {
    let mut dec = CRCLenCoder::new();
    let mut src = buf(&[0x7e, 0, 3]);
    assert_eq!(dec.decode(&mut src).unwrap(), None);
    assert_eq!(&src[..], &[0x7e, 0, 3][..]);
}

#[test]
fn crc_len_address_is_not_in_the_encoder_crc() {
    let mut enc = CRCLenCoder::new();
    let mut dec = CRCLenCoder::new();
    let mut src = BytesMut::new();
    enc.encode(Bytes::from_static(b"hello"), &mut src).unwrap();
    // A frame whose address byte is 5 but whose CRC was taken with 0.
    src[1] = 5;
    assert_eq!(dec.decode(&mut src).unwrap(), None);
    assert_eq!(dec.decode(&mut src).unwrap(), None);
    assert!(src.is_empty());
}

#[test]
fn crc_len_bad_crc_resets() {
    let mut enc = CRCLenCoder::new();
    let mut dec = CRCLenCoder::new();
    let mut src = BytesMut::new();
    enc.encode(Bytes::from_static(b"abc"), &mut src).unwrap();
    let n = src.len();
    src[n - 1] ^= 1;
    assert_eq!(dec.decode(&mut src).unwrap(), None);
    assert_eq!(dec.decode(&mut src).unwrap(), None);
    let mut src2 = BytesMut::new();
    enc.encode(Bytes::from_static(b"xyz"), &mut src2).unwrap();
    assert_eq!(dec.decode(&mut src2).unwrap(), None);
    assert_eq!(dec.decode(&mut src2).unwrap().as_deref(), Some(&b"xyz"[..]));
}

#[test]
fn crc_len_reset_read() {
    let mut dec = CRCLenCoder::new();
    let mut src = buf(&[0x7e, 0, 3, 0, 0, 5, 1]);
    assert_eq!(dec.decode(&mut src).unwrap(), None);
    dec.reset_read();
    let mut src = buf(&[1, 2, 3, 4]);
    assert_eq!(dec.decode(&mut src).unwrap(), None);
    assert_eq!(&src[..], &[2, 3, 4][..]);
}

#[test]
fn crc_len_encode_refuses_more_than_65536_bytes() {
    let mut coder = CRCLenCoder::new();
    let mut dst = buf(&[9]);
    assert_eq!(coder.encode(Bytes::from(vec![0u8; 65537]), &mut dst), Err(()));
    assert_eq!(&dst[..], &[9][..]);
}

#[test]
fn crc_len_encode_65536_bytes_wraps_the_length_field() {
    let mut coder = CRCLenCoder::new();
    let mut dst = BytesMut::new();
    assert_eq!(coder.encode(Bytes::from(vec![1u8; 65536]), &mut dst), Ok(()));
    assert_eq!(dst.len(), 65536 + 8);
    assert_eq!(&dst[..6], &[0x7e, 0, 3, 0, 0, 0][..]);
}
