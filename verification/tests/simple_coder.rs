use bytes::{Bytes, BytesMut};
use com_tool::codec::simple_coder::SimpleCoder;
use com_tool::codec::{Decoder, Encoder};

fn buf(b: &[u8]) -> BytesMut {
    let mut m = BytesMut::new();
    m.extend_from_slice(b);
    m
}

#[test]
fn simple_encode_escapes() {
    let mut coder = SimpleCoder::new();
    let mut dst = BytesMut::new();
    let r = coder.encode(Bytes::from_static(b"a(b)c+d"), &mut dst);
    assert_eq!(r, Ok(()));
    assert_eq!(&dst[..], &[40, 97, 43, 48, 98, 43, 49, 99, 43, 43, 100, 41][..]);
}

#[test]
fn simple_encode_appends() {
    let mut coder = SimpleCoder::new();
    let mut dst = buf(&[7, 7]);
    coder.encode(Bytes::from_static(b""), &mut dst).unwrap();
    assert_eq!(&dst[..], &[7, 7, 40, 41][..]);
}

#[test]
fn simple_round_trip_leaves_rest() {
    let mut enc = SimpleCoder::new();
    let mut dec = SimpleCoder::new();
    let mut frame = BytesMut::new();
    enc.encode(Bytes::from_static(b"a(b)c+d"), &mut frame).unwrap();
    let mut src = buf(&[1, 2]);
    src.extend_from_slice(&frame);
    src.extend_from_slice(&[9]);
    let out = dec.decode(&mut src).unwrap();
    assert_eq!(out.as_deref(), Some(&b"a(b)c+d"[..]));
    assert_eq!(&src[..], &[9][..]);
}

#[test]
fn simple_frame_in_pieces() {
    let mut dec = SimpleCoder::new();
    let mut src = buf(&[40, 1, 2]);
    assert_eq!(dec.decode(&mut src).unwrap(), None);
    assert!(src.is_empty());
    let mut src = buf(&[43, 48, 3, 41]);
    let out = dec.decode(&mut src).unwrap();
    assert_eq!(out.as_deref(), Some(&[1, 2, 40, 3][..]));
}

#[test]
fn simple_bad_escape_drops_frame() {
    let mut dec = SimpleCoder::new();
    let mut src = buf(&[40, 1, 43, 50, 2, 41]);
    assert_eq!(dec.decode(&mut src).unwrap(), None);
    assert!(src.is_empty());
    let mut src = buf(&[40, 1, 43, 50, 2, 40, 3, 41]);
    let out = dec.decode(&mut src).unwrap();
    assert_eq!(out.as_deref(), Some(&[3][..]));
}

#[test]
fn simple_head_inside_frame_starts_a_new_frame() {
    let mut dec = SimpleCoder::new();
    let mut src = buf(&[40, 1, 40, 2, 41, 40, 3, 41]);
    let out = dec.decode(&mut src).unwrap();
    assert_eq!(out.as_deref(), Some(&[2][..]));
    assert_eq!(&src[..], &[40, 3, 41][..]);
}

#[test]
fn simple_skips_bytes_before_the_frame() {
    let mut enc = SimpleCoder::new();
    let mut dec = SimpleCoder::new();
    let mut frame = BytesMut::new();
    enc.encode(Bytes::from_static(b"xy"), &mut frame).unwrap();
    let mut src = buf(&[1, 41, 43, 7]);
    src.extend_from_slice(&frame);
    src.extend_from_slice(&[5]);
    let out = dec.decode(&mut src).unwrap();
    assert_eq!(out.as_deref(), Some(&b"xy"[..]));
    assert_eq!(&src[..], &[5][..]);
}

#[test]
fn simple_reads_at_most_1024_bytes_per_call() {
    let mut dec = SimpleCoder::new();
    let mut bytes = vec![0u8; 1030];
    bytes[1029] = 41;
    let mut src = buf(&bytes);
    assert_eq!(dec.decode(&mut src).unwrap(), None);
    assert_eq!(src.len(), 6);
}

#[test]
fn simple_long_partial_frame_is_dropped() {
    let mut dec = SimpleCoder::new();
    let mut bytes = vec![5u8; 1030];
    bytes[0] = 40;
    let mut src = buf(&bytes[..1024]);
    assert_eq!(dec.decode(&mut src).unwrap(), None);
    // 1023 payload bytes are kept; one more pushes the frame past the limit.
    let mut src = buf(&[5, 5]);
    assert_eq!(dec.decode(&mut src).unwrap(), None);
    let mut src = buf(&[41]);
    assert_eq!(dec.decode(&mut src).unwrap(), None);
}

#[test]
fn simple_reset_drops_partial_frame() {
    let mut dec = SimpleCoder::new();
    let mut src = buf(&[40, 1, 2]);
    dec.decode(&mut src).unwrap();
    dec.reset_read();
    let mut src = buf(&[3, 41]);
    assert_eq!(dec.decode(&mut src).unwrap(), None);
}
