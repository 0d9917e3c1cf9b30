use bytes::{Bytes, BytesMut};
use com_tool::args::ArgMode;
use com_tool::codec::slip_lng_coder::SlipLnqCoder;
use com_tool::codec::{Decoder, Encoder};

#[test]
fn slip_encode_writes_nothing() {
    let mut coder = SlipLnqCoder::new();
    let mut dst = BytesMut::new();
    dst.extend_from_slice(&[1, 2]);
    assert_eq!(coder.encode(Bytes::from_static(b"abc"), &mut dst), Ok(()));
    assert_eq!(&dst[..], &[1, 2][..]);
}

#[test]
fn slip_decode_empty() {
    let mut coder = SlipLnqCoder::new();
    let mut src = BytesMut::new();
    assert_eq!(coder.decode(&mut src).unwrap(), None);
    coder.reset_read();
}

#[test]
fn loopshot_parts_of_each_mode() {
    let m = ArgMode::Loopshot { interval: 250, command: String::from("ping") };
    assert_eq!(m.loopshot_parts(), Some((250, String::from("ping"))));
    assert_eq!(ArgMode::Interactive.loopshot_parts(), None);
    assert_eq!(ArgMode::Oneshot { command: String::from("x") }.loopshot_parts(), None);
}
