# com_tool

A serial-port console and the framing codecs it speaks.

- `src/` is the verified library:
  - `codec/mod.rs`: the `Encoder`/`Decoder` traits and the CRC-16 routines
    (`crc16`, `crc16_for_u16`, `full_crc16`, `isak_crc16`), each proved equal
    to a bit-level specification.
  - `codec/simple_coder.rs`, `codec/lenq_coder.rs`, `codec/crc_len_coder.rs`,
    `codec/slip_lng_coder.rs`: the coders. Each decoder is specified as a
    state machine over the bytes it reads; the round-trip laws (decoding an
    encoded frame gives the payload back) are proved there.
  - `byte_buf.rs`: the `bytes` crate's `BytesMut` and `Bytes`, and the
    contracts of the methods the coders call.
  - `args.rs`, `modes.rs`: the command line as plain values, and the mode trait.
- `app/` is the program: command-line parsing, the port thread and the modes.
- `tests/` runs the library on concrete frames.
