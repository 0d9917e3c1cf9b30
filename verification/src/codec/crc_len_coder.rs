//! A coder with a fixed header, a length field and a CRC-CCITT trailer: a
//! frame is `HEAD`, the address, `CONTROL`, an options byte, the payload
//! length (two bytes, most significant first), the payload, and the CRC of
//! everything before it (two bytes, most significant first).

use super::{
    crc16, crc16_byte, crc16_for_u16, crc16_over, full_crc16_spec, lemma_crc16_over_append,
    lemma_crc16_over_cons,
    lemma_crc16_over_push,
    Decoder, Encoder, Pass,
};
use crate::byte_buf::{
    be_bytes, be_u16, bytes_as_slice, bytes_mut_clear, bytes_mut_clone, bytes_mut_freeze,
    bytes_mut_get_u8, bytes_mut_has_remaining, bytes_mut_new, bytes_mut_put_u16,
    bytes_mut_put_u8, bytes_mut_remaining, bytes_mut_view, bytes_remaining, bytes_view,
    lemma_be_round_trip,
};
use bytes::{Bytes, BytesMut};
use vstd::prelude::*;

verus! {

/// Opens a frame.
pub const HEAD: u8 = 0x7E;

/// The control byte every frame carries.
pub const CONTROL: u8 = 0x03;

/// The CRC coder. Its reading state persists between calls of `decode`, so
/// a frame may arrive in pieces.
#[derive(Debug)]
pub struct CRCLenCoder {
    state_read: StateRead,
    buff: BytesMut,
    adrr: u8,
    crc: u16,
    lenq: u16,
}

/// Where the reader stands in a frame.
#[derive(Debug, Clone, Copy, PartialEq, Eq)]
pub enum StateRead {
    /// Waiting for the four header bytes.
    Head,
    /// Waiting for the two length bytes.
    Length,
    /// Reading payload bytes.
    Data,
    /// Waiting for the two CRC bytes.
    Crc,
}

/// The state of a `CRCLenCoder`: where the reader stands, the payload read
/// so far, the address, the running CRC and the payload bytes still due.
pub struct CrcLenState {
    pub state: StateRead,
    pub buff: Seq<u8>,
    pub adrr: u8,
    pub crc: u16,
    pub lenq: u16,
}

impl View for CRCLenCoder {
    type V = CrcLenState;

    closed spec fn view(&self) -> CrcLenState {
        CrcLenState {
            state: self.state_read,
            buff: bytes_mut_view(self.buff),
            adrr: self.adrr,
            crc: self.crc,
            lenq: self.lenq,
        }
    }
}

/// The state of a fresh coder.
pub open spec fn crc_len_initial() -> CrcLenState {
    CrcLenState { state: StateRead::Head, buff: Seq::empty(), adrr: 0, crc: 0xffff, lenq: 0 }
}

/// What holds of the state between calls: before the payload nothing is
/// kept and the CRC is at its start value, and the payload read plus the
/// bytes still due fit the length field.
pub open spec fn crc_len_wf(m: CrcLenState) -> bool {
    &&& m.state == StateRead::Head ==> m.buff.len() == 0 && m.crc == 0xffff
    &&& m.state == StateRead::Length ==> m.buff.len() == 0
    &&& m.buff.len() + m.lenq <= 0xffff
}

/// The four header bytes and the length field.
pub open spec fn crc_len_header(adrr: u8, len_field: u16) -> Seq<u8> {
    seq![HEAD, adrr, CONTROL, 0x00u8] + be_bytes(len_field)
}

/// The CRC that the encoder puts in a frame: the CRC over the header, with
/// the address taken as 0, and the payload.
pub open spec fn crc_len_frame_crc(len_field: u16, payload: Seq<u8>) -> u16 {
    crc16_over(0xffff, crc_len_header(0, len_field) + payload)
}

/// The frame that the encoder writes for a payload `data` of at most 65536
/// bytes, with address `adrr`; the length field holds the payload length
/// modulo 65536.
pub open spec fn crc_len_frame(adrr: u8, data: Seq<u8>) -> Seq<u8> {
    let len_field = (data.len() % 65536) as u16;
    crc_len_header(adrr, len_field) + data + be_bytes(crc_len_frame_crc(len_field, data))
}

/// One pass of the decoding loop, on a non-empty input.
pub open spec fn crc_len_pass(m: CrcLenState, s: Seq<u8>) -> Pass<CrcLenState> {
    match m.state {
        StateRead::Head => {
            if s.len() >= 4 {
                if s[0] == HEAD {
                    if s[2] != CONTROL {
                        Pass::Halt(crc_len_initial(), s.skip(3))
                    } else {
                        let crc = crc16_byte(
                            crc16_byte(crc16_byte(crc16_byte(m.crc, s[0]), s[1]), s[2]),
                            s[3],
                        );
                        Pass::Go(
                            CrcLenState { state: StateRead::Length, adrr: s[1], crc: crc, ..m },
                            s.skip(4),
                        )
                    }
                } else {
                    Pass::Halt(m, s.skip(1))
                }
            } else {
                Pass::Halt(m, s)
            }
        },
        StateRead::Length => {
            if s.len() >= 2 {
                Pass::Go(
                    CrcLenState {
                        state: StateRead::Data,
                        crc: crc16_byte(crc16_byte(m.crc, s[0]), s[1]),
                        lenq: be_u16(s[0], s[1]),
                        ..m
                    },
                    s.skip(2),
                )
            } else {
                Pass::Halt(m, s)
            }
        },
        StateRead::Data => {
            if m.lenq == 0 {
                Pass::Overflow
            } else if m.lenq == 1 {
                Pass::Halt(
                    CrcLenState {
                        state: StateRead::Crc,
                        buff: m.buff.push(s[0]),
                        crc: crc16_byte(m.crc, s[0]),
                        lenq: 0,
                        ..m
                    },
                    s.skip(1),
                )
            } else {
                Pass::Go(
                    CrcLenState {
                        buff: m.buff.push(s[0]),
                        crc: crc16_byte(m.crc, s[0]),
                        lenq: (m.lenq - 1) as u16,
                        ..m
                    },
                    s.skip(1),
                )
            }
        },
        StateRead::Crc => {
            if s.len() >= 2 {
                if m.crc == be_u16(s[0], s[1]) {
                    Pass::Emit(crc_len_initial(), s.skip(2), m.buff)
                } else {
                    Pass::Halt(crc_len_initial(), s.skip(2))
                }
            } else {
                Pass::Go(m, s.skip(1))
            }
        },
    }
}

/// One call of `decode`: passes run until the input is used up or a pass
/// ends the call. `None` when a pass would overflow (a payload byte arrives
/// while the length field read was 0); otherwise the final state, the bytes
/// left unread and the payload returned, if any.
pub open spec fn crc_len_run(m: CrcLenState, s: Seq<u8>) -> Option<(CrcLenState, Seq<u8>, Option<Seq<u8>>)>
    decreases s.len(),
{
    if s.len() == 0 {
        Some((m, s, None))
    } else {
        match crc_len_pass(m, s) {
            Pass::Go(m1, s1) => {
                if s1.len() < s.len() {
                    crc_len_run(m1, s1)
                } else {
                    None
                }
            },
            Pass::Halt(m1, s1) => Some((m1, s1, None)),
            Pass::Emit(m1, s1, out) => Some((m1, s1, Some(out))),
            Pass::Overflow => None,
        }
    }
}

impl CRCLenCoder {
    /// A coder waiting for a header.
    pub fn new() -> (r: CRCLenCoder)
        ensures
            r@ == crc_len_initial(),
    {
        let buff = bytes_mut_new();
        let state_read = StateRead::Head;
        let adrr: u8 = 0;
        let crc: u16 = 0xFFFF;
        let lenq: u16 = 0;
        CRCLenCoder { state_read, buff, adrr, crc, lenq }
    }

    /// Drops any partial frame and waits for a header again.
    pub fn reset_read(&mut self)
        ensures
            final(self)@ == crc_len_initial(),
    {
        self.state_read = StateRead::Head;
        bytes_mut_clear(&mut self.buff);
        self.adrr = 0;
        self.crc = 0xFFFF;
        self.lenq = 0;
    }

    /// The state holds between calls.
    pub open spec fn wf(&self) -> bool {
        crc_len_wf(self@)
    }

    /// Whether `decode` may be called on `src` in this state: false exactly
    /// when decoding would reach a payload byte while the length field it
    /// read was 0.
    pub fn can_decode(&self, src: &BytesMut) -> (r: bool)
        ensures
            r == (crc_len_run(self@, bytes_mut_view(*src)) is Some),
    {
        let mut rest = bytes_mut_clone(src);
        let mut state = self.state_read;
        let mut lenq = self.lenq;
        let ghost mut gm = self@;
        while bytes_mut_has_remaining(&rest)
            invariant
                state == gm.state,
                lenq == gm.lenq,
                (crc_len_run(self@, bytes_mut_view(*src)) is Some) == (crc_len_run(
                    gm,
                    bytes_mut_view(rest),
                ) is Some),
            decreases bytes_mut_view(rest).len(),
        {
            let ghost s = bytes_mut_view(rest);
            let ghost p = crc_len_pass(gm, s);
            match state {
                StateRead::Head => {
                    if bytes_mut_remaining(&rest) >= 4 {
                        let value = bytes_mut_get_u8(&mut rest);
                        if value == HEAD {
                            let _adrr = bytes_mut_get_u8(&mut rest);
                            let control = bytes_mut_get_u8(&mut rest);
                            if control != CONTROL {
                                return true;
                            }
                            let _options = bytes_mut_get_u8(&mut rest);
                            state = StateRead::Length;
                            assert(bytes_mut_view(rest) =~= s.skip(4));
                        } else {
                            return true;
                        }
                    } else {
                        return true;
                    }
                },
                StateRead::Length => {
                    if bytes_mut_remaining(&rest) >= 2 {
                        let value = bytes_mut_get_u8(&mut rest);
                        let value2 = bytes_mut_get_u8(&mut rest);
                        lenq = ((value as u16) << 8) | value2 as u16;
                        assert(((value as u16) << 8u16) | (value2 as u16) == (value as u16 * 256
                            + value2 as u16) as u16) by (bit_vector);
                        state = StateRead::Data;
                        assert(bytes_mut_view(rest) =~= s.skip(2));
                    } else {
                        return true;
                    }
                },
                StateRead::Data => {
                    let _value = bytes_mut_get_u8(&mut rest);
                    if lenq == 0 {
                        return false;
                    }
                    lenq = lenq - 1;
                    if lenq == 0 {
                        return true;
                    }
                    assert(bytes_mut_view(rest) =~= s.skip(1));
                },
                StateRead::Crc => {
                    let _value = bytes_mut_get_u8(&mut rest);
                    if bytes_mut_has_remaining(&rest) {
                        return true;
                    }
                    assert(bytes_mut_view(rest) =~= s.skip(1));
                },
            }
            proof {
                gm = match p {
                    Pass::Go(m1, _) => m1,
                    _ => gm,
                };
            }
            assert(p == Pass::Go(gm, bytes_mut_view(rest)));
        }
        true
    }
}

impl Encoder for CRCLenCoder {
    type Item = Bytes;

    open spec fn encode_requires(&self, data: Bytes, dst: Seq<u8>) -> bool {
        dst.len() + bytes_view(data).len() + 8 <= isize::MAX
    }

    /// Appends the frame for `data` to `dst`, with the coder's address; a
    /// payload of more than 65536 bytes is refused and `dst` left as it was.
    fn encode(&mut self, data: Self::Item, dst: &mut BytesMut) -> (r: Result<(), ()>)
        ensures
            bytes_view(data).len() > 65536 ==> r == Err::<(), ()>(()) && bytes_mut_view(
                *final(dst),
            ) == bytes_mut_view(*old(dst)),
            bytes_view(data).len() <= 65536 ==> r == Ok::<(), ()>(()) && bytes_mut_view(
                *final(dst),
            ) == bytes_mut_view(*old(dst)) + crc_len_frame(old(self)@.adrr, bytes_view(data)),
            final(self)@ == old(self)@,
    {
        let ghost d0 = bytes_mut_view(*dst);
        let n = bytes_remaining(&data);
        let mut crc: u16 = 0xffff;

        if n > 65536 {
            return Err(());
        }
        let bytes = bytes_as_slice(&data);
        let len_field = n as u16;
        assert(len_field == (n % 65536) as u16) by (bit_vector)
            requires
                len_field == n as u16,
        ;
        let ghost header0 = crc_len_header(0, len_field);

        bytes_mut_put_u8(dst, HEAD);
        bytes_mut_put_u8(dst, self.adrr);
        bytes_mut_put_u8(dst, CONTROL);
        bytes_mut_put_u8(dst, 0x00);

        crc = crc16(crc, HEAD);
        crc = crc16(crc, 0x00);
        crc = crc16(crc, CONTROL);
        crc = crc16(crc, 0x00);

        bytes_mut_put_u16(dst, len_field);
        crc = crc16_for_u16(crc, len_field);
        proof {
            let h = header0;
            assert(h =~= seq![HEAD].push(0x00u8).push(CONTROL).push(0x00u8).push(
                (len_field / 256) as u8,
            ).push((len_field % 256) as u8));
            assert(seq![HEAD] =~= Seq::<u8>::empty().push(HEAD));
            lemma_crc16_over_push(0xffff, Seq::<u8>::empty(), HEAD);
            lemma_crc16_over_push(0xffff, seq![HEAD], 0x00u8);
            lemma_crc16_over_push(0xffff, seq![HEAD].push(0x00u8), CONTROL);
            lemma_crc16_over_push(0xffff, seq![HEAD].push(0x00u8).push(CONTROL), 0x00u8);
            lemma_crc16_over_push(
                0xffff,
                seq![HEAD].push(0x00u8).push(CONTROL).push(0x00u8),
                (len_field / 256) as u8,
            );
            lemma_crc16_over_push(
                0xffff,
                seq![HEAD].push(0x00u8).push(CONTROL).push(0x00u8).push((len_field / 256) as u8),
                (len_field % 256) as u8,
            );
        }
        assert(crc == crc16_over(0xffff, header0 + bytes@.take(0))) by {
            assert(header0 + bytes@.take(0) =~= header0);
        }
        assert(bytes_mut_view(*dst) =~= d0 + crc_len_header(self.adrr, len_field) + bytes@.take(0));

        let mut i: usize = 0;
        while i < n
            invariant
                n <= bytes@.len(),
                n <= 65536,
                i <= n,
                d0.len() + bytes@.len() + 8 <= isize::MAX,
                crc == crc16_over(0xffff, header0 + bytes@.take(i as int)),
                bytes_mut_view(*dst) == d0 + crc_len_header(self.adrr, len_field) + bytes@.take(i as int),
            decreases n - i,
        {
            let value = bytes[i];
            bytes_mut_put_u8(dst, bytes[i]);
            crc = crc16(crc, value);
            proof {
                assert(header0 + bytes@.take(i + 1) =~= (header0 + bytes@.take(i as int)).push(value));
                lemma_crc16_over_push(0xffff, header0 + bytes@.take(i as int), value);
            }
            assert(bytes_mut_view(*dst) =~= d0 + crc_len_header(self.adrr, len_field) + bytes@.take(i + 1));
            i = i + 1;
        }
        bytes_mut_put_u16(dst, crc);
        assert(bytes@.take(n as int) =~= bytes@);
        assert(bytes_mut_view(*dst) =~= d0 + crc_len_frame(self.adrr, bytes@));
        Ok(())
    }
}

impl Decoder for CRCLenCoder {
    type Item = Bytes;

    open spec fn decode_requires(&self, src: Seq<u8>) -> bool {
        &&& self.wf()
        &&& crc_len_run(self@, src) is Some
    }

    /// Reads from the front of `src`: the header, the length, then the
    /// payload, after which the call returns `None`; a later call reads the
    /// CRC and returns the payload when it matches.
    fn decode(&mut self, src: &mut BytesMut) -> (r: Result<Option<Self::Item>, ()>)
        ensures
            final(self).wf(),
            match crc_len_run(old(self)@, bytes_mut_view(*old(src))) {
                Some((m1, rest, out)) => {
                    &&& final(self)@ == m1
                    &&& bytes_mut_view(*final(src)) == rest
                    &&& match r {
                        Ok(Some(b)) => out == Some(bytes_view(b)),
                        Ok(None) => out is None,
                        Err(_) => false,
                    }
                },
                None => false,
            },
    {
        let ghost m0 = self@;
        let ghost s0 = bytes_mut_view(*src);
        while bytes_mut_has_remaining(src)
            invariant
                m0 == old(self)@,
                s0 == bytes_mut_view(*old(src)),
                crc_len_wf(self@),
                crc_len_run(m0, s0) == crc_len_run(self@, bytes_mut_view(*src)),
                crc_len_run(m0, s0) is Some,
            decreases bytes_mut_view(*src).len(),
        {
            let ghost m = self@;
            let ghost s = bytes_mut_view(*src);
            match self.state_read {
                StateRead::Head => {
                    if bytes_mut_remaining(src) >= 4 {
                        let value = bytes_mut_get_u8(src);
                        if value == HEAD {
                            self.crc = crc16(self.crc, value);
                            self.adrr = bytes_mut_get_u8(src);
                            let control = bytes_mut_get_u8(src);
                            if control != CONTROL {
                                self.reset_read();
                                assert(bytes_mut_view(*src) =~= s.skip(3));
                                return Ok(None);
                            }
                            self.crc = crc16(self.crc, self.adrr);
                            self.crc = crc16(self.crc, control);

                            let options = bytes_mut_get_u8(src);
                            self.crc = crc16(self.crc, options);
                            self.state_read = StateRead::Length;
                            assert(bytes_mut_view(*src) =~= s.skip(4));
                        } else {
                            assert(bytes_mut_view(*src) =~= s.skip(1));
                            return Ok(None);
                        }
                    } else {
                        return Ok(None);
                    }
                },
                StateRead::Length => {
                    if bytes_mut_remaining(src) >= 2 {
                        let value = bytes_mut_get_u8(src);
                        self.crc = crc16(self.crc, value);

                        let value2 = bytes_mut_get_u8(src);
                        self.lenq = ((value as u16) << 8) | value2 as u16;
                        assert(((value as u16) << 8u16) | (value2 as u16) == (value as u16 * 256
                            + value2 as u16) as u16) by (bit_vector);

                        self.state_read = StateRead::Data;
                        self.crc = crc16(self.crc, value2);
                        assert(bytes_mut_view(*src) =~= s.skip(2));
                    } else {
                        return Ok(None);
                    }
                },
                StateRead::Data => {
                    let value = bytes_mut_get_u8(src);
                    self.crc = crc16(self.crc, value);
                    self.lenq = self.lenq - 1;
                    bytes_mut_put_u8(&mut self.buff, value);
                    assert(bytes_mut_view(*src) =~= s.skip(1));
                    if self.lenq == 0 {
                        self.state_read = StateRead::Crc;
                        return Ok(None);
                    }
                },
                StateRead::Crc => {
                    let value = bytes_mut_get_u8(src);
                    if bytes_mut_has_remaining(src) {
                        let bsrc = bytes_mut_get_u8(src);
                        let bsrcv2: u16 = ((value as u16) << 8) | bsrc as u16;
                        assert(((value as u16) << 8u16) | (bsrc as u16) == (value as u16 * 256
                            + bsrc as u16) as u16) by (bit_vector);
                        assert(bytes_mut_view(*src) =~= s.skip(2));
                        if self.crc == bsrcv2 {
                            let result = Ok(Some(bytes_mut_freeze(bytes_mut_clone(&self.buff))));
                            self.reset_read();
                            return result;
                        } else {
                            self.reset_read();
                            return Ok(None);
                        }
                    }
                    assert(bytes_mut_view(*src) =~= s.skip(1));
                },
            }
        }
        Ok(None)
    }
}

/// With address 0 and at most 65535 payload bytes, the frame is the header
/// `HEAD, 0, CONTROL, 0`, the payload length (most significant byte first)
/// and the payload, followed by the whole-buffer CRC-CCITT (`full_crc16`)
/// of all of these, most significant byte first.
pub proof fn lemma_crc_len_trailer(data: Seq<u8>)
    requires
        data.len() <= 65535,
    ensures
        ({
            let body = seq![HEAD, 0u8, CONTROL, 0u8] + be_bytes(data.len() as u16) + data;
            crc_len_frame(0, data) == body + be_bytes(full_crc16_spec(body))
        }),
{
    assert((data.len() % 65536) as u16 == data.len() as u16);
}

/// A coder after `reset_read` and a new coder are in the same state, so
/// every later `decode` and `encode` behaves alike on both.
pub proof fn lemma_crc_len_reset_is_new(reset: CrcLenState, fresh: CrcLenState, s: Seq<u8>, data: Seq<u8>)
    requires
        reset == crc_len_initial(),
        fresh == crc_len_initial(),
    ensures
        crc_len_run(reset, s) == crc_len_run(fresh, s),
        crc_len_frame(reset.adrr, data) == crc_len_frame(fresh.adrr, data),
{
}

proof fn lemma_crc_len_payload(m: CrcLenState, d: Seq<u8>, t: Seq<u8>)
    requires
        m.state == StateRead::Data,
        m.lenq > d.len(),
    ensures
        crc_len_run(m, d + t) == crc_len_run(
            CrcLenState {
                buff: m.buff + d,
                crc: crc16_over(m.crc, d),
                lenq: (m.lenq - d.len()) as u16,
                ..m
            },
            t,
        ),
    decreases d.len(),
{
    if d.len() == 0 {
        assert(d + t =~= t);
        assert(m.buff + d =~= m.buff);
        assert(crc16_over(m.crc, d) == m.crc);
    } else {
        let x = d[0];
        let d1 = d.drop_first();
        let s = d + t;
        assert(d =~= seq![x] + d1);
        assert(s[0] == x);
        assert(s.skip(1) =~= d1 + t);
        let m1 = CrcLenState {
            buff: m.buff.push(x),
            crc: crc16_byte(m.crc, x),
            lenq: (m.lenq - 1) as u16,
            ..m
        };
        assert(crc_len_pass(m, s) == Pass::Go(m1, s.skip(1)));
        lemma_crc_len_payload(m1, d1, t);
        lemma_crc16_over_cons(m.crc, x, d1);
        assert(m.buff.push(x) + d1 =~= m.buff + d);
    }
}

/// The frame the encoder writes for a payload of 1 to 65535 bytes, with
/// address 0, is read back by two calls of `decode` from a fresh coder: the
/// first reads the header, the length and the payload and returns `None`,
/// leaving the two CRC bytes and what follows the frame; the second reads
/// the CRC, returns the payload and leaves the coder fresh and the bytes
/// after the frame unread.
#[verifier::rlimit(50)]
pub proof fn lemma_crc_len_round_trip(data: Seq<u8>, rest: Seq<u8>)
    requires
        0 < data.len() < 65536,
    ensures
        ({
            let len_field = data.len() as u16;
            let crc = crc_len_frame_crc(len_field, data);
            let waiting = CrcLenState {
                state: StateRead::Crc,
                buff: data,
                adrr: 0,
                crc: crc,
                lenq: 0,
            };
            &&& crc_len_run(crc_len_initial(), crc_len_frame(0, data) + rest) == Some(
                (waiting, be_bytes(crc) + rest, None::<Seq<u8>>),
            )
            &&& crc_len_run(waiting, be_bytes(crc) + rest) == Some(
                (crc_len_initial(), rest, Some(data)),
            )
        }),
{
    let n = data.len();
    let len_field = n as u16;
    let header = crc_len_header(0, len_field);
    let crc = crc_len_frame_crc(len_field, data);
    let tail = be_bytes(crc) + rest;
    let s = crc_len_frame(0, data) + rest;
    assert(s =~= header + (data + tail));
    lemma_be_round_trip(len_field);
    lemma_be_round_trip(crc);
    let hi = (len_field / 256) as u8;
    let lo = (len_field % 256) as u8;

    // The four header bytes.
    let i0 = crc_len_initial();
    let c4 = crc16_byte(crc16_byte(crc16_byte(crc16_byte(0xffff, HEAD), 0), CONTROL), 0);
    let m_len = CrcLenState { state: StateRead::Length, adrr: 0, crc: c4, ..i0 };
    assert(s[0] == HEAD && s[1] == 0 && s[2] == CONTROL && s[3] == 0);
    assert(crc_len_pass(i0, s) == Pass::Go(m_len, s.skip(4)));

    // The length field.
    let s4 = s.skip(4);
    assert(s4[0] == hi && s4[1] == lo);
    let c6 = crc16_byte(crc16_byte(c4, hi), lo);
    let m_data = CrcLenState { state: StateRead::Data, crc: c6, lenq: be_u16(hi, lo), ..m_len };
    assert(crc_len_pass(m_len, s4) == Pass::Go(m_data, s4.skip(2)));
    assert(be_u16(hi, lo) == len_field);
    assert(s4.skip(2) =~= data + tail);

    // The CRC after the header.
    assert(header =~= seq![HEAD].push(0u8).push(CONTROL).push(0u8).push(hi).push(lo));
    assert(seq![HEAD] =~= Seq::<u8>::empty().push(HEAD));
    lemma_crc16_over_push(0xffff, Seq::<u8>::empty(), HEAD);
    lemma_crc16_over_push(0xffff, seq![HEAD], 0u8);
    lemma_crc16_over_push(0xffff, seq![HEAD].push(0u8), CONTROL);
    lemma_crc16_over_push(0xffff, seq![HEAD].push(0u8).push(CONTROL), 0u8);
    lemma_crc16_over_push(0xffff, seq![HEAD].push(0u8).push(CONTROL).push(0u8), hi);
    lemma_crc16_over_push(0xffff, seq![HEAD].push(0u8).push(CONTROL).push(0u8).push(hi), lo);
    assert(c6 == crc16_over(0xffff, header));

    // The payload, all but its last byte, then the last byte.
    let init = data.drop_last();
    let x = data.last();
    assert(data + tail =~= init + (seq![x] + tail));
    lemma_crc_len_payload(m_data, init, seq![x] + tail);
    let m_last = CrcLenState {
        buff: m_data.buff + init,
        crc: crc16_over(m_data.crc, init),
        lenq: (m_data.lenq - init.len()) as u16,
        ..m_data
    };
    let s_last = seq![x] + tail;
    assert(s_last[0] == x);
    assert(s_last.skip(1) =~= tail);
    assert(m_data.buff + init =~= init);
    assert(init.push(x) =~= data);
    lemma_crc16_over_append(0xffff, header, init);
    lemma_crc16_over_push(0xffff, header + init, x);
    assert((header + init).push(x) =~= header + data);
    let waiting = CrcLenState { state: StateRead::Crc, buff: data, adrr: 0, crc: crc, lenq: 0 };
    assert(crc_len_pass(m_last, s_last) == Pass::Halt(waiting, tail));

    // The CRC bytes.
    assert(tail[0] == be_bytes(crc)[0] && tail[1] == be_bytes(crc)[1]);
    assert(tail.skip(2) =~= rest);
    assert(crc_len_pass(waiting, tail) == Pass::Emit(crc_len_initial(), rest, data));
    assert(crc_len_run(waiting, tail) == Some((crc_len_initial(), rest, Some(data))));

    assert(crc_len_run(m_last, s_last) == Some((waiting, tail, None::<Seq<u8>>)));
    assert(crc_len_run(m_data, data + tail) == crc_len_run(m_last, s_last));
    assert(crc_len_run(m_len, s4) == crc_len_run(m_data, s4.skip(2)));
    assert(crc_len_run(i0, s) == crc_len_run(m_len, s4));
}

/// `t` is a whole frame carrying `d`: `HEAD`, an address, `CONTROL`, an
/// options byte, a length field equal to the length of `d`, `d` itself, and
/// the whole-buffer CRC-CCITT (`full_crc16`) of all of these, most
/// significant byte first.
pub open spec fn crc_len_is_frame(t: Seq<u8>, d: Seq<u8>) -> bool {
    let n = d.len() as int;
    &&& t.len() == n + 8
    &&& t[0] == HEAD
    &&& t[2] == CONTROL
    &&& be_u16(t[4], t[5]) == n
    &&& t.subrange(6, n + 6) == d
    &&& be_u16(t[n + 6], t[n + 7]) == full_crc16_spec(t.take(n + 6))
}

/// The state `m` of a decoder is backed by the bytes `c` it has consumed:
/// a partial frame in `m` (its header, length field and payload read so
/// far, its address and running CRC) is exactly the end of `c`.
pub open spec fn crc_len_backed(m: CrcLenState, c: Seq<u8>) -> bool {
    match m.state {
        StateRead::Head => m == crc_len_initial(),
        StateRead::Length => {
            &&& c.len() >= 4
            &&& c.skip(c.len() - 4)[0] == HEAD
            &&& c.skip(c.len() - 4)[2] == CONTROL
            &&& m.adrr == c.skip(c.len() - 4)[1]
            &&& m.crc == crc16_over(0xffff, c.skip(c.len() - 4))
            &&& m.buff.len() == 0
        },
        _ => {
            let t = c.skip(c.len() - m.buff.len() - 6);
            &&& c.len() >= m.buff.len() + 6
            &&& t[0] == HEAD
            &&& t[2] == CONTROL
            &&& m.adrr == t[1]
            &&& t.skip(6) == m.buff
            &&& m.crc == crc16_over(0xffff, t)
            &&& be_u16(t[4], t[5]) == m.buff.len() + m.lenq
            &&& m.state == StateRead::Crc ==> m.lenq == 0
        },
    }
}

/// Decoding stalled: waiting for the CRC, it took the first CRC byte as the
/// last byte of its input and dropped it.
pub open spec fn crc_len_stalled(m: CrcLenState, c: Seq<u8>) -> bool {
    &&& m.state == StateRead::Crc
    &&& c.len() >= 1
    &&& crc_len_backed(m, c.drop_last())
}

proof fn lemma_tail_of_concat(c: Seq<u8>, w: Seq<u8>, n: int)
    requires
        w.len() <= n <= c.len() + w.len(),
    ensures
        (c + w).skip(c.len() + w.len() - n) == c.skip(c.len() - (n - w.len())) + w,
{
    assert((c + w).skip(c.len() + w.len() - n) =~= c.skip(c.len() - (n - w.len())) + w);
}

#[verifier::rlimit(100)]
#[verifier::spinoff_prover]
proof fn lemma_crc_len_pass_backed(m: CrcLenState, c: Seq<u8>, s: Seq<u8>)
    requires
        crc_len_backed(m, c),
        s.len() > 0,
        !(crc_len_pass(m, s) is Overflow),
    ensures
        match crc_len_pass(m, s) {
            Pass::Go(m1, s1) => {
                &&& s1.len() < s.len()
                &&& s1 == s.skip(s.len() - s1.len())
                &&& (crc_len_backed(m1, c + s.take(s.len() - s1.len())) || (s1.len() == 0
                    && crc_len_stalled(m1, c + s.take(s.len() - s1.len()))))
            },
            Pass::Halt(m1, s1) => {
                &&& s1.len() <= s.len()
                &&& s1 == s.skip(s.len() - s1.len())
                &&& crc_len_backed(m1, c + s.take(s.len() - s1.len()))
            },
            Pass::Emit(m1, s1, d) => {
                let c1 = c + s.take(s.len() - s1.len());
                &&& s1.len() <= s.len()
                &&& s1 == s.skip(s.len() - s1.len())
                &&& m1 == crc_len_initial()
                &&& c1.len() >= d.len() + 8
                &&& crc_len_is_frame(c1.skip(c1.len() - d.len() - 8), d)
            },
            Pass::Overflow => true,
        },
{
    match m.state {
        StateRead::Head => {
            if s.len() >= 4 && s[0] == HEAD {
                assert(s.skip(0) =~= s);
                assert(s.skip(3).len() == s.len() - 3);
                assert(s.skip(s.len() - s.skip(3).len()) =~= s.skip(3));
                assert(s.skip(s.len() - s.skip(4).len()) =~= s.skip(4));
                if s[2] == CONTROL {
                    let w = s.take(4);
                    let c1 = c + w;
                    assert(s.take(s.len() - s.skip(4).len()) =~= w);
                    lemma_tail_of_concat(c, w, 4);
                    assert(c.skip(c.len() - 0) =~= Seq::<u8>::empty());
                    assert(c1.skip(c1.len() - 4) =~= w);
                    assert(w =~= seq![s[0]].push(s[1]).push(s[2]).push(s[3]));
                    assert(seq![s[0]] =~= Seq::<u8>::empty().push(s[0]));
                    lemma_crc16_over_push(0xffff, Seq::<u8>::empty(), s[0]);
                    lemma_crc16_over_push(0xffff, seq![s[0]], s[1]);
                    lemma_crc16_over_push(0xffff, seq![s[0]].push(s[1]), s[2]);
                    lemma_crc16_over_push(0xffff, seq![s[0]].push(s[1]).push(s[2]), s[3]);
                }
            } else if s.len() >= 4 {
                assert(s.skip(s.len() - s.skip(1).len()) =~= s.skip(1));
            } else {
                assert(s.skip(0) =~= s);
            }
        },
        StateRead::Length => {
            if s.len() >= 2 {
                let w = s.take(2);
                let c1 = c + w;
                let t = c.skip(c.len() - 4);
                assert(s.skip(s.len() - s.skip(2).len()) =~= s.skip(2));
                assert(s.take(s.len() - s.skip(2).len()) =~= w);
                lemma_tail_of_concat(c, w, 6);
                assert(c1.skip(c1.len() - 6) =~= t + w);
                assert((t + w).skip(6) =~= Seq::<u8>::empty());
                assert(t + w =~= t.push(s[0]).push(s[1]));
                lemma_crc16_over_push(0xffff, t, s[0]);
                lemma_crc16_over_push(0xffff, t.push(s[0]), s[1]);
                let m1 = CrcLenState {
                    state: StateRead::Data,
                    crc: crc16_byte(crc16_byte(m.crc, s[0]), s[1]),
                    lenq: be_u16(s[0], s[1]),
                    ..m
                };
                assert(crc_len_pass(m, s) == Pass::Go(m1, s.skip(2)));
                let t1 = c1.skip(c1.len() - m1.buff.len() - 6);
                assert(t1 == t + w);
                assert(t1[0] == HEAD);
                assert(t1[2] == CONTROL);
                assert(m1.adrr == t1[1]);
                assert(t1.skip(6) == m1.buff);
                assert(m1.crc == crc16_over(0xffff, t1));
                assert(t1[4] == s[0] && t1[5] == s[1]);
                assert(crc_len_backed(m1, c1));
            } else {
                assert(s.skip(0) =~= s);
                assert(s.take(0) =~= Seq::<u8>::empty());
                assert(c + Seq::<u8>::empty() =~= c);
            }
        },
        StateRead::Data => {
            let k = m.buff.len() as int;
            let w = s.take(1);
            let c1 = c + w;
            let t = c.skip(c.len() - k - 6);
            assert(s.skip(s.len() - s.skip(1).len()) =~= s.skip(1));
            assert(s.take(s.len() - s.skip(1).len()) =~= w);
            lemma_tail_of_concat(c, w, k + 7);
            assert(c1.skip(c1.len() - (k + 1) - 6) =~= t + w);
            assert(t + w =~= t.push(s[0]));
            assert((t + w).skip(6) =~= m.buff.push(s[0]));
            lemma_crc16_over_push(0xffff, t, s[0]);
        },
        StateRead::Crc => {
            let k = m.buff.len() as int;
            let t = c.skip(c.len() - k - 6);
            if s.len() >= 2 {
                let w = s.take(2);
                let c1 = c + w;
                assert(s.skip(s.len() - s.skip(2).len()) =~= s.skip(2));
                assert(s.take(s.len() - s.skip(2).len()) =~= w);
                lemma_tail_of_concat(c, w, k + 8);
                assert(c1.skip(c1.len() - k - 8) =~= t + w);
                let f = t + w;
                assert(f.subrange(6, k + 6) =~= t.skip(6));
                assert(f.take(k + 6) =~= t);
                assert(f[k + 6] == s[0] && f[k + 7] == s[1]);
            } else {
                let w = s.take(1);
                assert(s.skip(s.len() - s.skip(1).len()) =~= s.skip(1));
                assert(s.take(s.len() - s.skip(1).len()) =~= w);
                assert((c + w).drop_last() =~= c);
            }
        },
    }
}

/// One call of `decode` keeps the state backed by the bytes consumed so
/// far; when it returns a payload, the bytes consumed end with a whole
/// frame carrying that payload whose trailer is the CRC of the rest of the
/// frame. The only other outcome is a stall, when the input ended right
/// after the first CRC byte.
pub proof fn lemma_crc_len_run_backed(m: CrcLenState, c: Seq<u8>, s: Seq<u8>)
    requires
        crc_len_backed(m, c),
        crc_len_run(m, s) is Some,
    ensures
        ({
            let (m1, rest, out) = crc_len_run(m, s)->0;
            let c1 = c + s.take(s.len() - rest.len());
            &&& rest.len() <= s.len()
            &&& rest == s.skip(s.len() - rest.len())
            &&& match out {
                Some(d) => {
                    &&& m1 == crc_len_initial()
                    &&& c1.len() >= d.len() + 8
                    &&& crc_len_is_frame(c1.skip(c1.len() - d.len() - 8), d)
                },
                None => crc_len_backed(m1, c1) || (rest.len() == 0 && crc_len_stalled(m1, c1)),
            }
        }),
    decreases s.len(),
{
    if s.len() == 0 {
        assert(s.take(0) =~= Seq::<u8>::empty());
        assert(c + Seq::<u8>::empty() =~= c);
        assert(s.skip(0) =~= s);
    } else {
        lemma_crc_len_pass_backed(m, c, s);
        match crc_len_pass(m, s) {
            Pass::Go(m1, s1) => {
                let w = s.take(s.len() - s1.len());
                if crc_len_backed(m1, c + w) {
                    lemma_crc_len_run_backed(m1, c + w, s1);
                    let (_, rest, _) = crc_len_run(m1, s1)->0;
                    assert(s1.skip(s1.len() - rest.len()) =~= s.skip(s.len() - rest.len()));
                    assert(c + w + s1.take(s1.len() - rest.len()) =~= c + s.take(
                        s.len() - rest.len(),
                    ));
                } else {
                    assert(s1.len() == 0);
                    assert(s.skip(s.len() - 0) =~= s1);
                }
            },
            _ => {},
        }
    }
}

/// `k` successive calls of `decode` on the same buffer, nothing added in
/// between: the state and bytes left after the last call, and what that
/// call returned.
pub open spec fn crc_len_calls(m: CrcLenState, s: Seq<u8>, k: nat) -> Option<(CrcLenState, Seq<u8>, Option<Seq<u8>>)>
    decreases k,
{
    if k == 0 {
        Some((m, s, None))
    } else {
        match crc_len_calls(m, s, (k - 1) as nat) {
            Some((m1, rest, _)) => crc_len_run(m1, rest),
            None => None,
        }
    }
}

proof fn lemma_crc_len_calls_backed(s: Seq<u8>, k: nat)
    requires
        crc_len_calls(crc_len_initial(), s, k) is Some,
    ensures
        ({
            let (m1, rest, out) = crc_len_calls(crc_len_initial(), s, k)->0;
            let c1 = s.take(s.len() - rest.len());
            &&& rest.len() <= s.len()
            &&& rest == s.skip(s.len() - rest.len())
            &&& match out {
                Some(d) => c1.len() >= d.len() + 8 && crc_len_is_frame(
                    c1.skip(c1.len() - d.len() - 8),
                    d,
                ),
                None => true,
            }
            &&& crc_len_backed(m1, c1) || (rest.len() == 0 && crc_len_stalled(m1, c1))
        }),
    decreases k,
{
    if k == 0 {
        assert(s.take(0) =~= Seq::<u8>::empty());
        assert(s.skip(0) =~= s);
    } else {
        lemma_crc_len_calls_backed(s, (k - 1) as nat);
        let (m0, r0, _) = crc_len_calls(crc_len_initial(), s, (k - 1) as nat)->0;
        let c0 = s.take(s.len() - r0.len());
        if crc_len_backed(m0, c0) {
            lemma_crc_len_run_backed(m0, c0, r0);
            let (_, rest, _) = crc_len_run(m0, r0)->0;
            assert(r0.skip(r0.len() - rest.len()) =~= s.skip(s.len() - rest.len()));
            assert(c0 + r0.take(r0.len() - rest.len()) =~= s.take(s.len() - rest.len()));
        } else {
            assert(r0.len() == 0);
        }
    }
}

/// Whenever a fresh decoder, called any number of times on the same buffer
/// with nothing added in between, returns a payload, the bytes it consumed
/// end with a whole frame carrying that payload: the header, a length field
/// equal to the payload's length, the payload, and the whole-buffer CRC of
/// all of it.
pub proof fn lemma_crc_len_payload_backed(s: Seq<u8>, k: nat)
    requires
        crc_len_calls(crc_len_initial(), s, k) matches Some((_, _, Some(_))),
    ensures
        ({
            let (m1, rest, out) = crc_len_calls(crc_len_initial(), s, k)->0;
            let d = out->0;
            let p = s.take(s.len() - rest.len());
            &&& rest == s.skip(s.len() - rest.len())
            &&& p.len() >= d.len() + 8
            &&& crc_len_is_frame(p.skip(p.len() - d.len() - 8), d)
        }),
{
    lemma_crc_len_calls_backed(s, k);
}

/// Every place in `s` that looks like a frame header (`HEAD`, any byte,
/// `CONTROL`, any byte) with a length field after it has a length field
/// other than 0.
pub open spec fn crc_len_headers_nonzero(s: Seq<u8>) -> bool {
    forall|i: int| #[trigger] crc_len_length_nonzero_at(s, i)
}

/// If a frame header starts at position `i` of `s` and a length field
/// follows it, that length field is not 0.
pub open spec fn crc_len_length_nonzero_at(s: Seq<u8>, i: int) -> bool {
    0 <= i && i + 6 <= s.len() && s[i] == HEAD && s[i + 2] == CONTROL ==> be_u16(
        s[i + 4],
        s[i + 5],
    ) != 0
}

/// A decoder never reads a payload byte after a zero length field, so
/// `decode` may always be called, when every frame header in the input is
/// followed by a length field other than 0 (and a decoder already reading
/// a payload still has a byte due, and one waiting for a length field does
/// not find 0 there).
pub proof fn lemma_crc_len_nonzero_lengths_decode(m: CrcLenState, s: Seq<u8>)
    requires
        crc_len_headers_nonzero(s),
        m.state == StateRead::Data ==> m.lenq >= 1,
        m.state == StateRead::Length && s.len() >= 2 ==> be_u16(s[0], s[1]) != 0,
    ensures
        crc_len_run(m, s) is Some,
    decreases s.len(),
{
    if s.len() > 0 {
        match crc_len_pass(m, s) {
            Pass::Go(m1, s1) => {
                let k = s.len() - s1.len();
                assert(s1 =~= s.skip(k)) by {
                    if m.state == StateRead::Head {
                        assert(s1 =~= s.skip(4));
                    } else if m.state == StateRead::Length {
                        assert(s1 =~= s.skip(2));
                    } else {
                        assert(s1 =~= s.skip(1));
                    }
                }
                assert forall|i: int| #[trigger] crc_len_length_nonzero_at(s1, i) by {
                    assert(crc_len_length_nonzero_at(s, i + k));
                    if 0 <= i && i + 6 <= s1.len() {
                        assert(s1[i] == s[i + k] && s1[i + 2] == s[i + k + 2]);
                        assert(s1[i + 4] == s[i + k + 4] && s1[i + 5] == s[i + k + 5]);
                    }
                }
                if m1.state == StateRead::Length && s1.len() >= 2 {
                    assert(crc_len_length_nonzero_at(s, 0));
                    assert(s1[0] == s[4] && s1[1] == s[5]);
                }
                lemma_crc_len_nonzero_lengths_decode(m1, s1);
            },
            _ => {},
        }
    }
}

/// A well-formed frame as any sender may write it: 0x7E, the address `a`,
/// 0x03, the options byte `o`, the payload length (most significant byte
/// first), the payload, and the CRC-CCITT (initial 0xFFFF) of all of these,
/// most significant byte first.
pub open spec fn crc_len_wire_frame(a: u8, o: u8, data: Seq<u8>) -> Seq<u8> {
    let body = seq![0x7Eu8, a, 0x03u8, o] + be_bytes(data.len() as u16) + data;
    body + be_bytes(full_crc16_spec(body))
}

spec fn wire_body(a: u8, o: u8, data: Seq<u8>) -> Seq<u8> {
    seq![0x7Eu8, a, 0x03u8, o] + be_bytes(data.len() as u16) + data
}

spec fn wire_hdr6(a: u8, o: u8, n: u16) -> Seq<u8> {
    seq![0x7Eu8, a, 0x03u8, o] + be_bytes(n)
}

/// The state after the header and `j` payload bytes of the frame.
spec fn wire_reading(a: u8, o: u8, data: Seq<u8>, j: int) -> CrcLenState {
    CrcLenState {
        state: StateRead::Data,
        buff: data.take(j),
        adrr: a,
        crc: crc16_over(0xffff, wire_hdr6(a, o, data.len() as u16) + data.take(j)),
        lenq: (data.len() - j) as u16,
    }
}

/// The state after the whole payload: waiting for the CRC.
spec fn wire_waiting(a: u8, o: u8, data: Seq<u8>) -> CrcLenState {
    CrcLenState {
        state: StateRead::Crc,
        buff: data,
        adrr: a,
        crc: crc16_over(0xffff, wire_body(a, o, data)),
        lenq: 0,
    }
}

proof fn lemma_crc16_over_four(a: u8, b: u8, c: u8, d: u8)
    ensures
        crc16_over(0xffff, seq![a, b, c, d]) == crc16_byte(
            crc16_byte(crc16_byte(crc16_byte(0xffff, a), b), c),
            d,
        ),
{
    assert(seq![a, b, c, d] =~= seq![a].push(b).push(c).push(d));
    assert(seq![a] =~= Seq::<u8>::empty().push(a));
    lemma_crc16_over_push(0xffff, Seq::<u8>::empty(), a);
    lemma_crc16_over_push(0xffff, seq![a], b);
    lemma_crc16_over_push(0xffff, seq![a].push(b), c);
    lemma_crc16_over_push(0xffff, seq![a].push(b).push(c), d);
}

/// From a fresh decoder, the header and the first `j` payload bytes leave
/// it reading the payload, with nothing left over.
proof fn lemma_wire_prefix(a: u8, o: u8, data: Seq<u8>, j: int)
    requires
        0 < data.len() < 65536,
        0 <= j < data.len(),
    ensures
        crc_len_run(crc_len_initial(), wire_hdr6(a, o, data.len() as u16) + data.take(j)) == Some(
            (wire_reading(a, o, data, j), Seq::<u8>::empty(), None::<Seq<u8>>),
        ),
{
    let n = data.len() as u16;
    lemma_be_round_trip(n);
    let hi = be_bytes(n)[0];
    let lo = be_bytes(n)[1];
    let h4 = seq![0x7Eu8, a, 0x03u8, o];
    let s = wire_hdr6(a, o, n) + data.take(j);
    let i0 = crc_len_initial();
    lemma_crc16_over_four(0x7Eu8, a, 0x03u8, o);
    let c4 = crc16_over(0xffff, h4);
    let m_len = CrcLenState { state: StateRead::Length, adrr: a, crc: c4, ..i0 };
    assert(s[0] == 0x7E && s[1] == a && s[2] == 0x03 && s[3] == o);
    assert(crc_len_pass(i0, s) == Pass::Go(m_len, s.skip(4)));
    let s4 = s.skip(4);
    assert(s4[0] == hi && s4[1] == lo);
    assert(h4.push(hi).push(lo) =~= wire_hdr6(a, o, n));
    lemma_crc16_over_push(0xffff, h4, hi);
    lemma_crc16_over_push(0xffff, h4.push(hi), lo);
    let m0 = wire_reading(a, o, data, 0);
    assert(data.take(0) =~= Seq::<u8>::empty());
    assert(wire_hdr6(a, o, n) + data.take(0) =~= wire_hdr6(a, o, n));
    assert(crc_len_pass(m_len, s4) == Pass::Go(m0, s4.skip(2)));
    assert(s4.skip(2) =~= data.take(j) + Seq::<u8>::empty());
    lemma_crc_len_payload(m0, data.take(j), Seq::<u8>::empty());
    lemma_crc16_over_append(0xffff, wire_hdr6(a, o, n), data.take(j));
    assert(m0.buff + data.take(j) =~= data.take(j));
    assert(crc_len_run(m_len, s4) == crc_len_run(m0, s4.skip(2)));
    assert(crc_len_run(i0, s) == crc_len_run(m_len, s4));
}

/// Reading the payload from its `j`-th byte to its end leaves the decoder
/// waiting for the CRC, with the CRC bytes and what follows them unread.
proof fn lemma_wire_from_payload(a: u8, o: u8, data: Seq<u8>, j: int, t: Seq<u8>)
    requires
        0 < data.len() < 65536,
        0 <= j < data.len(),
    ensures
        crc_len_run(wire_reading(a, o, data, j), data.skip(j) + t) == Some(
            (wire_waiting(a, o, data), t, None::<Seq<u8>>),
        ),
{
    let n = data.len() as u16;
    let m = wire_reading(a, o, data, j);
    let h = wire_hdr6(a, o, n);
    let mid = data.subrange(j, data.len() - 1);
    let x = data.last();
    assert(data.skip(j) + t =~= mid + (seq![x] + t));
    lemma_crc_len_payload(m, mid, seq![x] + t);
    let ml = CrcLenState {
        buff: m.buff + mid,
        crc: crc16_over(m.crc, mid),
        lenq: (m.lenq - mid.len()) as u16,
        ..m
    };
    lemma_crc16_over_append(0xffff, h + data.take(j), mid);
    assert(h + data.take(j) + mid =~= h + data.drop_last());
    assert(m.buff + mid =~= data.drop_last());
    lemma_crc16_over_push(0xffff, h + data.drop_last(), x);
    assert((h + data.drop_last()).push(x) =~= wire_body(a, o, data));
    assert(data.drop_last().push(x) =~= data);
    let sl = seq![x] + t;
    assert(sl[0] == x);
    assert(sl.skip(1) =~= t);
    assert(crc_len_pass(ml, sl) == Pass::Halt(wire_waiting(a, o, data), t));
}

/// Waiting for the CRC, the frame's two CRC bytes make the decoder return
/// the payload and start afresh, leaving what follows unread.
proof fn lemma_wire_crc(a: u8, o: u8, data: Seq<u8>, rest: Seq<u8>)
    ensures
        crc_len_run(
            wire_waiting(a, o, data),
            be_bytes(full_crc16_spec(wire_body(a, o, data))) + rest,
        ) == Some((crc_len_initial(), rest, Some(data))),
{
    let c = full_crc16_spec(wire_body(a, o, data));
    lemma_be_round_trip(c);
    let t = be_bytes(c) + rest;
    assert(t[0] == be_bytes(c)[0] && t[1] == be_bytes(c)[1]);
    assert(t.skip(2) =~= rest);
    assert(crc_len_pass(wire_waiting(a, o, data), t) == Pass::Emit(
        crc_len_initial(),
        rest,
        data,
    ));
}

/// A well-formed frame with a payload of 1 to 65535 bytes, from any address
/// and with any options byte, fed whole to a fresh decoder: the first call
/// returns no payload and leaves exactly the two CRC bytes and what follows
/// them; the second call returns the payload and leaves what follows.
pub proof fn lemma_crc_len_decodes_wire_frame(a: u8, o: u8, data: Seq<u8>, rest: Seq<u8>)
    requires
        0 < data.len() < 65536,
    ensures
        ({
            let fr = crc_len_wire_frame(a, o, data);
            let (m1, r1, out1) = crc_len_run(crc_len_initial(), fr + rest)->0;
            &&& crc_len_run(crc_len_initial(), fr + rest) is Some
            &&& out1 is None
            &&& r1 == fr.skip(fr.len() - 2) + rest
            &&& crc_len_run(m1, r1) == Some((crc_len_initial(), rest, Some(data)))
        }),
{
    lemma_wire_whole(a, o, data, rest);
}

proof fn lemma_wire_whole(a: u8, o: u8, data: Seq<u8>, rest: Seq<u8>)
    requires
        0 < data.len() < 65536,
    ensures
        ({
            let fr = crc_len_wire_frame(a, o, data);
            let cb = be_bytes(full_crc16_spec(wire_body(a, o, data)));
            &&& crc_len_run(crc_len_initial(), fr + rest) == Some(
                (wire_waiting(a, o, data), cb + rest, None::<Seq<u8>>),
            )
            &&& fr.skip(fr.len() - 2) == cb
            &&& fr == wire_hdr6(a, o, data.len() as u16) + data + cb
        }),
{
    let n = data.len() as u16;
    let h = wire_hdr6(a, o, n);
    let cb = be_bytes(full_crc16_spec(wire_body(a, o, data)));
    let fr = crc_len_wire_frame(a, o, data);
    lemma_be_round_trip(full_crc16_spec(wire_body(a, o, data)));
    assert(fr =~= h + data + cb);
    assert(fr.skip(fr.len() - 2) =~= cb);
    lemma_wire_prefix(a, o, data, 0);
    assert(data.take(0) =~= Seq::<u8>::empty());
    assert(h + data.take(0) =~= h);
    // The header alone leaves the decoder at the start of the payload; the
    // same passes run on the longer input.
    lemma_wire_header_then(a, o, data, data + cb + rest);
    lemma_wire_from_payload(a, o, data, 0, cb + rest);
    assert(data.skip(0) =~= data);
    assert(fr + rest =~= h + (data + cb + rest));
    assert(data + cb + rest =~= data.skip(0) + (cb + rest));
}

/// From a fresh decoder, the six header bytes lead to the start of the
/// payload, whatever follows them.
proof fn lemma_wire_header_then(a: u8, o: u8, data: Seq<u8>, t: Seq<u8>)
    requires
        0 < data.len() < 65536,
    ensures
        crc_len_run(crc_len_initial(), wire_hdr6(a, o, data.len() as u16) + t) == crc_len_run(
            wire_reading(a, o, data, 0),
            t,
        ),
{
    let n = data.len() as u16;
    lemma_be_round_trip(n);
    let hi = be_bytes(n)[0];
    let lo = be_bytes(n)[1];
    let h4 = seq![0x7Eu8, a, 0x03u8, o];
    let s = wire_hdr6(a, o, n) + t;
    let i0 = crc_len_initial();
    lemma_crc16_over_four(0x7Eu8, a, 0x03u8, o);
    let c4 = crc16_over(0xffff, h4);
    let m_len = CrcLenState { state: StateRead::Length, adrr: a, crc: c4, ..i0 };
    assert(s[0] == 0x7E && s[1] == a && s[2] == 0x03 && s[3] == o);
    assert(crc_len_pass(i0, s) == Pass::Go(m_len, s.skip(4)));
    let s4 = s.skip(4);
    assert(s4[0] == hi && s4[1] == lo);
    assert(h4.push(hi).push(lo) =~= wire_hdr6(a, o, n));
    lemma_crc16_over_push(0xffff, h4, hi);
    lemma_crc16_over_push(0xffff, h4.push(hi), lo);
    let m0 = wire_reading(a, o, data, 0);
    assert(data.take(0) =~= Seq::<u8>::empty());
    assert(wire_hdr6(a, o, n) + data.take(0) =~= wire_hdr6(a, o, n));
    assert(crc_len_pass(m_len, s4) == Pass::Go(m0, s4.skip(2)));
    assert(s4.skip(2) =~= t);
    assert(crc_len_run(m_len, s4) == crc_len_run(m0, t));
    assert(crc_len_run(i0, s) == crc_len_run(m_len, s4));
}

/// The state after the four header bytes: waiting for the length field.
spec fn wire_length_state(a: u8, o: u8) -> CrcLenState {
    CrcLenState {
        state: StateRead::Length,
        buff: Seq::empty(),
        adrr: a,
        crc: crc16_over(0xffff, seq![0x7Eu8, a, 0x03u8, o]),
        lenq: 0,
    }
}

proof fn lemma_wire_length_state(a: u8, o: u8, data: Seq<u8>, u: Seq<u8>, t: Seq<u8>)
    requires
        0 < data.len() < 65536,
        u.len() < 2,
    ensures
        crc_len_run(crc_len_initial(), seq![0x7Eu8, a, 0x03u8, o] + u) == Some(
            (wire_length_state(a, o), u, None::<Seq<u8>>),
        ),
        crc_len_run(wire_length_state(a, o), be_bytes(data.len() as u16) + t) == crc_len_run(
            wire_reading(a, o, data, 0),
            t,
        ),
{
    let n = data.len() as u16;
    lemma_be_round_trip(n);
    let hi = be_bytes(n)[0];
    let lo = be_bytes(n)[1];
    let h4 = seq![0x7Eu8, a, 0x03u8, o];
    let i0 = crc_len_initial();
    lemma_crc16_over_four(0x7Eu8, a, 0x03u8, o);
    let ml = wire_length_state(a, o);
    let s = h4 + u;
    assert(s[0] == 0x7E && s[1] == a && s[2] == 0x03 && s[3] == o);
    assert(s.skip(4) =~= u);
    assert(crc_len_pass(i0, s) == Pass::Go(ml, u));
    assert(crc_len_run(i0, s) == crc_len_run(ml, u));
    let s2 = be_bytes(n) + t;
    assert(s2[0] == hi && s2[1] == lo);
    assert(s2.skip(2) =~= t);
    assert(h4.push(hi).push(lo) =~= wire_hdr6(a, o, n));
    lemma_crc16_over_push(0xffff, h4, hi);
    lemma_crc16_over_push(0xffff, h4.push(hi), lo);
    assert(data.take(0) =~= Seq::<u8>::empty());
    assert(wire_hdr6(a, o, n) + data.take(0) =~= wire_hdr6(a, o, n));
    assert(crc_len_pass(ml, s2) == Pass::Go(wire_reading(a, o, data, 0), t));
}

spec fn split_decodes(a: u8, o: u8, data: Seq<u8>, rest: Seq<u8>, k: int) -> bool {
    let fr = crc_len_wire_frame(a, o, data);
    crc_len_run(crc_len_initial(), fr.take(k)) matches Some((m1, r1, None)) && {
        let t = r1 + fr.skip(k) + rest;
        ||| crc_len_run(m1, t) == Some((crc_len_initial(), rest, Some(data)))
        ||| crc_len_run(m1, t) matches Some((m2, r2, None)) && crc_len_run(m2, r2) == Some(
            (crc_len_initial(), rest, Some(data)),
        )
    }
}

proof fn lemma_split_in_header(a: u8, o: u8, data: Seq<u8>, rest: Seq<u8>, k: int)
    requires
        0 < data.len() < 65536,
        0 <= k < 4,
    ensures
        split_decodes(a, o, data, rest, k),
{
    let fr = crc_len_wire_frame(a, o, data);
    lemma_wire_whole(a, o, data, rest);
    lemma_wire_crc(a, o, data, rest);
    let i0 = crc_len_initial();
    let p = fr.take(k);
    if p.len() > 0 {
        assert(crc_len_pass(i0, p) == Pass::Halt(i0, p));
    }
    assert(p + fr.skip(k) + rest =~= fr + rest);
}

proof fn lemma_split_in_length(a: u8, o: u8, data: Seq<u8>, rest: Seq<u8>, k: int)
    requires
        0 < data.len() < 65536,
        4 <= k < 6,
    ensures
        split_decodes(a, o, data, rest, k),
{
    let fr = crc_len_wire_frame(a, o, data);
    let cb = be_bytes(full_crc16_spec(wire_body(a, o, data)));
    lemma_wire_whole(a, o, data, rest);
    lemma_wire_crc(a, o, data, rest);
    let u = fr.subrange(4, k);
    assert(fr.take(k) =~= seq![0x7Eu8, a, 0x03u8, o] + u);
    lemma_wire_length_state(a, o, data, u, data + cb + rest);
    assert(u + fr.skip(k) + rest =~= be_bytes(data.len() as u16) + (data + cb + rest));
    lemma_wire_from_payload(a, o, data, 0, cb + rest);
    assert(data.skip(0) + (cb + rest) =~= data + cb + rest);
}

proof fn lemma_split_in_payload(a: u8, o: u8, data: Seq<u8>, rest: Seq<u8>, k: int)
    requires
        0 < data.len() < 65536,
        6 <= k < 6 + data.len(),
    ensures
        split_decodes(a, o, data, rest, k),
{
    let fr = crc_len_wire_frame(a, o, data);
    let h = wire_hdr6(a, o, data.len() as u16);
    let cb = be_bytes(full_crc16_spec(wire_body(a, o, data)));
    lemma_wire_whole(a, o, data, rest);
    lemma_wire_crc(a, o, data, rest);
    let j = k - 6;
    assert(fr.take(k) =~= h + data.take(j));
    lemma_wire_prefix(a, o, data, j);
    assert(Seq::<u8>::empty() + fr.skip(k) + rest =~= data.skip(j) + (cb + rest));
    lemma_wire_from_payload(a, o, data, j, cb + rest);
}

proof fn lemma_split_after_payload(a: u8, o: u8, data: Seq<u8>, rest: Seq<u8>, k: int)
    requires
        0 < data.len() < 65536,
        k == 6 + data.len() || k == 8 + data.len(),
    ensures
        split_decodes(a, o, data, rest, k),
{
    let fr = crc_len_wire_frame(a, o, data);
    let h = wire_hdr6(a, o, data.len() as u16);
    let cb = be_bytes(full_crc16_spec(wire_body(a, o, data)));
    lemma_wire_whole(a, o, data, rest);
    lemma_wire_crc(a, o, data, rest);
    if k == 6 + data.len() {
        assert(fr.take(k) =~= h + data);
        lemma_wire_header_then(a, o, data, data);
        lemma_wire_from_payload(a, o, data, 0, Seq::<u8>::empty());
        assert(data.skip(0) + Seq::<u8>::empty() =~= data);
        assert(Seq::<u8>::empty() + fr.skip(k) + rest =~= cb + rest);
    } else {
        assert(fr.take(k) =~= fr);
        lemma_wire_whole(a, o, data, Seq::<u8>::empty());
        assert(fr + Seq::<u8>::empty() =~= fr);
        assert(cb + Seq::<u8>::empty() + fr.skip(k) + rest =~= cb + rest);
    }
}

/// Feeding a well-formed frame in two pieces gives the payload back: a
/// fresh decoder is called on the first `k` bytes, which returns no
/// payload; then the rest of the frame (and whatever follows) is appended to
/// the bytes that call left unread, and at the latest the second call after
/// that returns the payload and leaves what follows the frame. This holds
/// for every split point but one: between the two CRC bytes, where the
/// decoder takes the lone first CRC byte and drops it.
pub proof fn lemma_crc_len_split_frame(a: u8, o: u8, data: Seq<u8>, rest: Seq<u8>, k: int)
    requires
        0 < data.len() < 65536,
        0 <= k <= data.len() + 8,
        k != data.len() + 7,
    ensures
        ({
            let fr = crc_len_wire_frame(a, o, data);
            crc_len_run(crc_len_initial(), fr.take(k)) matches Some((m1, r1, None)) && {
                let t = r1 + fr.skip(k) + rest;
                ||| crc_len_run(m1, t) == Some((crc_len_initial(), rest, Some(data)))
                ||| crc_len_run(m1, t) matches Some((m2, r2, None)) && crc_len_run(m2, r2)
                    == Some((crc_len_initial(), rest, Some(data)))
            }
        }),
{
    if k < 4 {
        lemma_split_in_header(a, o, data, rest, k);
    } else if k < 6 {
        lemma_split_in_length(a, o, data, rest, k);
    } else if k < 6 + data.len() {
        lemma_split_in_payload(a, o, data, rest, k);
    } else {
        lemma_split_after_payload(a, o, data, rest, k);
    }
}


/// A call on a decoder waiting for the two length bytes, with a single byte
/// available, changes nothing: the state and the byte stay, waiting for the
/// second length byte.
pub proof fn lemma_crc_len_waits_for_length(m: CrcLenState, x: u8)
    requires
        m.state == StateRead::Length,
    ensures
        crc_len_run(m, seq![x]) == Some((m, seq![x], None::<Seq<u8>>)),
{
}

} // verus!
