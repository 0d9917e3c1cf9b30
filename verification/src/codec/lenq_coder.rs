//! A length-prefixed coder with an additive checksum: a frame is `HEAD`, an
//! options byte, the payload length and a header check (two bytes each,
//! most significant first), the payload with every `HEAD` and `ESC` byte
//! escaped, and a check over all of it (two bytes, most significant first).

use super::{Decoder, Encoder, Pass};
use crate::byte_buf::{
    be_bytes, be_u16, bytes_as_slice, bytes_mut_clear, bytes_mut_clone, bytes_mut_freeze,
    bytes_mut_get_u16, bytes_mut_get_u8, bytes_mut_has_remaining, bytes_mut_len, bytes_mut_new,
    bytes_mut_put_u16, bytes_mut_put_u8, bytes_mut_remaining, bytes_mut_view, bytes_remaining,
    bytes_view, lemma_be_round_trip,
};
use bytes::{Bytes, BytesMut};
use vstd::prelude::*;

verus! {

/// Opens a frame.
pub const HEAD: u8 = 40;

/// Announces an escaped byte.
pub const ESC: u8 = 43;

/// Stands for `HEAD` after `ESC`.
pub const ESC_HEAD: u8 = 48;

/// The most payload bytes a frame carries.
pub const MAX_LEN: u16 = 1024;

/// The length-prefixed coder. Its reading state persists between calls of
/// `decode`, so a frame may arrive in pieces.
#[derive(Debug)]
pub struct LenqCoder {
    state_read: StateRead,
    buff: BytesMut,
    crc: u16,
    lenq: u16,
}

/// Where the reader stands in a frame.
#[derive(Debug, Clone, Copy, PartialEq, Eq, Structural)]
pub enum StateRead {
    /// Waiting for `HEAD`.
    Head,
    /// Reading payload bytes.
    Data,
    /// The last byte was `ESC`.
    Esc,
    /// Waiting for the two check bytes.
    Crc,
}

/// The state of a `LenqCoder`: where the reader stands, the payload read so
/// far, the running check and the payload bytes still due.
pub struct LenqState {
    pub state: StateRead,
    pub buff: Seq<u8>,
    pub crc: u16,
    pub lenq: u16,
}

impl View for LenqCoder {
    type V = LenqState;

    closed spec fn view(&self) -> LenqState {
        LenqState {
            state: self.state_read,
            buff: bytes_mut_view(self.buff),
            crc: self.crc,
            lenq: self.lenq,
        }
    }
}

/// The state of a fresh coder.
pub open spec fn lenq_initial() -> LenqState {
    LenqState { state: StateRead::Head, buff: Seq::empty(), crc: 0, lenq: 0 }
}

/// What holds of the state between calls: nothing is kept while waiting for
/// `HEAD`, a payload byte is always due while reading the payload, and the
/// payload read plus the bytes still due never exceed `MAX_LEN`.
pub open spec fn lenq_wf(m: LenqState) -> bool {
    &&& m.state == StateRead::Head ==> m.buff.len() == 0
    &&& m.state == StateRead::Data ==> m.lenq >= 1 && m.buff.len() + m.lenq <= 1024
    &&& m.state == StateRead::Esc ==> m.buff.len() + m.lenq + 1 <= 1024
    &&& m.buff.len() <= 1024
}

/// What one payload byte becomes in a frame.
pub open spec fn lenq_escape_byte(b: u8) -> Seq<u8> {
    if b == HEAD {
        seq![ESC, ESC_HEAD]
    } else if b == ESC {
        seq![ESC, ESC]
    } else {
        seq![b]
    }
}

/// What a payload becomes in a frame, byte by byte.
pub open spec fn lenq_escape(data: Seq<u8>) -> Seq<u8>
    decreases data.len(),
{
    if data.len() == 0 {
        Seq::empty()
    } else {
        lenq_escape(data.drop_last()) + lenq_escape_byte(data.last())
    }
}

/// The sum of the bytes of `s`.
pub open spec fn byte_sum(s: Seq<u8>) -> int
    decreases s.len(),
{
    if s.len() == 0 {
        0
    } else {
        byte_sum(s.drop_last()) + s.last()
    }
}

/// How many payload bytes a frame carries: at most `MAX_LEN`.
pub open spec fn lenq_count(len: nat) -> nat {
    if len > 1024 {
        1024
    } else {
        len
    }
}

/// The header check for a payload of `n` bytes: `HEAD` plus the options
/// byte 0 plus `n`, moved to 41 when that would equal `HEAD`.
pub open spec fn lenq_header_check(n: u16) -> u16 {
    if n == 0 {
        41
    } else {
        (40 + n) as u16
    }
}

/// The frame check, as an unbounded number: the header check plus the sum
/// of the escaped payload bytes.
pub open spec fn lenq_frame_check(data: Seq<u8>) -> int {
    let n = lenq_count(data.len());
    lenq_header_check(n as u16) + byte_sum(lenq_escape(data.take(n as int)))
}

/// The frame that the encoder writes for `data`; it carries at most
/// `MAX_LEN` payload bytes.
pub open spec fn lenq_frame(data: Seq<u8>) -> Seq<u8> {
    let n = lenq_count(data.len()) as u16;
    seq![HEAD, 0x00u8] + be_bytes(n) + be_bytes(lenq_header_check(n)) + lenq_escape(
        data.take(n as int),
    ) + be_bytes(lenq_frame_check(data) as u16)
}

/// The pass after the byte's own work: when the payload is complete the
/// reader goes on to wait for the check.
pub open spec fn lenq_settle(m: LenqState) -> LenqState {
    if m.state == StateRead::Data && m.lenq == 0 {
        LenqState { state: StateRead::Crc, ..m }
    } else {
        m
    }
}

/// One pass of the decoding loop, on a non-empty input. A `HEAD` byte always
/// restarts the reader first.
pub open spec fn lenq_pass(m: LenqState, s: Seq<u8>) -> Pass<LenqState> {
    let value = s[0];
    let s1 = s.drop_first();
    let m0 = if value == HEAD {
        lenq_initial()
    } else {
        m
    };
    match m0.state {
        StateRead::Head => {
            if value == HEAD {
                if s1.len() > 5 {
                    let field = be_u16(s1[1], s1[2]);
                    let lenq: u16 = if field > 1024 {
                        1024
                    } else {
                        field
                    };
                    let crc = (40 + s1[0] + lenq) as u16;
                    if crc != be_u16(s1[3], s1[4]) {
                        Pass::Go(lenq_initial(), s1.skip(5))
                    } else {
                        Pass::Go(
                            lenq_settle(
                                LenqState {
                                    state: StateRead::Data,
                                    buff: Seq::empty(),
                                    crc: crc,
                                    lenq: lenq,
                                },
                            ),
                            s1.skip(5),
                        )
                    }
                } else {
                    Pass::Go(lenq_initial(), s1)
                }
            } else {
                Pass::Go(m0, s1)
            }
        },
        StateRead::Esc => {
            if m0.crc + value > 0xffff {
                Pass::Overflow
            } else {
                let crc = (m0.crc + value) as u16;
                if value == ESC_HEAD {
                    Pass::Go(
                        lenq_settle(
                            LenqState {
                                state: StateRead::Data,
                                buff: m0.buff.push(HEAD),
                                crc: crc,
                                lenq: m0.lenq,
                            },
                        ),
                        s1,
                    )
                } else if value == ESC {
                    Pass::Go(
                        lenq_settle(
                            LenqState {
                                state: StateRead::Data,
                                buff: m0.buff.push(ESC),
                                crc: crc,
                                lenq: m0.lenq,
                            },
                        ),
                        s1,
                    )
                } else {
                    Pass::Go(lenq_initial(), s1)
                }
            }
        },
        StateRead::Data => {
            if m0.crc + value > 0xffff || m0.lenq == 0 {
                Pass::Overflow
            } else {
                let crc = (m0.crc + value) as u16;
                let lenq = (m0.lenq - 1) as u16;
                if value == ESC {
                    Pass::Go(
                        LenqState { state: StateRead::Esc, buff: m0.buff, crc: crc, lenq: lenq },
                        s1,
                    )
                } else {
                    Pass::Go(
                        lenq_settle(
                            LenqState {
                                state: StateRead::Data,
                                buff: m0.buff.push(value),
                                crc: crc,
                                lenq: lenq,
                            },
                        ),
                        s1,
                    )
                }
            }
        },
        StateRead::Crc => {
            if s1.len() >= 1 {
                let b: u8 = if s1[0] == HEAD {
                    41
                } else {
                    s1[0]
                };
                if m0.crc == be_u16(value, b) {
                    Pass::Emit(lenq_initial(), s1.skip(1), m0.buff)
                } else {
                    Pass::Go(lenq_initial(), s1.skip(1))
                }
            } else {
                Pass::Go(m0, s1)
            }
        },
    }
}

/// One call of `decode`: passes run until the input is used up or a payload
/// is returned. `None` when a pass would overflow the running check.
pub open spec fn lenq_run(m: LenqState, s: Seq<u8>) -> Option<(LenqState, Seq<u8>, Option<Seq<u8>>)>
    decreases s.len(),
{
    if s.len() == 0 {
        Some((m, s, None))
    } else {
        match lenq_pass(m, s) {
            Pass::Go(m1, s1) => {
                if s1.len() < s.len() {
                    lenq_run(m1, s1)
                } else {
                    None
                }
            },
            Pass::Halt(m1, s1) => Some((m1, s1, None)),
            Pass::Emit(m1, s1, out) => Some((m1, s1, Some(out))),
            Pass::Overflow => None,
        }
    }
}

impl LenqCoder {
    /// A coder waiting for `HEAD`.
    pub fn new() -> (r: LenqCoder)
        ensures
            r@ == lenq_initial(),
    {
        let buff = bytes_mut_new();
        let state_read = StateRead::Head;
        let crc: u16 = 0;
        let lenq: u16 = 0;
        LenqCoder { state_read, buff, crc, lenq }
    }

    /// Drops any partial frame and waits for `HEAD` again.
    pub fn reset_read(&mut self)
        ensures
            final(self)@ == lenq_initial(),
    {
        self.state_read = StateRead::Head;
        bytes_mut_clear(&mut self.buff);
        self.crc = 0;
        self.lenq = 0;
    }

    /// The state holds between calls.
    pub open spec fn wf(&self) -> bool {
        lenq_wf(self@)
    }

    /// Whether `decode` may be called on `src` in this state: false exactly
    /// when decoding would overflow the running check.
    pub fn can_decode(&self, src: &BytesMut) -> (r: bool)
        ensures
            r == (lenq_run(self@, bytes_mut_view(*src)) is Some),
    {
        let mut rest = bytes_mut_clone(src);
        let mut state = self.state_read;
        let mut crc = self.crc;
        let mut lenq = self.lenq;
        let ghost mut gm = self@;
        while bytes_mut_has_remaining(&rest)
            invariant
                state == gm.state,
                crc == gm.crc,
                lenq == gm.lenq,
                (lenq_run(self@, bytes_mut_view(*src)) is Some) == (lenq_run(
                    gm,
                    bytes_mut_view(rest),
                ) is Some),
            decreases bytes_mut_view(rest).len(),
        {
            let ghost s = bytes_mut_view(rest);
            let ghost p = lenq_pass(gm, s);
            let ghost s1 = s.drop_first();
            let value = bytes_mut_get_u8(&mut rest);
            if value == HEAD {
                state = StateRead::Head;
                crc = 0;
                lenq = 0;
            }
            match state {
                StateRead::Head => {
                    if value == HEAD {
                        if bytes_mut_remaining(&rest) > 5 {
                            let options = bytes_mut_get_u8(&mut rest);
                            let mut field = bytes_mut_get_u16(&mut rest);
                            if field > 1024 {
                                field = 1024;
                            }
                            let check = bytes_mut_get_u16(&mut rest);
                            assert(s1.skip(1).skip(2) =~= s1.skip(3));
                            assert(bytes_mut_view(rest) =~= s1.skip(5));
                            crc = HEAD as u16 + options as u16 + field;
                            if crc != check {
                                state = StateRead::Head;
                                crc = 0;
                                lenq = 0;
                            } else {
                                state = StateRead::Data;
                                lenq = field;
                            }
                        } else {
                            crc = 0;
                            lenq = 0;
                        }
                    }
                },
                StateRead::Esc => {
                    if crc as u32 + value as u32 > 0xffff {
                        return false;
                    }
                    crc = crc + value as u16;
                    state = StateRead::Data;
                    if value != ESC_HEAD && value != ESC {
                        state = StateRead::Head;
                        crc = 0;
                        lenq = 0;
                    }
                },
                StateRead::Data => {
                    if crc as u32 + value as u32 > 0xffff || lenq == 0 {
                        return false;
                    }
                    crc = crc + value as u16;
                    lenq = lenq - 1;
                    if value == ESC {
                        state = StateRead::Esc;
                    }
                },
                StateRead::Crc => {
                    if bytes_mut_has_remaining(&rest) {
                        let mut b = bytes_mut_get_u8(&mut rest);
                        if b == HEAD {
                            b = b + 1;
                        }
                        assert(((value as u16) << 8u16) | (b as u16) == (value as u16 * 256
                            + b as u16) as u16) by (bit_vector);
                        if crc == ((value as u16) << 8) | b as u16 {
                            return true;
                        }
                        state = StateRead::Head;
                        crc = 0;
                        lenq = 0;
                        assert(bytes_mut_view(rest) =~= s1.skip(1));
                    }
                },
            }
            if (state == StateRead::Data) && (lenq == 0) {
                state = StateRead::Crc;
            }
            proof {
                gm = match p {
                    Pass::Go(m1, _) => m1,
                    _ => gm,
                };
            }
            assert(p == Pass::Go(gm, bytes_mut_view(rest)));
        }
        true
    }

    /// Whether `encode` may be called with `data` and `dst`: the frame check
    /// fits in 16 bits and the frame fits after the bytes already in `dst`.
    pub fn can_encode(&self, data: &Bytes, dst: &BytesMut) -> (r: bool)
        ensures
            r == self.encode_requires(*data, bytes_mut_view(*dst)),
    {
        let len = bytes_remaining(data);
        let dst_len = bytes_mut_len(dst);
        let bytes = bytes_as_slice(data);
        let room = isize::MAX as usize;
        if dst_len > room - 8 || len > (room - 8 - dst_len) / 2 {
            return false;
        }
        let n: usize = if len > 1024 {
            1024
        } else {
            len
        };
        let mut sum: u64 = if n == 0 {
            41
        } else {
            40 + n as u64
        };
        let ghost payload = bytes@.take(n as int);
        assert(lenq_escape(bytes@.take(0)) =~= Seq::<u8>::empty());
        let mut i: usize = 0;
        while i < n
            invariant
                n <= bytes@.len(),
                n <= 1024,
                n == lenq_count(bytes@.len()),
                payload == bytes@.take(n as int),
                i <= n,
                sum == lenq_header_check(n as u16) + byte_sum(lenq_escape(bytes@.take(i as int))),
                sum <= 1065 + 255 * i,
            decreases n - i,
        {
            let x = bytes[i];
            proof {
                let pre = bytes@.take(i as int);
                assert(bytes@.take(i + 1) =~= pre.push(x));
                assert(pre.push(x).drop_last() =~= pre);
                lemma_byte_sum_append(lenq_escape(pre), lenq_escape_byte(x));
                lemma_byte_sum_escape_byte(x);
            }
            if x == HEAD {
                sum = sum + (ESC as u64) + (ESC_HEAD as u64);
            } else if x == ESC {
                sum = sum + (ESC as u64) + (ESC as u64);
            } else {
                sum = sum + x as u64;
            }
            i = i + 1;
        }
        sum <= 0xffff
    }
}

proof fn lemma_escape_len(data: Seq<u8>)
    ensures
        lenq_escape(data).len() <= 2 * data.len(),
    decreases data.len(),
{
    if data.len() > 0 {
        lemma_escape_len(data.drop_last());
    }
}

proof fn lemma_byte_sum_nonneg(s: Seq<u8>)
    ensures
        byte_sum(s) >= 0,
    decreases s.len(),
{
    if s.len() > 0 {
        lemma_byte_sum_nonneg(s.drop_last());
    }
}

proof fn lemma_byte_sum_single(x: u8)
    ensures
        byte_sum(seq![x]) == x,
{
    assert(seq![x].drop_last() =~= Seq::<u8>::empty());
    assert(byte_sum(Seq::<u8>::empty()) == 0);
}

proof fn lemma_byte_sum_escape_byte(x: u8)
    ensures
        byte_sum(lenq_escape_byte(x)) == if x == HEAD {
            ESC + ESC_HEAD
        } else if x == ESC {
            ESC + ESC
        } else {
            x as int
        },
{
    lemma_byte_sum_single(x);
    lemma_byte_sum_single(ESC);
    assert(seq![ESC, ESC_HEAD].drop_last() =~= seq![ESC]);
    assert(seq![ESC, ESC].drop_last() =~= seq![ESC]);
}

proof fn lemma_byte_sum_append(a: Seq<u8>, b: Seq<u8>)
    ensures
        byte_sum(a + b) == byte_sum(a) + byte_sum(b),
    decreases b.len(),
{
    if b.len() == 0 {
        assert(a + b =~= a);
    } else {
        lemma_byte_sum_append(a, b.drop_last());
        assert((a + b).drop_last() =~= a + b.drop_last());
        assert((a + b).last() == b.last());
    }
}

impl Encoder for LenqCoder {
    type Item = Bytes;

    open spec fn encode_requires(&self, data: Bytes, dst: Seq<u8>) -> bool {
        &&& lenq_frame_check(bytes_view(data)) <= 0xffff
        &&& dst.len() + 2 * bytes_view(data).len() + 8 <= isize::MAX
    }

    /// Appends the frame for `data` to `dst`.
    fn encode(&mut self, data: Self::Item, dst: &mut BytesMut) -> (r: Result<(), ()>)
        ensures
            r == Ok::<(), ()>(()),
            bytes_mut_view(*final(dst)) == bytes_mut_view(*old(dst)) + lenq_frame(bytes_view(data)),
            final(self)@ == old(self)@,
    {
        let ghost d0 = bytes_mut_view(*dst);
        let mut n = bytes_remaining(&data);
        let bytes = bytes_as_slice(&data);

        let mut crc: u16 = HEAD as u16;
        bytes_mut_put_u8(dst, HEAD);
        crc += 0x00;
        bytes_mut_put_u8(dst, 0x00);

        if n > 1024 {
            n = 1024;
        }
        let lenq = n as u16;
        crc += lenq;
        if crc == HEAD as u16 {
            crc += 1;
        }
        assert(crc == lenq_header_check(lenq));
        let ghost payload = bytes@.take(n as int);
        proof {
            lemma_byte_sum_nonneg(lenq_escape(payload));
        }

        bytes_mut_put_u16(dst, lenq);
        bytes_mut_put_u16(dst, crc);
        assert(lenq_escape(bytes@.take(0)) =~= Seq::<u8>::empty());
        assert(bytes_mut_view(*dst) =~= d0 + seq![HEAD, 0x00u8] + be_bytes(lenq) + be_bytes(crc)
            + lenq_escape(bytes@.take(0)));

        let mut i: usize = 0;
        while i < n
            invariant
                n <= bytes@.len(),
                n == lenq_count(bytes@.len()),
                lenq == n as u16,
                payload == bytes@.take(n as int),
                i <= n,
                lenq_frame_check(bytes@) <= 0xffff,
                lenq_frame_check(bytes@) == lenq_header_check(lenq) + byte_sum(lenq_escape(payload)),
                d0.len() + 2 * bytes@.len() + 8 <= isize::MAX,
                crc == lenq_header_check(lenq) + byte_sum(lenq_escape(bytes@.take(i as int))),
                bytes_mut_view(*dst) == d0 + seq![HEAD, 0x00u8] + be_bytes(lenq) + be_bytes(
                    lenq_header_check(lenq),
                ) + lenq_escape(bytes@.take(i as int)),
            decreases n - i,
        {
            let ghost pre = bytes@.take(i as int);
            let x = bytes[i];
            proof {
                lemma_escape_len(pre);
                assert(bytes@.take(i + 1).drop_last() =~= pre);
                assert(bytes@.take(i + 1).last() == x);
                assert(payload =~= bytes@.take(i + 1) + payload.skip(i + 1));
                lemma_escape_split(bytes@.take(i + 1), payload.skip(i + 1));
                lemma_byte_sum_append(
                    lenq_escape(bytes@.take(i + 1)),
                    lenq_escape(payload.skip(i + 1)),
                );
                lemma_byte_sum_nonneg(lenq_escape(payload.skip(i + 1)));
                lemma_byte_sum_append(lenq_escape(pre), lenq_escape_byte(x));
                lemma_byte_sum_nonneg(lenq_escape(pre));
                lemma_byte_sum_escape_byte(x);
            }
            if x == HEAD {
                bytes_mut_put_u8(dst, ESC);
                bytes_mut_put_u8(dst, ESC_HEAD);
                crc += ESC as u16;
                crc += ESC_HEAD as u16;
            } else if x == ESC {
                bytes_mut_put_u8(dst, ESC);
                bytes_mut_put_u8(dst, ESC);
                crc += ESC as u16;
                crc += ESC as u16;
            } else {
                bytes_mut_put_u8(dst, x);
                crc += x as u16;
            }
            assert(bytes_mut_view(*dst) =~= d0 + seq![HEAD, 0x00u8] + be_bytes(lenq) + be_bytes(
                lenq_header_check(lenq),
            ) + lenq_escape(bytes@.take(i + 1)));
            i = i + 1;
        }
        proof {
            lemma_escape_len(bytes@.take(n as int));
        }
        bytes_mut_put_u16(dst, crc);
        assert(bytes_mut_view(*dst) =~= d0 + lenq_frame(bytes@));
        Ok(())
    }
}

proof fn lemma_escape_split(a: Seq<u8>, b: Seq<u8>)
    ensures
        lenq_escape(a + b) == lenq_escape(a) + lenq_escape(b),
    decreases b.len(),
{
    if b.len() == 0 {
        assert(a + b =~= a);
        assert(lenq_escape(a) + lenq_escape(b) =~= lenq_escape(a));
    } else {
        lemma_escape_split(a, b.drop_last());
        assert((a + b).drop_last() =~= a + b.drop_last());
        assert((a + b).last() == b.last());
        assert(lenq_escape(a) + lenq_escape(b.drop_last()) + lenq_escape_byte(b.last())
            =~= lenq_escape(a) + lenq_escape(b));
    }
}

impl Decoder for LenqCoder {
    type Item = Bytes;

    open spec fn decode_requires(&self, src: Seq<u8>) -> bool {
        &&& self.wf()
        &&& lenq_run(self@, src) is Some
    }

    /// Reads from the front of `src` until a frame is complete and its check
    /// matches, and returns that frame's payload; the bytes after it stay in
    /// `src`. A `HEAD` byte anywhere restarts the reader.
    fn decode(&mut self, src: &mut BytesMut) -> (r: Result<Option<Self::Item>, ()>)
        ensures
            final(self).wf(),
            match lenq_run(old(self)@, bytes_mut_view(*old(src))) {
                Some((m1, rest, out)) => {
                    &&& final(self)@ == m1
                    &&& bytes_mut_view(*final(src)) == rest
                    &&& match r {
                        Ok(Some(b)) => out == Some(bytes_view(b)),
                        Ok(None) => out is None,
                        Err(_) => false,
                    }
                },
                None => false,
            },
    {
        let ghost m0 = self@;
        let ghost s0 = bytes_mut_view(*src);
        while bytes_mut_has_remaining(src)
            invariant
                m0 == old(self)@,
                s0 == bytes_mut_view(*old(src)),
                lenq_wf(self@),
                lenq_run(m0, s0) == lenq_run(self@, bytes_mut_view(*src)),
                lenq_run(m0, s0) is Some,
            decreases bytes_mut_view(*src).len(),
        {
            let ghost m = self@;
            let ghost s = bytes_mut_view(*src);
            let ghost s1 = s.drop_first();
            let value = bytes_mut_get_u8(src);

            if value == HEAD {
                self.reset_read();
            }
            let ghost mm = self@;

            match self.state_read {
                StateRead::Head => {
                    if value == HEAD {
                        self.crc = HEAD as u16;
                        self.state_read = StateRead::Data;
                        if bytes_mut_remaining(src) > 5 {
                            self.crc += bytes_mut_get_u8(src) as u16;
                            self.lenq = bytes_mut_get_u16(src) as u16;
                            if self.lenq > 1024 {
                                self.lenq = 1024;
                            }
                            self.crc += self.lenq;
                            assert(s1.skip(1).skip(2) =~= s1.skip(3));
                            if self.crc != bytes_mut_get_u16(src) {
                                self.reset_read();
                            }
                            assert(bytes_mut_view(*src) =~= s1.skip(5));
                        } else {
                            self.reset_read();
                        }
                    }
                },
                StateRead::Esc => {
                    self.crc += value as u16;
                    self.state_read = StateRead::Data;
                    if value == ESC_HEAD {
                        bytes_mut_put_u8(&mut self.buff, HEAD);
                    } else if value == ESC {
                        bytes_mut_put_u8(&mut self.buff, ESC);
                    } else {
                        self.reset_read();
                    }
                },
                StateRead::Data => {
                    self.crc += value as u16;
                    self.lenq -= 1;
                    if value == ESC {
                        self.state_read = StateRead::Esc;
                    } else {
                        bytes_mut_put_u8(&mut self.buff, value);
                    }
                },
                StateRead::Crc => {
                    if bytes_mut_remaining(src) >= 1 {
                        let mut bsrc = bytes_mut_get_u8(src);
                        if bsrc == HEAD {
                            bsrc += 1;
                        }
                        assert(((value as u16) << 8u16) | (bsrc as u16) == (value as u16 * 256
                            + bsrc as u16) as u16) by (bit_vector);
                        let bsrc = (value as u16) << 8 | bsrc as u16;
                        if self.crc == bsrc as u16 {
                            let result = Ok(Some(bytes_mut_freeze(bytes_mut_clone(&self.buff))));
                            self.reset_read();
                            return result;
                        } else {
                            self.reset_read();
                        }
                    }
                },
            }
            let ghost unsettled = self@;
            if (self.state_read == StateRead::Data) && (self.lenq <= 0) {
                self.state_read = StateRead::Crc;
            }
            assert(self@ == lenq_settle(unsettled));
            assert(lenq_pass(m, s) == Pass::Go(self@, bytes_mut_view(*src)));
        }
        Ok(None)
    }
}

/// A coder after `reset_read` and a new coder are in the same state, so
/// every later `decode` behaves alike on both.
pub proof fn lemma_lenq_reset_is_new(reset: LenqState, fresh: LenqState, s: Seq<u8>)
    requires
        reset == lenq_initial(),
        fresh == lenq_initial(),
    ensures
        lenq_run(reset, s) == lenq_run(fresh, s),
{
}

proof fn lemma_escape_cons(x: u8, d: Seq<u8>)
    ensures
        lenq_escape(seq![x] + d) == lenq_escape_byte(x) + lenq_escape(d),
{
    lemma_escape_split(seq![x], d);
    assert(seq![x].drop_last() =~= Seq::<u8>::empty());
    assert(lenq_escape(Seq::<u8>::empty()) == Seq::<u8>::empty());
    assert(lenq_escape(seq![x]) =~= lenq_escape_byte(x));
}

proof fn lemma_lenq_byte(m: LenqState, x: u8, t: Seq<u8>)
    requires
        m.state == StateRead::Data,
        m.lenq >= 1,
        m.crc + byte_sum(lenq_escape_byte(x)) <= 0xffff,
    ensures
        lenq_run(m, lenq_escape_byte(x) + t) == lenq_run(
            lenq_settle(
                LenqState {
                    state: StateRead::Data,
                    buff: m.buff.push(x),
                    crc: (m.crc + byte_sum(lenq_escape_byte(x))) as u16,
                    lenq: (m.lenq - 1) as u16,
                },
            ),
            t,
        ),
{
    lemma_byte_sum_escape_byte(x);
    let s = lenq_escape_byte(x) + t;
    let m2 = lenq_settle(
        LenqState {
            state: StateRead::Data,
            buff: m.buff.push(x),
            crc: (m.crc + byte_sum(lenq_escape_byte(x))) as u16,
            lenq: (m.lenq - 1) as u16,
        },
    );
    if x == HEAD || x == ESC {
        let second: u8 = if x == HEAD {
            ESC_HEAD
        } else {
            ESC
        };
        assert(s[0] == ESC);
        assert(s.drop_first()[0] == second);
        assert(s.drop_first().drop_first() =~= t);
        let me = LenqState {
            state: StateRead::Esc,
            buff: m.buff,
            crc: (m.crc + ESC) as u16,
            lenq: (m.lenq - 1) as u16,
        };
        assert(lenq_pass(m, s) == Pass::Go(me, s.drop_first()));
        assert(lenq_pass(me, s.drop_first()) == Pass::Go(m2, s.drop_first().drop_first()));
        assert(lenq_run(m, s) == lenq_run(me, s.drop_first()));
        assert(lenq_run(me, s.drop_first()) == lenq_run(m2, t));
    } else {
        assert(s[0] == x);
        assert(s.drop_first() =~= t);
        assert(lenq_pass(m, s) == Pass::Go(m2, t));
    }
}

proof fn lemma_lenq_payload(m: LenqState, d: Seq<u8>, t: Seq<u8>)
    requires
        m.state == StateRead::Data,
        m.lenq >= d.len(),
        m.lenq >= 1,
        m.crc + byte_sum(lenq_escape(d)) <= 0xffff,
    ensures
        lenq_run(m, lenq_escape(d) + t) == lenq_run(
            lenq_settle(
                LenqState {
                    state: StateRead::Data,
                    buff: m.buff + d,
                    crc: (m.crc + byte_sum(lenq_escape(d))) as u16,
                    lenq: (m.lenq - d.len()) as u16,
                },
            ),
            t,
        ),
    decreases d.len(),
{
    if d.len() == 0 {
        assert(lenq_escape(d) == Seq::<u8>::empty());
        assert(lenq_escape(d) + t =~= t);
        assert(m.buff + d =~= m.buff);
    } else {
        let x = d[0];
        let d1 = d.drop_first();
        assert(d =~= seq![x] + d1);
        lemma_escape_cons(x, d1);
        lemma_byte_sum_append(lenq_escape_byte(x), lenq_escape(d1));
        lemma_byte_sum_nonneg(lenq_escape_byte(x));
        lemma_byte_sum_nonneg(lenq_escape(d1));
        assert(lenq_escape(d) + t =~= lenq_escape_byte(x) + (lenq_escape(d1) + t));
        lemma_lenq_byte(m, x, lenq_escape(d1) + t);
        let m1 = LenqState {
            state: StateRead::Data,
            buff: m.buff.push(x),
            crc: (m.crc + byte_sum(lenq_escape_byte(x))) as u16,
            lenq: (m.lenq - 1) as u16,
        };
        assert(m.buff.push(x) + d1 =~= m.buff + d);
        if d1.len() == 0 {
            assert(lenq_escape(d1) == Seq::<u8>::empty());
            assert(lenq_escape(d1) + t =~= t);
        } else {
            lemma_lenq_payload(m1, d1, t);
        }
    }
}

/// The frame the encoder writes for a payload of 1 to `MAX_LEN` bytes is
/// read back in one call of `decode`, whatever state the coder was in: the
/// payload comes back, the bytes after the frame stay unread and the coder
/// waits for `HEAD` again. This holds when neither byte of the frame check
/// equals `HEAD` (the decoder restarts on such a first byte and reads such
/// a second byte as 41).
#[verifier::rlimit(100)]
#[verifier::spinoff_prover]
pub proof fn lemma_lenq_round_trip(m: LenqState, data: Seq<u8>, rest: Seq<u8>)
    requires
        0 < data.len() <= 1024,
        lenq_frame_check(data) <= 0xffff,
        be_bytes(lenq_frame_check(data) as u16)[0] != HEAD,
        be_bytes(lenq_frame_check(data) as u16)[1] != HEAD,
    ensures
        lenq_run(m, lenq_frame(data) + rest) == Some((lenq_initial(), rest, Some(data))),
{
    let n = data.len() as u16;
    assert(lenq_count(data.len()) == data.len());
    assert(data.take(data.len() as int) =~= data);
    let hc = lenq_header_check(n);
    let fc = lenq_frame_check(data) as u16;
    let esc = lenq_escape(data);
    let tail = be_bytes(fc) + rest;
    let s = lenq_frame(data) + rest;
    lemma_be_round_trip(n);
    lemma_be_round_trip(hc);
    lemma_be_round_trip(fc);
    lemma_byte_sum_nonneg(esc);
    assert(s =~= seq![HEAD, 0x00u8] + be_bytes(n) + be_bytes(hc) + (esc + tail));

    // The header.
    let s1 = s.drop_first();
    assert(s[0] == HEAD);
    assert(s1[0] == 0 && s1[1] == be_bytes(n)[0] && s1[2] == be_bytes(n)[1]);
    assert(s1[3] == be_bytes(hc)[0] && s1[4] == be_bytes(hc)[1]);
    assert(s1.skip(5) =~= esc + tail);
    let md = LenqState { state: StateRead::Data, buff: Seq::empty(), crc: hc, lenq: n };
    assert(lenq_pass(m, s) == Pass::Go(md, s1.skip(5)));

    // The payload.
    lemma_lenq_payload(md, data, tail);
    assert(md.buff + data =~= data);
    let mc = LenqState { state: StateRead::Crc, buff: data, crc: fc, lenq: 0 };

    // The check.
    assert(tail[0] == be_bytes(fc)[0]);
    assert(tail.drop_first()[0] == be_bytes(fc)[1]);
    assert(tail.drop_first().skip(1) =~= rest);
    assert(lenq_pass(mc, tail) == Pass::Emit(lenq_initial(), rest, data));
    assert(lenq_run(mc, tail) == Some((lenq_initial(), rest, Some(data))));
    assert(lenq_run(md, esc + tail) == lenq_run(mc, tail));
}

/// An escaped payload holds no `HEAD` byte, so inside a frame `HEAD` only
/// ever opens it.
pub proof fn lemma_lenq_escape_clean(data: Seq<u8>)
    ensures
        forall|i: int| 0 <= i < lenq_escape(data).len() ==> lenq_escape(data)[i] != HEAD,
    decreases data.len(),
{
    if data.len() > 0 {
        let init = data.drop_last();
        let e = lenq_escape_byte(data.last());
        let all = lenq_escape(data);
        lemma_lenq_escape_clean(init);
        assert forall|i: int| 0 <= i < all.len() implies all[i] != HEAD by {
            if i < lenq_escape(init).len() {
                assert(all[i] == lenq_escape(init)[i]);
            } else {
                assert(all[i] == e[i - lenq_escape(init).len()]);
            }
        }
    }
}

/// A length field as the decoder takes it: capped at `MAX_LEN`.
pub open spec fn lenq_capped(field: u16) -> int {
    if field > 1024 {
        1024
    } else {
        field as int
    }
}

/// At position `i` of `c` stands a header the decoder accepts: `HEAD`, an
/// options byte, a length field that caps to `len`, and a header check
/// equal to `HEAD` plus the options byte plus `len`.
pub open spec fn lenq_header_at(c: Seq<u8>, i: int, len: int) -> bool {
    &&& 0 <= i
    &&& i + 6 <= c.len()
    &&& c[i] == HEAD
    &&& len == lenq_capped(be_u16(c[i + 2], c[i + 3]))
    &&& 40 + c[i + 1] + len == be_u16(c[i + 4], c[i + 5])
}

/// The consumed bytes `c` end with the frame a payload of `len` bytes was
/// read from: a header at some position that caps to `len`, after which
/// no byte but possibly the last one is `HEAD`.
pub open spec fn lenq_ends_with_frame(c: Seq<u8>, len: int, last_free: bool) -> bool {
    exists|i: int|
        #[trigger] lenq_header_at(c, i, len) && forall|j: int|
            i + 6 <= j < c.len() - (if last_free {
                1int
            } else {
                0int
            }) ==> c[j] != HEAD
}

/// The state `m` of a decoder is backed by the bytes `c` it has consumed:
/// while a frame is being read, the payload read so far plus the bytes
/// still due make up the capped length field of the last header accepted,
/// and no `HEAD` byte came after that header.
pub open spec fn lenq_backed(m: LenqState, c: Seq<u8>) -> bool {
    match m.state {
        StateRead::Head => true,
        StateRead::Data => lenq_ends_with_frame(c, m.buff.len() + m.lenq, false),
        StateRead::Esc => lenq_ends_with_frame(c, m.buff.len() + m.lenq + 1, false),
        StateRead::Crc => lenq_ends_with_frame(c, m.buff.len() as int, false),
    }
}

proof fn lemma_lenq_extend(c: Seq<u8>, len: int, w: Seq<u8>)
    requires
        lenq_ends_with_frame(c, len, false),
        forall|j: int| 0 <= j < w.len() - 1 ==> w[j] != HEAD,
    ensures
        lenq_ends_with_frame(c + w, len, true),
        (w.len() == 0 || w.last() != HEAD) ==> lenq_ends_with_frame(c + w, len, false),
{
    let i = choose|i: int|
        #[trigger] lenq_header_at(c, i, len) && forall|j: int|
            i + 6 <= j < c.len() - 0int ==> c[j] != HEAD;
    let c1 = c + w;
    assert(lenq_header_at(c1, i, len));
    assert forall|j: int| i + 6 <= j < c1.len() - 1int implies c1[j] != HEAD by {
        if j >= c.len() {
            assert(c1[j] == w[j - c.len()]);
        }
    }
    if w.len() == 0 || w.last() != HEAD {
        assert forall|j: int| i + 6 <= j < c1.len() - 0int implies c1[j] != HEAD by {
            if j >= c.len() {
                assert(c1[j] == w[j - c.len()]);
            }
        }
    }
}

#[verifier::rlimit(100)]
#[verifier::spinoff_prover]
proof fn lemma_lenq_pass_backed(m: LenqState, c: Seq<u8>, s: Seq<u8>)
    requires
        lenq_backed(m, c),
        s.len() > 0,
        !(lenq_pass(m, s) is Overflow),
    ensures
        match lenq_pass(m, s) {
            Pass::Go(m1, s1) => {
                &&& s1.len() < s.len()
                &&& s1 == s.skip(s.len() - s1.len())
                &&& lenq_backed(m1, c + s.take(s.len() - s1.len()))
            },
            Pass::Emit(m1, s1, d) => {
                &&& s1.len() < s.len()
                &&& s1 == s.skip(s.len() - s1.len())
                &&& m1 == lenq_initial()
                &&& lenq_ends_with_frame(c + s.take(s.len() - s1.len()), d.len() as int, true)
            },
            _ => true,
        },
{
    let value = s[0];
    let s1 = s.drop_first();
    assert(s.skip(1) =~= s1);
    assert(s.skip(s.len() - s1.len()) =~= s1);
    assert(s.take(1) =~= seq![value]);
    assert(s.take(s.len() - s1.len()) =~= seq![value]);
    if value == HEAD {
        if s1.len() > 5 {
            let field = be_u16(s1[1], s1[2]);
            let lenq: u16 = if field > 1024 {
                1024
            } else {
                field
            };
            let crc = (40 + s1[0] + lenq) as u16;
            let w = s.take(6);
            let c1 = c + w;
            assert(s.skip(s.len() - s1.skip(5).len()) =~= s1.skip(5));
            assert(s.take(s.len() - s1.skip(5).len()) =~= w);
            if crc == be_u16(s1[3], s1[4]) {
                let i = c.len() as int;
                assert(c1[i] == HEAD && c1[i + 1] == s1[0] && c1[i + 2] == s1[1]);
                assert(c1[i + 3] == s1[2] && c1[i + 4] == s1[3] && c1[i + 5] == s1[4]);
                assert(lenq_header_at(c1, i, lenq as int));
                assert(forall|j: int| i + 6 <= j < c1.len() - 0int ==> c1[j] != HEAD);
                assert(lenq_ends_with_frame(c1, lenq as int, false));
                assert(lenq_ends_with_frame(c1, 0, false) || lenq != 0);
            }
        }
    } else {
        let w = seq![value];
        match m.state {
            StateRead::Head => {},
            StateRead::Esc => {
                lemma_lenq_extend(c, m.buff.len() + m.lenq + 1, w);
            },
            StateRead::Data => {
                lemma_lenq_extend(c, m.buff.len() + m.lenq, w);
            },
            StateRead::Crc => {
                if s1.len() >= 1 {
                    let w2 = s.take(2);
                    assert(s.skip(s.len() - s1.skip(1).len()) =~= s1.skip(1));
                    assert(s.take(s.len() - s1.skip(1).len()) =~= w2);
                    assert(w2[0] == value);
                    lemma_lenq_extend(c, m.buff.len() as int, w2);
                } else {
                    lemma_lenq_extend(c, m.buff.len() as int, w);
                }
            },
        }
    }
}

/// One call of `decode` keeps the state backed by the bytes consumed so
/// far; when it returns a payload, the bytes consumed end with the frame it
/// came from, whose capped length field is the payload's length.
pub proof fn lemma_lenq_run_backed(m: LenqState, c: Seq<u8>, s: Seq<u8>)
    requires
        lenq_backed(m, c),
        lenq_run(m, s) is Some,
    ensures
        ({
            let (m1, rest, out) = lenq_run(m, s)->0;
            let c1 = c + s.take(s.len() - rest.len());
            &&& rest.len() <= s.len()
            &&& rest == s.skip(s.len() - rest.len())
            &&& match out {
                Some(d) => m1 == lenq_initial() && lenq_ends_with_frame(c1, d.len() as int, true),
                None => lenq_backed(m1, c1),
            }
        }),
    decreases s.len(),
{
    if s.len() == 0 {
        assert(s.take(0) =~= Seq::<u8>::empty());
        assert(c + Seq::<u8>::empty() =~= c);
        assert(s.skip(0) =~= s);
    } else {
        lemma_lenq_pass_backed(m, c, s);
        match lenq_pass(m, s) {
            Pass::Go(m1, s1) => {
                let w = s.take(s.len() - s1.len());
                lemma_lenq_run_backed(m1, c + w, s1);
                let (_, rest, _) = lenq_run(m1, s1)->0;
                assert(s1.skip(s1.len() - rest.len()) =~= s.skip(s.len() - rest.len()));
                assert(c + w + s1.take(s1.len() - rest.len()) =~= c + s.take(
                    s.len() - rest.len(),
                ));
            },
            _ => {},
        }
    }
}

/// `k` successive calls of `decode` on the same buffer, nothing added in
/// between: the state and bytes left after the last call, and what that
/// call returned.
pub open spec fn lenq_calls(m: LenqState, s: Seq<u8>, k: nat) -> Option<(LenqState, Seq<u8>, Option<Seq<u8>>)>
    decreases k,
{
    if k == 0 {
        Some((m, s, None))
    } else {
        match lenq_calls(m, s, (k - 1) as nat) {
            Some((m1, rest, _)) => lenq_run(m1, rest),
            None => None,
        }
    }
}

proof fn lemma_lenq_calls_backed(m: LenqState, s: Seq<u8>, k: nat)
    requires
        lenq_backed(m, Seq::<u8>::empty()),
        lenq_calls(m, s, k) is Some,
    ensures
        ({
            let (m1, rest, out) = lenq_calls(m, s, k)->0;
            let c1 = s.take(s.len() - rest.len());
            &&& rest.len() <= s.len()
            &&& rest == s.skip(s.len() - rest.len())
            &&& match out {
                Some(d) => lenq_ends_with_frame(c1, d.len() as int, true),
                None => true,
            }
            &&& lenq_backed(m1, c1)
        }),
    decreases k,
{
    if k == 0 {
        assert(s.take(0) =~= Seq::<u8>::empty());
        assert(s.skip(0) =~= s);
    } else {
        lemma_lenq_calls_backed(m, s, (k - 1) as nat);
        let (m0, r0, _) = lenq_calls(m, s, (k - 1) as nat)->0;
        let c0 = s.take(s.len() - r0.len());
        lemma_lenq_run_backed(m0, c0, r0);
        let (_, rest, _) = lenq_run(m0, r0)->0;
        assert(r0.skip(r0.len() - rest.len()) =~= s.skip(s.len() - rest.len()));
        assert(c0 + r0.take(r0.len() - rest.len()) =~= s.take(s.len() - rest.len()));
    }
}

/// Whenever a decoder waiting for `HEAD`, called any number of times on the
/// same buffer with nothing added in between, returns a payload, the bytes
/// it consumed hold the header of that payload's frame: its capped length
/// field equals the payload's length (so the payload holds at most
/// `MAX_LEN` bytes), its header check held, and no byte after it but the
/// last one consumed is `HEAD`.
pub proof fn lemma_lenq_payload_backed(m: LenqState, s: Seq<u8>, k: nat)
    requires
        m.state == StateRead::Head,
        lenq_calls(m, s, k) matches Some((_, _, Some(_))),
    ensures
        ({
            let (m1, rest, out) = lenq_calls(m, s, k)->0;
            let d = out->0;
            &&& rest == s.skip(s.len() - rest.len())
            &&& d.len() <= 1024
            &&& lenq_ends_with_frame(s.take(s.len() - rest.len()), d.len() as int, true)
        }),
{
    lemma_lenq_calls_backed(m, s, k);
    let (m1, rest, out) = lenq_calls(m, s, k)->0;
    let c1 = s.take(s.len() - rest.len());
    let i = choose|i: int|
        #[trigger] lenq_header_at(c1, i, out->0.len() as int) && forall|j: int|
            i + 6 <= j < c1.len() - 1int ==> c1[j] != HEAD;
    assert(lenq_header_at(c1, i, out->0.len() as int));
}

proof fn lemma_byte_sum_skip(s: Seq<u8>, k: int)
    requires
        0 <= k <= s.len(),
    ensures
        byte_sum(s.skip(k)) <= byte_sum(s),
        k >= 1 ==> byte_sum(s.skip(k)) + s[0] <= byte_sum(s),
{
    assert(s =~= s.take(k) + s.skip(k));
    lemma_byte_sum_append(s.take(k), s.skip(k));
    lemma_byte_sum_nonneg(s.take(k));
    if k >= 1 {
        assert(s.take(k) =~= seq![s[0]] + s.take(k).drop_first());
        lemma_byte_sum_append(seq![s[0]], s.take(k).drop_first());
        lemma_byte_sum_single(s[0]);
        lemma_byte_sum_nonneg(s.take(k).drop_first());
    }
}

/// A decoder never overflows its running check on bytes whose sum, plus
/// the larger of its current check and the largest header check (1319),
/// stays within 16 bits: such a buffer may always be passed to `decode`.
pub proof fn lemma_lenq_small_input_decodes(m: LenqState, s: Seq<u8>)
    requires
        lenq_wf(m),
        m.crc + byte_sum(s) <= 0xffff,
        1319 + byte_sum(s) <= 0xffff,
    ensures
        lenq_run(m, s) is Some,
    decreases s.len(),
{
    if s.len() > 0 {
        let value = s[0];
        let s1 = s.drop_first();
        lemma_byte_sum_skip(s, 1);
        lemma_byte_sum_nonneg(s1);
        assert(s.skip(1) =~= s1);
        assert(m.crc + value <= 0xffff);
        assert(!(lenq_pass(m, s) is Overflow));
        match lenq_pass(m, s) {
            Pass::Go(m1, r) => {
                if s1.len() > 5 {
                    lemma_byte_sum_skip(s1, 5);
                }
                if s1.len() >= 1 {
                    lemma_byte_sum_skip(s1, 1);
                }
                assert(lenq_wf(m1));
                assert(m1.crc + byte_sum(r) <= 0xffff);
                lemma_lenq_small_input_decodes(m1, r);
            },
            _ => {},
        }
    }
}

/// Whatever state a decoder is in, one call of `decode` keeps it
/// well-formed, and any payload it returns holds at most `MAX_LEN` bytes.
pub proof fn lemma_lenq_payload_bounded(m: LenqState, s: Seq<u8>)
    requires
        lenq_wf(m),
        lenq_run(m, s) is Some,
    ensures
        ({
            let (m1, rest, out) = lenq_run(m, s)->0;
            &&& lenq_wf(m1)
            &&& out matches Some(d) ==> d.len() <= 1024
        }),
    decreases s.len(),
{
    if s.len() > 0 {
        match lenq_pass(m, s) {
            Pass::Go(m1, r) => {
                assert(lenq_wf(m1));
                lemma_lenq_payload_bounded(m1, r);
            },
            _ => {},
        }
    }
}

/// Whether `s` holds no `HEAD` byte between positions `i` and `j`.
pub open spec fn lenq_no_head_between(s: Seq<u8>, i: int, j: int) -> bool {
    forall|k: int| i <= k < j ==> s[k] != HEAD
}

/// If a header the decoder would accept starts at position `i` of `s`, the
/// check it starts (the header check) plus the bytes from the end of the
/// header up to `j`, when none of them is `HEAD`, fits in 16 bits.
pub open spec fn lenq_frame_fits_at(s: Seq<u8>, i: int, j: int) -> bool {
    (0 <= i && i + 6 <= j <= s.len() && lenq_header_at(
        s,
        i,
        lenq_capped(be_u16(s[i + 2], s[i + 3])),
    ) && lenq_no_head_between(s, i + 6, j)) ==> 40 + s[i + 1] + lenq_capped(
        be_u16(s[i + 2], s[i + 3]),
    ) + byte_sum(s.subrange(i + 6, j)) <= 0xffff
}

/// Every frame in `s` fits: for each header the decoder would accept, its
/// header check plus the bytes after it, up to the next `HEAD`, fits in 16
/// bits.
pub open spec fn lenq_frames_fit(s: Seq<u8>) -> bool {
    forall|i: int, j: int| #[trigger] lenq_frame_fits_at(s, i, j)
}

/// For a decoder in the middle of a frame, its running check plus the first
/// `j` bytes of `s`, when none of them is `HEAD`, fits in 16 bits.
pub open spec fn lenq_pending_fits_upto(m: LenqState, s: Seq<u8>, j: int) -> bool {
    ((m.state == StateRead::Data || m.state == StateRead::Esc) && 0 <= j <= s.len()
        && lenq_no_head_between(s, 0, j)) ==> m.crc + byte_sum(s.take(j)) <= 0xffff
}

proof fn lemma_byte_sum_cons_take(s: Seq<u8>, j: int)
    requires
        0 <= j < s.len(),
    ensures
        byte_sum(s.take(j + 1)) == s[0] + byte_sum(s.drop_first().take(j)),
{
    assert(s.take(j + 1) =~= seq![s[0]] + s.drop_first().take(j));
    lemma_byte_sum_append(seq![s[0]], s.drop_first().take(j));
    lemma_byte_sum_single(s[0]);
}

/// A decoder never overflows its running check, so `decode` may always be
/// called, when every frame in the input fits (its header check plus the
/// bytes after the header, up to the next `HEAD`, fits in 16 bits) and so
/// does the frame the decoder is in the middle of.
pub proof fn lemma_lenq_frames_fit_decode(m: LenqState, s: Seq<u8>)
    requires
        lenq_wf(m),
        lenq_frames_fit(s),
        forall|j: int| #[trigger] lenq_pending_fits_upto(m, s, j),
    ensures
        lenq_run(m, s) is Some,
    decreases s.len(),
{
    if s.len() > 0 {
        let value = s[0];
        let s1 = s.drop_first();
        assert(s.take(1) =~= seq![value]);
        lemma_byte_sum_single(value);
        assert(lenq_pending_fits_upto(m, s, 1));
        assert(!(lenq_pass(m, s) is Overflow));
        match lenq_pass(m, s) {
            Pass::Go(m1, r) => {
                assert(lenq_wf(m1));
                let k = s.len() - r.len();
                if value == HEAD && s1.len() > 5 {
                    assert(r =~= s.skip(6));
                } else if value != HEAD && m.state == StateRead::Crc && s1.len() >= 1 {
                    assert(r =~= s.skip(2));
                } else {
                    assert(r =~= s.skip(1));
                }
                assert forall|i: int, j: int| #[trigger] lenq_frame_fits_at(r, i, j) by {
                    assert(lenq_frame_fits_at(s, i + k, j + k));
                    if 0 <= i && i + 6 <= j <= r.len() {
                        assert(r.subrange(i + 6, j) =~= s.subrange(i + k + 6, j + k));
                        assert(r[i] == s[i + k] && r[i + 1] == s[i + k + 1]);
                        assert(r[i + 2] == s[i + k + 2] && r[i + 3] == s[i + k + 3]);
                        assert(r[i + 4] == s[i + k + 4] && r[i + 5] == s[i + k + 5]);
                        if lenq_no_head_between(r, i + 6, j) {
                            assert forall|q: int| i + k + 6 <= q < j + k implies s[q] != HEAD by {
                                assert(s[q] == r[q - k]);
                            }
                        }
                    }
                }
                assert forall|j: int| #[trigger] lenq_pending_fits_upto(m1, r, j) by {
                    if (m1.state == StateRead::Data || m1.state == StateRead::Esc) && 0 <= j
                        <= r.len() && lenq_no_head_between(r, 0, j) {
                        if value == HEAD {
                            assert(lenq_frame_fits_at(s, 0, j + 6));
                            assert(s.subrange(6, j + 6) =~= r.take(j));
                            assert forall|q: int| 6 <= q < j + 6 implies s[q] != HEAD by {
                                assert(s[q] == r[q - 6]);
                            }
                        } else {
                            assert(lenq_pending_fits_upto(m, s, j + 1));
                            assert forall|q: int| 0 <= q < j + 1 implies s[q] != HEAD by {
                                if q > 0 {
                                    assert(s[q] == r[q - 1]);
                                }
                            }
                            lemma_byte_sum_cons_take(s, j);
                            lemma_byte_sum_nonneg(r.take(j));
                        }
                    }
                }
                lemma_lenq_frames_fit_decode(m1, r);
            },
            _ => {},
        }
    }
}

/// What the encoder writes for payload bytes: 40 (`HEAD`) becomes 43 48,
/// 43 (`ESC`) becomes 43 43, every other byte is written once, unchanged,
/// and the bytes of a concatenation are written in order; so the escaped
/// payload is as long as the payload plus its number of 40 and 43 bytes.
pub proof fn lemma_lenq_encoding_table(a: Seq<u8>, b: Seq<u8>, x: u8)
    ensures
        lenq_escape(a + b) == lenq_escape(a) + lenq_escape(b),
        lenq_escape(Seq::<u8>::empty()) == Seq::<u8>::empty(),
        lenq_escape(seq![40u8]) == seq![43u8, 48u8],
        lenq_escape(seq![43u8]) == seq![43u8, 43u8],
        x != 40 && x != 43 ==> lenq_escape(seq![x]) == seq![x],
        lenq_escape(a).len() == a.len() + a.filter(|y: u8| y == 40u8 || y == 43u8).len(),
{
    lemma_escape_split(a, b);
    lemma_escape_cons(x, Seq::<u8>::empty());
    lemma_escape_cons(40u8, Seq::<u8>::empty());
    lemma_escape_cons(43u8, Seq::<u8>::empty());
    assert(seq![x] + Seq::<u8>::empty() =~= seq![x]);
    assert(seq![40u8] + Seq::<u8>::empty() =~= seq![40u8]);
    assert(seq![43u8] + Seq::<u8>::empty() =~= seq![43u8]);
    assert(lenq_escape(Seq::<u8>::empty()) == Seq::<u8>::empty());
    assert(lenq_escape_byte(x) + Seq::<u8>::empty() =~= lenq_escape_byte(x));
    assert(lenq_escape_byte(40u8) + Seq::<u8>::empty() =~= seq![43u8, 48u8]);
    assert(lenq_escape_byte(43u8) + Seq::<u8>::empty() =~= seq![43u8, 43u8]);
    lemma_lenq_escape_count(a);
}

proof fn lemma_lenq_escape_count(a: Seq<u8>)
    ensures
        lenq_escape(a).len() == a.len() + a.filter(|y: u8| y == 40u8 || y == 43u8).len(),
    decreases a.len(),
{
    reveal(Seq::filter);
    if a.len() > 0 {
        lemma_lenq_escape_count(a.drop_last());
    }
}

/// Position `i` of `c` holds an accepted header for a payload of `len`
/// bytes, the bytes of `c` after it are `wire`, and `crc` is the header
/// check plus the sum of `wire`.
pub open spec fn lenq_wire_ok(c: Seq<u8>, i: int, len: int, wire: Seq<u8>, crc: int) -> bool {
    &&& lenq_header_at(c, i, len)
    &&& c.subrange(i + 6, c.len() as int) == wire
    &&& crc == 40 + c[i + 1] + len + byte_sum(wire)
}

/// The state `m` of a decoder agrees with the bytes `c` it has consumed:
/// while a frame is being read, the bytes after its header are the escaped
/// payload read so far (and a pending `ESC`), and the running check is the
/// header check plus their sum.
pub open spec fn lenq_check_backed(m: LenqState, c: Seq<u8>) -> bool {
    match m.state {
        StateRead::Head => true,
        StateRead::Data => exists|i: int|
            #[trigger] lenq_header_at(c, i, m.buff.len() + m.lenq) && lenq_wire_ok(
                c,
                i,
                m.buff.len() + m.lenq,
                lenq_escape(m.buff),
                m.crc as int,
            ),
        StateRead::Esc => exists|i: int|
            #[trigger] lenq_header_at(c, i, m.buff.len() + m.lenq + 1) && lenq_wire_ok(
                c,
                i,
                m.buff.len() + m.lenq + 1,
                lenq_escape(m.buff) + seq![43u8],
                m.crc as int,
            ),
        StateRead::Crc => exists|i: int|
            #[trigger] lenq_header_at(c, i, m.buff.len() as int) && lenq_wire_ok(
                c,
                i,
                m.buff.len() as int,
                lenq_escape(m.buff),
                m.crc as int,
            ),
    }
}

/// The consumed bytes `c` end with a whole frame carrying `d`: an accepted
/// header whose capped length field is the length of `d`, the escaped form
/// of `d`, and two check bytes, the first not 40, which read as a number
/// (a second byte 40 read as 41) equal the header check plus the sum of the
/// escaped payload bytes.
pub open spec fn lenq_frame_at_end(c: Seq<u8>, d: Seq<u8>) -> bool {
    exists|i: int|
        #[trigger] lenq_header_at(c, i, d.len() as int) && c.len() == i + 6 + lenq_escape(d).len()
            + 2 && c.subrange(i + 6, c.len() - 2) == lenq_escape(d) && c[c.len() - 2] != 40
            && be_u16(
            c[c.len() - 2],
            if c[c.len() - 1] == 40 {
                41u8
            } else {
                c[c.len() - 1]
            },
        ) == 40 + c[i + 1] + d.len() + byte_sum(lenq_escape(d))
}

/// Decoding stalled: waiting for the check, it took the first check byte as
/// the last byte of its input and dropped it.
pub open spec fn lenq_check_stalled(m: LenqState, c: Seq<u8>) -> bool {
    &&& m.state == StateRead::Crc
    &&& c.len() >= 1
    &&& lenq_check_backed(m, c.drop_last())
}

proof fn lemma_wire_push(c: Seq<u8>, i: int, len: int, wire: Seq<u8>, crc: int, v: u8)
    requires
        lenq_wire_ok(c, i, len, wire, crc),
    ensures
        lenq_header_at(c + seq![v], i, len),
        lenq_wire_ok(c + seq![v], i, len, wire.push(v), crc + v),
{
    let c1 = c + seq![v];
    assert(c1.subrange(i + 6, c1.len() as int) =~= wire.push(v));
    assert(wire.push(v).drop_last() =~= wire);
}

proof fn lemma_escape_push(b: Seq<u8>, x: u8)
    ensures
        lenq_escape(b.push(x)) == lenq_escape(b) + lenq_escape_byte(x),
{
    assert(b.push(x).drop_last() =~= b);
}

proof fn lemma_check_pass_header(m: LenqState, c: Seq<u8>, s: Seq<u8>)
    requires
        s.len() > 0,
        s[0] == HEAD,
    ensures
        match lenq_pass(m, s) {
            Pass::Go(m1, s1) => {
                &&& s1.len() < s.len()
                &&& s1 == s.skip(s.len() - s1.len())
                &&& lenq_check_backed(m1, c + s.take(s.len() - s1.len()))
            },
            _ => false,
        },
{
    let s1 = s.drop_first();
    assert(s.skip(1) =~= s1);
    assert(s.skip(s.len() - s1.len()) =~= s1);
    if s1.len() > 5 {
        let field = be_u16(s1[1], s1[2]);
        let lenq: u16 = if field > 1024 {
            1024
        } else {
            field
        };
        let crc = (40 + s1[0] + lenq) as u16;
        let w = s.take(6);
        let c1 = c + w;
        assert(s.skip(s.len() - s1.skip(5).len()) =~= s1.skip(5));
        assert(s.take(s.len() - s1.skip(5).len()) =~= w);
        if crc == be_u16(s1[3], s1[4]) {
            let i = c.len() as int;
            assert(c1[i] == HEAD && c1[i + 1] == s1[0] && c1[i + 2] == s1[1]);
            assert(c1[i + 3] == s1[2] && c1[i + 4] == s1[3] && c1[i + 5] == s1[4]);
            assert(lenq_header_at(c1, i, lenq as int));
            assert(c1.subrange(i + 6, c1.len() as int) =~= Seq::<u8>::empty());
            assert(lenq_escape(Seq::<u8>::empty()) == Seq::<u8>::empty());
            assert(byte_sum(Seq::<u8>::empty()) == 0);
            assert(lenq_wire_ok(c1, i, lenq as int, lenq_escape(Seq::<u8>::empty()), crc as int));
            let md = LenqState {
                state: StateRead::Data,
                buff: Seq::empty(),
                crc: crc,
                lenq: lenq,
            };
            let m1 = lenq_settle(md);
            assert(m1.buff.len() + m1.lenq == lenq);
            assert(lenq_header_at(c1, i, m1.buff.len() + m1.lenq));
            assert(lenq_header_at(c1, i, m1.buff.len() as int) || m1.state != StateRead::Crc);
            assert(lenq_check_backed(m1, c1));
        }
    }
}

proof fn lemma_check_pass_esc(m: LenqState, c: Seq<u8>, s: Seq<u8>)
    requires
        lenq_check_backed(m, c),
        m.state == StateRead::Esc,
        s.len() > 0,
        s[0] != HEAD,
        !(lenq_pass(m, s) is Overflow),
    ensures
        match lenq_pass(m, s) {
            Pass::Go(m1, s1) => {
                &&& s1.len() < s.len()
                &&& s1 == s.skip(s.len() - s1.len())
                &&& lenq_check_backed(m1, c + s.take(s.len() - s1.len()))
            },
            _ => false,
        },
{
    let v = s[0];
    let s1 = s.drop_first();
    assert(s.skip(s.len() - s1.len()) =~= s1);
    assert(s.take(s.len() - s1.len()) =~= seq![v]);
    let len = m.buff.len() + m.lenq + 1;
    let i = choose|i: int|
        #[trigger] lenq_header_at(c, i, len) && lenq_wire_ok(
            c,
            i,
            len,
            lenq_escape(m.buff) + seq![43u8],
            m.crc as int,
        );
    lemma_wire_push(c, i, len, lenq_escape(m.buff) + seq![43u8], m.crc as int, v);
    let c1 = c + seq![v];
    if v == ESC_HEAD || v == ESC {
        let x: u8 = if v == ESC_HEAD {
            HEAD
        } else {
            ESC
        };
        lemma_escape_push(m.buff, x);
        assert((lenq_escape(m.buff) + seq![43u8]).push(v) =~= lenq_escape(m.buff.push(x)));
        lemma_byte_sum_single(v);
        let md = LenqState {
            state: StateRead::Data,
            buff: m.buff.push(x),
            crc: (m.crc + v) as u16,
            lenq: m.lenq,
        };
        let m1 = lenq_settle(md);
        assert(m1.buff.len() + m1.lenq == len - 0);
        assert(lenq_header_at(c1, i, m1.buff.len() + m1.lenq));
        assert(lenq_wire_ok(c1, i, len, lenq_escape(m1.buff), m1.crc as int));
        if m1.state == StateRead::Crc {
            assert(m1.buff.len() == len);
            assert(lenq_header_at(c1, i, m1.buff.len() as int));
        }
        assert(lenq_check_backed(m1, c1));
    }
}

proof fn lemma_check_pass_data(m: LenqState, c: Seq<u8>, s: Seq<u8>)
    requires
        lenq_check_backed(m, c),
        m.state == StateRead::Data,
        s.len() > 0,
        s[0] != HEAD,
        !(lenq_pass(m, s) is Overflow),
    ensures
        match lenq_pass(m, s) {
            Pass::Go(m1, s1) => {
                &&& s1.len() < s.len()
                &&& s1 == s.skip(s.len() - s1.len())
                &&& lenq_check_backed(m1, c + s.take(s.len() - s1.len()))
            },
            _ => false,
        },
{
    let v = s[0];
    let s1 = s.drop_first();
    assert(s.skip(s.len() - s1.len()) =~= s1);
    assert(s.take(s.len() - s1.len()) =~= seq![v]);
    let len = m.buff.len() + m.lenq;
    let i = choose|i: int|
        #[trigger] lenq_header_at(c, i, len) && lenq_wire_ok(
            c,
            i,
            len,
            lenq_escape(m.buff),
            m.crc as int,
        );
    lemma_wire_push(c, i, len, lenq_escape(m.buff), m.crc as int, v);
    let c1 = c + seq![v];
    if v == ESC {
        assert(lenq_escape(m.buff).push(v) =~= lenq_escape(m.buff) + seq![43u8]);
        let m1 = LenqState {
            state: StateRead::Esc,
            buff: m.buff,
            crc: (m.crc + v) as u16,
            lenq: (m.lenq - 1) as u16,
        };
        assert(m1.buff.len() + m1.lenq + 1 == len);
        assert(lenq_header_at(c1, i, m1.buff.len() + m1.lenq + 1));
        assert(lenq_check_backed(m1, c1));
    } else {
        lemma_escape_push(m.buff, v);
        assert(lenq_escape(m.buff).push(v) =~= lenq_escape(m.buff.push(v)));
        let md = LenqState {
            state: StateRead::Data,
            buff: m.buff.push(v),
            crc: (m.crc + v) as u16,
            lenq: (m.lenq - 1) as u16,
        };
        let m1 = lenq_settle(md);
        assert(m1.buff.len() + m1.lenq == len);
        assert(lenq_header_at(c1, i, m1.buff.len() + m1.lenq));
        assert(lenq_wire_ok(c1, i, len, lenq_escape(m1.buff), m1.crc as int));
        if m1.state == StateRead::Crc {
            assert(m1.buff.len() == len);
            assert(lenq_header_at(c1, i, m1.buff.len() as int));
        }
        assert(lenq_check_backed(m1, c1));
    }
}

proof fn lemma_check_pass_crc(m: LenqState, c: Seq<u8>, s: Seq<u8>)
    requires
        lenq_check_backed(m, c),
        m.state == StateRead::Crc,
        s.len() > 0,
        s[0] != HEAD,
    ensures
        match lenq_pass(m, s) {
            Pass::Go(m1, s1) => {
                &&& s1.len() < s.len()
                &&& s1 == s.skip(s.len() - s1.len())
                &&& (lenq_check_backed(m1, c + s.take(s.len() - s1.len())) || (s1.len() == 0
                    && lenq_check_stalled(m1, c + s.take(s.len() - s1.len()))))
            },
            Pass::Emit(m1, s1, d) => {
                &&& s1.len() < s.len()
                &&& s1 == s.skip(s.len() - s1.len())
                &&& m1 == lenq_initial()
                &&& lenq_frame_at_end(c + s.take(s.len() - s1.len()), d)
            },
            _ => false,
        },
{
    let v = s[0];
    let s1 = s.drop_first();
    if s1.len() >= 1 {
        let w2 = s.take(2);
        assert(s.skip(s.len() - s1.skip(1).len()) =~= s1.skip(1));
        assert(s.take(s.len() - s1.skip(1).len()) =~= w2);
        let c1 = c + w2;
        let len = m.buff.len() as int;
        let i = choose|i: int|
            #[trigger] lenq_header_at(c, i, len) && lenq_wire_ok(
                c,
                i,
                len,
                lenq_escape(m.buff),
                m.crc as int,
            );
        assert(lenq_header_at(c1, i, len));
        assert(c1.subrange(i + 6, c1.len() - 2) =~= c.subrange(i + 6, c.len() as int));
        assert(c1[c1.len() - 2] == v && c1[c1.len() - 1] == s1[0]);
    } else {
        assert(s.skip(s.len() - s1.len()) =~= s1);
        assert(s.take(s.len() - s1.len()) =~= seq![v]);
        assert((c + seq![v]).drop_last() =~= c);
    }
}

proof fn lemma_check_pass(m: LenqState, c: Seq<u8>, s: Seq<u8>)
    requires
        lenq_check_backed(m, c),
        s.len() > 0,
        !(lenq_pass(m, s) is Overflow),
    ensures
        match lenq_pass(m, s) {
            Pass::Go(m1, s1) => {
                &&& s1.len() < s.len()
                &&& s1 == s.skip(s.len() - s1.len())
                &&& (lenq_check_backed(m1, c + s.take(s.len() - s1.len())) || (s1.len() == 0
                    && lenq_check_stalled(m1, c + s.take(s.len() - s1.len()))))
            },
            Pass::Emit(m1, s1, d) => {
                &&& s1.len() < s.len()
                &&& s1 == s.skip(s.len() - s1.len())
                &&& m1 == lenq_initial()
                &&& lenq_frame_at_end(c + s.take(s.len() - s1.len()), d)
            },
            _ => true,
        },
{
    if s[0] == HEAD {
        lemma_check_pass_header(m, c, s);
    } else {
        match m.state {
            StateRead::Head => {
                let s1 = s.drop_first();
                assert(s.skip(s.len() - s1.len()) =~= s1);
            },
            StateRead::Esc => lemma_check_pass_esc(m, c, s),
            StateRead::Data => lemma_check_pass_data(m, c, s),
            StateRead::Crc => lemma_check_pass_crc(m, c, s),
        }
    }
}


proof fn lemma_lenq_check_run(m: LenqState, c: Seq<u8>, s: Seq<u8>)
    requires
        lenq_check_backed(m, c),
        lenq_run(m, s) is Some,
    ensures
        ({
            let (m1, rest, out) = lenq_run(m, s)->0;
            let c1 = c + s.take(s.len() - rest.len());
            &&& rest.len() <= s.len()
            &&& rest == s.skip(s.len() - rest.len())
            &&& match out {
                Some(d) => m1 == lenq_initial() && lenq_frame_at_end(c1, d),
                None => lenq_check_backed(m1, c1) || (rest.len() == 0 && lenq_check_stalled(
                    m1,
                    c1,
                )),
            }
        }),
    decreases s.len(),
{
    if s.len() == 0 {
        assert(s.take(0) =~= Seq::<u8>::empty());
        assert(c + Seq::<u8>::empty() =~= c);
        assert(s.skip(0) =~= s);
    } else {
        lemma_check_pass(m, c, s);
        match lenq_pass(m, s) {
            Pass::Go(m1, s1) => {
                let w = s.take(s.len() - s1.len());
                if s1.len() == 0 && !lenq_check_backed(m1, c + w) {
                    assert(s1.take(0) =~= Seq::<u8>::empty());
                    assert(c + w + Seq::<u8>::empty() =~= c + w);
                    assert(s.skip(s.len() - 0) =~= s1);
                } else {
                    lemma_lenq_check_run(m1, c + w, s1);
                    let (_, rest, _) = lenq_run(m1, s1)->0;
                    assert(s1.skip(s1.len() - rest.len()) =~= s.skip(s.len() - rest.len()));
                    assert(c + w + s1.take(s1.len() - rest.len()) =~= c + s.take(
                        s.len() - rest.len(),
                    ));
                }
            },
            _ => {},
        }
    }
}

proof fn lemma_lenq_check_calls(m: LenqState, s: Seq<u8>, k: nat)
    requires
        m.state == StateRead::Head,
        lenq_calls(m, s, k) is Some,
    ensures
        ({
            let (m1, rest, out) = lenq_calls(m, s, k)->0;
            let c1 = s.take(s.len() - rest.len());
            &&& rest.len() <= s.len()
            &&& rest == s.skip(s.len() - rest.len())
            &&& match out {
                Some(d) => lenq_frame_at_end(c1, d),
                None => true,
            }
            &&& (lenq_check_backed(m1, c1) || (rest.len() == 0 && lenq_check_stalled(m1, c1)))
        }),
    decreases k,
{
    if k == 0 {
        assert(s.take(0) =~= Seq::<u8>::empty());
        assert(s.skip(0) =~= s);
    } else {
        lemma_lenq_check_calls(m, s, (k - 1) as nat);
        let (m0, r0, _) = lenq_calls(m, s, (k - 1) as nat)->0;
        let c0 = s.take(s.len() - r0.len());
        if lenq_check_backed(m0, c0) {
            lemma_lenq_check_run(m0, c0, r0);
            let (_, rest, _) = lenq_run(m0, r0)->0;
            assert(r0.skip(r0.len() - rest.len()) =~= s.skip(s.len() - rest.len()));
            assert(c0 + r0.take(r0.len() - rest.len()) =~= s.take(s.len() - rest.len()));
        } else {
            assert(lenq_run(m0, r0) == Some((m0, r0, None::<Seq<u8>>)));
        }
    }
}

/// Whenever a decoder waiting for `HEAD`, called any number of times on the
/// same buffer with nothing added in between, returns a payload, the bytes
/// it consumed end with that payload's frame, and the two check bytes of
/// that frame, read as a number, equal the header check plus the sum of the
/// escaped payload bytes: a frame whose check differs is never returned.
pub proof fn lemma_lenq_check_matches(m: LenqState, s: Seq<u8>, k: nat)
    requires
        m.state == StateRead::Head,
        lenq_calls(m, s, k) matches Some((_, _, Some(_))),
    ensures
        ({
            let (m1, rest, out) = lenq_calls(m, s, k)->0;
            &&& rest == s.skip(s.len() - rest.len())
            &&& lenq_frame_at_end(s.take(s.len() - rest.len()), out->0)
        }),
{
    lemma_lenq_check_calls(m, s, k);
}

} // verus!
