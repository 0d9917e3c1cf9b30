//! Codecs that turn payloads into frames for a serial line and frames back
//! into payloads, and the CRC-16 routines they use.
//!
//! A coder is fed bytes as they arrive: `decode` consumes what it can from
//! the front of the buffer and returns a payload once a whole frame has been
//! read, keeping any partial frame in the coder until more bytes arrive.

use crate::byte_buf::bytes_mut_view;
use bytes::BytesMut;
use vstd::prelude::*;

pub mod crc_len_coder;
pub mod lenq_coder;
pub mod simple_coder;
pub mod slip_lng_coder;

verus! {

/// Turns a payload into a frame appended to `dst`.
pub trait Encoder {
    type Item;

    /// What the coder needs of `data` and of the bytes already in `dst`.
    spec fn encode_requires(&self, data: Self::Item, dst: Seq<u8>) -> bool;

    fn encode(&mut self, data: Self::Item, dst: &mut BytesMut) -> Result<(), ()>
        requires
            old(self).encode_requires(data, bytes_mut_view(*old(dst))),
    ;
}

/// Reads frames from the front of `src`, one payload per call at most.
pub trait Decoder {
    type Item;

    /// What the coder needs of its state and of the bytes in `src`.
    spec fn decode_requires(&self, src: Seq<u8>) -> bool;

    fn decode(&mut self, src: &mut BytesMut) -> Result<Option<Self::Item>, ()>
        requires
            old(self).decode_requires(bytes_mut_view(*old(src))),
    ;
}

/// What one pass of a decoding loop does with the bytes in front of it.
pub enum Pass<M> {
    /// The loop goes on from this state with these bytes.
    Go(M, Seq<u8>),
    /// The call ends here with no payload.
    Halt(M, Seq<u8>),
    /// The call ends here with this payload.
    Emit(M, Seq<u8>, Seq<u8>),
    /// The pass would overflow a counter, which panics.
    Overflow,
}

const POLY: u16 = 0x1021;

// ---------------------------------------------------------------------------
// CRC-CCITT, most significant bit first.

/// The CRC-CCITT register after one input bit: the register shifts left, and
/// the polynomial 0x1021 is folded in when the bit that leaves the register
/// differs from the input bit.
pub open spec fn ccitt_bit(reg: u16, bit: bool) -> u16 {
    if ((reg & 0x8000) != 0) != bit {
        (reg << 1u16) ^ 0x1021u16
    } else {
        reg << 1u16
    }
}

/// Bit `i` of `byte`, counted from the most significant bit (`i == 0`).
pub open spec fn msb_bit(byte: u8, i: u8) -> bool {
    (byte >> ((7 - i) as u8)) & 1u8 == 1u8
}

/// The register after the first `k` bits of `byte`, most significant first.
pub open spec fn crc16_prefix(reg: u16, byte: u8, k: nat) -> u16
    decreases k,
{
    if k == 0 {
        reg
    } else {
        ccitt_bit(crc16_prefix(reg, byte, (k - 1) as nat), msb_bit(byte, (k - 1) as u8))
    }
}

/// The register after a whole byte.
pub open spec fn crc16_byte(reg: u16, byte: u8) -> u16 {
    crc16_prefix(reg, byte, 8)
}

/// The register after every byte of `data`, in order.
pub open spec fn crc16_over(reg: u16, data: Seq<u8>) -> u16
    decreases data.len(),
{
    if data.len() == 0 {
        reg
    } else {
        crc16_byte(crc16_over(reg, data.drop_last()), data.last())
    }
}

/// Feeding one more byte after `data` is one more step of the register.
pub proof fn lemma_crc16_over_push(reg: u16, data: Seq<u8>, x: u8)
    ensures
        crc16_over(reg, data.push(x)) == crc16_byte(crc16_over(reg, data), x),
{
    assert(data.push(x).drop_last() =~= data);
}

/// Feeding `x` and then `data` is feeding the sequence `x` then `data`.
pub proof fn lemma_crc16_over_cons(reg: u16, x: u8, data: Seq<u8>)
    ensures
        crc16_over(crc16_byte(reg, x), data) == crc16_over(reg, seq![x] + data),
    decreases data.len(),
{
    if data.len() == 0 {
        assert(seq![x] + data =~= seq![x]);
        assert(seq![x].drop_last() =~= Seq::<u8>::empty());
        assert(crc16_over(reg, Seq::<u8>::empty()) == reg);
        assert(seq![x].last() == x);
    } else {
        lemma_crc16_over_cons(reg, x, data.drop_last());
        assert((seq![x] + data).drop_last() =~= seq![x] + data.drop_last());
        assert((seq![x] + data).last() == data.last());
    }
}

/// Feeding `a` and then `b` is feeding `a + b`.
pub proof fn lemma_crc16_over_append(reg: u16, a: Seq<u8>, b: Seq<u8>)
    ensures
        crc16_over(crc16_over(reg, a), b) == crc16_over(reg, a + b),
    decreases b.len(),
{
    if b.len() == 0 {
        assert(a + b =~= a);
    } else {
        lemma_crc16_over_append(reg, a, b.drop_last());
        assert((a + b).drop_last() =~= a + b.drop_last());
        assert((a + b).last() == b.last());
    }
}

/// CRC-CCITT (initial value 0xFFFF) of `data`; over no bytes it is the
/// initial value.
pub open spec fn full_crc16_spec(data: Seq<u8>) -> u16 {
    crc16_over(0xffff, data)
}

/// The byte-wise `crc16` continues the whole-buffer CRC: the CRC of `a`
/// followed by `b` is the CRC of `a` with every byte of `b` fed to it by
/// `crc16`.
pub proof fn lemma_full_crc16_continues(a: Seq<u8>, b: Seq<u8>)
    ensures
        full_crc16_spec(a + b) == crc16_over(full_crc16_spec(a), b),
{
    lemma_crc16_over_append(0xffff, a, b);
}

proof fn lemma_crc16_bit(reg: u16, nb: u8, byte: u8, i: u8)
    by (bit_vector)
    requires
        i < 8,
        nb == (((byte as u16) << (i as u16)) as u8),
    ensures
        ((((reg & 0x8000) >> 8u16) ^ ((nb as u16) & 0x80)) > 0) == (((reg & 0x8000) != 0) != ((
        byte >> ((7 - i) as u8)) & 1u8 == 1u8)),
        ((nb << 1u8) as u8) == (((byte as u16) << ((i + 1) as u16)) as u8),
{
}

proof fn lemma_ccitt_shift(reg: u16)
    by (bit_vector)
    ensures
        (((reg & 0x8000) != 0) ==> (reg & 0x8000) > 0),
        (((reg & 0x8000) == 0) ==> !((reg & 0x8000) > 0)),
{
}

/// Feeds one byte into a CRC-CCITT register, most significant bit first.
pub fn crc16(crc: u16, byte: u8) -> (r: u16)
    ensures
        r == crc16_byte(crc, byte),
{
    let mut crc_value = crc;
    let mut new_byte = byte;
    let mut i: u8 = 0;
    assert(byte == (((byte as u16) << 0u16) as u8)) by (bit_vector);
    while i < 8
        invariant
            i <= 8,
            crc_value == crc16_prefix(crc, byte, i as nat),
            new_byte == (((byte as u16) << (i as u16)) as u8),
        decreases 8 - i,
    {
        proof {
            lemma_crc16_bit(crc_value, new_byte, byte, i);
        }
        if ((crc_value & 0x8000) >> 8) ^ ((new_byte as u16) & 0x80) > 0 {
            crc_value = (crc_value << 1) ^ POLY;
        } else {
            crc_value = crc_value << 1;
        }
        new_byte = new_byte << 1;
        i = i + 1;
    }
    crc_value
}

/// What `u16::checked_shr` computes: `Some(x >> rhs)` when `rhs` is less
/// than 16, else `None`.
fn u16_checked_shr(x: u16, rhs: u32) -> (r: Option<u16>)
    ensures
        rhs < 16 ==> r == Some(x >> rhs),
        rhs >= 16 ==> r is None,
{
    if rhs < 16 {
        Some(x >> rhs)
    } else {
        None
    }
}

proof fn lemma_split_u16(w: u16)
    by (bit_vector)
    ensures
        ((w >> 8u32) as u8) == ((w / 256) as u8),
        (w as u8) == ((w % 256) as u8),
{
}

/// Feeds the two bytes of `byte`, most significant first.
pub fn crc16_for_u16(crc: u16, byte: u16) -> (r: u16)
    ensures
        r == crc16_byte(crc16_byte(crc, (byte / 256) as u8), (byte % 256) as u8),
{
    let mut crc_value = crc;
    let left = u16_checked_shr(byte, 8).unwrap_or(0) as u8;
    let right = byte as u8;
    proof {
        lemma_split_u16(byte);
    }
    crc_value = crc16(crc_value, left);
    crc_value = crc16(crc_value, right);
    crc_value
}

proof fn lemma_full_step(c: u16, p: u16, b: u8, j: u32)
    by (bit_vector)
    requires
        j < 8,
        c == p ^ ((((b as u32) << (8 + j)) as u16)),
    ensures
        (if c & 0x8000 > 0 {
            (c << 1u16) ^ 0x1021u16
        } else {
            c << 1u16
        }) == (if ((p & 0x8000) != 0) != ((b >> ((7 - j) as u8)) & 1u8 == 1u8) {
            (p << 1u16) ^ 0x1021u16
        } else {
            p << 1u16
        }) ^ ((((b as u32) << (8 + j + 1)) as u16)),
{
}

proof fn lemma_full_ends(c: u16, p: u16, b: u8)
    by (bit_vector)
    requires
        c == p ^ ((((b as u32) << 16u32) as u16)),
    ensures
        c == p,
{
}

proof fn lemma_full_starts(c: u16, b: u8)
    by (bit_vector)
    ensures
        c ^ ((b as u16) << 8u16) == c ^ ((((b as u32) << 8u32) as u16)),
{
}

/// CRC-CCITT with initial value 0xFFFF over the whole of `data_p`, the
/// register updated byte by byte; an empty input gives 0xFFFF.
pub fn full_crc16(data_p: &[u8]) -> (r: u16)
    ensures
        r == full_crc16_spec(data_p@),
{
    let length = data_p.len();
    let mut crc: u16 = 0xffff;

    let mut ptr_i: usize = 0;
    assert(data_p@.take(0) =~= Seq::<u8>::empty());
    while ptr_i < length
        invariant
            length == data_p@.len(),
            ptr_i <= length,
            crc == crc16_over(0xffff, data_p@.take(ptr_i as int)),
        decreases length - ptr_i,
    {
        let ghost p0 = crc;
        let b = data_p[ptr_i];
        proof {
            lemma_full_starts(crc, b);
        }
        crc = crc ^ (b as u16) << 8;
        let mut j: u32 = 0;
        while j < 8
            invariant
                j <= 8,
                crc == crc16_prefix(p0, b, j as nat) ^ ((((b as u32) << (8 + j)) as u16)),
            decreases 8 - j,
        {
            let ghost p = crc16_prefix(p0, b, j as nat);
            proof {
                lemma_full_step(crc, p, b, j);
                lemma_ccitt_shift(crc);
            }
            if crc & 0x8000 > 0 {
                crc = crc << 1 ^ POLY;
            } else {
                crc = crc << 1;
            }
            assert(crc16_prefix(p0, b, (j + 1) as nat) == ccitt_bit(p, msb_bit(b, j as u8)));
            j = j + 1;
        }
        proof {
            lemma_full_ends(crc, crc16_prefix(p0, b, 8), b);
            assert(data_p@.take(ptr_i + 1).drop_last() =~= data_p@.take(ptr_i as int));
        }
        ptr_i = ptr_i + 1;
    }
    assert(data_p@.take(length as int) =~= data_p@);
    crc
}

// ---------------------------------------------------------------------------
// CRC-16 after Isak's snippet (https://people.cs.umu.se/isak/snippets/crc-16.c):
// the reflected polynomial 0x8408, least significant bit first.

/// The reflected CRC-CCITT polynomial that Isak's snippet folds in.
const ISAK_POLY: u16 = 0x8408;

/// Bit `i` of `byte`, counted from the least significant bit (`i == 0`).
pub open spec fn lsb_bit(byte: u8, i: u8) -> bool {
    (byte >> i) & 1u8 == 1u8
}

/// The register after one input bit: it shifts right, and the polynomial
/// 0x8408 is folded in when the bit that leaves it differs from the input bit.
pub open spec fn isak_bit(reg: u16, bit: bool) -> u16 {
    if ((reg & 1) == 1) != bit {
        (reg >> 1u16) ^ 0x8408u16
    } else {
        reg >> 1u16
    }
}

/// The register after the first `k` bits of `byte`, least significant first.
pub open spec fn isak_prefix(reg: u16, byte: u8, k: nat) -> u16
    decreases k,
{
    if k == 0 {
        reg
    } else {
        isak_bit(isak_prefix(reg, byte, (k - 1) as nat), lsb_bit(byte, (k - 1) as u8))
    }
}

/// The register after every byte of `data`, in order.
pub open spec fn isak_over(reg: u16, data: Seq<u8>) -> u16
    decreases data.len(),
{
    if data.len() == 0 {
        reg
    } else {
        isak_prefix(isak_over(reg, data.drop_last()), data.last(), 8)
    }
}

/// The checksum of `data`: the register, started at 0xFFFF, run over every
/// byte, then complemented and its two bytes swapped; an empty input gives 0.
pub open spec fn isak_crc16_spec(data: Seq<u8>) -> u16 {
    if data.len() == 0 {
        0
    } else {
        let c = !isak_over(0xffff, data);
        (c << 8u16) | (c >> 8u16)
    }
}

proof fn lemma_isak_bit(reg: u16, data: u16, byte: u8, i: u16)
    by (bit_vector)
    requires
        i < 8,
        data == (byte as u16) >> i,
    ensures
        (((reg & 0x0001) ^ (data & 0x0001)) > 0) == (((reg & 1) == 1) != ((byte >> (i as u8)) & 1u8 == 1u8)),
        data >> 1u16 == (byte as u16) >> ((i + 1) as u16),
{
}

proof fn lemma_isak_swap(c: u16)
    by (bit_vector)
    ensures
        (c << 8u16) | ((c >> 8u16) & 0xff) == (c << 8u16) | (c >> 8u16),
{
}

/// CRC-16 after Isak's snippet (https://people.cs.umu.se/isak/snippets/crc-16.c):
/// the register starts at 0xFFFF and takes each byte least significant bit
/// first, shifting right and folding in 0x8408 when the bit leaving it
/// differs from the input bit; the result is the complemented register with
/// its two bytes swapped (CRC-16/X-25, bytes swapped). An empty input gives
/// 0, the complemented start value.
pub fn isak_crc16(data_p: &[u8]) -> (r: u16)
    ensures
        r == isak_crc16_spec(data_p@),
{
    let length = data_p.len();
    let mut data: u16;
    let mut crc: u16 = 0xffff;

    if length == 0 {
        return 0;
    }
    let mut ptr_i: usize = 0;
    while ptr_i < length
        invariant
            length == data_p@.len(),
            ptr_i <= length,
            crc == isak_over(0xffff, data_p@.take(ptr_i as int)),
        decreases length - ptr_i,
    {
        let ghost p0 = crc;
        let b = data_p[ptr_i];
        data = 0xff & b as u16;
        assert(data == (b as u16) >> 0u16) by (bit_vector)
            requires
                data == 0xff & (b as u16),
        ;
        let mut i: u16 = 0;
        while i < 8
            invariant
                i <= 8,
                crc == isak_prefix(p0, b, i as nat),
                data == (b as u16) >> i,
            decreases 8 - i,
        {
            proof {
                lemma_isak_bit(crc, data, b, i);
            }
            if (crc & 0x0001) ^ (data & 0x0001) > 0 {
                crc = (crc >> 1) ^ ISAK_POLY;
            } else {
                crc >>= 1
            }
            data >>= 1;
            i = i + 1;
        }
        proof {
            assert(data_p@.take(ptr_i + 1).drop_last() =~= data_p@.take(ptr_i as int));
        }
        ptr_i = ptr_i + 1;
    }
    assert(data_p@.take(length as int) =~= data_p@);
    crc = !crc;
    data = crc;
    proof {
        lemma_isak_swap(crc);
    }
    crc = (crc << 8) | (data >> 8 & 0xff);
    crc
}

} // verus!
