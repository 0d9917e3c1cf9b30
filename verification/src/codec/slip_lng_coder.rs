//! A coder whose frame format was never filled in: encoding writes nothing
//! and decoding reads nothing.

use super::{Decoder, Encoder};
use crate::byte_buf::{
    bytes_mut_clear, bytes_mut_has_remaining, bytes_mut_new, bytes_mut_view, bytes_remaining,
    bytes_view,
};
use bytes::{Bytes, BytesMut};
use vstd::prelude::*;

verus! {

/// Would open a frame.
pub const HEAD: u8 = 0x7E;

/// The coder; it keeps the same kind of reading state as `CRCLenCoder`.
#[derive(Debug)]
pub struct SlipLnqCoder {
    state_read: StateRead,
    buff: BytesMut,
    adrr: u8,
    crc: u16,
    lenq: u16,
}

/// Where the reader stands in a frame.
#[derive(Debug, Clone, Copy, PartialEq, Eq)]
pub enum StateRead {
    Slip,
    Head,
    Data,
    Crc,
}

/// The state of a `SlipLnqCoder`.
pub struct SlipLnqState {
    pub state: StateRead,
    pub buff: Seq<u8>,
    pub adrr: u8,
    pub crc: u16,
    pub lenq: u16,
}

impl View for SlipLnqCoder {
    type V = SlipLnqState;

    closed spec fn view(&self) -> SlipLnqState {
        SlipLnqState {
            state: self.state_read,
            buff: bytes_mut_view(self.buff),
            adrr: self.adrr,
            crc: self.crc,
            lenq: self.lenq,
        }
    }
}

/// The state of a fresh coder.
pub open spec fn slip_lnq_initial() -> SlipLnqState {
    SlipLnqState { state: StateRead::Head, buff: Seq::empty(), adrr: 0, crc: 0xffff, lenq: 0 }
}

impl SlipLnqCoder {
    /// A fresh coder.
    pub fn new() -> (r: SlipLnqCoder)
        ensures
            r@ == slip_lnq_initial(),
    {
        let buff = bytes_mut_new();
        let state_read = StateRead::Head;
        let adrr: u8 = 0;
        let crc: u16 = 0xFFFF;
        let lenq: u16 = 0;
        SlipLnqCoder { state_read, buff, adrr, crc, lenq }
    }

    /// Puts the coder back in its fresh state.
    pub fn reset_read(&mut self)
        ensures
            final(self)@ == slip_lnq_initial(),
    {
        self.state_read = StateRead::Head;
        bytes_mut_clear(&mut self.buff);
        self.adrr = 0;
        self.crc = 0xFFFF;
        self.lenq = 0;
    }

    /// Whether `decode` may be called on `src`: it returns only on an empty
    /// buffer.
    pub fn can_decode(&self, src: &BytesMut) -> (r: bool)
        ensures
            r == self.decode_requires(bytes_mut_view(*src)),
    {
        !bytes_mut_has_remaining(src)
    }
}

impl Encoder for SlipLnqCoder {
    type Item = Bytes;

    open spec fn encode_requires(&self, data: Bytes, dst: Seq<u8>) -> bool {
        true
    }

    /// Writes nothing and succeeds.
    fn encode(&mut self, data: Self::Item, dst: &mut BytesMut) -> (r: Result<(), ()>)
        ensures
            r == Ok::<(), ()>(()),
            bytes_mut_view(*final(dst)) == bytes_mut_view(*old(dst)),
            final(self)@ == old(self)@,
    {
        let n = bytes_remaining(&data);
        let crc: u16 = 0xffff;

        Ok(())
    }
}

impl Decoder for SlipLnqCoder {
    type Item = Bytes;

    /// Its reading loop never consumes a byte, so it only returns when `src`
    /// is empty.
    open spec fn decode_requires(&self, src: Seq<u8>) -> bool {
        src.len() == 0
    }

    /// Returns `None` and leaves everything as it was.
    fn decode(&mut self, src: &mut BytesMut) -> (r: Result<Option<Self::Item>, ()>)
        ensures
            r == Ok::<Option<Bytes>, ()>(None),
            bytes_mut_view(*final(src)) == bytes_mut_view(*old(src)),
            final(self)@ == old(self)@,
    {
        while bytes_mut_has_remaining(src)
            invariant
                bytes_mut_view(*src).len() == 0,
            decreases bytes_mut_view(*src).len(),
        {
        }
        Ok(None)
    }
}

} // verus!
