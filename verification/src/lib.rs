//! Framing codecs for a serial-port console: byte-stuffing, length-prefixed
//! and CRC-checked frames, together with the CRC-16 routines they use.

pub mod args;
pub mod byte_buf;
pub mod codec;
pub mod modes;
