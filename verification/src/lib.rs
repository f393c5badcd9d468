//! A lossless, block-adaptive Rice codec for sequences of 8-, 16- and
//! 32-bit signed samples, verified with Verus.
//!
//! An encoder writes the first sample raw and codes the differences between
//! neighbouring samples in blocks. For each block it chooses, from the mean
//! of the block, how to write its differences: not at all, directly, or Rice
//! coded with a split that suits the mean. A decoder reads the samples back
//! from the same number of samples and the same block size.
//!
//! - [`write`] and [`read`] hold the encoder and the decoder.
//! - [`stream`] says what a sample sequence is encoded to and what bytes
//!   are decoded to; [`roundtrip`] proves that decoding undoes encoding.
//! - [`format`] holds the sample widths and the mapping of differences,
//!   [`estimate`] the choice of the split.
//! - [`bit_writer`] and [`bit_reader`] move bit fields to and from bytes;
//!   [`bits`] and [`word`] hold the arithmetic of bits that they rest on.
//! - [`sink`] holds the receivers of diagnostic messages.

use vstd::prelude::*;

pub mod bit_reader;
pub mod bit_writer;
pub mod bits;
pub mod estimate;
pub mod format;
pub mod read;
pub mod roundtrip;
pub mod sink;
pub mod stream;
pub mod word;
pub mod write;

verus! {

/// A sequence of 32-bit samples.
#[derive(Clone, Debug)]
pub struct DataInt {
    pub d: Vec<i32>,
}

/// A sequence of 16-bit samples.
#[derive(Clone, Debug)]
pub struct DataShort {
    pub d: Vec<i16>,
}

/// A sequence of 8-bit samples.
#[derive(Clone, Debug)]
pub struct DataByte {
    pub d: Vec<i8>,
}

/// The diagnostic sink that drops every message.
pub fn log_noop(_msg: &str) {
}

} // verus!
