use vstd::prelude::*;

verus! {

/// Why a frame was refused.
#[derive(Debug, Copy, Clone, Eq, PartialEq, Structural)]
pub enum Reason {
    InvalidSyncWord,
    InvalidSubbands,
    InvalidBlockLength,
    InvalidBitpoolValue,
    InvalidCrc,
    UnexpectedData,
}

/// The errors of the decoder.
#[derive(Debug, Copy, Clone, Eq, PartialEq, Structural)]
pub enum Error {
    BadData(Reason),
    NotEnoughData { expected: usize, actual: usize },
    OutputBufferTooSmall { expected: usize, actual: usize },
}

} // verus!
