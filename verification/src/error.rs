//! What can go wrong.

use vstd::prelude::*;

verus! {

/// Why a decoder could not be made.
#[derive(Debug, Clone, Copy, PartialEq, Eq, Structural)]
pub enum LTCDecoderError {
    /// The frame length or the queue length is not positive.
    CreateError,
}

/// Why an encoder operation was refused. The encoder is left as it was.
#[derive(Debug, Clone, Copy, PartialEq, Eq, Structural)]
pub enum LTCEncoderError {
    /// The rates do not describe a signal, or one frame would not fit.
    CreateError,
    /// The rates do not describe a signal, or one frame exceeds the buffer.
    ReinitError,
    /// The rates do not describe a signal, or one frame would not fit.
    BufferSizeError,
    /// The peak level is outside `1..=127`.
    VolumeError,
    /// The byte index or the speed is out of range, or the buffer is full.
    EncodeError,
}

/// Why frame arithmetic could not finish.
#[derive(Debug, Clone, Copy, PartialEq, Eq, Structural)]
pub enum TimecodeError {
    /// The day rolled over but the stored month is not a month, so the
    /// calendar could not be advanced.
    InvalidReturn,
}

impl LTCDecoderError {
    /// A short description for messages.
    pub fn message(&self) -> (r: &'static str)
        ensures
            r@ == "failed to create the decoder"@,
    {
        "failed to create the decoder"
    }
}

impl LTCEncoderError {
    /// The description of each error.
    pub open spec fn message_spec(self) -> Seq<char> {
        match self {
            LTCEncoderError::CreateError => "failed to create the encoder"@,
            LTCEncoderError::ReinitError => "failed to reinitialise the encoder"@,
            LTCEncoderError::BufferSizeError => "failed to set the buffer size"@,
            LTCEncoderError::VolumeError => "volume out of range"@,
            LTCEncoderError::EncodeError => "failed to encode"@,
        }
    }

    /// A short description for messages.
    pub fn message(&self) -> (r: &'static str)
        ensures
            r@ == self.message_spec(),
    {
        match self {
            LTCEncoderError::CreateError => "failed to create the encoder",
            LTCEncoderError::ReinitError => "failed to reinitialise the encoder",
            LTCEncoderError::BufferSizeError => "failed to set the buffer size",
            LTCEncoderError::VolumeError => "volume out of range",
            LTCEncoderError::EncodeError => "failed to encode",
        }
    }
}

impl TimecodeError {
    /// A short description for messages.
    pub fn message(&self) -> (r: &'static str)
        ensures
            r@ == "calendar could not be advanced: invalid month"@,
    {
        "calendar could not be advanced: invalid month"
    }
}

} // verus!
