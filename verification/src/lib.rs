//! Linear timecode: the 80-bit frame, its conversion to and from SMPTE time,
//! frame arithmetic, a biphase-mark encoder and a streaming decoder with a
//! bounded queue of decoded frames.
//!
//! Everything here works on integers. Sample values are unsigned 8-bit with
//! the centre at 128; rates are whole numbers or ratios of whole numbers;
//! speeds are thousandths; levels are distances from the centre.
//!
//! The modules, from the frame outwards:
//!
//! - [`standard`], [`flags`], [`error`], [`timecode`]: the small types.
//! - [`fields`], [`frame`]: the fields of a frame and the ten bytes that
//!   hold them.
//! - [`arith`]: one frame on and one frame back.
//! - [`clock`], [`laws`]: what holds of conversion and arithmetic: a time
//!   written is the time read, a step on and a step back is no step, and
//!   drop-frame numbering leaves out what it should.
//! - [`wave`], [`encoder`]: from a frame to samples.
//! - [`queue`], [`decoder`]: from samples to frames.
//! - [`channel`]: what is encoded is what is decoded.
//! - [`noise`]: and still is when the samples are off their levels but on
//!   their sides.
//! - [`backwards`]: and what is encoded backwards is decoded as played
//!   backwards.

pub mod arith;
pub mod backwards;
pub mod channel;
pub mod clock;
pub mod decoder;
pub mod encoder;
pub mod error;
pub mod fields;
pub mod flags;
pub mod frame;
pub mod laws;
pub mod noise;
pub mod queue;
pub mod standard;
pub mod timecode;
pub mod wave;

pub use arith::TimecodeWasWrapped;
pub use decoder::LTCDecoder;
pub use encoder::LTCEncoder;
pub use error::{LTCDecoderError, LTCEncoderError, TimecodeError};
pub use fields::FrameFields;
pub use flags::{LtcBgFlags, LtcBgFlagsKind};
pub use frame::{calc_frame_alignment, LTCFrame};
pub use queue::{FrameQueue, LTCFrameExt};
pub use standard::LTCTVStandard;
pub use timecode::{SMPTETimecode, Timezone};
