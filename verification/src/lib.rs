//! The Lagarith lossless video codec.
//!
//! A frame starts with a byte that selects its type. Most types hold three
//! or four channels, one per plane, behind a table of their offsets. A
//! channel holds the residuals of a plane under a spatial predictor, in
//! one of several forms: range-coded behind a frequency table, with or
//! without zero-run escapes, plain, or one byte for the whole plane. RGB
//! planes other than green are stored less green.
//!
//! [`decode_frame`] decodes one frame, [`Decoder`] a sequence with repeated
//! frames. [`encode_frame`] encodes one frame in the shortest form that it
//! knows. The laws of [`round_trip`] say that decoding gives back what was
//! encoded.

pub mod bits;
pub mod channel;
pub mod channel_encoder;
pub mod decoder;
pub mod digits;
pub mod encoder;
pub mod error;
pub mod fibonacci;
pub mod format;
pub mod frame;
pub mod frame_header;
pub mod histogram;
pub mod interval;
pub mod legacy_channel_encoder;
pub mod legacy_range_coder;
pub mod model;
pub mod pixels;
pub mod plane;
pub mod predict;
pub mod predictor;
pub mod range_coder;
pub mod registry;
pub mod rle;
pub mod round_trip;
pub mod scaling;
pub mod tables;
pub mod wire;

pub use crate::channel::ChannelHeader;
pub use crate::decoder::{
    decode_frame, decode_frame_with_prev, DecodedFrame, Decoder, PixelKind,
};
pub use crate::encoder::{encode_frame, encode_null};
pub use crate::error::{Error, Result};
pub use crate::frame::FrameType;
