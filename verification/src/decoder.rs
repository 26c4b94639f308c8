//! Decoding of frames.
//!
//! A frame is decoded on its own, with one exception: an empty payload (a
//! NULL or "JUMP" frame) repeats the frame before it. [`decode_frame`] has
//! no such frame and refuses it; [`Decoder`] remembers the last frame.

use crate::channel;
use crate::channel::{decode_channel, decode_legacy_channel};
use crate::digits;
use crate::error::{Error, Result};
use crate::frame;
use crate::frame::{split_channels, FrameType};
use crate::pixels;
use crate::predict;
use crate::predict::{
    apply_plane_inverse_with_rule, apply_plane_inverse_yuy2, cross_plane_decorrelate_rgb,
    FirstColRule, Predictor,
};
use crate::wire;
use vstd::prelude::*;

verus! {

/// The pixel format of a frame buffer.
#[derive(Debug, Copy, Clone, PartialEq, Eq, Structural)]
pub enum PixelKind {
    /// Three bytes per pixel: blue, green, red.
    Bgr24,
    /// Four bytes per pixel: blue, green, red, alpha.
    Bgra32,
    /// Planar 4:2:0: all luma, then V and U at a quarter of the samples
    /// each.
    Yv12,
    /// Packed 4:2:2: `Y0 U Y1 V` for every two pixels.
    Yuy2,
}

impl PixelKind {
    /// An RGB format.
    pub open spec fn rgb(self) -> bool {
        self is Bgr24 || self is Bgra32
    }

    /// The length of a frame buffer.
    pub open spec fn size(self, width: nat, height: nat) -> nat {
        let n = width * height;
        match self {
            PixelKind::Bgr24 => n * 3,
            PixelKind::Bgra32 => n * 4,
            PixelKind::Yv12 => n + 2 * (n / 4),
            PixelKind::Yuy2 => n * 2,
        }
    }

    /// The length of a frame buffer.
    pub fn buffer_len(self, width: u32, height: u32) -> (r: usize)
        requires
            self.size(width as nat, height as nat) <= usize::MAX,
        ensures
            r == self.size(width as nat, height as nat),
    {
        assert(width * height >= 0) by (nonlinear_arith)
            requires
                width >= 0,
                height >= 0,
        ;
        let n: usize = width as usize * height as usize;
        match self {
            PixelKind::Bgr24 => n * 3,
            PixelKind::Bgra32 => n * 4,
            PixelKind::Yv12 => n + 2 * (n / 4),
            PixelKind::Yuy2 => n * 2,
        }
    }

    /// The number of bytes of a pixel, where each pixel has its own.
    fn packed_bpp(self) -> (r: Option<usize>)
        ensures
            match self {
                PixelKind::Bgr24 => r == Some(3usize),
                PixelKind::Bgra32 => r == Some(4usize),
                _ => r is None,
            },
    {
        match self {
            PixelKind::Bgr24 => Some(3),
            PixelKind::Bgra32 => Some(4),
            _ => None,
        }
    }

    /// Whether this is an RGB format.
    pub fn is_rgb_family(self) -> (r: bool)
        ensures
            r == self.rgb(),
    {
        match self {
            PixelKind::Bgr24 => true,
            PixelKind::Bgra32 => true,
            _ => false,
        }
    }

    /// Whether this is a luma and chroma format.
    pub fn is_yuv_family(self) -> (r: bool)
        ensures
            r == !self.rgb(),
    {
        match self {
            PixelKind::Yv12 => true,
            PixelKind::Yuy2 => true,
            _ => false,
        }
    }

    /// Whether the components of a pixel lie next to each other.
    pub fn is_packed(self) -> (r: bool)
        ensures
            r == !(self is Yv12),
    {
        match self {
            PixelKind::Yv12 => false,
            _ => true,
        }
    }

    /// Whether each component has a plane of its own.
    pub fn is_planar(self) -> (r: bool)
        ensures
            r == (self is Yv12),
    {
        match self {
            PixelKind::Yv12 => true,
            _ => false,
        }
    }

    /// Whether the format has alpha.
    pub fn has_alpha(self) -> (r: bool)
        ensures
            r == (self is Bgra32),
    {
        match self {
            PixelKind::Bgra32 => true,
            _ => false,
        }
    }

    /// The number of bytes of a pixel, where each pixel has its own.
    pub fn bytes_per_pixel(self) -> (r: Option<usize>)
        ensures
            match self {
                PixelKind::Bgr24 => r == Some(3usize),
                PixelKind::Bgra32 => r == Some(4usize),
                _ => r is None,
            },
    {
        self.packed_bpp()
    }

    /// All pixel formats.
    pub fn all() -> (r: [PixelKind; 4])
        ensures
            r@ == seq![PixelKind::Bgr24, PixelKind::Bgra32, PixelKind::Yv12, PixelKind::Yuy2],
            forall|k: PixelKind| r@.contains(k),
    {
        let r: [PixelKind; 4] = [
            PixelKind::Bgr24,
            PixelKind::Bgra32,
            PixelKind::Yv12,
            PixelKind::Yuy2,
        ];
        proof {
            assert(r@[0] == PixelKind::Bgr24 && r@[1] == PixelKind::Bgra32 && r@[2]
                == PixelKind::Yv12 && r@[3] == PixelKind::Yuy2);
            assert forall|k: PixelKind| r@.contains(k) by {
                assert(k == r@[0] || k == r@[1] || k == r@[2] || k == r@[3]);
            }
        }
        r
    }
}

/// A decoded frame.
#[derive(Debug)]
pub struct DecodedFrame {
    /// Width in pixels.
    pub width: u32,
    /// Height in pixels.
    pub height: u32,
    /// The format of `pixels`.
    pub pixel_kind: PixelKind,
    /// The frame buffer, row by row without padding.
    pub pixels: Vec<u8>,
}

impl DecodedFrame {
    /// The same dimensions, format and pixels.
    pub open spec fn same_as(&self, other: &DecodedFrame) -> bool {
        &&& self.width == other.width
        &&& self.height == other.height
        &&& self.pixel_kind == other.pixel_kind
        &&& self.pixels@ == other.pixels@
    }

    /// The buffer has the length that the dimensions and the format ask for.
    pub open spec fn wf(&self) -> bool {
        self.pixels@.len() == self.pixel_kind.size(self.width as nat, self.height as nat)
    }
}

impl Clone for DecodedFrame {
    fn clone(&self) -> (r: Self)
        ensures
            r.same_as(self),
    {
        let mut pixels: Vec<u8> = Vec::with_capacity(self.pixels.len());
        wire::push_all(&mut pixels, self.pixels.as_slice());
        assert(pixels@ =~= self.pixels@);
        DecodedFrame {
            width: self.width,
            height: self.height,
            pixel_kind: self.pixel_kind,
            pixels,
        }
    }
}

// ---------------------------------------------------------------------
// What a frame stands for
// ---------------------------------------------------------------------

/// A frame of this size has an addressable buffer in every format.
pub open spec fn addressable(width: u32, height: u32) -> bool {
    4 * (width as nat * height as nat) + 32 <= usize::MAX
}

/// The residuals of channel `k` of `n_channels`.
#[verifier::opaque]
pub open spec fn residuals_of(payload: Seq<u8>, n_channels: int, k: int, n: nat) -> Result<
    Seq<u8>,
> {
    channel::plane_of(frame::channel_at(payload, n_channels, k), n)
}

/// The residuals of channel `k` of an obsolete frame.
#[verifier::opaque]
pub open spec fn legacy_residuals_of(payload: Seq<u8>, k: int, n: nat) -> Result<Seq<u8>> {
    channel::legacy_plane_of(frame::channel_at(payload, 3, k), n)
}

/// The RGB buffer of three planes of residuals and an alpha plane.
pub open spec fn rgb_buffer(
    kind: PixelKind,
    w: int,
    rb: Seq<u8>,
    rg: Seq<u8>,
    rr: Seq<u8>,
    a: Seq<u8>,
) -> Seq<u8> {
    let m = Predictor::Median(FirstColRule::B);
    let g = predict::rebuilt(m, w, rg);
    let b = predict::recorrelated(predict::rebuilt(m, w, rb), g);
    let r = predict::recorrelated(predict::rebuilt(m, w, rr), g);
    if kind is Bgr24 {
        pixels::interleaved3(b, g, r)
    } else {
        pixels::interleaved4(b, g, r, a)
    }
}

/// The buffer of a frame with three RGB channels, given their residuals.
pub open spec fn rgb_from(
    kind: PixelKind,
    w: int,
    n: nat,
    b: Result<Seq<u8>>,
    g: Result<Seq<u8>>,
    r: Result<Seq<u8>>,
) -> Result<Seq<u8>> {
    match b {
        Err(e) => Err(e),
        Ok(rb) => match g {
            Err(e) => Err(e),
            Ok(rg) => match r {
                Err(e) => Err(e),
                Ok(rr) => Ok(rgb_buffer(kind, w, rb, rg, rr, digits::repeat(0xff, n))),
            },
        },
    }
}

/// The buffer of an RGB frame.
#[verifier::opaque]
pub open spec fn rgb_pixels(payload: Seq<u8>, w: nat, h: nat, kind: PixelKind) -> Result<Seq<u8>> {
    let n = w * h;
    if !kind.rgb() {
        Err(Error::PixelFormatMismatch { frame_type: payload[0] })
    } else {
        match frame::split_error(payload, 3) {
            Some(e) => Err(e),
            None => rgb_from(
                kind,
                w as int,
                n,
                residuals_of(payload, 3, 0, n),
                residuals_of(payload, 3, 1, n),
                residuals_of(payload, 3, 2, n),
            ),
        }
    }
}

/// The buffer of an obsolete RGB frame.
#[verifier::opaque]
pub open spec fn legacy_rgb_pixels(payload: Seq<u8>, w: nat, h: nat, kind: PixelKind) -> Result<
    Seq<u8>,
> {
    let n = w * h;
    if !kind.rgb() {
        Err(Error::PixelFormatMismatch { frame_type: payload[0] })
    } else {
        match frame::split_error(payload, 3) {
            Some(e) => Err(e),
            None => rgb_from(
                kind,
                w as int,
                n,
                legacy_residuals_of(payload, 0, n),
                legacy_residuals_of(payload, 1, n),
                legacy_residuals_of(payload, 2, n),
            ),
        }
    }
}

/// The buffer of an RGB frame with alpha. Alpha is decoded only where the
/// buffer has a place for it.
#[verifier::opaque]
pub open spec fn rgba_pixels(payload: Seq<u8>, w: nat, h: nat, kind: PixelKind) -> Result<Seq<u8>> {
    let n = w * h;
    if !kind.rgb() {
        Err(Error::PixelFormatMismatch { frame_type: payload[0] })
    } else {
        match frame::split_error(payload, 4) {
            Some(e) => Err(e),
            None => match residuals_of(payload, 4, 0, n) {
                Err(e) => Err(e),
                Ok(rb) => match residuals_of(payload, 4, 1, n) {
                    Err(e) => Err(e),
                    Ok(rg) => match residuals_of(payload, 4, 2, n) {
                        Err(e) => Err(e),
                        Ok(rr) => if kind is Bgr24 {
                            Ok(rgb_buffer(kind, w as int, rb, rg, rr, Seq::empty()))
                        } else {
                            match residuals_of(payload, 4, 3, n) {
                                Err(e) => Err(e),
                                Ok(ra) => Ok(
                                    rgb_buffer(
                                        kind,
                                        w as int,
                                        rb,
                                        rg,
                                        rr,
                                        predict::rebuilt(
                                            Predictor::Median(FirstColRule::B),
                                            w as int,
                                            ra,
                                        ),
                                    ),
                                ),
                            }
                        },
                    },
                },
            },
        }
    }
}

/// The row length of the chroma planes of a 4:2:0 frame. Where the samples
/// do not make whole rows of half the width, they are one row.
pub open spec fn chroma_width(w: nat, h: nat) -> nat {
    if (w / 2) * (h / 2) == (w * h) / 4 {
        w / 2
    } else {
        (w * h) / 4
    }
}

/// The buffer of a planar 4:2:0 frame.
#[verifier::opaque]
pub open spec fn yv12_pixels(payload: Seq<u8>, w: nat, h: nat) -> Result<Seq<u8>> {
    let n = w * h;
    let c = n / 4;
    let m = Predictor::Median(FirstColRule::Yuv);
    match frame::split_error(payload, 3) {
        Some(e) => Err(e),
        None => match residuals_of(payload, 3, 0, n) {
            Err(e) => Err(e),
            Ok(y) => match residuals_of(payload, 3, 1, c) {
                Err(e) => Err(e),
                Ok(v) => match residuals_of(payload, 3, 2, c) {
                    Err(e) => Err(e),
                    Ok(u) => Ok(
                        predict::rebuilt(m, w as int, y) + predict::rebuilt(
                            m,
                            chroma_width(w, h) as int,
                            v,
                        ) + predict::rebuilt(m, chroma_width(w, h) as int, u),
                    ),
                },
            },
        },
    }
}

/// The buffer of a packed 4:2:2 frame.
#[verifier::opaque]
pub open spec fn yuy2_pixels(payload: Seq<u8>, w: nat, h: nat) -> Result<Seq<u8>> {
    let n = w * h;
    let c = (w / 2) * h;
    match frame::split_error(payload, 3) {
        Some(e) => Err(e),
        None => match residuals_of(payload, 3, 0, n) {
            Err(e) => Err(e),
            Ok(y) => match residuals_of(payload, 3, 1, c) {
                Err(e) => Err(e),
                Ok(u) => match residuals_of(payload, 3, 2, c) {
                    Err(e) => Err(e),
                    Ok(v) => Ok(
                        pixels::packed_yuy2(
                            predict::rebuilt(Predictor::Packed { luma: true }, w as int, y),
                            predict::rebuilt(Predictor::Packed { luma: false }, (w / 2) as int, u),
                            predict::rebuilt(Predictor::Packed { luma: false }, (w / 2) as int, v),
                            w as int,
                        ),
                    ),
                },
            },
        },
    }
}

/// The planes of a planar 4:2:0 buffer at half the width and height, scaled
/// up.
pub open spec fn upscaled_buffer(half: Seq<u8>, w: nat, h: nat) -> Seq<u8> {
    let y = ((w / 2) * (h / 2)) as int;
    let c = ((w / 4) * (h / 4)) as int;
    pixels::upscaled(half.subrange(0, y), (w / 2) as int) + pixels::upscaled(
        half.subrange(y, y + c),
        (w / 4) as int,
    ) + pixels::upscaled(half.subrange(y + c, half.len() as int), (w / 4) as int)
}

/// The buffer of a frame at half the width and height.
pub open spec fn reduced_pixels(payload: Seq<u8>, width: u32, height: u32) -> Result<Seq<u8>> {
    let w = width as nat;
    let h = height as nat;
    if w % 4 != 0 || h % 4 != 0 {
        Err(Error::BadDimensions { width, height })
    } else {
        match yv12_pixels(payload, w / 2, h / 2) {
            Err(e) => Err(e),
            Ok(half) => Ok(upscaled_buffer(half, w, h)),
        }
    }
}

/// The buffer of a frame of one colour.
pub open spec fn solid_pixels(payload: Seq<u8>, n: nat, kind: PixelKind, t: FrameType) -> Result<
    Seq<u8>,
> {
    let need: int = if t is SolidGrey {
        2
    } else if t is SolidRgb {
        4
    } else {
        5
    };
    if !kind.rgb() {
        Err(Error::PixelFormatMismatch { frame_type: t.byte() as u8 })
    } else if payload.len() < need {
        Err(Error::Truncated { context: "solid-frame colour bytes" })
    } else {
        let b = payload[1];
        let g = if t is SolidGrey {
            b
        } else {
            payload[2]
        };
        let r = if t is SolidGrey {
            b
        } else {
            payload[3]
        };
        let a = if t is SolidRgba {
            payload[4]
        } else {
            0xffu8
        };
        if kind is Bgr24 {
            Ok(
                pixels::interleaved3(
                    digits::repeat(b, n),
                    digits::repeat(g, n),
                    digits::repeat(r, n),
                ),
            )
        } else {
            Ok(
                pixels::interleaved4(
                    digits::repeat(b, n),
                    digits::repeat(g, n),
                    digits::repeat(r, n),
                    digits::repeat(a, n),
                ),
            )
        }
    }
}

/// The buffer of a frame of plain pixels.
pub open spec fn uncompressed_pixels(payload: Seq<u8>, size: nat) -> Result<Seq<u8>> {
    if payload.len() < 1 + size {
        Err(Error::Truncated { context: "uncompressed frame body" })
    } else {
        Ok(payload.subrange(1, 1 + size as int))
    }
}

/// The buffer that a payload stands for, or why it stands for none.
pub open spec fn frame_pixels(payload: Seq<u8>, width: u32, height: u32, kind: PixelKind) -> Result<
    Seq<u8>,
> {
    let w = width as nat;
    let h = height as nat;
    if payload.len() == 0 {
        Err(Error::NullFrame)
    } else if w == 0 || h == 0 {
        Err(Error::BadDimensions { width, height })
    } else if payload[0] == 1 {
        uncompressed_pixels(payload, kind.size(w, h))
    } else if payload[0] == 2 || payload[0] == 4 {
        rgb_pixels(payload, w, h, kind)
    } else if payload[0] == 3 {
        if kind is Yuy2 {
            yuy2_pixels(payload, w, h)
        } else {
            Err(Error::PixelFormatMismatch { frame_type: payload[0] })
        }
    } else if payload[0] == 5 {
        solid_pixels(payload, w * h, kind, FrameType::SolidGrey)
    } else if payload[0] == 6 {
        solid_pixels(payload, w * h, kind, FrameType::SolidRgb)
    } else if payload[0] == 7 {
        legacy_rgb_pixels(payload, w, h, kind)
    } else if payload[0] == 8 {
        rgba_pixels(payload, w, h, kind)
    } else if payload[0] == 9 {
        solid_pixels(payload, w * h, kind, FrameType::SolidRgba)
    } else if payload[0] == 10 {
        if kind is Yv12 {
            yv12_pixels(payload, w, h)
        } else {
            Err(Error::PixelFormatMismatch { frame_type: payload[0] })
        }
    } else if payload[0] == 11 {
        if kind is Yv12 {
            reduced_pixels(payload, width, height)
        } else {
            Err(Error::PixelFormatMismatch { frame_type: payload[0] })
        }
    } else {
        Err(Error::BadFrameType(payload[0]))
    }
}

/// A decoded frame carries what a specification says.
pub open spec fn decodes_to(
    r: Result<DecodedFrame>,
    width: u32,
    height: u32,
    kind: PixelKind,
    s: Result<Seq<u8>>,
) -> bool {
    match s {
        Ok(px) => {
            &&& r is Ok
            &&& r->Ok_0.width == width
            &&& r->Ok_0.height == height
            &&& r->Ok_0.pixel_kind == kind
            &&& r->Ok_0.pixels@ == px
            &&& r->Ok_0.wf()
        },
        Err(e) => r is Err && r->Err_0 == e,
    }
}

// ---------------------------------------------------------------------
// Decoding
// ---------------------------------------------------------------------

/// Decode one frame. An empty payload is refused with [`Error::NullFrame`].
pub fn decode_frame(payload: &[u8], width: u32, height: u32, pixel_kind: PixelKind) -> (r: Result<
    DecodedFrame,
>)
    requires
        addressable(width, height),
    ensures
        decodes_to(
            r,
            width,
            height,
            pixel_kind,
            frame_pixels(payload@, width, height, pixel_kind),
        ),
{
    if payload.len() == 0 {
        return Err(Error::NullFrame);
    }
    if width == 0 || height == 0 {
        return Err(Error::BadDimensions { width, height });
    }
    let frame_type = match FrameType::from_byte(payload[0]) {
        Ok(t) => t,
        Err(e) => {
            return Err(e);
        },
    };
    match frame_type {
        FrameType::Uncompressed => decode_uncompressed(payload, width, height, pixel_kind),
        FrameType::SolidGrey => decode_solid(
            payload,
            width,
            height,
            pixel_kind,
            SolidShape::Grey,
        ),
        FrameType::SolidRgb => decode_solid(payload, width, height, pixel_kind, SolidShape::Rgb),
        FrameType::SolidRgba => decode_solid(
            payload,
            width,
            height,
            pixel_kind,
            SolidShape::Rgba,
        ),
        FrameType::ArithmeticRgb24 => decode_arith_rgb(payload, width, height, pixel_kind),
        FrameType::UnalignedRgb24 => decode_arith_rgb(payload, width, height, pixel_kind),
        FrameType::LegacyRgb => decode_legacy_rgb(payload, width, height, pixel_kind),
        FrameType::ArithmeticRgba => decode_arith_rgba(payload, width, height, pixel_kind),
        FrameType::ArithmeticYv12 => decode_arith_yv12(payload, width, height, pixel_kind),
        FrameType::ArithmeticYuy2 => decode_arith_yuy2(payload, width, height, pixel_kind),
        FrameType::ReducedResYv12 => decode_reduced_res(payload, width, height, pixel_kind),
    }
}

/// Products of dimensions that an addressable frame implies.
proof fn lemma_sizes(width: u32, height: u32)
    requires
        addressable(width, height),
    ensures
        width * height <= usize::MAX,
        width as nat * height as nat == width * height,
        (width / 2) * height <= width * height,
        (width / 2) * (height / 2) <= width * height,
        0 <= (width / 2) * height,
        0 <= (width / 2) * (height / 2),
        0 <= width * height,
{
    let w = width as int;
    let h = height as int;
    assert(0 <= w * h) by (nonlinear_arith)
        requires
            w >= 0,
            h >= 0,
    ;
    let cw = w / 2;
    let ch = h / 2;
    assert(0 <= cw * h <= w * h) by (nonlinear_arith)
        requires
            0 <= cw <= w,
            h >= 0,
    ;
    assert(0 <= cw * ch <= w * h) by (nonlinear_arith)
        requires
            0 <= cw <= w,
            0 <= ch <= h,
    ;
}

/// Decode a frame of plain pixels.
fn decode_uncompressed(payload: &[u8], width: u32, height: u32, pixel_kind: PixelKind) -> (r:
    Result<DecodedFrame>)
    requires
        payload@.len() > 0,
        addressable(width, height),
    ensures
        decodes_to(
            r,
            width,
            height,
            pixel_kind,
            uncompressed_pixels(payload@, pixel_kind.size(width as nat, height as nat)),
        ),
{
    let n: usize = pixel_kind.buffer_len(width, height);
    if payload.len() - 1 < n {
        return Err(Error::Truncated { context: "uncompressed frame body" });
    }
    Ok(DecodedFrame { width, height, pixel_kind, pixels: wire::copy_range(payload, 1, 1 + n) })
}

/// The three kinds of frames of one colour.
#[derive(Debug, Copy, Clone, PartialEq, Eq, Structural)]
enum SolidShape {
    Grey,
    Rgb,
    Rgba,
}

impl SolidShape {
    spec fn frame_type(self) -> FrameType {
        match self {
            SolidShape::Grey => FrameType::SolidGrey,
            SolidShape::Rgb => FrameType::SolidRgb,
            SolidShape::Rgba => FrameType::SolidRgba,
        }
    }
}

/// Decode a frame of one colour.
fn decode_solid(
    payload: &[u8],
    width: u32,
    height: u32,
    pixel_kind: PixelKind,
    shape: SolidShape,
) -> (r: Result<DecodedFrame>)
    requires
        payload@.len() > 0,
        addressable(width, height),
    ensures
        decodes_to(
            r,
            width,
            height,
            pixel_kind,
            solid_pixels(
                payload@,
                width as nat * height as nat,
                pixel_kind,
                shape.frame_type(),
            ),
        ),
{
    let frame_type = match shape {
        SolidShape::Grey => FrameType::SolidGrey,
        SolidShape::Rgb => FrameType::SolidRgb,
        SolidShape::Rgba => FrameType::SolidRgba,
    };
    if !pixel_kind.is_rgb_family() {
        return Err(Error::PixelFormatMismatch { frame_type: frame_type.to_byte() });
    }
    let need: usize = match frame_type.solid_wire_size() {
        Some(n) => n,
        None => 5,
    };
    if payload.len() < need {
        return Err(Error::Truncated { context: "solid-frame colour bytes" });
    }
    let b: u8 = payload[1];
    let (g, r, a): (u8, u8, u8) = match shape {
        SolidShape::Grey => (b, b, 0xff),
        SolidShape::Rgb => (payload[2], payload[3], 0xff),
        SolidShape::Rgba => (payload[2], payload[3], payload[4]),
    };
    proof {
        lemma_sizes(width, height);
    }
    let n: usize = width as usize * height as usize;
    let pixels = match pixel_kind {
        PixelKind::Bgr24 => fill3(n, b, g, r),
        _ => fill4(n, b, g, r, a),
    };
    Ok(DecodedFrame { width, height, pixel_kind, pixels })
}

/// `n` pixels of three components.
fn fill3(n: usize, b: u8, g: u8, r: u8) -> (out: Vec<u8>)
    requires
        4 * n <= usize::MAX,
    ensures
        out@ == pixels::interleaved3(
            digits::repeat(b, n as nat),
            digits::repeat(g, n as nat),
            digits::repeat(r, n as nat),
        ),
{
    let mut out: Vec<u8> = Vec::with_capacity(3 * n);
    let ghost want = pixels::interleaved3(
        digits::repeat(b, n as nat),
        digits::repeat(g, n as nat),
        digits::repeat(r, n as nat),
    );
    let mut i: usize = 0;
    while i < n
        invariant
            i <= n,
            want == pixels::interleaved3(
                digits::repeat(b, n as nat),
                digits::repeat(g, n as nat),
                digits::repeat(r, n as nat),
            ),
            out@.len() == 3 * i,
            forall|k: int| 0 <= k < 3 * i ==> #[trigger] out@[k] == want[k],
        decreases n - i,
    {
        out.push(b);
        out.push(g);
        out.push(r);
        i = i + 1;
    }
    assert(out@ =~= want);
    out
}

/// `n` pixels of four components.
fn fill4(n: usize, b: u8, g: u8, r: u8, a: u8) -> (out: Vec<u8>)
    requires
        4 * n <= usize::MAX,
    ensures
        out@ == pixels::interleaved4(
            digits::repeat(b, n as nat),
            digits::repeat(g, n as nat),
            digits::repeat(r, n as nat),
            digits::repeat(a, n as nat),
        ),
{
    let mut out: Vec<u8> = Vec::with_capacity(4 * n);
    let ghost want = pixels::interleaved4(
        digits::repeat(b, n as nat),
        digits::repeat(g, n as nat),
        digits::repeat(r, n as nat),
        digits::repeat(a, n as nat),
    );
    let mut i: usize = 0;
    while i < n
        invariant
            i <= n,
            want == pixels::interleaved4(
                digits::repeat(b, n as nat),
                digits::repeat(g, n as nat),
                digits::repeat(r, n as nat),
                digits::repeat(a, n as nat),
            ),
            out@.len() == 4 * i,
            forall|k: int| 0 <= k < 4 * i ==> #[trigger] out@[k] == want[k],
        decreases n - i,
    {
        out.push(b);
        out.push(g);
        out.push(r);
        out.push(a);
        i = i + 1;
    }
    assert(out@ =~= want);
    out
}

/// Rebuild three RGB planes from their residuals, and undo the
/// decorrelation.
fn rebuild_rgb(
    plane_b: &mut Vec<u8>,
    plane_g: &mut Vec<u8>,
    plane_r: &mut Vec<u8>,
    width: usize,
    height: usize,
)
    requires
        old(plane_b)@.len() == width * height,
        old(plane_g)@.len() == width * height,
        old(plane_r)@.len() == width * height,
    ensures
        ({
            let m = Predictor::Median(FirstColRule::B);
            let w = width as int;
            let g = predict::rebuilt(m, w, old(plane_g)@);
            &&& final(plane_g)@ == g
            &&& final(plane_b)@ == predict::recorrelated(
                predict::rebuilt(m, w, old(plane_b)@),
                g,
            )
            &&& final(plane_r)@ == predict::recorrelated(
                predict::rebuilt(m, w, old(plane_r)@),
                g,
            )
            &&& final(plane_b)@.len() == width * height
            &&& final(plane_g)@.len() == width * height
            &&& final(plane_r)@.len() == width * height
        }),
{
    apply_plane_inverse_with_rule(plane_b.as_mut_slice(), width, height, FirstColRule::B);
    apply_plane_inverse_with_rule(plane_g.as_mut_slice(), width, height, FirstColRule::B);
    apply_plane_inverse_with_rule(plane_r.as_mut_slice(), width, height, FirstColRule::B);
    cross_plane_decorrelate_rgb(
        plane_b.as_mut_slice(),
        plane_g.as_slice(),
        plane_r.as_mut_slice(),
    );
}

/// The RGB buffer of three planes of residuals, without alpha.
fn rgb_frame(
    plane_b: Vec<u8>,
    plane_g: Vec<u8>,
    plane_r: Vec<u8>,
    width: u32,
    height: u32,
    pixel_kind: PixelKind,
) -> (r: DecodedFrame)
    requires
        addressable(width, height),
        pixel_kind.rgb(),
        plane_b@.len() == width as nat * height as nat,
        plane_g@.len() == width as nat * height as nat,
        plane_r@.len() == width as nat * height as nat,
    ensures
        r.width == width,
        r.height == height,
        r.pixel_kind == pixel_kind,
        r.wf(),
        r.pixels@ == rgb_buffer(
            pixel_kind,
            width as int,
            plane_b@,
            plane_g@,
            plane_r@,
            digits::repeat(0xff, width as nat * height as nat),
        ),
{
    let mut b = plane_b;
    let mut g = plane_g;
    let mut r = plane_r;
    rebuild_rgb(&mut b, &mut g, &mut r, width as usize, height as usize);
    let pixels = match pixel_kind {
        PixelKind::Bgr24 => pixels::interleave3(b.as_slice(), g.as_slice(), r.as_slice()),
        _ => pixels::interleave_opaque(b.as_slice(), g.as_slice(), r.as_slice()),
    };
    DecodedFrame { width, height, pixel_kind, pixels }
}

/// Decode an RGB frame.
fn decode_arith_rgb(payload: &[u8], width: u32, height: u32, pixel_kind: PixelKind) -> (r: Result<
    DecodedFrame,
>)
    requires
        payload@.len() > 0,
        addressable(width, height),
    ensures
        decodes_to(
            r,
            width,
            height,
            pixel_kind,
            rgb_pixels(payload@, width as nat, height as nat, pixel_kind),
        ),
{
    reveal(rgb_pixels);
    if !pixel_kind.is_rgb_family() {
        return Err(Error::PixelFormatMismatch { frame_type: payload[0] });
    }
    proof {
        lemma_sizes(width, height);
    }
    let n_pixels: usize = width as usize * height as usize;
    let slices = match split_channels(payload, 3) {
        Ok(s) => s,
        Err(e) => {
            return Err(e);
        },
    };
    reveal(residuals_of);
    let plane_b = match decode_channel(slices[0], n_pixels) {
        Ok(p) => p,
        Err(e) => {
            return Err(e);
        },
    };
    let plane_g = match decode_channel(slices[1], n_pixels) {
        Ok(p) => p,
        Err(e) => {
            return Err(e);
        },
    };
    let plane_r = match decode_channel(slices[2], n_pixels) {
        Ok(p) => p,
        Err(e) => {
            return Err(e);
        },
    };
    Ok(rgb_frame(plane_b, plane_g, plane_r, width, height, pixel_kind))
}

/// Decode an obsolete RGB frame.
fn decode_legacy_rgb(payload: &[u8], width: u32, height: u32, pixel_kind: PixelKind) -> (r: Result<
    DecodedFrame,
>)
    requires
        payload@.len() > 0,
        addressable(width, height),
    ensures
        decodes_to(
            r,
            width,
            height,
            pixel_kind,
            legacy_rgb_pixels(payload@, width as nat, height as nat, pixel_kind),
        ),
{
    reveal(legacy_rgb_pixels);
    if !pixel_kind.is_rgb_family() {
        return Err(Error::PixelFormatMismatch { frame_type: payload[0] });
    }
    proof {
        lemma_sizes(width, height);
    }
    let n_pixels: usize = width as usize * height as usize;
    let slices = match split_channels(payload, 3) {
        Ok(s) => s,
        Err(e) => {
            return Err(e);
        },
    };
    reveal(legacy_residuals_of);
    let plane_b = match decode_legacy_channel(slices[0], n_pixels) {
        Ok(p) => p,
        Err(e) => {
            return Err(e);
        },
    };
    let plane_g = match decode_legacy_channel(slices[1], n_pixels) {
        Ok(p) => p,
        Err(e) => {
            return Err(e);
        },
    };
    let plane_r = match decode_legacy_channel(slices[2], n_pixels) {
        Ok(p) => p,
        Err(e) => {
            return Err(e);
        },
    };
    Ok(rgb_frame(plane_b, plane_g, plane_r, width, height, pixel_kind))
}

/// Decode an RGB frame with alpha.
fn decode_arith_rgba(payload: &[u8], width: u32, height: u32, pixel_kind: PixelKind) -> (r: Result<
    DecodedFrame,
>)
    requires
        payload@.len() > 0,
        addressable(width, height),
    ensures
        decodes_to(
            r,
            width,
            height,
            pixel_kind,
            rgba_pixels(payload@, width as nat, height as nat, pixel_kind),
        ),
{
    reveal(rgba_pixels);
    if !pixel_kind.is_rgb_family() {
        return Err(Error::PixelFormatMismatch { frame_type: payload[0] });
    }
    proof {
        lemma_sizes(width, height);
    }
    let n_pixels: usize = width as usize * height as usize;
    let slices = match split_channels(payload, 4) {
        Ok(s) => s,
        Err(e) => {
            return Err(e);
        },
    };
    reveal(residuals_of);
    let mut plane_b = match decode_channel(slices[0], n_pixels) {
        Ok(p) => p,
        Err(e) => {
            return Err(e);
        },
    };
    let mut plane_g = match decode_channel(slices[1], n_pixels) {
        Ok(p) => p,
        Err(e) => {
            return Err(e);
        },
    };
    let mut plane_r = match decode_channel(slices[2], n_pixels) {
        Ok(p) => p,
        Err(e) => {
            return Err(e);
        },
    };
    let pixels = match pixel_kind {
        PixelKind::Bgr24 => {
            rebuild_rgb(
                &mut plane_b,
                &mut plane_g,
                &mut plane_r,
                width as usize,
                height as usize,
            );
            pixels::interleave3(plane_b.as_slice(), plane_g.as_slice(), plane_r.as_slice())
        },
        _ => {
            let mut plane_a = match decode_channel(slices[3], n_pixels) {
                Ok(p) => p,
                Err(e) => {
                    return Err(e);
                },
            };
            apply_plane_inverse_with_rule(
                plane_a.as_mut_slice(),
                width as usize,
                height as usize,
                FirstColRule::B,
            );
            rebuild_rgb(
                &mut plane_b,
                &mut plane_g,
                &mut plane_r,
                width as usize,
                height as usize,
            );
            pixels::interleave4(
                plane_b.as_slice(),
                plane_g.as_slice(),
                plane_r.as_slice(),
                plane_a.as_slice(),
            )
        },
    };
    Ok(DecodedFrame { width, height, pixel_kind, pixels })
}

/// Decode the three planes of a planar 4:2:0 frame into one buffer.
fn decode_yv12_planes(payload: &[u8], width: u32, height: u32) -> (r: Result<Vec<u8>>)
    requires
        payload@.len() > 0,
        addressable(width, height),
    ensures
        match yv12_pixels(payload@, width as nat, height as nat) {
            Ok(px) => r is Ok && r->Ok_0@ == px && px.len() == PixelKind::Yv12.size(
                width as nat,
                height as nat,
            ),
            Err(e) => r is Err && r->Err_0 == e,
        },
{
    reveal(yv12_pixels);
    proof {
        lemma_sizes(width, height);
    }
    let w: usize = width as usize;
    let h: usize = height as usize;
    let y_pixels: usize = w * h;
    let c_pixels: usize = y_pixels / 4;
    let slices = match split_channels(payload, 3) {
        Ok(s) => s,
        Err(e) => {
            return Err(e);
        },
    };
    reveal(residuals_of);
    let mut plane_y = match decode_channel(slices[0], y_pixels) {
        Ok(p) => p,
        Err(e) => {
            return Err(e);
        },
    };
    let mut plane_v = match decode_channel(slices[1], c_pixels) {
        Ok(p) => p,
        Err(e) => {
            return Err(e);
        },
    };
    let mut plane_u = match decode_channel(slices[2], c_pixels) {
        Ok(p) => p,
        Err(e) => {
            return Err(e);
        },
    };
    apply_plane_inverse_with_rule(plane_y.as_mut_slice(), w, h, FirstColRule::Yuv);
    let cw: usize = w / 2;
    let ch: usize = h / 2;
    if cw * ch == c_pixels {
        apply_plane_inverse_with_rule(plane_v.as_mut_slice(), cw, ch, FirstColRule::Yuv);
        apply_plane_inverse_with_rule(plane_u.as_mut_slice(), cw, ch, FirstColRule::Yuv);
    } else {
        apply_plane_inverse_with_rule(plane_v.as_mut_slice(), c_pixels, 1, FirstColRule::Yuv);
        apply_plane_inverse_with_rule(plane_u.as_mut_slice(), c_pixels, 1, FirstColRule::Yuv);
    }
    let mut out: Vec<u8> = Vec::with_capacity(y_pixels + 2 * c_pixels);
    wire::push_all(&mut out, plane_y.as_slice());
    wire::push_all(&mut out, plane_v.as_slice());
    wire::push_all(&mut out, plane_u.as_slice());
    assert(Seq::<u8>::empty() + plane_y@ =~= plane_y@);
    Ok(out)
}

/// Decode a planar 4:2:0 frame.
fn decode_arith_yv12(payload: &[u8], width: u32, height: u32, pixel_kind: PixelKind) -> (r: Result<
    DecodedFrame,
>)
    requires
        payload@.len() > 0,
        addressable(width, height),
    ensures
        decodes_to(
            r,
            width,
            height,
            pixel_kind,
            if pixel_kind is Yv12 {
                yv12_pixels(payload@, width as nat, height as nat)
            } else {
                Err(Error::PixelFormatMismatch { frame_type: payload@[0] })
            },
        ),
{
    if pixel_kind != PixelKind::Yv12 {
        return Err(Error::PixelFormatMismatch { frame_type: payload[0] });
    }
    match decode_yv12_planes(payload, width, height) {
        Ok(pixels) => Ok(DecodedFrame { width, height, pixel_kind, pixels }),
        Err(e) => Err(e),
    }
}

/// Decode a packed 4:2:2 frame.
fn decode_arith_yuy2(payload: &[u8], width: u32, height: u32, pixel_kind: PixelKind) -> (r: Result<
    DecodedFrame,
>)
    requires
        payload@.len() > 0,
        addressable(width, height),
    ensures
        decodes_to(
            r,
            width,
            height,
            pixel_kind,
            if pixel_kind is Yuy2 {
                yuy2_pixels(payload@, width as nat, height as nat)
            } else {
                Err(Error::PixelFormatMismatch { frame_type: payload@[0] })
            },
        ),
{
    reveal(yuy2_pixels);
    if pixel_kind != PixelKind::Yuy2 {
        return Err(Error::PixelFormatMismatch { frame_type: payload[0] });
    }
    proof {
        lemma_sizes(width, height);
    }
    let w: usize = width as usize;
    let h: usize = height as usize;
    let y_pixels: usize = w * h;
    let cw: usize = w / 2;
    let c_pixels: usize = cw * h;
    let slices = match split_channels(payload, 3) {
        Ok(s) => s,
        Err(e) => {
            return Err(e);
        },
    };
    reveal(residuals_of);
    let mut plane_y = match decode_channel(slices[0], y_pixels) {
        Ok(p) => p,
        Err(e) => {
            return Err(e);
        },
    };
    let mut plane_u = match decode_channel(slices[1], c_pixels) {
        Ok(p) => p,
        Err(e) => {
            return Err(e);
        },
    };
    let mut plane_v = match decode_channel(slices[2], c_pixels) {
        Ok(p) => p,
        Err(e) => {
            return Err(e);
        },
    };
    apply_plane_inverse_yuy2(plane_y.as_mut_slice(), w, h, true);
    apply_plane_inverse_yuy2(plane_u.as_mut_slice(), cw, h, false);
    apply_plane_inverse_yuy2(plane_v.as_mut_slice(), cw, h, false);
    let pixels = pixels::pack_yuy2(
        plane_y.as_slice(),
        plane_u.as_slice(),
        plane_v.as_slice(),
        w,
        h,
    );
    Ok(DecodedFrame { width, height, pixel_kind, pixels })
}

/// Decode a frame at half the width and height, and scale it up.
fn decode_reduced_res(payload: &[u8], width: u32, height: u32, pixel_kind: PixelKind) -> (r: Result<
    DecodedFrame,
>)
    requires
        payload@.len() > 0,
        addressable(width, height),
    ensures
        decodes_to(
            r,
            width,
            height,
            pixel_kind,
            if pixel_kind is Yv12 {
                reduced_pixels(payload@, width, height)
            } else {
                Err(Error::PixelFormatMismatch { frame_type: payload@[0] })
            },
        ),
{
    if pixel_kind != PixelKind::Yv12 {
        return Err(Error::PixelFormatMismatch { frame_type: payload[0] });
    }
    if width % 4 != 0 || height % 4 != 0 {
        return Err(Error::BadDimensions { width, height });
    }
    let half_w: u32 = width / 2;
    let half_h: u32 = height / 2;
    proof {
        lemma_quarters(width as int, height as int);
    }
    let half = match decode_yv12_planes(payload, half_w, half_h) {
        Ok(p) => p,
        Err(e) => {
            return Err(e);
        },
    };
    Ok(
        DecodedFrame {
            width,
            height,
            pixel_kind,
            pixels: upscale_buffer(half.as_slice(), width as usize, height as usize),
        },
    )
}

/// Scale up the planes of a planar 4:2:0 buffer at half the width and
/// height.
fn upscale_buffer(half: &[u8], width: usize, height: usize) -> (r: Vec<u8>)
    requires
        width % 4 == 0,
        height % 4 == 0,
        4 * (width * height) <= usize::MAX,
        half@.len() == PixelKind::Yv12.size(width as nat / 2, height as nat / 2),
    ensures
        r@ == upscaled_buffer(half@, width as nat, height as nat),
        r@.len() == PixelKind::Yv12.size(width as nat, height as nat),
{
    proof {
        lemma_quarters(width as int, height as int);
    }
    let small_y: usize = (width / 2) * (height / 2);
    let small_c: usize = (width / 4) * (height / 4);
    let y = pixels::upscale_plane_2x(
        vstd::slice::slice_subrange(half, 0, small_y),
        width / 2,
        height / 2,
    );
    let v = pixels::upscale_plane_2x(
        vstd::slice::slice_subrange(half, small_y, small_y + small_c),
        width / 4,
        height / 4,
    );
    let u = pixels::upscale_plane_2x(
        vstd::slice::slice_subrange(half, small_y + small_c, half.len()),
        width / 4,
        height / 4,
    );
    let mut out: Vec<u8> = Vec::with_capacity(y.len());
    wire::push_all(&mut out, y.as_slice());
    wire::push_all(&mut out, v.as_slice());
    wire::push_all(&mut out, u.as_slice());
    assert(Seq::<u8>::empty() + y@ =~= y@);
    out
}

/// The sizes of planes at half and quarter resolution.
pub proof fn lemma_quarters(w: int, h: int)
    requires
        w >= 0,
        h >= 0,
        w % 4 == 0,
        h % 4 == 0,
    ensures
        (w / 2) * (h / 2) == 4 * ((w / 4) * (h / 4)),
        w * h == 16 * ((w / 4) * (h / 4)),
        (w / 2) / 2 == w / 4,
        (h / 2) / 2 == h / 4,
        0 <= (w / 4) * (h / 4),
{
    let a = w / 4;
    let b = h / 4;
    assert((2 * a) * (2 * b) == 4 * (a * b)) by (nonlinear_arith);
    assert((4 * a) * (4 * b) == 16 * (a * b)) by (nonlinear_arith);
    assert(0 <= a * b) by (nonlinear_arith)
        requires
            a >= 0,
            b >= 0,
    ;
    assert(w / 2 == 2 * a && h / 2 == 2 * b);
    assert(w == 4 * a && h == 4 * b);
}

/// The formats that a frame type accepts are those that decoding takes: any
/// other one is refused whatever the payload holds, and none of them is
/// refused for the type byte alone.
pub proof fn law_format_gate(
    t: FrameType,
    payload: Seq<u8>,
    width: u32,
    height: u32,
    kind: PixelKind,
)
    requires
        width > 0,
        height > 0,
        payload.len() > 0,
        payload[0] == t.byte(),
    ensures
        !t.pixel_kinds().contains(kind) ==> frame_pixels(payload, width, height, kind) == Err::<
            Seq<u8>,
            Error,
        >(Error::PixelFormatMismatch { frame_type: payload[0] }),
        t.pixel_kinds().contains(kind) ==> frame_pixels(
            seq![payload[0]],
            width,
            height,
            kind,
        ) != Err::<Seq<u8>, Error>(Error::PixelFormatMismatch { frame_type: payload[0] }),
{
    reveal(rgb_pixels);
    reveal(legacy_rgb_pixels);
    reveal(rgba_pixels);
    reveal(yv12_pixels);
    reveal(yuy2_pixels);
    let ks = t.pixel_kinds();
    assert(ks.contains(kind) <==> (t is Uncompressed || (kind.rgb() && !(t is ArithmeticYuy2)
        && !t.planar_yv12()) || (kind is Yv12 && t.planar_yv12()) || (kind is Yuy2
        && t is ArithmeticYuy2))) by {
        if ks.contains(kind) {
            let i = choose|i: int| 0 <= i < ks.len() && ks[i] == kind;
            assert(ks[i] == kind);
        } else {
            assert(forall|i: int| 0 <= i < ks.len() ==> ks[i] != kind);
        }
    }
}

// ---------------------------------------------------------------------
// Repeated frames
// ---------------------------------------------------------------------

/// What a payload stands for after the frame `prev`.
pub open spec fn next_frame(
    r: Result<DecodedFrame>,
    payload: Seq<u8>,
    width: u32,
    height: u32,
    kind: PixelKind,
    prev: Option<DecodedFrame>,
) -> bool {
    if payload.len() > 0 {
        decodes_to(r, width, height, kind, frame_pixels(payload, width, height, kind))
    } else {
        match prev {
            None => r is Err && r->Err_0 == Error::NullFrameWithoutPredecessor,
            Some(p) => if p.width != width || p.height != height || p.pixel_kind != kind {
                r is Err && r->Err_0 == (Error::PixelFormatMismatch { frame_type: 0 })
            } else {
                r is Ok && r->Ok_0.same_as(&p)
            },
        }
    }
}

/// Decode one frame, where an empty payload repeats `prev`.
pub fn decode_frame_with_prev(
    payload: &[u8],
    width: u32,
    height: u32,
    pixel_kind: PixelKind,
    prev: Option<&DecodedFrame>,
) -> (r: Result<DecodedFrame>)
    requires
        addressable(width, height),
    ensures
        next_frame(
            r,
            payload@,
            width,
            height,
            pixel_kind,
            match prev {
                Some(p) => Some(*p),
                None => None,
            },
        ),
{
    if payload.len() == 0 {
        return match prev {
            Some(p) => {
                if p.width != width || p.height != height || p.pixel_kind != pixel_kind {
                    return Err(Error::PixelFormatMismatch { frame_type: 0 });
                }
                Ok(p.clone())
            },
            None => Err(Error::NullFrameWithoutPredecessor),
        };
    }
    decode_frame(payload, width, height, pixel_kind)
}

/// The frame that is kept after a result: a decoded one, or the one kept
/// before where there is none.
pub open spec fn remembers(
    before: Option<DecodedFrame>,
    r: Result<DecodedFrame>,
    after: Option<DecodedFrame>,
) -> bool {
    match r {
        Ok(f) => after is Some && after->Some_0.same_as(&f),
        Err(_) => after == before,
    }
}

/// A decoder that remembers the last frame, for empty payloads to repeat.
#[derive(Debug, Default, Clone)]
pub struct Decoder {
    /// The last frame that was decoded.
    pub prev: Option<DecodedFrame>,
}

impl Decoder {
    /// A decoder that has seen no frame.
    pub fn new() -> (r: Self)
        ensures
            r.prev is None,
    {
        Decoder { prev: None }
    }

    /// Decode one frame and remember it. A frame that is refused changes
    /// nothing.
    pub fn decode(&mut self, payload: &[u8], width: u32, height: u32, pixel_kind: PixelKind) -> (r:
        Result<DecodedFrame>)
        requires
            addressable(width, height),
        ensures
            next_frame(r, payload@, width, height, pixel_kind, old(self).prev),
            remembers(old(self).prev, r, final(self).prev),
    {
        match decode_frame_with_prev(payload, width, height, pixel_kind, self.prev.as_ref()) {
            Ok(frame) => {
                self.prev = Some(frame.clone());
                Ok(frame)
            },
            Err(e) => Err(e),
        }
    }

    /// Forget the last frame.
    pub fn reset(&mut self)
        ensures
            final(self).prev is None,
    {
        self.prev = None;
    }

    /// The last frame.
    pub fn previous(&self) -> (r: Option<&DecodedFrame>)
        ensures
            match self.prev {
                Some(p) => r == Some(&p),
                None => r is None,
            },
    {
        self.prev.as_ref()
    }
}

/// A planar frame that decodes fills its buffer.
pub proof fn law_yv12_len(payload: Seq<u8>, w: nat, h: nat)
    ensures
        yv12_pixels(payload, w, h) matches Ok(px) ==> px.len() == PixelKind::Yv12.size(w, h),
{
    reveal(yv12_pixels);
    reveal(residuals_of);
    let n = w * h;
    let c = n / 4;
    let m = Predictor::Median(FirstColRule::Yuv);
    channel::law_plane_len(frame::channel_at(payload, 3, 0), n);
    channel::law_plane_len(frame::channel_at(payload, 3, 1), c);
    channel::law_plane_len(frame::channel_at(payload, 3, 2), c);
    if yv12_pixels(payload, w, h) is Ok {
        let cw = chroma_width(w, h) as int;
        let y = residuals_of(payload, 3, 0, n).unwrap();
        let v = residuals_of(payload, 3, 1, c).unwrap();
        let u = residuals_of(payload, 3, 2, c).unwrap();
        predict::lemma_rebuilt_len(m, w as int, y, y.len());
        predict::lemma_rebuilt_len(m, cw, v, v.len());
        predict::lemma_rebuilt_len(m, cw, u, u.len());
    }
}

/// The payloads that are refused whatever they hold: an empty one, one for a
/// frame without pixels, one whose type byte is not from 1 to 11, and one
/// whose type does not hold the format.
pub proof fn law_refused_payloads(payload: Seq<u8>, width: u32, height: u32, kind: PixelKind)
    ensures
        ({
            let r = frame_pixels(payload, width, height, kind);
            let t = payload[0];
            let rgb = kind is Bgr24 || kind is Bgra32;
            &&& payload.len() == 0 ==> r == Err::<Seq<u8>, Error>(Error::NullFrame)
            &&& payload.len() > 0 && (width == 0 || height == 0) ==> r == Err::<Seq<u8>, Error>(
                Error::BadDimensions { width, height },
            )
            &&& payload.len() > 0 && width > 0 && height > 0 ==> {
                &&& t == 0 || t > 11 ==> r == Err::<Seq<u8>, Error>(Error::BadFrameType(t))
                &&& (t == 2 || 4 <= t <= 9) && !rgb ==> r == Err::<Seq<u8>, Error>(
                    Error::PixelFormatMismatch { frame_type: t },
                )
                &&& t == 3 && !(kind is Yuy2) ==> r == Err::<Seq<u8>, Error>(
                    Error::PixelFormatMismatch { frame_type: t },
                )
                &&& (t == 10 || t == 11) && !(kind is Yv12) ==> r == Err::<Seq<u8>, Error>(
                    Error::PixelFormatMismatch { frame_type: t },
                )
                &&& t == 11 && kind is Yv12 && (width % 4 != 0 || height % 4 != 0) ==> r == Err::<
                    Seq<u8>,
                    Error,
                >(Error::BadDimensions { width, height })
            }
        }),
{
    reveal(rgb_pixels);
    reveal(legacy_rgb_pixels);
    reveal(rgba_pixels);
}

/// A frame with channels is refused where its offsets are, and otherwise for
/// its first channel that does not decode. Alpha that no place is asked for
/// is not looked at.
pub proof fn law_refused_channels(f: Seq<u8>, width: u32, height: u32, kind: PixelKind)
    requires
        f.len() > 0,
        width > 0,
        height > 0,
    ensures
        ({
            let r = frame_pixels(f, width, height, kind);
            let n = width as nat * height as nat;
            let rgb = kind is Bgr24 || kind is Bgra32;
            let three = (rgb && (f[0] == 2 || f[0] == 4)) || (kind is Yv12 && f[0] == 10) || (
            kind is Yuy2 && f[0] == 3);
            let c = if f[0] == 10 {
                n / 4
            } else if f[0] == 3 {
                (width as nat / 2) * height as nat
            } else {
                n
            };
            let a = channel::plane_of(frame::channel_at(f, 3, 0), n);
            let b = channel::plane_of(frame::channel_at(f, 3, 1), c);
            let d = channel::plane_of(frame::channel_at(f, 3, 2), c);
            let p = channel::plane_of(frame::channel_at(f, 4, 3), n);
            &&& three ==> {
                &&& frame::split_error(f, 3) matches Some(e) ==> r == Err::<Seq<u8>, Error>(e)
                &&& frame::split_error(f, 3) is None ==> {
                    &&& a matches Err(e) ==> r == Err::<Seq<u8>, Error>(e)
                    &&& a is Ok ==> (b matches Err(e) ==> r == Err::<Seq<u8>, Error>(e))
                    &&& a is Ok && b is Ok ==> (d matches Err(e) ==> r == Err::<Seq<u8>, Error>(e))
                    &&& a is Ok && b is Ok && d is Ok ==> r is Ok
                }
            }
            &&& f[0] == 8 && kind is Bgr24 && r is Ok && p is Err ==> frame_pixels(
                f,
                width,
                height,
                PixelKind::Bgra32,
            ) == Err::<Seq<u8>, Error>(p->Err_0)
        }),
{
    reveal(rgb_pixels);
    reveal(rgba_pixels);
    reveal(yv12_pixels);
    reveal(yuy2_pixels);
    reveal(residuals_of);
}

/// An empty payload without a frame before it, or after one of other
/// dimensions or another format, is refused.
pub proof fn law_null_refused(
    r: Result<DecodedFrame>,
    width: u32,
    height: u32,
    kind: PixelKind,
    prev: Option<DecodedFrame>,
)
    requires
        next_frame(r, Seq::empty(), width, height, kind, prev),
    ensures
        r is Ok <==> prev is Some && prev->Some_0.width == width && prev->Some_0.height == height
            && prev->Some_0.pixel_kind == kind,
        prev is None ==> r is Err && r->Err_0 == Error::NullFrameWithoutPredecessor,
        prev is Some && r is Err ==> r->Err_0 == (Error::PixelFormatMismatch { frame_type: 0 }),
{
}

/// As [`law_refused_channels`], for obsolete frames.
pub proof fn law_refused_legacy_channels(f: Seq<u8>, width: u32, height: u32, kind: PixelKind)
    requires
        f.len() > 0,
        f[0] == 7,
        width > 0,
        height > 0,
        kind is Bgr24 || kind is Bgra32,
    ensures
        ({
            let r = frame_pixels(f, width, height, kind);
            let n = width as nat * height as nat;
            let a = channel::legacy_plane_of(frame::channel_at(f, 3, 0), n);
            let b = channel::legacy_plane_of(frame::channel_at(f, 3, 1), n);
            let d = channel::legacy_plane_of(frame::channel_at(f, 3, 2), n);
            &&& frame::split_error(f, 3) matches Some(e) ==> r == Err::<Seq<u8>, Error>(e)
            &&& frame::split_error(f, 3) is None ==> {
                &&& a matches Err(e) ==> r == Err::<Seq<u8>, Error>(e)
                &&& a is Ok ==> (b matches Err(e) ==> r == Err::<Seq<u8>, Error>(e))
                &&& a is Ok && b is Ok ==> (d matches Err(e) ==> r == Err::<Seq<u8>, Error>(e))
                &&& a is Ok && b is Ok && d is Ok ==> r is Ok
            }
        }),
{
    reveal(legacy_rgb_pixels);
    reveal(legacy_residuals_of);
}

} // verus!
