//! Frame types and the layout of frames with several channels.
//!
//! The first byte of a frame is its type. A frame with channels continues
//! with a table of little-endian 32-bit offsets, one for each channel but
//! the first, and the channels themselves.

use crate::decoder::PixelKind;
use crate::error::{Error, Result};
use crate::wire;
use vstd::prelude::*;

verus! {

/// The type of a frame.
#[derive(Debug, Copy, Clone, PartialEq, Eq, Structural)]
pub enum FrameType {
    /// 1: plain pixels.
    Uncompressed,
    /// 2: three channels, RGB with a width that is no multiple of four.
    UnalignedRgb24,
    /// 3: three channels, packed 4:2:2.
    ArithmeticYuy2,
    /// 4: three channels, RGB.
    ArithmeticRgb24,
    /// 5: one grey value.
    SolidGrey,
    /// 6: one colour.
    SolidRgb,
    /// 7: three channels, RGB, with the obsolete range coder.
    LegacyRgb,
    /// 8: four channels, RGB with alpha.
    ArithmeticRgba,
    /// 9: one colour with alpha.
    SolidRgba,
    /// 10: three channels, planar 4:2:0.
    ArithmeticYv12,
    /// 11: as 10 at half the width and height, to be scaled up.
    ReducedResYv12,
}

impl FrameType {
    /// The type byte of a frame type.
    pub open spec fn byte(self) -> int {
        match self {
            FrameType::Uncompressed => 1,
            FrameType::UnalignedRgb24 => 2,
            FrameType::ArithmeticYuy2 => 3,
            FrameType::ArithmeticRgb24 => 4,
            FrameType::SolidGrey => 5,
            FrameType::SolidRgb => 6,
            FrameType::LegacyRgb => 7,
            FrameType::ArithmeticRgba => 8,
            FrameType::SolidRgba => 9,
            FrameType::ArithmeticYv12 => 10,
            FrameType::ReducedResYv12 => 11,
        }
    }

    /// A frame of one colour.
    pub open spec fn solid(self) -> bool {
        self is SolidGrey || self is SolidRgb || self is SolidRgba
    }

    /// A planar 4:2:0 frame with channels.
    pub open spec fn planar_yv12(self) -> bool {
        self is ArithmeticYv12 || self is ReducedResYv12
    }

    /// An RGB frame with channels.
    pub open spec fn packed_rgb(self) -> bool {
        self is UnalignedRgb24 || self is ArithmeticRgb24 || self is LegacyRgb
            || self is ArithmeticRgba
    }

    /// A frame with channels.
    pub open spec fn arithmetic(self) -> bool {
        self.planar_yv12() || self is ArithmeticYuy2 || self.packed_rgb()
    }

    /// A frame with alpha.
    pub open spec fn alpha(self) -> bool {
        self is ArithmeticRgba || self is SolidRgba
    }

    /// The number of channels.
    pub open spec fn channel_count(self) -> int {
        if self is ArithmeticRgba {
            4
        } else if self.arithmetic() {
            3
        } else {
            0
        }
    }

    /// The number of bytes before the first channel or the pixel data.
    pub open spec fn header_len(self) -> int {
        if self.arithmetic() {
            1 + 4 * (self.channel_count() - 1)
        } else {
            1
        }
    }

    /// The pixel formats that a frame of this type can be decoded to.
    pub open spec fn pixel_kinds(self) -> Seq<PixelKind> {
        if self is Uncompressed {
            seq![PixelKind::Bgr24, PixelKind::Bgra32, PixelKind::Yv12, PixelKind::Yuy2]
        } else if self.planar_yv12() {
            seq![PixelKind::Yv12]
        } else if self is ArithmeticYuy2 {
            seq![PixelKind::Yuy2]
        } else {
            seq![PixelKind::Bgr24, PixelKind::Bgra32]
        }
    }

    /// The frame type of a type byte.
    pub fn from_byte(b: u8) -> (r: Result<Self>)
        ensures
            match r {
                Ok(t) => 1 <= b <= 11 && t.byte() == b,
                Err(e) => !(1 <= b <= 11) && e == Error::BadFrameType(b),
            },
    {
        match b {
            1 => Ok(FrameType::Uncompressed),
            2 => Ok(FrameType::UnalignedRgb24),
            3 => Ok(FrameType::ArithmeticYuy2),
            4 => Ok(FrameType::ArithmeticRgb24),
            5 => Ok(FrameType::SolidGrey),
            6 => Ok(FrameType::SolidRgb),
            7 => Ok(FrameType::LegacyRgb),
            8 => Ok(FrameType::ArithmeticRgba),
            9 => Ok(FrameType::SolidRgba),
            10 => Ok(FrameType::ArithmeticYv12),
            11 => Ok(FrameType::ReducedResYv12),
            _ => Err(Error::BadFrameType(b)),
        }
    }

    /// The type byte of this frame type.
    pub fn to_byte(self) -> (r: u8)
        ensures
            r == self.byte(),
            1 <= r <= 11,
    {
        match self {
            FrameType::Uncompressed => 1,
            FrameType::UnalignedRgb24 => 2,
            FrameType::ArithmeticYuy2 => 3,
            FrameType::ArithmeticRgb24 => 4,
            FrameType::SolidGrey => 5,
            FrameType::SolidRgb => 6,
            FrameType::LegacyRgb => 7,
            FrameType::ArithmeticRgba => 8,
            FrameType::SolidRgba => 9,
            FrameType::ArithmeticYv12 => 10,
            FrameType::ReducedResYv12 => 11,
        }
    }

    /// The number of channels.
    pub fn n_channels(self) -> (r: usize)
        ensures
            r == self.channel_count(),
    {
        match self {
            FrameType::Uncompressed => 0,
            FrameType::SolidGrey => 0,
            FrameType::SolidRgb => 0,
            FrameType::SolidRgba => 0,
            FrameType::ArithmeticRgba => 4,
            _ => 3,
        }
    }

    /// Whether the frame holds plain pixels.
    pub fn is_uncompressed(self) -> (r: bool)
        ensures
            r == (self is Uncompressed),
    {
        match self {
            FrameType::Uncompressed => true,
            _ => false,
        }
    }

    /// Whether the frame holds one colour.
    pub fn is_solid(self) -> (r: bool)
        ensures
            r == self.solid(),
    {
        match self {
            FrameType::SolidGrey => true,
            FrameType::SolidRgb => true,
            FrameType::SolidRgba => true,
            _ => false,
        }
    }

    /// Whether the frame has channels.
    pub fn is_arithmetic(self) -> (r: bool)
        ensures
            r == self.arithmetic(),
    {
        match self {
            FrameType::Uncompressed => false,
            FrameType::SolidGrey => false,
            FrameType::SolidRgb => false,
            FrameType::SolidRgba => false,
            _ => true,
        }
    }

    /// Whether the type is decoded for old files only.
    pub fn is_legacy_decode_only(self) -> (r: bool)
        ensures
            r == (self is LegacyRgb),
    {
        match self {
            FrameType::LegacyRgb => true,
            _ => false,
        }
    }

    /// Whether the frame holds half the width and height.
    pub fn is_reduced_resolution(self) -> (r: bool)
        ensures
            r == (self is ReducedResYv12),
    {
        match self {
            FrameType::ReducedResYv12 => true,
            _ => false,
        }
    }

    /// Whether the frame is planar 4:2:0 with channels.
    pub fn is_planar_yv12(self) -> (r: bool)
        ensures
            r == self.planar_yv12(),
    {
        match self {
            FrameType::ArithmeticYv12 => true,
            FrameType::ReducedResYv12 => true,
            _ => false,
        }
    }

    /// Whether the frame is packed 4:2:2 with channels.
    pub fn is_packed_yuy2(self) -> (r: bool)
        ensures
            r == (self is ArithmeticYuy2),
    {
        match self {
            FrameType::ArithmeticYuy2 => true,
            _ => false,
        }
    }

    /// Whether the frame is RGB with channels.
    pub fn is_packed_rgb(self) -> (r: bool)
        ensures
            r == self.packed_rgb(),
    {
        match self {
            FrameType::UnalignedRgb24 => true,
            FrameType::ArithmeticRgb24 => true,
            FrameType::LegacyRgb => true,
            FrameType::ArithmeticRgba => true,
            _ => false,
        }
    }

    /// Whether the frame holds alpha.
    pub fn has_alpha_plane(self) -> (r: bool)
        ensures
            r == self.alpha(),
    {
        match self {
            FrameType::ArithmeticRgba => true,
            FrameType::SolidRgba => true,
            _ => false,
        }
    }

    /// Whether the 64-bit encoder in the wild writes frames of this type.
    pub fn is_produced_by_v64_encoder(self) -> (r: bool)
        ensures
            r == !(self is Uncompressed || self is LegacyRgb || self is ReducedResYv12),
    {
        match self {
            FrameType::Uncompressed => false,
            FrameType::LegacyRgb => false,
            FrameType::ReducedResYv12 => false,
            _ => true,
        }
    }

    /// The number of bytes before the first channel or the pixel data.
    pub fn prefix_size(self) -> (r: usize)
        ensures
            r == self.header_len(),
            r >= 1,
    {
        if self.is_arithmetic() {
            1 + (self.n_channels() - 1) * 4
        } else {
            1
        }
    }

    /// The number of bytes of the offset table.
    pub fn channel_offset_table_size(self) -> (r: usize)
        ensures
            r == self.header_len() - 1,
    {
        self.prefix_size() - 1
    }

    /// The total size of a frame of one colour.
    pub fn solid_wire_size(self) -> (r: Option<usize>)
        ensures
            match self {
                FrameType::SolidGrey => r == Some(2usize),
                FrameType::SolidRgb => r == Some(4usize),
                FrameType::SolidRgba => r == Some(5usize),
                _ => r is None,
            },
    {
        match self {
            FrameType::SolidGrey => Some(2),
            FrameType::SolidRgb => Some(4),
            FrameType::SolidRgba => Some(5),
            _ => None,
        }
    }

    /// Whether a frame of this type can be decoded to a pixel format.
    pub fn accepts_pixel_kind(self, pixel_kind: PixelKind) -> (r: bool)
        ensures
            r == self.pixel_kinds().contains(pixel_kind),
    {
        proof {
            lemma_pixel_kinds(self);
        }
        match self {
            FrameType::Uncompressed => true,
            FrameType::ArithmeticYv12 => pixel_kind == PixelKind::Yv12,
            FrameType::ReducedResYv12 => pixel_kind == PixelKind::Yv12,
            FrameType::ArithmeticYuy2 => pixel_kind == PixelKind::Yuy2,
            _ => pixel_kind.is_rgb_family(),
        }
    }

    /// The pixel formats that a frame of this type can be decoded to.
    pub fn compatible_pixel_kinds(self) -> (r: &'static [PixelKind])
        ensures
            r@ == self.pixel_kinds(),
    {
        match self {
            FrameType::Uncompressed => {
                let kinds: &'static [PixelKind] = &[
                    PixelKind::Bgr24,
                    PixelKind::Bgra32,
                    PixelKind::Yv12,
                    PixelKind::Yuy2,
                ];
                assert(kinds@ =~= self.pixel_kinds());
                kinds
            },
            FrameType::ArithmeticYv12 | FrameType::ReducedResYv12 => {
                let kinds: &'static [PixelKind] = &[PixelKind::Yv12];
                assert(kinds@ =~= self.pixel_kinds());
                kinds
            },
            FrameType::ArithmeticYuy2 => {
                let kinds: &'static [PixelKind] = &[PixelKind::Yuy2];
                assert(kinds@ =~= self.pixel_kinds());
                kinds
            },
            _ => {
                let kinds: &'static [PixelKind] = &[PixelKind::Bgr24, PixelKind::Bgra32];
                assert(kinds@ =~= self.pixel_kinds());
                kinds
            },
        }
    }
}

/// Membership in the pixel formats of a frame type.
proof fn lemma_pixel_kinds(t: FrameType)
    ensures
        forall|k: PixelKind|
            t.pixel_kinds().contains(k) == (if t is Uncompressed {
                true
            } else if t.planar_yv12() {
                k == PixelKind::Yv12
            } else if t is ArithmeticYuy2 {
                k == PixelKind::Yuy2
            } else {
                k == PixelKind::Bgr24 || k == PixelKind::Bgra32
            }),
{
    let s = t.pixel_kinds();
    assert forall|k: PixelKind| s.contains(k) == (if t is Uncompressed {
        true
    } else if t.planar_yv12() {
        k == PixelKind::Yv12
    } else if t is ArithmeticYuy2 {
        k == PixelKind::Yuy2
    } else {
        k == PixelKind::Bgr24 || k == PixelKind::Bgra32
    }) by {
        if t is Uncompressed {
            assert(s[0] == PixelKind::Bgr24 && s[1] == PixelKind::Bgra32 && s[2]
                == PixelKind::Yv12 && s[3] == PixelKind::Yuy2);
        } else if t.planar_yv12() || t is ArithmeticYuy2 {
            assert(s.len() == 1 && s.contains(s[0]));
        } else {
            assert(s[0] == PixelKind::Bgr24 && s[1] == PixelKind::Bgra32);
        }
    }
}

/// Frame types and type bytes correspond one to one.
pub proof fn law_type_byte_injective(a: FrameType, b: FrameType)
    requires
        a.byte() == b.byte(),
    ensures
        a == b,
        1 <= a.byte() <= 11,
{
}

/// Every frame is exactly one of plain, solid and with channels; a frame
/// with channels is exactly one of planar 4:2:0, packed 4:2:2 and RGB; four
/// channels mean alpha; and every type decodes to some pixel format.
pub proof fn law_frame_type_classes(t: FrameType)
    ensures
        t is Uncompressed ==> !t.solid() && !t.arithmetic(),
        t.solid() ==> !t.arithmetic(),
        t is Uncompressed || t.solid() || t.arithmetic(),
        t.arithmetic() <==> t.planar_yv12() || t is ArithmeticYuy2 || t.packed_rgb(),
        t.planar_yv12() ==> !(t is ArithmeticYuy2) && !t.packed_rgb(),
        t is ArithmeticYuy2 ==> !t.packed_rgb(),
        t.arithmetic() ==> (t.alpha() <==> t.channel_count() == 4),
        t.alpha() ==> t.pixel_kinds().contains(PixelKind::Bgra32),
        t.alpha() ==> !t.planar_yv12() && !(t is ArithmeticYuy2),
        t.pixel_kinds().len() > 0,
{
    lemma_pixel_kinds(t);
}

// ---------------------------------------------------------------------
// Channels of a frame
// ---------------------------------------------------------------------

/// The number of bytes before the first of `n` channels.
pub open spec fn table_end(n: int) -> int {
    1 + 4 * (n - 1)
}

/// Where channel `k` of `n` starts.
pub open spec fn offset_of(frame: Seq<u8>, n: int, k: int) -> int {
    if k <= 0 {
        table_end(n)
    } else if k < n {
        wire::le32(frame, 1 + 4 * (k - 1)) as int
    } else {
        frame.len() as int
    }
}

/// Channel `k` ends where it starts or behind that, inside the frame.
pub open spec fn ordered_at(frame: Seq<u8>, n: int, k: int) -> bool {
    offset_of(frame, n, k) <= offset_of(frame, n, k + 1) && offset_of(frame, n, k) <= frame.len()
}

/// The channels follow each other inside the frame.
pub open spec fn offsets_ordered(frame: Seq<u8>, n: int) -> bool {
    forall|k: int| 0 <= k < n ==> #[trigger] ordered_at(frame, n, k)
}

/// Channel `k` of `n`.
pub open spec fn channel_at(frame: Seq<u8>, n: int, k: int) -> Seq<u8> {
    frame.subrange(offset_of(frame, n, k), offset_of(frame, n, k + 1))
}

/// Why a frame has no `n` channels, if it has none.
pub open spec fn split_error(frame: Seq<u8>, n: int) -> Option<Error> {
    if frame.len() < table_end(n) {
        Some(Error::Truncated { context: "channel-offset table" })
    } else if !offsets_ordered(frame, n) {
        Some(Error::OffsetOutOfRange)
    } else {
        None
    }
}

/// The channels of a frame with three or four of them.
pub fn split_channels(frame: &[u8], n_channels: usize) -> (r: Result<Vec<&[u8]>>)
    requires
        n_channels == 3 || n_channels == 4,
    ensures
        match split_error(frame@, n_channels as int) {
            Some(e) => r is Err && r->Err_0 == e,
            None => {
                &&& r is Ok
                &&& r->Ok_0@.len() == n_channels
                &&& forall|k: int|
                    0 <= k < n_channels ==> (#[trigger] r->Ok_0@[k])@ == channel_at(
                        frame@,
                        n_channels as int,
                        k,
                    )
            },
        },
{
    let ghost f = frame@;
    let ghost n = n_channels as int;
    let prefix: usize = 1 + (n_channels - 1) * 4;
    if frame.len() < prefix {
        return Err(Error::Truncated { context: "channel-offset table" });
    }
    let mut offsets: Vec<usize> = Vec::with_capacity(n_channels + 1);
    offsets.push(prefix);
    let mut k: usize = 1;
    while k < n_channels
        invariant
            n == n_channels,
            n == 3 || n == 4,
            f == frame@,
            frame@.len() >= table_end(n),
            1 <= k <= n,
            offsets@.len() == k,
            forall|j: int| 0 <= j < k ==> #[trigger] offsets@[j] == offset_of(f, n, j),
            forall|j: int| 0 <= j < k ==> #[trigger] offsets@[j] <= f.len(),
        decreases n - k,
    {
        let raw: u32 = wire::read_le32(frame, 1 + (k - 1) * 4);
        assert(offset_of(f, n, k as int) == raw);
        if raw as u64 > frame.len() as u64 {
            assert(!offsets_ordered(f, n)) by {
                assert(!ordered_at(f, n, k as int));
            }
            return Err(Error::OffsetOutOfRange);
        }
        offsets.push(raw as usize);
        k = k + 1;
    }
    offsets.push(frame.len());
    let mut slices: Vec<&[u8]> = Vec::with_capacity(n_channels);
    let mut i: usize = 0;
    while i < n_channels
        invariant
            n == n_channels,
            n == 3 || n == 4,
            f == frame@,
            f.len() >= table_end(n),
            0 <= i <= n,
            offsets@.len() == n + 1,
            forall|j: int| 0 <= j <= n ==> #[trigger] offsets@[j] == offset_of(f, n, j),
            forall|j: int| 0 <= j <= n ==> #[trigger] offsets@[j] <= f.len(),
            forall|j: int| 0 <= j < i ==> #[trigger] ordered_at(f, n, j),
            slices@.len() == i,
            forall|j: int|
                0 <= j < i ==> (#[trigger] slices@[j])@ == channel_at(f, n, j),
        decreases n - i,
    {
        let start: usize = offsets[i];
        let end: usize = offsets[i + 1];
        if end < start {
            assert(!offsets_ordered(f, n)) by {
                assert(!ordered_at(f, n, i as int));
            }
            return Err(Error::OffsetOutOfRange);
        }
        slices.push(vstd::slice::slice_subrange(frame, start, end));
        i = i + 1;
    }
    Ok(slices)
}

/// The contents of a list of channels.
pub open spec fn contents(channels: Seq<&[u8]>) -> Seq<Seq<u8>> {
    Seq::new(channels.len(), |k: int| channels[k]@)
}

/// The total length of the first `k` channels.
pub open spec fn length_to(chs: Seq<Seq<u8>>, k: int) -> nat
    decreases k,
{
    if k <= 0 {
        0
    } else {
        length_to(chs, k - 1) + chs[k - 1].len()
    }
}

/// The first `k` channels one after the other.
pub open spec fn joined_to(chs: Seq<Seq<u8>>, k: int) -> Seq<u8>
    decreases k,
{
    if k <= 0 {
        Seq::empty()
    } else {
        joined_to(chs, k - 1) + chs[k - 1]
    }
}

/// The first `k` entries of the offset table.
pub open spec fn offsets_to(chs: Seq<Seq<u8>>, k: int) -> Seq<u8>
    decreases k,
{
    if k <= 0 {
        Seq::empty()
    } else {
        offsets_to(chs, k - 1) + wire::le32_bytes(
            (table_end(chs.len() as int) + length_to(chs, k)) as nat,
        )
    }
}

/// The frame that holds some channels.
pub open spec fn packed(type_byte: u8, chs: Seq<Seq<u8>>) -> Seq<u8> {
    seq![type_byte] + offsets_to(chs, chs.len() - 1) + joined_to(chs, chs.len() as int)
}

/// Put three or four channels into a frame.
pub fn pack_channels(type_byte: u8, channels: &[&[u8]]) -> (out: Vec<u8>)
    requires
        channels@.len() == 3 || channels@.len() == 4,
        table_end(channels@.len() as int) + length_to(
            contents(channels@),
            channels@.len() as int,
        ) <= usize::MAX,
    ensures
        out@ == packed(type_byte, contents(channels@)),
{
    let n: usize = channels.len();
    let ghost chs = contents(channels@);
    let prefix: usize = 1 + (n - 1) * 4;
    let mut out: Vec<u8> = Vec::with_capacity(prefix);
    out.push(type_byte);
    let mut acc: usize = prefix;
    let mut k: usize = 0;
    assert(out@ =~= seq![type_byte] + offsets_to(chs, 0));
    while k < n - 1
        invariant
            n == channels@.len(),
            n == 3 || n == 4,
            chs == contents(channels@),
            prefix == table_end(n as int),
            0 <= k <= n - 1,
            table_end(n as int) + length_to(chs, n as int) <= usize::MAX,
            acc == prefix + length_to(chs, k as int),
            out@ == seq![type_byte] + offsets_to(chs, k as int),
        decreases n - k,
    {
        proof {
            lemma_length_monotone(chs, k + 1, n as int);
        }
        acc = acc + channels[k].len();
        wire::push_le32(&mut out, acc);
        k = k + 1;
        assert(out@ =~= seq![type_byte] + offsets_to(chs, k as int));
    }
    let ghost head = out@;
    let mut i: usize = 0;
    assert(out@ =~= head + joined_to(chs, 0));
    while i < n
        invariant
            n == channels@.len(),
            chs == contents(channels@),
            0 <= i <= n,
            out@ == head + joined_to(chs, i as int),
        decreases n - i,
    {
        wire::push_all(&mut out, channels[i]);
        i = i + 1;
        assert(out@ =~= head + joined_to(chs, i as int));
    }
    out
}

pub proof fn lemma_length_monotone(chs: Seq<Seq<u8>>, a: int, b: int)
    requires
        a <= b,
    ensures
        length_to(chs, a) <= length_to(chs, b),
    decreases b,
{
    if a < b && b > 0 {
        lemma_length_monotone(chs, a, b - 1);
    }
}

pub proof fn lemma_joined_len(chs: Seq<Seq<u8>>, k: int)
    ensures
        joined_to(chs, k).len() == length_to(chs, k),
    decreases k,
{
    if k > 0 {
        lemma_joined_len(chs, k - 1);
    }
}

/// Channel `k` is found behind the channels before it.
proof fn lemma_joined_part(chs: Seq<Seq<u8>>, k: int, n: int)
    requires
        0 <= k < n,
    ensures
        length_to(chs, k + 1) <= joined_to(chs, n).len(),
        joined_to(chs, n).subrange(length_to(chs, k) as int, length_to(chs, k + 1) as int)
            == chs[k],
    decreases n,
{
    lemma_joined_len(chs, n - 1);
    lemma_joined_len(chs, k);
    let j = joined_to(chs, n);
    if k == n - 1 {
        assert(j.subrange(length_to(chs, k) as int, length_to(chs, k + 1) as int) =~= chs[k]);
    } else {
        lemma_joined_part(chs, k, n - 1);
        let i = joined_to(chs, n - 1);
        assert(j.subrange(length_to(chs, k) as int, length_to(chs, k + 1) as int)
            =~= i.subrange(length_to(chs, k) as int, length_to(chs, k + 1) as int));
    }
}

pub proof fn lemma_offsets_len(chs: Seq<Seq<u8>>, k: int)
    requires
        k >= 0,
    ensures
        offsets_to(chs, k).len() == 4 * k,
    decreases k,
{
    if k > 0 {
        lemma_offsets_len(chs, k - 1);
    }
}

/// Entry `k` of the offset table of a packed frame.
proof fn lemma_offset_entry(chs: Seq<Seq<u8>>, k: int, m: int)
    requires
        1 <= k <= m,
    ensures
        forall|i: int|
            0 <= i < 4 ==> #[trigger] offsets_to(chs, m)[4 * (k - 1) + i] == wire::le32_bytes(
                (table_end(chs.len() as int) + length_to(chs, k)) as nat,
            )[i],
    decreases m,
{
    lemma_offsets_len(chs, m - 1);
    if k < m {
        lemma_offset_entry(chs, k, m - 1);
    }
}

/// Splitting a packed frame gives the channels back, as long as 32 bits can
/// address it.
pub proof fn law_split_packed(type_byte: u8, chs: Seq<Seq<u8>>)
    requires
        chs.len() == 3 || chs.len() == 4,
        packed(type_byte, chs).len() <= u32::MAX,
    ensures
        split_error(packed(type_byte, chs), chs.len() as int) is None,
        forall|k: int|
            0 <= k < chs.len() ==> #[trigger] channel_at(
                packed(type_byte, chs),
                chs.len() as int,
                k,
            ) == chs[k],
        packed(type_byte, chs).len() == table_end(chs.len() as int) + length_to(
            chs,
            chs.len() as int,
        ),
        packed(type_byte, chs)[0] == type_byte,
        forall|k: int|
            0 <= k <= chs.len() ==> #[trigger] offset_of(
                packed(type_byte, chs),
                chs.len() as int,
                k,
            ) == table_end(chs.len() as int) + length_to(chs, k),
{
    let n = chs.len() as int;
    let f = packed(type_byte, chs);
    let table = offsets_to(chs, n - 1);
    let body = joined_to(chs, n);
    lemma_offsets_len(chs, n - 1);
    lemma_joined_len(chs, n);
    assert forall|k: int| 0 <= k <= n implies #[trigger] offset_of(f, n, k) == table_end(n)
        + length_to(chs, k) by {
        if 0 < k < n {
            let v = (table_end(n) + length_to(chs, k)) as nat;
            lemma_length_monotone(chs, k, n);
            lemma_offset_entry(chs, k, n - 1);
            let p = 1 + 4 * (k - 1);
            assert(f[p] == table[4 * (k - 1) + 0]);
            assert(f[p + 1] == table[4 * (k - 1) + 1]);
            assert(f[p + 2] == table[4 * (k - 1) + 2]);
            assert(f[p + 3] == table[4 * (k - 1) + 3]);
            let b = wire::le32_bytes(v);
            wire::lemma_le32_round_trip(v, Seq::empty(), Seq::empty());
            assert(Seq::<u8>::empty() + b + Seq::<u8>::empty() =~= b);
        }
    }
    assert forall|k: int| 0 <= k < n implies #[trigger] ordered_at(f, n, k) by {
        assert(offset_of(f, n, k) == table_end(n) + length_to(chs, k));
        lemma_length_monotone(chs, k, k + 1);
        lemma_length_monotone(chs, k, n);
        assert(offset_of(f, n, k + 1) == table_end(n) + length_to(chs, k + 1));
    }
    assert forall|k: int| 0 <= k < n implies #[trigger] channel_at(f, n, k) == chs[k] by {
        lemma_joined_part(chs, k, n);
        let lo = length_to(chs, k) as int;
        let hi = length_to(chs, k + 1) as int;
        assert(offset_of(f, n, k) == table_end(n) + lo);
        assert(offset_of(f, n, k + 1) == table_end(n) + hi);
        assert(channel_at(f, n, k) =~= body.subrange(lo, hi));
    }
}

} // verus!
