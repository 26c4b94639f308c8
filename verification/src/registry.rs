//! Decoding and encoding sessions, as a media framework drives them: one
//! packet or frame goes in, one frame or packet comes out.
//!
//! A framework hands over frames as planes whose rows may be padded. An
//! encoding session strips the padding; a frame that equals the one before
//! it becomes an empty payload, which a decoding session repeats.

use crate::decoder;
use crate::decoder::{DecodedFrame, Decoder, PixelKind};
use crate::encoder;
use crate::error::Error;
use crate::predict;
use crate::round_trip;
use crate::wire;
use vstd::prelude::*;

verus! {

/// The name of the codec.
pub const CODEC_ID_STR: &'static str = "lagarith";

/// The pixel formats of a framework, as far as they matter here.
#[derive(Debug, Copy, Clone, PartialEq, Eq, Structural)]
pub enum HostFormat {
    /// Packed blue, green, red.
    Bgr24,
    /// Packed blue, green, red, alpha.
    Bgra,
    /// Planar 4:2:0.
    Yuv420P,
    /// Packed 4:2:2.
    Yuyv422,
    /// Any other format.
    Other,
}

/// The buffer format for a format of the framework, where there is one.
pub fn pixel_kind_from_format(fmt: HostFormat) -> (r: Option<PixelKind>)
    ensures
        match fmt {
            HostFormat::Bgr24 => r == Some(PixelKind::Bgr24),
            HostFormat::Bgra => r == Some(PixelKind::Bgra32),
            HostFormat::Yuv420P => r == Some(PixelKind::Yv12),
            HostFormat::Yuyv422 => r == Some(PixelKind::Yuy2),
            HostFormat::Other => r is None,
        },
{
    match fmt {
        HostFormat::Bgr24 => Some(PixelKind::Bgr24),
        HostFormat::Bgra => Some(PixelKind::Bgra32),
        HostFormat::Yuv420P => Some(PixelKind::Yv12),
        HostFormat::Yuyv422 => Some(PixelKind::Yuy2),
        HostFormat::Other => None,
    }
}

/// Why a session refuses a call or has nothing to give.
#[derive(Debug, Clone, PartialEq, Eq)]
pub enum SessionError {
    /// The result of the last call has not been taken yet.
    Busy,
    /// Nothing is left, and nothing more will come.
    Eof,
    /// Nothing is left until more is sent.
    NeedMore,
    /// The session has no dimensions.
    MissingDimensions,
    /// No frame type holds the pixel format.
    UnsupportedFormat,
    /// A frame has the wrong number of planes.
    PlaneCount {
        want: usize,
        got: usize,
    },
    /// The rows of a plane are shorter than the frame is wide.
    StrideBelowRow {
        stride: usize,
        row: usize,
    },
    /// A plane has too few rows.
    PlaneTooShort {
        len: usize,
        need: u128,
    },
    /// A plane ends before its last sample.
    SamplesMissing {
        len: usize,
        need: u128,
    },
    /// The codec refuses the data.
    Codec(Error),
}

/// A plane of a frame, row by row at a distance of `stride` bytes.
#[derive(Debug, Clone, PartialEq, Eq)]
pub struct HostPlane {
    pub stride: usize,
    pub data: Vec<u8>,
}

/// A frame with its time stamp.
#[derive(Debug, Clone, PartialEq, Eq)]
pub struct HostFrame {
    pub pts: Option<i64>,
    pub planes: Vec<HostPlane>,
}

/// A packet with its time stamp.
#[derive(Debug, Clone, PartialEq, Eq)]
pub struct HostPacket {
    pub pts: Option<i64>,
    pub data: Vec<u8>,
    /// The packet does not depend on the packets before it.
    pub keyframe: bool,
}

// ---------------------------------------------------------------------
// Planes of a decoded frame
// ---------------------------------------------------------------------

/// A plane holds some bytes at a stride.
pub open spec fn is_plane(p: HostPlane, stride: nat, data: Seq<u8>) -> bool {
    p.stride == stride && p.data@ == data
}

/// The planes of a buffer without padding.
pub open spec fn are_planes_of(
    planes: Seq<HostPlane>,
    px: Seq<u8>,
    w: nat,
    h: nat,
    kind: PixelKind,
) -> bool {
    let n = (w * h) as int;
    let c = n / 4;
    match kind {
        PixelKind::Bgr24 => planes.len() == 1 && is_plane(planes[0], 3 * w, px),
        PixelKind::Bgra32 => planes.len() == 1 && is_plane(planes[0], 4 * w, px),
        PixelKind::Yuy2 => planes.len() == 1 && is_plane(planes[0], 2 * w, px),
        PixelKind::Yv12 => {
            &&& planes.len() == 3
            &&& is_plane(planes[0], w, px.subrange(0, n))
            &&& is_plane(planes[1], w / 2, px.subrange(n, n + c))
            &&& is_plane(planes[2], w / 2, px.subrange(n + c, n + 2 * c))
        },
    }
}

/// A frame of one plane.
fn single_plane(pts: Option<i64>, stride: usize, data: Vec<u8>) -> (r: HostFrame)
    ensures
        r.pts == pts,
        r.planes@.len() == 1,
        is_plane(r.planes@[0], stride as nat, data@),
{
    let mut planes: Vec<HostPlane> = Vec::with_capacity(1);
    planes.push(HostPlane { stride, data });
    HostFrame { pts, planes }
}

/// Take a decoded frame apart into planes.
pub fn map_to_video_frame(frame: DecodedFrame, pts: Option<i64>) -> (r: HostFrame)
    requires
        frame.wf(),
        4 * frame.width <= usize::MAX,
    ensures
        r.pts == pts,
        are_planes_of(
            r.planes@,
            frame.pixels@,
            frame.width as nat,
            frame.height as nat,
            frame.pixel_kind,
        ),
{
    let w: usize = frame.width as usize;
    let h: usize = frame.height as usize;
    match frame.pixel_kind {
        PixelKind::Bgr24 => single_plane(pts, w * 3, frame.pixels),
        PixelKind::Bgra32 => single_plane(pts, w * 4, frame.pixels),
        PixelKind::Yuy2 => single_plane(pts, w * 2, frame.pixels),
        PixelKind::Yv12 => {
            let data = frame.pixels;
            proof {
                assert(w * h >= 0) by (nonlinear_arith)
                    requires
                        w >= 0,
                        h >= 0,
                ;
                assert(w * h <= data.len());
            }
            let y_pixels: usize = w * h;
            let c_pixels: usize = y_pixels / 4;
            let cw: usize = w / 2;
            let u_start: usize = y_pixels + c_pixels;
            let mut planes: Vec<HostPlane> = Vec::with_capacity(3);
            planes.push(
                HostPlane { stride: w, data: wire::copy_range(data.as_slice(), 0, y_pixels) },
            );
            planes.push(
                HostPlane {
                    stride: cw,
                    data: wire::copy_range(data.as_slice(), y_pixels, u_start),
                },
            );
            planes.push(
                HostPlane {
                    stride: cw,
                    data: wire::copy_range(data.as_slice(), u_start, data.len()),
                },
            );
            HostFrame { pts, planes }
        },
    }
}

// ---------------------------------------------------------------------
// The buffer of a frame's planes
// ---------------------------------------------------------------------

/// The first `row` bytes of each of `rows` rows.
pub open spec fn tight(data: Seq<u8>, stride: int, row: int, rows: int) -> Seq<u8> {
    Seq::new((row * rows) as nat, |i: int| data[(i / row) * stride + i % row])
}

/// A plane without its padding, or why it is refused.
pub open spec fn tight_plane(p: HostPlane, row: nat, rows: nat) -> Result<Seq<u8>, SessionError> {
    if p.stride < row {
        Err(SessionError::StrideBelowRow { stride: p.stride, row: row as usize })
    } else if p.data@.len() < p.stride * rows {
        Err(
            SessionError::PlaneTooShort {
                len: p.data@.len() as usize,
                need: (p.stride * rows) as u128,
            },
        )
    } else {
        Ok(tight(p.data@, p.stride as int, row as int, rows as int))
    }
}

/// The bytes that the first `n` samples of a plane reach over, in rows of
/// `row` samples. Without rows, the samples stand side by side.
pub open spec fn span(stride: nat, row: nat, n: nat) -> nat {
    if n == 0 {
        0
    } else if row == 0 {
        n
    } else {
        (((n - 1) as nat / row) * stride + (n - 1) as nat % row + 1) as nat
    }
}

/// The first `n` samples of a plane, in rows of `row` samples.
pub open spec fn leading(data: Seq<u8>, stride: int, row: int, n: nat) -> Seq<u8> {
    if row == 0 {
        data.take(n as int)
    } else {
        Seq::new(n, |i: int| data[(i / row) * stride + i % row])
    }
}

/// The first `n` samples of a plane, or why it is refused.
pub open spec fn leading_plane(p: HostPlane, row: nat, n: nat) -> Result<Seq<u8>, SessionError> {
    if p.stride < row {
        Err(SessionError::StrideBelowRow { stride: p.stride, row: row as usize })
    } else if p.data@.len() < span(p.stride as nat, row, n) {
        Err(
            SessionError::SamplesMissing {
                len: p.data@.len() as usize,
                need: span(p.stride as nat, row, n) as u128,
            },
        )
    } else {
        Ok(leading(p.data@, p.stride as int, row as int, n))
    }
}

/// A chroma plane of a planar frame, or why it is refused. It holds a
/// quarter as many samples as there are pixels, in rows of half the width.
/// Where these do not make `h / 2` whole rows, as can happen with odd
/// dimensions, the rows go on until there are samples enough.
pub open spec fn chroma_plane(p: HostPlane, w: nat, h: nat) -> Result<Seq<u8>, SessionError> {
    if (w / 2) * (h / 2) == (w * h) / 4 {
        tight_plane(p, w / 2, h / 2)
    } else {
        leading_plane(p, w / 2, (w * h) / 4)
    }
}

/// The buffer of a frame's planes, or why they are refused.
pub open spec fn packed_planes(planes: Seq<HostPlane>, w: nat, h: nat, kind: PixelKind) -> Result<
    Seq<u8>,
    SessionError,
> {
    if kind is Yv12 {
        if planes.len() != 3 {
            Err(SessionError::PlaneCount { want: 3, got: planes.len() as usize })
        } else {
            match tight_plane(planes[0], w, h) {
                Err(e) => Err(e),
                Ok(y) => match chroma_plane(planes[1], w, h) {
                    Err(e) => Err(e),
                    Ok(v) => match chroma_plane(planes[2], w, h) {
                        Err(e) => Err(e),
                        Ok(u) => Ok(y + v + u),
                    },
                },
            }
        }
    } else if planes.len() != 1 {
        Err(SessionError::PlaneCount { want: 1, got: planes.len() as usize })
    } else {
        let bytes: nat = match kind {
            PixelKind::Bgr24 => 3,
            PixelKind::Bgra32 => 4,
            _ => 2,
        };
        tight_plane(planes[0], bytes * w, h)
    }
}

/// A result carries what a specification says.
pub open spec fn gives(r: Result<Vec<u8>, SessionError>, s: Result<Seq<u8>, SessionError>) -> bool {
    match s {
        Ok(p) => r is Ok && r->Ok_0@ == p,
        Err(e) => r is Err && r->Err_0 == e,
    }
}

/// Strip the padding of a plane.
fn strip_padding(plane: &HostPlane, row_bytes: usize, rows: usize) -> (r: Result<
    Vec<u8>,
    SessionError,
>)
    requires
        rows <= u32::MAX,
    ensures
        gives(r, tight_plane(*plane, row_bytes as nat, rows as nat)),
{
    let stride: usize = plane.stride;
    if stride < row_bytes {
        return Err(SessionError::StrideBelowRow { stride, row: row_bytes });
    }
    assert(0 <= stride * rows <= 0xffff_ffff_ffff_ffff * 0xffff_ffff) by (nonlinear_arith)
        requires
            0 <= stride <= 0xffff_ffff_ffff_ffff,
            0 <= rows <= 0xffff_ffff,
    ;
    let need: u128 = stride as u128 * rows as u128;
    if (plane.data.len() as u128) < need {
        return Err(SessionError::PlaneTooShort { len: plane.data.len(), need });
    }
    let mut out: Vec<u8> = Vec::new();
    let ghost row = row_bytes as int;
    let ghost data = plane.data@;
    let ghost want = tight(data, stride as int, row, rows as int);
    let mut r: usize = 0;
    let mut start: usize = 0;
    while r < rows
        invariant
            data == plane.data@,
            stride == plane.stride,
            row == row_bytes,
            row_bytes <= stride,
            stride * rows <= plane.data.len(),
            want == tight(data, stride as int, row, rows as int),
            r <= rows,
            start == r * stride,
            out@.len() == r * row_bytes,
            forall|k: int| 0 <= k < r * row_bytes ==> #[trigger] out@[k] == want[k],
        decreases rows - r,
    {
        proof {
            assert((r + 1) * stride == r * stride + stride) by (nonlinear_arith);
            assert((r + 1) * stride <= stride * rows) by (nonlinear_arith)
                requires
                    r + 1 <= rows,
                    stride >= 0,
            ;
            assert((r + 1) * row_bytes == r * row_bytes + row_bytes) by (nonlinear_arith);
            assert((r + 1) * row_bytes <= row_bytes * rows) by (nonlinear_arith)
                requires
                    r + 1 <= rows,
                    row_bytes >= 0,
            ;
        }
        let ghost before = out@;
        wire::push_all(
            &mut out,
            vstd::slice::slice_subrange(plane.data.as_slice(), start, start + row_bytes),
        );
        proof {
            assert forall|k: int| 0 <= k < (r + 1) * row_bytes implies #[trigger] out@[k]
                == want[k] by {
                if k >= r * row_bytes {
                    predict::lemma_position(k, row, r as int, k - r * row_bytes);
                } else {
                    assert(out@[k] == before[k]);
                }
            }
        }
        start = start + stride;
        r = r + 1;
    }
    proof {
        assert(r * row_bytes == row_bytes * rows) by (nonlinear_arith)
            requires
                r == rows,
        ;
        assert(out@ =~= want);
    }
    Ok(out)
}

/// A sample among the first `n` of a plane lies in their span.
proof fn lemma_in_span(i: int, stride: int, row: int, n: int)
    requires
        0 <= i < n,
        0 < row <= stride,
    ensures
        0 <= (i / row) * stride,
        (i / row) * stride + i % row < span(stride as nat, row as nat, n as nat),
{
    let q = i / row;
    let last = (n - 1) / row;
    vstd::arithmetic::div_mod::lemma_fundamental_div_mod(i, row);
    vstd::arithmetic::div_mod::lemma_fundamental_div_mod(n - 1, row);
    vstd::arithmetic::div_mod::lemma_div_is_ordered(i, n - 1, row);
    vstd::arithmetic::div_mod::lemma_div_pos_is_pos(i, row);
    assert(0 <= q * stride) by (nonlinear_arith)
        requires
            0 <= q,
            0 <= stride,
    ;
    if q < last {
        assert((q + 1) * stride <= last * stride) by (nonlinear_arith)
            requires
                q + 1 <= last,
                0 <= stride,
        ;
        assert((q + 1) * stride == q * stride + stride) by (nonlinear_arith);
        assert(0 <= (n - 1) % row);
    }
}

/// Take the first samples of a plane.
fn take_leading(plane: &HostPlane, row: usize, n: usize) -> (r: Result<Vec<u8>, SessionError>)
    ensures
        gives(r, leading_plane(*plane, row as nat, n as nat)),
{
    let stride: usize = plane.stride;
    if stride < row {
        return Err(SessionError::StrideBelowRow { stride, row });
    }
    let need: u128 = if n == 0 || row == 0 {
        n as u128
    } else {
        let above: usize = (n - 1) / row;
        assert(0 <= above * stride <= 0xffff_ffff_ffff_ffff * 0xffff_ffff_ffff_ffff)
            by (nonlinear_arith)
            requires
                0 <= stride <= 0xffff_ffff_ffff_ffff,
                0 <= above <= 0xffff_ffff_ffff_ffff,
        ;
        above as u128 * stride as u128 + ((n - 1) % row) as u128 + 1
    };
    assert(need == span(stride as nat, row as nat, n as nat));
    if (plane.data.len() as u128) < need {
        return Err(SessionError::SamplesMissing { len: plane.data.len(), need });
    }
    if row == 0 {
        return Ok(wire::copy_range(plane.data.as_slice(), 0, n));
    }
    let mut out: Vec<u8> = Vec::with_capacity(n);
    let mut i: usize = 0;
    while i < n
        invariant
            i <= n,
            0 < row <= stride,
            stride == plane.stride,
            span(stride as nat, row as nat, n as nat) <= plane.data.len(),
            out@.len() == i,
            forall|k: int|
                0 <= k < i ==> #[trigger] out@[k] == plane.data@[(k / row as int) * stride + k
                    % row as int],
        decreases n - i,
    {
        proof {
            lemma_in_span(i as int, stride as int, row as int, n as int);
        }
        out.push(plane.data[(i / row) * stride + i % row]);
        i = i + 1;
    }
    assert(out@ =~= leading(plane.data@, stride as int, row as int, n as nat));
    Ok(out)
}

/// Take the samples of a chroma plane of a planar frame.
fn take_chroma(plane: &HostPlane, width: usize, height: usize) -> (r: Result<Vec<u8>, SessionError>)
    requires
        width * height <= usize::MAX,
        height <= u32::MAX,
    ensures
        gives(r, chroma_plane(*plane, width as nat, height as nat)),
{
    assert(0 <= (width / 2) * (height / 2) <= width * height) by (nonlinear_arith)
        requires
            width >= 0,
            height >= 0,
    ;
    let samples: usize = (width * height) / 4;
    if (width / 2) * (height / 2) == samples {
        strip_padding(plane, width / 2, height / 2)
    } else {
        take_leading(plane, width / 2, samples)
    }
}

/// Refuse a frame with the wrong number of planes.
fn expect_planes(planes: &Vec<HostPlane>, want: usize) -> (r: Result<(), SessionError>)
    ensures
        if planes@.len() == want {
            r is Ok
        } else {
            r is Err && r->Err_0 == (SessionError::PlaneCount {
                want,
                got: planes@.len() as usize,
            })
        },
{
    if planes.len() != want {
        return Err(SessionError::PlaneCount { want, got: planes.len() });
    }
    Ok(())
}

/// Make the buffer of a frame's planes.
pub fn pack_planes(planes: &Vec<HostPlane>, width: u32, height: u32, kind: PixelKind) -> (r: Result<
    Vec<u8>,
    SessionError,
>)
    requires
        4 * width <= usize::MAX,
    ensures
        gives(r, packed_planes(planes@, width as nat, height as nat, kind)),
        r is Ok ==> r->Ok_0@.len() == kind.size(width as nat, height as nat),
{
    proof {
        law_packed_len(planes@, width as nat, height as nat, kind);
    }
    let w: usize = width as usize;
    let h: usize = height as usize;
    match kind {
        PixelKind::Yv12 => {
            match expect_planes(planes, 3) {
                Ok(_) => {},
                Err(e) => {
                    return Err(e);
                },
            }
            let mut buf = match strip_padding(&planes[0], w, h) {
                Ok(p) => p,
                Err(e) => {
                    return Err(e);
                },
            };
            proof {
                assert(w * h <= planes@[0].stride * h) by (nonlinear_arith)
                    requires
                        w <= planes@[0].stride,
                        h >= 0,
                ;
                assert(planes@[0].data.len() == planes@[0].data@.len());
            }
            let v = match take_chroma(&planes[1], w, h) {
                Ok(p) => p,
                Err(e) => {
                    return Err(e);
                },
            };
            let u = match take_chroma(&planes[2], w, h) {
                Ok(p) => p,
                Err(e) => {
                    return Err(e);
                },
            };
            wire::push_all(&mut buf, v.as_slice());
            wire::push_all(&mut buf, u.as_slice());
            Ok(buf)
        },
        _ => {
            match expect_planes(planes, 1) {
                Ok(_) => {},
                Err(e) => {
                    return Err(e);
                },
            }
            let bytes: usize = match kind {
                PixelKind::Bgr24 => 3,
                PixelKind::Bgra32 => 4,
                _ => 2,
            };
            strip_padding(&planes[0], bytes * w, h)
        },
    }
}

/// The planes of a frame make a buffer of exactly the size of the format.
pub proof fn law_packed_len(planes: Seq<HostPlane>, w: nat, h: nat, kind: PixelKind)
    ensures
        packed_planes(planes, w, h, kind) matches Ok(px) ==> px.len() == kind.size(w, h),
{
    assert((2 * w) * h == 2 * (w * h)) by (nonlinear_arith);
    assert((3 * w) * h == 3 * (w * h)) by (nonlinear_arith);
    assert((4 * w) * h == 4 * (w * h)) by (nonlinear_arith);
    if kind is Yv12 && planes.len() == 3 {
        lemma_chroma_len(planes[1], w, h);
        lemma_chroma_len(planes[2], w, h);
    }
}

/// A chroma plane holds a quarter as many samples as there are pixels.
proof fn lemma_chroma_len(p: HostPlane, w: nat, h: nat)
    ensures
        chroma_plane(p, w, h) matches Ok(c) ==> c.len() == (w * h) / 4,
{
}

/// The planes of a buffer make the same buffer again.
pub proof fn law_planes_round_trip(
    planes: Seq<HostPlane>,
    px: Seq<u8>,
    w: nat,
    h: nat,
    kind: PixelKind,
)
    requires
        px.len() == kind.size(w, h),
        are_planes_of(planes, px, w, h, kind),
    ensures
        packed_planes(planes, w, h, kind) == Ok::<Seq<u8>, SessionError>(px),
{
    match kind {
        PixelKind::Bgr24 => {
            lemma_tight_identity(px, 3 * w, h);
            assert((3 * w) * h == 3 * (w * h)) by (nonlinear_arith);
        },
        PixelKind::Bgra32 => {
            lemma_tight_identity(px, 4 * w, h);
            assert((4 * w) * h == 4 * (w * h)) by (nonlinear_arith);
        },
        PixelKind::Yuy2 => {
            lemma_tight_identity(px, 2 * w, h);
            assert((2 * w) * h == 2 * (w * h)) by (nonlinear_arith);
        },
        PixelKind::Yv12 => {
            let n = (w * h) as int;
            let c = n / 4;
            let y = px.subrange(0, n);
            let v = px.subrange(n, n + c);
            let u = px.subrange(n + c, n + 2 * c);
            lemma_tight_identity(y, w, h);
            lemma_chroma_identity(planes[1], v, w, h);
            lemma_chroma_identity(planes[2], u, w, h);
            assert(y + v + u =~= px);
        },
    }
}

/// A chroma plane without padding is taken whole.
proof fn lemma_chroma_identity(p: HostPlane, c: Seq<u8>, w: nat, h: nat)
    requires
        is_plane(p, w / 2, c),
        c.len() == (w * h) / 4,
    ensures
        chroma_plane(p, w, h) == Ok::<Seq<u8>, SessionError>(c),
{
    let row = (w / 2) as int;
    let n = c.len() as int;
    lemma_tight_identity(c, w / 2, h / 2);
    if row == 0 {
        assert(c.take(n) =~= c);
    } else {
        if n > 0 {
            vstd::arithmetic::div_mod::lemma_fundamental_div_mod(n - 1, row);
            assert(row * ((n - 1) / row) == ((n - 1) / row) * row) by (nonlinear_arith);
        }
        let t = leading(c, row, row, n as nat);
        assert forall|i: int| 0 <= i < n implies t[i] == c[i] by {
            vstd::arithmetic::div_mod::lemma_fundamental_div_mod(i, row);
            assert(row * (i / row) == (i / row) * row) by (nonlinear_arith);
        }
        assert(t =~= c);
    }
}

/// Without padding there is nothing to strip.
proof fn lemma_tight_identity(p: Seq<u8>, row: nat, rows: nat)
    ensures
        p.len() == row * rows ==> tight(p, row as int, row as int, rows as int) == p,
{
    let r = row as int;
    if p.len() == row * rows {
        let t = tight(p, r, r, rows as int);
        assert forall|i: int| 0 <= i < p.len() implies t[i] == p[i] by {
            assert(r > 0) by (nonlinear_arith)
                requires
                    0 <= i < r * rows,
                    r >= 0,
            ;
            vstd::arithmetic::div_mod::lemma_fundamental_div_mod(i, r);
            assert(r * (i / r) == (i / r) * r) by (nonlinear_arith);
        }
        assert(t =~= p);
    }
}

// ---------------------------------------------------------------------
// Decoding sessions
// ---------------------------------------------------------------------

/// A decoding session.
#[derive(Debug)]
pub struct LagarithDecoder {
    pub width: u32,
    pub height: u32,
    pub pixel_kind: PixelKind,
    /// The packet that was sent and not decoded yet.
    pub pending: Option<HostPacket>,
    pub eof: bool,
    pub decoder: Decoder,
}

impl LagarithDecoder {
    /// A frame of the session's dimensions has an addressable buffer, and a
    /// remembered frame has the length that its dimensions ask for.
    pub open spec fn wf(&self) -> bool {
        &&& decoder::addressable(self.width, self.height)
        &&& 4 * self.width <= usize::MAX
        &&& self.decoder.prev is Some ==> self.decoder.prev->Some_0.wf()
    }

    /// A session that decodes into buffers with alpha.
    pub fn new(width: u32, height: u32) -> (r: Self)
        requires
            decoder::addressable(width, height),
            4 * width <= usize::MAX,
        ensures
            r.wf(),
            r.width == width,
            r.height == height,
            r.pixel_kind is Bgra32,
            r.pending is None,
            !r.eof,
            r.decoder.prev is None,
    {
        LagarithDecoder {
            width,
            height,
            pixel_kind: PixelKind::Bgra32,
            pending: None,
            eof: false,
            decoder: Decoder::new(),
        }
    }

    /// Hand over a packet. It is refused while another one is pending.
    pub fn send_packet(&mut self, packet: HostPacket) -> (r: Result<(), SessionError>)
        requires
            old(self).wf(),
        ensures
            final(self).wf(),
            if old(self).pending is Some {
                r is Err && r->Err_0 == SessionError::Busy && *final(self) == *old(self)
            } else {
                r is Ok && *final(self) == (LagarithDecoder {
                    pending: Some(packet),
                    ..*old(self)
                })
            },
    {
        if self.pending.is_some() {
            return Err(SessionError::Busy);
        }
        self.pending = Some(packet);
        Ok(())
    }

    /// Decode the pending packet. An empty payload repeats the last frame.
    pub fn receive_frame(&mut self) -> (r: Result<HostFrame, SessionError>)
        requires
            old(self).wf(),
        ensures
            final(self).wf(),
            final(self).pending is None,
            final(self).eof == old(self).eof,
            final(self).width == old(self).width,
            final(self).height == old(self).height,
            final(self).pixel_kind == old(self).pixel_kind,
            match old(self).pending {
                None => {
                    &&& r is Err
                    &&& r->Err_0 == (if old(self).eof {
                        SessionError::Eof
                    } else {
                        SessionError::NeedMore
                    })
                    &&& final(self).decoder == old(self).decoder
                },
                Some(pkt) => if old(self).width == 0 || old(self).height == 0 {
                    &&& r is Err
                    &&& r->Err_0 == SessionError::MissingDimensions
                    &&& final(self).decoder == old(self).decoder
                } else {
                    received(*old(self), *final(self), pkt, r)
                },
            },
    {
        let pkt = match self.pending.take() {
            Some(p) => p,
            None => {
                return if self.eof {
                    Err(SessionError::Eof)
                } else {
                    Err(SessionError::NeedMore)
                };
            },
        };
        if self.width == 0 || self.height == 0 {
            return Err(SessionError::MissingDimensions);
        }
        match self.decoder.decode(pkt.data.as_slice(), self.width, self.height, self.pixel_kind) {
            Ok(frame) => Ok(map_to_video_frame(frame, pkt.pts)),
            Err(e) => Err(SessionError::Codec(e)),
        }
    }

    /// Say that no more packets will come.
    pub fn flush(&mut self)
        ensures
            *final(self) == (LagarithDecoder { eof: true, ..*old(self) }),
    {
        self.eof = true;
    }
}

/// What a decoding session gives for a packet and what it remembers.
pub open spec fn received(
    before: LagarithDecoder,
    after: LagarithDecoder,
    pkt: HostPacket,
    r: Result<HostFrame, SessionError>,
) -> bool {
    match r {
        Ok(frame) => exists|d: DecodedFrame|
            {
                &&& #[trigger] decoder::next_frame(
                    Ok(d),
                    pkt.data@,
                    before.width,
                    before.height,
                    before.pixel_kind,
                    before.decoder.prev,
                )
                &&& frame.pts == pkt.pts
                &&& are_planes_of(
                    frame.planes@,
                    d.pixels@,
                    before.width as nat,
                    before.height as nat,
                    before.pixel_kind,
                )
                &&& after.decoder.prev is Some
                &&& after.decoder.prev->Some_0.same_as(&d)
            },
        Err(e) => {
            &&& e is Codec
            &&& decoder::next_frame(
                Err(e->Codec_0),
                pkt.data@,
                before.width,
                before.height,
                before.pixel_kind,
                before.decoder.prev,
            )
            &&& after.decoder.prev == before.decoder.prev
        },
    }
}

// ---------------------------------------------------------------------
// Encoding sessions
// ---------------------------------------------------------------------

/// The payload of a buffer after the buffer `prev`: empty where the two are
/// the same.
pub open spec fn payload_after(
    prev: Option<Seq<u8>>,
    px: Seq<u8>,
    w: nat,
    h: nat,
    kind: PixelKind,
) -> Seq<u8> {
    if prev == Some(px) {
        Seq::empty()
    } else {
        encoder::frame_for(px, w, h, kind)
    }
}

/// An encoding session.
#[derive(Debug)]
pub struct LagarithEncoder {
    pub width: u32,
    pub height: u32,
    pub pixel_kind: PixelKind,
    /// The packet that was encoded and not taken yet.
    pub pending: Option<HostPacket>,
    /// The buffer of the last frame.
    pub prev: Option<Vec<u8>>,
    pub eof: bool,
}

/// What a session's last buffer holds.
pub open spec fn last_buffer(prev: Option<Vec<u8>>) -> Option<Seq<u8>> {
    match prev {
        Some(p) => Some(p@),
        None => None,
    }
}

/// Whether two byte strings are the same.
fn same_bytes(a: &[u8], b: &[u8]) -> (r: bool)
    ensures
        r == (a@ == b@),
{
    if a.len() != b.len() {
        return false;
    }
    let mut i: usize = 0;
    while i < a.len()
        invariant
            i <= a@.len(),
            a@.len() == b@.len(),
            forall|k: int| 0 <= k < i ==> #[trigger] a@[k] == b@[k],
        decreases a@.len() - i,
    {
        if a[i] != b[i] {
            return false;
        }
        i = i + 1;
    }
    assert(a@ =~= b@);
    true
}

impl LagarithEncoder {
    /// A frame of the session's dimensions has an addressable buffer.
    pub open spec fn wf(&self) -> bool {
        &&& self.width > 0
        &&& self.height > 0
        &&& decoder::addressable(self.width, self.height)
        &&& 4 * self.width <= usize::MAX
    }

    /// A session for buffers of a format. Dimensions of zero are refused.
    pub fn new(width: u32, height: u32, pixel_kind: PixelKind) -> (r: Result<Self, SessionError>)
        requires
            decoder::addressable(width, height),
            4 * width <= usize::MAX,
        ensures
            if width == 0 || height == 0 {
                r is Err && r->Err_0 == SessionError::MissingDimensions
            } else {
                &&& r is Ok
                &&& r->Ok_0.wf()
                &&& r->Ok_0 == (LagarithEncoder {
                    width,
                    height,
                    pixel_kind,
                    pending: None,
                    prev: None,
                    eof: false,
                })
            },
    {
        if width == 0 || height == 0 {
            return Err(SessionError::MissingDimensions);
        }
        Ok(LagarithEncoder { width, height, pixel_kind, pending: None, prev: None, eof: false })
    }

    /// Encode a frame. It is refused while the packet of another one is
    /// pending. A refused frame changes nothing.
    pub fn send_frame(&mut self, frame: &HostFrame) -> (r: Result<(), SessionError>)
        requires
            old(self).wf(),
        ensures
            final(self).wf(),
            if old(self).pending is Some {
                r is Err && r->Err_0 == SessionError::Busy && *final(self) == *old(self)
            } else {
                let w = old(self).width as nat;
                let h = old(self).height as nat;
                let kind = old(self).pixel_kind;
                match packed_planes(frame.planes@, w, h, kind) {
                    Err(e) => r is Err && r->Err_0 == e && *final(self) == *old(self),
                    Ok(px) => {
                        &&& px.len() == kind.size(w, h)
                        &&& r is Ok
                        &&& final(self).width == old(self).width
                        &&& final(self).height == old(self).height
                        &&& final(self).pixel_kind == kind
                        &&& final(self).eof == old(self).eof
                        &&& last_buffer(final(self).prev) == Some(px)
                        &&& final(self).pending is Some
                        &&& final(self).pending->Some_0.pts == frame.pts
                        &&& final(self).pending->Some_0.data@ == payload_after(
                            last_buffer(old(self).prev),
                            px,
                            w,
                            h,
                            kind,
                        )
                        &&& final(self).pending->Some_0.keyframe == (last_buffer(old(self).prev)
                            != Some(px))
                    },
                }
            },
    {
        if self.pending.is_some() {
            return Err(SessionError::Busy);
        }
        let pixels = match pack_planes(&frame.planes, self.width, self.height, self.pixel_kind) {
            Ok(p) => p,
            Err(e) => {
                return Err(e);
            },
        };
        let data = match encoder::encode_frame(
            pixels.as_slice(),
            self.width,
            self.height,
            self.pixel_kind,
        ) {
            Ok(d) => d,
            Err(e) => {
                return Err(SessionError::Codec(e));
            },
        };
        let repeated = match &self.prev {
            Some(p) => same_bytes(p.as_slice(), pixels.as_slice()),
            None => false,
        };
        if repeated {
            self.pending = Some(
                HostPacket { pts: frame.pts, data: encoder::encode_null(), keyframe: false },
            );
        } else {
            self.pending = Some(HostPacket { pts: frame.pts, data, keyframe: true });
        }
        self.prev = Some(pixels);
        Ok(())
    }

    /// Take the pending packet.
    pub fn receive_packet(&mut self) -> (r: Result<HostPacket, SessionError>)
        ensures
            *final(self) == (LagarithEncoder { pending: None, ..*old(self) }),
            match old(self).pending {
                Some(p) => r is Ok && r->Ok_0 == p,
                None => r is Err && r->Err_0 == (if old(self).eof {
                    SessionError::Eof
                } else {
                    SessionError::NeedMore
                }),
            },
    {
        match self.pending.take() {
            Some(p) => Ok(p),
            None => {
                if self.eof {
                    Err(SessionError::Eof)
                } else {
                    Err(SessionError::NeedMore)
                }
            },
        }
    }

    /// Say that no more frames will come.
    pub fn flush(&mut self)
        ensures
            *final(self) == (LagarithEncoder { eof: true, ..*old(self) }),
    {
        self.eof = true;
    }
}

// ---------------------------------------------------------------------
// Starting sessions
// ---------------------------------------------------------------------

/// A dimension that may be missing; a missing one counts as zero.
pub open spec fn or_zero(d: Option<u32>) -> u32 {
    match d {
        Some(v) => v,
        None => 0,
    }
}

/// A frame of these dimensions has an addressable buffer.
pub open spec fn manageable(width: Option<u32>, height: Option<u32>) -> bool {
    decoder::addressable(or_zero(width), or_zero(height)) && 4 * or_zero(width) <= usize::MAX
}

/// Start a decoding session. Without dimensions it decodes nothing.
pub fn make_decoder(width: Option<u32>, height: Option<u32>) -> (r: LagarithDecoder)
    requires
        manageable(width, height),
    ensures
        r.wf(),
        r.width == or_zero(width),
        r.height == or_zero(height),
        r.pixel_kind is Bgra32,
        r.pending is None,
        !r.eof,
        r.decoder.prev is None,
{
    LagarithDecoder::new(dimension(width), dimension(height))
}

/// Start an encoding session. Without a format it takes buffers with alpha.
pub fn make_encoder(
    width: Option<u32>,
    height: Option<u32>,
    format: Option<HostFormat>,
) -> (r: Result<LagarithEncoder, SessionError>)
    requires
        manageable(width, height),
    ensures
        if or_zero(width) == 0 || or_zero(height) == 0 {
            r is Err && r->Err_0 == SessionError::MissingDimensions
        } else if format == Some(HostFormat::Other) {
            r is Err && r->Err_0 == SessionError::UnsupportedFormat
        } else {
            &&& r is Ok
            &&& r->Ok_0.wf()
            &&& r->Ok_0 == (LagarithEncoder {
                width: or_zero(width),
                height: or_zero(height),
                pixel_kind: match format {
                    Some(HostFormat::Bgr24) => PixelKind::Bgr24,
                    Some(HostFormat::Yuv420P) => PixelKind::Yv12,
                    Some(HostFormat::Yuyv422) => PixelKind::Yuy2,
                    _ => PixelKind::Bgra32,
                },
                pending: None,
                prev: None,
                eof: false,
            })
        },
{
    let w: u32 = dimension(width);
    let h: u32 = dimension(height);
    if w == 0 || h == 0 {
        return Err(SessionError::MissingDimensions);
    }
    let pixel_kind = match format {
        Some(fmt) => match pixel_kind_from_format(fmt) {
            Some(k) => k,
            None => {
                return Err(SessionError::UnsupportedFormat);
            },
        },
        None => PixelKind::Bgra32,
    };
    LagarithEncoder::new(w, h, pixel_kind)
}

/// A dimension that may be missing; a missing one counts as zero.
fn dimension(d: Option<u32>) -> (r: u32)
    ensures
        r == or_zero(d),
{
    match d {
        Some(v) => v,
        None => 0,
    }
}

/// A decoder that has followed an encoding session decodes its next payload
/// to the next buffer, whether that is a frame or the repetition of the
/// last one.
pub proof fn law_session_round_trip(
    r: Result<DecodedFrame, Error>,
    prev: Option<DecodedFrame>,
    px: Seq<u8>,
    width: u32,
    height: u32,
    kind: PixelKind,
)
    requires
        encoder::is_buffer(px, width, height, kind),
        prev is Some ==> prev->Some_0.width == width && prev->Some_0.height == height
            && prev->Some_0.pixel_kind == kind,
        ({
            let f = encoder::frame_for(px, width as nat, height as nat, kind);
            round_trip::without_channels(f) || round_trip::addressed(f)
        }),
        decoder::next_frame(
            r,
            payload_after(
                match prev {
                    Some(p) => Some(p.pixels@),
                    None => None,
                },
                px,
                width as nat,
                height as nat,
                kind,
            ),
            width,
            height,
            kind,
            prev,
        ),
    ensures
        r is Ok,
        r->Ok_0.pixels@ == px,
        r->Ok_0.width == width,
        r->Ok_0.height == height,
        r->Ok_0.pixel_kind == kind,
{
    round_trip::law_frame_round_trip(px, width, height, kind);
    let f = encoder::frame_for(px, width as nat, height as nat, kind);
    if f.len() == 0 {
        assert(decoder::frame_pixels(f, width, height, kind) is Err);
    }
}

/// Stripping a plane keeps the first samples of each row where they are in
/// it.
pub proof fn law_rows_kept(data: Seq<u8>, stride: int, row: int, rows: int, y: int, x: int)
    requires
        0 <= y < rows,
        0 <= x < row,
    ensures
        tight(data, stride, row, rows).len() == row * rows,
        tight(data, stride, row, rows)[y * row + x] == data[y * stride + x],
{
    predict::lemma_position(y * row + x, row, y, x);
    assert(0 <= y * row + x < row * rows) by (nonlinear_arith)
        requires
            0 <= y,
            y + 1 <= rows,
            0 <= x < row,
    ;
}

/// The planes of a planar buffer are Y, V and U, in this order, behind each
/// other in the buffer.
pub proof fn law_planar_planes(planes: Seq<HostPlane>, px: Seq<u8>, w: nat, h: nat, i: int)
    requires
        are_planes_of(planes, px, w, h, PixelKind::Yv12),
        px.len() == w * h + 2 * ((w * h) / 4),
        0 <= i,
    ensures
        planes.len() == 3,
        planes[0].stride == w,
        planes[1].stride == w / 2,
        planes[2].stride == w / 2,
        planes[0].data@.len() == w * h,
        planes[1].data@.len() == (w * h) / 4,
        planes[2].data@.len() == (w * h) / 4,
        i < w * h ==> planes[0].data@[i] == px[i],
        i < (w * h) / 4 ==> planes[1].data@[i] == px[w * h + i],
        i < (w * h) / 4 ==> planes[2].data@[i] == px[w * h + (w * h) / 4 + i],
{
}

/// Taking the first samples of a plane keeps them where they are in their
/// rows.
pub proof fn law_leading_kept(data: Seq<u8>, stride: int, row: int, n: nat, y: int, x: int)
    requires
        0 <= y,
        0 <= x < row,
        y * row + x < n,
    ensures
        leading(data, stride, row, n).len() == n,
        leading(data, stride, row, n)[y * row + x] == data[y * stride + x],
{
    predict::lemma_position(y * row + x, row, y, x);
    assert(0 <= y * row) by (nonlinear_arith)
        requires
            0 <= y,
            0 <= row,
    ;
}

/// A frame that equals the one before it becomes an empty payload, and no
/// other does.
pub proof fn law_repeated_payload(
    prev: Option<Seq<u8>>,
    px: Seq<u8>,
    width: u32,
    height: u32,
    kind: PixelKind,
)
    requires
        encoder::is_buffer(px, width, height, kind),
        ({
            let f = encoder::frame_for(px, width as nat, height as nat, kind);
            round_trip::without_channels(f) || round_trip::addressed(f)
        }),
    ensures
        payload_after(prev, px, width as nat, height as nat, kind).len() == 0 <==> (prev is Some
            && prev->Some_0 == px),
{
    round_trip::law_frame_round_trip(px, width, height, kind);
    let f = encoder::frame_for(px, width as nat, height as nat, kind);
    if f.len() == 0 {
        assert(decoder::frame_pixels(f, width, height, kind) is Err);
    }
}

} // verus!
