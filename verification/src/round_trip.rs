//! Decoding what was encoded.
//!
//! The offset table of a frame has entries of 32 bits. The laws on frames
//! with channels therefore ask for a frame that 32 bits can address.

use crate::channel_encoder;
use crate::decoder;
use crate::decoder::{DecodedFrame, PixelKind};
use crate::digits;
use crate::encoder;
use crate::error::{Error, Result};
use crate::frame;
use crate::legacy_channel_encoder;
use crate::pixels;
use crate::predict;
use crate::predict::Predictor;
use vstd::prelude::*;

verus! {

// ---------------------------------------------------------------------
// Channels in frames
// ---------------------------------------------------------------------

/// 32 bits can address a frame.
pub open spec fn addressed(f: Seq<u8>) -> bool {
    f.len() <= u32::MAX
}

/// A frame that has no channels.
pub open spec fn without_channels(f: Seq<u8>) -> bool {
    f.len() > 0 && (f[0] == 1 || f[0] == 5 || f[0] == 6 || f[0] == 9)
}

/// Three planes are found again in the frame that holds them.
proof fn lemma_best3(type_byte: u8, a: Seq<u8>, b: Seq<u8>, c: Seq<u8>)
    requires
        encoder::best3(type_byte, a, b, c).len() <= u32::MAX,
    ensures
        ({
            let f = encoder::best3(type_byte, a, b, c);
            &&& f[0] == type_byte
            &&& f.len() > 0
            &&& frame::split_error(f, 3) is None
            &&& decoder::residuals_of(f, 3, 0, a.len()) == Ok::<Seq<u8>, Error>(a)
            &&& decoder::residuals_of(f, 3, 1, b.len()) == Ok::<Seq<u8>, Error>(b)
            &&& decoder::residuals_of(f, 3, 2, c.len()) == Ok::<Seq<u8>, Error>(c)
        }),
{
    reveal(encoder::best3);
    let chs = seq![
        channel_encoder::best_form(a),
        channel_encoder::best_form(b),
        channel_encoder::best_form(c),
    ];
    frame::law_split_packed(type_byte, chs);
    channel_encoder::law_channel_round_trip(a);
    channel_encoder::law_channel_round_trip(b);
    channel_encoder::law_channel_round_trip(c);
    let f = encoder::best3(type_byte, a, b, c);
    reveal(decoder::residuals_of);
    assert(frame::channel_at(f, 3, 0) == chs[0]);
    assert(frame::channel_at(f, 3, 1) == chs[1]);
    assert(frame::channel_at(f, 3, 2) == chs[2]);
}

/// Four planes are found again in the frame that holds them.
proof fn lemma_best4(type_byte: u8, a: Seq<u8>, b: Seq<u8>, c: Seq<u8>, d: Seq<u8>)
    requires
        encoder::best4(type_byte, a, b, c, d).len() <= u32::MAX,
    ensures
        ({
            let f = encoder::best4(type_byte, a, b, c, d);
            &&& f[0] == type_byte
            &&& f.len() > 0
            &&& frame::split_error(f, 4) is None
            &&& decoder::residuals_of(f, 4, 0, a.len()) == Ok::<Seq<u8>, Error>(a)
            &&& decoder::residuals_of(f, 4, 1, b.len()) == Ok::<Seq<u8>, Error>(b)
            &&& decoder::residuals_of(f, 4, 2, c.len()) == Ok::<Seq<u8>, Error>(c)
            &&& decoder::residuals_of(f, 4, 3, d.len()) == Ok::<Seq<u8>, Error>(d)
        }),
{
    reveal(encoder::best4);
    let chs = seq![
        channel_encoder::best_form(a),
        channel_encoder::best_form(b),
        channel_encoder::best_form(c),
        channel_encoder::best_form(d),
    ];
    frame::law_split_packed(type_byte, chs);
    channel_encoder::law_channel_round_trip(a);
    channel_encoder::law_channel_round_trip(b);
    channel_encoder::law_channel_round_trip(c);
    channel_encoder::law_channel_round_trip(d);
    let f = encoder::best4(type_byte, a, b, c, d);
    reveal(decoder::residuals_of);
    assert(frame::channel_at(f, 4, 0) == chs[0]);
    assert(frame::channel_at(f, 4, 1) == chs[1]);
    assert(frame::channel_at(f, 4, 2) == chs[2]);
    assert(frame::channel_at(f, 4, 3) == chs[3]);
}

/// The length of a packed frame.
proof fn lemma_packed_len(type_byte: u8, chs: Seq<Seq<u8>>)
    requires
        chs.len() == 3 || chs.len() == 4,
    ensures
        frame::packed(type_byte, chs).len() == frame::table_end(chs.len() as int)
            + frame::length_to(chs, chs.len() as int),
{
    frame::lemma_joined_len(chs, chs.len() as int);
    frame::lemma_offsets_len(chs, chs.len() - 1);
}

// ---------------------------------------------------------------------
// Plain and solid frames
// ---------------------------------------------------------------------

/// A frame of plain pixels decodes to them.
pub proof fn law_raw_frame(px: Seq<u8>, width: u32, height: u32, kind: PixelKind)
    requires
        encoder::is_buffer(px, width, height, kind),
    ensures
        decoder::frame_pixels(encoder::raw_frame(px), width, height, kind) == Ok::<Seq<u8>, Error>(
            px,
        ),
{
    let f = encoder::raw_frame(px);
    assert(f[0] == 1);
    assert(f.subrange(1, 1 + px.len() as int) =~= px);
}

/// A frame of one grey decodes to a buffer of that grey, opaque where the
/// format has alpha.
pub proof fn law_solid_grey(v: u8, width: u32, height: u32)
    requires
        width > 0,
        height > 0,
    ensures
        ({
            let p = digits::repeat(v, width as nat * height as nat);
            let ff = digits::repeat(0xff, width as nat * height as nat);
            &&& decoder::frame_pixels(seq![5u8, v], width, height, PixelKind::Bgr24) == Ok::<
                Seq<u8>,
                Error,
            >(pixels::interleaved3(p, p, p))
            &&& decoder::frame_pixels(seq![5u8, v], width, height, PixelKind::Bgra32) == Ok::<
                Seq<u8>,
                Error,
            >(pixels::interleaved4(p, p, p, ff))
        }),
{
}

/// A frame of one colour decodes to a buffer of that colour, opaque where
/// the format has alpha.
pub proof fn law_solid_rgb(b: u8, g: u8, r: u8, width: u32, height: u32)
    requires
        width > 0,
        height > 0,
    ensures
        ({
            let n = width as nat * height as nat;
            let rb = digits::repeat(b, n);
            let rg = digits::repeat(g, n);
            let rr = digits::repeat(r, n);
            let ff = digits::repeat(0xff, n);
            let f = seq![6u8, b, g, r];
            &&& decoder::frame_pixels(f, width, height, PixelKind::Bgr24) == Ok::<Seq<u8>, Error>(
                pixels::interleaved3(rb, rg, rr),
            )
            &&& decoder::frame_pixels(f, width, height, PixelKind::Bgra32) == Ok::<Seq<u8>, Error>(
                pixels::interleaved4(rb, rg, rr, ff),
            )
        }),
{
}

/// A frame of one colour with alpha decodes to a buffer of that colour; a
/// format without alpha drops it.
pub proof fn law_solid_rgba(b: u8, g: u8, r: u8, a: u8, width: u32, height: u32)
    requires
        width > 0,
        height > 0,
    ensures
        ({
            let n = width as nat * height as nat;
            let rb = digits::repeat(b, n);
            let rg = digits::repeat(g, n);
            let rr = digits::repeat(r, n);
            let ra = digits::repeat(a, n);
            let f = seq![9u8, b, g, r, a];
            &&& decoder::frame_pixels(f, width, height, PixelKind::Bgr24) == Ok::<Seq<u8>, Error>(
                pixels::interleaved3(rb, rg, rr),
            )
            &&& decoder::frame_pixels(f, width, height, PixelKind::Bgra32) == Ok::<Seq<u8>, Error>(
                pixels::interleaved4(rb, rg, rr, ra),
            )
        }),
{
}

// ---------------------------------------------------------------------
// RGB frames
// ---------------------------------------------------------------------

/// Rebuilding the residuals of an RGB plane and adding green gives the
/// plane back.
proof fn lemma_colour_plane(c: Seq<u8>, g: Seq<u8>, w: int)
    requires
        w > 0,
    ensures
        predict::recorrelated(
            predict::rebuilt(encoder::rgb_predictor(), w, encoder::colour_residuals(c, g, w)),
            g,
        ) == c,
        predict::rebuilt(
            encoder::rgb_predictor(),
            w,
            predict::residuals(encoder::rgb_predictor(), w, g),
        ) == g,
{
    let m = encoder::rgb_predictor();
    predict::law_rebuild_residuals(m, w, predict::decorrelated(c, g));
    predict::law_rebuild_residuals(m, w, g);
    predict::law_decorrelation_inverts(c, g);
}

/// A buffer of three components with an opaque fourth.
pub open spec fn with_alpha(px: Seq<u8>) -> Seq<u8> {
    pixels::interleaved4(
        pixels::component3(px, 0),
        pixels::component3(px, 1),
        pixels::component3(px, 2),
        digits::repeat(0xff, px.len() / 3),
    )
}

/// The buffer of the residuals of a buffer of three components.
proof fn lemma_rgb_buffer(px: Seq<u8>, w: int, kind: PixelKind)
    requires
        w > 0,
        px.len() % 3 == 0,
        kind.rgb(),
    ensures
        decoder::rgb_buffer(
            kind,
            w,
            encoder::blue_residuals(px, w),
            encoder::green_residuals(px, w),
            encoder::red_residuals(px, w),
            digits::repeat(0xff, px.len() / 3),
        ) == (if kind is Bgr24 {
            px
        } else {
            with_alpha(px)
        }),
{
    let g = pixels::component3(px, 1);
    lemma_colour_plane(pixels::component3(px, 0), g, w);
    lemma_colour_plane(pixels::component3(px, 2), g, w);
    pixels::law_interleave3(px);
}

/// An RGB frame decodes to its pixels; in a format with alpha, they are
/// opaque.
pub proof fn law_rgb24_frame(px: Seq<u8>, width: u32, height: u32)
    requires
        encoder::is_buffer(px, width, height, PixelKind::Bgr24),
        addressed(encoder::rgb24_frame(px, width as nat)),
    ensures
        ({
            let f = encoder::rgb24_frame(px, width as nat);
            &&& decoder::frame_pixels(f, width, height, PixelKind::Bgr24) == Ok::<Seq<u8>, Error>(
                px,
            )
            &&& decoder::frame_pixels(f, width, height, PixelKind::Bgra32) == Ok::<Seq<u8>, Error>(
                with_alpha(px),
            )
            &&& f[0] == if width % 4 == 0 {
                4u8
            } else {
                2u8
            }
        }),
{
    reveal(decoder::rgb_pixels);
    let w = width as int;
    let n = width as nat * height as nat;
    assert(px.len() == 3 * n);
    let type_byte: u8 = if width % 4 == 0 {
        4
    } else {
        2
    };
    lemma_best3(
        type_byte,
        encoder::blue_residuals(px, w),
        encoder::green_residuals(px, w),
        encoder::red_residuals(px, w),
    );
    lemma_rgb_buffer(px, w, PixelKind::Bgr24);
    lemma_rgb_buffer(px, w, PixelKind::Bgra32);
}

/// A buffer of four components without its alpha, as three components.
proof fn lemma_without_alpha(px: Seq<u8>)
    requires
        px.len() % 4 == 0,
    ensures
        encoder::without_alpha(px).len() == 3 * (px.len() / 4),
        pixels::component3(encoder::without_alpha(px), 0) == pixels::component4(px, 0),
        pixels::component3(encoder::without_alpha(px), 1) == pixels::component4(px, 1),
        pixels::component3(encoder::without_alpha(px), 2) == pixels::component4(px, 2),
{
    let q = encoder::without_alpha(px);
    assert(pixels::component3(q, 0) =~= pixels::component4(px, 0));
    assert(pixels::component3(q, 1) =~= pixels::component4(px, 1));
    assert(pixels::component3(q, 2) =~= pixels::component4(px, 2));
}

/// The buffers of the residuals of a buffer of four components.
proof fn lemma_rgba_buffer(px: Seq<u8>, w: int)
    requires
        w > 0,
        px.len() % 4 == 0,
    ensures
        ({
            let m = encoder::rgb_predictor();
            let g = pixels::component4(px, 1);
            let b = encoder::colour_residuals(pixels::component4(px, 0), g, w);
            let r = encoder::colour_residuals(pixels::component4(px, 2), g, w);
            let rg = predict::residuals(m, w, g);
            let a = predict::rebuilt(
                m,
                w,
                predict::residuals(m, w, pixels::component4(px, 3)),
            );
            &&& decoder::rgb_buffer(PixelKind::Bgra32, w, b, rg, r, a) == px
            &&& decoder::rgb_buffer(PixelKind::Bgr24, w, b, rg, r, Seq::empty())
                == encoder::without_alpha(px)
        }),
{
    let g = pixels::component4(px, 1);
    lemma_colour_plane(pixels::component4(px, 0), g, w);
    lemma_colour_plane(pixels::component4(px, 2), g, w);
    predict::law_rebuild_residuals(encoder::rgb_predictor(), w, pixels::component4(px, 3));
    pixels::law_interleave4(px);
}

/// A frame with alpha decodes to its pixels; in a format without alpha, the
/// colours alone.
pub proof fn law_rgba_frame(px: Seq<u8>, width: u32, height: u32)
    requires
        encoder::is_buffer(px, width, height, PixelKind::Bgra32),
        addressed(encoder::rgba_frame(px, width as nat)),
    ensures
        ({
            let f = encoder::rgba_frame(px, width as nat);
            &&& decoder::frame_pixels(f, width, height, PixelKind::Bgra32) == Ok::<Seq<u8>, Error>(
                px,
            )
            &&& decoder::frame_pixels(f, width, height, PixelKind::Bgr24) == Ok::<Seq<u8>, Error>(
                encoder::without_alpha(px),
            )
            &&& f[0] == 8
        }),
{
    let w = width as int;
    let m = encoder::rgb_predictor();
    let g = pixels::component4(px, 1);
    lemma_best4(
        8,
        encoder::colour_residuals(pixels::component4(px, 0), g, w),
        predict::residuals(m, w, g),
        encoder::colour_residuals(pixels::component4(px, 2), g, w),
        predict::residuals(m, w, pixels::component4(px, 3)),
    );
    lemma_rgba_buffer(px, w);
    let f = encoder::rgba_frame(px, width as nat);
    let n = width as nat * height as nat;
    assert(pixels::component4(px, 0).len() == n);
    assert(decoder::rgba_pixels(f, width as nat, height as nat, PixelKind::Bgra32) == Ok::<
        Seq<u8>,
        Error,
    >(px)) by {
        reveal(decoder::rgba_pixels);
    }
    assert(decoder::rgba_pixels(f, width as nat, height as nat, PixelKind::Bgr24) == Ok::<
        Seq<u8>,
        Error,
    >(encoder::without_alpha(px))) by {
        reveal(decoder::rgba_pixels);
    }
}

/// An obsolete RGB frame decodes to its pixels.
pub proof fn law_legacy_frame(px: Seq<u8>, width: u32, height: u32)
    requires
        encoder::is_buffer(px, width, height, PixelKind::Bgr24),
        encoder::legacy_sized(width as nat, height as nat),
    ensures
        decoder::frame_pixels(
            encoder::legacy_frame(px, width as nat),
            width,
            height,
            PixelKind::Bgr24,
        ) == Ok::<Seq<u8>, Error>(px),
        decoder::frame_pixels(
            encoder::or_raw(encoder::legacy_frame(px, width as nat), px),
            width,
            height,
            PixelKind::Bgr24,
        ) == Ok::<Seq<u8>, Error>(px),
        encoder::legacy_frame(px, width as nat)[0] == if encoder::needs_raw(px, width as int) {
            1u8
        } else {
            7u8
        },
{
    let w = width as int;
    let b = encoder::blue_residuals(px, w);
    let g = encoder::green_residuals(px, w);
    let r = encoder::red_residuals(px, w);
    law_raw_frame(px, width, height, PixelKind::Bgr24);
    if !encoder::needs_raw(px, w) {
        legacy_channel_encoder::law_form_lengths(b);
        legacy_channel_encoder::law_form_lengths(g);
        legacy_channel_encoder::law_form_lengths(r);
        legacy_channel_encoder::law_channel_round_trip(b);
        legacy_channel_encoder::law_channel_round_trip(g);
        legacy_channel_encoder::law_channel_round_trip(r);
        lemma_legacy_frame(
            px,
            width,
            height,
            seq![
                legacy_channel_encoder::best_form(b),
                legacy_channel_encoder::best_form(g),
                legacy_channel_encoder::best_form(r),
            ],
        );
    }
}

/// An obsolete RGB frame with escapes in its frequency tables decodes to its
/// pixels.
#[verifier::spinoff_prover]
#[verifier::rlimit(40)]
pub proof fn law_legacy_rle_frame(px: Seq<u8>, width: u32, height: u32, e: nat)
    requires
        1 <= e <= 3,
        encoder::is_buffer(px, width, height, PixelKind::Bgr24),
        encoder::legacy_sized(width as nat, height as nat),
    ensures
        decoder::frame_pixels(
            encoder::legacy_rle_frame(px, width as nat, e),
            width,
            height,
            PixelKind::Bgr24,
        ) == Ok::<Seq<u8>, Error>(px),
        encoder::legacy_rle_frame(px, width as nat, e)[0] == if encoder::needs_raw(
            px,
            width as int,
        ) || !encoder::legacy_tables_valid(px, width as int, e) {
            1u8
        } else {
            7u8
        },
{
    let w = width as int;
    let b = encoder::blue_residuals(px, w);
    let g = encoder::green_residuals(px, w);
    let r = encoder::red_residuals(px, w);
    law_raw_frame(px, width, height, PixelKind::Bgr24);
    if !encoder::needs_raw(px, w) && encoder::legacy_tables_valid(px, w, e) {
        legacy_channel_encoder::law_form_lengths(b);
        legacy_channel_encoder::law_form_lengths(g);
        legacy_channel_encoder::law_form_lengths(r);
        legacy_channel_encoder::law_rle_form(b, e);
        legacy_channel_encoder::law_rle_form(g, e);
        legacy_channel_encoder::law_rle_form(r, e);
        lemma_legacy_frame(
            px,
            width,
            height,
            seq![
                legacy_channel_encoder::rle_form(b, e),
                legacy_channel_encoder::rle_form(g, e),
                legacy_channel_encoder::rle_form(r, e),
            ],
        );
    }
}

/// Channels that decode to the residuals of a buffer make an obsolete frame
/// that decodes to the buffer.
proof fn lemma_legacy_frame(px: Seq<u8>, width: u32, height: u32, chs: Seq<Seq<u8>>)
    requires
        encoder::is_buffer(px, width, height, PixelKind::Bgr24),
        encoder::legacy_sized(width as nat, height as nat),
        chs.len() == 3,
        ({
            let w = width as int;
            let n = width as nat * height as nat;
            let b = encoder::blue_residuals(px, w);
            let g = encoder::green_residuals(px, w);
            let r = encoder::red_residuals(px, w);
            &&& crate::channel::legacy_plane_of(chs[0], n) == Ok::<Seq<u8>, Error>(b)
            &&& crate::channel::legacy_plane_of(chs[1], n) == Ok::<Seq<u8>, Error>(g)
            &&& crate::channel::legacy_plane_of(chs[2], n) == Ok::<Seq<u8>, Error>(r)
            &&& chs[0].len() <= 3 * n + 4096
            &&& chs[1].len() <= 3 * n + 4096
            &&& chs[2].len() <= 3 * n + 4096
        }),
    ensures
        decoder::frame_pixels(frame::packed(7, chs), width, height, PixelKind::Bgr24) == Ok::<
            Seq<u8>,
            Error,
        >(px),
{
    let f = frame::packed(7, chs);
    let n = width as nat * height as nat;
    let w = width as int;
    encoder::lemma_length3(chs);
    lemma_packed_len(7, chs);
    frame::law_split_packed(7, chs);
    assert(decoder::legacy_residuals_of(f, 0, n) == crate::channel::legacy_plane_of(chs[0], n)) by {
        reveal(decoder::legacy_residuals_of);
        assert(frame::channel_at(f, 3, 0) == chs[0]);
    }
    assert(decoder::legacy_residuals_of(f, 1, n) == crate::channel::legacy_plane_of(chs[1], n)) by {
        reveal(decoder::legacy_residuals_of);
        assert(frame::channel_at(f, 3, 1) == chs[1]);
    }
    assert(decoder::legacy_residuals_of(f, 2, n) == crate::channel::legacy_plane_of(chs[2], n)) by {
        reveal(decoder::legacy_residuals_of);
        assert(frame::channel_at(f, 3, 2) == chs[2]);
    }
    lemma_rgb_buffer(px, w, PixelKind::Bgr24);
    assert(px.len() / 3 == n);
    assert(decoder::legacy_rgb_pixels(f, width as nat, height as nat, PixelKind::Bgr24) == Ok::<
        Seq<u8>,
        Error,
    >(px)) by {
        reveal(decoder::legacy_rgb_pixels);
    }
}

// ---------------------------------------------------------------------
// Luma and chroma frames
// ---------------------------------------------------------------------

/// Rebuilding the residuals of a plane gives the plane back, also where the
/// plane is empty.
proof fn lemma_plane(m: Predictor, w: int, p: Seq<u8>)
    requires
        w > 0 || p.len() == 0,
    ensures
        predict::rebuilt(m, w, predict::residuals(m, w, p)) == p,
{
    if w > 0 {
        predict::law_rebuild_residuals(m, w, p);
    } else {
        assert(predict::rebuilt(m, w, predict::residuals(m, w, p)) =~= p);
    }
}

/// Chroma without a row length has no samples.
proof fn lemma_chroma_width(w: nat, h: nat)
    ensures
        decoder::chroma_width(w, h) == 0 ==> (w * h) / 4 == 0,
{
    if decoder::chroma_width(w, h) == 0 {
        assert(0 * (h / 2) == 0) by (nonlinear_arith);
    }
}

/// The planes of a planar frame are found again.
proof fn lemma_planar_frame(type_byte: u8, px: Seq<u8>, w: nat, h: nat)
    requires
        w > 0,
        h > 0,
        px.len() == PixelKind::Yv12.size(w, h),
        addressed(encoder::planar_frame(type_byte, px, w, h)),
    ensures
        ({
            let f = encoder::planar_frame(type_byte, px, w, h);
            &&& decoder::yv12_pixels(f, w, h) == Ok::<Seq<u8>, Error>(px)
            &&& f[0] == type_byte
            &&& f.len() > 0
        }),
{
    let n = (w * h) as int;
    let c = n / 4;
    let cw = decoder::chroma_width(w, h) as int;
    let m = encoder::yuv_predictor();
    let y = px.subrange(0, n);
    let v = px.subrange(n, n + c);
    let u = px.subrange(n + c, n + 2 * c);
    lemma_chroma_width(w, h);
    lemma_best3(
        type_byte,
        predict::residuals(m, w as int, y),
        predict::residuals(m, cw, v),
        predict::residuals(m, cw, u),
    );
    lemma_plane(m, w as int, y);
    lemma_plane(m, cw, v);
    lemma_plane(m, cw, u);
    assert(y + v + u =~= px);
    let f = encoder::planar_frame(type_byte, px, w, h);
    assert(decoder::yv12_pixels(f, w, h) == Ok::<Seq<u8>, Error>(y + v + u)) by {
        reveal(decoder::yv12_pixels);
    }
}

/// A planar 4:2:0 frame decodes to its pixels.
pub proof fn law_yv12_frame(px: Seq<u8>, width: u32, height: u32)
    requires
        encoder::is_buffer(px, width, height, PixelKind::Yv12),
        addressed(encoder::yv12_frame(px, width as nat, height as nat)),
    ensures
        decoder::frame_pixels(
            encoder::yv12_frame(px, width as nat, height as nat),
            width,
            height,
            PixelKind::Yv12,
        ) == Ok::<Seq<u8>, Error>(px),
        encoder::yv12_frame(px, width as nat, height as nat)[0] == 10,
{
    lemma_planar_frame(10, px, width as nat, height as nat);
}

/// A packed 4:2:2 frame decodes to its pixels, as long as chroma without a
/// partner column is neutral.
pub proof fn law_yuy2_frame(px: Seq<u8>, width: u32, height: u32)
    requires
        encoder::is_buffer(px, width, height, PixelKind::Yuy2),
        pixels::neutral_tails(px, width as int),
        addressed(encoder::yuy2_frame(px, width as nat, height as nat)),
    ensures
        decoder::frame_pixels(
            encoder::yuy2_frame(px, width as nat, height as nat),
            width,
            height,
            PixelKind::Yuy2,
        ) == Ok::<Seq<u8>, Error>(px),
        encoder::yuy2_frame(px, width as nat, height as nat)[0] == 3,
{
    reveal(decoder::yuy2_pixels);
    let w = width as int;
    let h = height as int;
    let cw = w / 2;
    let luma = Predictor::Packed { luma: true };
    let chroma = Predictor::Packed { luma: false };
    let y = pixels::luma_plane(px);
    let u = pixels::chroma_plane(px, w, h, 0);
    let v = pixels::chroma_plane(px, w, h, 1);
    assert(0 <= cw * h) by (nonlinear_arith)
        requires
            cw >= 0,
            h >= 0,
    ;
    assert(2 * (cw * h) <= w * h) by (nonlinear_arith)
        requires
            2 * cw <= w,
            h >= 0,
    ;
    assert(cw == 0 ==> cw * h == 0) by (nonlinear_arith);
    lemma_best3(
        3,
        predict::residuals(luma, w, y),
        predict::residuals(chroma, cw, u),
        predict::residuals(chroma, cw, v),
    );
    lemma_plane(luma, w, y);
    lemma_plane(chroma, cw, u);
    lemma_plane(chroma, cw, v);
    pixels::law_pack_yuy2(px, w, h);
}

/// The length of a buffer at half the width and height.
proof fn lemma_halved_len(px: Seq<u8>, w: nat, h: nat)
    requires
        w % 4 == 0,
        h % 4 == 0,
        px.len() == PixelKind::Yv12.size(w, h),
    ensures
        encoder::halved(px, w, h).len() == PixelKind::Yv12.size(w / 2, h / 2),
        encoder::halved(px, w, h).len() <= px.len(),
{
    decoder::lemma_quarters(w as int, h as int);
}

/// The width of plane `k` of a planar buffer: of the luma plane, or of one
/// of the two chroma planes.
pub open spec fn plane_width(w: int, k: int) -> int {
    if k == 0 {
        w
    } else {
        w / 2
    }
}

/// The height of plane `k` of a planar buffer.
pub open spec fn plane_height(h: int, k: int) -> int {
    if k == 0 {
        h
    } else {
        h / 2
    }
}

/// Where plane `k` of a planar buffer starts.
pub open spec fn plane_start(w: int, h: int, k: int) -> int {
    if k == 0 {
        0
    } else if k == 1 {
        w * h
    } else {
        w * h + (w * h) / 4
    }
}

/// The sample at row `y` and column `x` of plane `k` of a planar buffer.
pub open spec fn planar_sample(px: Seq<u8>, w: int, h: int, k: int, y: int, x: int) -> u8 {
    px[plane_start(w, h, k) + (y * plane_width(w, k) + x)]
}

/// A place in a plane of a planar buffer.
pub open spec fn is_place(w: int, h: int, k: int, y: int, x: int) -> bool {
    &&& 0 <= k < 3
    &&& 0 <= y < plane_height(h, k)
    &&& 0 <= x < plane_width(w, k)
}

/// A sample of a buffer that was scaled up is the one of its block.
proof fn lemma_upscaled_place(half: Seq<u8>, w: int, h: int, k: int, y: int, x: int)
    requires
        w >= 0,
        h >= 0,
        w % 4 == 0,
        h % 4 == 0,
        half.len() == PixelKind::Yv12.size((w / 2) as nat, (h / 2) as nat),
        is_place(w, h, k, y, x),
    ensures
        planar_sample(decoder::upscaled_buffer(half, w as nat, h as nat), w, h, k, y, x)
            == planar_sample(half, w / 2, h / 2, k, y / 2, x / 2),
{
    decoder::lemma_quarters(w, h);
    let n = (w / 2) * (h / 2);
    let c = (w / 4) * (h / 4);
    let (s, sw, sh) = if k == 0 {
        (half.subrange(0, n), w / 2, h / 2)
    } else if k == 1 {
        (half.subrange(n, n + c), w / 4, h / 4)
    } else {
        (half.subrange(n + c, half.len() as int), w / 4, h / 4)
    };
    pixels::lemma_upscaled_sample(s, sw, sh, y, x);
    assert(2 * sw == plane_width(w, k));
    assert(sw == plane_width(w / 2, k));
    lemma_in_plane(y / 2, x / 2, sw, sh);
}

/// A place in a plane has an index in it.
proof fn lemma_in_plane(y: int, x: int, w: int, h: int)
    requires
        0 <= y < h,
        0 <= x < w,
    ensures
        0 <= y * w + x < w * h,
{
    assert(0 <= y * w + x < w * h) by (nonlinear_arith)
        requires
            0 <= y,
            y + 1 <= h,
            0 <= x < w,
    ;
}

/// A sample of a buffer that was scaled down is the one at twice its place.
proof fn lemma_halved_place(px: Seq<u8>, w: int, h: int, k: int, y: int, x: int)
    requires
        w >= 0,
        h >= 0,
        w % 4 == 0,
        h % 4 == 0,
        px.len() == PixelKind::Yv12.size(w as nat, h as nat),
        is_place(w / 2, h / 2, k, y, x),
    ensures
        planar_sample(encoder::halved(px, w as nat, h as nat), w / 2, h / 2, k, y, x)
            == planar_sample(px, w, h, k, 2 * y, 2 * x),
{
    decoder::lemma_quarters(w, h);
    let n = w * h;
    let c = (w / 2) * (h / 2);
    let (p, pw, ph) = if k == 0 {
        (px.subrange(0, n), w, h)
    } else if k == 1 {
        (px.subrange(n, n + c), w / 2, h / 2)
    } else {
        (px.subrange(n + c, n + 2 * c), w / 2, h / 2)
    };
    pixels::lemma_downscaled_sample(p, pw, ph, y, x);
    assert(pw / 2 == plane_width(w / 2, k));
    assert(pw == plane_width(w, k));
    lemma_in_plane(2 * y, 2 * x, pw, ph);
}

/// A frame at half the width and height decodes to its pixels scaled down
/// and up again: every sample becomes the one of its plane at the nearest
/// even row and column before it.
pub proof fn law_reduced_frame(px: Seq<u8>, width: u32, height: u32)
    requires
        encoder::is_buffer(px, width, height, PixelKind::Yv12),
        width % 4 == 0,
        height % 4 == 0,
        addressed(encoder::reduced_frame(px, width as nat, height as nat)),
    ensures
        decoder::frame_pixels(
            encoder::reduced_frame(px, width as nat, height as nat),
            width,
            height,
            PixelKind::Yv12,
        ) == Ok::<Seq<u8>, Error>(
            decoder::upscaled_buffer(
                encoder::halved(px, width as nat, height as nat),
                width as nat,
                height as nat,
            ),
        ),
        encoder::reduced_frame(px, width as nat, height as nat)[0] == 11,
        forall|k: int, y: int, x: int|
            is_place(width as int, height as int, k, y, x) ==> #[trigger] planar_sample(
                decoder::upscaled_buffer(
                    encoder::halved(px, width as nat, height as nat),
                    width as nat,
                    height as nat,
                ),
                width as int,
                height as int,
                k,
                y,
                x,
            ) == planar_sample(px, width as int, height as int, k, 2 * (y / 2), 2 * (x / 2)),
{
    let w = width as nat;
    let h = height as nat;
    let half = encoder::halved(px, w, h);
    lemma_halved_len(px, w, h);
    lemma_planar_frame(11, half, w / 2, h / 2);
    assert forall|k: int, y: int, x: int|
        is_place(width as int, height as int, k, y, x) implies #[trigger] planar_sample(
        decoder::upscaled_buffer(half, w, h),
        width as int,
        height as int,
        k,
        y,
        x,
    ) == planar_sample(px, width as int, height as int, k, 2 * (y / 2), 2 * (x / 2)) by {
        lemma_upscaled_place(half, width as int, height as int, k, y, x);
        lemma_halved_place(px, width as int, height as int, k, y / 2, x / 2);
    }
}

/// A frame at half the width and height decodes exactly where its bytes, as
/// a planar frame, decode at half the width and height, and is refused for
/// the same reason otherwise. Every sample of its buffer is the one of that
/// buffer at half the row and half the column.
pub proof fn law_reduced_is_planar(f: Seq<u8>, width: u32, height: u32)
    requires
        f.len() > 0,
        f[0] == 11,
        width > 0,
        height > 0,
        width % 4 == 0,
        height % 4 == 0,
    ensures
        match decoder::frame_pixels(
            f.update(0, 10),
            width / 2,
            height / 2,
            PixelKind::Yv12,
        ) {
            Err(e) => decoder::frame_pixels(f, width, height, PixelKind::Yv12) == Err::<
                Seq<u8>,
                Error,
            >(e),
            Ok(half) => {
                &&& decoder::frame_pixels(f, width, height, PixelKind::Yv12) is Ok
                &&& decoder::frame_pixels(f, width, height, PixelKind::Yv12).unwrap().len()
                    == PixelKind::Yv12.size(width as nat, height as nat)
                &&& forall|k: int, y: int, x: int|
                    is_place(width as int, height as int, k, y, x) ==> #[trigger] planar_sample(
                        decoder::frame_pixels(f, width, height, PixelKind::Yv12).unwrap(),
                        width as int,
                        height as int,
                        k,
                        y,
                        x,
                    ) == planar_sample(half, width as int / 2, height as int / 2, k, y / 2, x / 2)
            },
        },
{
    let w = width as nat;
    let h = height as nat;
    lemma_first_byte(f, 10, w / 2, h / 2);
    decoder::lemma_quarters(w as int, h as int);
    match decoder::yv12_pixels(f, w / 2, h / 2) {
        Err(_) => {},
        Ok(half) => {
            decoder::law_yv12_len(f, w / 2, h / 2);
            let px = decoder::upscaled_buffer(half, w, h);
            assert forall|k: int, y: int, x: int|
                is_place(width as int, height as int, k, y, x) implies #[trigger] planar_sample(
                px,
                width as int,
                height as int,
                k,
                y,
                x,
            ) == planar_sample(half, width as int / 2, height as int / 2, k, y / 2, x / 2) by {
                lemma_upscaled_place(half, width as int, height as int, k, y, x);
            }
        },
    }
}

/// The channels of a planar frame do not depend on its first byte.
proof fn lemma_first_byte(f: Seq<u8>, b: u8, w: nat, h: nat)
    requires
        f.len() > 0,
    ensures
        decoder::yv12_pixels(f.update(0, b), w, h) == decoder::yv12_pixels(f, w, h),
{
    let g = f.update(0, b);
    reveal(decoder::yv12_pixels);
    reveal(decoder::residuals_of);
    if f.len() >= frame::table_end(3) {
        assert forall|k: int| frame::offset_of(g, 3, k) == #[trigger] frame::offset_of(
            f,
            3,
            k,
        ) by {}
        assert(frame::offsets_ordered(g, 3) == frame::offsets_ordered(f, 3)) by {
            assert forall|k: int| frame::ordered_at(g, 3, k) == #[trigger] frame::ordered_at(
                f,
                3,
                k,
            ) by {
                assert(frame::offset_of(g, 3, k) == frame::offset_of(f, 3, k));
                assert(frame::offset_of(g, 3, k + 1) == frame::offset_of(f, 3, k + 1));
            }
            if frame::offsets_ordered(f, 3) {
                assert forall|k: int| 0 <= k < 3 implies #[trigger] frame::ordered_at(g, 3, k) by {
                    assert(frame::ordered_at(f, 3, k));
                }
            }
            if frame::offsets_ordered(g, 3) {
                assert forall|k: int| 0 <= k < 3 implies #[trigger] frame::ordered_at(f, 3, k) by {
                    assert(frame::ordered_at(g, 3, k));
                }
            }
        }
        if frame::offsets_ordered(f, 3) {
            assert(frame::ordered_at(f, 3, 0));
            assert(frame::ordered_at(f, 3, 1));
            assert(frame::ordered_at(f, 3, 2));
            assert(frame::channel_at(g, 3, 0) =~= frame::channel_at(f, 3, 0));
            assert(frame::channel_at(g, 3, 1) =~= frame::channel_at(f, 3, 1));
            assert(frame::channel_at(g, 3, 2) =~= frame::channel_at(f, 3, 2));
        }
    }
}

/// A buffer that was scaled up is scaled down to what it was, so encoding a
/// decoded frame at half the width and height loses nothing more.
#[verifier::spinoff_prover]
#[verifier::rlimit(40)]
pub proof fn law_reduced_idempotent(half: Seq<u8>, w: nat, h: nat)
    requires
        w % 4 == 0,
        h % 4 == 0,
        half.len() == PixelKind::Yv12.size(w / 2, h / 2),
    ensures
        encoder::halved(decoder::upscaled_buffer(half, w, h), w, h) == half,
{
    decoder::lemma_quarters(w as int, h as int);
    let y = ((w / 2) * (h / 2)) as int;
    let c = ((w / 4) * (h / 4)) as int;
    let py = half.subrange(0, y);
    let pv = half.subrange(y, y + c);
    let pu = half.subrange(y + c, half.len() as int);
    let up = decoder::upscaled_buffer(half, w, h);
    let n = (w * h) as int;
    let uy = pixels::upscaled(py, (w / 2) as int);
    let uv = pixels::upscaled(pv, (w / 4) as int);
    let uu = pixels::upscaled(pu, (w / 4) as int);
    assert(up.subrange(0, n) =~= uy);
    assert(up.subrange(n, n + y) =~= uv);
    assert(up.subrange(n + y, n + 2 * y) =~= uu);
    pixels::law_downscale_upscaled(py, (w / 2) as int, (h / 2) as int);
    pixels::law_downscale_upscaled(pv, (w / 4) as int, (h / 4) as int);
    pixels::law_downscale_upscaled(pu, (w / 4) as int, (h / 4) as int);
    assert(2 * (w / 2) == w && 2 * (h / 2) == h);
    assert(2 * (w / 4) == w / 2 && 2 * (h / 4) == h / 2);
    assert(py + pv + pu =~= half);
}

// ---------------------------------------------------------------------
// Frames of any format
// ---------------------------------------------------------------------

/// A buffer of one colour is what a frame of that colour decodes to.
proof fn lemma_one_colour3(px: Seq<u8>, n: nat)
    requires
        px.len() == 3 * n,
        n > 0,
        encoder::one_colour(px, 3),
    ensures
        pixels::interleaved3(
            digits::repeat(px[0], n),
            digits::repeat(px[1], n),
            digits::repeat(px[2], n),
        ) == px,
{
    let q = pixels::interleaved3(
        digits::repeat(px[0], n),
        digits::repeat(px[1], n),
        digits::repeat(px[2], n),
    );
    assert forall|i: int| 0 <= i < px.len() implies q[i] == px[i] by {
        assert(encoder::like_first(px, 3, i));
    }
    assert(q =~= px);
}

/// A buffer of one colour is what a frame of that colour decodes to.
proof fn lemma_one_colour4(px: Seq<u8>, n: nat)
    requires
        px.len() == 4 * n,
        n > 0,
        encoder::one_colour(px, 4),
    ensures
        pixels::interleaved4(
            digits::repeat(px[0], n),
            digits::repeat(px[1], n),
            digits::repeat(px[2], n),
            digits::repeat(px[3], n),
        ) == px,
{
    let q = pixels::interleaved4(
        digits::repeat(px[0], n),
        digits::repeat(px[1], n),
        digits::repeat(px[2], n),
        digits::repeat(px[3], n),
    );
    assert forall|i: int| 0 <= i < px.len() implies q[i] == px[i] by {
        assert(encoder::like_first(px, 4, i));
    }
    assert(q =~= px);
}

/// A frame of three components, solid where that suffices, decodes to its
/// pixels; in a format with alpha, they are opaque.
pub proof fn law_rgb24_or_solid(px: Seq<u8>, width: u32, height: u32)
    requires
        encoder::is_buffer(px, width, height, PixelKind::Bgr24),
        encoder::one_colour(px, 3) || addressed(encoder::rgb24_frame(px, width as nat)),
    ensures
        ({
            let f = encoder::rgb24_or_solid(px, width as nat);
            &&& decoder::frame_pixels(f, width, height, PixelKind::Bgr24) == Ok::<Seq<u8>, Error>(
                px,
            )
            &&& decoder::frame_pixels(f, width, height, PixelKind::Bgra32) == Ok::<Seq<u8>, Error>(
                with_alpha(px),
            )
        }),
{
    let n = width as nat * height as nat;
    if encoder::one_colour(px, 3) {
        assert(n > 0);
        lemma_one_colour3(px, n);
        law_solid_grey(px[0], width, height);
        law_solid_rgb(px[0], px[1], px[2], width, height);
        let rb = digits::repeat(px[0], n);
        let rg = digits::repeat(px[1], n);
        let rr = digits::repeat(px[2], n);
        let q = pixels::interleaved3(rb, rg, rr);
        assert(pixels::component3(q, 0) =~= rb);
        assert(pixels::component3(q, 1) =~= rg);
        assert(pixels::component3(q, 2) =~= rr);
        assert(px.len() / 3 == n);
    } else {
        law_rgb24_frame(px, width, height);
    }
}

/// A frame of four components, solid where that suffices, decodes to its
/// pixels.
pub proof fn law_rgba_or_solid(px: Seq<u8>, width: u32, height: u32)
    requires
        encoder::is_buffer(px, width, height, PixelKind::Bgra32),
        encoder::one_colour(px, 4) || addressed(encoder::rgba_frame(px, width as nat)),
    ensures
        decoder::frame_pixels(
            encoder::rgba_or_solid(px, width as nat),
            width,
            height,
            PixelKind::Bgra32,
        ) == Ok::<Seq<u8>, Error>(px),
{
    let n = width as nat * height as nat;
    if encoder::one_colour(px, 4) {
        assert(n > 0);
        lemma_one_colour4(px, n);
        law_solid_rgba(px[0], px[1], px[2], px[3], width, height);
    } else {
        law_rgba_frame(px, width, height);
    }
}

/// An opaque buffer is its colours with opaque alpha.
proof fn lemma_opaque(px: Seq<u8>)
    requires
        px.len() % 4 == 0,
        encoder::opaque(px),
    ensures
        with_alpha(encoder::without_alpha(px)) == px,
{
    lemma_without_alpha(px);
    pixels::law_interleave4(px);
    let a = pixels::component4(px, 3);
    assert forall|i: int| 0 <= i < a.len() implies a[i] == 0xff by {
        assert((4 * i + 3) % 4 == 3);
        assert(px[4 * i + 3] == 0xff);
    }
    assert(a =~= digits::repeat(0xff, px.len() / 4));
}

/// The type byte of a frame with channels.
proof fn lemma_type_bytes(px: Seq<u8>, w: nat, h: nat)
    ensures
        !without_channels(encoder::rgb24_frame(px, w)),
        !without_channels(encoder::rgba_frame(px, w)),
        !without_channels(encoder::yv12_frame(px, w, h)),
        !without_channels(encoder::yuy2_frame(px, w, h)),
{
    reveal(encoder::best3);
    reveal(encoder::best4);
}

/// Where a frame decodes to its pixels, so does the shorter one of it and
/// the frame of plain pixels.
pub proof fn law_or_raw(f: Seq<u8>, px: Seq<u8>, width: u32, height: u32, kind: PixelKind)
    requires
        encoder::is_buffer(px, width, height, kind),
        decoder::frame_pixels(f, width, height, kind) == Ok::<Seq<u8>, Error>(px),
    ensures
        decoder::frame_pixels(encoder::or_raw(f, px), width, height, kind) == Ok::<Seq<u8>, Error>(
            px,
        ),
{
    law_raw_frame(px, width, height, kind);
}

/// Every encoded frame decodes to its pixels, in every format and at all
/// dimensions, as long as 32 bits can address the frame.
pub proof fn law_frame_round_trip(px: Seq<u8>, width: u32, height: u32, kind: PixelKind)
    requires
        encoder::is_buffer(px, width, height, kind),
        ({
            let f = encoder::frame_for(px, width as nat, height as nat, kind);
            without_channels(f) || addressed(f)
        }),
    ensures
        decoder::frame_pixels(
            encoder::frame_for(px, width as nat, height as nat, kind),
            width,
            height,
            kind,
        ) == Ok::<Seq<u8>, Error>(px),
{
    let w = width as nat;
    let h = height as nat;
    law_raw_frame(px, width, height, kind);
    match kind {
        PixelKind::Bgr24 => {
            lemma_type_bytes(px, w, h);
            if encoder::rgb24_or_solid(px, w).len() <= px.len() + 1 {
                law_rgb24_or_solid(px, width, height);
            }
        },
        PixelKind::Bgra32 => {
            if encoder::opaque(px) {
                let q = encoder::without_alpha(px);
                lemma_type_bytes(q, w, h);
                if encoder::rgb24_or_solid(q, w).len() <= px.len() + 1 {
                    lemma_without_alpha(px);
                    lemma_opaque(px);
                    law_rgb24_or_solid(q, width, height);
                }
            } else {
                lemma_type_bytes(px, w, h);
                if encoder::rgba_or_solid(px, w).len() <= px.len() + 1 {
                    law_rgba_or_solid(px, width, height);
                }
            }
        },
        PixelKind::Yv12 => {
            lemma_type_bytes(px, w, h);
            if encoder::yv12_frame(px, w, h).len() <= px.len() + 1 {
                law_yv12_frame(px, width, height);
            }
        },
        PixelKind::Yuy2 => {
            lemma_type_bytes(px, w, h);
            if pixels::neutral_tails(px, width as int) && encoder::yuy2_frame(px, w, h).len()
                <= px.len() + 1 {
                law_yuy2_frame(px, width, height);
            }
        },
    }
}

/// No encoded frame is longer than the plain pixels and a type byte.
pub proof fn law_never_longer_than_raw(px: Seq<u8>, w: nat, h: nat, kind: PixelKind, f: Seq<u8>)
    ensures
        encoder::frame_for(px, w, h, kind).len() <= px.len() + 1,
        encoder::or_raw(f, px).len() <= px.len() + 1,
        encoder::or_raw(f, px).len() <= f.len(),
{
}

/// Decoding a payload twice gives the same result: the same pixels or the
/// same error.
pub proof fn law_decoding_is_deterministic(
    r1: Result<DecodedFrame>,
    r2: Result<DecodedFrame>,
    payload: Seq<u8>,
    width: u32,
    height: u32,
    kind: PixelKind,
)
    requires
        decoder::decodes_to(
            r1,
            width,
            height,
            kind,
            decoder::frame_pixels(payload, width, height, kind),
        ),
        decoder::decodes_to(
            r2,
            width,
            height,
            kind,
            decoder::frame_pixels(payload, width, height, kind),
        ),
    ensures
        r1 is Ok <==> r2 is Ok,
        r1 is Ok ==> r1->Ok_0.same_as(&r2->Ok_0),
        r1 is Err ==> r1->Err_0 == r2->Err_0,
{
}

/// Call `i` of a run of calls with empty payloads.
pub open spec fn repeats_at(
    results: Seq<Result<DecodedFrame>>,
    kept: Seq<Option<DecodedFrame>>,
    width: u32,
    height: u32,
    kind: PixelKind,
    i: int,
) -> bool {
    &&& decoder::next_frame(results[i], Seq::empty(), width, height, kind, kept[i])
    &&& decoder::remembers(kept[i], results[i], kept[i + 1])
}

/// After a frame, every one of a run of empty payloads gives back that
/// frame, however many there are, and a decoder keeps it all along. `kept`
/// are the frames that the decoder keeps before, between and after the calls
/// with empty payloads.
pub proof fn law_null_repeats(
    first: Result<DecodedFrame>,
    payload: Seq<u8>,
    width: u32,
    height: u32,
    kind: PixelKind,
    before: Option<DecodedFrame>,
    results: Seq<Result<DecodedFrame>>,
    kept: Seq<Option<DecodedFrame>>,
)
    requires
        decoder::next_frame(first, payload, width, height, kind, before),
        first is Ok,
        kept.len() == results.len() + 1,
        decoder::remembers(before, first, kept[0]),
        forall|i: int|
            0 <= i < results.len() ==> #[trigger] repeats_at(
                results,
                kept,
                width,
                height,
                kind,
                i,
            ),
    ensures
        forall|i: int|
            0 <= i < results.len() ==> (#[trigger] results[i] matches Ok(f) && f.same_as(
                &first->Ok_0,
            )),
        forall|i: int|
            0 <= i < kept.len() ==> (#[trigger] kept[i] matches Some(f) && f.same_as(
                &first->Ok_0,
            )),
{
    assert forall|i: int| 0 <= i < kept.len() implies (#[trigger] kept[i] matches Some(f)
        && f.same_as(&first->Ok_0)) by {
        lemma_kept(first->Ok_0, width, height, kind, results, kept, i);
    }
    assert forall|i: int| 0 <= i < results.len() implies (#[trigger] results[i] matches Ok(f)
        && f.same_as(&first->Ok_0)) by {
        assert(repeats_at(results, kept, width, height, kind, i));
        assert(kept[i] is Some);
    }
}

/// A decoder keeps a frame through a run of empty payloads.
proof fn lemma_kept(
    frame: DecodedFrame,
    width: u32,
    height: u32,
    kind: PixelKind,
    results: Seq<Result<DecodedFrame>>,
    kept: Seq<Option<DecodedFrame>>,
    n: int,
)
    requires
        frame.width == width,
        frame.height == height,
        frame.pixel_kind == kind,
        kept.len() == results.len() + 1,
        kept[0] matches Some(f) && f.same_as(&frame),
        forall|i: int|
            0 <= i < results.len() ==> #[trigger] repeats_at(
                results,
                kept,
                width,
                height,
                kind,
                i,
            ),
        0 <= n < kept.len(),
    ensures
        kept[n] matches Some(f) && f.same_as(&frame),
    decreases n,
{
    if n > 0 {
        lemma_kept(frame, width, height, kind, results, kept, n - 1);
        assert(repeats_at(results, kept, width, height, kind, n - 1));
    }
}

// ---------------------------------------------------------------------
// The two RGB formats
// ---------------------------------------------------------------------

/// A frame type that carries colours and no alpha.
pub open spec fn is_colour_type(t: u8) -> bool {
    t == 2 || t == 4 || t == 5 || t == 6 || t == 7
}

/// Pixel `i` has the same colours in both buffers, and is opaque in the one
/// with alpha.
pub open spec fn same_colour(three: Seq<u8>, four: Seq<u8>, i: int) -> bool {
    &&& four[4 * i] == three[3 * i]
    &&& four[4 * i + 1] == three[3 * i + 1]
    &&& four[4 * i + 2] == three[3 * i + 2]
    &&& four[4 * i + 3] == 0xff
}

/// A payload that carries colours and no alpha decodes to both RGB formats
/// or to none, with the same error. The pixels of 32 bits are those of 24
/// bits with an alpha of 0xff.
pub proof fn law_rgb_formats(payload: Seq<u8>, width: u32, height: u32)
    requires
        payload.len() > 0,
        is_colour_type(payload[0]),
    ensures
        match decoder::frame_pixels(payload, width, height, PixelKind::Bgr24) {
            Err(e) => decoder::frame_pixels(payload, width, height, PixelKind::Bgra32) == Err::<
                Seq<u8>,
                Error,
            >(e),
            Ok(px) => {
                &&& px.len() == PixelKind::Bgr24.size(width as nat, height as nat)
                &&& decoder::frame_pixels(payload, width, height, PixelKind::Bgra32) == Ok::<
                    Seq<u8>,
                    Error,
                >(with_alpha(px))
                &&& with_alpha(px).len() == PixelKind::Bgra32.size(width as nat, height as nat)
                &&& forall|i: int|
                    0 <= i < width * height ==> #[trigger] same_colour(px, with_alpha(px), i)
            },
        },
{
    let w = width as nat;
    let h = height as nat;
    let n = w * h;
    assert forall|px: Seq<u8>, i: int|
        px.len() == 3 * n && 0 <= i < n implies #[trigger] same_colour(px, with_alpha(px), i) by {
        assert((4 * i) / 4 == i && (4 * i + 1) / 4 == i && (4 * i + 2) / 4 == i && (4 * i + 3) / 4
            == i);
    }
    reveal(decoder::rgb_pixels);
    reveal(decoder::legacy_rgb_pixels);
    if payload[0] == 7 {
        lemma_rgb_from(
            w as int,
            n,
            decoder::legacy_residuals_of(payload, 0, n),
            decoder::legacy_residuals_of(payload, 1, n),
            decoder::legacy_residuals_of(payload, 2, n),
        );
        lemma_legacy_residuals_len(payload, 0, n);
    } else if payload[0] == 2 || payload[0] == 4 {
        lemma_rgb_from(
            w as int,
            n,
            decoder::residuals_of(payload, 3, 0, n),
            decoder::residuals_of(payload, 3, 1, n),
            decoder::residuals_of(payload, 3, 2, n),
        );
        lemma_residuals_len(payload, 3, 0, n);
    } else if payload.len() >= 2 {
        let g = if payload[0] == 5 {
            payload[1]
        } else {
            payload[2]
        };
        let r = if payload[0] == 5 {
            payload[1]
        } else {
            payload[3]
        };
        lemma_interleaved_alpha(
            digits::repeat(payload[1], n),
            digits::repeat(g, n),
            digits::repeat(r, n),
            n,
        );
    }
}

/// A plane of residuals has as many samples as were asked for.
proof fn lemma_residuals_len(payload: Seq<u8>, channels: int, k: int, n: nat)
    ensures
        decoder::residuals_of(payload, channels, k, n) matches Ok(p) ==> p.len() == n,
{
    reveal(decoder::residuals_of);
    crate::channel::law_plane_len(frame::channel_at(payload, channels, k), n);
}

/// A plane of residuals of an obsolete frame has as many samples as were
/// asked for.
proof fn lemma_legacy_residuals_len(payload: Seq<u8>, k: int, n: nat)
    ensures
        decoder::legacy_residuals_of(payload, k, n) matches Ok(p) ==> p.len() == n,
{
    reveal(decoder::legacy_residuals_of);
    crate::channel::law_legacy_plane_len(frame::channel_at(payload, 3, k), n);
}

/// Interleaving with an opaque plane adds alpha to the pixels without it.
proof fn lemma_interleaved_alpha(b: Seq<u8>, g: Seq<u8>, r: Seq<u8>, n: nat)
    requires
        b.len() == n,
    ensures
        pixels::interleaved3(b, g, r).len() == 3 * n,
        pixels::interleaved4(b, g, r, digits::repeat(0xff, n)) == with_alpha(
            pixels::interleaved3(b, g, r),
        ),
{
    let four = pixels::interleaved4(b, g, r, digits::repeat(0xff, n));
    let three = with_alpha(pixels::interleaved3(b, g, r));
    assert forall|i: int| 0 <= i < 4 * n implies four[i] == three[i] by {
        let k = i / 4;
        assert((3 * k) / 3 == k && (3 * k + 1) / 3 == k && (3 * k + 2) / 3 == k);
        assert((3 * k) % 3 == 0 && (3 * k + 1) % 3 == 1 && (3 * k + 2) % 3 == 2);
    }
    assert(four =~= three);
}

/// Three planes of residuals make the same pixels in both RGB formats.
proof fn lemma_rgb_from(
    w: int,
    n: nat,
    b: Result<Seq<u8>>,
    g: Result<Seq<u8>>,
    r: Result<Seq<u8>>,
)
    ensures
        match decoder::rgb_from(PixelKind::Bgr24, w, n, b, g, r) {
            Err(e) => decoder::rgb_from(PixelKind::Bgra32, w, n, b, g, r) == Err::<
                Seq<u8>,
                Error,
            >(e),
            Ok(px) => b->Ok_0.len() == n ==> {
                &&& px.len() == 3 * n
                &&& decoder::rgb_from(PixelKind::Bgra32, w, n, b, g, r) == Ok::<Seq<u8>, Error>(
                    with_alpha(px),
                )
            },
        },
{
    if b is Ok && g is Ok && r is Ok && b->Ok_0.len() == n {
        let m = Predictor::Median(predict::FirstColRule::B);
        let pg = predict::rebuilt(m, w, g->Ok_0);
        let pb = predict::recorrelated(predict::rebuilt(m, w, b->Ok_0), pg);
        let pr = predict::recorrelated(predict::rebuilt(m, w, r->Ok_0), pg);
        predict::lemma_rebuilt_len(m, w, b->Ok_0, n);
        lemma_interleaved_alpha(pb, pg, pr, n);
    }
}

} // verus!
