//! Encoding of frames.
//!
//! [`encode_frame`] chooses the form of a frame; the other functions write
//! one form each. Whatever is chosen, decoding gives the pixels back, which
//! [`crate::round_trip`] proves.

use crate::channel_encoder;
use crate::decoder;
use crate::decoder::PixelKind;
use crate::error::{Error, Result};
use crate::frame;
use crate::histogram;
use crate::legacy_channel_encoder;
use crate::legacy_range_coder;
use crate::pixels;
use crate::predict;
use crate::predict::{FirstColRule, Predictor};
use crate::wire;
use vstd::prelude::*;

pub use crate::channel_encoder::{
    encode_channel_arith_rle, encode_channel_best, encode_channel_raw_rle, encode_channel_simple,
};
pub use crate::legacy_channel_encoder::{
    encode_legacy_channel, encode_legacy_channel_best, encode_legacy_channel_rle,
};

verus! {

// ---------------------------------------------------------------------
// Plain and solid frames
// ---------------------------------------------------------------------

/// The frame of plain pixels.
pub open spec fn raw_frame(px: Seq<u8>) -> Seq<u8> {
    seq![1u8] + px
}

/// A frame, or the one of plain pixels where that is shorter.
pub open spec fn or_raw(f: Seq<u8>, px: Seq<u8>) -> Seq<u8> {
    if raw_frame(px).len() < f.len() {
        raw_frame(px)
    } else {
        f
    }
}

/// Encode plain pixels.
pub fn encode_uncompressed(payload: &[u8]) -> (r: Vec<u8>)
    ensures
        r@ == raw_frame(payload@),
{
    let mut out: Vec<u8> = Vec::new();
    out.push(0x01);
    wire::push_all(&mut out, payload);
    assert(out@ =~= raw_frame(payload@));
    out
}

/// The payload that repeats the frame before it.
pub fn encode_null() -> (r: Vec<u8>)
    ensures
        r@ == Seq::<u8>::empty(),
{
    Vec::new()
}

/// Encode a frame of one grey.
pub fn encode_solid_grey(value: u8) -> (r: Vec<u8>)
    ensures
        r@ == seq![5u8, value],
{
    let mut out: Vec<u8> = Vec::with_capacity(2);
    out.push(0x05);
    out.push(value);
    assert(out@ =~= seq![5u8, value]);
    out
}

/// Encode a frame of one colour.
pub fn encode_solid_rgb(b: u8, g: u8, r: u8) -> (out: Vec<u8>)
    ensures
        out@ == seq![6u8, b, g, r],
{
    let mut out: Vec<u8> = Vec::with_capacity(4);
    out.push(0x06);
    out.push(b);
    out.push(g);
    out.push(r);
    assert(out@ =~= seq![6u8, b, g, r]);
    out
}

/// Encode a frame of one colour with alpha.
pub fn encode_solid_rgba(b: u8, g: u8, r: u8, a: u8) -> (out: Vec<u8>)
    ensures
        out@ == seq![9u8, b, g, r, a],
{
    let mut out: Vec<u8> = Vec::with_capacity(5);
    out.push(0x09);
    out.push(b);
    out.push(g);
    out.push(r);
    out.push(a);
    assert(out@ =~= seq![9u8, b, g, r, a]);
    out
}

// ---------------------------------------------------------------------
// Channels
// ---------------------------------------------------------------------

/// A frame of three channels in their shortest forms.
#[verifier::opaque]
pub open spec fn best3(type_byte: u8, a: Seq<u8>, b: Seq<u8>, c: Seq<u8>) -> Seq<u8> {
    frame::packed(
        type_byte,
        seq![
            channel_encoder::best_form(a),
            channel_encoder::best_form(b),
            channel_encoder::best_form(c),
        ],
    )
}

/// A frame of four channels in their shortest forms.
#[verifier::opaque]
pub open spec fn best4(type_byte: u8, a: Seq<u8>, b: Seq<u8>, c: Seq<u8>, d: Seq<u8>) -> Seq<u8> {
    frame::packed(
        type_byte,
        seq![
            channel_encoder::best_form(a),
            channel_encoder::best_form(b),
            channel_encoder::best_form(c),
            channel_encoder::best_form(d),
        ],
    )
}

/// The shortest form of a channel is hardly longer than its plane.
pub proof fn lemma_best_len(p: Seq<u8>)
    ensures
        channel_encoder::best_form(p).len() <= p.len() + 2,
        p.len() > 0 ==> channel_encoder::best_form(p).len() <= p.len() + 1,
{
    channel_encoder::law_best_is_shortest(p);
}

/// The total length of three channels.
pub proof fn lemma_length3(chs: Seq<Seq<u8>>)
    requires
        chs.len() == 3,
    ensures
        frame::length_to(chs, 3) == chs[0].len() + chs[1].len() + chs[2].len(),
{
    reveal_with_fuel(frame::length_to, 4);
}

/// The total length of four channels.
pub proof fn lemma_length4(chs: Seq<Seq<u8>>)
    requires
        chs.len() == 4,
    ensures
        frame::length_to(chs, 4) == chs[0].len() + chs[1].len() + chs[2].len() + chs[3].len(),
{
    reveal_with_fuel(frame::length_to, 5);
}

/// Put three channels into a frame.
fn pack3(type_byte: u8, a: &[u8], b: &[u8], c: &[u8]) -> (out: Vec<u8>)
    requires
        a@.len() + b@.len() + c@.len() + 9 <= usize::MAX,
    ensures
        out@ == frame::packed(type_byte, seq![a@, b@, c@]),
{
    let mut chs: Vec<&[u8]> = Vec::with_capacity(3);
    chs.push(a);
    chs.push(b);
    chs.push(c);
    proof {
        assert(frame::contents(chs@) =~= seq![a@, b@, c@]);
        lemma_length3(seq![a@, b@, c@]);
    }
    frame::pack_channels(type_byte, chs.as_slice())
}

/// Encode three planes of residuals.
fn encode3(type_byte: u8, a: &[u8], b: &[u8], c: &[u8]) -> (out: Vec<u8>)
    requires
        channel_encoder::addressable(a@.len()),
        channel_encoder::addressable(b@.len()),
        channel_encoder::addressable(c@.len()),
        a@.len() + b@.len() + c@.len() + 15 <= usize::MAX,
    ensures
        out@ == best3(type_byte, a@, b@, c@),
{
    reveal(best3);
    proof {
        lemma_best_len(a@);
        lemma_best_len(b@);
        lemma_best_len(c@);
    }
    let ch_a = encode_channel_best(a);
    let ch_b = encode_channel_best(b);
    let ch_c = encode_channel_best(c);
    pack3(type_byte, ch_a.as_slice(), ch_b.as_slice(), ch_c.as_slice())
}

/// Encode four planes of residuals.
fn encode4(type_byte: u8, a: &[u8], b: &[u8], c: &[u8], d: &[u8]) -> (out: Vec<u8>)
    requires
        channel_encoder::addressable(a@.len()),
        channel_encoder::addressable(b@.len()),
        channel_encoder::addressable(c@.len()),
        channel_encoder::addressable(d@.len()),
        a@.len() + b@.len() + c@.len() + d@.len() + 21 <= usize::MAX,
    ensures
        out@ == best4(type_byte, a@, b@, c@, d@),
{
    reveal(best4);
    proof {
        lemma_best_len(a@);
        lemma_best_len(b@);
        lemma_best_len(c@);
        lemma_best_len(d@);
    }
    let ch_a = encode_channel_best(a);
    let ch_b = encode_channel_best(b);
    let ch_c = encode_channel_best(c);
    let ch_d = encode_channel_best(d);
    let mut chs: Vec<&[u8]> = Vec::with_capacity(4);
    chs.push(ch_a.as_slice());
    chs.push(ch_b.as_slice());
    chs.push(ch_c.as_slice());
    chs.push(ch_d.as_slice());
    proof {
        let want = seq![ch_a@, ch_b@, ch_c@, ch_d@];
        assert(frame::contents(chs@) =~= want);
        lemma_length4(want);
    }
    frame::pack_channels(type_byte, chs.as_slice())
}

// ---------------------------------------------------------------------
// RGB frames
// ---------------------------------------------------------------------

/// The predictor of the RGB planes.
pub open spec fn rgb_predictor() -> Predictor {
    Predictor::Median(FirstColRule::B)
}

/// The residuals of an RGB plane other than green.
pub open spec fn colour_residuals(c: Seq<u8>, g: Seq<u8>, w: int) -> Seq<u8> {
    predict::residuals(rgb_predictor(), w, predict::decorrelated(c, g))
}

/// The blue residuals of a buffer of three components.
pub open spec fn blue_residuals(px: Seq<u8>, w: int) -> Seq<u8> {
    colour_residuals(pixels::component3(px, 0), pixels::component3(px, 1), w)
}

/// The green residuals of a buffer of three components.
pub open spec fn green_residuals(px: Seq<u8>, w: int) -> Seq<u8> {
    predict::residuals(rgb_predictor(), w, pixels::component3(px, 1))
}

/// The red residuals of a buffer of three components.
pub open spec fn red_residuals(px: Seq<u8>, w: int) -> Seq<u8> {
    colour_residuals(pixels::component3(px, 2), pixels::component3(px, 1), w)
}

/// What [`encode_arith_rgb24`] writes.
pub open spec fn rgb24_frame(px: Seq<u8>, w: nat) -> Seq<u8> {
    best3(
        if w % 4 == 0 {
            4
        } else {
            2
        },
        blue_residuals(px, w as int),
        green_residuals(px, w as int),
        red_residuals(px, w as int),
    )
}

/// What [`encode_arith_rgba`] writes.
pub open spec fn rgba_frame(px: Seq<u8>, w: nat) -> Seq<u8> {
    let g = pixels::component4(px, 1);
    best4(
        8,
        colour_residuals(pixels::component4(px, 0), g, w as int),
        predict::residuals(rgb_predictor(), w as int, g),
        colour_residuals(pixels::component4(px, 2), g, w as int),
        predict::residuals(rgb_predictor(), w as int, pixels::component4(px, 3)),
    )
}

/// The residuals of three RGB planes.
fn rgb_residuals(
    plane_b: Vec<u8>,
    plane_g: &Vec<u8>,
    plane_r: Vec<u8>,
    width: usize,
    height: usize,
) -> (r: (Vec<u8>, Vec<u8>, Vec<u8>))
    requires
        plane_b@.len() == width * height,
        plane_g@.len() == width * height,
        plane_r@.len() == width * height,
    ensures
        r.0@ == colour_residuals(plane_b@, plane_g@, width as int),
        r.1@ == predict::residuals(rgb_predictor(), width as int, plane_g@),
        r.2@ == colour_residuals(plane_r@, plane_g@, width as int),
{
    let mut b = plane_b;
    let mut r = plane_r;
    predict::cross_plane_decorrelate_rgb_forward(
        b.as_mut_slice(),
        plane_g.as_slice(),
        r.as_mut_slice(),
    );
    let res_b = predict::apply_plane_forward_with_rule(
        b.as_slice(),
        width,
        height,
        FirstColRule::B,
    );
    let res_g = predict::apply_plane_forward_with_rule(
        plane_g.as_slice(),
        width,
        height,
        FirstColRule::B,
    );
    let res_r = predict::apply_plane_forward_with_rule(
        r.as_slice(),
        width,
        height,
        FirstColRule::B,
    );
    (res_b, res_g, res_r)
}

/// The residuals of a buffer of three components.
fn bgr_residuals(pixels: &[u8], width: u32, height: u32) -> (r: (Vec<u8>, Vec<u8>, Vec<u8>))
    requires
        pixels@.len() == 3 * (width as nat * height as nat),
    ensures
        r.0@ == blue_residuals(pixels@, width as int),
        r.1@ == green_residuals(pixels@, width as int),
        r.2@ == red_residuals(pixels@, width as int),
        r.0@.len() == width as nat * height as nat,
        r.1@.len() == width as nat * height as nat,
        r.2@.len() == width as nat * height as nat,
{
    let plane_b = pixels::take_component3(pixels, 0);
    let plane_g = pixels::take_component3(pixels, 1);
    let plane_r = pixels::take_component3(pixels, 2);
    rgb_residuals(plane_b, &plane_g, plane_r, width as usize, height as usize)
}

/// Encode a frame of three components per pixel.
pub fn encode_arith_rgb24(pixels: &[u8], width: u32, height: u32) -> (out: Vec<u8>)
    requires
        pixels@.len() == 3 * (width as nat * height as nat),
        decoder::addressable(width, height),
    ensures
        out@ == rgb24_frame(pixels@, width as nat),
{
    let (res_b, res_g, res_r) = bgr_residuals(pixels, width, height);
    let type_byte: u8 = if width % 4 == 0 {
        4
    } else {
        2
    };
    encode3(type_byte, res_b.as_slice(), res_g.as_slice(), res_r.as_slice())
}

/// Encode a frame of four components per pixel.
pub fn encode_arith_rgba(pixels: &[u8], width: u32, height: u32) -> (out: Vec<u8>)
    requires
        pixels@.len() == 4 * (width as nat * height as nat),
        decoder::addressable(width, height),
    ensures
        out@ == rgba_frame(pixels@, width as nat),
{
    let plane_b = pixels::take_component4(pixels, 0);
    let plane_g = pixels::take_component4(pixels, 1);
    let plane_r = pixels::take_component4(pixels, 2);
    let plane_a = pixels::take_component4(pixels, 3);
    let (res_b, res_g, res_r) = rgb_residuals(
        plane_b,
        &plane_g,
        plane_r,
        width as usize,
        height as usize,
    );
    let res_a = predict::apply_plane_forward_with_rule(
        plane_a.as_slice(),
        width as usize,
        height as usize,
        FirstColRule::B,
    );
    encode4(8, res_b.as_slice(), res_g.as_slice(), res_r.as_slice(), res_a.as_slice())
}

// ---------------------------------------------------------------------
// Luma and chroma frames
// ---------------------------------------------------------------------

/// The predictor of planar luma and chroma.
pub open spec fn yuv_predictor() -> Predictor {
    Predictor::Median(FirstColRule::Yuv)
}

/// A planar 4:2:0 buffer as a frame with the given type byte.
pub open spec fn planar_frame(type_byte: u8, px: Seq<u8>, w: nat, h: nat) -> Seq<u8> {
    let n = (w * h) as int;
    let c = n / 4;
    let cw = decoder::chroma_width(w, h) as int;
    best3(
        type_byte,
        predict::residuals(yuv_predictor(), w as int, px.subrange(0, n)),
        predict::residuals(yuv_predictor(), cw, px.subrange(n, n + c)),
        predict::residuals(yuv_predictor(), cw, px.subrange(n + c, n + 2 * c)),
    )
}

/// What [`encode_arith_yv12`] writes.
pub open spec fn yv12_frame(px: Seq<u8>, w: nat, h: nat) -> Seq<u8> {
    planar_frame(10, px, w, h)
}

/// What [`encode_arith_yuy2`] writes.
pub open spec fn yuy2_frame(px: Seq<u8>, w: nat, h: nat) -> Seq<u8> {
    let cw = (w / 2) as int;
    best3(
        3,
        predict::residuals(Predictor::Packed { luma: true }, w as int, pixels::luma_plane(px)),
        predict::residuals(
            Predictor::Packed { luma: false },
            cw,
            pixels::chroma_plane(px, w as int, h as int, 0),
        ),
        predict::residuals(
            Predictor::Packed { luma: false },
            cw,
            pixels::chroma_plane(px, w as int, h as int, 1),
        ),
    )
}

/// A planar 4:2:0 buffer at half the width and height.
pub open spec fn halved(px: Seq<u8>, w: nat, h: nat) -> Seq<u8> {
    let n = (w * h) as int;
    let c = ((w / 2) * (h / 2)) as int;
    pixels::downscaled(px.subrange(0, n), w as int, h as int) + pixels::downscaled(
        px.subrange(n, n + c),
        (w / 2) as int,
        (h / 2) as int,
    ) + pixels::downscaled(px.subrange(n + c, n + 2 * c), (w / 2) as int, (h / 2) as int)
}

/// What [`encode_arith_reduced_res`] writes.
pub open spec fn reduced_frame(px: Seq<u8>, w: nat, h: nat) -> Seq<u8> {
    planar_frame(11, halved(px, w, h), w / 2, h / 2)
}

/// Encode a planar 4:2:0 buffer under the given type byte.
fn encode_planar(type_byte: u8, pixels: &[u8], width: usize, height: usize) -> (out: Vec<u8>)
    requires
        pixels@.len() == PixelKind::Yv12.size(width as nat, height as nat),
        4 * (width * height) + 32 <= usize::MAX,
    ensures
        out@ == planar_frame(type_byte, pixels@, width as nat, height as nat),
{
    let y_pixels: usize = width * height;
    let c_pixels: usize = y_pixels / 4;
    let plane_y = vstd::slice::slice_subrange(pixels, 0, y_pixels);
    let plane_v = vstd::slice::slice_subrange(pixels, y_pixels, y_pixels + c_pixels);
    let plane_u = vstd::slice::slice_subrange(pixels, y_pixels + c_pixels, pixels.len());
    let res_y = predict::apply_plane_forward_with_rule(
        plane_y,
        width,
        height,
        FirstColRule::Yuv,
    );
    let cw: usize = width / 2;
    let ch: usize = height / 2;
    assert(0 <= cw * ch <= width * height) by (nonlinear_arith)
        requires
            0 <= cw <= width,
            0 <= ch <= height,
    ;
    let (chroma_w, chroma_h): (usize, usize) = if cw * ch == c_pixels {
        (cw, ch)
    } else {
        (c_pixels, 1)
    };
    let res_v = predict::apply_plane_forward_with_rule(
        plane_v,
        chroma_w,
        chroma_h,
        FirstColRule::Yuv,
    );
    let res_u = predict::apply_plane_forward_with_rule(
        plane_u,
        chroma_w,
        chroma_h,
        FirstColRule::Yuv,
    );
    encode3(type_byte, res_y.as_slice(), res_v.as_slice(), res_u.as_slice())
}

/// Encode a planar 4:2:0 frame.
pub fn encode_arith_yv12(pixels: &[u8], width: u32, height: u32) -> (out: Vec<u8>)
    requires
        pixels@.len() == PixelKind::Yv12.size(width as nat, height as nat),
        decoder::addressable(width, height),
    ensures
        out@ == yv12_frame(pixels@, width as nat, height as nat),
{
    encode_planar(10, pixels, width as usize, height as usize)
}

/// Encode a packed 4:2:2 frame. The chroma of a last column without a
/// partner has no place in the frame.
pub fn encode_arith_yuy2(pixels: &[u8], width: u32, height: u32) -> (out: Vec<u8>)
    requires
        pixels@.len() == PixelKind::Yuy2.size(width as nat, height as nat),
        decoder::addressable(width, height),
    ensures
        out@ == yuy2_frame(pixels@, width as nat, height as nat),
{
    let w: usize = width as usize;
    let h: usize = height as usize;
    let cw: usize = w / 2;
    assert(0 <= cw * h <= w * h) by (nonlinear_arith)
        requires
            0 <= cw <= w,
            0 <= h,
    ;
    let plane_y = pixels::take_luma(pixels);
    let plane_u = pixels::take_chroma(pixels, w, h, 0);
    let plane_v = pixels::take_chroma(pixels, w, h, 1);
    let res_y = predict::apply_plane_forward_yuy2(plane_y.as_slice(), w, h, true);
    let res_u = predict::apply_plane_forward_yuy2(plane_u.as_slice(), cw, h, false);
    let res_v = predict::apply_plane_forward_yuy2(plane_v.as_slice(), cw, h, false);
    encode3(3, res_y.as_slice(), res_u.as_slice(), res_v.as_slice())
}

/// The planes at half the width and height make a planar 4:2:0 buffer.
pub open spec fn halvable(w: nat, h: nat) -> bool {
    &&& w >= 2
    &&& h >= 2
    &&& w % 2 == 0
    &&& h % 2 == 0
    &&& (w / 4) * (h / 4) == ((w / 2) * (h / 2)) / 4
}

/// Encode a planar 4:2:0 frame at half the width and height.
pub fn encode_arith_reduced_res(pixels: &[u8], width: u32, height: u32) -> (out: Vec<u8>)
    requires
        halvable(width as nat, height as nat),
        pixels@.len() == PixelKind::Yv12.size(width as nat, height as nat),
        decoder::addressable(width, height),
    ensures
        out@ == reduced_frame(pixels@, width as nat, height as nat),
{
    let w: usize = width as usize;
    let h: usize = height as usize;
    let half_w: usize = w / 2;
    let half_h: usize = h / 2;
    proof {
        lemma_halves(w as int, h as int);
    }
    let big_y: usize = w * h;
    let big_c: usize = half_w * half_h;
    let mut buf: Vec<u8> = Vec::with_capacity(big_c);
    pixels::downscale_into(&mut buf, pixels, 0, w, h);
    pixels::downscale_into(&mut buf, pixels, big_y, half_w, half_h);
    pixels::downscale_into(&mut buf, pixels, big_y + big_c, half_w, half_h);
    proof {
        assert(half_w / 2 == w as int / 4 && half_h / 2 == h as int / 4);
        assert(buf@ =~= halved(pixels@, w as nat, h as nat));
    }
    let mut frame = encode_planar(10, buf.as_slice(), half_w, half_h);
    proof {
        lemma_planar_head(10, buf@, half_w as nat, half_h as nat);
        lemma_planar_head(11, buf@, half_w as nat, half_h as nat);
    }
    frame.set(0, 11);
    assert(frame@ =~= reduced_frame(pixels@, w as nat, h as nat));
    frame
}

/// The sizes of planes at half the width and height.
pub proof fn lemma_halves(w: int, h: int)
    requires
        w >= 0,
        h >= 0,
        w % 2 == 0,
        h % 2 == 0,
    ensures
        w * h == 4 * ((w / 2) * (h / 2)),
        0 <= (w / 2) * (h / 2),
        w * h >= 0,
{
    let a = w / 2;
    let b = h / 2;
    assert((2 * a) * (2 * b) == 4 * (a * b)) by (nonlinear_arith);
    assert(0 <= a * b) by (nonlinear_arith)
        requires
            a >= 0,
            b >= 0,
    ;
    assert(w == 2 * a && h == 2 * b);
}

/// The type byte of a planar frame comes first, and nothing else depends on
/// it.
proof fn lemma_planar_head(type_byte: u8, px: Seq<u8>, w: nat, h: nat)
    ensures
        planar_frame(type_byte, px, w, h) == seq![type_byte] + planar_frame(0, px, w, h).skip(1),
        planar_frame(0, px, w, h).len() >= 1,
{
    reveal(best3);
    assert(planar_frame(type_byte, px, w, h) =~= seq![type_byte] + planar_frame(
        0,
        px,
        w,
        h,
    ).skip(1));
}

// ---------------------------------------------------------------------
// Obsolete RGB frames
// ---------------------------------------------------------------------

/// The histogram of a plane, or the frequency table that a channel carries
/// for it, has the rare-symbol-cluster shape.
pub open spec fn clustered(p: Seq<u8>) -> bool {
    legacy_range_coder::rare_cluster(histogram::histogram(p)) || legacy_range_coder::rare_cluster(
        legacy_channel_encoder::table_for(p),
    )
}

/// Some plane of residuals has the rare-symbol-cluster shape.
pub open spec fn needs_raw(px: Seq<u8>, w: int) -> bool {
    clustered(blue_residuals(px, w)) || clustered(green_residuals(px, w)) || clustered(
        red_residuals(px, w),
    )
}

/// The histogram of a plane, or the table for it, has the
/// rare-symbol-cluster shape.
fn is_clustered(plane: &[u8]) -> (r: bool)
    requires
        legacy_channel_encoder::encodable(plane@),
    ensures
        r == clustered(plane@),
{
    proof {
        legacy_channel_encoder::lemma_table_codes(plane@);
    }
    let freq = histogram::histogram_from_plane(plane);
    if legacy_range_coder::is_rare_symbol_cluster(&freq) {
        return true;
    }
    match legacy_range_coder::rescale_freq(&freq) {
        Ok((table, _)) => legacy_range_coder::is_rare_symbol_cluster(&table),
        Err(_) => false,
    }
}

/// Some plane of residuals has the rare-symbol-cluster shape.
fn type7_residuals_need_strategy_e(res_b: &[u8], res_g: &[u8], res_r: &[u8]) -> (r: bool)
    requires
        legacy_channel_encoder::encodable(res_b@),
        legacy_channel_encoder::encodable(res_g@),
        legacy_channel_encoder::encodable(res_r@),
    ensures
        r == (clustered(res_b@) || clustered(res_g@) || clustered(res_r@)),
{
    is_clustered(res_b) || is_clustered(res_g) || is_clustered(res_r)
}

/// What [`encode_legacy_rgb`] writes.
pub open spec fn legacy_frame(px: Seq<u8>, w: nat) -> Seq<u8> {
    if needs_raw(px, w as int) {
        raw_frame(px)
    } else {
        frame::packed(
            7,
            seq![
                legacy_channel_encoder::best_form(blue_residuals(px, w as int)),
                legacy_channel_encoder::best_form(green_residuals(px, w as int)),
                legacy_channel_encoder::best_form(red_residuals(px, w as int)),
            ],
        )
    }
}

/// The escaped frequency tables of all three planes can be read back.
pub open spec fn legacy_tables_valid(px: Seq<u8>, w: int, e: nat) -> bool {
    &&& legacy_channel_encoder::rle_valid(blue_residuals(px, w), e)
    &&& legacy_channel_encoder::rle_valid(green_residuals(px, w), e)
    &&& legacy_channel_encoder::rle_valid(red_residuals(px, w), e)
}

/// What [`encode_legacy_rgb_rle`] writes.
pub open spec fn legacy_rle_frame(px: Seq<u8>, w: nat, e: nat) -> Seq<u8> {
    if needs_raw(px, w as int) || !legacy_tables_valid(px, w as int, e) {
        raw_frame(px)
    } else {
        frame::packed(
            7,
            seq![
                legacy_channel_encoder::rle_form(blue_residuals(px, w as int), e),
                legacy_channel_encoder::rle_form(green_residuals(px, w as int), e),
                legacy_channel_encoder::rle_form(red_residuals(px, w as int), e),
            ],
        )
    }
}

/// The number of pixels that an obsolete frame can hold.
pub open spec fn legacy_sized(w: nat, h: nat) -> bool {
    0 < w * h <= legacy_channel_encoder::MAX_LEGACY_SAMPLES
}

/// Encode an obsolete RGB frame, each channel in its shortest form. Planes
/// of residuals with the rare-symbol-cluster shape make it a frame of plain
/// pixels.
pub fn encode_legacy_rgb(pixels: &[u8], width: u32, height: u32) -> (out: Vec<u8>)
    requires
        pixels@.len() == 3 * (width as nat * height as nat),
        legacy_sized(width as nat, height as nat),
    ensures
        out@ == legacy_frame(pixels@, width as nat),
{
    let (res_b, res_g, res_r) = bgr_residuals(pixels, width, height);
    if type7_residuals_need_strategy_e(res_b.as_slice(), res_g.as_slice(), res_r.as_slice()) {
        return encode_uncompressed(pixels);
    }
    proof {
        legacy_channel_encoder::law_form_lengths(res_b@);
        legacy_channel_encoder::law_form_lengths(res_g@);
        legacy_channel_encoder::law_form_lengths(res_r@);
    }
    let ch_b = encode_legacy_channel_best(res_b.as_slice());
    let ch_g = encode_legacy_channel_best(res_g.as_slice());
    let ch_r = encode_legacy_channel_best(res_r.as_slice());
    pack3(7, ch_b.as_slice(), ch_g.as_slice(), ch_r.as_slice())
}

/// As [`encode_legacy_rgb`].
pub fn encode_legacy_rgb_best(pixels: &[u8], width: u32, height: u32) -> (out: Vec<u8>)
    requires
        pixels@.len() == 3 * (width as nat * height as nat),
        legacy_sized(width as nat, height as nat),
    ensures
        out@ == legacy_frame(pixels@, width as nat),
{
    encode_legacy_rgb(pixels, width, height)
}

/// Encode an obsolete RGB frame with zero-run escapes in the frequency
/// tables. Planes of residuals with the rare-symbol-cluster shape make it a
/// frame of plain pixels, and so does a table that cannot be read back: one
/// too long for the buffer that it is expanded into, or one whose last run
/// of zeros would take in the byte behind it.
pub fn encode_legacy_rgb_rle(pixels: &[u8], width: u32, height: u32, escape_len: usize) -> (out:
    Vec<u8>)
    requires
        1 <= escape_len <= 3,
        pixels@.len() == 3 * (width as nat * height as nat),
        legacy_sized(width as nat, height as nat),
    ensures
        out@ == legacy_rle_frame(pixels@, width as nat, escape_len as nat),
{
    let (res_b, res_g, res_r) = bgr_residuals(pixels, width, height);
    if type7_residuals_need_strategy_e(res_b.as_slice(), res_g.as_slice(), res_r.as_slice()) {
        return encode_uncompressed(pixels);
    }
    proof {
        legacy_channel_encoder::law_form_lengths(res_b@);
        legacy_channel_encoder::law_form_lengths(res_g@);
        legacy_channel_encoder::law_form_lengths(res_r@);
    }
    let ch_b = legacy_channel_encoder::try_encode_rle(res_b.as_slice(), escape_len);
    let ch_g = legacy_channel_encoder::try_encode_rle(res_g.as_slice(), escape_len);
    let ch_r = legacy_channel_encoder::try_encode_rle(res_r.as_slice(), escape_len);
    match (ch_b, ch_g, ch_r) {
        (Some(b), Some(g), Some(r)) => pack3(7, b.as_slice(), g.as_slice(), r.as_slice()),
        _ => encode_uncompressed(pixels),
    }
}

// ---------------------------------------------------------------------
// Plain pixels where they are shorter
// ---------------------------------------------------------------------

/// A frame, or the one of plain pixels where that is shorter.
fn shorter_than_raw(frame: Vec<u8>, pixels: &[u8]) -> (r: Vec<u8>)
    ensures
        r@ == or_raw(frame@, pixels@),
{
    let raw = encode_uncompressed(pixels);
    if raw.len() < frame.len() {
        raw
    } else {
        frame
    }
}

/// [`encode_arith_rgb24`], or plain pixels where they are shorter.
pub fn encode_arith_rgb24_or_uncompressed(pixels: &[u8], width: u32, height: u32) -> (r: Vec<u8>)
    requires
        pixels@.len() == 3 * (width as nat * height as nat),
        decoder::addressable(width, height),
    ensures
        r@ == or_raw(rgb24_frame(pixels@, width as nat), pixels@),
{
    shorter_than_raw(encode_arith_rgb24(pixels, width, height), pixels)
}

/// [`encode_arith_yv12`], or plain pixels where they are shorter.
pub fn encode_arith_yv12_or_uncompressed(pixels: &[u8], width: u32, height: u32) -> (r: Vec<u8>)
    requires
        pixels@.len() == PixelKind::Yv12.size(width as nat, height as nat),
        decoder::addressable(width, height),
    ensures
        r@ == or_raw(yv12_frame(pixels@, width as nat, height as nat), pixels@),
{
    shorter_than_raw(encode_arith_yv12(pixels, width, height), pixels)
}

/// [`encode_arith_yuy2`], or plain pixels where they are shorter.
pub fn encode_arith_yuy2_or_uncompressed(pixels: &[u8], width: u32, height: u32) -> (r: Vec<u8>)
    requires
        pixels@.len() == PixelKind::Yuy2.size(width as nat, height as nat),
        decoder::addressable(width, height),
    ensures
        r@ == or_raw(yuy2_frame(pixels@, width as nat, height as nat), pixels@),
{
    shorter_than_raw(encode_arith_yuy2(pixels, width, height), pixels)
}

/// [`encode_arith_rgba`], or plain pixels where they are shorter.
pub fn encode_arith_rgba_or_uncompressed(pixels: &[u8], width: u32, height: u32) -> (r: Vec<u8>)
    requires
        pixels@.len() == 4 * (width as nat * height as nat),
        decoder::addressable(width, height),
    ensures
        r@ == or_raw(rgba_frame(pixels@, width as nat), pixels@),
{
    shorter_than_raw(encode_arith_rgba(pixels, width, height), pixels)
}

/// [`encode_legacy_rgb`], or plain pixels where they are shorter.
pub fn encode_legacy_rgb_or_uncompressed(pixels: &[u8], width: u32, height: u32) -> (r: Vec<u8>)
    requires
        pixels@.len() == 3 * (width as nat * height as nat),
        legacy_sized(width as nat, height as nat),
    ensures
        r@ == or_raw(legacy_frame(pixels@, width as nat), pixels@),
{
    shorter_than_raw(encode_legacy_rgb(pixels, width, height), pixels)
}

// ---------------------------------------------------------------------
// Frames of one colour
// ---------------------------------------------------------------------

/// Sample `i` equals the one of the first pixel, with `k` components per
/// pixel.
pub open spec fn like_first(px: Seq<u8>, k: int, i: int) -> bool {
    px[i] == px[i % k]
}

/// All pixels of `k` components are the same.
pub open spec fn one_colour(px: Seq<u8>, k: int) -> bool {
    &&& px.len() >= k
    &&& forall|i: int| 0 <= i < px.len() ==> #[trigger] like_first(px, k, i)
}

/// The frame of one colour without alpha.
pub open spec fn solid_bgr_frame(b: u8, g: u8, r: u8) -> Seq<u8> {
    if b == g && g == r {
        seq![5u8, b]
    } else {
        seq![6u8, b, g, r]
    }
}

/// What [`encode_arith_rgb24_or_solid`] writes.
pub open spec fn rgb24_or_solid(px: Seq<u8>, w: nat) -> Seq<u8> {
    if one_colour(px, 3) {
        solid_bgr_frame(px[0], px[1], px[2])
    } else {
        rgb24_frame(px, w)
    }
}

/// What [`encode_arith_rgba_or_solid`] writes.
pub open spec fn rgba_or_solid(px: Seq<u8>, w: nat) -> Seq<u8> {
    if one_colour(px, 4) {
        seq![9u8, px[0], px[1], px[2], px[3]]
    } else {
        rgba_frame(px, w)
    }
}

/// Whether every sample equals the one `k` before it, which makes all
/// pixels of `k` components the same.
fn is_one_colour(px: &[u8], k: usize) -> (r: bool)
    requires
        k == 3 || k == 4,
        px@.len() % (k as nat) == 0,
    ensures
        r == one_colour(px@, k as int),
{
    if px.len() < k {
        return false;
    }
    let mut i: usize = 0;
    let mut c: usize = 0;
    while i < px.len()
        invariant
            k == 3 || k == 4,
            k <= px@.len(),
            i <= px@.len(),
            c < k,
            c == i as int % k as int,
            forall|j: int| 0 <= j < i ==> #[trigger] like_first(px@, k as int, j),
        decreases px@.len() - i,
    {
        if px[i] != px[c] {
            assert(!like_first(px@, k as int, i as int));
            return false;
        }
        proof {
            vstd::arithmetic::div_mod::lemma_fundamental_div_mod(i as int, k as int);
            if k == 3 {
                assert((i + 1) % 3 == if c == 2 { 0 } else { c + 1 });
            } else {
                assert((i + 1) % 4 == if c == 3 { 0 } else { c + 1 });
            }
        }
        i = i + 1;
        c = c + 1;
        if c == k {
            c = 0;
        }
    }
    true
}

/// The colour of a buffer of three components whose pixels are all the
/// same.
fn solid_colour_bgr(pixels: &[u8]) -> (r: Option<(u8, u8, u8)>)
    requires
        pixels@.len() % 3 == 0,
    ensures
        match r {
            Some(c) => one_colour(pixels@, 3) && c == (pixels@[0], pixels@[1], pixels@[2]),
            None => !one_colour(pixels@, 3),
        },
{
    if is_one_colour(pixels, 3) {
        Some((pixels[0], pixels[1], pixels[2]))
    } else {
        None
    }
}

/// The colour of a buffer of four components whose pixels are all the same.
fn solid_colour_bgra(pixels: &[u8]) -> (r: Option<(u8, u8, u8, u8)>)
    requires
        pixels@.len() % 4 == 0,
    ensures
        match r {
            Some(c) => one_colour(pixels@, 4) && c == (
                pixels@[0],
                pixels@[1],
                pixels@[2],
                pixels@[3],
            ),
            None => !one_colour(pixels@, 4),
        },
{
    if is_one_colour(pixels, 4) {
        Some((pixels[0], pixels[1], pixels[2], pixels[3]))
    } else {
        None
    }
}

/// Encode a frame of one colour without alpha.
fn encode_solid_bgr(b: u8, g: u8, r: u8) -> (out: Vec<u8>)
    ensures
        out@ == solid_bgr_frame(b, g, r),
{
    if b == g && g == r {
        encode_solid_grey(b)
    } else {
        encode_solid_rgb(b, g, r)
    }
}

/// [`encode_arith_rgb24`], or a frame of one colour where that suffices.
pub fn encode_arith_rgb24_or_solid(pixels: &[u8], width: u32, height: u32) -> (r: Vec<u8>)
    requires
        pixels@.len() == 3 * (width as nat * height as nat),
        decoder::addressable(width, height),
    ensures
        r@ == rgb24_or_solid(pixels@, width as nat),
{
    if let Some((b, g, r)) = solid_colour_bgr(pixels) {
        return encode_solid_bgr(b, g, r);
    }
    encode_arith_rgb24(pixels, width, height)
}

/// [`encode_arith_rgba`], or a frame of one colour where that suffices.
pub fn encode_arith_rgba_or_solid(pixels: &[u8], width: u32, height: u32) -> (r: Vec<u8>)
    requires
        pixels@.len() == 4 * (width as nat * height as nat),
        decoder::addressable(width, height),
    ensures
        r@ == rgba_or_solid(pixels@, width as nat),
{
    if let Some((b, g, r, a)) = solid_colour_bgra(pixels) {
        return encode_solid_rgba(b, g, r, a);
    }
    encode_arith_rgba(pixels, width, height)
}

// ---------------------------------------------------------------------
// Frames of any format
// ---------------------------------------------------------------------

/// All pixels of a buffer of four components are opaque.
pub open spec fn opaque(px: Seq<u8>) -> bool {
    forall|i: int| 0 <= i < px.len() && i % 4 == 3 ==> #[trigger] px[i] == 0xff
}

/// A buffer of four components without its alpha.
pub open spec fn without_alpha(px: Seq<u8>) -> Seq<u8> {
    pixels::interleaved3(
        pixels::component4(px, 0),
        pixels::component4(px, 1),
        pixels::component4(px, 2),
    )
}

/// What [`encode_frame`] writes.
pub open spec fn frame_for(px: Seq<u8>, w: nat, h: nat, kind: PixelKind) -> Seq<u8> {
    match kind {
        PixelKind::Bgr24 => or_raw(rgb24_or_solid(px, w), px),
        PixelKind::Bgra32 => if opaque(px) {
            or_raw(rgb24_or_solid(without_alpha(px), w), px)
        } else {
            or_raw(rgba_or_solid(px, w), px)
        },
        PixelKind::Yv12 => or_raw(yv12_frame(px, w, h), px),
        PixelKind::Yuy2 => if pixels::neutral_tails(px, w as int) {
            or_raw(yuy2_frame(px, w, h), px)
        } else {
            raw_frame(px)
        },
    }
}

/// A buffer has the length that its dimensions and its format ask for, and
/// neither dimension is zero.
pub open spec fn is_buffer(px: Seq<u8>, width: u32, height: u32, kind: PixelKind) -> bool {
    &&& width > 0
    &&& height > 0
    &&& px.len() == kind.size(width as nat, height as nat)
}

/// The length of a frame buffer, which may be more than can be addressed.
fn buffer_size(width: u32, height: u32, kind: PixelKind) -> (r: u128)
    ensures
        r == kind.size(width as nat, height as nat),
{
    assert(0 <= width * height <= 0xffff_ffff * 0xffff_ffff) by (nonlinear_arith)
        requires
            0 <= width <= 0xffff_ffff,
            0 <= height <= 0xffff_ffff,
    ;
    let n: u128 = width as u128 * height as u128;
    match kind {
        PixelKind::Bgr24 => n * 3,
        PixelKind::Bgra32 => n * 4,
        PixelKind::Yv12 => n + 2 * (n / 4),
        PixelKind::Yuy2 => n * 2,
    }
}

/// Whether all pixels of a buffer of four components are opaque.
fn is_opaque(px: &[u8]) -> (r: bool)
    requires
        px@.len() % 4 == 0,
    ensures
        r == opaque(px@),
{
    let n: usize = px.len() / 4;
    let mut i: usize = 0;
    while i < n
        invariant
            i <= n,
            px.len() == 4 * n,
            forall|j: int| 0 <= j < 4 * i && j % 4 == 3 ==> #[trigger] px@[j] == 0xff,
        decreases n - i,
    {
        if px[4 * i + 3] != 0xff {
            assert((4 * i + 3) % 4 == 3);
            return false;
        }
        i = i + 1;
    }
    true
}

/// Drop the alpha of a buffer of four components.
fn drop_alpha(px: &[u8]) -> (r: Vec<u8>)
    requires
        px@.len() % 4 == 0,
    ensures
        r@ == without_alpha(px@),
{
    let b = pixels::take_component4(px, 0);
    let g = pixels::take_component4(px, 1);
    let r = pixels::take_component4(px, 2);
    assert(px.len() == px@.len());
    pixels::interleave3(b.as_slice(), g.as_slice(), r.as_slice())
}

/// Whether the chroma of a last column without a partner is neutral.
fn has_neutral_tails(px: &[u8], width: usize, height: usize) -> (r: bool)
    requires
        width > 0,
        px@.len() == 2 * (width * height),
    ensures
        r == pixels::neutral_tails(px@, width as int),
{
    if width % 2 == 0 {
        return true;
    }
    let ghost w = width as int;
    let mut row: usize = 0;
    let mut at: usize = 0;
    assert(px.len() == px@.len());
    while row < height
        invariant
            width > 0,
            w == width,
            w % 2 == 1,
            px.len() == 2 * (w * height),
            row <= height,
            at == row * w,
            forall|i: int|
                0 <= i < row * w && i % w == w - 1 ==> #[trigger] px@[2 * i + 1] == 0x80,
        decreases height - row,
    {
        let ghost i0 = row * w + (w - 1);
        proof {
            predict::lemma_position(i0, w, row as int, w - 1);
            assert(row * w + w <= w * height) by (nonlinear_arith)
                requires
                    row + 1 <= height,
                    w > 0,
            ;
        }
        if px[2 * (at + (width - 1)) + 1] != 0x80 {
            assert(px@[2 * i0 + 1] != 0x80);
            return false;
        }
        proof {
            assert((row + 1) * w == row * w + w) by (nonlinear_arith);
            assert forall|i: int| 0 <= i < (row + 1) * w && i % w == w - 1 implies #[trigger] px@[2
                * i + 1] == 0x80 by {
                if i >= row * w {
                    predict::lemma_position(i, w, row as int, i - row * w);
                }
            }
        }
        row = row + 1;
        at = at + width;
    }
    proof {
        assert(row * w == w * height) by (nonlinear_arith)
            requires
                row == height,
        ;
    }
    true
}

/// Encode one frame in the shortest form. Decoding gives the pixels back.
pub fn encode_frame(pixels: &[u8], width: u32, height: u32, kind: PixelKind) -> (r: Result<Vec<u8>>)
    requires
        is_buffer(pixels@, width, height, kind) ==> decoder::addressable(width, height),
    ensures
        if is_buffer(pixels@, width, height, kind) {
            r is Ok && r->Ok_0@ == frame_for(pixels@, width as nat, height as nat, kind)
        } else {
            r is Err && r->Err_0 == (Error::BadDimensions { width, height })
        },
{
    if width == 0 || height == 0 || pixels.len() as u128 != buffer_size(width, height, kind) {
        return Err(Error::BadDimensions { width, height });
    }
    match kind {
        PixelKind::Bgr24 => Ok(
            shorter_than_raw(encode_arith_rgb24_or_solid(pixels, width, height), pixels),
        ),
        PixelKind::Bgra32 => {
            if is_opaque(pixels) {
                let bgr = drop_alpha(pixels);
                Ok(
                    shorter_than_raw(
                        encode_arith_rgb24_or_solid(bgr.as_slice(), width, height),
                        pixels,
                    ),
                )
            } else {
                Ok(shorter_than_raw(encode_arith_rgba_or_solid(pixels, width, height), pixels))
            }
        },
        PixelKind::Yv12 => Ok(encode_arith_yv12_or_uncompressed(pixels, width, height)),
        PixelKind::Yuy2 => {
            if has_neutral_tails(pixels, width as usize, height as usize) {
                Ok(encode_arith_yuy2_or_uncompressed(pixels, width, height))
            } else {
                Ok(encode_uncompressed(pixels))
            }
        },
    }
}

/// What [`encode_frame`] chooses: a frame of one colour where there is one,
/// no alpha where every pixel is opaque, and plain pixels only where they
/// are shorter than the frame with channels.
pub proof fn law_frame_choice(px: Seq<u8>, w: nat, h: nat, n: nat)
    requires
        n > 0,
    ensures
        px.len() == 3 * n && one_colour(px, 3) && px[0] == px[1] && px[1] == px[2] ==> frame_for(
            px,
            w,
            h,
            PixelKind::Bgr24,
        ) == seq![5u8, px[0]],
        px.len() == 3 * n && one_colour(px, 3) && !(px[0] == px[1] && px[1] == px[2]) ==> frame_for(
            px,
            w,
            h,
            PixelKind::Bgr24,
        ) == seq![6u8, px[0], px[1], px[2]],
        px.len() == 4 * n && one_colour(px, 4) && px[3] != 0xff ==> frame_for(
            px,
            w,
            h,
            PixelKind::Bgra32,
        ) == seq![9u8, px[0], px[1], px[2], px[3]],
        px.len() == 3 * n && !one_colour(px, 3) ==> frame_for(px, w, h, PixelKind::Bgr24) == if 1
            + px.len() < rgb24_frame(px, w).len() {
            seq![1u8] + px
        } else {
            rgb24_frame(px, w)
        },
        frame_for(px, w, h, PixelKind::Yv12) == if 1 + px.len() < yv12_frame(px, w, h).len() {
            seq![1u8] + px
        } else {
            yv12_frame(px, w, h)
        },
{
    if px.len() == 4 * n && px[3] != 0xff {
        assert(!opaque(px)) by {
            if opaque(px) {
                assert(px[3] == 0xff);
            }
        }
    }
}

/// Where every pixel is opaque, the frame is that of the colours alone: of
/// type 2, 4, 5 or 6, or plain pixels with alpha where these are shorter.
pub proof fn law_opaque_choice(px: Seq<u8>, w: nat, h: nat, i: int)
    requires
        px.len() % 4 == 0,
        forall|k: int| 0 <= k < px.len() && k % 4 == 3 ==> #[trigger] px[k] == 0xff,
        0 <= i < px.len() / 4,
    ensures
        without_alpha(px).len() == 3 * (px.len() / 4),
        without_alpha(px)[3 * i] == px[4 * i],
        without_alpha(px)[3 * i + 1] == px[4 * i + 1],
        without_alpha(px)[3 * i + 2] == px[4 * i + 2],
        ({
            let f = rgb24_or_solid(without_alpha(px), w);
            frame_for(px, w, h, PixelKind::Bgra32) == if 1 + px.len() < f.len() {
                seq![1u8] + px
            } else {
                f
            }
        }),
{
    assert((3 * i) / 3 == i && (3 * i + 1) / 3 == i && (3 * i + 2) / 3 == i);
    assert((3 * i) % 3 == 0 && (3 * i + 1) % 3 == 1 && (3 * i + 2) % 3 == 2);
    assert(opaque(px));
}

} // verus!
