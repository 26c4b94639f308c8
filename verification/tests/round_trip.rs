use lagarith::decoder::{decode_frame, decode_frame_with_prev, Decoder, PixelKind};
use lagarith::encoder::{
    encode_arith_reduced_res, encode_arith_rgb24, encode_arith_rgb24_or_solid,
    encode_arith_rgb24_or_uncompressed, encode_arith_rgba, encode_arith_rgba_or_solid,
    encode_arith_rgba_or_uncompressed, encode_arith_yuy2, encode_arith_yuy2_or_uncompressed,
    encode_arith_yv12, encode_arith_yv12_or_uncompressed, encode_channel_arith_rle,
    encode_channel_best, encode_channel_raw_rle, encode_channel_simple, encode_frame,
    encode_legacy_channel_best, encode_legacy_channel_rle, encode_legacy_rgb,
    encode_legacy_rgb_best, encode_legacy_rgb_or_uncompressed, encode_legacy_rgb_rle, encode_null, encode_solid_grey,
    encode_solid_rgb, encode_solid_rgba, encode_uncompressed,
};
use lagarith::error::Error;

fn lcg(state: &mut u32) -> u32 {
    *state = state.wrapping_mul(1664525).wrapping_add(1013904223);
    *state >> 8
}

fn content(len: usize, pattern: u32, seed: u32) -> Vec<u8> {
    let mut s = seed;
    (0..len)
        .map(|i| match pattern {
            0 => lcg(&mut s) as u8,
            1 => (i / 3) as u8,
            2 => {
                if lcg(&mut s) % 16 == 0 {
                    lcg(&mut s) as u8
                } else {
                    0
                }
            }
            3 => 0x5a,
            4 => ((lcg(&mut s) & 1) * 200) as u8,
            _ => {
                if i == len / 2 {
                    77
                } else {
                    9
                }
            }
        })
        .collect()
}

fn dimensions() -> Vec<(u32, u32)> {
    vec![
        (1, 1),
        (1, 7),
        (7, 1),
        (2, 2),
        (3, 3),
        (3, 5),
        (4, 4),
        (5, 4),
        (6, 6),
        (8, 3),
        (9, 7),
        (16, 12),
        (17, 13),
        (33, 27),
    ]
}

#[test]
fn encoded_frames_decode_to_their_pixels() {
    for (w, h) in dimensions() {
        for kind in PixelKind::all() {
            for pattern in 0..6 {
                let px = content(kind.buffer_len(w, h), pattern, w * 31 + h);
                let frame = encode_frame(&px, w, h, kind).unwrap();
                assert!(frame.len() <= px.len() + 1, "{kind:?} {w}x{h} {pattern}");
                let got = decode_frame(&frame, w, h, kind).unwrap();
                assert_eq!(got.pixels, px, "{kind:?} {w}x{h} {pattern}");
                assert_eq!((got.width, got.height, got.pixel_kind), (w, h, kind));
            }
        }
    }
}

#[test]
fn every_family_decodes_to_its_pixels() {
    for (w, h) in dimensions() {
        for pattern in 0..6 {
            let n = (w * h) as usize;
            let bgr = content(3 * n, pattern, 1);
            let frame = encode_arith_rgb24(&bgr, w, h);
            assert_eq!(frame[0], if w % 4 == 0 { 4 } else { 2 });
            let got = decode_frame(&frame, w, h, PixelKind::Bgr24).unwrap();
            assert_eq!(got.pixels, bgr);
            let with_alpha = decode_frame(&frame, w, h, PixelKind::Bgra32).unwrap();
            for (a, b) in with_alpha.pixels.chunks(4).zip(bgr.chunks(3)) {
                assert_eq!(&a[..3], b);
                assert_eq!(a[3], 0xff);
            }

            let bgra = content(4 * n, pattern, 2);
            let frame = encode_arith_rgba(&bgra, w, h);
            assert_eq!(frame[0], 8);
            let got = decode_frame(&frame, w, h, PixelKind::Bgra32).unwrap();
            assert_eq!(got.pixels, bgra);
            let without = decode_frame(&frame, w, h, PixelKind::Bgr24).unwrap();
            for (a, b) in bgra.chunks(4).zip(without.pixels.chunks(3)) {
                assert_eq!(&a[..3], b);
            }

            let yv12 = content(PixelKind::Yv12.buffer_len(w, h), pattern, 3);
            let frame = encode_arith_yv12(&yv12, w, h);
            assert_eq!(frame[0], 10);
            let got = decode_frame(&frame, w, h, PixelKind::Yv12).unwrap();
            assert_eq!(got.pixels, yv12);

            let mut yuy2 = content(2 * n, pattern, 4);
            if w % 2 == 1 {
                for row in 0..h as usize {
                    yuy2[2 * ((row + 1) * w as usize) - 1] = 0x80;
                }
            }
            let frame = encode_arith_yuy2(&yuy2, w, h);
            assert_eq!(frame[0], 3);
            let got = decode_frame(&frame, w, h, PixelKind::Yuy2).unwrap();
            assert_eq!(got.pixels, yuy2);
        }
    }
}

#[test]
fn obsolete_frames_decode_to_their_pixels() {
    for (w, h) in [(4u32, 4u32), (8, 8), (5, 3), (16, 12)] {
        let n = (w * h) as usize;
        for pattern in [0u32, 1, 4] {
            let bgr = content(3 * n, pattern, 5);
            let frame = encode_legacy_rgb(&bgr, w, h);
            assert_eq!(
                decode_frame(&frame, w, h, PixelKind::Bgr24).unwrap().pixels,
                bgr
            );
            let guarded = encode_legacy_rgb_or_uncompressed(&bgr, w, h);
            assert!(guarded.len() <= frame.len());
            assert!(guarded.len() <= bgr.len() + 1);
            assert_eq!(
                decode_frame(&guarded, w, h, PixelKind::Bgr24)
                    .unwrap()
                    .pixels,
                bgr
            );
        }
        let bgr = content(3 * n, 1, 6);
        for e in 1..=3usize {
            let frame = encode_legacy_rgb_rle(&bgr, w, h, e);
            assert_eq!(frame[0], 7);
            assert_eq!(frame[9], e as u8);
            assert_eq!(
                decode_frame(&frame, w, h, PixelKind::Bgr24).unwrap().pixels,
                bgr
            );
        }
    }
}

#[test]
fn forms_of_frames_without_channels() {
    assert_eq!(encode_null(), Vec::<u8>::new());
    assert_eq!(encode_uncompressed(&[9, 8, 7]), vec![1, 9, 8, 7]);
    assert_eq!(encode_solid_grey(0x10), vec![5, 0x10]);
    assert_eq!(encode_solid_rgb(1, 2, 3), vec![6, 1, 2, 3]);
    assert_eq!(encode_solid_rgba(1, 2, 3, 4), vec![9, 1, 2, 3, 4]);

    let grey = decode_frame(&[5, 0x10], 2, 1, PixelKind::Bgra32).unwrap();
    assert_eq!(grey.pixels, vec![0x10, 0x10, 0x10, 0xff, 0x10, 0x10, 0x10, 0xff]);
    let rgb = decode_frame(&[6, 1, 2, 3], 2, 1, PixelKind::Bgr24).unwrap();
    assert_eq!(rgb.pixels, vec![1, 2, 3, 1, 2, 3]);
    let rgba = decode_frame(&[9, 1, 2, 3, 4], 1, 2, PixelKind::Bgra32).unwrap();
    assert_eq!(rgba.pixels, vec![1, 2, 3, 4, 1, 2, 3, 4]);
    let dropped = decode_frame(&[9, 1, 2, 3, 4], 1, 1, PixelKind::Bgr24).unwrap();
    assert_eq!(dropped.pixels, vec![1, 2, 3]);
}

#[test]
fn solid_buffers_become_solid_frames() {
    let grey = vec![7u8; 3 * 20];
    assert_eq!(encode_arith_rgb24_or_solid(&grey, 5, 4), vec![5, 7]);
    let colour: Vec<u8> = [1u8, 2, 3].repeat(20);
    assert_eq!(encode_arith_rgb24_or_solid(&colour, 5, 4), vec![6, 1, 2, 3]);
    let alpha: Vec<u8> = [7u8, 7, 7, 0xff].repeat(20);
    assert_eq!(
        encode_arith_rgba_or_solid(&alpha, 5, 4),
        vec![9, 7, 7, 7, 0xff]
    );
    let mut varied = colour.clone();
    varied[59] = 4;
    assert_eq!(
        encode_arith_rgb24_or_solid(&varied, 5, 4),
        encode_arith_rgb24(&varied, 5, 4)
    );

    assert_eq!(
        encode_frame(&grey, 5, 4, PixelKind::Bgr24).unwrap(),
        vec![5, 7]
    );
    assert_eq!(
        encode_frame(&alpha, 5, 4, PixelKind::Bgra32).unwrap(),
        vec![5, 7]
    );
    let glass: Vec<u8> = [7u8, 7, 7, 0x80].repeat(20);
    assert_eq!(
        encode_frame(&glass, 5, 4, PixelKind::Bgra32).unwrap(),
        vec![9, 7, 7, 7, 0x80]
    );
}

#[test]
fn opaque_buffers_carry_no_alpha() {
    let mut px = content(4 * 64, 1, 7);
    for p in px.chunks_mut(4) {
        p[3] = 0xff;
    }
    let frame = encode_frame(&px, 8, 8, PixelKind::Bgra32).unwrap();
    assert_eq!(frame[0], 4);
    assert_eq!(
        decode_frame(&frame, 8, 8, PixelKind::Bgra32).unwrap().pixels,
        px
    );
    px[3] = 0xfe;
    let frame = encode_frame(&px, 8, 8, PixelKind::Bgra32).unwrap();
    assert_eq!(frame[0], 8);
}

#[test]
fn chroma_without_a_place_is_kept() {
    let mut px: Vec<u8> = vec![0x80; 2 * 3 * 2];
    assert_eq!(encode_frame(&px, 3, 2, PixelKind::Yuy2).unwrap()[0], 1);
    px = vec![0x80; 2 * 15 * 8];
    let frame = encode_frame(&px, 15, 8, PixelKind::Yuy2).unwrap();
    assert_eq!(frame[0], 3);
    px[29] = 0x81;
    let frame = encode_frame(&px, 15, 8, PixelKind::Yuy2).unwrap();
    assert_eq!(frame[0], 1);
    assert_eq!(
        decode_frame(&frame, 15, 8, PixelKind::Yuy2).unwrap().pixels,
        px
    );
    let lossy = encode_arith_yuy2(&px, 15, 8);
    let got = decode_frame(&lossy, 15, 8, PixelKind::Yuy2).unwrap();
    assert_eq!(got.pixels[29], 0x80);
}

#[test]
fn plain_pixels_are_chosen_only_where_shorter() {
    let noise = content(3 * 12, 0, 8);
    let arith = encode_arith_rgb24(&noise, 4, 3);
    let guarded = encode_arith_rgb24_or_uncompressed(&noise, 4, 3);
    assert!(arith.len() > noise.len() + 1);
    assert_eq!(guarded, encode_uncompressed(&noise));
    let smooth = content(3 * 256, 1, 8);
    assert_eq!(
        encode_arith_rgb24_or_uncompressed(&smooth, 16, 16),
        encode_arith_rgb24(&smooth, 16, 16)
    );
    let rgba = content(4 * 256, 1, 8);
    assert_eq!(
        encode_arith_rgba_or_uncompressed(&rgba, 16, 16),
        encode_arith_rgba(&rgba, 16, 16)
    );
    let yv12 = content(384, 1, 8);
    assert_eq!(
        encode_arith_yv12_or_uncompressed(&yv12, 16, 16),
        encode_arith_yv12(&yv12, 16, 16)
    );
    let yuy2 = content(512, 1, 8);
    assert_eq!(
        encode_arith_yuy2_or_uncompressed(&yuy2, 16, 16),
        encode_arith_yuy2(&yuy2, 16, 16)
    );
}

#[test]
fn both_rgb_formats_decode_alike() {
    let (w, h) = (5u32, 3u32);
    let n = (w * h) as usize;
    let bgr = content(3 * n, 1, 8);
    let mut payloads = vec![
        encode_arith_rgb24(&bgr, w, h),
        encode_legacy_rgb_rle(&bgr, w, h, 2),
        encode_solid_grey(7),
        encode_solid_rgb(1, 2, 3),
        vec![5],
        vec![6, 1, 2],
    ];
    let mut state = 4u32;
    for t in [2u8, 4, 5, 6, 7] {
        for len in [3usize, 9, 12, 60] {
            let mut noise: Vec<u8> = (0..len).map(|_| lcg(&mut state) as u8).collect();
            noise[0] = t;
            payloads.push(noise);
        }
    }
    let mut decoded = 0;
    for payload in payloads {
        let three = decode_frame(&payload, w, h, PixelKind::Bgr24);
        let four = decode_frame(&payload, w, h, PixelKind::Bgra32);
        match (three, four) {
            (Ok(three), Ok(four)) => {
                decoded += 1;
                assert_eq!(three.pixels.len(), 3 * n);
                assert_eq!(four.pixels.len(), 4 * n);
                for i in 0..n {
                    assert_eq!(four.pixels[4 * i..4 * i + 3], three.pixels[3 * i..3 * i + 3]);
                    assert_eq!(four.pixels[4 * i + 3], 0xff);
                }
            }
            (Err(three), Err(four)) => assert_eq!(three, four),
            _ => panic!("only one of the formats decodes"),
        }
    }
    assert!(decoded >= 4);
}

#[test]
fn a_run_of_empty_payloads_repeats_one_frame() {
    let (w, h) = (4u32, 2u32);
    let px = content(PixelKind::Yuy2.buffer_len(w, h), 0, 2);
    let frame = encode_frame(&px, w, h, PixelKind::Yuy2).unwrap();
    let mut dec = Decoder::new();
    dec.decode(&frame, w, h, PixelKind::Yuy2).unwrap();
    for _ in 0..64 {
        let again = dec.decode(&[], w, h, PixelKind::Yuy2).unwrap();
        assert_eq!(again.pixels, px);
        assert_eq!((again.width, again.height), (w, h));
        assert_eq!(dec.previous().unwrap().pixels, px);
    }
    dec.reset();
    assert_eq!(
        dec.decode(&[], w, h, PixelKind::Yuy2).unwrap_err(),
        Error::NullFrameWithoutPredecessor
    );
}

#[test]
fn no_form_of_a_channel_is_shorter_than_the_best() {
    let mut state = 9u32;
    for round in 0..60u32 {
        let len = 1 + (lcg(&mut state) % 200) as usize;
        let spread = 1 + lcg(&mut state) % 12;
        let plane: Vec<u8> = (0..len)
            .map(|_| (lcg(&mut state) % spread * (lcg(&mut state) % 2)) as u8)
            .collect();
        let best = encode_channel_best(&plane).len();
        let legacy = encode_legacy_channel_best(&plane).len();
        let simple = encode_channel_simple(&plane);
        assert!(best <= simple.len() && best <= 1 + len, "round {round}");
        let uniform = plane.iter().all(|b| *b == plane[0]);
        assert_eq!(simple[0] == 0xff, uniform);
        for e in 1..=3usize {
            assert!(best <= encode_channel_arith_rle(&plane, e).len());
            assert!(best <= encode_channel_raw_rle(&plane, e).len());
            assert!(legacy <= encode_legacy_channel_rle(&plane, e).len());
        }
    }
}

#[test]
fn clustered_tables_become_plain_pixels() {
    let mut bgr = vec![30u8; 3 * 33];
    bgr[..3].copy_from_slice(&[10, 10, 10]);
    for frame in [
        encode_legacy_rgb(&bgr, 33, 1),
        encode_legacy_rgb_best(&bgr, 33, 1),
        encode_legacy_rgb_rle(&bgr, 33, 1, 1),
        encode_legacy_rgb_or_uncompressed(&bgr, 33, 1),
    ] {
        assert_eq!(frame[0], 1);
        assert_eq!(
            decode_frame(&frame, 33, 1, PixelKind::Bgr24)
                .unwrap()
                .pixels,
            bgr
        );
    }
}

#[test]
fn obsolete_frames_with_escapes_decode_whatever_their_tables() {
    let (w, h) = (64u32, 64u32);
    let noise = content(3 * (w * h) as usize, 0, 3);
    for e in 1..=3usize {
        let frame = encode_legacy_rgb_rle(&noise, w, h, e);
        assert_eq!(
            decode_frame(&frame, w, h, PixelKind::Bgr24).unwrap().pixels,
            noise
        );
    }
    let mut state = 77u32;
    for round in 0..400u32 {
        let (w, h) = (1 + lcg(&mut state) % 9, 1 + lcg(&mut state) % 6);
        let spread = 1 + lcg(&mut state) % 40;
        let bgr: Vec<u8> = (0..3 * w * h)
            .map(|_| (lcg(&mut state) % spread * 5) as u8)
            .collect();
        let frame = encode_legacy_rgb_rle(&bgr, w, h, 1 + (round % 3) as usize);
        assert!(frame[0] == 1 || frame[0] == 7);
        assert_eq!(
            decode_frame(&frame, w, h, PixelKind::Bgr24).unwrap().pixels,
            bgr
        );
        let best = encode_legacy_rgb(&bgr, w, h);
        assert_eq!(
            decode_frame(&best, w, h, PixelKind::Bgr24).unwrap().pixels,
            bgr
        );
    }
}

#[test]
fn half_resolution_is_a_planar_frame_scaled_up() {
    let (w, h) = (8usize, 4usize);
    let px = content(PixelKind::Yv12.buffer_len(w as u32, h as u32), 0, 4);
    let mut frame = encode_arith_reduced_res(&px, w as u32, h as u32);
    let full = decode_frame(&frame, w as u32, h as u32, PixelKind::Yv12)
        .unwrap()
        .pixels;
    frame[0] = 10;
    let half = decode_frame(&frame, w as u32 / 2, h as u32 / 2, PixelKind::Yv12)
        .unwrap()
        .pixels;
    let planes = [(0, 0, w, h), (32, 8, w / 2, h / 2), (40, 10, w / 2, h / 2)];
    for (start, half_start, pw, ph) in planes {
        for y in 0..ph {
            for x in 0..pw {
                let at = start + y * pw + x;
                assert_eq!(full[at], half[half_start + (y / 2) * (pw / 2) + x / 2]);
                assert_eq!(full[at], px[start + (y / 2 * 2) * pw + x / 2 * 2]);
            }
        }
    }
    let cut = &frame[..7];
    let planar = decode_frame(cut, 4, 2, PixelKind::Yv12).unwrap_err();
    let mut reduced = cut.to_vec();
    reduced[0] = 11;
    assert_eq!(
        decode_frame(&reduced, 8, 4, PixelKind::Yv12).unwrap_err(),
        planar
    );
}

#[test]
fn half_resolution_loses_nothing_the_second_time() {
    for (w, h) in [(4u32, 4u32), (8, 4), (16, 12)] {
        let px = content(PixelKind::Yv12.buffer_len(w, h), 0, 9);
        let frame = encode_arith_reduced_res(&px, w, h);
        assert_eq!(frame[0], 11);
        let once = decode_frame(&frame, w, h, PixelKind::Yv12).unwrap().pixels;
        for y in 0..h as usize {
            for x in 0..w as usize {
                let at = y * w as usize + x;
                let from = (y / 2 * 2) * w as usize + x / 2 * 2;
                assert_eq!(once[at], px[from]);
            }
        }
        let again = encode_arith_reduced_res(&once, w, h);
        assert_eq!(again, frame);
        assert_eq!(
            decode_frame(&again, w, h, PixelKind::Yv12).unwrap().pixels,
            once
        );
    }
}

#[test]
fn buffers_of_the_wrong_size_are_refused() {
    let bad = |w: u32, h: u32| Error::BadDimensions {
        width: w,
        height: h,
    };
    assert_eq!(
        encode_frame(&[], 0, 4, PixelKind::Bgr24),
        Err(bad(0, 4))
    );
    assert_eq!(
        encode_frame(&[], 4, 0, PixelKind::Yuy2),
        Err(bad(4, 0))
    );
    assert_eq!(
        encode_frame(&[0; 11], 2, 2, PixelKind::Bgr24),
        Err(bad(2, 2))
    );
    assert_eq!(
        encode_frame(&[0; 13], 2, 2, PixelKind::Bgr24),
        Err(bad(2, 2))
    );
    assert_eq!(
        encode_frame(&[0; 3], u32::MAX, u32::MAX, PixelKind::Bgra32),
        Err(bad(u32::MAX, u32::MAX))
    );
}

#[test]
fn empty_payloads_repeat_the_last_frame() {
    let mut dec = Decoder::new();
    assert!(dec.previous().is_none());
    assert!(matches!(
        dec.decode(&[], 2, 2, PixelKind::Bgr24),
        Err(Error::NullFrameWithoutPredecessor)
    ));
    let px = content(12, 0, 10);
    let first = dec
        .decode(&encode_uncompressed(&px), 2, 2, PixelKind::Bgr24)
        .unwrap();
    for _ in 0..64 {
        let again = dec.decode(&encode_null(), 2, 2, PixelKind::Bgr24).unwrap();
        assert_eq!(again.pixels, first.pixels);
    }
    assert!(matches!(
        dec.decode(&[], 2, 3, PixelKind::Bgr24),
        Err(Error::PixelFormatMismatch { frame_type: 0 })
    ));
    assert!(matches!(
        dec.decode(&[], 2, 2, PixelKind::Bgra32),
        Err(Error::PixelFormatMismatch { frame_type: 0 })
    ));
    assert!(dec.decode(&[12], 2, 2, PixelKind::Bgr24).is_err());
    assert_eq!(dec.previous().unwrap().pixels, px);
    let direct = decode_frame_with_prev(&[], 2, 2, PixelKind::Bgr24, dec.previous()).unwrap();
    assert_eq!(direct.pixels, px);
    dec.reset();
    assert!(dec.previous().is_none());
}

#[test]
fn decoding_is_deterministic_and_total_on_noise() {
    let mut s = 99u32;
    for round in 0..600u32 {
        let len = (lcg(&mut s) % 80) as usize;
        let mut payload: Vec<u8> = (0..len).map(|_| lcg(&mut s) as u8).collect();
        if len > 0 {
            payload[0] = (round % 13) as u8;
        }
        let width = 1 + lcg(&mut s) % 64;
        let height = 1 + lcg(&mut s) % 64;
        for kind in PixelKind::all() {
            let a = decode_frame(&payload, width, height, kind);
            let b = decode_frame(&payload, width, height, kind);
            match (a, b) {
                (Ok(x), Ok(y)) => {
                    assert_eq!(x.pixels, y.pixels);
                    assert_eq!(x.pixels.len(), kind.buffer_len(width, height));
                }
                (Err(x), Err(y)) => assert_eq!(x, y),
                _ => panic!("two results"),
            }
        }
    }
}
