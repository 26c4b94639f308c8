use lagarith::channel::{decode_channel, decode_legacy_channel};
use lagarith::decoder::{decode_frame, PixelKind};
use lagarith::encoder::{
    encode_channel_best, encode_channel_raw_rle, encode_channel_simple, encode_legacy_channel,
    encode_legacy_channel_best, encode_legacy_rgb, encode_legacy_rgb_best,
};
use lagarith::fibonacci::encode_freq_table;
use lagarith::histogram::{rescale_to_max_total, MAX_MODERN_TOTAL};
use lagarith::range_coder::{Cdf, RangeEncoder, TOP};

fn encode_channel_simple_capped(plane: &[u8], cap: u32) -> Vec<u8> {
    let mut freq = [0u32; 256];
    for &b in plane {
        freq[b as usize] = freq[b as usize].saturating_add(1);
    }
    let freq = rescale_to_max_total(&freq, cap);
    let cdf = Cdf::from_frequencies(&freq).unwrap();
    let mut enc = RangeEncoder::new();
    for &b in plane {
        enc.encode_symbol(&cdf, b as usize);
    }
    let body = enc.finish();
    let prefix = encode_freq_table(&freq);
    let mut out = Vec::with_capacity(1 + prefix.len() + body.len());
    out.push(0x00);
    out.extend_from_slice(&prefix);
    out.extend_from_slice(&body);
    out
}

#[test]
fn rescale_noop_when_total_fits() {
    let mut freq = [0u32; 256];
    freq[0] = 4000;
    freq[7] = 50;
    freq[255] = 46;
    let out = rescale_to_max_total(&freq, MAX_MODERN_TOTAL);
    assert_eq!(out, freq, "fits-under-cap must be a verbatim passthrough");
}

#[test]
fn rescale_caps_total_and_preserves_nonzero() {
    let mut freq = [0u32; 256];
    freq[0] = 10_000_000;
    for s in 1..=200u32 {
        freq[s as usize] = 1;
    }
    let cap = MAX_MODERN_TOTAL;
    let out = rescale_to_max_total(&freq, cap);
    let total: u64 = out.iter().map(|&f| f as u64).sum();
    assert!(total <= cap as u64, "total {total} exceeds cap {cap}");
    for s in 0..256 {
        assert_eq!(
            out[s] > 0,
            freq[s] > 0,
            "nonzero-preservation broken at symbol {s}",
        );
    }
}

#[test]
fn rescale_small_cap_overshoot_trim() {
    let mut freq = [0u32; 256];
    for s in 0..256u32 {
        freq[s as usize] = 1000;
    }
    let cap = 300u32;
    let out = rescale_to_max_total(&freq, cap);
    let total: u64 = out.iter().map(|&f| f as u64).sum();
    assert!(total <= cap as u64, "total {total} exceeds cap {cap}");
    assert!(out.iter().all(|&f| f >= 1), "every used slot stays >= 1");
}

#[test]
fn rescale_capped_channel_roundtrip() {
    let mut plane = vec![0u8; 600];
    plane.extend(std::iter::repeat_n(17u8, 60));
    plane.extend(std::iter::repeat_n(200u8, 30));
    plane.extend([3u8, 9, 9, 250, 1, 1, 1, 1, 128, 128]);
    let n = plane.len();
    for cap in [16u32, 32, 64, 128, 300] {
        let channel = encode_channel_simple_capped(&plane, cap);
        let decoded = decode_channel(&channel, n).unwrap();
        assert_eq!(decoded, plane, "roundtrip mismatch at cap {cap}");
    }
}

#[test]
fn rescale_production_cap_large_plane_roundtrip() {
    let n = TOP as usize + 1024;
    let mut plane = vec![0u8; n];
    for (i, b) in plane.iter_mut().enumerate() {
        if i % 4096 == 0 {
            *b = ((i / 4096) % 200 + 1) as u8;
        }
    }
    let channel = encode_channel_simple(&plane);
    assert_eq!(channel[0], 0x00, "expected header-0x00 arith channel");
    let decoded = decode_channel(&channel, n).unwrap();
    assert_eq!(decoded, plane, "large-plane roundtrip mismatch");
}

#[test]
fn best_never_larger_than_simple() {
    for plane in best_test_planes() {
        let simple = encode_channel_simple(&plane);
        let best = encode_channel_best(&plane);
        assert!(
            best.len() <= simple.len(),
            "best ({}) larger than simple ({}) on plane len {} (best header {:#x}, simple header {:#x})",
            best.len(),
            simple.len(),
            plane.len(),
            best[0],
            simple[0],
        );
    }
}

#[test]
fn best_roundtrips_through_decoder() {
    for plane in best_test_planes() {
        let channel = encode_channel_best(&plane);
        let decoded = decode_channel(&channel, plane.len()).unwrap();
        assert_eq!(
            decoded,
            plane,
            "roundtrip mismatch (best header {:#x}, plane len {})",
            channel[0],
            plane.len(),
        );
    }
}

#[test]
fn best_picks_rle_form_on_zero_heavy_plane() {
    let mut plane = vec![0u8; 950];
    for i in 0..50 {
        plane.push(((i * 37 + 11) & 0xff) as u8);
    }
    plane.rotate_left(7);
    let best = encode_channel_best(&plane);
    let header = best[0];
    assert!(
        (0x01..=0x03).contains(&header) || (0x05..=0x07).contains(&header),
        "expected RLE-bearing header, got {header:#x} (len {})",
        best.len(),
    );
    let decoded = decode_channel(&best, plane.len()).unwrap();
    assert_eq!(decoded, plane);
}

#[test]
fn raw_rle_channel_roundtrips() {
    let mut plane = vec![1u8, 2, 3];
    plane.extend(std::iter::repeat_n(0u8, 50));
    plane.extend([7, 8, 9]);
    plane.extend(std::iter::repeat_n(0u8, 10));
    plane.extend([11, 0, 0, 0, 12, 13]);
    for escape_len in 1..=3usize {
        let channel = encode_channel_raw_rle(&plane, escape_len);
        assert_eq!(channel[0], escape_len as u8 + 4);
        let decoded = decode_channel(&channel, plane.len()).unwrap();
        assert_eq!(
            decoded, plane,
            "raw-rle roundtrip mismatch at e={escape_len}"
        );
    }
}

#[test]
fn best_beats_raw_on_flat_with_zero_runs() {
    let mut plane: Vec<u8> = (0u8..=255).collect();
    plane.extend(std::iter::repeat_n(0u8, 20));
    let raw_len = 1 + plane.len();
    let best = encode_channel_best(&plane);
    assert!(
        best.len() <= raw_len,
        "best ({}) didn't improve on raw ({}) — header was {:#x}",
        best.len(),
        raw_len,
        best[0],
    );
    let decoded = decode_channel(&best, plane.len()).unwrap();
    assert_eq!(decoded, plane);
}

#[test]
fn best_size_delta_on_residual_profile() {
    let mut plane = vec![0u8; 1900];
    for i in 0..100u32 {
        let v = ((i * 7) % 16 + 1) as u8;
        plane.push(v);
    }
    plane.rotate_left(13);
    let simple = encode_channel_simple(&plane);
    let best = encode_channel_best(&plane);
    let delta = simple.len() as i64 - best.len() as i64;
    let pct = 100.0 * delta as f64 / simple.len() as f64;
    assert!(
        pct >= 10.0,
        "best={} simple={} delta={} ({pct:.1}% gain) — selector failed to shrink residual",
        best.len(),
        simple.len(),
        delta,
    );
}

#[test]
fn legacy_best_never_larger_than_bare_fib() {
    for plane in legacy_best_test_planes() {
        let bare = encode_legacy_channel(&plane);
        let best = encode_legacy_channel_best(&plane);
        assert!(
            best.len() <= bare.len(),
            "legacy best ({}) larger than bare ({}) on plane len {} \
             (best header {:#x}, bare header {:#x})",
            best.len(),
            bare.len(),
            plane.len(),
            best[0],
            bare[0],
        );
    }
}

#[test]
fn legacy_best_roundtrips_through_decoder() {
    for plane in legacy_best_test_planes() {
        let channel = encode_legacy_channel_best(&plane);
        let decoded = decode_legacy_channel(&channel, plane.len()).unwrap();
        assert_eq!(
            decoded,
            plane,
            "legacy roundtrip mismatch (best header {:#x}, plane len {})",
            channel[0],
            plane.len(),
        );
    }
}

#[test]
fn legacy_best_only_emits_legal_headers() {
    for plane in legacy_best_test_planes() {
        let channel = encode_legacy_channel_best(&plane);
        let header = channel[0];
        assert!(
            (0x00..=0x03).contains(&header),
            "legacy selector emitted illegal header {header:#x}",
        );
    }
}

#[test]
fn legacy_best_tie_breaker_prefers_bare() {
    let mut plane = Vec::with_capacity(800);
    for i in 0..800 {
        plane.push(if i % 7 == 0 {
            ((i / 7) % 5 + 1) as u8
        } else {
            0
        });
    }
    let bare = encode_legacy_channel(&plane);
    let best = encode_legacy_channel_best(&plane);
    assert!(best.len() <= bare.len());
    assert_eq!(best[0], 0x00, "tie-breaker must keep bare-Fib form");
    assert_eq!(best, bare, "bare-tie must be byte-identical to bare");
}

#[test]
fn legacy_rgb_best_frame_roundtrips() {
    for &(w, h) in &[(4u32, 4u32), (8, 8), (16, 12)] {
        let n = (w * h) as usize;
        let mut pixels = Vec::with_capacity(n * 3);
        for i in 0..n {
            pixels.push(((i * 5 + 11) & 0xff) as u8);
            pixels.push(((i * 7 + 3) & 0xff) as u8);
            pixels.push(((i * 11 + 19) & 0xff) as u8);
        }
        let frame = encode_legacy_rgb_best(&pixels, w, h);
        assert_eq!(
            frame[0], 7,
            "legacy_rgb_best fell back to plain pixels at {w}x{h}"
        );
        let decoded = decode_frame(&frame, w, h, PixelKind::Bgr24).unwrap();
        assert_eq!(
            decoded.pixels, pixels,
            "legacy_rgb_best roundtrip mismatch at {w}x{h}",
        );
    }
}

#[test]
fn legacy_best_always_picks_bare_on_realistic_inputs() {
    let cases: &[(&str, Vec<u8>)] = &[
        ("dense_256", (0u8..=255).collect()),
        ("sparse_7", {
            let mut p = Vec::new();
            for i in 0..800 {
                p.push(if i % 7 == 0 {
                    ((i / 7) % 5 + 1) as u8
                } else {
                    0
                });
            }
            p
        }),
        ("two_symbol", {
            let mut p = vec![0u8; 1000];
            for i in (0..1000).step_by(13) {
                p[i] = 1;
            }
            p
        }),
        ("biased_50", {
            let mut p = Vec::new();
            for i in 0..2000 {
                p.push(if i % 3 == 0 { ((i % 50) + 5) as u8 } else { 0 });
            }
            p
        }),
    ];
    for (label, plane) in cases {
        let bare = encode_legacy_channel(plane);
        let best = encode_legacy_channel_best(plane);
        assert_eq!(
            best.len(),
            bare.len(),
            "{label}: escapes unexpectedly beat the plain table by {} bytes (bare={}, best={}, header={:#x})",
            bare.len() as i64 - best.len() as i64,
            bare.len(),
            best.len(),
            best[0],
        );
        assert_eq!(best[0], 0x00, "{label}: selector picked non-bare form");
    }
}

#[test]
fn legacy_rgb_best_frame_never_larger() {
    for &(w, h) in &[(4u32, 4u32), (8, 8), (16, 12)] {
        let n = (w * h) as usize;
        let mut pixels = Vec::with_capacity(n * 3);
        for i in 0..n {
            pixels.push(((i * 5 + 11) & 0xff) as u8);
            pixels.push(((i * 7 + 3) & 0xff) as u8);
            pixels.push(((i * 11 + 19) & 0xff) as u8);
        }
        let bare = encode_legacy_rgb(&pixels, w, h);
        let best = encode_legacy_rgb_best(&pixels, w, h);
        assert!(
            best.len() <= bare.len(),
            "legacy_rgb_best frame ({}) larger than legacy_rgb ({}) at {w}x{h}",
            best.len(),
            bare.len(),
        );
    }
}

#[test]
fn legacy_rgb_best_strategy_e_propagates() {
    let (w, h) = (33u32, 27);
    let n = (w * h) as usize;
    let (bg_b, bg_g, bg_r) = (0xa0u8, 0xd7u8, 0x40u8);
    let mut pixels = Vec::with_capacity(n * 3);
    for _ in 0..n {
        pixels.push(bg_b);
        pixels.push(bg_g);
        pixels.push(bg_r);
    }
    let centre = (n / 2) * 3 + 1;
    pixels[centre] = pixels[centre].wrapping_add(0x40);
    let frame = encode_legacy_rgb_best(&pixels, w, h);
    assert_eq!(
        frame[0], 1,
        "a rare-symbol cluster must fall back to plain pixels (got type {})",
        frame[0],
    );
}

fn legacy_best_test_planes() -> Vec<Vec<u8>> {
    let mut planes = Vec::new();

    planes.push(vec![10u8, 20, 30, 40, 50, 60, 70, 80]);

    let dense: Vec<u8> = (0u8..=255).collect();
    planes.push(dense);

    let mut sparse = Vec::with_capacity(400);
    for i in 0..400 {
        sparse.push(((i % 11) * 17) as u8);
    }
    planes.push(sparse);

    let mut mid = Vec::with_capacity(300);
    for i in 0..300u32 {
        mid.push((i.wrapping_mul(37).wrapping_add(11) & 0x3f) as u8);
    }
    planes.push(mid);

    planes.push((0u8..16).collect());

    planes
}

fn best_test_planes() -> Vec<Vec<u8>> {
    let mut planes = Vec::new();

    planes.push(Vec::new());
    planes.push(vec![42u8; 64]);

    let mut zero_heavy = vec![0u8; 200];
    for (i, b) in zero_heavy.iter_mut().enumerate() {
        if i % 17 == 0 {
            *b = ((i * 13 + 3) & 0xff) as u8;
        }
    }
    planes.push(zero_heavy);

    let mut skewed = vec![0u8; 256];
    skewed[10] = 200;
    skewed[200] = 17;
    planes.push(skewed);

    planes.push((0u8..=255).collect());

    let mut tail = vec![0u8; 600];
    for i in 0..100 {
        tail.push(((i as u32 * 7 % 11) + 1) as u8);
    }
    for i in 0..40 {
        tail.push(((i as u32 * 211) ^ 0x55) as u8);
    }
    planes.push(tail);

    planes.push(vec![1u8, 0, 0, 2, 3]);
    planes.push(vec![5u8; 4]);
    planes.push(vec![1u8, 2, 3, 4, 5, 6, 7, 8]);

    planes
}
