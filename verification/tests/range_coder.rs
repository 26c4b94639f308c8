use lagarith::range_coder::{Cdf, RangeDecoder, RangeEncoder};

#[test]
fn cdf_find_symbol() {
    let mut freq = [0u32; 256];
    freq[0] = 10;
    freq[1] = 20;
    freq[2] = 30;
    let cdf = Cdf::from_frequencies(&freq).unwrap();
    assert_eq!(cdf.find_symbol(0), 0);
    assert_eq!(cdf.find_symbol(9), 0);
    assert_eq!(cdf.find_symbol(10), 1);
    assert_eq!(cdf.find_symbol(29), 1);
    assert_eq!(cdf.find_symbol(30), 2);
    assert_eq!(cdf.find_symbol(59), 2);
}

#[test]
fn rangecoder_roundtrip_small() {
    let mut freq = [0u32; 256];
    freq[0] = 4;
    freq[1] = 1;
    freq[2] = 3;
    freq[7] = 2;
    let cdf = Cdf::from_frequencies(&freq).unwrap();

    let symbols = vec![0u8, 0, 1, 7, 2, 0, 7, 2, 2, 0, 1];
    let mut enc = RangeEncoder::new();
    for &s in &symbols {
        enc.encode_symbol(&cdf, s as usize);
    }
    let bytes = enc.finish();

    let mut dec = RangeDecoder::new(&bytes).unwrap();
    let mut out = Vec::with_capacity(symbols.len());
    for _ in 0..symbols.len() {
        out.push(dec.decode_symbol(&cdf).unwrap());
    }
    assert_eq!(out, symbols);
}

#[test]
fn rangecoder_roundtrip_wide() {
    let mut freq = [0u32; 256];
    for (i, slot) in freq.iter_mut().enumerate() {
        *slot = ((i as u32 * 7) % 11) + 1;
    }
    let cdf = Cdf::from_frequencies(&freq).unwrap();

    let mut symbols = Vec::with_capacity(2000);
    for i in 0..2000 {
        symbols.push(((i * 31) ^ (i >> 3)) as u8);
    }

    let mut enc = RangeEncoder::new();
    for &s in &symbols {
        enc.encode_symbol(&cdf, s as usize);
    }
    let bytes = enc.finish();

    let mut dec = RangeDecoder::new(&bytes).unwrap();
    let mut out = Vec::with_capacity(symbols.len());
    for _ in 0..symbols.len() {
        out.push(dec.decode_symbol(&cdf).unwrap());
    }
    assert_eq!(out, symbols);
}

#[test]
fn rangecoder_roundtrip_step_a_dominant() {
    let mut freq = [0u32; 256];
    freq[0] = 9500;
    for slot in freq.iter_mut().take(256).skip(1) {
        *slot = 2;
    }
    let cdf = Cdf::from_frequencies(&freq).unwrap();

    let mut symbols = Vec::with_capacity(10_000);
    for i in 0..10_000 {
        if i % 20 == 0 {
            symbols.push(((i * 7 + 1) & 0xff) as u8);
        } else {
            symbols.push(0u8);
        }
    }

    let mut enc = RangeEncoder::new();
    for &s in &symbols {
        enc.encode_symbol(&cdf, s as usize);
    }
    let bytes = enc.finish();

    let mut dec = RangeDecoder::new(&bytes).unwrap();
    let mut out = Vec::with_capacity(symbols.len());
    for _ in 0..symbols.len() {
        out.push(dec.decode_symbol(&cdf).unwrap());
    }
    assert_eq!(out, symbols);
}

#[test]
fn rangecoder_roundtrip_step_b_hits() {
    let mut freq = [0u32; 256];
    freq[0] = 100;
    freq[255] = 100;
    for slot in freq.iter_mut().take(255).skip(1) {
        *slot = 1;
    }
    let cdf = Cdf::from_frequencies(&freq).unwrap();

    let mut symbols = Vec::with_capacity(2000);
    for i in 0..2000 {
        symbols.push(match i % 5 {
            0 => 0u8,
            1 => 0xff,
            2 => 0u8,
            3 => 0xff,
            _ => ((i * 13) & 0xfe) as u8 | 1,
        });
    }

    let mut enc = RangeEncoder::new();
    for &s in &symbols {
        enc.encode_symbol(&cdf, s as usize);
    }
    let bytes = enc.finish();

    let mut dec = RangeDecoder::new(&bytes).unwrap();
    let mut out = Vec::with_capacity(symbols.len());
    for _ in 0..symbols.len() {
        out.push(dec.decode_symbol(&cdf).unwrap());
    }
    assert_eq!(out, symbols);
}

#[test]
fn rangecoder_throughput_signal_heavy() {
    let mut freq = [0u32; 256];
    freq[0] = 60_000;
    for slot in freq.iter_mut().take(256).skip(1) {
        *slot = 16;
    }
    let cdf = Cdf::from_frequencies(&freq).unwrap();

    let n = 65_536;
    let mut symbols = Vec::with_capacity(n);
    for i in 0..n {
        let r = (i as u32).wrapping_mul(2654435761) ^ (i as u32 >> 7);
        symbols.push(if (r & 0xf) < 15 {
            0u8
        } else {
            ((r >> 4) & 0xff) as u8
        });
    }

    let mut enc = RangeEncoder::new();
    for &s in &symbols {
        enc.encode_symbol(&cdf, s as usize);
    }
    let bytes = enc.finish();

    {
        let mut dec = RangeDecoder::new(&bytes).unwrap();
        let mut out = Vec::with_capacity(symbols.len());
        for _ in 0..symbols.len() {
            out.push(dec.decode_symbol(&cdf).unwrap());
        }
        assert_eq!(out, symbols);
    }
}

#[test]
fn rangecoder_renormalise_tail_saturates() {
    let mut freq = [0u32; 256];
    freq[0] = 8;
    freq[1] = 1;
    let cdf = Cdf::from_frequencies(&freq).unwrap();

    let symbols = vec![0u8, 0, 0, 0, 1, 0, 0, 0, 1, 0];
    let mut enc = RangeEncoder::new();
    for &s in &symbols {
        enc.encode_symbol(&cdf, s as usize);
    }
    let bytes = enc.finish();

    let mut dec = RangeDecoder::new(&bytes).unwrap();
    let mut out = Vec::with_capacity(symbols.len());
    for _ in 0..symbols.len() {
        out.push(dec.decode_symbol(&cdf).unwrap());
    }
    assert_eq!(out, symbols);
}

#[test]
fn rangecoder_encode_step_a_dominant_roundtrip() {
    let mut freq = [0u32; 256];
    freq[0] = 9500;
    for slot in freq.iter_mut().take(256).skip(1) {
        *slot = 2;
    }
    let cdf = Cdf::from_frequencies(&freq).unwrap();

    let mut symbols = Vec::with_capacity(10_000);
    for i in 0..10_000 {
        if i % 20 == 0 {
            symbols.push(((i * 7 + 1) & 0xff) as u8);
        } else {
            symbols.push(0u8);
        }
    }

    let mut enc = RangeEncoder::new();
    for &s in &symbols {
        enc.encode_symbol(&cdf, s as usize);
    }
    let bytes = enc.finish();

    let mut dec = RangeDecoder::new(&bytes).unwrap();
    let mut out = Vec::with_capacity(symbols.len());
    for _ in 0..symbols.len() {
        out.push(dec.decode_symbol(&cdf).unwrap());
    }
    assert_eq!(out, symbols);
}

#[test]
fn rangecoder_step_a_encode_bit_equiv_to_generic() {
    let mut freq = [0u32; 256];
    freq[0] = 9500;
    for slot in freq.iter_mut().take(256).skip(1) {
        *slot = 2;
    }
    let cdf = Cdf::from_frequencies(&freq).unwrap();

    let mut symbols = Vec::with_capacity(4_000);
    for i in 0..4_000 {
        if i % 17 == 0 {
            symbols.push(((i * 13 + 1) & 0xff) as u8);
        } else {
            symbols.push(0u8);
        }
    }

    let mut enc_fast = RangeEncoder::new();
    for &s in &symbols {
        enc_fast.encode_symbol(&cdf, s as usize);
    }
    let bytes_fast = enc_fast.finish();

    let mut enc_generic = RangeEncoder::new();
    for &s in &symbols {
        let total = cdf.total();
        let q = enc_generic.range / total;
        let lo = cdf.lo(s as usize);
        let hi = cdf.lo(s as usize + 1);
        enc_generic.low = enc_generic.low.wrapping_add(lo * q);
        enc_generic.range = (hi - lo) * q;
        enc_generic.renormalise();
    }
    let bytes_generic = enc_generic.finish();

    assert_eq!(
        bytes_fast, bytes_generic,
        "Step-A fast path diverged from generic Step-C update"
    );
}

#[test]
fn rangecoder_encode_throughput_signal_heavy() {
    let mut freq = [0u32; 256];
    freq[0] = 60_000;
    for slot in freq.iter_mut().take(256).skip(1) {
        *slot = 16;
    }
    let cdf = Cdf::from_frequencies(&freq).unwrap();

    let n = 65_536;
    let mut symbols = Vec::with_capacity(n);
    for i in 0..n {
        let r = (i as u32).wrapping_mul(2654435761) ^ (i as u32 >> 7);
        symbols.push(if (r & 0xf) < 15 {
            0u8
        } else {
            ((r >> 4) & 0xff) as u8
        });
    }

    let mut enc = RangeEncoder::new();
    for &s in &symbols {
        enc.encode_symbol(&cdf, s as usize);
    }
    let bytes = enc.finish();
    let mut dec = RangeDecoder::new(&bytes).unwrap();
    let mut out = Vec::with_capacity(symbols.len());
    for _ in 0..symbols.len() {
        out.push(dec.decode_symbol(&cdf).unwrap());
    }
    assert_eq!(out, symbols);
}

#[test]
fn rangecoder_encode_step_b_dominant_roundtrip() {
    let mut freq = [0u32; 256];
    freq[255] = 9500;
    for slot in freq.iter_mut().take(255) {
        *slot = 2;
    }
    let cdf = Cdf::from_frequencies(&freq).unwrap();

    let mut symbols = Vec::with_capacity(10_000);
    for i in 0..10_000 {
        if i % 20 == 0 {
            symbols.push(((i * 7) & 0xfe) as u8);
        } else {
            symbols.push(0xffu8);
        }
    }

    let mut enc = RangeEncoder::new();
    for &s in &symbols {
        enc.encode_symbol(&cdf, s as usize);
    }
    let bytes = enc.finish();

    let mut dec = RangeDecoder::new(&bytes).unwrap();
    let mut out = Vec::with_capacity(symbols.len());
    for _ in 0..symbols.len() {
        out.push(dec.decode_symbol(&cdf).unwrap());
    }
    assert_eq!(out, symbols);
}

#[test]
fn rangecoder_step_b_encode_bit_equiv_to_generic() {
    let mut freq = [0u32; 256];
    freq[255] = 9500;
    for slot in freq.iter_mut().take(255) {
        *slot = 2;
    }
    let cdf = Cdf::from_frequencies(&freq).unwrap();

    let mut symbols = Vec::with_capacity(4_000);
    for i in 0..4_000 {
        if i % 17 == 0 {
            symbols.push(((i * 13) & 0xfe) as u8);
        } else {
            symbols.push(0xffu8);
        }
    }

    let mut enc_fast = RangeEncoder::new();
    for &s in &symbols {
        enc_fast.encode_symbol(&cdf, s as usize);
    }
    let bytes_fast = enc_fast.finish();

    let mut enc_generic = RangeEncoder::new();
    for &s in &symbols {
        let total = cdf.total();
        let q = enc_generic.range / total;
        let lo = cdf.lo(s as usize);
        let hi = cdf.lo(s as usize + 1);
        enc_generic.low = enc_generic.low.wrapping_add(lo * q);
        enc_generic.range = (hi - lo) * q;
        enc_generic.renormalise();
    }
    let bytes_generic = enc_generic.finish();

    assert_eq!(
        bytes_fast, bytes_generic,
        "Step-B fast path diverged from generic Step-C update"
    );
}

#[test]
fn rangecoder_encode_throughput_step_b_heavy() {
    let mut freq = [0u32; 256];
    freq[255] = 60_000;
    for slot in freq.iter_mut().take(255) {
        *slot = 16;
    }
    let cdf = Cdf::from_frequencies(&freq).unwrap();

    let n = 65_536;
    let mut symbols = Vec::with_capacity(n);
    for i in 0..n {
        let r = (i as u32).wrapping_mul(2654435761) ^ (i as u32 >> 7);
        symbols.push(if (r & 0xf) < 15 {
            0xffu8
        } else {
            ((r >> 4) & 0xfe) as u8
        });
    }

    let mut enc = RangeEncoder::new();
    for &s in &symbols {
        enc.encode_symbol(&cdf, s as usize);
    }
    let bytes = enc.finish();
    let mut dec = RangeDecoder::new(&bytes).unwrap();
    let mut out = Vec::with_capacity(symbols.len());
    for _ in 0..symbols.len() {
        out.push(dec.decode_symbol(&cdf).unwrap());
    }
    assert_eq!(out, symbols);
}

#[test]
fn rangecoder_encode_step_c_dominant_roundtrip() {
    let mut freq = [0u32; 256];
    freq[0] = 5;
    freq[255] = 5;
    for slot in freq.iter_mut().take(255).skip(1) {
        *slot = 40;
    }
    let cdf = Cdf::from_frequencies(&freq).unwrap();

    let mut symbols = Vec::with_capacity(10_000);
    for i in 0..10_000 {
        let r = (i as u32).wrapping_mul(2654435761) ^ (i as u32 >> 5);
        symbols.push(match r % 100 {
            0 => 0u8,
            1 => 0xffu8,
            _ => 1 + (r >> 8) as u8 % 254,
        });
    }

    let mut enc = RangeEncoder::new();
    for &s in &symbols {
        enc.encode_symbol(&cdf, s as usize);
    }
    let bytes = enc.finish();

    let mut dec = RangeDecoder::new(&bytes).unwrap();
    let mut out = Vec::with_capacity(symbols.len());
    for _ in 0..symbols.len() {
        out.push(dec.decode_symbol(&cdf).unwrap());
    }
    assert_eq!(out, symbols);
}

#[test]
fn rangecoder_step_c_encode_bit_equiv_to_generic() {
    let mut freq = [0u32; 256];
    freq[0] = 10;
    freq[255] = 10;
    for slot in freq.iter_mut().take(255).skip(1) {
        *slot = 35;
    }
    let cdf = Cdf::from_frequencies(&freq).unwrap();

    let mut symbols = Vec::with_capacity(6_000);
    for i in 0..6_000 {
        let s = 1u32 + ((i as u32).wrapping_mul(31) % 253);
        symbols.push(s as u8);
    }

    let mut enc_fast = RangeEncoder::new();
    for &s in &symbols {
        enc_fast.encode_symbol(&cdf, s as usize);
    }
    let bytes_fast = enc_fast.finish();

    let mut enc_ref = RangeEncoder::new();
    for &s in &symbols {
        let total = cdf.total();
        let q = enc_ref.range / total;
        let lo = cdf.lo(s as usize);
        let hi = cdf.lo(s as usize + 1);
        enc_ref.low = enc_ref.low.wrapping_add(lo * q);
        enc_ref.range = (hi - lo) * q;
        enc_ref.renormalise();
    }
    let bytes_ref = enc_ref.finish();

    assert_eq!(
        bytes_fast, bytes_ref,
        "Step-C packed-pair cache diverged from the cumulative form"
    );
}

#[test]
fn rangecoder_encode_throughput_step_c_heavy() {
    let mut freq = [0u32; 256];
    freq[0] = 16;
    freq[255] = 16;
    for slot in freq.iter_mut().take(255).skip(1) {
        *slot = 252;
    }
    let cdf = Cdf::from_frequencies(&freq).unwrap();

    let n = 65_536;
    let mut symbols = Vec::with_capacity(n);
    for i in 0..n {
        let r = (i as u32).wrapping_mul(2654435761) ^ (i as u32 >> 7);
        symbols.push(match r % 100 {
            0 => 0u8,
            1 => 0xffu8,
            _ => 1 + (r >> 8) as u8 % 254,
        });
    }

    let mut enc = RangeEncoder::new();
    for &s in &symbols {
        enc.encode_symbol(&cdf, s as usize);
    }
    let bytes = enc.finish();
    let mut dec = RangeDecoder::new(&bytes).unwrap();
    let mut out = Vec::with_capacity(symbols.len());
    for _ in 0..symbols.len() {
        out.push(dec.decode_symbol(&cdf).unwrap());
    }
    assert_eq!(out, symbols);
}

#[test]
fn rangecoder_encode_laplacian_residual_roundtrip() {
    let mut freq = [0u32; 256];
    freq[0] = 6000;
    freq[1] = 1500;
    freq[254] = 1500;
    freq[255] = 1000;
    for slot in freq.iter_mut().take(254).skip(2) {
        *slot = 1;
    }
    let cdf = Cdf::from_frequencies(&freq).unwrap();

    let mut symbols = Vec::with_capacity(10_000);
    for i in 0..10_000 {
        let r = (i as u32).wrapping_mul(2654435761) ^ (i as u32 >> 7);
        symbols.push(match r % 100 {
            0..=59 => 0u8,
            60..=74 => 1u8,
            75..=89 => 254u8,
            90..=98 => 255u8,
            _ => 2u8 + (r >> 8) as u8 % 252,
        });
    }

    let mut enc = RangeEncoder::new();
    for &s in &symbols {
        enc.encode_symbol(&cdf, s as usize);
    }
    let bytes = enc.finish();

    let mut dec = RangeDecoder::new(&bytes).unwrap();
    let mut out = Vec::with_capacity(symbols.len());
    for _ in 0..symbols.len() {
        out.push(dec.decode_symbol(&cdf).unwrap());
    }
    assert_eq!(out, symbols);
}

#[test]
fn cdf_freq_matches_array_form() {
    let mut freq = [0u32; 256];
    for (i, slot) in freq.iter_mut().enumerate() {
        *slot = ((i as u32 * 7) % 17) + 1;
    }
    let cdf = Cdf::from_frequencies(&freq).unwrap();

    for s in 0..256 {
        assert_eq!(
            cdf.freq(s),
            cdf.lo(s + 1) - cdf.lo(s),
            "freq(s) != cum[s+1] - cum[s] at s={}",
            s
        );
    }
}

#[test]
fn rangecoder_shift_low_started_byte_equiv_to_option() {
    let mut freq = [0u32; 256];
    for (i, slot) in freq.iter_mut().enumerate() {
        *slot = ((i as u32 * 7) % 11) + 1;
    }
    let cdf = Cdf::from_frequencies(&freq).unwrap();

    let mut symbols = Vec::with_capacity(8_000);
    for i in 0..8_000 {
        symbols.push(((i * 31) ^ (i >> 3)) as u8);
    }

    let mut enc = RangeEncoder::new();
    for &s in &symbols {
        enc.encode_symbol(&cdf, s as usize);
    }
    let bytes = enc.finish();

    let mut dec = RangeDecoder::new(&bytes).unwrap();
    let mut out = Vec::with_capacity(symbols.len());
    for _ in 0..symbols.len() {
        out.push(dec.decode_symbol(&cdf).unwrap());
    }
    assert_eq!(out, symbols);
}

#[test]
fn rangecoder_finish_resize_byte_equiv_to_push_loop() {
    let mut freq = [0u32; 256];
    freq[255] = 9500;
    for slot in freq.iter_mut().take(255) {
        *slot = 2;
    }
    let cdf = Cdf::from_frequencies(&freq).unwrap();

    let mut symbols = Vec::with_capacity(4_000);
    for i in 0..4_000 {
        symbols.push(if i % 23 == 0 {
            ((i * 7) & 0xfe) as u8
        } else {
            0xffu8
        });
    }

    let mut enc_fast = RangeEncoder::new();
    for &s in &symbols {
        enc_fast.encode_symbol(&cdf, s as usize);
    }
    let bytes_fast = enc_fast.finish();

    let mut enc_ref = RangeEncoder::new();
    for &s in &symbols {
        enc_ref.encode_symbol(&cdf, s as usize);
    }
    let bytes_ref = finish_via_push_loop(enc_ref);

    assert_eq!(
        bytes_fast, bytes_ref,
        "bulk flush diverged from the byte-by-byte flush"
    );
}

fn finish_via_push_loop(mut enc: RangeEncoder) -> Vec<u8> {
    let carry = (enc.low >> 31) & 1 == 1;
    if carry {
        if enc.started {
            enc.buf.push(enc.cache.wrapping_add(1));
        }
        for _ in 0..enc.pending_ffs {
            enc.buf.push(0x00);
        }
    } else {
        if enc.started {
            enc.buf.push(enc.cache);
        }
        for _ in 0..enc.pending_ffs {
            enc.buf.push(0xff);
        }
    }
    enc.started = false;
    enc.pending_ffs = 0;
    enc.low &= 0x7fff_ffff;
    let low = enc.low;
    let tail = [
        ((low >> 23) & 0xff) as u8,
        ((low >> 15) & 0xff) as u8,
        ((low >> 7) & 0xff) as u8,
        ((low << 1) & 0xff) as u8,
    ];
    enc.buf.extend_from_slice(&tail);
    enc.buf
}

#[test]
fn rangecoder_encode_throughput_finish_heavy() {
    let mut freq = [0u32; 256];
    freq[255] = 60_000;
    for slot in freq.iter_mut().take(255) {
        *slot = 16;
    }
    let cdf = Cdf::from_frequencies(&freq).unwrap();

    let n_channels: usize = 512;
    let symbols_per_channel: usize = 128;
    let mut all_symbols: Vec<Vec<u8>> = Vec::with_capacity(n_channels);
    for ch in 0..n_channels {
        let mut symbols = Vec::with_capacity(symbols_per_channel);
        for i in 0..symbols_per_channel {
            let r = ((ch * symbols_per_channel + i) as u32).wrapping_mul(2654435761)
                ^ (i as u32 >> 7);
            symbols.push(if (r & 0xf) < 15 {
                0xffu8
            } else {
                ((r >> 4) & 0xfe) as u8
            });
        }
        all_symbols.push(symbols);
    }

    for symbols in &all_symbols {
        let mut enc = RangeEncoder::new();
        for &s in symbols {
            enc.encode_symbol(&cdf, s as usize);
        }
        let bytes = enc.finish();
        let mut dec = RangeDecoder::new(&bytes).unwrap();
        let mut out = Vec::with_capacity(symbols.len());
        for _ in 0..symbols.len() {
            out.push(dec.decode_symbol(&cdf).unwrap());
        }
        assert_eq!(&out, symbols);
    }
}
