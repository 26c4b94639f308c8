use lagarith::legacy_range_coder::{
    build_legacy_cdf, build_legacy_pair_packed_cdf, decode_legacy_freq_table,
    encode_legacy_freq_table, is_rare_symbol_cluster, LegacyRangeDecoder, LegacyRangeEncoder,
};

#[test]
fn legacy_fib_freq_roundtrip_simple() {
    let mut freq = [0u32; 256];
    freq[0] = 5;
    freq[10] = 3;
    freq[100] = 1;
    freq[200] = 7;
    freq[255] = 2;
    let (bytes, _aligned) = encode_legacy_freq_table(&freq);
    let (got, _consumed, _aligned2) = decode_legacy_freq_table(&bytes).unwrap();
    assert_eq!(got[..], freq[..]);
}

#[test]
fn legacy_fib_freq_roundtrip_dense() {
    let mut freq = [0u32; 256];
    for (i, slot) in freq.iter_mut().enumerate() {
        *slot = ((i as u32) % 13) + 1;
    }
    let (bytes, _) = encode_legacy_freq_table(&freq);
    let (got, _, _) = decode_legacy_freq_table(&bytes).unwrap();
    for (i, (a, b)) in got.iter().zip(freq.iter()).enumerate() {
        assert_eq!(a, b, "i={i}");
    }
}

#[test]
fn legacy_fib_freq_roundtrip_with_zeros() {
    let mut freq = [0u32; 256];
    freq[0] = 1;
    freq[1] = 1;
    freq[255] = 5;
    let (bytes, _) = encode_legacy_freq_table(&freq);
    let (got, _, _) = decode_legacy_freq_table(&bytes).unwrap();
    assert_eq!(got, freq);
}

#[test]
fn build_cdf_lands_on_power_of_two_total() {
    let mut freq = [0u32; 256];
    freq[0] = 100;
    freq[1] = 50;
    freq[2] = 25;
    freq[10] = 10;
    let (cdf, total) = build_legacy_cdf(&freq).unwrap();
    assert_eq!(cdf.len(), 257);
    assert_eq!(cdf[256], total);
    assert!(total.is_power_of_two());
    assert!(total >= 185);
    for w in cdf.windows(2) {
        assert!(w[0] <= w[1], "CDF not monotonic: {} -> {}", w[0], w[1]);
    }
}

#[test]
fn build_cdf_uniform_sum_is_pow2() {
    let freq = [1u32; 256];
    let (cdf, total) = build_legacy_cdf(&freq).unwrap();
    assert_eq!(total, 256);
    assert_eq!(cdf[256], 256);
}

#[test]
fn legacy_range_coder_roundtrip_small() {
    let mut freq = [0u32; 256];
    freq[0] = 4;
    freq[1] = 1;
    freq[2] = 3;
    freq[7] = 2;
    let (cdf, total) = build_legacy_cdf(&freq).unwrap();

    let symbols: Vec<u8> = vec![0, 0, 1, 7, 2, 0, 7, 2, 2, 0, 1];
    let mut enc = LegacyRangeEncoder::new(cdf.clone(), total);
    for &s in &symbols {
        enc.encode_byte(s);
    }
    let bytes = enc.finish();

    let mut dec = LegacyRangeDecoder::new(&bytes, cdf, total).unwrap();
    let mut out = Vec::with_capacity(symbols.len());
    for _ in 0..symbols.len() {
        out.push(dec.decode_byte().unwrap());
    }
    assert_eq!(out, symbols);
}

#[test]
fn rare_symbol_cluster_detects_audit_12_canonical_fixture() {
    let mut freq = [0u32; 256];
    freq[0] = 887;
    freq[0x3d] = 1;
    freq[0x40] = 2;
    freq[0xc0] = 1;
    assert!(is_rare_symbol_cluster(&freq));
}

#[test]
fn rare_symbol_cluster_rejects_solid() {
    let mut freq = [0u32; 256];
    freq[0] = 1024;
    assert!(!is_rare_symbol_cluster(&freq));
}

#[test]
fn rare_symbol_cluster_rejects_too_few_rare_bins() {
    let mut freq = [0u32; 256];
    freq[0] = 1000;
    freq[10] = 1;
    freq[20] = 2;
    assert!(!is_rare_symbol_cluster(&freq));
}

#[test]
fn rare_symbol_cluster_rejects_no_dominant_zero() {
    let mut freq = [0u32; 256];
    for slot in freq.iter_mut() {
        *slot = 4;
    }
    assert!(!is_rare_symbol_cluster(&freq));
}

#[test]
fn rare_symbol_cluster_rejects_high_freq_neighbours() {
    let mut freq = [0u32; 256];
    freq[0] = 970;
    freq[1] = 10;
    freq[2] = 10;
    freq[3] = 10;
    assert!(!is_rare_symbol_cluster(&freq));
}

#[test]
fn legacy_range_coder_roundtrip_wide() {
    let mut freq = [0u32; 256];
    for (i, slot) in freq.iter_mut().enumerate() {
        *slot = ((i as u32 * 7) % 11) + 1;
    }
    let (cdf, total) = build_legacy_cdf(&freq).unwrap();

    let mut symbols = Vec::with_capacity(2000);
    for i in 0..2000 {
        symbols.push(((i * 31) ^ (i >> 3)) as u8);
    }
    let mut enc = LegacyRangeEncoder::new(cdf.clone(), total);
    for &s in &symbols {
        enc.encode_byte(s);
    }
    let bytes = enc.finish();

    let mut dec = LegacyRangeDecoder::new(&bytes, cdf, total).unwrap();
    let mut out = Vec::with_capacity(symbols.len());
    for _ in 0..symbols.len() {
        out.push(dec.decode_byte().unwrap());
    }
    assert_eq!(out, symbols);
}

#[test]
fn pair_packed_cdf_layout_and_total() {
    let mut freq = [0u32; 256];
    freq[0] = 100;
    freq[1] = 50;
    freq[2] = 25;
    freq[10] = 10;
    let (flat, total) = build_legacy_cdf(&freq).unwrap();
    let (pair, ptotal) = build_legacy_pair_packed_cdf(&freq).unwrap();
    assert_eq!(pair.len(), 513);
    assert_eq!(ptotal, total, "divisor total identical to flat form");
    for c in 0..256 {
        assert_eq!(
            pair[2 * c],
            flat[c] + c as u32,
            "pair lower bound of symbol {c} = flat[{c}] + {c} sentinels",
        );
        let freq_c = flat[c + 1] - flat[c];
        assert_eq!(pair[2 * c + 1], pair[2 * c] + freq_c);
    }
    assert_eq!(pair[512], total + 256);
}

#[test]
fn pair_packed_decode_is_length_correct_and_avoids_unreachable() {
    let mut freq = [0u32; 256];
    freq[0] = 887;
    freq[0x3d] = 1;
    freq[0x40] = 2;
    freq[0xc0] = 1;
    let (pair, total) = build_legacy_pair_packed_cdf(&freq).unwrap();
    assert_eq!(total, 1024);
    assert!(pair[2 * 0x40] >= total);
    assert!(pair[2 * 0xc0] >= total);

    let body: Vec<u8> = (0..64u8).map(|i| i.wrapping_mul(37) ^ 0x5a).collect();
    let mut dec = LegacyRangeDecoder::new_pair_packed(&body, pair, total).unwrap();
    let mut out = Vec::with_capacity(50);
    for _ in 0..50 {
        out.push(dec.decode_byte().unwrap());
    }
    assert_eq!(out.len(), 50);
    assert!(
        !out.contains(&0x40) && !out.contains(&0xc0),
        "unreachable pair-packed symbols decoded: {out:?}",
    );
}

#[test]
fn pair_packed_decode_deterministic() {
    let mut freq = [0u32; 256];
    freq[0] = 900;
    freq[5] = 2;
    freq[9] = 1;
    freq[200] = 1;
    let (pair, total) = build_legacy_pair_packed_cdf(&freq).unwrap();
    let body: Vec<u8> = (0..80u8).map(|i| i.wrapping_mul(91)).collect();
    let mut a = LegacyRangeDecoder::new_pair_packed(&body, pair.clone(), total).unwrap();
    let mut b = LegacyRangeDecoder::new_pair_packed(&body, pair, total).unwrap();
    for _ in 0..40 {
        assert_eq!(a.decode_byte().unwrap(), b.decode_byte().unwrap());
    }
}
