use lagarith::channel_encoder::{
    encode_body, encode_channel_arith_rle, encode_channel_raw_rle, encode_channel_simple,
};
use lagarith::channel::decode_channel;
use lagarith::fibonacci::{decode_freq_table, encode_freq_table, floor_log2, write_fib, BitWriter};
use lagarith::histogram::{histogram_from_plane, is_uniform};
use lagarith::legacy_range_coder::{
    decode_legacy_freq_table, encode_legacy_freq_table, is_rare_symbol_cluster, legacy_zeckendorf,
    rescale_freq,
};
use lagarith::legacy_channel_encoder::{encode_legacy_channel, encode_legacy_channel_rle};
use lagarith::pixels::{
    downscale_into, interleave3, interleave4, interleave_opaque, pack_yuy2, take_chroma,
    take_component3, take_component4, take_luma, upscale_plane_2x,
};
use lagarith::predict::{
    apply_plane_forward_with_rule, apply_plane_forward_yuy2, apply_plane_inverse_with_rule,
    apply_plane_inverse_yuv_seeded, apply_plane_inverse_yuy2, clamped_med_wrap, FirstColRule,
};
use lagarith::predictor::{unpredict_plane, PredictMode};
use lagarith::range_coder::{Cdf, RangeDecoder, RangeEncoder};
use lagarith::rle::{contract_raw, expand_raw};
use lagarith::scaling::{is_pow2, next_pow2};
use lagarith::tables::{rle_fwd_lut, rle_inv_lut};

#[test]
fn bytes_of_a_uniform_stream() {
    let cdf = Cdf::from_frequencies(&[1; 256]).unwrap();
    let mut enc = RangeEncoder::new();
    enc.encode_symbol(&cdf, 0x12);
    enc.encode_symbol(&cdf, 0x34);
    let bytes = enc.finish();
    assert_eq!(bytes, vec![0x12, 0x34, 0, 0, 0, 0]);
    let mut dec = RangeDecoder::new(&bytes).unwrap();
    assert_eq!(dec.decode_symbol(&cdf), Ok(0x12));
    assert_eq!(dec.decode_symbol(&cdf), Ok(0x34));
    assert_eq!(encode_body(&[0x12, 0x34], &[1; 256]), bytes);
}

#[test]
fn carries_run_through_pending_bytes() {
    let mut freq = [0u32; 256];
    freq[0] = 1;
    freq[1] = 2;
    let cdf = Cdf::from_frequencies(&freq).unwrap();
    for len in [1usize, 50, 333, 5000] {
        let symbols: Vec<u8> = (0..len).map(|i| u8::from(i % 7 != 3)).collect();
        let bytes = encode_body(&symbols, &freq);
        let mut dec = RangeDecoder::new(&bytes).unwrap();
        for &s in &symbols {
            assert_eq!(dec.decode_symbol(&cdf), Ok(s));
        }
    }
}

#[test]
fn fibonacci_codes_of_small_numbers() {
    let mut w = BitWriter::new();
    for v in [1u32, 2, 3, 4] {
        write_fib(&mut w, v);
    }
    assert!(!w.is_byte_aligned());
    // 11 011 0011 1011
    assert_eq!(w.finish(), vec![0b1101_1001, 0b1101_1000]);
    assert_eq!(floor_log2(1), 0);
    assert_eq!(floor_log2(255), 7);
    assert_eq!(floor_log2(256), 8);
}

#[test]
fn tables_of_large_frequencies_round_trip() {
    let mut freq = [0u32; 256];
    freq[0] = u32::MAX - 1;
    freq[17] = 1;
    freq[255] = 0x8000_0000;
    let bytes = encode_freq_table(&freq);
    let (got, used) = decode_freq_table(&bytes).unwrap();
    assert_eq!(got, freq);
    assert_eq!(used, bytes.len());
    let (bytes, _) = encode_legacy_freq_table(&freq);
    let (got, used, _) = decode_legacy_freq_table(&bytes).unwrap();
    assert_eq!(got, freq);
    assert_eq!(used, bytes.len());
}

#[test]
fn escapes_of_short_planes() {
    assert_eq!(contract_raw(&[0, 0, 0, 5], 1), vec![0, 1, 5]);
    assert_eq!(contract_raw(&[0, 0, 0, 0, 5], 1), vec![0, 254, 5]);
    assert_eq!(contract_raw(&[1, 0, 0, 2], 3), vec![1, 0, 0, 2]);
    assert_eq!(expand_raw(&[0, 1, 5], 1, 4).unwrap(), (vec![0, 0, 0, 5], 3));
    let fwd = rle_fwd_lut();
    let inv = rle_inv_lut();
    assert_eq!((fwd[0], fwd[1], fwd[255], fwd[128], fwd[127]), (0, 2, 1, 255, 254));
    for k in 2..256usize {
        assert_eq!(fwd[inv[k] as usize] as usize, k - 2);
    }
    assert_eq!((inv[0], inv[1]), (0, 0));
}

#[test]
fn escaped_symbols_round_trip() {
    let mut plane = vec![0u8; 300];
    plane.extend([1, 2, 3, 0, 0, 4]);
    for e in 1..=3usize {
        let ch = encode_channel_arith_rle(&plane, e);
        assert_eq!(decode_channel(&ch, plane.len()).unwrap(), plane);
    }
    let ch = encode_channel_arith_rle(&plane, 1);
    assert_eq!(ch[0], 1);
    let count = u32::from_le_bytes([ch[1], ch[2], ch[3], ch[4]]) as usize;
    assert_eq!(count, contract_raw(&plane, 1).len());
}

#[test]
fn powers_of_two() {
    assert_eq!(next_pow2(1), 1);
    assert_eq!(next_pow2(5), 8);
    assert_eq!(next_pow2(1 << 31), 1 << 31);
    assert!(is_pow2(64) && !is_pow2(65) && !is_pow2(0));
}

#[test]
fn histograms_count_samples() {
    let freq = histogram_from_plane(&[3, 3, 0, 255, 3]);
    assert_eq!((freq[3], freq[0], freq[255], freq[1]), (3, 1, 1, 0));
    assert!(is_uniform(&[4, 4, 4]));
    assert!(!is_uniform(&[4, 4, 5]));
}

#[test]
fn rescaled_residue_goes_to_slots_in_zigzag_order() {
    // 870 zeros and five symbols six times each, 900 samples in all: the
    // total becomes 1024, and five counts are handed out to 0, 255, 1, 254
    // and 2.
    let mut freq = [0u32; 256];
    freq[0] = 870;
    for s in [10usize, 20, 30, 40, 50] {
        freq[s] = 6;
    }
    let (table, total) = rescale_freq(&freq).unwrap();
    assert_eq!(total, 1024);
    assert_eq!(table.iter().sum::<u32>(), 1024);
    assert_eq!((table[0], table[255], table[1], table[254]), (990, 1, 1, 1));
    assert_eq!(table[10], 6);
    assert!(!is_rare_symbol_cluster(&freq));
    assert!(is_rare_symbol_cluster(&table));
}

#[test]
fn obsolete_channels_start_with_their_header() {
    let plane: Vec<u8> = (0..64u8).map(|i| i % 5).collect();
    let bare = encode_legacy_channel(&plane);
    assert_eq!(&bare[..2], &[0, 0]);
    for e in 1..=3usize {
        let ch = encode_legacy_channel_rle(&plane, e);
        assert_eq!(ch[0], e as u8);
        let table = u32::from_le_bytes([ch[1], ch[2], ch[3], ch[4]]);
        assert!(table <= 256);
    }
}

#[test]
fn wrapping_median() {
    assert_eq!(clamped_med_wrap(200, 100, 10), 100);
    assert_eq!(clamped_med_wrap(200, 100, 150), 150);
    assert_eq!(clamped_med_wrap(10, 20, 40), 20);
}

#[test]
fn predictions_of_small_planes() {
    // Two rows of two: 10 20 / 40 70.
    let plane = [10u8, 20, 40, 70];
    assert_eq!(
        apply_plane_forward_with_rule(&plane, 2, 2, FirstColRule::B),
        vec![10, 10, 30, 30]
    );
    assert_eq!(
        apply_plane_forward_with_rule(&plane, 2, 2, FirstColRule::Yuv),
        vec![10, 10, 20, 30]
    );
    assert_eq!(
        apply_plane_forward_yuy2(&plane, 2, 2, true),
        vec![10, 20, 20, 30]
    );
    assert_eq!(
        apply_plane_forward_yuy2(&plane, 2, 2, false),
        vec![10, 10, 20, 30]
    );
    for rule in [FirstColRule::A, FirstColRule::B, FirstColRule::Yuv] {
        let mut back = apply_plane_forward_with_rule(&plane, 2, 2, rule);
        apply_plane_inverse_with_rule(&mut back, 2, 2, rule);
        assert_eq!(back, plane);
    }
    for luma in [true, false] {
        let mut back = apply_plane_forward_yuy2(&plane, 2, 2, luma);
        apply_plane_inverse_yuy2(&mut back, 2, 2, luma);
        assert_eq!(back, plane);
    }
    let res = apply_plane_forward_with_rule(&plane, 2, 2, FirstColRule::Yuv);
    let mut seeded = res.clone();
    apply_plane_inverse_yuv_seeded(&mut seeded, 2, 2, plane[0]);
    assert_eq!(seeded, plane);
}

#[test]
fn seeded_rows() {
    // The first sample of row 1 is predicted from above or as zero.
    let mut rgb = vec![10u8, 10, 5, 0];
    unpredict_plane(&mut rgb, 2, 2, PredictMode::Rgb);
    assert_eq!(rgb, vec![10, 20, 15, 20]);
    let mut yuv = vec![10u8, 10, 5, 0];
    unpredict_plane(&mut yuv, 2, 2, PredictMode::Yuv);
    assert_eq!(yuv, vec![10, 20, 5, 15]);

    let plane: Vec<u8> = (0..35u32).map(|i| (i * i * 3) as u8).collect();
    let mut res = apply_plane_forward_with_rule(&plane, 5, 7, FirstColRule::B);
    unpredict_plane(&mut res, 5, 7, PredictMode::Rgb);
    assert_eq!(res, plane);
    unpredict_plane(&mut [], 0, 7, PredictMode::Rgb);
}

#[test]
fn components_interleave() {
    let px = interleave3(&[1, 2], &[3, 4], &[5, 6]);
    assert_eq!(px, vec![1, 3, 5, 2, 4, 6]);
    assert_eq!(take_component3(&px, 1), vec![3, 4]);
    let px = interleave4(&[1, 2], &[3, 4], &[5, 6], &[7, 8]);
    assert_eq!(px, vec![1, 3, 5, 7, 2, 4, 6, 8]);
    assert_eq!(take_component4(&px, 3), vec![7, 8]);
    assert_eq!(interleave_opaque(&[1], &[2], &[3]), vec![1, 2, 3, 255]);
}

#[test]
fn packed_chroma() {
    let px = pack_yuy2(&[1, 2, 3, 4, 5, 6], &[7, 8], &[9, 10], 3, 2);
    assert_eq!(px, vec![1, 7, 2, 9, 3, 0x80, 4, 8, 5, 10, 6, 0x80]);
    assert_eq!(take_luma(&px), vec![1, 2, 3, 4, 5, 6]);
    assert_eq!(take_chroma(&px, 3, 2, 0), vec![7, 8]);
    assert_eq!(take_chroma(&px, 3, 2, 1), vec![9, 10]);
}

#[test]
fn doubled_planes() {
    let up = upscale_plane_2x(&[1, 2], 2, 1);
    assert_eq!(up, vec![1, 1, 2, 2, 1, 1, 2, 2]);
    let mut down = vec![9u8];
    downscale_into(&mut down, &up, 0, 4, 2);
    assert_eq!(down, vec![9, 1, 2]);
}

#[test]
fn zeckendorf_positions() {
    assert_eq!(legacy_zeckendorf(1), vec![0]);
    assert_eq!(legacy_zeckendorf(4), vec![0, 2]);
    assert_eq!(legacy_zeckendorf(33), vec![0, 2, 4, 6]);
    assert_eq!(legacy_zeckendorf(34), vec![7]);
}

#[test]
fn counts_beyond_the_plane_mean_no_escapes() {
    let plane: Vec<u8> = (0..200u32).map(|i| (i * i % 7) as u8).collect();
    let mut ch = encode_channel_simple(&plane);
    assert_eq!(ch[0], 0);
    let count = u32::from_le_bytes([ch[1], ch[2], ch[3], ch[4]]);
    assert!(count as usize >= plane.len());
    for header in 1..=3u8 {
        ch[0] = header;
        assert_eq!(decode_channel(&ch, plane.len()).unwrap(), plane);
    }
}

#[test]
fn every_channel_form_decodes() {
    let mut plane = vec![0u8; 80];
    plane.extend([5, 6, 5, 0, 0, 0, 7, 5]);
    let mut seen = vec![];
    for e in 1..=3usize {
        for ch in [
            encode_channel_arith_rle(&plane, e),
            encode_channel_raw_rle(&plane, e),
        ] {
            assert_eq!(decode_channel(&ch, plane.len()).unwrap(), plane);
            seen.push(ch[0]);
        }
    }
    let noise: Vec<u8> = (0..64u32).map(|i| (i * 37 + i * i) as u8).collect();
    for p in [vec![9u8; 30], noise, plane] {
        let ch = encode_channel_simple(&p);
        assert_eq!(decode_channel(&ch, p.len()).unwrap(), p);
        seen.push(ch[0]);
    }
    seen.sort_unstable();
    assert_eq!(seen, vec![0, 1, 2, 3, 4, 5, 6, 7, 0xff]);
}
