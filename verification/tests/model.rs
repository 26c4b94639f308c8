use lagarith::error::Error;
use lagarith::model::normalize_wire_freq_table;
use lagarith::range_coder::INIT_RANGE;

#[test]
fn pow2_total_is_identity() {
    let mut freq = [0u32; 256];
    freq[0] = 13;
    freq[7] = 2;
    freq[255] = 1;
    let out = normalize_wire_freq_table(&freq).unwrap();
    assert_eq!(out, freq);
}

#[test]
fn total_one_is_identity() {
    let mut freq = [0u32; 256];
    freq[42] = 1;
    let out = normalize_wire_freq_table(&freq).unwrap();
    assert_eq!(out, freq);
}

#[test]
fn unit_frequencies_deficit_distribution() {
    let mut freq = [0u32; 256];
    for slot in freq.iter_mut().take(5) {
        *slot = 1;
    }
    let out = normalize_wire_freq_table(&freq).unwrap();
    assert_eq!(&out[..5], &[2, 2, 2, 1, 1]);
    assert_eq!(out[5..].iter().sum::<u32>(), 0);
    assert_eq!(out.iter().sum::<u32>(), 8);
}

#[test]
fn deficit_distribution_wraps_low_128() {
    let mut freq = [0u32; 256];
    freq[0] = 1;
    freq[1] = 1;
    freq[130] = 1;
    freq[131] = 1;
    freq[132] = 1;
    let out = normalize_wire_freq_table(&freq).unwrap();
    assert_eq!(out[0], 3);
    assert_eq!(out[1], 2);
    assert_eq!(out[130], 1);
    assert_eq!(out[131], 1);
    assert_eq!(out[132], 1);
    assert_eq!(out.iter().sum::<u32>(), 8);
}

#[test]
fn distribution_window_boundary_symbol_127_in_128_out() {
    let mut freq = [0u32; 256];
    freq[127] = 1;
    freq[128] = 1;
    freq[129] = 1;
    let out = normalize_wire_freq_table(&freq).unwrap();
    assert_eq!(out[127], 2);
    assert_eq!(out[128], 1);
    assert_eq!(out[129], 1);
    assert_eq!(out.iter().sum::<u32>(), 4);
}

#[test]
fn deficit_never_resurrects_zero_slots() {
    let mut freq = [0u32; 256];
    freq[3] = 1;
    freq[9] = 1;
    freq[100] = 1;
    let out = normalize_wire_freq_table(&freq).unwrap();
    assert_eq!(out[3], 2);
    assert_eq!(out[9], 1);
    assert_eq!(out[100], 1);
    for (s, &f) in out.iter().enumerate() {
        if ![3, 9, 100].contains(&s) {
            assert_eq!(f, 0, "slot {s} resurrected");
        }
    }
}

#[test]
fn normalized_total_is_exact_pow2_sweep() {
    let mut seed = 0x1234_5678u32;
    let mut rng = move || {
        seed = seed.wrapping_mul(1664525).wrapping_add(1013904223);
        seed
    };
    for case in 0..500 {
        let mut freq = [0u32; 256];
        let nonzero = 2 + (rng() % 254) as usize;
        for _ in 0..nonzero {
            let s = (rng() % 128) as usize;
            freq[s] += 1 + rng() % 997;
        }
        let raw_total: u64 = freq.iter().map(|&f| u64::from(f)).sum();
        let out = normalize_wire_freq_table(&freq).unwrap();
        let total: u64 = out.iter().map(|&f| u64::from(f)).sum();
        assert!(
            total.is_power_of_two(),
            "case {case}: total {total} not a power of two (raw {raw_total})"
        );
        assert!(
            total >= raw_total && total < 2 * raw_total.next_power_of_two(),
            "case {case}: total {total} out of band for raw {raw_total}"
        );
        for s in 0..256 {
            assert_eq!(
                out[s] == 0,
                freq[s] == 0,
                "case {case}: nonzero set changed at symbol {s}"
            );
        }
    }
}

#[test]
fn upper_half_only_mass_is_unnormalizable() {
    let mut freq = [0u32; 256];
    freq[200] = 1;
    freq[201] = 1;
    freq[202] = 1;
    assert_eq!(
        normalize_wire_freq_table(&freq),
        Err(Error::ProbabilityTableUnnormalizable)
    );
}

#[test]
fn upper_half_only_mass_pow2_total_ok() {
    let mut freq = [0u32; 256];
    freq[200] = 3;
    freq[201] = 1;
    let out = normalize_wire_freq_table(&freq).unwrap();
    assert_eq!(out, freq);
}

#[test]
fn total_above_2_pow_31_rejected() {
    let mut freq = [0u32; 256];
    freq[0] = INIT_RANGE;
    freq[1] = 1;
    assert_eq!(
        normalize_wire_freq_table(&freq),
        Err(Error::ProbabilityTotalExceedsRange)
    );
}

#[test]
fn total_exactly_2_pow_31_is_identity() {
    let mut freq = [0u32; 256];
    freq[0] = INIT_RANGE;
    let out = normalize_wire_freq_table(&freq).unwrap();
    assert_eq!(out, freq);
}

#[test]
fn total_overflow_rejected() {
    let mut freq = [0u32; 256];
    freq[0] = u32::MAX;
    freq[1] = 1;
    assert_eq!(
        normalize_wire_freq_table(&freq),
        Err(Error::ProbabilityTableOverflow)
    );
}

#[test]
fn empty_table_rejected() {
    let freq = [0u32; 256];
    assert_eq!(
        normalize_wire_freq_table(&freq),
        Err(Error::EmptyProbabilityTable)
    );
}

#[test]
fn large_total_rescale_within_correction_band() {
    let mut freq = [0u32; 256];
    for (s, slot) in freq.iter_mut().enumerate() {
        *slot = 17 + (s as u32 * 131) % 40_000;
    }
    let total: u32 = freq.iter().sum();
    assert!(!total.is_power_of_two());
    let pow2 = total.next_power_of_two();
    let out = normalize_wire_freq_table(&freq).unwrap();
    assert_eq!(
        out.iter().map(|&f| u64::from(f)).sum::<u64>(),
        u64::from(pow2)
    );
    let scale = f64::from(pow2) / f64::from(total);
    for s in 0..256 {
        let floored = (f64::from(freq[s]) * scale) as u32;
        assert!(
            out[s] == floored || out[s] == floored + 1 || out[s] == floored + 2,
            "symbol {s}: {} not within correction band of floor {floored}",
            out[s]
        );
    }
}
