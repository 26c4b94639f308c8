use lagarith::rle::{contract_raw, expand_raw, supplement_for_padding};
use lagarith::tables::{rle_fwd_lut, rle_inv_lut};

fn roundtrip_one(plane: &[u8], escape_len: usize) {
    let encoded = contract_raw(plane, escape_len);
    let (got, _consumed) = expand_raw(&encoded, escape_len, plane.len()).unwrap();
    assert_eq!(got.as_slice(), plane);
}

#[test]
fn rle_roundtrip_trivial() {
    for e in 1..=3 {
        roundtrip_one(&[1, 2, 3, 4, 5], e);
    }
}

#[test]
fn rle_roundtrip_short_zero_run_below_threshold() {
    roundtrip_one(&[1, 0, 0, 2, 3], 3);
}

#[test]
fn rle_roundtrip_long_run() {
    let mut plane = vec![1u8, 2];
    plane.extend(std::iter::repeat(0u8).take(500));
    plane.extend_from_slice(&[3, 4]);
    for e in 1..=3 {
        roundtrip_one(&plane, e);
    }
}

#[test]
fn rle_roundtrip_at_threshold() {
    for e in 1..=3 {
        let mut plane = vec![5u8];
        plane.extend(std::iter::repeat(0u8).take(e));
        plane.extend_from_slice(&[7, 8]);
        roundtrip_one(&plane, e);
    }
}

#[test]
fn rle_roundtrip_terminal_run() {
    let mut plane = vec![1u8, 2, 3];
    plane.extend(std::iter::repeat(0u8).take(100));
    for e in 1..=3 {
        roundtrip_one(&plane, e);
    }
}

#[test]
fn algebraic_supplement_inverts_forward_lut_full_range() {
    let fwd = rle_fwd_lut();
    for n in 0..=255usize {
        let s = supplement_for_padding(n);
        assert_eq!(fwd[s as usize] as usize, n, "padding {n} -> supplement {s}");
    }
}

#[test]
fn algebraic_supplement_agrees_with_staged_inv_lut() {
    let inv = rle_inv_lut();
    for (k, &s) in inv.iter().enumerate().skip(2) {
        assert_eq!(
            supplement_for_padding(k - 2),
            s,
            "padding {} (INV_LUT index {k})",
            k - 2,
        );
    }
}

#[test]
fn rle_roundtrip_full_padding_boundary_runs() {
    for e in 1..=3usize {
        for extra in [253usize, 254, 255, 256, 511, 512] {
            let mut plane = vec![9u8];
            plane.extend(std::iter::repeat_n(0u8, e + extra));
            plane.push(7);
            roundtrip_one(&plane, e);
        }
    }
}

#[test]
fn full_capacity_run_is_single_escape() {
    for e in 1..=3usize {
        let plane = vec![0u8; e + 255];
        let encoded = contract_raw(&plane, e);
        let mut expected = vec![0u8; e];
        expected.push(0x80);
        assert_eq!(encoded, expected, "e={e}");
        let (got, consumed) = expand_raw(&encoded, e, plane.len()).unwrap();
        assert_eq!(got, plane);
        assert_eq!(consumed, encoded.len());
    }
}

#[test]
fn full_padding_range_shrinks_long_runs() {
    let plane = vec![0u8; 4096];
    let encoded = contract_raw(&plane, 1);
    assert_eq!(encoded.len(), 32, "expected 16 x [0x00, 0x80] escapes");
    for pair in encoded.chunks_exact(2) {
        assert_eq!(pair, [0x00, 0x80]);
    }
    let (got, _) = expand_raw(&encoded, 1, plane.len()).unwrap();
    assert_eq!(got, plane);
}
