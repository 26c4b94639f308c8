use lagarith::predict::{
    apply_plane_forward, apply_plane_forward_with_rule, apply_plane_inverse,
    apply_plane_inverse_with_rule, clamped_med, cross_plane_decorrelate_rgb,
    cross_plane_decorrelate_rgb_forward, FirstColRule,
};

#[test]
fn predictor_roundtrip_small() {
    let plane: Vec<u8> = (0..64).map(|i| (i * 17 + 3) as u8).collect();
    let residuals = apply_plane_forward(&plane, 8, 8);
    let mut recon = residuals.clone();
    apply_plane_inverse(&mut recon, 8, 8);
    assert_eq!(recon, plane);
}

#[test]
fn predictor_roundtrip_uneven() {
    let plane: Vec<u8> = (0..(13 * 7)).map(|i| ((i * 23) ^ 0xa5) as u8).collect();
    let residuals = apply_plane_forward(&plane, 13, 7);
    let mut recon = residuals.clone();
    apply_plane_inverse(&mut recon, 13, 7);
    assert_eq!(recon, plane);
}

#[test]
fn predictor_handles_single_row() {
    let plane: Vec<u8> = vec![10, 20, 30, 40, 50];
    let residuals = apply_plane_forward(&plane, 5, 1);
    assert_eq!(residuals[0], 10);
    assert_eq!(residuals[1], 10);
    assert_eq!(residuals[2], 10);
    let mut recon = residuals.clone();
    apply_plane_inverse(&mut recon, 5, 1);
    assert_eq!(recon, plane);
}

#[test]
fn cross_plane_roundtrip() {
    let mut r = vec![1u8, 2, 3, 4];
    let g = vec![10u8, 20, 30, 40];
    let mut b = vec![100u8, 99, 98, 97];
    let r0 = r.clone();
    let b0 = b.clone();
    cross_plane_decorrelate_rgb_forward(&mut r, &g, &mut b);
    cross_plane_decorrelate_rgb(&mut r, &g, &mut b);
    assert_eq!(r, r0);
    assert_eq!(b, b0);
}

#[test]
fn clamped_med_known_values() {
    assert_eq!(clamped_med(10, 20, 15), 15);
    assert_eq!(clamped_med(10, 20, 5), 20);
    assert_eq!(clamped_med(10, 20, 25), 10);
}

#[test]
fn predictor_rule_b_roundtrip_4x4() {
    let plane: Vec<u8> = (0..16).map(|i| (i * 19 + 5) as u8).collect();
    let residuals = apply_plane_forward_with_rule(&plane, 4, 4, FirstColRule::B);
    let mut recon = residuals.clone();
    apply_plane_inverse_with_rule(&mut recon, 4, 4, FirstColRule::B);
    assert_eq!(recon, plane);
}

#[test]
fn predictor_rule_b_roundtrip_uneven() {
    let plane: Vec<u8> = (0..(11 * 7))
        .map(|i| ((i as u32).wrapping_mul(173) ^ 0x37) as u8)
        .collect();
    let residuals = apply_plane_forward_with_rule(&plane, 7, 11, FirstColRule::B);
    let mut recon = residuals.clone();
    apply_plane_inverse_with_rule(&mut recon, 7, 11, FirstColRule::B);
    assert_eq!(recon, plane);
}

#[test]
fn predictor_rule_b_y1_falls_back_to_rule_a() {
    let plane: Vec<u8> = (0..16).map(|i| (i * 23 + 11) as u8).collect();
    let res_a = apply_plane_forward_with_rule(&plane, 8, 2, FirstColRule::A);
    let res_b = apply_plane_forward_with_rule(&plane, 8, 2, FirstColRule::B);
    assert_eq!(res_a, res_b);
}

#[test]
fn rule_a_yuv_first_column_inverts_itself() {
    let plane: Vec<u8> = vec![
        10, 20, 30, 40,
        50, 60, 70, 80,
        90, 100, 110, 120,
        130, 140, 150, 160,
    ];
    let res_a = apply_plane_forward_with_rule(&plane, 4, 4, FirstColRule::A);
    let mut recon = res_a.clone();
    apply_plane_inverse_with_rule(&mut recon, 4, 4, FirstColRule::A);
    assert_eq!(recon, plane, "Rule A round-trip must be lossless");
    let res_b = apply_plane_forward_with_rule(&plane, 4, 4, FirstColRule::B);
    assert_ne!(
        res_a, res_b,
        "Rule A and Rule B must diverge so the choice is testable"
    );
    let mut wrong = res_a.clone();
    apply_plane_inverse_with_rule(&mut wrong, 4, 4, FirstColRule::B);
    assert_ne!(
        wrong, plane,
        "decoding Rule-A residuals under Rule B must NOT reproduce the plane"
    );
}

#[test]
fn predictor_rule_b_diverges_from_rule_a_on_row_2() {
    let plane: Vec<u8> = vec![
        10, 20, 30, 40,
        50, 60, 70, 80,
        90, 100, 110, 120,
        130, 140, 150, 160,
    ];
    let res_a = apply_plane_forward_with_rule(&plane, 4, 4, FirstColRule::A);
    let res_b = apply_plane_forward_with_rule(&plane, 4, 4, FirstColRule::B);
    assert_eq!(res_a[..8], res_b[..8]);
    assert!(
        res_a[8] != res_b[8] || res_a[12] != res_b[12],
        "Rule A and Rule B should differ for at least one first-column residual"
    );
}
