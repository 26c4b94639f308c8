use lagarith::predictor::{median3, unpredict_plane, PredictMode};

#[test]
fn median3_is_actual_median() {
    assert_eq!(median3(1, 2, 3), 2);
    assert_eq!(median3(3, 1, 2), 2);
    assert_eq!(median3(2, 3, 1), 2);
    assert_eq!(median3(5, 5, 1), 5);
    assert_eq!(median3(-1, 0, 1), 0);
    assert_eq!(median3(255, 200, 300), 255);
    assert_eq!(median3(0, 100, -50), 0);
}

#[test]
fn row0_left_pred_passthrough() {
    let mut residuals = vec![10u8, 10, 10, 10, 10];
    unpredict_plane(&mut residuals, 5, 1, PredictMode::Rgb);
    assert_eq!(residuals, vec![10, 20, 30, 40, 50]);
    let mut residuals = vec![10u8, 10, 10, 10, 10];
    unpredict_plane(&mut residuals, 5, 1, PredictMode::Yuv);
    assert_eq!(residuals, vec![10, 20, 30, 40, 50]);
}

#[test]
fn solid_zero_residuals_stay_zero() {
    let mut residuals = vec![0u8; 4 * 4];
    unpredict_plane(&mut residuals, 4, 4, PredictMode::Rgb);
    assert_eq!(residuals, vec![0u8; 4 * 4]);
    let mut residuals = vec![0u8; 4 * 4];
    unpredict_plane(&mut residuals, 4, 4, PredictMode::Yuv);
    assert_eq!(residuals, vec![0u8; 4 * 4]);
}
