use lagarith::error::PacketError;
use lagarith::plane::decode_plane;

#[test]
fn solid_plane_fills_constant() {
    let pkt = vec![0xFFu8, 0x42, 0, 0];
    let dp = decode_plane(&pkt, 0, pkt.len(), 4, 2).unwrap();
    assert_eq!(dp.bytes, vec![0x42; 8]);
    assert!(dp.skip_predictor);
}

#[test]
fn uncompressed_plane_round_trips() {
    let mut pkt = vec![4u8];
    pkt.extend_from_slice(&[1, 2, 3, 4, 5, 6]);
    let dp = decode_plane(&pkt, 0, pkt.len(), 3, 2).unwrap();
    assert_eq!(dp.bytes, vec![1, 2, 3, 4, 5, 6]);
    assert!(!dp.skip_predictor);
}

#[test]
fn arith_plane_reports_unsupported() {
    let pkt = vec![1u8, 0, 0, 0, 0];
    let err = decode_plane(&pkt, 0, pkt.len(), 4, 4).unwrap_err();
    assert!(matches!(err, PacketError::Unsupported(_)));
}
