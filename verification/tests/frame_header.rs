use lagarith::frame_header::{FrameHeader, FrameType};

#[test]
fn solid_rgba_header() {
    let pkt = [0x09u8, 0x00, 0x00, 0x00, 0x00];
    let hdr = FrameHeader::parse(&pkt).unwrap();
    assert_eq!(hdr.frametype, FrameType::SolidRgba);
    assert_eq!(hdr.offset_plane0, 1);
    assert!(hdr.offset_plane1.is_none());
}

#[test]
fn arith_rgba_header() {
    let mut pkt = vec![0x08u8];
    pkt.extend_from_slice(&[0x3D, 0x04, 0x00, 0x00]);
    pkt.extend_from_slice(&[0x72, 0x16, 0x00, 0x00]);
    pkt.extend_from_slice(&[0x6E, 0x1E, 0x00, 0x00]);
    let hdr = FrameHeader::parse(&pkt).unwrap();
    assert_eq!(hdr.frametype, FrameType::ArithRgba);
    assert_eq!(hdr.offset_plane0, 13);
    assert_eq!(hdr.offset_plane1, Some(1085));
    assert_eq!(hdr.offset_plane2, Some(5746));
    assert_eq!(hdr.offset_plane3, Some(7790));
}

#[test]
fn arith_rgb24_header() {
    let mut pkt = vec![0x04u8];
    pkt.extend_from_slice(&[0x17, 0x4B, 0x00, 0x00]);
    pkt.extend_from_slice(&[0x63, 0xB3, 0x00, 0x00]);
    let hdr = FrameHeader::parse(&pkt).unwrap();
    assert_eq!(hdr.frametype, FrameType::ArithRgb24);
    assert_eq!(hdr.offset_plane0, 9);
    assert_eq!(hdr.offset_plane1, Some(19223));
    assert_eq!(hdr.offset_plane2, Some(45923));
    assert!(hdr.offset_plane3.is_none());
}

#[test]
fn unknown_frametype_rejected() {
    let pkt = [0xFFu8, 0, 0, 0, 0, 0, 0, 0, 0];
    assert!(FrameHeader::parse(&pkt).is_err());
}
