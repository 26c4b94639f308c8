use lagarith::channel::ChannelHeader;
use lagarith::error::Error;

#[test]
fn channel_header_byte_classification() {
    assert_eq!(
        ChannelHeader::from_byte(0x00).unwrap(),
        ChannelHeader::BareArithmetic
    );

    for h in 0x01u8..=0x03 {
        let ch = ChannelHeader::from_byte(h).unwrap();
        assert_eq!(ch, ChannelHeader::ArithRle { escape_len: h });
        assert!(ch.uses_arithmetic_body());
        assert!(ch.uses_rle_postprocess());
        assert_eq!(ch.rle_escape_len(), Some(h));
        assert_eq!(ch.to_byte(), h);
    }

    let raw = ChannelHeader::from_byte(0x04).unwrap();
    assert_eq!(raw, ChannelHeader::Raw);
    assert!(!raw.uses_arithmetic_body());
    assert!(!raw.uses_rle_postprocess());
    assert_eq!(raw.rle_escape_len(), None);
    assert_eq!(raw.to_byte(), 0x04);

    for h in 0x05u8..=0x07 {
        let ch = ChannelHeader::from_byte(h).unwrap();
        assert_eq!(ch, ChannelHeader::RawRle { escape_len: h - 4 });
        assert!(!ch.uses_arithmetic_body());
        assert!(ch.uses_rle_postprocess());
        assert_eq!(ch.rle_escape_len(), Some(h - 4));
        assert_eq!(ch.to_byte(), h);
    }

    let fill = ChannelHeader::from_byte(0xff).unwrap();
    assert_eq!(fill, ChannelHeader::ConstantFill);
    assert!(!fill.uses_arithmetic_body());
    assert!(!fill.uses_rle_postprocess());
    assert_eq!(fill.rle_escape_len(), None);
    assert_eq!(fill.to_byte(), 0xff);
}

#[test]
fn channel_header_rejects_out_of_range_bytes() {
    for b in [0x08u8, 0x09, 0x10, 0x80, 0xfe] {
        assert!(
            matches!(
                ChannelHeader::from_byte(b),
                Err(Error::BadChannelHeader(x)) if x == b,
            ),
            "byte 0x{b:02x} should be rejected as BadChannelHeader"
        );
    }
}

#[test]
fn channel_header_roundtrip_to_byte() {
    for b in (0x00u8..=0x07).chain(std::iter::once(0xffu8)) {
        let ch = ChannelHeader::from_byte(b).unwrap();
        assert_eq!(ch.to_byte(), b);
        assert_eq!(ChannelHeader::from_byte(ch.to_byte()).unwrap(), ch);
    }
}
