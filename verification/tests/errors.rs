use lagarith::channel::{decode_channel, decode_legacy_channel};
use lagarith::decoder::{decode_frame, PixelKind};
use lagarith::error::{Error, PacketError};
use lagarith::fibonacci::{encode_freq_table, BitReader};
use lagarith::frame::{pack_channels, split_channels};
use lagarith::frame_header::{FrameHeader, FrameType};
use lagarith::plane::decode_plane;
use lagarith::range_coder::{Cdf, RangeDecoder};
use lagarith::rle::expand_raw;

fn frame_error(payload: &[u8], kind: PixelKind) -> Error {
    decode_frame(payload, 4, 4, kind).unwrap_err()
}

#[test]
fn frames_are_refused_with_a_reason() {
    assert_eq!(frame_error(&[], PixelKind::Bgr24), Error::NullFrame);
    assert_eq!(frame_error(&[0], PixelKind::Bgr24), Error::BadFrameType(0));
    assert_eq!(
        frame_error(&[12, 1], PixelKind::Yv12),
        Error::BadFrameType(12)
    );
    assert_eq!(
        decode_frame(&[1], 0, 4, PixelKind::Bgr24).unwrap_err(),
        Error::BadDimensions {
            width: 0,
            height: 4
        }
    );
    assert_eq!(
        frame_error(&[1; 48], PixelKind::Bgr24),
        Error::Truncated {
            context: "uncompressed frame body"
        }
    );
    assert!(decode_frame(&[1; 49], 4, 4, PixelKind::Bgr24).is_ok());
    for short in [vec![5u8], vec![6, 1, 2], vec![9, 1, 2, 3]] {
        assert_eq!(
            frame_error(&short, PixelKind::Bgr24),
            Error::Truncated {
                context: "solid-frame colour bytes"
            }
        );
    }
    for t in [2u8, 4, 5, 6, 7, 8, 9] {
        for kind in [PixelKind::Yv12, PixelKind::Yuy2] {
            assert_eq!(
                frame_error(&[t], kind),
                Error::PixelFormatMismatch { frame_type: t }
            );
        }
    }
    for t in [10u8, 11] {
        for kind in [PixelKind::Bgr24, PixelKind::Bgra32, PixelKind::Yuy2] {
            assert_eq!(
                frame_error(&[t], kind),
                Error::PixelFormatMismatch { frame_type: t }
            );
        }
    }
    assert_eq!(
        frame_error(&[3], PixelKind::Yv12),
        Error::PixelFormatMismatch { frame_type: 3 }
    );
    assert_eq!(
        decode_frame(&[11], 6, 4, PixelKind::Yv12).unwrap_err(),
        Error::BadDimensions {
            width: 6,
            height: 4
        }
    );
    assert_eq!(
        frame_error(&[4, 0, 0, 0, 0, 0, 0, 0], PixelKind::Bgr24),
        Error::Truncated {
            context: "channel-offset table"
        }
    );
    assert_eq!(
        frame_error(&[4, 200, 0, 0, 0, 9, 0, 0, 0], PixelKind::Bgr24),
        Error::OffsetOutOfRange
    );
    let mut backwards = pack_channels(4, &[&[1, 2], &[3], &[4]]);
    backwards[1] = 12;
    backwards[5] = 11;
    assert_eq!(
        split_channels(&backwards, 3).unwrap_err(),
        Error::OffsetOutOfRange
    );
}

#[test]
fn offsets_are_little_endian() {
    let frame = pack_channels(4, &[&[1, 2], &[3], &[4, 5]]);
    assert_eq!(
        frame,
        vec![4, 11, 0, 0, 0, 12, 0, 0, 0, 1, 2, 3, 4, 5]
    );
}

#[test]
fn channels_are_refused_with_a_reason() {
    assert_eq!(
        decode_channel(&[0x08, 1], 4).unwrap_err(),
        Error::BadChannelHeader(0x08)
    );
    assert_eq!(
        decode_legacy_channel(&[0x04, 1], 4).unwrap_err(),
        Error::BadChannelHeader(0x04)
    );
    assert!(matches!(
        decode_channel(&[], 4).unwrap_err(),
        Error::Truncated { .. }
    ));
    assert!(matches!(
        decode_channel(&[0xff], 4).unwrap_err(),
        Error::Truncated { .. }
    ));
    assert!(matches!(
        decode_channel(&[0x04, 1, 2], 4).unwrap_err(),
        Error::Truncated { .. }
    ));
    assert_eq!(decode_channel(&[0x04, 1, 2, 3, 4], 4).unwrap(), vec![1, 2, 3, 4]);
    assert_eq!(decode_channel(&[0xff, 9], 4).unwrap(), vec![9; 4]);
    assert_eq!(
        decode_channel(&[0x05, 7, 0, 1, 8], 5).unwrap(),
        vec![7, 0, 0, 0, 8]
    );

    let mut empty = vec![0x00];
    empty.extend(encode_freq_table(&[0; 256]));
    empty.extend([0; 8]);
    assert_eq!(
        decode_channel(&empty, 4).unwrap_err(),
        Error::EmptyProbabilityTable
    );
    let mut zero_count = vec![0x01, 0, 0, 0, 0];
    zero_count.extend([0xff; 16]);
    assert!(matches!(
        decode_channel(&zero_count, 4).unwrap_err(),
        Error::Truncated { .. }
    ));
}

#[test]
fn frequency_tables_are_refused_with_a_reason() {
    let mut freq = [0u32; 256];
    freq[0] = u32::MAX;
    freq[1] = 1;
    assert_eq!(
        Cdf::from_frequencies(&freq).err(),
        Some(Error::ProbabilityTableOverflow)
    );
    assert_eq!(
        Cdf::from_frequencies(&[0; 256]).err(),
        Some(Error::EmptyProbabilityTable)
    );
    freq[0] = 0x9000_0000;
    let cdf = Cdf::from_frequencies(&freq).unwrap();
    let mut dec = RangeDecoder::new(&[0u8; 8]).unwrap();
    assert_eq!(
        dec.decode_symbol(&cdf),
        Err(Error::ProbabilityTotalExceedsRange)
    );
    assert!(matches!(
        RangeDecoder::new(&[1, 2, 3]).err(),
        Some(Error::Truncated { .. })
    ));
    assert_eq!(
        BitReader::new(&[0u8; 8]).read_fib(),
        Err(Error::FibonacciOverflow)
    );
    assert!(matches!(
        BitReader::new(&[]).read_fib(),
        Err(Error::Truncated { .. })
    ));
}

#[test]
fn escapes_are_refused_with_a_reason() {
    assert_eq!(
        expand_raw(&[0], 1, 4).unwrap_err(),
        Error::Truncated {
            context: "RLE escape supplement byte"
        }
    );
    assert_eq!(
        expand_raw(&[1, 2], 1, 4).unwrap_err(),
        Error::Truncated {
            context: "RLE input ran out before output filled"
        }
    );
}

#[test]
fn packets_are_refused_with_a_reason() {
    assert!(matches!(
        FrameHeader::parse(&[]),
        Err(PacketError::Invalid(_))
    ));
    assert!(matches!(
        FrameHeader::parse(&[0]),
        Err(PacketError::BadFrameType(0))
    ));
    assert!(matches!(
        FrameHeader::parse(&[8; 12]),
        Err(PacketError::Invalid(_))
    ));
    assert!(matches!(
        FrameHeader::parse(&[4; 8]),
        Err(PacketError::Invalid(_))
    ));
    assert_eq!(FrameType::from_u8(0x0b), Ok(FrameType::ReducedRes));
    assert_eq!(FrameType::ArithRgba.header_offset_count(), 3);
    assert_eq!(FrameType::Raw.header_offset_count(), 2);
    assert!(FrameType::SolidGray.is_solid() && !FrameType::Raw.is_solid());

    let bounds = |start, end| decode_plane(&[4, 1, 2], start, end, 1, 1);
    assert!(matches!(bounds(0, 4), Err(PacketError::Invalid(_))));
    assert!(matches!(bounds(2, 2), Err(PacketError::Invalid(_))));
    assert!(matches!(
        decode_plane(&[4, 1, 2], 0, 3, usize::MAX, 2),
        Err(PacketError::Invalid("Lagarith: width*height overflow"))
    ));
    assert!(matches!(
        decode_plane(&[0xff], 0, 1, 1, 1),
        Err(PacketError::Invalid(_))
    ));
    assert!(matches!(
        decode_plane(&[4, 1, 2], 0, 3, 3, 1),
        Err(PacketError::Invalid(_))
    ));
    assert!(matches!(
        decode_plane(&[6, 1], 0, 2, 1, 1),
        Err(PacketError::Unsupported(_))
    ));
    assert!(matches!(
        decode_plane(&[9, 1], 0, 2, 1, 1),
        Err(PacketError::BadPlaneMode(9))
    ));
}

#[test]
fn errors_say_what_happened() {
    assert_eq!(
        Error::NullFrame.message(),
        "Lagarith: zero-length payload (NULL frame)"
    );
    assert_eq!(
        Error::BadFrameType(120).message(),
        "Lagarith: frame-type byte 120 out of range 1..=11"
    );
    assert_eq!(
        Error::UnsupportedFrameType(0).message(),
        "Lagarith: frame-type byte 0 not yet supported in this build"
    );
    assert_eq!(
        Error::BadChannelHeader(0x0a).message(),
        "Lagarith: channel-header byte 0x0a unrecognised"
    );
    assert_eq!(
        Error::BadChannelHeader(0xfe).message(),
        "Lagarith: channel-header byte 0xfe unrecognised"
    );
    assert_eq!(
        Error::Truncated { context: "here" }.message(),
        "Lagarith: input truncated at here"
    );
    assert_eq!(
        Error::BadDimensions {
            width: 4294967295,
            height: 10
        }
        .message(),
        "Lagarith: width=4294967295 height=10 not supported"
    );
    assert_eq!(
        Error::PixelFormatMismatch { frame_type: 10 }.message(),
        "Lagarith: caller-requested pixel format does not match frame-type byte 10"
    );
    assert_eq!(
        Error::OffsetOutOfRange.message(),
        "Lagarith: channel offset points past frame end"
    );
    assert_eq!(
        Error::FibonacciOverflow.message(),
        "Lagarith: Fibonacci prefix encodes value > 33 (decoder cap)"
    );
    assert_eq!(
        Error::EmptyProbabilityTable.message(),
        "Lagarith: probability table summed to zero"
    );
    assert_eq!(
        Error::NullFrameWithoutPredecessor.message(),
        "Lagarith: NULL frame supplied to stateful decoder before any predecessor frame"
    );
    assert_eq!(
        Error::LegacyRareSymbolClusterUnsupported.message(),
        "Lagarith: type-7 channel's freq table matches the rare-symbol-cluster signature (the \
         flat 257-entry CDF and the pair-packed 513-entry CDF are NOT bit-equivalent on this \
         fixture class — decoding would silently miscode); this stream needs Strategy F which \
         is blocked on a type-7 fixture"
    );
}

#[test]
fn packet_errors_in_words() {
    let header = |packet: &[u8]| FrameHeader::parse(packet).unwrap_err().message();
    assert_eq!(header(&[]), "Lagarith: empty packet");
    assert_eq!(header(&[0]), "Lagarith: unsupported frame type byte 0x00");
    assert_eq!(header(&[0xab]), "Lagarith: unsupported frame type byte 0xab");
    assert_eq!(
        header(&[8; 12]),
        "Lagarith: 4-plane frame header truncated (need 13 bytes)"
    );
    assert_eq!(
        header(&[4; 8]),
        "Lagarith: 3-plane frame header truncated (need 9 bytes)"
    );
    let plane = |bytes: &[u8], end, pixels| {
        decode_plane(bytes, 0, end, pixels, 1)
            .unwrap_err()
            .message()
    };
    assert_eq!(plane(&[4, 1], 3, 1), "Lagarith: plane bounds out of range");
    assert_eq!(
        plane(&[0xff], 1, 1),
        "Lagarith: SOLID_PLANE missing constant byte"
    );
    assert_eq!(
        plane(&[4, 1], 2, 2),
        "Lagarith: UNCOMPRESSED plane truncated (need width*height bytes)"
    );
    assert_eq!(
        plane(&[2, 1], 2, 2),
        "Lagarith: range-coded planes (esc_count 1..3) require the 53-entry probability VLC and \
         256-entry probability array"
    );
    assert_eq!(
        plane(&[5, 1], 2, 2),
        "Lagarith: zero-run-only planes (esc_count 5..7) need the run-length VLC tables"
    );
    assert_eq!(
        plane(&[9, 1], 2, 2),
        "Lagarith: unsupported plane mode byte 0x09"
    );
}
