use lagarith::decoder::{decode_frame, DecodedFrame, PixelKind};
use lagarith::error::Error;
use lagarith::registry::{
    make_decoder, make_encoder, map_to_video_frame, pack_planes, pixel_kind_from_format,
    HostFormat, HostFrame, HostPacket, HostPlane, SessionError,
};

fn packet(data: Vec<u8>) -> HostPacket {
    HostPacket {
        pts: None,
        data,
        keyframe: true,
    }
}

fn single(pts: i64, stride: usize, data: Vec<u8>) -> HostFrame {
    HostFrame {
        pts: Some(pts),
        planes: vec![HostPlane { stride, data }],
    }
}

#[test]
fn direct_factories_roundtrip() {
    let (w, h) = (4u32, 4u32);
    let pixels: Vec<u8> = (0..(w * h * 4)).map(|i| (i * 11 % 251) as u8).collect();

    let mut enc = make_encoder(Some(w), Some(h), Some(HostFormat::Bgra)).expect("make_encoder");
    enc.send_frame(&single(0, (w * 4) as usize, pixels.clone()))
        .unwrap();
    let pkt = enc.receive_packet().unwrap();

    let mut dec = make_decoder(Some(w), Some(h));
    dec.send_packet(pkt).unwrap();
    let frame = dec.receive_frame().unwrap();
    assert_eq!(frame.planes[0].data, pixels);
}

#[test]
fn end_to_end_encode_decode_bgra() {
    let (w, h) = (8u32, 4u32);
    let mut pixels = Vec::with_capacity((w * h * 4) as usize);
    for y in 0..h {
        for x in 0..w {
            pixels.extend_from_slice(&[
                (x * 7) as u8,
                (y * 13) as u8,
                (x.wrapping_add(y) * 3) as u8,
                0xff,
            ]);
        }
    }

    let mut enc = make_encoder(Some(w), Some(h), Some(HostFormat::Bgra)).expect("first_encoder");
    enc.send_frame(&single(0, (w * 4) as usize, pixels.clone()))
        .unwrap();
    let pkt = enc.receive_packet().unwrap();
    assert!(pkt.keyframe);
    assert!(matches!(enc.receive_packet(), Err(SessionError::NeedMore)));

    let mut dec = make_decoder(Some(w), Some(h));
    dec.send_packet(pkt).unwrap();
    let frame = dec.receive_frame().unwrap();
    assert_eq!(frame.planes.len(), 1);
    assert_eq!(frame.planes[0].data, pixels);
}

#[test]
fn end_to_end_encode_decode_yv12_padded_stride() {
    let (w, h) = (8u32, 4u32);
    let ylen = (w * h) as usize;
    let clen = ylen / 4;
    let y: Vec<u8> = (0..ylen).map(|i| (i * 3 % 251) as u8).collect();
    let v: Vec<u8> = (0..clen).map(|i| (i * 5 % 251) as u8).collect();
    let u: Vec<u8> = (0..clen).map(|i| (i * 7 % 251) as u8).collect();

    let mut enc = make_encoder(Some(w), Some(h), Some(HostFormat::Yuv420P)).expect("first_encoder");
    let pad = 4usize;
    let mut y_padded = Vec::with_capacity((w as usize + pad) * h as usize);
    for r in 0..h as usize {
        y_padded.extend_from_slice(&y[r * w as usize..(r + 1) * w as usize]);
        y_padded.extend(std::iter::repeat_n(0u8, pad));
    }
    let frame = HostFrame {
        pts: Some(0),
        planes: vec![
            HostPlane {
                stride: w as usize + pad,
                data: y_padded,
            },
            HostPlane {
                stride: (w / 2) as usize,
                data: v.clone(),
            },
            HostPlane {
                stride: (w / 2) as usize,
                data: u.clone(),
            },
        ],
    };
    enc.send_frame(&frame).unwrap();
    let pkt = enc.receive_packet().unwrap();

    let decoded = decode_frame(&pkt.data, w, h, PixelKind::Yv12).unwrap();
    let mut expected = y.clone();
    expected.extend_from_slice(&v);
    expected.extend_from_slice(&u);
    assert_eq!(decoded.pixels, expected);
}

#[test]
fn encoder_rejects_unsupported_pixel_format() {
    assert!(make_encoder(Some(4), Some(4), Some(HostFormat::Other)).is_err());
}

#[test]
fn pixel_kind_mapping_is_exhaustive_for_supported() {
    assert_eq!(
        pixel_kind_from_format(HostFormat::Bgr24),
        Some(PixelKind::Bgr24)
    );
    assert_eq!(
        pixel_kind_from_format(HostFormat::Bgra),
        Some(PixelKind::Bgra32)
    );
    assert_eq!(
        pixel_kind_from_format(HostFormat::Yuv420P),
        Some(PixelKind::Yv12)
    );
    assert_eq!(
        pixel_kind_from_format(HostFormat::Yuyv422),
        Some(PixelKind::Yuy2)
    );
    assert_eq!(pixel_kind_from_format(HostFormat::Other), None);
}

#[test]
fn end_to_end_decode_solid_grey() {
    let mut dec = make_decoder(Some(4), Some(2));
    dec.send_packet(packet(vec![5, 0x77])).unwrap();
    let frame = dec.receive_frame().unwrap();
    assert_eq!(frame.planes.len(), 1);
    assert_eq!(frame.planes[0].data.len(), 32);
    for chunk in frame.planes[0].data.chunks_exact(4) {
        assert_eq!(chunk, &[0x77, 0x77, 0x77, 0xff]);
    }
}

#[test]
fn repeated_frame_becomes_an_empty_payload() {
    let pixels: Vec<u8> = (0..64u32).map(|i| (i * 5) as u8).collect();
    let other: Vec<u8> = (0..64u32).map(|i| (i * 9 + 1) as u8).collect();
    let mut enc = make_encoder(Some(4), Some(4), None).unwrap();
    let mut dec = make_decoder(Some(4), Some(4));
    let mut seen = Vec::new();
    for (i, px) in [&pixels, &pixels, &pixels, &other, &other].iter().enumerate() {
        enc.send_frame(&single(i as i64, 16, px.to_vec())).unwrap();
        let pkt = enc.receive_packet().unwrap();
        assert_eq!(pkt.pts, Some(i as i64));
        seen.push((pkt.data.is_empty(), pkt.keyframe));
        dec.send_packet(pkt).unwrap();
        let frame = dec.receive_frame().unwrap();
        assert_eq!(frame.pts, Some(i as i64));
        assert_eq!(&&frame.planes[0].data, px);
    }
    assert_eq!(
        seen,
        vec![
            (false, true),
            (true, false),
            (true, false),
            (false, true),
            (true, false)
        ]
    );
}

#[test]
fn sessions_refuse_a_second_item_and_report_the_end() {
    let mut dec = make_decoder(Some(2), Some(2));
    assert_eq!(dec.receive_frame(), Err(SessionError::NeedMore));
    dec.send_packet(packet(vec![5, 1])).unwrap();
    assert_eq!(dec.send_packet(packet(vec![5, 2])), Err(SessionError::Busy));
    assert_eq!(dec.receive_frame().unwrap().planes[0].data[0], 1);
    dec.flush();
    assert_eq!(dec.receive_frame(), Err(SessionError::Eof));

    let mut enc = make_encoder(Some(2), Some(2), Some(HostFormat::Bgr24)).unwrap();
    let frame = single(7, 6, vec![3u8; 12]);
    assert_eq!(enc.receive_packet(), Err(SessionError::NeedMore));
    enc.send_frame(&frame).unwrap();
    assert_eq!(enc.send_frame(&frame), Err(SessionError::Busy));
    assert_eq!(enc.receive_packet().unwrap().data, vec![5, 3]);
    enc.flush();
    assert_eq!(enc.receive_packet(), Err(SessionError::Eof));
}

#[test]
fn sessions_need_dimensions() {
    assert!(matches!(
        make_encoder(None, Some(4), None),
        Err(SessionError::MissingDimensions)
    ));
    assert!(matches!(
        make_encoder(Some(4), Some(0), Some(HostFormat::Other)),
        Err(SessionError::MissingDimensions)
    ));
    let mut dec = make_decoder(None, Some(2));
    dec.send_packet(packet(vec![5, 1])).unwrap();
    assert_eq!(dec.receive_frame(), Err(SessionError::MissingDimensions));
    assert_eq!(dec.receive_frame(), Err(SessionError::NeedMore));
}

#[test]
fn decoding_session_passes_codec_errors_on() {
    let mut dec = make_decoder(Some(2), Some(2));
    dec.send_packet(packet(Vec::new())).unwrap();
    assert_eq!(
        dec.receive_frame(),
        Err(SessionError::Codec(Error::NullFrameWithoutPredecessor))
    );
    dec.send_packet(packet(vec![12])).unwrap();
    assert_eq!(
        dec.receive_frame(),
        Err(SessionError::Codec(Error::BadFrameType(12)))
    );
}

#[test]
fn planes_are_refused_with_a_reason() {
    let plane = |stride: usize, len: usize| HostPlane {
        stride,
        data: vec![0u8; len],
    };
    assert_eq!(
        pack_planes(&vec![], 4, 2, PixelKind::Bgr24),
        Err(SessionError::PlaneCount { want: 1, got: 0 })
    );
    assert_eq!(
        pack_planes(&vec![plane(4, 8)], 4, 2, PixelKind::Yv12),
        Err(SessionError::PlaneCount { want: 3, got: 1 })
    );
    assert_eq!(
        pack_planes(&vec![plane(11, 22)], 4, 2, PixelKind::Bgr24),
        Err(SessionError::StrideBelowRow {
            stride: 11,
            row: 12
        })
    );
    assert_eq!(
        pack_planes(&vec![plane(13, 25)], 4, 2, PixelKind::Bgr24),
        Err(SessionError::PlaneTooShort { len: 25, need: 26 })
    );
}

#[test]
fn odd_planar_frames_round_trip() {
    for (width, height) in [(3u32, 3u32), (5, 3), (1, 8), (7, 5), (2, 2), (1, 1), (6, 2)] {
        let len = PixelKind::Yv12.buffer_len(width, height);
        let pixels: Vec<u8> = (0..len).map(|i| (i * 37 + 11) as u8).collect();
        let planes = map_to_video_frame(
            DecodedFrame {
                width,
                height,
                pixel_kind: PixelKind::Yv12,
                pixels: pixels.clone(),
            },
            None,
        );
        assert_eq!(
            pack_planes(&planes.planes, width, height, PixelKind::Yv12),
            Ok(pixels.clone())
        );
        let mut enc =
            make_encoder(Some(width), Some(height), Some(HostFormat::Yuv420P)).unwrap();
        enc.send_frame(&planes).unwrap();
        let sent = enc.receive_packet().unwrap();
        let decoded = decode_frame(&sent.data, width, height, PixelKind::Yv12).unwrap();
        assert_eq!(decoded.pixels, pixels);
    }
    assert_eq!(PixelKind::Yv12.buffer_len(3, 3), 13);
}

#[test]
fn odd_planar_planes_may_be_padded() {
    let plane = |stride: usize, data: Vec<u8>| HostPlane { stride, data };
    let luma = plane(3, (1..=9).collect());
    let pack = |v: HostPlane, u: HostPlane| {
        let planes = vec![luma.clone(), v, u];
        pack_planes(&planes, 3, 3, PixelKind::Yv12)
    };
    assert_eq!(
        pack(plane(2, vec![20, 0, 21]), plane(1, vec![30, 31, 32])),
        Ok(vec![1, 2, 3, 4, 5, 6, 7, 8, 9, 20, 21, 30, 31])
    );
    assert_eq!(
        pack(plane(2, vec![20, 0]), plane(1, vec![30, 31])),
        Err(SessionError::SamplesMissing { len: 2, need: 3 })
    );
    assert_eq!(
        pack(plane(0, vec![20, 21]), plane(1, vec![30, 31])),
        Err(SessionError::StrideBelowRow { stride: 0, row: 1 })
    );
}

#[test]
fn planes_of_a_frame_make_its_buffer_again() {
    for kind in PixelKind::all() {
        let (width, height) = (6u32, 4u32);
        let len = kind.buffer_len(width, height);
        let pixels: Vec<u8> = (0..len).map(|i| (i * 7 + 3) as u8).collect();
        let frame = DecodedFrame {
            width,
            height,
            pixel_kind: kind,
            pixels: pixels.clone(),
        };
        let out = map_to_video_frame(frame, Some(9));
        assert_eq!(out.pts, Some(9));
        if kind == PixelKind::Yv12 {
            assert_eq!(out.planes.len(), 3);
            assert_eq!(out.planes[1].stride, 3);
            assert_eq!(out.planes[1].data, pixels[24..30].to_vec());
        }
        assert_eq!(pack_planes(&out.planes, width, height, kind), Ok(pixels));
    }
}
