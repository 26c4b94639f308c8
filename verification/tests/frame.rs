use lagarith::decoder::PixelKind;
use lagarith::error::Error;
use lagarith::frame::{pack_channels, split_channels, FrameType};

#[test]
fn split_channels_three() {
    let ch0 = b"abc".as_slice();
    let ch1 = b"def".as_slice();
    let ch2 = b"ghij".as_slice();
    let frame = pack_channels(4, &[ch0, ch1, ch2]);
    let slices = split_channels(&frame, 3).unwrap();
    assert_eq!(slices.len(), 3);
    assert_eq!(slices[0], ch0);
    assert_eq!(slices[1], ch1);
    assert_eq!(slices[2], ch2);
}

#[test]
fn split_channels_four() {
    let ch0 = b"a".as_slice();
    let ch1 = b"bb".as_slice();
    let ch2 = b"ccc".as_slice();
    let ch3 = b"dddd".as_slice();
    let frame = pack_channels(8, &[ch0, ch1, ch2, ch3]);
    let slices = split_channels(&frame, 4).unwrap();
    assert_eq!(slices.len(), 4);
    assert_eq!(slices[0], ch0);
    assert_eq!(slices[1], ch1);
    assert_eq!(slices[2], ch2);
    assert_eq!(slices[3], ch3);
}

#[test]
fn frame_type_byte_validation() {
    assert!(matches!(
        FrameType::from_byte(0),
        Err(Error::BadFrameType(0))
    ));
    assert!(matches!(
        FrameType::from_byte(12),
        Err(Error::BadFrameType(12))
    ));
    assert_eq!(FrameType::from_byte(1).unwrap(), FrameType::Uncompressed);
    assert_eq!(FrameType::from_byte(2).unwrap(), FrameType::UnalignedRgb24);
    assert_eq!(FrameType::from_byte(3).unwrap(), FrameType::ArithmeticYuy2);
    assert_eq!(FrameType::from_byte(4).unwrap(), FrameType::ArithmeticRgb24);
    assert_eq!(FrameType::from_byte(5).unwrap(), FrameType::SolidGrey);
    assert_eq!(FrameType::from_byte(6).unwrap(), FrameType::SolidRgb);
    assert_eq!(FrameType::from_byte(7).unwrap(), FrameType::LegacyRgb);
    assert_eq!(FrameType::from_byte(8).unwrap(), FrameType::ArithmeticRgba);
    assert_eq!(FrameType::from_byte(9).unwrap(), FrameType::SolidRgba);
    assert_eq!(FrameType::from_byte(10).unwrap(), FrameType::ArithmeticYv12);
    assert_eq!(FrameType::from_byte(11).unwrap(), FrameType::ReducedResYv12);
}

#[test]
fn frame_type_roundtrip_to_byte() {
    for b in 1u8..=11 {
        let ft = FrameType::from_byte(b).unwrap();
        assert_eq!(ft.to_byte(), b, "to_byte mismatch on {b}");
        assert_eq!(
            FrameType::from_byte(ft.to_byte()).unwrap(),
            ft,
            "from_byte ∘ to_byte not identity on {b}"
        );
    }
}

#[test]
fn frame_type_top_level_classes_partition_accepted_set() {
    for b in 1u8..=11 {
        let ft = FrameType::from_byte(b).unwrap();
        let unc = ft.is_uncompressed() as u8;
        let sol = ft.is_solid() as u8;
        let arith = ft.is_arithmetic() as u8;
        assert_eq!(
            unc + sol + arith,
            1,
            "exactly one top-level class must hold for {ft:?} (got unc={unc} sol={sol} arith={arith})"
        );
    }
}

#[test]
fn frame_type_is_uncompressed() {
    assert!(FrameType::Uncompressed.is_uncompressed());
    for b in 2u8..=11 {
        let ft = FrameType::from_byte(b).unwrap();
        assert!(
            !ft.is_uncompressed(),
            "{ft:?} should not be is_uncompressed"
        );
    }
}

#[test]
fn frame_type_is_solid() {
    let solids = [
        FrameType::SolidGrey,
        FrameType::SolidRgb,
        FrameType::SolidRgba,
    ];
    for ft in solids {
        assert!(ft.is_solid(), "{ft:?} should be is_solid");
    }
    for b in 1u8..=11 {
        let ft = FrameType::from_byte(b).unwrap();
        assert_eq!(ft.is_solid(), solids.contains(&ft), "{ft:?}");
    }
}

#[test]
fn frame_type_is_arithmetic() {
    let ariths = [
        FrameType::UnalignedRgb24,
        FrameType::ArithmeticYuy2,
        FrameType::ArithmeticRgb24,
        FrameType::LegacyRgb,
        FrameType::ArithmeticRgba,
        FrameType::ArithmeticYv12,
        FrameType::ReducedResYv12,
    ];
    for ft in ariths {
        assert!(ft.is_arithmetic(), "{ft:?} should be is_arithmetic");
    }
    for b in 1u8..=11 {
        let ft = FrameType::from_byte(b).unwrap();
        assert_eq!(ft.is_arithmetic(), ariths.contains(&ft), "{ft:?}");
    }
}

#[test]
fn frame_type_is_legacy_decode_only() {
    assert!(FrameType::LegacyRgb.is_legacy_decode_only());
    for b in 1u8..=11 {
        let ft = FrameType::from_byte(b).unwrap();
        if !matches!(ft, FrameType::LegacyRgb) {
            assert!(
                !ft.is_legacy_decode_only(),
                "{ft:?} should not be is_legacy_decode_only"
            );
        }
    }
}

#[test]
fn frame_type_is_reduced_resolution() {
    assert!(FrameType::ReducedResYv12.is_reduced_resolution());
    for b in 1u8..=11 {
        let ft = FrameType::from_byte(b).unwrap();
        if !matches!(ft, FrameType::ReducedResYv12) {
            assert!(
                !ft.is_reduced_resolution(),
                "{ft:?} should not be is_reduced_resolution"
            );
        }
    }
}

#[test]
fn frame_type_is_planar_yv12() {
    let planars = [FrameType::ArithmeticYv12, FrameType::ReducedResYv12];
    for ft in planars {
        assert!(ft.is_planar_yv12(), "{ft:?} should be is_planar_yv12");
    }
    for b in 1u8..=11 {
        let ft = FrameType::from_byte(b).unwrap();
        assert_eq!(ft.is_planar_yv12(), planars.contains(&ft), "{ft:?}");
    }
}

#[test]
fn frame_type_is_packed_yuy2() {
    assert!(FrameType::ArithmeticYuy2.is_packed_yuy2());
    for b in 1u8..=11 {
        let ft = FrameType::from_byte(b).unwrap();
        if !matches!(ft, FrameType::ArithmeticYuy2) {
            assert!(!ft.is_packed_yuy2(), "{ft:?} should not be is_packed_yuy2");
        }
    }
}

#[test]
fn frame_type_is_packed_rgb() {
    let packed_rgb = [
        FrameType::UnalignedRgb24,
        FrameType::ArithmeticRgb24,
        FrameType::LegacyRgb,
        FrameType::ArithmeticRgba,
    ];
    for ft in packed_rgb {
        assert!(ft.is_packed_rgb(), "{ft:?} should be is_packed_rgb");
    }
    for b in 1u8..=11 {
        let ft = FrameType::from_byte(b).unwrap();
        assert_eq!(ft.is_packed_rgb(), packed_rgb.contains(&ft), "{ft:?}");
    }
}

#[test]
fn frame_type_arithmetic_subclasses_partition_arithmetic_set() {
    for b in 1u8..=11 {
        let ft = FrameType::from_byte(b).unwrap();
        let p_yv12 = ft.is_planar_yv12() as u8;
        let p_yuy2 = ft.is_packed_yuy2() as u8;
        let p_rgb = ft.is_packed_rgb() as u8;
        let sum = p_yv12 + p_yuy2 + p_rgb;
        if ft.is_arithmetic() {
            assert_eq!(
                sum, 1,
                "exactly one arithmetic sub-class must hold for {ft:?}"
            );
        } else {
            assert_eq!(
                sum, 0,
                "no arithmetic sub-class should hold for non-arithmetic {ft:?}"
            );
        }
    }
}

#[test]
fn frame_type_is_produced_by_v64_encoder() {
    let produced = [
        FrameType::UnalignedRgb24,
        FrameType::ArithmeticYuy2,
        FrameType::ArithmeticRgb24,
        FrameType::SolidGrey,
        FrameType::SolidRgb,
        FrameType::ArithmeticRgba,
        FrameType::SolidRgba,
        FrameType::ArithmeticYv12,
    ];
    for ft in produced {
        assert!(
            ft.is_produced_by_v64_encoder(),
            "{ft:?} should be produced by v64 encoder"
        );
    }
    let not_produced = [
        FrameType::Uncompressed,
        FrameType::LegacyRgb,
        FrameType::ReducedResYv12,
    ];
    for ft in not_produced {
        assert!(
            !ft.is_produced_by_v64_encoder(),
            "{ft:?} should NOT be produced by v64 encoder"
        );
    }
    for b in 1u8..=11 {
        let ft = FrameType::from_byte(b).unwrap();
        assert_eq!(
            ft.is_produced_by_v64_encoder(),
            produced.contains(&ft),
            "{ft:?}"
        );
    }
}

#[test]
fn frame_type_prefix_size_matches_spec() {
    let three_ch = [
        FrameType::UnalignedRgb24,
        FrameType::ArithmeticYuy2,
        FrameType::ArithmeticRgb24,
        FrameType::LegacyRgb,
        FrameType::ArithmeticYv12,
        FrameType::ReducedResYv12,
    ];
    for ft in three_ch {
        assert_eq!(ft.prefix_size(), 9, "{ft:?} prefix should be 9");
        assert_eq!(
            ft.channel_offset_table_size(),
            8,
            "{ft:?} offset-table should be 8"
        );
    }
    assert_eq!(FrameType::ArithmeticRgba.prefix_size(), 13);
    assert_eq!(FrameType::ArithmeticRgba.channel_offset_table_size(), 12);
    for ft in [
        FrameType::Uncompressed,
        FrameType::SolidGrey,
        FrameType::SolidRgb,
        FrameType::SolidRgba,
    ] {
        assert_eq!(ft.prefix_size(), 1, "{ft:?} prefix should be 1");
        assert_eq!(
            ft.channel_offset_table_size(),
            0,
            "{ft:?} offset-table should be 0"
        );
    }
}

#[test]
fn frame_type_accepts_pixel_kind_table() {
    for pk in PixelKind::all() {
        assert!(
            FrameType::Uncompressed.accepts_pixel_kind(pk),
            "Uncompressed should accept {pk:?}",
        );
    }
    let rgb_only = [
        FrameType::SolidGrey,
        FrameType::SolidRgb,
        FrameType::SolidRgba,
        FrameType::UnalignedRgb24,
        FrameType::ArithmeticRgb24,
        FrameType::LegacyRgb,
        FrameType::ArithmeticRgba,
    ];
    for ft in rgb_only {
        assert!(ft.accepts_pixel_kind(PixelKind::Bgr24), "{ft:?} Bgr24");
        assert!(ft.accepts_pixel_kind(PixelKind::Bgra32), "{ft:?} Bgra32");
        assert!(!ft.accepts_pixel_kind(PixelKind::Yv12), "{ft:?} Yv12");
        assert!(!ft.accepts_pixel_kind(PixelKind::Yuy2), "{ft:?} Yuy2");
    }
    for ft in [FrameType::ArithmeticYv12, FrameType::ReducedResYv12] {
        assert!(!ft.accepts_pixel_kind(PixelKind::Bgr24), "{ft:?} Bgr24");
        assert!(!ft.accepts_pixel_kind(PixelKind::Bgra32), "{ft:?} Bgra32");
        assert!(ft.accepts_pixel_kind(PixelKind::Yv12), "{ft:?} Yv12");
        assert!(!ft.accepts_pixel_kind(PixelKind::Yuy2), "{ft:?} Yuy2");
    }
    assert!(!FrameType::ArithmeticYuy2.accepts_pixel_kind(PixelKind::Bgr24));
    assert!(!FrameType::ArithmeticYuy2.accepts_pixel_kind(PixelKind::Bgra32));
    assert!(!FrameType::ArithmeticYuy2.accepts_pixel_kind(PixelKind::Yv12));
    assert!(FrameType::ArithmeticYuy2.accepts_pixel_kind(PixelKind::Yuy2));
}

#[test]
fn frame_type_accepts_pixel_kind_non_empty() {
    for b in 1u8..=11 {
        let ft = FrameType::from_byte(b).unwrap();
        let any = PixelKind::all().iter().any(|&pk| ft.accepts_pixel_kind(pk));
        assert!(
            any,
            "{ft:?} must accept at least one PixelKind (no orphan frame type)",
        );
    }
}

#[test]
fn frame_type_accepts_pixel_kind_consistent_with_compatible_set() {
    for b in 1u8..=11 {
        let ft = FrameType::from_byte(b).unwrap();
        let compat = ft.compatible_pixel_kinds();
        for pk in PixelKind::all() {
            let in_set = compat.contains(&pk);
            let accepted = ft.accepts_pixel_kind(pk);
            assert_eq!(
                in_set, accepted,
                "{ft:?} / {pk:?}: compatible_pixel_kinds.contains == accepts_pixel_kind must hold",
            );
        }
    }
}

#[test]
fn frame_type_compatible_pixel_kinds_exact_sequence() {
    assert_eq!(
        FrameType::Uncompressed.compatible_pixel_kinds(),
        &[
            PixelKind::Bgr24,
            PixelKind::Bgra32,
            PixelKind::Yv12,
            PixelKind::Yuy2,
        ],
    );
    for ft in [
        FrameType::SolidGrey,
        FrameType::SolidRgb,
        FrameType::SolidRgba,
        FrameType::UnalignedRgb24,
        FrameType::ArithmeticRgb24,
        FrameType::LegacyRgb,
        FrameType::ArithmeticRgba,
    ] {
        assert_eq!(
            ft.compatible_pixel_kinds(),
            &[PixelKind::Bgr24, PixelKind::Bgra32],
            "{ft:?} compatible_pixel_kinds must be [Bgr24, Bgra32]",
        );
    }
    for ft in [FrameType::ArithmeticYv12, FrameType::ReducedResYv12] {
        assert_eq!(
            ft.compatible_pixel_kinds(),
            &[PixelKind::Yv12],
            "{ft:?} compatible_pixel_kinds must be [Yv12]",
        );
    }
    assert_eq!(
        FrameType::ArithmeticYuy2.compatible_pixel_kinds(),
        &[PixelKind::Yuy2],
    );
}

#[test]
fn frame_type_accepts_pixel_kind_aligns_with_yuv_subclassifiers() {
    for b in 1u8..=11 {
        let ft = FrameType::from_byte(b).unwrap();
        let compat = ft.compatible_pixel_kinds();
        if ft.is_planar_yv12() {
            assert_eq!(compat, &[PixelKind::Yv12], "{ft:?} planar-YV12");
        }
        if ft.is_packed_yuy2() {
            assert_eq!(compat, &[PixelKind::Yuy2], "{ft:?} packed-YUY2");
        }
        if ft.is_packed_rgb() || ft.is_solid() {
            assert_eq!(
                compat,
                &[PixelKind::Bgr24, PixelKind::Bgra32],
                "{ft:?} packed-RGB / solid",
            );
        }
    }
}

#[test]
fn frame_type_prefix_size_consistent_with_split_channels() {
    for ft in [
        FrameType::UnalignedRgb24,
        FrameType::ArithmeticYuy2,
        FrameType::ArithmeticRgb24,
        FrameType::LegacyRgb,
        FrameType::ArithmeticYv12,
        FrameType::ReducedResYv12,
    ] {
        let ch0 = b"a".as_slice();
        let ch1 = b"b".as_slice();
        let ch2 = b"c".as_slice();
        let frame = pack_channels(ft.to_byte(), &[ch0, ch1, ch2]);
        let slices = split_channels(&frame, ft.n_channels()).unwrap();
        assert_eq!(
            slices[0], ch0,
            "{ft:?} first channel should equal packed ch0"
        );
        assert_eq!(ft.prefix_size(), 9, "{ft:?} prefix_size should be 9");
    }
    let ch0 = b"a".as_slice();
    let ch1 = b"b".as_slice();
    let ch2 = b"c".as_slice();
    let ch3 = b"d".as_slice();
    let frame = pack_channels(FrameType::ArithmeticRgba.to_byte(), &[ch0, ch1, ch2, ch3]);
    let slices = split_channels(&frame, FrameType::ArithmeticRgba.n_channels()).unwrap();
    assert_eq!(slices[0], ch0);
    assert_eq!(slices[3], ch3);
    assert_eq!(FrameType::ArithmeticRgba.prefix_size(), 13);
}

#[test]
fn frame_type_has_alpha_plane() {
    let rgba = [FrameType::ArithmeticRgba, FrameType::SolidRgba];
    for ft in rgba {
        assert!(
            ft.has_alpha_plane(),
            "{ft:?} should report has_alpha_plane (RGBA family)",
        );
    }
    for b in 1u8..=11 {
        let ft = FrameType::from_byte(b).unwrap();
        assert_eq!(
            ft.has_alpha_plane(),
            rgba.contains(&ft),
            "{ft:?} has_alpha_plane should match RGBA-family membership",
        );
    }
}

#[test]
fn frame_type_has_alpha_plane_implies_four_channels_on_arithmetic_set() {
    for b in 1u8..=11 {
        let ft = FrameType::from_byte(b).unwrap();
        if ft.is_arithmetic() {
            let four_chan = ft.n_channels() == 4;
            assert_eq!(
                ft.has_alpha_plane(),
                four_chan,
                "{ft:?}: on arithmetic types, has_alpha_plane must equal (n_channels == 4)",
            );
        }
    }
    assert!(FrameType::ArithmeticRgba.has_alpha_plane());
    assert_eq!(FrameType::ArithmeticRgba.n_channels(), 4);
    assert!(!FrameType::ArithmeticRgb24.has_alpha_plane());
    assert_eq!(FrameType::ArithmeticRgb24.n_channels(), 3);
}

#[test]
fn frame_type_has_alpha_plane_implies_bgra32_compatible() {
    for b in 1u8..=11 {
        let ft = FrameType::from_byte(b).unwrap();
        if ft.has_alpha_plane() {
            assert!(
                ft.accepts_pixel_kind(PixelKind::Bgra32),
                "{ft:?}: has_alpha_plane => accepts Bgra32 host buffer",
            );
            assert!(
                ft.compatible_pixel_kinds().contains(&PixelKind::Bgra32),
                "{ft:?}: has_alpha_plane => compatible_pixel_kinds contains Bgra32",
            );
        }
    }
}

#[test]
fn frame_type_has_alpha_plane_disjoint_from_yuv_families() {
    for b in 1u8..=11 {
        let ft = FrameType::from_byte(b).unwrap();
        if ft.has_alpha_plane() {
            assert!(
                !ft.is_planar_yv12(),
                "{ft:?}: has_alpha_plane and is_planar_yv12 must be disjoint",
            );
            assert!(
                !ft.is_packed_yuy2(),
                "{ft:?}: has_alpha_plane and is_packed_yuy2 must be disjoint",
            );
        }
    }
}
