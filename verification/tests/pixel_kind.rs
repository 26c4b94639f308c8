use lagarith::decoder::PixelKind;

#[test]
fn pixel_kind_all_enumerates_four_variants() {
    let v = PixelKind::all();
    assert_eq!(v.len(), 4);
    assert_eq!(v[0], PixelKind::Bgr24);
    assert_eq!(v[1], PixelKind::Bgra32);
    assert_eq!(v[2], PixelKind::Yv12);
    assert_eq!(v[3], PixelKind::Yuy2);
}

#[test]
fn pixel_kind_is_rgb_family() {
    let rgbs = [PixelKind::Bgr24, PixelKind::Bgra32];
    for pk in rgbs {
        assert!(pk.is_rgb_family(), "{pk:?} should be is_rgb_family");
    }
    for pk in PixelKind::all() {
        assert_eq!(pk.is_rgb_family(), rgbs.contains(&pk), "{pk:?}");
    }
}

#[test]
fn pixel_kind_is_yuv_family() {
    let yuvs = [PixelKind::Yv12, PixelKind::Yuy2];
    for pk in yuvs {
        assert!(pk.is_yuv_family(), "{pk:?} should be is_yuv_family");
    }
    for pk in PixelKind::all() {
        assert_eq!(pk.is_yuv_family(), yuvs.contains(&pk), "{pk:?}");
    }
}

#[test]
fn pixel_kind_color_family_predicates_partition_set() {
    for pk in PixelKind::all() {
        let r = pk.is_rgb_family() as u8;
        let y = pk.is_yuv_family() as u8;
        assert_eq!(r + y, 1, "exactly one color family must hold for {pk:?}");
    }
}

#[test]
fn pixel_kind_is_packed() {
    let packed = [PixelKind::Bgr24, PixelKind::Bgra32, PixelKind::Yuy2];
    for pk in packed {
        assert!(pk.is_packed(), "{pk:?} should be is_packed");
    }
    for pk in PixelKind::all() {
        assert_eq!(pk.is_packed(), packed.contains(&pk), "{pk:?}");
    }
}

#[test]
fn pixel_kind_is_planar() {
    assert!(PixelKind::Yv12.is_planar());
    for pk in [PixelKind::Bgr24, PixelKind::Bgra32, PixelKind::Yuy2] {
        assert!(!pk.is_planar(), "{pk:?} should not be is_planar");
    }
}

#[test]
fn pixel_kind_layout_predicates_partition_set() {
    for pk in PixelKind::all() {
        let p = pk.is_packed() as u8;
        let l = pk.is_planar() as u8;
        assert_eq!(p + l, 1, "exactly one layout must hold for {pk:?}");
    }
}

#[test]
fn pixel_kind_has_alpha() {
    assert!(PixelKind::Bgra32.has_alpha());
    for pk in [PixelKind::Bgr24, PixelKind::Yv12, PixelKind::Yuy2] {
        assert!(!pk.has_alpha(), "{pk:?} should not have alpha");
    }
}

#[test]
fn pixel_kind_bytes_per_pixel() {
    assert_eq!(PixelKind::Bgr24.bytes_per_pixel(), Some(3));
    assert_eq!(PixelKind::Bgra32.bytes_per_pixel(), Some(4));
    assert_eq!(PixelKind::Yv12.bytes_per_pixel(), None);
    assert_eq!(PixelKind::Yuy2.bytes_per_pixel(), None);
}

#[test]
fn pixel_kind_bytes_per_pixel_implies_packed() {
    for pk in PixelKind::all() {
        if pk.bytes_per_pixel().is_some() {
            assert!(
                pk.is_packed(),
                "{pk:?} with bytes_per_pixel should be is_packed"
            );
        }
    }
}

#[test]
fn pixel_kind_buffer_len_matches_bytes_per_pixel() {
    for (w, h) in [(1u32, 1u32), (4, 4), (16, 9), (640, 480)] {
        for pk in PixelKind::all() {
            if let Some(bpp) = pk.bytes_per_pixel() {
                assert_eq!(
                    pk.buffer_len(w, h),
                    (w as usize) * (h as usize) * bpp,
                    "{pk:?} {w}x{h}"
                );
            }
        }
    }
}

#[test]
fn pixel_kind_buffer_len_yuy2_is_two_bytes_per_pixel() {
    for (w, h) in [(2u32, 1u32), (4, 4), (640, 480)] {
        assert_eq!(
            PixelKind::Yuy2.buffer_len(w, h),
            (w as usize) * (h as usize) * 2,
            "Yuy2 {w}x{h}"
        );
    }
}

#[test]
fn pixel_kind_buffer_len_yv12_matches_spec_6_1_1() {
    for (w, h) in [(2u32, 2u32), (4, 4), (16, 16), (640, 480)] {
        let n = (w as usize) * (h as usize);
        assert_eq!(PixelKind::Yv12.buffer_len(w, h), n + 2 * (n / 4));
    }
}
