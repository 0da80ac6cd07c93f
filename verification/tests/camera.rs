use geo_renderer::camera::{Camera, CameraError, Intrinsics, Pixel};
use geo_renderer::coords::{Coords, Direction};

fn camera(xi_micro: i64, fx: i64, fy: i64, cx: i64, cy: i64) -> Camera {
    Camera::new(
        Coords { x: 0, y: 0, z: 0 },
        Intrinsics {
            xi_micro,
            focal_length_x_mpx: fx,
            focal_length_y_mpx: fy,
            optical_center_x_mpx: cx,
            optical_center_y_mpx: cy,
            image_width_px: 960,
            image_height_px: 1080,
        },
    )
}

/// No distortion, focal length 500 px, optical centre at (480, 540) px.
fn pinhole() -> Camera {
    camera(0, 500_000, 500_000, 480_000, 540_000)
}

/// Distortion 1.2, focal lengths 300 and 310 px, optical centre at (512, 384) px.
fn fisheye() -> Camera {
    camera(1_200_000, 300_000, 310_000, 512_000, 384_000)
}

/// Distortion 2, focal length 300 px.
fn wide() -> Camera {
    camera(2_000_000, 300_000, 300_000, 512_000, 384_000)
}

#[test]
fn a_new_camera_looks_straight_down() {
    let c = pinhole();
    assert_eq!(c.position, Coords { x: 0, y: 0, z: 0 });
    assert_eq!(c.forward, Direction { x: 0, y: 0, z: -1 });
    assert_eq!(c.up, Direction { x: 0, y: -1, z: 0 });
}

#[test]
fn without_distortion_projection_is_that_of_a_pinhole() {
    let c = pinhole();
    assert!(c.can_project(Coords { x: 1000, y: -2000, z: 10_000 }));
    assert_eq!(
        c.project(Coords { x: 1000, y: -2000, z: 10_000 }),
        Pixel { x: 530_000, y: 440_000 }
    );
    assert_eq!(
        c.project(Coords { x: 1600, y: -1800, z: 5000 }),
        Pixel { x: 640_000, y: 360_000 }
    );
    // Rounded down, also below zero.
    assert_eq!(c.project(Coords { x: 1, y: 1, z: 3 }), Pixel { x: 646_666, y: 706_666 });
    assert_eq!(c.project(Coords { x: -7, y: 5, z: 3 }), Pixel { x: -686_667, y: 1_373_333 });
    // A focal length below zero mirrors the image.
    let mirrored = camera(0, -500_000, 500_000, 480_000, 540_000);
    assert_eq!(
        mirrored.project(Coords { x: 1000, y: -2000, z: 10_000 }),
        Pixel { x: 430_000, y: 440_000 }
    );
    assert_eq!(
        mirrored.unproject(Pixel { x: 430_000, y: 440_000 }, 10_000),
        Ok(Coords { x: 1000, y: -2000, z: 10_000 })
    );
}

#[test]
fn without_distortion_every_pixel_comes_back() {
    let c = pinhole();
    assert_eq!(
        c.unproject(Pixel { x: 530_000, y: 440_000 }, 10_000),
        Ok(Coords { x: 1000, y: -2000, z: 10_000 })
    );
    assert_eq!(
        c.unproject(Pixel { x: 640_000, y: 360_000 }, 5000),
        Ok(Coords { x: 1600, y: -1800, z: 5000 })
    );
    assert_eq!(
        c.unproject(Pixel { x: 0, y: 0 }, 123_457),
        Ok(Coords { x: -118_519, y: -133_334, z: 123_457 })
    );
    // No pixel of the image, and none far outside it, is out of view.
    for px in (-5_000_000..=5_000_000).step_by(250_000) {
        for py in (-5_000_000..=5_000_000).step_by(250_000) {
            assert!(c.can_unproject(Pixel { x: px, y: py }, 1000));
            let point = c.unproject(Pixel { x: px, y: py }, 1000).unwrap();
            assert_eq!(point.x, (px - 480_000).div_euclid(500));
            assert_eq!(point.y, (py - 540_000).div_euclid(500));
            assert_eq!(point.z, 1000);
        }
    }
}

#[test]
fn the_field_of_view_ends_where_the_model_says() {
    // With distortion 2 the model's quantity is 1 - 3 r2: zero at a
    // normalised radius of 0.57735...
    let c = camera(2_000_000, 1_000_000, 1_000_000, 0, 0);
    assert_eq!(
        c.unproject(Pixel { x: 577_350, y: 0 }, 1000),
        Ok(Coords { x: -1736, y: 0, z: 1000 })
    );
    assert_eq!(
        c.unproject(Pixel { x: 577_351, y: 0 }, 1000),
        Err(CameraError::NotInFov)
    );
    assert_eq!(
        c.unproject(Pixel { x: 408_248, y: 408_248 }, 1000),
        Ok(Coords { x: -1228, y: -1228, z: 1000 })
    );
    assert_eq!(
        c.unproject(Pixel { x: 408_249, y: 408_249 }, 1000),
        Err(CameraError::NotInFov)
    );
    assert_eq!(
        c.unproject(Pixel { x: -577_351, y: 0 }, 1000),
        Err(CameraError::NotInFov)
    );
    // With distortion 5/3, rounded up, the quantity is just below zero at
    // a radius of 3/4.
    let c = camera(1_666_667, 1_000_000, 1_000_000, 0, 0);
    assert_eq!(
        c.unproject(Pixel { x: 750_000, y: 0 }, 1000),
        Err(CameraError::NotInFov)
    );
    assert_eq!(
        c.unproject(Pixel { x: 749_999, y: 0 }, 1000),
        Ok(Coords { x: -1337, y: 0, z: 1000 })
    );
}

#[test]
fn a_pixel_at_right_angles_to_the_view_gives_a_point_at_the_limit() {
    let limit = 10_000_000_000_000i64;
    let c = camera(1_000_000, 1_000_000, 1_000_000, 0, 0);
    assert_eq!(
        c.unproject(Pixel { x: 1_000_000, y: 0 }, 1000),
        Ok(Coords { x: limit, y: 0, z: 1000 })
    );
    assert_eq!(
        c.unproject(Pixel { x: -1_000_000, y: 0 }, 1000),
        Ok(Coords { x: -limit, y: 0, z: 1000 })
    );
    assert_eq!(
        c.unproject(Pixel { x: 600_000, y: 800_000 }, 5),
        Ok(Coords { x: limit, y: limit, z: 5 })
    );
    assert_eq!(
        c.unproject(Pixel { x: 1_000_000, y: 0 }, 0),
        Ok(Coords { x: 0, y: 0, z: 0 })
    );
    // With distortion 2, half a focal length from the centre is inside the
    // field of view and at right angles to the view.
    let c = camera(2_000_000, 1000, 1000, 0, 0);
    assert_eq!(
        c.unproject(Pixel { x: 500, y: 0 }, 1000),
        Ok(Coords { x: limit, y: 0, z: 1000 })
    );
    // Just beside it the point is far, but not at the limit.
    let c = camera(1_000_000, 1_000_000, 1_000_000, 0, 0);
    assert_eq!(
        c.unproject(Pixel { x: 999_999, y: 0 }, 1000),
        Ok(Coords { x: 999_999_499, y: 0, z: 1000 })
    );
    assert_eq!(
        c.unproject(Pixel { x: 1_000_001, y: 0 }, 1000),
        Ok(Coords { x: -1_000_000_500, y: 0, z: 1000 })
    );
}

#[test]
fn a_point_beside_or_behind_the_camera_has_the_models_pixel() {
    let limit = 10_000_000_000_000i64;
    let p = pinhole();
    // On the plane through the camera the norm is zero: the pixel lies at
    // the limit, on the side of the point.
    assert_eq!(p.project(Coords { x: 1, y: 1, z: 0 }), Pixel { x: limit, y: limit });
    assert_eq!(p.project(Coords { x: -1, y: 0, z: 0 }), Pixel { x: -limit, y: 540_000 });
    assert_eq!(p.project(Coords { x: 0, y: 0, z: 0 }), Pixel { x: 480_000, y: 540_000 });
    // Behind the camera the pinhole mirrors the point.
    assert_eq!(p.project(Coords { x: 1, y: 1, z: -1 }), Pixel { x: -20_000, y: 40_000 });
    // Distortion lets the camera see further than a right angle.
    let c = camera(1_000_000, 1_000_000, 1_000_000, 0, 0);
    assert_eq!(c.project(Coords { x: 3000, y: 4000, z: 0 }), Pixel { x: 600_000, y: 800_000 });
    assert_eq!(c.project(Coords { x: 5, y: 0, z: -5 }), Pixel { x: 2_500_000, y: 0 });
    assert_eq!(c.project(Coords { x: 0, y: 0, z: 0 }), Pixel { x: 0, y: 0 });
}

#[test]
fn numbers_beyond_the_limit_are_told_apart_before_the_mapping() {
    let c = pinhole();
    let limit = 10_000_000_000_000i64;
    assert!(c.can_project(Coords { x: limit, y: -limit, z: 1 }));
    assert!(!c.can_project(Coords { x: limit + 1, y: 0, z: 1 }));
    assert!(!c.can_project(Coords { x: 0, y: 0, z: -limit - 1 }));
    assert!(c.can_unproject(Pixel { x: 0, y: 0 }, limit));
    assert!(!c.can_unproject(Pixel { x: 0, y: limit + 1 }, 1));
    assert!(!c.can_unproject(Pixel { x: 0, y: 0 }, -limit - 1));
    // A pixel more than a thousand focal lengths from the centre.
    let tiny = camera(0, 1, 1, 0, 0);
    assert!(tiny.can_unproject(Pixel { x: 1000, y: -1000 }, 1));
    assert!(!tiny.can_unproject(Pixel { x: 1001, y: 0 }, 1));
    assert_eq!(tiny.unproject(Pixel { x: 65, y: 0 }, 1), Ok(Coords { x: 65, y: 0, z: 1 }));
    // A point beyond the limit stops at it.
    assert_eq!(
        tiny.unproject(Pixel { x: 1000, y: 0 }, limit),
        Ok(Coords { x: limit, y: 0, z: limit })
    );
    assert_eq!(c.project(Coords { x: limit, y: 0, z: 1 }), Pixel { x: limit, y: 540_000 });
    // Intrinsics that the arithmetic is not carried out for.
    assert!(pinhole().intrinsics.check_range());
    let mut odd = pinhole();
    odd.intrinsics.focal_length_x_mpx = 0;
    assert!(!odd.intrinsics.check_range());
    assert!(!odd.can_project(Coords { x: 0, y: 0, z: 1 }));
    let mut odd = pinhole();
    odd.intrinsics.xi_micro = -4_000_001;
    assert!(!odd.intrinsics.check_range());
    assert!(!odd.can_unproject(Pixel { x: 0, y: 0 }, 1));
    let mut odd = pinhole();
    odd.intrinsics.xi_micro = -4_000_000;
    odd.intrinsics.focal_length_y_mpx = -1;
    assert!(odd.intrinsics.check_range());
}

#[test]
fn a_fisheye_camera_brings_points_back_to_within_rounding() {
    let c = fisheye();
    let cases = [
        (Coords { x: 3000, y: -1500, z: 2000 }, Pixel { x: 646_609, y: 314_451 }, (3000, -1501)),
        (
            Coords { x: 250_000, y: 100_000, z: 300_000 },
            Pixel { x: 607_695, y: 423_554 },
            (249_997, 99_998),
        ),
        (
            Coords { x: -1_200_000, y: 345_678, z: 550_000 },
            Pixel { x: 347_425, y: 432_988 },
            (-1_200_010, 345_674),
        ),
        (Coords { x: 0, y: 0, z: 1000 }, Pixel { x: 512_000, y: 384_000 }, (0, 0)),
    ];
    for (point, pixel, back) in cases {
        assert_eq!(c.project(point), pixel);
        assert_eq!(
            c.unproject(pixel, point.z),
            Ok(Coords { x: back.0, y: back.1, z: point.z })
        );
        // One thousandth of a pixel is about depth over focal length over
        // a thousand; the point comes back to within a few of them.
        let slack = point.z / 300 / 1000 * 8 + 2;
        assert!((back.0 - point.x).abs() <= slack);
        assert!((back.1 - point.y).abs() <= slack);
    }
}

#[test]
fn projection_agrees_with_the_model_in_floating_point() {
    let c = fisheye();
    let k = c.intrinsics;
    let mut seed: u64 = 0x9e37_79b9_7f4a_7c15;
    for _ in 0..500 {
        seed ^= seed << 13;
        seed ^= seed >> 7;
        seed ^= seed << 17;
        let x = (seed % 2_000_001) as i64 - 1_000_000;
        let y = ((seed >> 21) % 2_000_001) as i64 - 1_000_000;
        let z = ((seed >> 42) % 1_000_000) as i64 + 100_000;
        let pixel = c.project(Coords { x, y, z });
        let (xf, yf, zf) = (x as f64, y as f64, z as f64);
        let xi = k.xi_micro as f64 / 1e6;
        let norm = zf + xi * (xf * xf + yf * yf + zf * zf).sqrt();
        let px = k.focal_length_x_mpx as f64 * xf / norm + k.optical_center_x_mpx as f64;
        let py = k.focal_length_y_mpx as f64 * yf / norm + k.optical_center_y_mpx as f64;
        assert!((pixel.x as f64 - px).abs() <= 2.0, "{} against {}", pixel.x, px);
        assert!((pixel.y as f64 - py).abs() <= 2.0, "{} against {}", pixel.y, py);
        // And back, against the model's own inverse.
        let nx = (pixel.x - k.optical_center_x_mpx) as f64 / k.focal_length_x_mpx as f64;
        let ny = (pixel.y - k.optical_center_y_mpx) as f64 / k.focal_length_y_mpx as f64;
        let n2 = nx * nx + ny * ny;
        let arg = 1.0 + n2 - n2 * xi * xi;
        assert!(arg > 0.0);
        let a = xi + arg.sqrt();
        let s = a / (a - xi * (n2 + 1.0));
        assert!(c.can_unproject(pixel, z));
        let back = c.unproject(pixel, z).unwrap();
        let tolerance = 1.0 + (zf * s).abs() * 5e-5;
        assert!((back.x as f64 - zf * s * nx).abs() <= tolerance);
        assert!((back.y as f64 - zf * s * ny).abs() <= tolerance);
        assert_eq!(back.z, z);
    }
}

#[test]
fn ground_resolution_grows_with_height_and_distance() {
    let f = fisheye();
    assert_eq!(f.ground_resolution_mm(0, 300_000), Some(2163));
    assert_eq!(f.ground_resolution_mm(0, 2_000_000), Some(14_427));
    assert_eq!(f.ground_resolution_mm(1_000_000, 300_000), Some(12_381));
    assert_eq!(f.ground_resolution_mm(1_414_213, 300_000), Some(21_629));
    assert_eq!(f.ground_resolution_mm(1_414_213, 2_000_000), Some(18_205));
    assert_eq!(f.ground_resolution_mm(5_000_000, 300_000), Some(227_261));
    assert_eq!(f.ground_resolution_mm(20_000_000, 2_000_000), Some(559_179));
    assert_eq!(
        f.ground_resolution_mm(10_000_000_000_000, 300_000),
        Some(10_019_568_408_762)
    );
    // A pinhole camera resolves height over focal length, at any distance.
    let p = pinhole();
    assert_eq!(p.ground_resolution_mm(0, 300_000), Some(600));
    assert_eq!(p.ground_resolution_mm(0, 2_000_000), Some(4000));
    assert_eq!(p.ground_resolution_mm(20_000_000, 300_000), Some(599));
    assert_eq!(wide().ground_resolution_mm(0, 300_000), Some(2999));
    assert_eq!(wide().ground_resolution_mm(600_000, 300_000), Some(10_815));
}

#[test]
fn ground_resolution_is_unknown_where_the_camera_cannot_show_the_tile() {
    // The neighbouring pixel lies outside the field of view.
    assert_eq!(wide().ground_resolution_mm(1_000_000, -570_000), None);
    // The tile lies on the plane through the camera or behind it, and its
    // pixel further than a thousand focal lengths from the centre.
    assert_eq!(pinhole().ground_resolution_mm(1_000_000, 0), None);
    assert_eq!(pinhole().ground_resolution_mm(1_000_000, -1), None);
}

#[test]
fn a_pinhole_camera_resolves_the_mean_of_height_over_both_focal_lengths() {
    // Focal lengths 400 and 500 px at 100 m: 250 mm and 200 mm a pixel.
    let c = camera(0, 400_000, 500_000, 480_000, 540_000);
    assert_eq!(c.ground_resolution_mm(0, 100_000), Some(225));
    assert_eq!(c.ground_resolution_mm(50_000, 100_000), Some(225));
    assert_eq!(c.ground_resolution_mm(0, 1_000_000), Some(2250));
}
