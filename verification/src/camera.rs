//! The fisheye camera: pose, intrinsics, and the mapping between points in
//! the camera's frame and pixels, after the unified spherical model.
//!
//! The model is evaluated in whole numbers. Points are whole millimetres in
//! the camera's frame, with `z` along the view. Pixel positions, focal
//! lengths and the optical centre are whole thousandths of a pixel. The
//! distortion parameter and the normalised image coordinates are whole
//! millionths. Square roots and quotients are rounded down, each once; the
//! contracts say where. Where the model divides by zero or leaves the
//! numbers that a coordinate may have, the result stops at the limit.

use crate::coords::{
    floor_sqrt, floor_sqrt_u128, lemma_floor_sqrt_bounded, lemma_floor_sqrt_exists,
    lemma_floor_sqrt_is, nadir_forward, nadir_up, Coords, Direction,
};
use vstd::prelude::*;

verus! {

/// One, in millionths.
pub const MICRO: i64 = 1_000_000;

/// One pixel, in thousandths of a pixel.
pub const PIXEL: i64 = 1000;

/// The largest size that a coordinate, a depth or a focal length may have,
/// whatever its unit: the arithmetic is carried out in 128 bits, and larger
/// numbers would leave them. Results beyond the limit stop at it.
pub const COORD_LIMIT: i64 = 10_000_000_000_000;

/// The largest size of the distortion parameter, in millionths, for the
/// same reason.
pub const XI_LIMIT: i64 = 4_000_000;

/// The largest size of a normalised image coordinate, in millionths, for
/// the same reason: a pixel may lie up to a thousand focal lengths from the
/// optical centre.
pub const NORMALIZED_LIMIT: i64 = 1_000_000_000;

/// What a camera is, apart from where it stands.
#[derive(Debug, Copy, Clone, PartialEq, Eq, Structural)]
pub struct Intrinsics {
    /// Distortion parameter of the unified spherical model, in millionths.
    pub xi_micro: i64,
    /// Focal lengths along both image axes, in thousandths of a pixel.
    pub focal_length_x_mpx: i64,
    pub focal_length_y_mpx: i64,
    /// Optical centre, in thousandths of a pixel; mostly the image centre.
    pub optical_center_x_mpx: i64,
    pub optical_center_y_mpx: i64,
    /// Size of the image in pixels.
    pub image_width_px: u32,
    pub image_height_px: u32,
}

/// A position in the image, in thousandths of a pixel.
#[derive(Debug, Copy, Clone, PartialEq, Eq, Structural)]
pub struct Pixel {
    pub x: i64,
    pub y: i64,
}

/// Why a pixel could not be brought back into the camera's frame.
#[derive(Debug, Copy, Clone, PartialEq, Eq, Structural)]
pub enum CameraError {
    /// The pixel lies outside the camera's field of view.
    NotInFov,
}

/// A camera: where it stands, how it is turned, and what it is.
#[derive(Debug, Copy, Clone, PartialEq, Eq, Structural)]
pub struct Camera {
    pub position: Coords,
    pub forward: Direction,
    pub up: Direction,
    pub intrinsics: Intrinsics,
}

/// The number is no larger than `COORD_LIMIT` in size.
pub open spec fn within_limit(v: int) -> bool {
    -COORD_LIMIT <= v <= COORD_LIMIT
}

/// The number, or the limit on its side where it lies beyond.
pub open spec fn limited(v: int) -> int {
    if v < -COORD_LIMIT {
        -COORD_LIMIT as int
    } else if v > COORD_LIMIT {
        COORD_LIMIT as int
    } else {
        v
    }
}

/// The quotient of `n` by `d`, rounded down, for a divisor other than zero.
pub open spec fn floor_div(n: int, d: int) -> int {
    if d > 0 {
        n / d
    } else {
        (-n) / (-d)
    }
}

/// `offset` plus the quotient of `n` by `d`, rounded down and stopped at
/// the limit. Where `d` is zero the quotient has no size: the result is the
/// limit on the side of `n`, and `offset` where `n` is zero too.
pub open spec fn offset_quotient(offset: int, n: int, d: int) -> int {
    if d != 0 {
        limited(offset + floor_div(n, d))
    } else if n > 0 {
        COORD_LIMIT as int
    } else if n < 0 {
        -COORD_LIMIT as int
    } else {
        offset
    }
}

/// The normalised image coordinate, in millionths, of a pixel coordinate
/// `offset` thousandths of a pixel from the optical centre, rounded down.
pub open spec fn normalized(offset: int, focal: int) -> int {
    floor_div(offset * MICRO, focal)
}

/// The squared distance of a normalised pixel from the optical centre.
pub open spec fn radius_squared(nx: int, ny: int) -> int {
    nx * nx + ny * ny
}

/// The quantity `1 + r2 - r2 * xi^2` of the model, whose sign decides
/// whether a pixel is in the field of view; scaled by `MICRO^4`.
pub open spec fn fov_arg(nx: int, ny: int, xi: int) -> int {
    1_000_000_000_000_000_000_000_000int + radius_squared(nx, ny) * (1_000_000_000_000int - xi
        * xi)
}

/// The distance between two points, rounded down to a whole millimetre.
pub open spec fn spec_distance(a: Coords, b: Coords) -> int {
    floor_sqrt(
        (a.x - b.x) * (a.x - b.x) + (a.y - b.y) * (a.y - b.y) + (a.z - b.z) * (a.z - b.z),
    )
}

impl Intrinsics {
    /// The numbers of the intrinsics are of a size that the arithmetic is
    /// carried out for, and no focal length is zero, which the model
    /// divides by.
    pub open spec fn in_range(self) -> bool {
        &&& -XI_LIMIT <= self.xi_micro <= XI_LIMIT
        &&& self.focal_length_x_mpx != 0
        &&& self.focal_length_y_mpx != 0
        &&& within_limit(self.focal_length_x_mpx as int)
        &&& within_limit(self.focal_length_y_mpx as int)
        &&& within_limit(self.optical_center_x_mpx as int)
        &&& within_limit(self.optical_center_y_mpx as int)
    }

    /// The point can be projected: all numbers are of a size that the
    /// arithmetic is carried out for.
    pub open spec fn can_project(self, point: Coords) -> bool {
        &&& self.in_range()
        &&& within_limit(point.x as int)
        &&& within_limit(point.y as int)
        &&& within_limit(point.z as int)
    }

    /// The normalised image coordinate of a pixel along `x`.
    pub open spec fn normalized_x(self, pixel: Pixel) -> int {
        normalized(pixel.x - self.optical_center_x_mpx, self.focal_length_x_mpx as int)
    }

    /// The normalised image coordinate of a pixel along `y`.
    pub open spec fn normalized_y(self, pixel: Pixel) -> int {
        normalized(pixel.y - self.optical_center_y_mpx, self.focal_length_y_mpx as int)
    }

    /// The pixel can be brought back to the depth: all numbers are of a
    /// size that the arithmetic is carried out for, and the pixel lies no
    /// further than a thousand focal lengths from the optical centre.
    pub open spec fn can_unproject(self, pixel: Pixel, depth: i64) -> bool {
        &&& self.in_range()
        &&& within_limit(pixel.x as int)
        &&& within_limit(pixel.y as int)
        &&& within_limit(depth as int)
        &&& -NORMALIZED_LIMIT <= self.normalized_x(pixel) <= NORMALIZED_LIMIT
        &&& -NORMALIZED_LIMIT <= self.normalized_y(pixel) <= NORMALIZED_LIMIT
    }

    /// The pixel of a point in the camera's frame.
    ///
    /// With `len` the length of the point, rounded down, the norm of the
    /// model is `z + xi * len`, here scaled by `MICRO`. The pixel is the
    /// optical centre plus the focal length times the coordinate over the
    /// norm, rounded down. Behind the camera, where the norm is below zero,
    /// the same holds; it is the model's number, though no lens shows the
    /// point there. Where the norm is zero, the pixel lies at the limit.
    pub open spec fn spec_project(self, point: Coords) -> Pixel {
        let len = floor_sqrt(point.x * point.x + point.y * point.y + point.z * point.z);
        let norm = point.z * MICRO + self.xi_micro * len;
        Pixel {
            x: offset_quotient(
                self.optical_center_x_mpx as int,
                self.focal_length_x_mpx * point.x * MICRO,
                norm,
            ) as i64,
            y: offset_quotient(
                self.optical_center_y_mpx as int,
                self.focal_length_y_mpx * point.y * MICRO,
                norm,
            ) as i64,
        }
    }

    /// The point at depth `depth` along the view that a pixel shows.
    ///
    /// The pixel is normalised by the optical centre and the focal
    /// lengths. With `r2` its squared distance from the centre, the pixel
    /// is outside the field of view where `1 + r2 - r2 * xi^2` is not above
    /// zero, and only there. Else, with `root` the square root of that
    /// quantity, rounded down, `a = xi + root` and `s = a / (a - xi * (r2
    /// + 1))`, the point is `depth * (s * x, s * y, 1)`, each coordinate
    /// rounded down. Where the divisor of `s` is zero, the pixel looks at
    /// right angles to the view, and the point lies at the limit.
    pub open spec fn spec_unproject(self, pixel: Pixel, depth: i64) -> Result<Coords, CameraError> {
        let nx = self.normalized_x(pixel);
        let ny = self.normalized_y(pixel);
        if fov_arg(nx, ny, self.xi_micro as int) <= 0 {
            Err(CameraError::NotInFov)
        } else {
            let root = floor_sqrt(fov_arg(nx, ny, self.xi_micro as int));
            let a = self.xi_micro * MICRO + root;
            let rest = MICRO * root - self.xi_micro * radius_squared(nx, ny);
            Ok(
                Coords {
                    x: offset_quotient(0, depth * nx * a, rest) as i64,
                    y: offset_quotient(0, depth * ny * a, rest) as i64,
                    z: depth,
                },
            )
        }
    }

    /// Whether the numbers of the intrinsics are of a size that the
    /// arithmetic is carried out for, and no focal length is zero.
    pub fn check_range(&self) -> (ok: bool)
        ensures
            ok == self.in_range(),
    {
        -XI_LIMIT <= self.xi_micro && self.xi_micro <= XI_LIMIT && self.focal_length_x_mpx != 0
            && self.focal_length_y_mpx != 0 && fits(self.focal_length_x_mpx) && fits(
            self.focal_length_y_mpx,
        ) && fits(self.optical_center_x_mpx) && fits(self.optical_center_y_mpx)
    }
}

/// Whether the number is no larger than `COORD_LIMIT` in size.
fn fits(v: i64) -> (ok: bool)
    ensures
        ok == within_limit(v as int),
{
    -COORD_LIMIT <= v && v <= COORD_LIMIT
}

/// The product of two numbers is no larger in size than the product of
/// their bounds.
proof fn lemma_product_bound(a: int, b: int, bound_a: int, bound_b: int)
    by (nonlinear_arith)
    requires
        -bound_a <= a <= bound_a,
        -bound_b <= b <= bound_b,
    ensures
        -(bound_a * bound_b) <= a * b <= bound_a * bound_b,
{
}

/// A quotient rounded down is no larger in size than what is divided,
/// where the divisor is at least one.
proof fn lemma_quotient_bound(n: int, d: int, bound: int)
    by (nonlinear_arith)
    requires
        -bound <= n <= bound,
        d >= 1,
    ensures
        -bound <= n / d <= bound,
{
}

/// The square root, rounded down, of a number up to a bound squared is up
/// to the bound.
proof fn lemma_root_bound(n: int, bound: int)
    requires
        0 <= n <= bound * bound,
        0 <= bound,
    ensures
        0 <= floor_sqrt(n) <= bound,
{
    lemma_floor_sqrt_exists(n);
    lemma_floor_sqrt_bounded(n, floor_sqrt(n), bound);
}

/// The quotient of `n` by `d`, rounded down.
fn floor_div_wide(n: i128, d: i128) -> (q: i128)
    requires
        d != 0,
        -0x4000_0000_0000_0000_0000_0000_0000_0000 <= n <= 0x4000_0000_0000_0000_0000_0000_0000_0000,
        -0x4000_0000_0000_0000_0000_0000_0000_0000 <= d <= 0x4000_0000_0000_0000_0000_0000_0000_0000,
    ensures
        q == floor_div(n as int, d as int),
        -0x4000_0000_0000_0000_0000_0000_0000_0000 <= q <= 0x4000_0000_0000_0000_0000_0000_0000_0000,
{
    if d > 0 {
        proof {
            lemma_quotient_bound(n as int, d as int, 0x4000_0000_0000_0000_0000_0000_0000_0000);
        }
        match n.checked_div_euclid(d) {
            Some(q) => q,
            None => 0,
        }
    } else {
        proof {
            lemma_quotient_bound(-n as int, -d as int, 0x4000_0000_0000_0000_0000_0000_0000_0000);
        }
        match (-n).checked_div_euclid(-d) {
            Some(q) => q,
            None => 0,
        }
    }
}

/// `offset` plus the quotient of `n` by `d`, stopped at the limit.
fn offset_quotient_wide(offset: i64, n: i128, d: i128) -> (v: i64)
    requires
        within_limit(offset as int),
        -0x4000_0000_0000_0000_0000_0000_0000_0000 <= n <= 0x4000_0000_0000_0000_0000_0000_0000_0000,
        -0x4000_0000_0000_0000_0000_0000_0000_0000 <= d <= 0x4000_0000_0000_0000_0000_0000_0000_0000,
    ensures
        v == offset_quotient(offset as int, n as int, d as int),
        within_limit(v as int),
{
    if d != 0 {
        let sum: i128 = offset as i128 + floor_div_wide(n, d);
        if sum < -(COORD_LIMIT as i128) {
            -COORD_LIMIT
        } else if sum > COORD_LIMIT as i128 {
            COORD_LIMIT
        } else {
            sum as i64
        }
    } else if n > 0 {
        COORD_LIMIT
    } else if n < 0 {
        -COORD_LIMIT
    } else {
        offset
    }
}

/// The normalised image coordinate of a pixel coordinate.
fn normalize_offset(pixel: i64, center: i64, focal: i64) -> (n: i128)
    requires
        within_limit(pixel as int),
        within_limit(center as int),
        within_limit(focal as int),
        focal != 0,
    ensures
        n == normalized(pixel - center, focal as int),
{
    let offset: i128 = pixel as i128 - center as i128;
    proof {
        lemma_product_bound(offset as int, MICRO as int, 20_000_000_000_000, 1_000_000);
    }
    floor_div_wide(offset * (MICRO as i128), focal as i128)
}

/// The distance between two points whose coordinates are within the limit.
fn distance(a: Coords, b: Coords) -> (d: u64)
    requires
        within_limit(a.x as int),
        within_limit(a.y as int),
        within_limit(a.z as int),
        within_limit(b.x as int),
        within_limit(b.y as int),
        within_limit(b.z as int),
    ensures
        d == spec_distance(a, b),
        d <= 40_000_000_000_000,
{
    let dx: i128 = a.x as i128 - b.x as i128;
    let dy: i128 = a.y as i128 - b.y as i128;
    let dz: i128 = a.z as i128 - b.z as i128;
    proof {
        lemma_product_bound(dx as int, dx as int, 20_000_000_000_000, 20_000_000_000_000);
        lemma_product_bound(dy as int, dy as int, 20_000_000_000_000, 20_000_000_000_000);
        lemma_product_bound(dz as int, dz as int, 20_000_000_000_000, 20_000_000_000_000);
        assert(dx * dx >= 0 && dy * dy >= 0 && dz * dz >= 0) by (nonlinear_arith);
        lemma_root_bound(dx * dx + dy * dy + dz * dz, 40_000_000_000_000);
    }
    let sum: i128 = dx * dx + dy * dy + dz * dz;
    floor_sqrt_u128(sum as u128)
}

impl Camera {
    /// A camera at `position` that looks straight down.
    pub fn new(position: Coords, intrinsics: Intrinsics) -> (camera: Camera)
        ensures
            camera == (Camera {
                position,
                forward: nadir_forward(),
                up: nadir_up(),
                intrinsics,
            }),
    {
        Camera {
            position,
            forward: Direction::nadir_forward(),
            up: Direction::nadir_up(),
            intrinsics,
        }
    }

    /// The ground resolution that the camera resolves on a tile, in
    /// millimetres per pixel.
    ///
    /// A point as far to the side as the tile is from the tile under the
    /// camera, and as deep as the camera is high, is projected into the
    /// image. The pixels one further along each axis are brought back to
    /// that depth. The resolution is the mean of the two distances from
    /// the point, rounded down. There is no resolution where one of the two
    /// pixels is outside the field of view, or further from the optical
    /// centre than the arithmetic is carried out for.
    pub open spec fn spec_ground_resolution_mm(self, min_dist_mm: u64, agl_mm: i64) -> Option<u64> {
        let point = Coords { x: 0, y: min_dist_mm as i64, z: agl_mm };
        let pixel = self.intrinsics.spec_project(point);
        let along_y = Pixel { x: pixel.x, y: (pixel.y + PIXEL) as i64 };
        let along_x = Pixel { x: (pixel.x + PIXEL) as i64, y: pixel.y };
        if !self.intrinsics.can_unproject(along_y, agl_mm) || !self.intrinsics.can_unproject(
            along_x,
            agl_mm,
        ) {
            None
        } else {
            match (
                self.intrinsics.spec_unproject(along_y, agl_mm),
                self.intrinsics.spec_unproject(along_x, agl_mm),
            ) {
                (Ok(far_y), Ok(far_x)) => Some(
                    ((spec_distance(point, far_y) + spec_distance(point, far_x)) / 2) as u64,
                ),
                _ => None,
            }
        }
    }

    /// Whether the point can be projected: whether all numbers are of a
    /// size that the arithmetic is carried out for.
    pub fn can_project(&self, point_mm: Coords) -> (ok: bool)
        ensures
            ok == self.intrinsics.can_project(point_mm),
    {
        self.intrinsics.check_range() && fits(point_mm.x) && fits(point_mm.y) && fits(point_mm.z)
    }

    /// Whether the pixel can be brought back to the depth: whether all
    /// numbers are of a size that the arithmetic is carried out for.
    pub fn can_unproject(&self, point_px: Pixel, depth_mm: i64) -> (ok: bool)
        ensures
            ok == self.intrinsics.can_unproject(point_px, depth_mm),
    {
        let k = &self.intrinsics;
        if !(k.check_range() && fits(point_px.x) && fits(point_px.y) && fits(depth_mm)) {
            return false;
        }
        let nx = normalize_offset(point_px.x, k.optical_center_x_mpx, k.focal_length_x_mpx);
        let ny = normalize_offset(point_px.y, k.optical_center_y_mpx, k.focal_length_y_mpx);
        let bound: i128 = NORMALIZED_LIMIT as i128;
        -bound <= nx && nx <= bound && -bound <= ny && ny <= bound
    }

    /// Project a point in the camera's frame, in millimetres with `z`
    /// along the view, into the image.
    pub fn project(&self, point_mm: Coords) -> (pixel: Pixel)
        requires
            self.intrinsics.can_project(point_mm),
        ensures
            pixel == self.intrinsics.spec_project(point_mm),
            within_limit(pixel.x as int),
            within_limit(pixel.y as int),
    {
        let k = &self.intrinsics;
        let x: i128 = point_mm.x as i128;
        let y: i128 = point_mm.y as i128;
        let z: i128 = point_mm.z as i128;
        let limit: Ghost<int> = Ghost(10_000_000_000_000);
        proof {
            lemma_product_bound(x as int, x as int, limit@, limit@);
            lemma_product_bound(y as int, y as int, limit@, limit@);
            lemma_product_bound(z as int, z as int, limit@, limit@);
            assert(x * x >= 0 && y * y >= 0 && z * z >= 0) by (nonlinear_arith);
        }
        let square: i128 = x * x + y * y + z * z;
        proof {
            lemma_root_bound(square as int, 20_000_000_000_000);
        }
        let len: i128 = floor_sqrt_u128(square as u128) as i128;
        let xi: i128 = k.xi_micro as i128;
        proof {
            lemma_product_bound(xi as int, len as int, 4_000_000, 20_000_000_000_000);
            lemma_product_bound(z as int, MICRO as int, limit@, 1_000_000);
        }
        let norm: i128 = z * (MICRO as i128) + xi * len;
        let fx: i128 = k.focal_length_x_mpx as i128;
        let fy: i128 = k.focal_length_y_mpx as i128;
        proof {
            lemma_product_bound(fx as int, x as int, limit@, limit@);
            lemma_product_bound(fy as int, y as int, limit@, limit@);
            lemma_product_bound(fx * x, MICRO as int, limit@ * limit@, 1_000_000);
            lemma_product_bound(fy * y, MICRO as int, limit@ * limit@, 1_000_000);
        }
        Pixel {
            x: offset_quotient_wide(k.optical_center_x_mpx, fx * x * (MICRO as i128), norm),
            y: offset_quotient_wide(k.optical_center_y_mpx, fy * y * (MICRO as i128), norm),
        }
    }

    /// Project a pixel into the camera's frame, to the point at `depth_mm`
    /// along the view. The one failure is a pixel outside the field of
    /// view.
    pub fn unproject(&self, point_px: Pixel, depth_mm: i64) -> (point: Result<Coords, CameraError>)
        requires
            self.intrinsics.can_unproject(point_px, depth_mm),
        ensures
            point == self.intrinsics.spec_unproject(point_px, depth_mm),
            point is Err <==> fov_arg(
                self.intrinsics.normalized_x(point_px),
                self.intrinsics.normalized_y(point_px),
                self.intrinsics.xi_micro as int,
            ) <= 0,
            point matches Ok(p) ==> within_limit(p.x as int) && within_limit(p.y as int) && p.z
                == depth_mm,
    {
        let k = &self.intrinsics;
        let nx = normalize_offset(point_px.x, k.optical_center_x_mpx, k.focal_length_x_mpx);
        let ny = normalize_offset(point_px.y, k.optical_center_y_mpx, k.focal_length_y_mpx);
        let xi: i128 = k.xi_micro as i128;
        proof {
            lemma_product_bound(nx as int, nx as int, 1_000_000_000, 1_000_000_000);
            lemma_product_bound(ny as int, ny as int, 1_000_000_000, 1_000_000_000);
            assert(nx * nx >= 0 && ny * ny >= 0) by (nonlinear_arith);
            lemma_product_bound(xi as int, xi as int, 4_000_000, 4_000_000);
            assert(xi * xi >= 0) by (nonlinear_arith);
        }
        let r2: i128 = nx * nx + ny * ny;
        let spread: i128 = 1_000_000_000_000 - xi * xi;
        proof {
            lemma_product_bound(
                r2 as int,
                spread as int,
                2_000_000_000_000_000_000,
                16_000_000_000_000,
            );
        }
        let arg: i128 = 1_000_000_000_000_000_000_000_000 + r2 * spread;
        if arg <= 0 {
            return Err(CameraError::NotInFov);
        }
        proof {
            lemma_root_bound(arg as int, 6_000_000_000_000_000);
            lemma_product_bound(xi as int, MICRO as int, 4_000_000, 1_000_000);
        }
        let root: i128 = floor_sqrt_u128(arg as u128) as i128;
        let a: i128 = xi * (MICRO as i128) + root;
        proof {
            lemma_product_bound(xi as int, r2 as int, 4_000_000, 2_000_000_000_000_000_000);
            lemma_product_bound(MICRO as int, root as int, 1_000_000, 6_000_000_000_000_000);
        }
        let rest: i128 = (MICRO as i128) * root - xi * r2;
        let depth: i128 = depth_mm as i128;
        proof {
            lemma_product_bound(depth as int, nx as int, 10_000_000_000_000, 1_000_000_000);
            lemma_product_bound(depth as int, ny as int, 10_000_000_000_000, 1_000_000_000);
            lemma_product_bound(
                depth * nx,
                a as int,
                10_000_000_000_000_000_000_000,
                6_004_000_000_000_000,
            );
            lemma_product_bound(
                depth * ny,
                a as int,
                10_000_000_000_000_000_000_000,
                6_004_000_000_000_000,
            );
        }
        Ok(
            Coords {
                x: offset_quotient_wide(0, depth * nx * a, rest),
                y: offset_quotient_wide(0, depth * ny * a, rest),
                z: depth_mm,
            },
        )
    }

    /// The ground resolution, in millimetres per pixel, that the camera
    /// resolves from `agl_mm` above ground on a tile whose nearest corner
    /// lies `min_dist_mm` millimetres from the tile under the camera;
    /// nothing where the tile is outside what the camera shows.
    pub fn ground_resolution_mm(&self, min_dist_mm: u64, agl_mm: i64) -> (resolution: Option<u64>)
        requires
            self.intrinsics.in_range(),
            within_limit(agl_mm as int),
            min_dist_mm <= COORD_LIMIT,
        ensures
            resolution == self.spec_ground_resolution_mm(min_dist_mm, agl_mm),
    {
        let point = Coords { x: 0, y: min_dist_mm as i64, z: agl_mm };
        let pixel = self.project(point);
        let along_y = Pixel { x: pixel.x, y: pixel.y + PIXEL };
        let along_x = Pixel { x: pixel.x + PIXEL, y: pixel.y };
        if !self.can_unproject(along_y, agl_mm) || !self.can_unproject(along_x, agl_mm) {
            return None;
        }
        match (self.unproject(along_y, agl_mm), self.unproject(along_x, agl_mm)) {
            (Ok(far_y), Ok(far_x)) => {
                let dist_y = distance(point, far_y);
                let dist_x = distance(point, far_x);
                Some((dist_y + dist_x) / 2)
            },
            _ => None,
        }
    }
}

/// A quotient rounded down, times the divisor, is at most what was divided
/// and misses it by less than the divisor.
proof fn lemma_floor_bounds(n: int, d: int)
    by (nonlinear_arith)
    requires
        d > 0,
    ensures
        d * (n / d) <= n < d * (n / d) + d,
{
}

/// A factor common to both sides of a quotient drops out.
proof fn lemma_cancel(n: int, d: int, c: int)
    requires
        d != 0,
        c > 0,
    ensures
        floor_div(n * c, d * c) == floor_div(n, d),
{
    if d > 0 {
        lemma_cancel_positive(n, d, c);
        assert(d * c > 0) by (nonlinear_arith)
            requires
                d > 0,
                c > 0,
        ;
    } else {
        lemma_cancel_positive(-n, -d, c);
        assert(d * c < 0 && -(n * c) == (-n) * c && -(d * c) == (-d) * c) by (nonlinear_arith)
            requires
                d < 0,
                c > 0,
        ;
    }
}

/// A factor common to both sides of a quotient drops out.
proof fn lemma_cancel_positive(n: int, d: int, c: int)
    requires
        d > 0,
        c > 0,
    ensures
        (n * c) / (d * c) == n / d,
{
    let q = n / d;
    lemma_floor_bounds(n, d);
    assert(d * c > 0) by (nonlinear_arith)
        requires
            d > 0,
            c > 0,
    ;
    lemma_floor_bounds(n * c, d * c);
    let big = (n * c) / (d * c);
    assert(big == q) by (nonlinear_arith)
        requires
            d > 0,
            c > 0,
            d * q <= n < d * q + d,
            (d * c) * big <= n * c < (d * c) * big + d * c,
    ;
}

/// The square root of a square is the number that was squared.
proof fn lemma_root_of_square(v: int)
    requires
        v >= 0,
    ensures
        floor_sqrt(v * v) == v,
{
    assert(v * v < (v + 1) * (v + 1)) by (nonlinear_arith)
        requires
            v >= 0,
    ;
    lemma_floor_sqrt_is(v * v, v);
}

/// The field of view ends exactly where the quantity `1 + r2 - r2 * xi^2`
/// of the model reaches zero: a pixel is refused if and only if the
/// quantity, taken at the normalised pixel, is not above zero. There is no
/// other failure.
pub proof fn lemma_field_of_view_boundary(k: Intrinsics, pixel: Pixel, depth: i64)
    ensures
        k.spec_unproject(pixel, depth) is Err <==> fov_arg(
            k.normalized_x(pixel),
            k.normalized_y(pixel),
            k.xi_micro as int,
        ) <= 0,
        k.spec_unproject(pixel, depth) is Err ==> k.spec_unproject(pixel, depth) == Err::<
            Coords,
            CameraError,
        >(CameraError::NotInFov),
{
}

/// A lens whose distortion is no more than one has no boundary: every
/// pixel is in its field of view.
pub proof fn lemma_no_boundary_up_to_one(k: Intrinsics, pixel: Pixel, depth: i64)
    requires
        -MICRO <= k.xi_micro <= MICRO,
    ensures
        k.spec_unproject(pixel, depth) is Ok,
{
    let nx = k.normalized_x(pixel);
    let ny = k.normalized_y(pixel);
    let xi = k.xi_micro as int;
    assert(fov_arg(nx, ny, xi) > 0) by (nonlinear_arith)
        requires
            -1_000_000 <= xi <= 1_000_000,
            fov_arg(nx, ny, xi) == 1_000_000_000_000_000_000_000_000 + (nx * nx + ny * ny) * (
            1_000_000_000_000 - xi * xi),
    ;
}

/// Without distortion the camera is a pinhole camera: a point off the
/// plane through the camera is projected to the optical centre plus focal
/// length times coordinate over depth, rounded down, and stopped at the
/// limit.
pub proof fn lemma_pinhole_project(k: Intrinsics, point: Coords)
    requires
        k.xi_micro == 0,
        point.z != 0,
    ensures
        k.spec_project(point) == (Pixel {
            x: limited(
                k.optical_center_x_mpx + floor_div(
                    k.focal_length_x_mpx * point.x,
                    point.z as int,
                ),
            ) as i64,
            y: limited(
                k.optical_center_y_mpx + floor_div(
                    k.focal_length_y_mpx * point.y,
                    point.z as int,
                ),
            ) as i64,
        }),
{
    let len = floor_sqrt(point.x * point.x + point.y * point.y + point.z * point.z);
    let norm = point.z * MICRO + k.xi_micro * len;
    assert(norm == point.z * MICRO) by (nonlinear_arith)
        requires
            norm == point.z * MICRO + k.xi_micro * len,
            k.xi_micro == 0,
    ;
    lemma_cancel(k.focal_length_x_mpx * point.x, point.z as int, MICRO as int);
    lemma_cancel(k.focal_length_y_mpx * point.y, point.z as int, MICRO as int);
}

/// Without distortion no pixel is outside the field of view, and a pixel
/// is brought back to depth times its normalised coordinates, rounded down
/// and stopped at the limit.
pub proof fn lemma_pinhole_unproject(k: Intrinsics, pixel: Pixel, depth: i64)
    requires
        k.xi_micro == 0,
    ensures
        k.spec_unproject(pixel, depth) == Ok::<Coords, CameraError>(
            Coords {
                x: limited(depth * k.normalized_x(pixel) / (MICRO as int)) as i64,
                y: limited(depth * k.normalized_y(pixel) / (MICRO as int)) as i64,
                z: depth,
            },
        ),
{
    let nx = k.normalized_x(pixel);
    let ny = k.normalized_y(pixel);
    let arg = fov_arg(nx, ny, 0);
    assert(arg >= 1_000_000_000_000_000_000_000_000) by (nonlinear_arith)
        requires
            arg == 1_000_000_000_000_000_000_000_000 + (nx * nx + ny * ny) * (1_000_000_000_000
                - 0 * 0),
    ;
    lemma_floor_sqrt_exists(arg);
    let root = floor_sqrt(arg);
    assert(root >= 1) by (nonlinear_arith)
        requires
            arg >= 1,
            arg < (root + 1) * (root + 1),
            root >= 0,
    ;
    lemma_cancel(depth * nx, MICRO as int, root);
    lemma_cancel(depth * ny, MICRO as int, root);
    assert(0 * MICRO + root == root);
    assert(MICRO * root - 0 * radius_squared(nx, ny) == MICRO * root);
    assert(MICRO * root > 0) by (nonlinear_arith)
        requires
            root >= 1,
            MICRO == 1_000_000,
    ;
}

/// A pinhole camera brings a point back to where it was, but for the
/// rounding: a point in front of a camera without distortion and with
/// focal lengths above zero, whose pixel lies within the limit, is
/// projected and brought back to its own depth no further along an axis
/// than it was, and short of it by less than its depth over the focal
/// length, plus its depth over a million, plus one millimetre.
pub proof fn lemma_pinhole_round_trip(k: Intrinsics, point: Coords)
    requires
        k.in_range(),
        k.xi_micro == 0,
        k.focal_length_x_mpx > 0,
        k.focal_length_y_mpx > 0,
        within_limit(point.x as int),
        within_limit(point.y as int),
        within_limit(point.z as int),
        point.z > 0,
        within_limit(k.optical_center_x_mpx + k.focal_length_x_mpx * point.x / (point.z as int)),
        within_limit(k.optical_center_y_mpx + k.focal_length_y_mpx * point.y / (point.z as int)),
    ensures
        ({
            let back = k.spec_unproject(k.spec_project(point), point.z)->Ok_0;
            &&& k.spec_unproject(k.spec_project(point), point.z) is Ok
            &&& back.z == point.z
            &&& back.x <= point.x
            &&& back.y <= point.y
            &&& (point.x - back.x) * k.focal_length_x_mpx * MICRO < point.z * MICRO + point.z
                * k.focal_length_x_mpx + k.focal_length_x_mpx * MICRO
            &&& (point.y - back.y) * k.focal_length_y_mpx * MICRO < point.z * MICRO + point.z
                * k.focal_length_y_mpx + k.focal_length_y_mpx * MICRO
        }),
{
    lemma_pinhole_project(k, point);
    let pixel = k.spec_project(point);
    lemma_pinhole_unproject(k, pixel, point.z);
    lemma_round_trip_axis(point.x as int, point.z as int, k.focal_length_x_mpx as int);
    lemma_round_trip_axis(point.y as int, point.z as int, k.focal_length_y_mpx as int);
}

/// One axis of the round trip through a pinhole camera.
proof fn lemma_round_trip_axis(x: int, z: int, f: int)
    requires
        z > 0,
        f > 0,
        within_limit(x),
    ensures
        ({
            let back = limited(z * normalized(f * x / z, f) / (MICRO as int));
            &&& back <= x
            &&& (x - back) * f * MICRO < z * MICRO + z * f + f * MICRO
        }),
{
    let q = f * x / z;
    let n = q * MICRO / f;
    let raw = z * n / (MICRO as int);
    lemma_floor_bounds(f * x, z);
    lemma_floor_bounds(q * MICRO, f);
    lemma_floor_bounds(z * n, MICRO as int);
    assert(raw <= x && (x - raw) * f * 1_000_000 < z * 1_000_000 + z * f + f * 1_000_000)
        by (nonlinear_arith)
        requires
            z > 0,
            f > 0,
            z * q <= f * x < z * q + z,
            f * n <= q * 1_000_000 < f * n + f,
            1_000_000 * raw <= z * n < 1_000_000 * raw + 1_000_000,
    ;
    let back = limited(raw);
    assert(back <= x && (x - back) * f * 1_000_000 <= (x - raw) * f * 1_000_000) by (nonlinear_arith)
        requires
            raw <= x,
            -10_000_000_000_000 <= x <= 10_000_000_000_000,
            back == (if raw < -10_000_000_000_000 {
                -10_000_000_000_000
            } else {
                raw
            }),
            f > 0,
    ;
}

/// Along the view the camera is exact, whatever its distortion above zero:
/// a point straight ahead is projected to the optical centre, and the
/// optical centre is brought back to the point straight ahead at the depth
/// asked for.
pub proof fn lemma_axis_round_trip(k: Intrinsics, depth: i64)
    requires
        k.in_range(),
        k.xi_micro >= 0,
        0 < depth <= COORD_LIMIT,
    ensures
        k.spec_project(Coords { x: 0, y: 0, z: depth }) == (Pixel {
            x: k.optical_center_x_mpx,
            y: k.optical_center_y_mpx,
        }),
        k.spec_unproject(
            Pixel { x: k.optical_center_x_mpx, y: k.optical_center_y_mpx },
            depth,
        ) == Ok::<Coords, CameraError>(Coords { x: 0, y: 0, z: depth }),
{
    let point = Coords { x: 0, y: 0, z: depth };
    lemma_root_of_square(depth as int);
    assert(point.x * point.x + point.y * point.y + point.z * point.z == depth * depth);
    let norm = depth * MICRO + k.xi_micro * depth;
    assert(norm > 0) by (nonlinear_arith)
        requires
            norm == depth * 1_000_000 + k.xi_micro * depth,
            depth > 0,
            k.xi_micro >= 0,
    ;
    assert(k.focal_length_x_mpx * 0 * MICRO == 0 && k.focal_length_y_mpx * 0 * MICRO == 0)
        by (nonlinear_arith);
    assert(0int / norm == 0) by (nonlinear_arith)
        requires
            norm > 0,
    ;
    let pixel = Pixel { x: k.optical_center_x_mpx, y: k.optical_center_y_mpx };
    let nx = k.normalized_x(pixel);
    let ny = k.normalized_y(pixel);
    assert(nx == 0 && ny == 0) by (nonlinear_arith)
        requires
            nx == floor_div(0int * 1_000_000, k.focal_length_x_mpx as int),
            ny == floor_div(0int * 1_000_000, k.focal_length_y_mpx as int),
            k.focal_length_x_mpx != 0,
            k.focal_length_y_mpx != 0,
            floor_div(0int * 1_000_000, k.focal_length_x_mpx as int) == (if k.focal_length_x_mpx
                > 0 {
                0int / (k.focal_length_x_mpx as int)
            } else {
                0int / (-k.focal_length_x_mpx as int)
            }),
            floor_div(0int * 1_000_000, k.focal_length_y_mpx as int) == (if k.focal_length_y_mpx
                > 0 {
                0int / (k.focal_length_y_mpx as int)
            } else {
                0int / (-k.focal_length_y_mpx as int)
            }),
    ;
    assert(radius_squared(0, 0) == 0);
    assert(fov_arg(0, 0, k.xi_micro as int) == 1_000_000_000_000_000_000_000_000) by (nonlinear_arith)
        requires
            fov_arg(0, 0, k.xi_micro as int) == 1_000_000_000_000_000_000_000_000 + 0 * (
            1_000_000_000_000 - k.xi_micro * k.xi_micro),
    ;
    lemma_root_of_square(1_000_000_000_000);
    let root = 1_000_000_000_000int;
    let rest = MICRO * root - k.xi_micro * 0;
    assert(rest > 0);
    let a = k.xi_micro * MICRO + root;
    assert(depth * 0 * a == 0) by (nonlinear_arith);
    assert(0int / rest == 0) by (nonlinear_arith)
        requires
            rest > 0,
    ;
}

/// One axis of the step to the next pixel through a pinhole camera: the
/// coordinate `x` at depth `z` is projected, the pixel one further is
/// normalised and brought back to the depth. What comes back lies one
/// pixel's ground size `z * PIXEL / f` beyond `x`, and short of that by no
/// more than the rounding.
proof fn lemma_next_pixel_axis(x: int, z: int, f: int)
    requires
        x >= 0,
        z > 0,
        f > 0,
    ensures
        ({
            let q = f * x / z;
            let n = (q + PIXEL) * MICRO / f;
            let raw = z * n / (MICRO as int);
            let ground = z * PIXEL / f;
            &&& 0 <= q
            &&& q * z <= f * x
            &&& 0 <= n
            &&& n * f <= (q + PIXEL) * MICRO
            &&& 0 <= raw
            &&& 0 <= ground
            &&& ground * f <= z * PIXEL
            &&& x + ground - (z / f + z / (MICRO as int) + 2) <= raw <= x + ground
        }),
{
    let q = f * x / z;
    let n = (q + 1000) * 1_000_000 / f;
    let raw = z * n / 1_000_000;
    let ground = z * 1000 / f;
    let a = z / f;
    let b = z / 1_000_000;
    lemma_floor_bounds(f * x, z);
    lemma_floor_bounds((q + 1000) * 1_000_000, f);
    lemma_floor_bounds(z * n, 1_000_000);
    lemma_floor_bounds(z * 1000, f);
    lemma_floor_bounds(z, f);
    lemma_floor_bounds(z, 1_000_000);
    assert(0 <= q) by (nonlinear_arith)
        requires
            z > 0,
            f > 0,
            x >= 0,
            f * x < z * q + z,
    ;
    assert(0 <= n) by (nonlinear_arith)
        requires
            f > 0,
            q >= 0,
            (q + 1000) * 1_000_000 < f * n + f,
    ;
    assert(0 <= raw) by (nonlinear_arith)
        requires
            z > 0,
            n >= 0,
            z * n < 1_000_000 * raw + 1_000_000,
    ;
    assert(0 <= ground) by (nonlinear_arith)
        requires
            z > 0,
            f > 0,
            z * 1000 < f * ground + f,
    ;
    assert(f * (raw - x) <= z * 1000) by (nonlinear_arith)
        requires
            z > 0,
            f > 0,
            z * q <= f * x,
            f * n <= (q + 1000) * 1_000_000,
            1_000_000 * raw <= z * n,
    ;
    assert(raw - x <= ground) by (nonlinear_arith)
        requires
            f > 0,
            f * (raw - x) <= z * 1000,
            z * 1000 < f * ground + f,
    ;
    assert(f * 1_000_000 * (raw - x) > 1000 * z * 1_000_000 - z * 1_000_000 - z * f - f
        * 1_000_000) by (nonlinear_arith)
        requires
            z > 0,
            f > 0,
            f * x < z * q + z,
            (q + 1000) * 1_000_000 < f * n + f,
            z * n < 1_000_000 * raw + 1_000_000,
    ;
    assert(raw - x >= ground - (a + b + 2)) by (nonlinear_arith)
        requires
            z > 0,
            f > 0,
            f * 1_000_000 * (raw - x) > 1000 * z * 1_000_000 - z * 1_000_000 - z * f - f
                * 1_000_000,
            f * ground <= z * 1000,
            z < f * a + f,
            z < 1_000_000 * b + 1_000_000,
    ;
}

/// The square root of a sum of two squares, rounded down, lies between
/// the larger side and the sum of both.
proof fn lemma_root_between(a: int, b: int)
    requires
        a >= 0,
        b >= 0,
    ensures
        a <= floor_sqrt(a * a + b * b) <= a + b,
{
    let s = a * a + b * b;
    assert(0 <= s && s <= (a + b) * (a + b) && a * a <= s) by (nonlinear_arith)
        requires
            a >= 0,
            b >= 0,
            s == a * a + b * b,
    ;
    lemma_floor_sqrt_exists(s);
    let r = floor_sqrt(s);
    lemma_floor_sqrt_bounded(s, r, a + b);
    assert(a <= r) by (nonlinear_arith)
        requires
            a >= 0,
            r >= 0,
            a * a <= s,
            s < (r + 1) * (r + 1),
    ;
}

/// Without distortion the ground resolution is the height over the focal
/// length, the mean of both axes, but for the rounding: for a camera
/// without distortion, with focal lengths of a pixel or more, above a tile
/// no further away than 999 times its height, whose pixels lie within the
/// limit, there is a resolution, and twice the resolution differs from
/// `agl * PIXEL / fx + agl * PIXEL / fy` by no more than twice the
/// quotients that were rounded: the height over each focal length, the
/// height over a million, and three.
pub proof fn lemma_pinhole_resolution(camera: Camera, min_dist_mm: u64, agl_mm: i64)
    requires
        camera.intrinsics.in_range(),
        camera.intrinsics.xi_micro == 0,
        camera.intrinsics.focal_length_x_mpx >= PIXEL,
        camera.intrinsics.focal_length_y_mpx >= PIXEL,
        agl_mm > 0,
        min_dist_mm + agl_mm <= COORD_LIMIT,
        min_dist_mm <= 999 * agl_mm,
        camera.intrinsics.optical_center_x_mpx + PIXEL <= COORD_LIMIT,
        camera.intrinsics.optical_center_y_mpx + camera.intrinsics.focal_length_y_mpx * min_dist_mm
            / (agl_mm as int) + PIXEL <= COORD_LIMIT,
    ensures
        ({
            let k = camera.intrinsics;
            let mean_twice = agl_mm * PIXEL / (k.focal_length_x_mpx as int) + agl_mm * PIXEL / (
            k.focal_length_y_mpx as int);
            let rounding = 2 * (agl_mm / k.focal_length_x_mpx + agl_mm / k.focal_length_y_mpx
                + agl_mm / MICRO + 3);
            let resolution = camera.spec_ground_resolution_mm(min_dist_mm, agl_mm);
            &&& resolution is Some
            &&& mean_twice - rounding <= 2 * resolution->Some_0 <= mean_twice + rounding
        }),
{
    let k = camera.intrinsics;
    let fx = k.focal_length_x_mpx as int;
    let fy = k.focal_length_y_mpx as int;
    let cx = k.optical_center_x_mpx as int;
    let cy = k.optical_center_y_mpx as int;
    let md = min_dist_mm as int;
    let z = agl_mm as int;
    let point = Coords { x: 0, y: min_dist_mm as i64, z: agl_mm };
    lemma_pinhole_project(k, point);
    lemma_next_pixel_axis(md, z, fy);
    lemma_next_pixel_axis(0, z, fx);
    lemma_round_trip_axis(md, z, fy);
    let q = fy * md / z;
    assert(fx * 0 == 0 && 0int / z == 0 && fx * 0 / z == 0) by (nonlinear_arith)
        requires
            z > 0,
    ;
    assert(floor_div(fy * md, z) == q);
    assert(floor_div(fx * 0, z) == 0);
    let pixel = k.spec_project(point);
    assert(pixel.x == cx);
    assert(pixel.y == cy + q);
    let along_y = Pixel { x: pixel.x, y: (pixel.y + PIXEL) as i64 };
    let along_x = Pixel { x: (pixel.x + PIXEL) as i64, y: pixel.y };
    let ny = (q + PIXEL) * MICRO / fy;
    let n0 = q * MICRO / fy;
    let n1 = (0 + PIXEL) * MICRO / fx;
    assert(0int * MICRO / fx == 0) by (nonlinear_arith)
        requires
            fx > 0,
    ;
    assert(k.normalized_x(along_y) == 0);
    assert(k.normalized_y(along_y) == ny);
    assert(k.normalized_x(along_x) == n1);
    assert(k.normalized_y(along_x) == n0);
    lemma_floor_bounds(q * MICRO, fy);
    assert(q <= 999 * fy) by (nonlinear_arith)
        requires
            q * z <= fy * md,
            md <= 999 * z,
            z > 0,
            fy > 0,
    ;
    assert(ny <= 1_000_000_000 && 0 <= n0 <= 1_000_000_000) by (nonlinear_arith)
        requires
            ny * fy <= (q + 1000) * 1_000_000,
            fy * n0 <= q * 1_000_000 < fy * n0 + fy,
            0 <= q <= 999 * fy,
            fy >= 1000,
    ;
    assert(0 + fx * 0 / z == 0);
    assert(n1 <= 1_000_000_000) by (nonlinear_arith)
        requires
            n1 * fx <= (0 + 1000) * 1_000_000,
            fx >= 1000,
    ;
    assert(k.can_unproject(along_y, agl_mm));
    assert(k.can_unproject(along_x, agl_mm));
    lemma_pinhole_unproject(k, along_y, agl_mm);
    lemma_pinhole_unproject(k, along_x, agl_mm);
    let far_y = k.spec_unproject(along_y, agl_mm)->Ok_0;
    let far_x = k.spec_unproject(along_x, agl_mm)->Ok_0;
    let ground_x = z * PIXEL / fx;
    let ground_y = z * PIXEL / fy;
    let slack_x = z / fx + z / (MICRO as int) + 2;
    let slack_y = z / fy + z / (MICRO as int) + 2;
    assert(ground_x <= z && ground_y <= z) by (nonlinear_arith)
        requires
            ground_x * fx <= z * 1000,
            ground_y * fy <= z * 1000,
            fx >= 1000,
            fy >= 1000,
            z > 0,
    ;
    let raw_y = z * ny / (MICRO as int);
    let raw_x = z * n1 / (MICRO as int);
    let back_y = z * n0 / (MICRO as int);
    assert(z * 0 / (MICRO as int) == 0) by (nonlinear_arith);
    assert(0 <= back_y) by (nonlinear_arith)
        requires
            z > 0,
            n0 >= 0,
            back_y == z * n0 / 1_000_000,
    ;
    assert(limited(back_y) == back_y);
    assert(far_y.x == 0 && far_y.y == raw_y && far_y.z == agl_mm);
    assert(far_x.x == raw_x && far_x.y == back_y && far_x.z == agl_mm);
    lemma_floor_bounds(z, fy);
    lemma_floor_bounds(z, 1_000_000);
    assert(md - back_y <= slack_y) by (nonlinear_arith)
        requires
            (md - back_y) * fy * 1_000_000 < z * 1_000_000 + z * fy + fy * 1_000_000,
            z < fy * (z / fy) + fy,
            z < 1_000_000 * (z / 1_000_000) + 1_000_000,
            slack_y == z / fy + z / 1_000_000 + 2,
            fy > 0,
    ;
    // Along `y` both points differ in `y` alone.
    let gap = if raw_y >= md {
        raw_y - md
    } else {
        md - raw_y
    };
    assert((point.x - far_y.x) * (point.x - far_y.x) + (point.y - far_y.y) * (point.y - far_y.y)
        + (point.z - far_y.z) * (point.z - far_y.z) == gap * gap) by (nonlinear_arith)
        requires
            point.x - far_y.x == 0,
            point.z - far_y.z == 0,
            point.y - far_y.y == gap || point.y - far_y.y == -gap,
    ;
    lemma_root_of_square(gap);
    let dist_y = spec_distance(point, far_y);
    assert(dist_y == gap);
    // Along `x` the rounding of `y` comes on top.
    let side = md - back_y;
    assert((point.x - far_x.x) * (point.x - far_x.x) + (point.y - far_x.y) * (point.y - far_x.y)
        + (point.z - far_x.z) * (point.z - far_x.z) == raw_x * raw_x + side * side)
        by (nonlinear_arith)
        requires
            point.x - far_x.x == -raw_x,
            point.z - far_x.z == 0,
            point.y - far_x.y == side,
    ;
    lemma_root_between(raw_x, side);
    let dist_x = spec_distance(point, far_x);
    assert(ground_y - slack_y <= dist_y <= ground_y + slack_y);
    assert(ground_x - slack_x <= dist_x <= ground_x + slack_y);
}

} // verus!
