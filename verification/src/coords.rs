//! World points and the integer addressing of the one-kilometre ground cells.
//!
//! All geometry is exact: world points are whole millimetres, cells are
//! addressed by signed integers, and distances are integer square roots.

use vstd::prelude::*;

verus! {

/// Side length of one ground cell, in millimetres.
pub const CELL_SIZE_MM: i64 = 1_000_000;

/// Side length of one ground cell, in metres.
pub const CELL_SIZE_M: i32 = 1000;

/// A world point in whole millimetres. `z` is a height; whether above ground
/// or above sea level depends on the place where the point is used.
#[derive(Debug, Copy, Clone, PartialEq, Eq, Structural)]
pub struct Coords {
    pub x: i64,
    pub y: i64,
    pub z: i64,
}

/// A direction in space. Only the direction matters, not the length, so the
/// components are integers at whatever scale the caller chose.
#[derive(Debug, Copy, Clone, PartialEq, Eq, Structural)]
pub struct Direction {
    pub x: i64,
    pub y: i64,
    pub z: i64,
}

/// The direction in which a camera looks that was given no direction:
/// straight down.
pub open spec fn nadir_forward() -> Direction {
    Direction { x: 0, y: 0, z: -1i64 }
}

/// The direction in which the top of a camera points that was given no
/// direction: towards smaller `y`.
pub open spec fn nadir_up() -> Direction {
    Direction { x: 0, y: -1i64, z: 0 }
}

impl Direction {
    /// Straight down.
    pub fn nadir_forward() -> (d: Direction)
        ensures
            d == self::nadir_forward(),
    {
        Direction { x: 0, y: 0, z: -1 }
    }

    /// Towards smaller `y`.
    pub fn nadir_up() -> (d: Direction)
        ensures
            d == self::nadir_up(),
    {
        Direction { x: 0, y: -1, z: 0 }
    }
}

/// Address of one ground cell: the cell covers the world points whose `x` and
/// `y`, divided by the cell size and rounded down, give these two numbers.
#[derive(Debug, Copy, Clone, Hash, PartialEq, Eq, Structural)]
pub struct GridCoords {
    pub x: i32,
    pub y: i32,
}

/// The nearest value to `v` that a cell coordinate can hold.
pub open spec fn clamp_to_cell_range(v: int) -> int {
    if v < i32::MIN {
        i32::MIN as int
    } else if v > i32::MAX {
        i32::MAX as int
    } else {
        v
    }
}

/// Number of whole cells between two cell coordinates that do not touch:
/// zero for equal or adjacent coordinates, else the difference less one.
pub open spec fn cell_gap(a: int, b: int) -> int {
    let d = if a >= b {
        a - b
    } else {
        b - a
    };
    if d >= 1 {
        d - 1
    } else {
        0
    }
}

/// `r` is the square root of `n`, rounded down.
pub open spec fn is_floor_sqrt(n: int, r: int) -> bool {
    0 <= r && r * r <= n && n < (r + 1) * (r + 1)
}

/// The square root of `n`, rounded down (for `n >= 0`).
pub closed spec fn floor_sqrt(n: int) -> int {
    choose|r: int| is_floor_sqrt(n, r)
}

/// The cell radius that covers a radius in metres: the whole cells in it,
/// and one more so that no cell within the true radius is missed.
pub open spec fn radius_cells(radius_m: int) -> int {
    radius_m / (CELL_SIZE_M as int) + 1
}

proof fn lemma_square_monotone(a: int, b: int)
    by (nonlinear_arith)
    requires
        0 <= a <= b,
    ensures
        a * a <= b * b,
{
}

proof fn lemma_square_strictly_monotone(a: int, b: int)
    by (nonlinear_arith)
    requires
        0 <= a < b,
    ensures
        a * a < b * b,
{
}

/// At most one number is the rounded-down square root of `n`.
pub proof fn lemma_floor_sqrt_unique(n: int, r1: int, r2: int)
    requires
        is_floor_sqrt(n, r1),
        is_floor_sqrt(n, r2),
    ensures
        r1 == r2,
{
    if r1 < r2 {
        lemma_square_monotone(r1 + 1, r2);
    } else if r2 < r1 {
        lemma_square_monotone(r2 + 1, r1);
    }
}

/// Whoever holds a rounded-down square root of `n` holds `floor_sqrt(n)`.
pub proof fn lemma_floor_sqrt_is(n: int, r: int)
    requires
        is_floor_sqrt(n, r),
    ensures
        floor_sqrt(n) == r,
{
    lemma_floor_sqrt_unique(n, floor_sqrt(n), r);
}

/// The rounded-down square root never exceeds a bound whose square is not
/// below the number.
pub proof fn lemma_floor_sqrt_bounded(n: int, r: int, bound: int)
    requires
        is_floor_sqrt(n, r),
        0 <= bound,
        n <= bound * bound,
    ensures
        r <= bound,
{
    if r > bound {
        lemma_square_strictly_monotone(bound, r);
    }
}

/// Integer square root of a number below 2^126, rounded down.
pub fn floor_sqrt_u128(n: u128) -> (r: u64)
    requires
        n < 0x4000_0000_0000_0000_0000_0000_0000_0000u128,
    ensures
        is_floor_sqrt(n as int, r as int),
        r == floor_sqrt(n as int),
{
    let mut lo: u128 = 0;
    let mut hi: u128 = 0x8000_0000_0000_0000u128;
    assert(0x8000_0000_0000_0000int * 0x8000_0000_0000_0000int
        == 0x4000_0000_0000_0000_0000_0000_0000_0000int) by (nonlinear_arith);
    while hi - lo > 1
        invariant
            lo < hi <= 0x8000_0000_0000_0000u128,
            lo * lo <= n,
            n < hi * hi,
        decreases hi - lo,
    {
        let mid: u128 = lo + (hi - lo) / 2;
        assert(mid * mid < 0x4000_0000_0000_0000_0000_0000_0000_0000int) by (nonlinear_arith)
            requires
                0 <= mid < 0x8000_0000_0000_0000int,
        ;
        let sq: u128 = mid * mid;
        if sq <= n {
            lo = mid;
        } else {
            hi = mid;
        }
    }
    proof {
        lemma_floor_sqrt_is(n as int, lo as int);
    }
    lo as u64
}

impl GridCoords {
    /// The cell at the address `(x, y)`.
    pub fn new(x: i32, y: i32) -> (c: GridCoords)
        ensures
            c.x == x,
            c.y == y,
    {
        GridCoords { x, y }
    }

    /// The cell that holds a world point. Points beyond the cells that an
    /// address can name fall into the outermost cell on that side.
    pub open spec fn spec_from_world(point: Coords) -> GridCoords {
        GridCoords {
            x: clamp_to_cell_range(point.x as int / (CELL_SIZE_MM as int)) as i32,
            y: clamp_to_cell_range(point.y as int / (CELL_SIZE_MM as int)) as i32,
        }
    }

    /// The world point of the cell's corner with the smallest `x` and `y`,
    /// at height zero.
    pub open spec fn spec_to_world_origin(self) -> Coords {
        Coords {
            x: (self.x as int * (CELL_SIZE_MM as int)) as i64,
            y: (self.y as int * (CELL_SIZE_MM as int)) as i64,
            z: 0,
        }
    }

    /// `other` lies in the disk of `radius` cells around `self`: the squared
    /// offsets add up to no more than the squared radius. A negative radius
    /// holds no cell.
    pub open spec fn within_cells(self, other: GridCoords, radius: int) -> bool {
        let dx = other.x - self.x;
        let dy = other.y - self.y;
        radius >= 0 && dx * dx + dy * dy <= radius * radius
    }

    /// `self` comes before `other` when cells are ordered by `x`, then by `y`.
    pub open spec fn precedes(self, other: GridCoords) -> bool {
        self.x < other.x || (self.x == other.x && self.y < other.y)
    }

    /// Squared distance in square metres between the nearest corners of two
    /// cells, zero where the cells are equal or touch.
    pub open spec fn spec_min_dist_sq_m(self, other: GridCoords) -> int {
        let gx = cell_gap(self.x as int, other.x as int);
        let gy = cell_gap(self.y as int, other.y as int);
        (gx * gx + gy * gy) * 1_000_000
    }

    /// Distance in metres between the nearest corners of two cells, rounded
    /// down to a whole metre.
    pub open spec fn spec_min_dist_m(self, other: GridCoords) -> int {
        floor_sqrt(self.spec_min_dist_sq_m(other))
    }

    /// Distance in millimetres between the nearest corners of two cells,
    /// rounded down to a whole millimetre.
    pub open spec fn spec_min_dist_mm(self, other: GridCoords) -> int {
        floor_sqrt(self.spec_min_dist_sq_m(other) * 1_000_000)
    }

    /// The cell that holds a world point.
    pub fn from_world(point: Coords) -> (c: GridCoords)
        ensures
            c == Self::spec_from_world(point),
    {
        GridCoords { x: cell_index(point.x), y: cell_index(point.y) }
    }

    /// The world point of the cell's corner with the smallest `x` and `y`.
    pub fn to_world_origin(&self) -> (p: Coords)
        ensures
            p == self.spec_to_world_origin(),
            p.x == self.x * 1_000_000,
            p.y == self.y * 1_000_000,
            p.z == 0,
    {
        let x: i64 = self.x as i64;
        let y: i64 = self.y as i64;
        Coords { x: x * CELL_SIZE_MM, y: y * CELL_SIZE_MM, z: 0 }
    }

    /// The cells within `radius` metres, counted generously: the radius is
    /// turned into whole cells by `radius_cells` and handed to `circle`.
    pub fn circle_m(&self, radius_m: i32) -> (cells: Vec<GridCoords>)
        ensures
            forall|p: GridCoords|
                cells@.contains(p) <==> self.within_cells(p, radius_cells(radius_m as int)),
            forall|i: int, j: int|
                0 <= i < j < cells.len() ==> (#[trigger] cells[i]).precedes(#[trigger] cells[j]),
            radius_m >= -1000 ==> cells@.contains(*self),
    {
        let whole: i32 = match radius_m.checked_div_euclid(CELL_SIZE_M) {
            Some(q) => q,
            None => 0,
        };
        let cells = self.circle(whole + 1);
        proof {
            if radius_m >= -1000 {
                assert(self.within_cells(*self, radius_cells(radius_m as int)));
            }
        }
        cells
    }

    /// The cells of the discrete disk of `radius` cells around `self`, ordered
    /// by `x` and then by `y`. Only cells that an address can name are listed.
    pub fn circle(&self, radius: i32) -> (cells: Vec<GridCoords>)
        ensures
            forall|p: GridCoords| cells@.contains(p) <==> self.within_cells(p, radius as int),
            forall|i: int, j: int|
                0 <= i < j < cells.len() ==> (#[trigger] cells[i]).precedes(#[trigger] cells[j]),
    {
        let mut cells: Vec<GridCoords> = Vec::new();
        if radius < 0 {
            return cells;
        }
        let cx: i64 = self.x as i64;
        let cy: i64 = self.y as i64;
        let r: i64 = radius as i64;
        let lo_x: i64 = if cx - r < i32::MIN as i64 { i32::MIN as i64 } else { cx - r };
        let hi_x: i64 = if cx + r > i32::MAX as i64 { i32::MAX as i64 } else { cx + r };
        let lo_y: i64 = if cy - r < i32::MIN as i64 { i32::MIN as i64 } else { cy - r };
        let hi_y: i64 = if cy + r > i32::MAX as i64 { i32::MAX as i64 } else { cy + r };
        assert(r * r < 0x4000_0000_0000_0000) by (nonlinear_arith)
            requires
                0 <= r < 0x8000_0000,
        ;
        let rr: i64 = r * r;
        let mut x: i64 = lo_x;
        proof {
            assert forall|p: GridCoords| self.within_cells(p, radius as int) implies p.x
                >= lo_x by {
                lemma_offset_within_radius(p.y - self.y, p.x - self.x, radius as int);
            }
        }
        while x <= hi_x
            invariant
                0 <= r == radius,
                cx == self.x,
                cy == self.y,
                rr == r * r,
                rr < 0x4000_0000_0000_0000,
                lo_x == (if cx - r < i32::MIN { i32::MIN as int } else { cx - r }),
                hi_x == (if cx + r > i32::MAX { i32::MAX as int } else { cx + r }),
                lo_y == (if cy - r < i32::MIN { i32::MIN as int } else { cy - r }),
                hi_y == (if cy + r > i32::MAX { i32::MAX as int } else { cy + r }),
                lo_x <= x <= hi_x + 1,
                forall|p: GridCoords|
                    cells@.contains(p) <==> (self.within_cells(p, radius as int) && p.x < x),
                forall|i: int, j: int|
                    0 <= i < j < cells.len() ==> (#[trigger] cells[i]).precedes(
                        #[trigger] cells[j],
                    ),
            decreases hi_x + 1 - x,
        {
            let dx: i64 = x - cx;
            assert(0 <= dx * dx <= r * r) by (nonlinear_arith)
                requires
                    -r <= dx <= r,
            ;
            let dxx: i64 = dx * dx;
            let mut y: i64 = lo_y;
            proof {
                assert forall|p: GridCoords| self.within_cells(p, radius as int) implies p.y
                    >= lo_y by {
                    lemma_offset_within_radius(p.x - self.x, p.y - self.y, radius as int);
                }
            }
            while y <= hi_y
                invariant
                    0 <= r == radius,
                    cx == self.x,
                    cy == self.y,
                    rr == r * r,
                    rr < 0x4000_0000_0000_0000,
                    dx == x - cx,
                    dxx == dx * dx,
                    0 <= dxx <= rr,
                    lo_y == (if cy - r < i32::MIN { i32::MIN as int } else { cy - r }),
                    hi_y == (if cy + r > i32::MAX { i32::MAX as int } else { cy + r }),
                    i32::MIN <= x <= i32::MAX,
                    lo_y <= y <= hi_y + 1,
                    forall|p: GridCoords|
                        cells@.contains(p) <==> (self.within_cells(p, radius as int) && (p.x < x
                            || (p.x == x && p.y < y))),
                    forall|i: int, j: int|
                        0 <= i < j < cells.len() ==> (#[trigger] cells[i]).precedes(
                            #[trigger] cells[j],
                        ),
                decreases hi_y + 1 - y,
            {
                let dy: i64 = y - cy;
                assert(0 <= dy * dy <= r * r) by (nonlinear_arith)
                    requires
                        -r <= dy <= r,
                ;
                let dyy: i64 = dy * dy;
                let here = GridCoords { x: x as i32, y: y as i32 };
                let ghost before = cells@;
                if dxx + dyy <= rr {
                    cells.push(here);
                    proof {
                        assert(cells@[before.len() as int] == here);
                        assert forall|p: GridCoords|
                            cells@.contains(p) <==> (self.within_cells(p, radius as int) && (p.x
                                < x || (p.x == x && p.y < y + 1))) by {
                            if before.contains(p) {
                                let k = choose|k: int| 0 <= k < before.len() && before[k] == p;
                                assert(cells@[k] == p);
                            }
                            if cells@.contains(p) {
                                let k = choose|k: int| 0 <= k < cells@.len() && cells@[k] == p;
                                if k < before.len() {
                                    assert(before[k] == p);
                                }
                            }
                        }
                        assert forall|i: int, j: int| 0 <= i < j < cells.len() implies (
                        #[trigger] cells[i]).precedes(#[trigger] cells[j]) by {
                            if j == before.len() {
                                assert(before.contains(before[i]));
                            } else {
                                assert(before[i].precedes(before[j]));
                            }
                        }
                    }
                }
                y = y + 1;
            }
            proof {
                assert forall|p: GridCoords|
                    cells@.contains(p) <==> (self.within_cells(p, radius as int) && p.x < x
                        + 1) by {
                    if self.within_cells(p, radius as int) && p.x == x {
                        lemma_offset_within_radius(p.x - self.x, p.y - self.y, radius as int);
                    }
                }
            }
            x = x + 1;
        }
        proof {
            assert forall|p: GridCoords|
                cells@.contains(p) <==> self.within_cells(p, radius as int) by {
                if self.within_cells(p, radius as int) {
                    lemma_offset_within_radius(p.y - self.y, p.x - self.x, radius as int);
                }
            }
        }
        cells
    }

    /// The neighbour with the next larger `y`.
    pub fn below(&self) -> (c: GridCoords)
        requires
            self.y < i32::MAX,
        ensures
            c.x == self.x,
            c.y == self.y + 1,
    {
        GridCoords { x: self.x, y: self.y + 1 }
    }

    /// The neighbour with the next larger `x`.
    pub fn right(&self) -> (c: GridCoords)
        requires
            self.x < i32::MAX,
        ensures
            c.x == self.x + 1,
            c.y == self.y,
    {
        GridCoords { x: self.x + 1, y: self.y }
    }

    /// The neighbour with the next smaller `y`.
    pub fn above(&self) -> (c: GridCoords)
        requires
            self.y > i32::MIN,
        ensures
            c.x == self.x,
            c.y == self.y - 1,
    {
        GridCoords { x: self.x, y: self.y - 1 }
    }

    /// The neighbour with the next smaller `x`.
    pub fn left(&self) -> (c: GridCoords)
        requires
            self.x > i32::MIN,
        ensures
            c.x == self.x - 1,
            c.y == self.y,
    {
        GridCoords { x: self.x - 1, y: self.y }
    }

    /// Distance in whole metres between the closest two corners of the two
    /// cells, rounded down; zero for a cell and its eight neighbours.
    pub fn min_dist_m(&self, other: &GridCoords) -> (d: u64)
        ensures
            d == self.spec_min_dist_m(*other),
            is_floor_sqrt(self.spec_min_dist_sq_m(*other), d as int),
    {
        let gx: u128 = gap(self.x, other.x) as u128;
        let gy: u128 = gap(self.y, other.y) as u128;
        assert(gx * gx <= 0xffff_ffff * 0xffff_ffff) by (nonlinear_arith)
            requires
                0 <= gx <= 0xffff_ffff,
        ;
        assert(gy * gy <= 0xffff_ffff * 0xffff_ffff) by (nonlinear_arith)
            requires
                0 <= gy <= 0xffff_ffff,
        ;
        let sum: u128 = gx * gx + gy * gy;
        let scaled: u128 = sum * 1_000_000;
        floor_sqrt_u128(scaled)
    }
}

impl GridCoords {
    /// Distance in whole millimetres between the closest two corners of the
    /// two cells, rounded down; zero for a cell and its eight neighbours.
    pub fn min_dist_mm(&self, other: &GridCoords) -> (d: u64)
        ensures
            d == self.spec_min_dist_mm(*other),
            is_floor_sqrt(self.spec_min_dist_sq_m(*other) * 1_000_000, d as int),
    {
        let gx: u128 = gap(self.x, other.x) as u128;
        let gy: u128 = gap(self.y, other.y) as u128;
        assert(gx * gx <= 0xffff_ffff * 0xffff_ffff) by (nonlinear_arith)
            requires
                0 <= gx <= 0xffff_ffff,
        ;
        assert(gy * gy <= 0xffff_ffff * 0xffff_ffff) by (nonlinear_arith)
            requires
                0 <= gy <= 0xffff_ffff,
        ;
        let sum: u128 = gx * gx + gy * gy;
        let scaled: u128 = sum * 1_000_000 * 1_000_000;
        floor_sqrt_u128(scaled)
    }
}

/// A cell within `radius` cells of another has its nearest corner within
/// `radius` kilometres of the other's.
pub proof fn lemma_min_dist_within_cells(c: GridCoords, d: GridCoords, radius: int)
    requires
        c.within_cells(d, radius),
    ensures
        0 <= d.spec_min_dist_mm(c) <= radius * 1_000_000,
{
    let dx = d.x - c.x;
    let dy = d.y - c.y;
    let gx = cell_gap(d.x as int, c.x as int);
    let gy = cell_gap(d.y as int, c.y as int);
    assert(0 <= gx * gx <= dx * dx && 0 <= gy * gy <= dy * dy) by (nonlinear_arith)
        requires
            0 <= gx,
            0 <= gy,
            gx <= dx || gx <= -dx,
            gy <= dy || gy <= -dy,
    ;
    let n = d.spec_min_dist_sq_m(c) * 1_000_000;
    let bound = radius * 1_000_000;
    assert(0 <= n <= bound * bound) by (nonlinear_arith)
        requires
            n == (gx * gx + gy * gy) * 1_000_000 * 1_000_000,
            bound == radius * 1_000_000,
            0 <= gx * gx + gy * gy <= radius * radius,
            radius >= 0,
    ;
    lemma_floor_sqrt_exists(n);
    lemma_floor_sqrt_bounded(n, floor_sqrt(n), bound);
}

/// The cell coordinate of a world coordinate in millimetres.
fn cell_index(v: i64) -> (c: i32)
    ensures
        c == clamp_to_cell_range(v as int / (CELL_SIZE_MM as int)),
{
    let q: i64 = match v.checked_div_euclid(CELL_SIZE_MM) {
        Some(q) => q,
        None => 0,
    };
    if q < i32::MIN as i64 {
        i32::MIN
    } else if q > i32::MAX as i64 {
        i32::MAX
    } else {
        q as i32
    }
}

/// Whole cells between two cell coordinates that do not touch.
fn gap(a: i32, b: i32) -> (g: u64)
    ensures
        g == cell_gap(a as int, b as int),
        g <= 0xffff_ffff,
{
    let d: i64 = if a >= b {
        a as i64 - b as i64
    } else {
        b as i64 - a as i64
    };
    if d >= 1 {
        (d - 1) as u64
    } else {
        0
    }
}

/// An offset whose squared length is within the squared radius has each
/// component within the radius.
proof fn lemma_offset_within_radius(a: int, b: int, r: int)
    by (nonlinear_arith)
    requires
        0 <= r,
        a * a + b * b <= r * r,
    ensures
        -r <= b <= r,
{
}

/// Moving each component of an offset one step towards zero takes one off
/// its length: an offset within `k + 1` cells leaves a gap within `k`.
proof fn lemma_gap_within(a: int, b: int, k: int)
    by (nonlinear_arith)
    requires
        0 <= k,
        0 <= a,
        0 <= b,
        a * a + b * b <= (k + 1) * (k + 1),
    ensures
        (if a >= 1 { a - 1 } else { 0 }) * (if a >= 1 { a - 1 } else { 0 })
            + (if b >= 1 { b - 1 } else { 0 }) * (if b >= 1 { b - 1 } else { 0 }) <= k * k,
{
}

/// Going to the world origin of a cell and back gives the cell again.
pub proof fn lemma_origin_round_trip(c: GridCoords)
    ensures
        GridCoords::spec_from_world(c.spec_to_world_origin()) == c,
{
}

/// The generous circle in metres holds its own centre.
pub proof fn lemma_circle_m_holds_center(c: GridCoords, radius_m: int)
    requires
        radius_m >= -1000,
    ensures
        c.within_cells(c, radius_cells(radius_m)),
{
}

/// Every cell of the generous circle of `radius_m` metres around `c` has its
/// nearest corner within `radius_m` metres of the nearest corner of `c`.
pub proof fn lemma_circle_m_within_radius(c: GridCoords, d: GridCoords, radius_m: int)
    requires
        radius_m >= 0,
        c.within_cells(d, radius_cells(radius_m)),
    ensures
        d.spec_min_dist_sq_m(c) <= radius_m * radius_m,
        d.spec_min_dist_m(c) <= radius_m,
{
    let k = radius_m / 1000;
    let a = if d.x >= c.x { d.x - c.x } else { c.x - d.x };
    let b = if d.y >= c.y { d.y - c.y } else { c.y - d.y };
    let gx = cell_gap(d.x as int, c.x as int);
    let gy = cell_gap(d.y as int, c.y as int);
    assert(a * a == (d.x - c.x) * (d.x - c.x)) by (nonlinear_arith)
        requires
            a == d.x - c.x || a == -(d.x - c.x),
    ;
    assert(b * b == (d.y - c.y) * (d.y - c.y)) by (nonlinear_arith)
        requires
            b == d.y - c.y || b == -(d.y - c.y),
    ;
    lemma_gap_within(a, b, k);
    assert(gx * gx + gy * gy <= k * k);
    assert((gx * gx + gy * gy) * 1_000_000 <= radius_m * radius_m) by (nonlinear_arith)
        requires
            gx * gx + gy * gy <= k * k,
            0 <= 1000 * k <= radius_m,
    ;
    let n = d.spec_min_dist_sq_m(c);
    assert(n >= 0) by (nonlinear_arith)
        requires
            n == (gx * gx + gy * gy) * 1_000_000,
    ;
    lemma_floor_sqrt_exists(n);
    lemma_floor_sqrt_bounded(n, floor_sqrt(n), radius_m);
}

/// Every number from zero up has a rounded-down square root.
pub proof fn lemma_floor_sqrt_exists(n: int)
    requires
        n >= 0,
    ensures
        is_floor_sqrt(n, floor_sqrt(n)),
    decreases n,
{
    if n == 0 {
        assert(is_floor_sqrt(0, 0));
    } else {
        lemma_floor_sqrt_exists(n - 1);
        let r = floor_sqrt(n - 1);
        if n < (r + 1) * (r + 1) {
            assert(is_floor_sqrt(n, r));
        } else {
            assert((r + 2) * (r + 2) > (r + 1) * (r + 1)) by (nonlinear_arith)
                requires
                    r >= 0,
            ;
            assert(is_floor_sqrt(n, r + 1));
        }
    }
}

} // verus!
