//! The cameras of a dataset: a grid of straight-down views over each cell
//! of a range of cells, at five heights above ground.

use crate::coords::{Coords, GridCoords};
use crate::renderer::{RenderRequest, RequestPose};
use vstd::prelude::*;

verus! {

/// How many heights above ground a cell is viewed from.
pub const SAMPLE_HEIGHT_COUNT: usize = 5;

/// The heights above ground, in metres, that a cell is viewed from, from the
/// lowest up.
pub open spec fn sample_height_m(level: int) -> int {
    if level == 0 {
        300
    } else if level == 1 {
        550
    } else if level == 2 {
        800
    } else if level == 3 {
        1200
    } else {
        2000
    }
}

/// Views along one side of the cell at a height of `height_m` metres: the
/// lower the camera, the less it sees, and the more views it takes.
pub open spec fn views_per_side(height_m: int) -> int {
    1500int / height_m + 1
}

/// The place in millimetres, from the cell's edge, of view `step` of
/// `per_side` views that are spread evenly over the side: the middle of
/// the `step`-th of `per_side` equal parts, rounded down.
pub open spec fn view_offset_mm(step: int, per_side: int) -> int {
    (2 * step + 1) * 500_000 / per_side
}

/// The cameras over the cell `chunk` at height number `level`: one for
/// each pair of places along `x` and `y`, those of one `x` together.
pub open spec fn positions_at(chunk: GridCoords, level: int) -> Seq<Coords> {
    let height = sample_height_m(level);
    let per_side = views_per_side(height);
    Seq::new(
        (per_side * per_side) as nat,
        |k: int|
            Coords {
                x: (chunk.x * 1_000_000 + view_offset_mm(k / per_side, per_side)) as i64,
                y: (chunk.y * 1_000_000 + view_offset_mm(k % per_side, per_side)) as i64,
                z: (height * 1000) as i64,
            },
    )
}

/// The cameras over the cell `chunk` at the first `levels` heights.
pub open spec fn positions_up_to(chunk: GridCoords, levels: int) -> Seq<Coords>
    decreases levels,
{
    if levels <= 0 {
        Seq::empty()
    } else {
        positions_up_to(chunk, levels - 1) + positions_at(chunk, levels - 1)
    }
}

/// The requests for the cameras at `positions`: each camera looks straight
/// down from its height above ground, and the requests are numbered from
/// zero in the order of the cameras. The numbers have 32 bits and start
/// again at zero where they run out.
pub open spec fn requests_for(positions: Seq<Coords>) -> Seq<RenderRequest> {
    Seq::new(
        positions.len(),
        |k: int|
            RenderRequest {
                camera_pose: RequestPose::PositionAgl { camera_pos_agl: positions[k] },
                request_id: (k % 0x1_0000_0000) as u32,
            },
    )
}

/// A range of cells, given by its first and last cell along each axis.
#[derive(Debug, Copy, Clone, PartialEq, Eq, Structural)]
pub struct ChunkRange {
    pub min_easting: i32,
    pub max_easting: i32,
    pub min_northing: i32,
    pub max_northing: i32,
}

/// The smaller of two numbers.
pub open spec fn lesser(a: int, b: int) -> int {
    if a <= b {
        a
    } else {
        b
    }
}

/// The larger of two numbers.
pub open spec fn greater(a: int, b: int) -> int {
    if a >= b {
        a
    } else {
        b
    }
}

impl ChunkRange {
    /// The range with its ends in order along each axis.
    pub open spec fn spec_ordered(self) -> ChunkRange {
        ChunkRange {
            min_easting: lesser(self.min_easting as int, self.max_easting as int) as i32,
            max_easting: greater(self.min_easting as int, self.max_easting as int) as i32,
            min_northing: lesser(self.min_northing as int, self.max_northing as int) as i32,
            max_northing: greater(self.min_northing as int, self.max_northing as int) as i32,
        }
    }

    /// The cell `cell` lies in the range.
    pub open spec fn holds(self, cell: GridCoords) -> bool {
        self.min_easting <= cell.x <= self.max_easting && self.min_northing <= cell.y
            <= self.max_northing
    }

    /// Puts the ends of the range in order: where a first cell lies behind
    /// the last, the two change places.
    pub fn validate(&mut self)
        ensures
            *final(self) == old(self).spec_ordered(),
            final(self).min_easting <= final(self).max_easting,
            final(self).min_northing <= final(self).max_northing,
    {
        if self.min_easting > self.max_easting {
            let first = self.max_easting;
            self.max_easting = self.min_easting;
            self.min_easting = first;
        }
        if self.min_northing > self.max_northing {
            let first = self.max_northing;
            self.max_northing = self.min_northing;
            self.min_northing = first;
        }
    }

    /// The cells of the range, ordered by `x` and then by `y`. A range
    /// whose ends are out of order along an axis holds no cell.
    pub fn chunks(&self) -> (cells: Vec<GridCoords>)
        ensures
            forall|c: GridCoords| cells@.contains(c) <==> self.holds(c),
            forall|i: int, j: int|
                0 <= i < j < cells.len() ==> (#[trigger] cells[i]).precedes(#[trigger] cells[j]),
    {
        let mut cells: Vec<GridCoords> = Vec::new();
        let mut x: i64 = self.min_easting as i64;
        while x <= self.max_easting as i64
            invariant
                self.min_easting <= x <= greater(self.min_easting as int, self.max_easting + 1),
                forall|c: GridCoords| cells@.contains(c) <==> (self.holds(c) && c.x < x),
                forall|i: int, j: int|
                    0 <= i < j < cells.len() ==> (#[trigger] cells[i]).precedes(
                        #[trigger] cells[j],
                    ),
            decreases self.max_easting + 1 - x,
        {
            let mut y: i64 = self.min_northing as i64;
            while y <= self.max_northing as i64
                invariant
                    self.min_easting <= x <= self.max_easting,
                    self.min_northing <= y <= greater(
                        self.min_northing as int,
                        self.max_northing + 1,
                    ),
                    forall|c: GridCoords|
                        cells@.contains(c) <==> (self.holds(c) && (c.x < x || (c.x == x && c.y
                            < y))),
                    forall|i: int, j: int|
                        0 <= i < j < cells.len() ==> (#[trigger] cells[i]).precedes(
                            #[trigger] cells[j],
                        ),
                decreases self.max_northing + 1 - y,
            {
                let here = GridCoords { x: x as i32, y: y as i32 };
                let ghost before = cells@;
                cells.push(here);
                proof {
                    assert(cells@[before.len() as int] == here);
                    assert forall|c: GridCoords|
                        cells@.contains(c) <==> (self.holds(c) && (c.x < x || (c.x == x && c.y < y
                            + 1))) by {
                        if before.contains(c) {
                            let k = choose|k: int| 0 <= k < before.len() && before[k] == c;
                            assert(cells@[k] == c);
                        }
                        if cells@.contains(c) {
                            let k = choose|k: int| 0 <= k < cells@.len() && cells@[k] == c;
                            if k < before.len() {
                                assert(before[k] == c);
                            }
                        }
                    }
                    assert forall|i: int, j: int| 0 <= i < j < cells.len() implies (
                    #[trigger] cells[i]).precedes(#[trigger] cells[j]) by {
                        if j == before.len() {
                            let c = before[i];
                            assert(before.contains(c));
                            assert(self.holds(c) && (c.x < x || (c.x == x && c.y < y)));
                            assert(cells[i] == c && cells[j] == here);
                        } else {
                            assert(cells[i] == before[i] && cells[j] == before[j]);
                            assert(before[i].precedes(before[j]));
                        }
                    }
                }
                y = y + 1;
            }
            x = x + 1;
        }
        cells
    }
}

/// The height above ground, in metres, of height number `level`.
pub fn sample_height(level: usize) -> (height_m: i64)
    requires
        level < SAMPLE_HEIGHT_COUNT,
    ensures
        height_m == sample_height_m(level as int),
{
    if level == 0 {
        300
    } else if level == 1 {
        550
    } else if level == 2 {
        800
    } else if level == 3 {
        1200
    } else {
        2000
    }
}

/// The cameras from which the cell `chunk` is viewed: at each of the five
/// heights above ground a square grid of cameras, evenly spread over the
/// cell, the lowest height first.
pub fn camera_positions(chunk: GridCoords) -> (positions: Vec<Coords>)
    ensures
        positions@ == positions_up_to(chunk, SAMPLE_HEIGHT_COUNT as int),
{
    let origin = chunk.to_world_origin();
    let mut positions: Vec<Coords> = Vec::new();
    let mut level: usize = 0;
    while level < SAMPLE_HEIGHT_COUNT
        invariant
            0 <= level <= SAMPLE_HEIGHT_COUNT,
            origin.x == chunk.x * 1_000_000,
            origin.y == chunk.y * 1_000_000,
            positions@ == positions_up_to(chunk, level as int),
        decreases SAMPLE_HEIGHT_COUNT - level,
    {
        let height_m = sample_height(level);
        let per_side: i64 = 1500 / height_m + 1;
        let ghost before = positions@;
        let mut x_step: i64 = 0;
        while x_step < per_side
            invariant
                0 <= level < SAMPLE_HEIGHT_COUNT,
                height_m == sample_height_m(level as int),
                per_side == views_per_side(height_m as int),
                1 <= per_side <= 6,
                0 <= x_step <= per_side,
                origin.x == chunk.x * 1_000_000,
                origin.y == chunk.y * 1_000_000,
                positions@ == before + positions_at(chunk, level as int).take(x_step * per_side),
            decreases per_side - x_step,
        {
            let mut y_step: i64 = 0;
            while y_step < per_side
                invariant
                    0 <= level < SAMPLE_HEIGHT_COUNT,
                    height_m == sample_height_m(level as int),
                    per_side == views_per_side(height_m as int),
                    1 <= per_side <= 6,
                    0 <= x_step < per_side,
                    0 <= y_step <= per_side,
                    origin.x == chunk.x * 1_000_000,
                    origin.y == chunk.y * 1_000_000,
                    positions@ == before + positions_at(chunk, level as int).take(
                        x_step * per_side + y_step,
                    ),
                decreases per_side - y_step,
            {
                let ghost k = x_step * per_side + y_step;
                proof {
                    assert(k / (per_side as int) == x_step && k % (per_side as int) == y_step && 0
                        <= k < per_side * per_side) by (nonlinear_arith)
                        requires
                            k == x_step * per_side + y_step,
                            0 <= x_step < per_side,
                            0 <= y_step < per_side,
                    ;
                }
                let here = Coords {
                    x: origin.x + (2 * x_step + 1) * 500_000 / per_side,
                    y: origin.y + (2 * y_step + 1) * 500_000 / per_side,
                    z: height_m * 1000,
                };
                positions.push(here);
                proof {
                    let all = positions_at(chunk, level as int);
                    assert(all[k] == here);
                    assert(all.take(k + 1) =~= all.take(k).push(here));
                    assert(positions@ =~= before + all.take(k + 1));
                }
                y_step = y_step + 1;
            }
            proof {
                assert(x_step * per_side + per_side == (x_step + 1) * per_side)
                    by (nonlinear_arith);
            }
            x_step = x_step + 1;
        }
        proof {
            let all = positions_at(chunk, level as int);
            assert(all.take(per_side * per_side) =~= all);
        }
        level = level + 1;
    }
    positions
}

/// The requests for a list of cameras that look straight down from their
/// height above ground, numbered from zero.
pub fn requests_at(positions: &Vec<Coords>) -> (requests: Vec<RenderRequest>)
    ensures
        requests@ == requests_for(positions@),
{
    let mut requests: Vec<RenderRequest> = Vec::new();
    let mut k: usize = 0;
    while k < positions.len()
        invariant
            0 <= k <= positions.len(),
            requests.len() == k,
            forall|m: int| 0 <= m < k ==> #[trigger] requests[m] == requests_for(positions@)[m],
        decreases positions.len() - k,
    {
        requests.push(
            RenderRequest {
                camera_pose: RequestPose::PositionAgl { camera_pos_agl: positions[k] },
                request_id: ((k as u64) % 0x1_0000_0000u64) as u32,
            },
        );
        k = k + 1;
    }
    proof {
        assert(requests@ =~= requests_for(positions@));
    }
    requests
}

} // verus!
