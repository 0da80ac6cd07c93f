//! One terrain tile: a square grid of heights over a one-kilometre cell.
//!
//! A tile of resolution `n` holds `(n + 1) x (n + 1)` heights in whole
//! millimetres, one for each vertex of its mesh. Heights are read back by
//! bilinear sampling in exact integer arithmetic, and the border rows and
//! columns are rewritten from the neighbouring tiles so that meshes meet.

use crate::array::{array_cells, array_dim, array_filled, array_get, array_set, array_shape, HeightArray};
use crate::config::StorageConfig;
use crate::coords::{Coords, GridCoords, CELL_SIZE_MM};
use crate::lod::{clamp, TexturePlan};
use vstd::prelude::*;

verus! {

/// Most cells along one side that a tile's mesh can have. No elevation plan
/// asks for more, and a grid of this size fits every address space.
pub const MESH_RESOLUTION_LIMIT: usize = 8192;

/// Why a tile could not be made from the samples handed in.
#[derive(Debug, Copy, Clone, PartialEq, Eq, Structural)]
pub enum TileError {
    /// A view asks for at least two cells along a side.
    RequestTooSmall,
    /// A tile has at least two cells along a side.
    ResolutionTooSmall,
    /// The resolution is above `MESH_RESOLUTION_LIMIT`.
    ResolutionTooLarge,
    /// The samples are not one for each cell of the mesh.
    SampleCount,
}

/// One vertex of a tile's mesh: its place in the grid of vertices, its
/// height in millimetres, and its place in the tile's image. Vertex
/// `(x, y)` of a mesh of resolution `n` lies `x / n` and `y / n` of the
/// tile's side from the tile's origin. The image is laid over the tile with
/// its first row at the largest `y`: the vertex shows the image at `tex_u
/// / n` of its width and `tex_v / n` of its height.
#[derive(Debug, Copy, Clone, PartialEq, Eq, Structural)]
pub struct MeshVertex {
    pub grid_x: u32,
    pub grid_y: u32,
    pub height: i64,
    pub tex_u: u32,
    pub tex_v: u32,
}

/// The triangles of a tile's mesh: four vertices for each cell, and six
/// indices into the vertices that make the cell's two triangles.
#[derive(Debug, Clone, PartialEq, Eq)]
pub struct MeshData {
    pub vertices: Vec<MeshVertex>,
    pub indices: Vec<u32>,
}

/// The corner of a cell that each of the six indices of the cell names.
pub open spec fn triangle_corner(t: int) -> int {
    if t == 0 {
        2
    } else if t == 1 {
        1
    } else if t == 2 {
        0
    } else if t == 3 {
        1
    } else if t == 4 {
        2
    } else {
        3
    }
}

/// What a tile is, as far as contracts are concerned.
#[verifier::ext_equal]
pub struct TileView {
    /// Cells along one side of the tile: the grid of heights has one more
    /// vertex than that along each side.
    pub resolution: u32,
    /// Cells along one side that the view asked for when the tile was made,
    /// which may be more or fewer than the tile got.
    pub requested: u32,
    /// The cell that the tile covers.
    pub coords: GridCoords,
    /// Heights in millimetres: `heights[x][y]` is the height at vertex
    /// `(x, y)` of the mesh.
    pub heights: Seq<Seq<i64>>,
    /// Where the tile's data came from, and where its image is to be found.
    pub storage_config: StorageConfig,
}

/// A terrain tile of one kilometre a side at a given resolution.
#[derive(Debug)]
pub struct GridSquare {
    /// Cells along one side that the view asked for, at least two.
    requested: u32,
    /// The cell that the tile covers.
    coords: GridCoords,
    /// Height of each vertex of the mesh.
    elevation: HeightArray,
    /// Where the tile's data came from.
    storage_config: StorageConfig,
}

/// The part of the position `num / den` (in cells) that lies within the
/// cell `cell`, as a numerator over `den`: zero at the cell's near edge,
/// `den` at its far edge, and cut to that range outside the cell.
pub open spec fn local_part(cell: int, num: int, den: int) -> int {
    clamp(num - cell * den, 0, den)
}

/// `den` times the value that lies `part / den` of the way from `a` to `b`.
pub open spec fn blend(a: int, b: int, part: int, den: int) -> int {
    a * (den - part) + b * part
}

/// The height that a fresh tile has at vertex `(x, y)`. The samples are the
/// rows of a raster of `mesh` by `mesh` pixels, the first row being the one
/// with the largest `y`. The vertices of the last row and column, which have
/// no sample of their own, repeat the nearest one.
pub open spec fn initial_height(samples: Seq<i64>, mesh: int, x: int, y: int) -> i64 {
    let sx = if x < mesh {
        x
    } else {
        mesh - 1
    };
    let sy = if y < mesh {
        y
    } else {
        mesh - 1
    };
    samples[(mesh - 1 - sy) * mesh + sx]
}

/// The heights of a fresh tile.
pub open spec fn initial_heights(samples: Seq<i64>, mesh: int) -> Seq<Seq<i64>> {
    Seq::new(
        (mesh + 1) as nat,
        |x: int| Seq::new((mesh + 1) as nat, |y: int| initial_height(samples, mesh, x, y)),
    )
}

impl TileView {
    /// Cells along one side of the mesh.
    pub open spec fn mesh_resolution(self) -> int {
        self.heights.len() - 1
    }

    /// The tile has at least two cells along a side and no more than the
    /// limit allows, the heights form a square grid with one more vertex
    /// than that along each side, and the view asked for at least two cells.
    pub open spec fn wf(self) -> bool {
        &&& self.resolution >= 2
        &&& self.requested >= 2
        &&& self.heights.len() == self.resolution + 1
        &&& self.heights.len() <= MESH_RESOLUTION_LIMIT + 1
        &&& forall|x: int|
            0 <= x < self.heights.len() ==> (#[trigger] self.heights[x]).len()
                == self.heights.len()
    }

    /// The height in millimetres at the world point `(num_x / den,
    /// num_y / den)`, in cells, rounded down.
    ///
    /// The point is first moved into the tile if it lies outside. The four
    /// vertices around it are then weighted by their nearness along each
    /// axis; on the tile's far edges the missing vertices repeat the edge.
    pub open spec fn sample(self, num_x: int, num_y: int, den: int) -> int {
        let res = self.mesh_resolution();
        let u = res * local_part(self.coords.x as int, num_x, den);
        let v = res * local_part(self.coords.y as int, num_y, den);
        let left = u / den;
        let bottom = v / den;
        let right = if left < res {
            left + 1
        } else {
            res
        };
        let top = if bottom < res {
            bottom + 1
        } else {
            res
        };
        let left_val = blend(
            self.heights[left][bottom] as int,
            self.heights[left][top] as int,
            v % den,
            den,
        );
        let right_val = blend(
            self.heights[right][bottom] as int,
            self.heights[right][top] as int,
            v % den,
            den,
        );
        blend(left_val, right_val, u % den, den) / (den * den)
    }

    /// The height in millimetres at a world point given in millimetres.
    pub open spec fn sample_altitude(self, point: Coords) -> int {
        self.sample(point.x as int, point.y as int, CELL_SIZE_MM as int)
    }

    /// Vertex `k` of the mesh. Cells are listed by `x` and then by `y`; each
    /// brings its corners `(x, y)`, `(x, y + 1)`, `(x + 1, y)` and
    /// `(x + 1, y + 1)`, in this order.
    pub open spec fn mesh_vertex(self, k: int) -> MeshVertex {
        let res = self.mesh_resolution();
        let cell = k / 4;
        let corner = k % 4;
        let x = cell / res + corner / 2;
        let y = cell % res + corner % 2;
        MeshVertex {
            grid_x: x as u32,
            grid_y: y as u32,
            height: self.heights[x][y],
            tex_u: x as u32,
            tex_v: (res - y) as u32,
        }
    }

    /// Index `k` of the mesh: each cell brings two triangles over its four
    /// vertices.
    pub open spec fn mesh_index(k: int) -> u32 {
        (4 * (k / 6) + triangle_corner(k % 6)) as u32
    }

    /// The vertices of the mesh.
    pub open spec fn mesh_vertices(self) -> Seq<MeshVertex> {
        Seq::new(
            (4 * self.mesh_resolution() * self.mesh_resolution()) as nat,
            |k: int| self.mesh_vertex(k),
        )
    }

    /// The indices of the mesh.
    pub open spec fn mesh_indices(self) -> Seq<u32> {
        Seq::new(
            (6 * self.mesh_resolution() * self.mesh_resolution()) as nat,
            |k: int| Self::mesh_index(k),
        )
    }

    /// Numerator, over the mesh resolution, of the world `x` of the vertices
    /// in column `vx` of the mesh, in cells.
    pub open spec fn vertex_x(self, vx: int) -> int {
        self.coords.x * self.mesh_resolution() + vx
    }

    /// Numerator, over the mesh resolution, of the world `y` of the vertices
    /// in row `vy` of the mesh, in cells.
    pub open spec fn vertex_y(self, vy: int) -> int {
        self.coords.y * self.mesh_resolution() + vy
    }

    /// The height that the tile `from` has at the exact world position of
    /// this tile's vertex `(vx, vy)`.
    pub open spec fn height_from(self, from: TileView, vx: int, vy: int) -> i64 {
        from.sample(self.vertex_x(vx), self.vertex_y(vy), self.mesh_resolution()) as i64
    }

    /// The tile with every vertex of row `y` taking the height that `from`
    /// has at that vertex.
    pub open spec fn with_row(self, y: int, from: TileView) -> TileView {
        TileView {
            heights: Seq::new(
                self.heights.len(),
                |x: int| self.heights[x].update(y, self.height_from(from, x, y)),
            ),
            ..self
        }
    }

    /// The tile with every vertex of column `x` taking the height that
    /// `from` has at that vertex.
    pub open spec fn with_column(self, x: int, from: TileView) -> TileView {
        TileView {
            heights: self.heights.update(
                x,
                Seq::new(self.heights.len(), |y: int| self.height_from(from, x, y)),
            ),
            ..self
        }
    }

    /// The tile after its borders were taken from the neighbours that are
    /// there, one border after the other: the row of largest `y` from
    /// `bottom`, then the column of largest `x` from `right`, then row zero
    /// from `top`, then column zero from `left`. A corner belongs to two
    /// borders and keeps what the later one wrote.
    pub open spec fn stitched(
        self,
        bottom: Option<TileView>,
        right: Option<TileView>,
        top: Option<TileView>,
        left: Option<TileView>,
    ) -> TileView {
        let res = self.mesh_resolution();
        let after_bottom = match bottom {
            Some(from) => self.with_row(res, from),
            None => self,
        };
        let after_right = match right {
            Some(from) => after_bottom.with_column(res, from),
            None => after_bottom,
        };
        let after_top = match top {
            Some(from) => after_right.with_row(0, from),
            None => after_right,
        };
        match left {
            Some(from) => after_top.with_column(0, from),
            None => after_top,
        }
    }
}

/// The view of a tile that may be absent.
pub open spec fn view_of(tile: Option<&GridSquare>) -> Option<TileView> {
    match tile {
        Some(t) => Some(t@),
        None => None,
    }
}

/// A blend of two values lies between the bounds of the two, scaled.
proof fn lemma_blend_bounds(a: int, b: int, part: int, den: int, lo: int, hi: int)
    by (nonlinear_arith)
    requires
        lo <= a <= hi,
        lo <= b <= hi,
        0 <= part <= den,
    ensures
        lo * den <= a * (den - part) + b * part <= hi * den,
{
}

/// Dividing a value between two bounds scaled by `d` gives a value between
/// the bounds.
proof fn lemma_scaled_quotient_bounds(total: int, d: int, lo: int, hi: int)
    by (nonlinear_arith)
    requires
        d > 0,
        lo * d <= total <= hi * d,
    ensures
        lo <= total / d <= hi,
{
}

/// A whole number of steps of `den` within `res * den` is within `res`.
proof fn lemma_index_in_mesh(res: int, part: int, den: int)
    by (nonlinear_arith)
    requires
        0 <= res,
        0 <= part <= den,
        den > 0,
    ensures
        0 <= res * part <= res * den,
        0 <= (res * part) / den <= res,
        0 <= (res * part) % den < den,
        part == den ==> (res * part) / den == res && (res * part) % den == 0,
{
}

/// The four heights around a sampled point are vertices of the mesh, and
/// the sampled height lies between the least and the greatest height that
/// a vertex can hold.
pub proof fn lemma_sample_in_range(tile: TileView, num_x: int, num_y: int, den: int)
    requires
        tile.wf(),
        den > 0,
    ensures
        i64::MIN <= tile.sample(num_x, num_y, den) <= i64::MAX,
{
    let res = tile.mesh_resolution();
    let px = local_part(tile.coords.x as int, num_x, den);
    let py = local_part(tile.coords.y as int, num_y, den);
    lemma_index_in_mesh(res, px, den);
    lemma_index_in_mesh(res, py, den);
    let u = res * px;
    let v = res * py;
    let left = u / den;
    let bottom = v / den;
    let right = if left < res { left + 1 } else { res };
    let top = if bottom < res { bottom + 1 } else { res };
    let lo = i64::MIN as int;
    let hi = i64::MAX as int;
    let lb = tile.heights[left][bottom] as int;
    let lt = tile.heights[left][top] as int;
    let rb = tile.heights[right][bottom] as int;
    let rt = tile.heights[right][top] as int;
    lemma_blend_bounds(lb, lt, v % den, den, lo, hi);
    lemma_blend_bounds(rb, rt, v % den, den, lo, hi);
    let left_val = blend(lb, lt, v % den, den);
    let right_val = blend(rb, rt, v % den, den);
    lemma_blend_bounds(left_val, right_val, u % den, den, lo * den, hi * den);
    let total = blend(left_val, right_val, u % den, den);
    assert((lo * den) * den == lo * (den * den) && (hi * den) * den == hi * (den * den))
        by (nonlinear_arith);
    assert(den * den > 0) by (nonlinear_arith)
        requires
            den > 0,
    ;
    lemma_scaled_quotient_bounds(total, den * den, lo, hi);
}

/// Cell `(x, y)` of a mesh of resolution `res` is cell number `x * res + y`,
/// and the number is within what 32 bits can index four times over.
proof fn lemma_cell_of(x: int, y: int, res: int)
    by (nonlinear_arith)
    requires
        0 <= x < res,
        0 <= y < res,
        res <= 8192,
    ensures
        (x * res + y) / res == x,
        (x * res + y) % res == y,
        0 <= x * res + y < 8192 * 8192,
{
}

/// A whole multiple of `den` divides by `den` without remainder.
proof fn lemma_exact_multiple(k: int, den: int)
    by (nonlinear_arith)
    requires
        den > 0,
    ensures
        (k * den) / den == k,
        (k * den) % den == 0,
{
}

/// A height scaled by `den` twice over divides back to the height.
proof fn lemma_unscale(h: int, den: int)
    by (nonlinear_arith)
    requires
        den > 0,
    ensures
        ((h * den) * den) / (den * den) == h,
{
}

/// Sampling at a point that lies exactly on vertex `(vx, vy)` of the mesh
/// gives the height stored at that vertex.
pub proof fn lemma_sample_on_vertex(
    tile: TileView,
    num_x: int,
    num_y: int,
    den: int,
    vx: int,
    vy: int,
)
    requires
        tile.wf(),
        den > 0,
        0 <= vx <= tile.mesh_resolution(),
        0 <= vy <= tile.mesh_resolution(),
        tile.mesh_resolution() * local_part(tile.coords.x as int, num_x, den) == vx * den,
        tile.mesh_resolution() * local_part(tile.coords.y as int, num_y, den) == vy * den,
    ensures
        tile.sample(num_x, num_y, den) == tile.heights[vx][vy],
{
    let res = tile.mesh_resolution();
    lemma_exact_multiple(vx, den);
    lemma_exact_multiple(vy, den);
    let h = tile.heights[vx][vy] as int;
    let top = if vy < res { vy + 1 } else { res };
    let right = if vx < res { vx + 1 } else { res };
    let left_val = blend(h, tile.heights[vx][top] as int, 0, den);
    let right_val = blend(
        tile.heights[right][vy] as int,
        tile.heights[right][top] as int,
        0,
        den,
    );
    assert(left_val == h * den);
    assert(blend(left_val, right_val, 0, den) == (h * den) * den);
    lemma_unscale(h, den);
}

/// Sampling a tile at the exact world position of one of its own vertices
/// gives the height stored at that vertex.
pub proof fn lemma_sample_at_own_vertex(tile: TileView, vx: int, vy: int)
    requires
        tile.wf(),
        0 <= vx <= tile.mesh_resolution(),
        0 <= vy <= tile.mesh_resolution(),
    ensures
        tile.sample(tile.vertex_x(vx), tile.vertex_y(vy), tile.mesh_resolution())
            == tile.heights[vx][vy],
        tile.height_from(tile, vx, vy) == tile.heights[vx][vy],
{
    let res = tile.mesh_resolution();
    assert(res * vx == vx * res && res * vy == vy * res) by (nonlinear_arith);
    lemma_sample_on_vertex(tile, tile.vertex_x(vx), tile.vertex_y(vy), res, vx, vy);
}

/// Sampling at a world point in millimetres that is the exact position of
/// vertex `(vx, vy)` gives the height stored at that vertex. The four
/// corners of a tile are such points at every resolution.
pub proof fn lemma_sample_altitude_at_vertex(tile: TileView, point: Coords, vx: int, vy: int)
    requires
        tile.wf(),
        0 <= vx <= tile.mesh_resolution(),
        0 <= vy <= tile.mesh_resolution(),
        (point.x - tile.coords.x * 1_000_000) * tile.mesh_resolution() == vx * 1_000_000,
        (point.y - tile.coords.y * 1_000_000) * tile.mesh_resolution() == vy * 1_000_000,
    ensures
        tile.sample_altitude(point) == tile.heights[vx][vy],
{
    let res = tile.mesh_resolution();
    let dx = point.x - tile.coords.x * 1_000_000;
    let dy = point.y - tile.coords.y * 1_000_000;
    assert(0 <= dx <= 1_000_000 && res * dx == vx * 1_000_000) by (nonlinear_arith)
        requires
            dx * res == vx * 1_000_000,
            0 <= vx <= res,
            res >= 1,
    ;
    assert(0 <= dy <= 1_000_000 && res * dy == vy * 1_000_000) by (nonlinear_arith)
        requires
            dy * res == vy * 1_000_000,
            0 <= vy <= res,
            res >= 1,
    ;
    lemma_sample_on_vertex(tile, point.x as int, point.y as int, 1_000_000, vx, vy);
}

/// The part of a position that lies within a cell, as a numerator.
fn local_numerator(cell: i32, num: i64, den: u32) -> (part: u32)
    requires
        den > 0,
    ensures
        part == local_part(cell as int, num as int, den as int),
        part <= den,
{
    assert(-0x8000_0000 * 0x1_0000_0000 <= cell * den <= 0x8000_0000 * 0x1_0000_0000)
        by (nonlinear_arith)
        requires
            -0x8000_0000 <= cell <= 0x8000_0000,
            0 <= den <= 0x1_0000_0000,
    ;
    let offset: i128 = num as i128 - (cell as i128) * (den as i128);
    if offset < 0 {
        0
    } else if offset > den as i128 {
        den
    } else {
        offset as u32
    }
}

/// `den` times the height that lies `part / den` of the way from `a` to `b`.
fn blend_heights(a: i64, b: i64, part: u32, den: u32) -> (sum: i128)
    requires
        part <= den,
    ensures
        sum == blend(a as int, b as int, part as int, den as int),
        i64::MIN * den <= sum <= i64::MAX * den,
{
    let rest: i128 = (den - part) as i128;
    proof {
        lemma_blend_bounds(a as int, b as int, part as int, den as int, i64::MIN as int, i64::MAX as int);
        assert(i64::MIN * 0x1_0000_0000 <= a * (den - part) <= i64::MAX * 0x1_0000_0000)
            by (nonlinear_arith)
            requires
                i64::MIN <= a <= i64::MAX,
                0 <= den - part <= 0x1_0000_0000,
        ;
        assert(i64::MIN * 0x1_0000_0000 <= b * part <= i64::MAX * 0x1_0000_0000)
            by (nonlinear_arith)
            requires
                i64::MIN <= b <= i64::MAX,
                0 <= part <= 0x1_0000_0000,
        ;
    }
    (a as i128) * rest + (b as i128) * (part as i128)
}

/// `den` times the value that lies `part / den` of the way from `a` to `b`,
/// for two values that are themselves blends of heights.
fn blend_sums(a: i128, b: i128, part: u32, den: u32) -> (sum: i128)
    requires
        part <= den,
        i64::MIN * den <= a <= i64::MAX * den,
        i64::MIN * den <= b <= i64::MAX * den,
    ensures
        sum == blend(a as int, b as int, part as int, den as int),
        i64::MIN * (den * den) <= sum <= i64::MAX * (den * den),
{
    let rest: i128 = (den - part) as i128;
    proof {
        let lo = i64::MIN * den;
        let hi = i64::MAX * den;
        lemma_blend_bounds(a as int, b as int, part as int, den as int, lo, hi);
        assert(lo * den == i64::MIN * (den * den) && hi * den == i64::MAX * (den * den))
            by (nonlinear_arith)
            requires
                lo == i64::MIN * den,
                hi == i64::MAX * den,
        ;
        assert(-0x8000_0000_0000_0000 * 0xffff_ffff <= lo && hi <= 0x8000_0000_0000_0000
            * 0xffff_ffff) by (nonlinear_arith)
            requires
                lo == i64::MIN * den,
                hi == i64::MAX * den,
                0 <= den <= 0xffff_ffff,
        ;
        assert(-0x8000_0000_0000_0000 * 0xffff_ffff * 0xffff_ffff <= a * (den - part)
            <= 0x8000_0000_0000_0000 * 0xffff_ffff * 0xffff_ffff) by (nonlinear_arith)
            requires
                -0x8000_0000_0000_0000 * 0xffff_ffff <= a <= 0x8000_0000_0000_0000 * 0xffff_ffff,
                0 <= den - part <= 0xffff_ffff,
        ;
        assert(-0x8000_0000_0000_0000 * 0xffff_ffff * 0xffff_ffff <= b * part
            <= 0x8000_0000_0000_0000 * 0xffff_ffff * 0xffff_ffff) by (nonlinear_arith)
            requires
                -0x8000_0000_0000_0000 * 0xffff_ffff <= b <= 0x8000_0000_0000_0000 * 0xffff_ffff,
                0 <= part <= 0xffff_ffff,
        ;
        assert(-0x8000_0000_0000_0000 * 0xffff_ffff * 0xffff_ffff <= lo * den && hi * den
            <= 0x8000_0000_0000_0000 * 0xffff_ffff * 0xffff_ffff) by (nonlinear_arith)
            requires
                -0x8000_0000_0000_0000 * 0xffff_ffff <= lo <= 0,
                0 <= hi <= 0x8000_0000_0000_0000 * 0xffff_ffff,
                0 <= den <= 0xffff_ffff,
        ;
    }
    a * rest + b * (part as i128)
}

impl View for GridSquare {
    type V = TileView;

    closed spec fn view(&self) -> TileView {
        TileView {
            resolution: (array_shape(self.elevation).0 - 1) as u32,
            requested: self.requested,
            coords: self.coords,
            heights: Seq::new(
                array_shape(self.elevation).0,
                |x: int|
                    Seq::new(
                        array_shape(self.elevation).1,
                        |y: int| array_cells(self.elevation)[(x, y)],
                    ),
            ),
            storage_config: self.storage_config,
        }
    }
}

impl GridSquare {
    #[verifier::type_invariant]
    spec fn well_formed(&self) -> bool {
        &&& self.requested >= 2
        &&& array_shape(self.elevation).0 == array_shape(self.elevation).1
        &&& 3 <= array_shape(self.elevation).0 <= MESH_RESOLUTION_LIMIT + 1
    }

    /// What `new` gives for its arguments.
    pub open spec fn spec_new(
        coords: GridCoords,
        requested: u32,
        resolution: usize,
        samples: Seq<i64>,
        storage_config: StorageConfig,
    ) -> Result<TileView, TileError> {
        if requested < 2 {
            Err(TileError::RequestTooSmall)
        } else if resolution < 2 {
            Err(TileError::ResolutionTooSmall)
        } else if resolution > MESH_RESOLUTION_LIMIT {
            Err(TileError::ResolutionTooLarge)
        } else if samples.len() != resolution * resolution {
            Err(TileError::SampleCount)
        } else {
            Ok(
                TileView {
                    resolution: resolution as u32,
                    requested,
                    coords,
                    heights: initial_heights(samples, resolution as int),
                    storage_config,
                },
            )
        }
    }

    /// What `from_heights` gives for its arguments.
    pub open spec fn spec_from_heights(
        coords: GridCoords,
        requested: u32,
        resolution: usize,
        heights: Seq<i64>,
        storage_config: StorageConfig,
    ) -> Result<TileView, TileError> {
        if requested < 2 {
            Err(TileError::RequestTooSmall)
        } else if resolution < 2 {
            Err(TileError::ResolutionTooSmall)
        } else if resolution > MESH_RESOLUTION_LIMIT {
            Err(TileError::ResolutionTooLarge)
        } else if heights.len() != (resolution + 1) * (resolution + 1) {
            Err(TileError::SampleCount)
        } else {
            Ok(
                TileView {
                    resolution: resolution as u32,
                    requested,
                    coords,
                    heights: Seq::new(
                        (resolution + 1) as nat,
                        |x: int|
                            Seq::new(
                                (resolution + 1) as nat,
                                |y: int| heights[x * (resolution + 1) + y],
                            ),
                    ),
                    storage_config,
                },
            )
        }
    }

    /// Makes the tile at `coords` from a full grid of heights.
    ///
    /// The tile gets `resolution` cells along a side. `heights` holds the
    /// height in millimetres of every vertex, those of one `x` together:
    /// vertex `(x, y)` stands at `x * (resolution + 1) + y`. `requested` is
    /// the number of cells along one side that the view asked for.
    pub fn from_heights(
        coords: GridCoords,
        requested: u32,
        resolution: usize,
        heights: Vec<i64>,
        storage_config: StorageConfig,
    ) -> (made: Result<GridSquare, TileError>)
        ensures
            match made {
                Ok(tile) => Self::spec_from_heights(
                    coords,
                    requested,
                    resolution,
                    heights@,
                    storage_config,
                ) == Ok::<TileView, TileError>(tile@) && tile@.wf(),
                Err(e) => Self::spec_from_heights(
                    coords,
                    requested,
                    resolution,
                    heights@,
                    storage_config,
                ) == Err::<TileView, TileError>(e),
            },
    {
        if requested < 2 {
            return Err(TileError::RequestTooSmall);
        }
        if resolution < 2 {
            return Err(TileError::ResolutionTooSmall);
        }
        if resolution > MESH_RESOLUTION_LIMIT {
            return Err(TileError::ResolutionTooLarge);
        }
        let side: usize = resolution + 1;
        assert(side * side * 8 <= 8193 * 8193 * 8) by (nonlinear_arith)
            requires
                0 <= side <= 8193,
        ;
        if heights.len() != side * side {
            return Err(TileError::SampleCount);
        }
        let mut elevation = array_filled(side, side, 0);
        let mut x: usize = 0;
        while x < side
            invariant
                3 <= side <= MESH_RESOLUTION_LIMIT + 1,
                heights.len() == side * side,
                array_shape(elevation) == (side as nat, side as nat),
                0 <= x <= side,
                forall|i: int, j: int|
                    0 <= i < x && 0 <= j < side ==> #[trigger] array_cells(elevation)[(i, j)]
                        == heights[i * side + j],
            decreases side - x,
        {
            let mut y: usize = 0;
            while y < side
                invariant
                    3 <= side <= MESH_RESOLUTION_LIMIT + 1,
                    heights.len() == side * side,
                    array_shape(elevation) == (side as nat, side as nat),
                    0 <= x < side,
                    0 <= y <= side,
                    forall|i: int, j: int|
                        0 <= i < x && 0 <= j < side ==> #[trigger] array_cells(elevation)[(i, j)]
                            == heights[i * side + j],
                    forall|j: int|
                        0 <= j < y ==> #[trigger] array_cells(elevation)[(x as int, j)]
                            == heights[x * side + j],
                decreases side - y,
            {
                assert(0 <= x * side + y < side * side) by (nonlinear_arith)
                    requires
                        0 <= x < side,
                        0 <= y < side,
                ;
                let value: i64 = heights[x * side + y];
                array_set(&mut elevation, x, y, value);
                y = y + 1;
            }
            x = x + 1;
        }
        let tile = GridSquare { requested, coords, elevation, storage_config };
        proof {
            let grid = Seq::new(
                side as nat,
                |x: int| Seq::new(side as nat, |y: int| heights@[x * side + y]),
            );
            assert(tile@.heights =~~= grid);
            assert(tile@ =~= TileView {
                resolution: resolution as u32,
                requested,
                coords,
                heights: grid,
                storage_config,
            });
        }
        Ok(tile)
    }

    /// Makes the tile at `coords` from the samples of its elevation raster.
    ///
    /// The tile gets `resolution` cells along a side; `requested` is the
    /// number that the view asked for. `samples` holds `resolution` rows of
    /// `resolution` heights in millimetres, the row with the largest `y`
    /// first. The grid gets one more row and column than the raster has,
    /// filled by repeating the last one; stitching overwrites them where a
    /// neighbour exists.
    pub fn new(
        coords: GridCoords,
        requested: u32,
        resolution: usize,
        samples: Vec<i64>,
        storage_config: StorageConfig,
    ) -> (made: Result<GridSquare, TileError>)
        ensures
            match made {
                Ok(tile) => Self::spec_new(
                    coords,
                    requested,
                    resolution,
                    samples@,
                    storage_config,
                ) == Ok::<TileView, TileError>(tile@) && tile@.wf(),
                Err(e) => Self::spec_new(
                    coords,
                    requested,
                    resolution,
                    samples@,
                    storage_config,
                ) == Err::<TileView, TileError>(e),
            },
    {
        let mesh_resolution = resolution;
        if requested < 2 {
            return Err(TileError::RequestTooSmall);
        }
        if mesh_resolution < 2 {
            return Err(TileError::ResolutionTooSmall);
        }
        if mesh_resolution > MESH_RESOLUTION_LIMIT {
            return Err(TileError::ResolutionTooLarge);
        }
        assert(mesh_resolution * mesh_resolution <= 8192 * 8192) by (nonlinear_arith)
            requires
                0 <= mesh_resolution <= 8192,
        ;
        if samples.len() != mesh_resolution * mesh_resolution {
            return Err(TileError::SampleCount);
        }
        let side: usize = mesh_resolution + 1;
        assert(side * side * 8 <= 8193 * 8193 * 8) by (nonlinear_arith)
            requires
                0 <= side <= 8193,
        ;
        let mut elevation = array_filled(side, side, 0);
        let ghost heights = initial_heights(samples@, mesh_resolution as int);
        let mut x: usize = 0;
        while x < side
            invariant
                1 <= mesh_resolution <= MESH_RESOLUTION_LIMIT,
                side == mesh_resolution + 1,
                samples.len() == mesh_resolution * mesh_resolution,
                array_shape(elevation) == (side as nat, side as nat),
                0 <= x <= side,
                forall|i: int, j: int|
                    0 <= i < x && 0 <= j < side ==> #[trigger] array_cells(elevation)[(i, j)]
                        == initial_height(samples@, mesh_resolution as int, i, j),
            decreases side - x,
        {
            let sx: usize = if x < mesh_resolution {
                x
            } else {
                mesh_resolution - 1
            };
            let mut y: usize = 0;
            while y < side
                invariant
                    1 <= mesh_resolution <= MESH_RESOLUTION_LIMIT,
                    side == mesh_resolution + 1,
                    samples.len() == mesh_resolution * mesh_resolution,
                    array_shape(elevation) == (side as nat, side as nat),
                    0 <= x < side,
                    sx == (if x < mesh_resolution {
                        x as int
                    } else {
                        mesh_resolution - 1
                    }),
                    0 <= y <= side,
                    forall|i: int, j: int|
                        0 <= i < x && 0 <= j < side ==> #[trigger] array_cells(elevation)[(i, j)]
                            == initial_height(samples@, mesh_resolution as int, i, j),
                    forall|j: int|
                        0 <= j < y ==> #[trigger] array_cells(elevation)[(x as int, j)]
                            == initial_height(samples@, mesh_resolution as int, x as int, j),
                decreases side - y,
            {
                let sy: usize = if y < mesh_resolution {
                    y
                } else {
                    mesh_resolution - 1
                };
                let row: usize = mesh_resolution - 1 - sy;
                assert(row * mesh_resolution + sx < mesh_resolution * mesh_resolution)
                    by (nonlinear_arith)
                    requires
                        0 <= row < mesh_resolution,
                        0 <= sx < mesh_resolution,
                ;
                assert(row * mesh_resolution >= 0) by (nonlinear_arith)
                    requires
                        0 <= row,
                        0 <= mesh_resolution,
                ;
                let value: i64 = samples[row * mesh_resolution + sx];
                array_set(&mut elevation, x, y, value);
                y = y + 1;
            }
            x = x + 1;
        }
        let tile = GridSquare { requested, coords, elevation, storage_config };
        proof {
            assert(tile@.heights =~~= heights);
            assert(tile@ =~= TileView {
                resolution: resolution as u32,
                requested,
                coords,
                heights,
                storage_config,
            });
        }
        Ok(tile)
    }

    /// Cells along one side of the tile.
    pub fn resolution(&self) -> (r: u32)
        ensures
            r == self@.resolution,
            2 <= r <= MESH_RESOLUTION_LIMIT,
            self@.wf(),
    {
        proof {
            use_type_invariant(self);
        }
        (array_dim(&self.elevation).0 - 1) as u32
    }

    /// Cells along one side that the view asked for when the tile was made.
    pub fn requested_resolution(&self) -> (r: u32)
        ensures
            r == self@.requested,
            r >= 2,
    {
        proof {
            use_type_invariant(self);
        }
        self.requested
    }

    /// The cell that the tile covers.
    pub fn coords(&self) -> (c: GridCoords)
        ensures
            c == self@.coords,
    {
        self.coords
    }

    /// Where the tile's data came from.
    pub fn storage_config(&self) -> (config: &StorageConfig)
        ensures
            *config == self@.storage_config,
    {
        &self.storage_config
    }

    /// The height in millimetres at vertex `(x, y)` of the mesh, if the mesh
    /// has such a vertex.
    pub fn elevation(&self, x: usize, y: usize) -> (height: Option<i64>)
        ensures
            self@.wf(),
            height == (if x <= self@.mesh_resolution() && y <= self@.mesh_resolution() {
                Some(self@.heights[x as int][y as int])
            } else {
                None
            }),
    {
        proof {
            use_type_invariant(self);
        }
        let (rows, cols) = array_dim(&self.elevation);
        if x < rows && y < cols {
            Some(array_get(&self.elevation, x, y))
        } else {
            None
        }
    }
    /// The height in millimetres at the world point `(num_x / den,
    /// num_y / den)`, given in cells, rounded down. Fractions name points
    /// that are no whole number of millimetres, such as the vertices of a
    /// mesh. Points outside the tile take the height of the nearest point
    /// of its border.
    pub fn sample_at(&self, num_x: i64, num_y: i64, den: u32) -> (height: i64)
        requires
            den > 0,
        ensures
            height == self@.sample(num_x as int, num_y as int, den as int),
            self@.wf(),
    {
        proof {
            use_type_invariant(self);
            lemma_sample_in_range(self@, num_x as int, num_y as int, den as int);
        }
        let res: usize = array_dim(&self.elevation).0 - 1;
        let part_x = local_numerator(self.coords.x, num_x, den);
        let part_y = local_numerator(self.coords.y, num_y, den);
        proof {
            lemma_index_in_mesh(res as int, part_x as int, den as int);
            lemma_index_in_mesh(res as int, part_y as int, den as int);
            assert(res * den <= 8192 * 0xffff_ffff) by (nonlinear_arith)
                requires
                    0 <= res <= 8192,
                    0 <= den <= 0xffff_ffff,
            ;
        }
        let u: u64 = (res as u64) * (part_x as u64);
        let v: u64 = (res as u64) * (part_y as u64);
        let left: usize = (u / (den as u64)) as usize;
        let bottom: usize = (v / (den as u64)) as usize;
        let right: usize = if left < res {
            left + 1
        } else {
            res
        };
        let top: usize = if bottom < res {
            bottom + 1
        } else {
            res
        };
        let fx: u32 = (u % (den as u64)) as u32;
        let fy: u32 = (v % (den as u64)) as u32;
        let left_val = blend_heights(
            array_get(&self.elevation, left, bottom),
            array_get(&self.elevation, left, top),
            fy,
            den,
        );
        let right_val = blend_heights(
            array_get(&self.elevation, right, bottom),
            array_get(&self.elevation, right, top),
            fy,
            den,
        );
        let total = blend_sums(left_val, right_val, fx, den);
        assert(0 < den * den <= 0xffff_ffff * 0xffff_ffff) by (nonlinear_arith)
            requires
                0 < den <= 0xffff_ffff,
        ;
        let scale: i128 = (den as i128) * (den as i128);
        match total.checked_div_euclid(scale) {
            Some(q) => q as i64,
            None => 0,
        }
    }

    /// Bilinearly interpolated height of the tile at a world point, both in
    /// millimetres.
    pub fn sample_altitude(&self, coords: Coords) -> (height: i64)
        ensures
            height == self@.sample_altitude(coords),
            self@.wf(),
    {
        self.sample_at(coords.x, coords.y, 1_000_000)
    }
    /// Row `y` of the grid takes the heights that `from` has at its vertices.
    fn stitch_row(&mut self, y: usize, from: &GridSquare)
        requires
            y <= old(self)@.mesh_resolution(),
        ensures
            final(self)@ == old(self)@.with_row(y as int, from@),
            final(self)@.wf(),
    {
        proof {
            use_type_invariant(&*self);
        }
        let ghost before = self@;
        let res: usize = array_dim(&self.elevation).0 - 1;
        let cx: i64 = self.coords.x as i64;
        let cy: i64 = self.coords.y as i64;
        assert(-0x8000_0000 * 8192 <= cx * res <= 0x8000_0000 * 8192 && -0x8000_0000 * 8192 <= cy
            * res <= 0x8000_0000 * 8192) by (nonlinear_arith)
            requires
                -0x8000_0000 <= cx <= 0x8000_0000,
                -0x8000_0000 <= cy <= 0x8000_0000,
                0 <= res <= 8192,
        ;
        let num_y: i64 = cy * (res as i64) + (y as i64);
        let mut x: usize = 0;
        while x <= res
            invariant
                0 <= x <= res + 1,
                1 <= res <= MESH_RESOLUTION_LIMIT,
                y <= res,
                before.wf(),
                before.mesh_resolution() == res,
                array_shape(self.elevation) == ((res + 1) as nat, (res + 1) as nat),
                self.coords == before.coords,
                self.requested == before.requested,
                self.storage_config == before.storage_config,
                cx == before.coords.x,
                -0x8000_0000 * 8192 <= cx * res <= 0x8000_0000 * 8192,
                num_y == before.vertex_y(y as int),
                forall|i: int, j: int|
                    0 <= i <= res && 0 <= j <= res ==> #[trigger] array_cells(self.elevation)[(
                        i,
                        j,
                    )] == (if j == y && i < x {
                        before.height_from(from@, i, y as int)
                    } else {
                        before.heights[i][j]
                    }),
            decreases res + 1 - x,
        {
            let height = from.sample_at(cx * (res as i64) + (x as i64), num_y, res as u32);
            array_set(&mut self.elevation, x, y, height);
            x = x + 1;
        }
        proof {
            assert(self@.heights =~~= before.with_row(y as int, from@).heights);
            assert(self@ =~= before.with_row(y as int, from@));
        }
    }

    /// Column `x` of the grid takes the heights that `from` has at its
    /// vertices.
    fn stitch_column(&mut self, x: usize, from: &GridSquare)
        requires
            x <= old(self)@.mesh_resolution(),
        ensures
            final(self)@ == old(self)@.with_column(x as int, from@),
            final(self)@.wf(),
    {
        proof {
            use_type_invariant(&*self);
        }
        let ghost before = self@;
        let res: usize = array_dim(&self.elevation).0 - 1;
        let cx: i64 = self.coords.x as i64;
        let cy: i64 = self.coords.y as i64;
        assert(-0x8000_0000 * 8192 <= cx * res <= 0x8000_0000 * 8192 && -0x8000_0000 * 8192 <= cy
            * res <= 0x8000_0000 * 8192) by (nonlinear_arith)
            requires
                -0x8000_0000 <= cx <= 0x8000_0000,
                -0x8000_0000 <= cy <= 0x8000_0000,
                0 <= res <= 8192,
        ;
        let num_x: i64 = cx * (res as i64) + (x as i64);
        let mut y: usize = 0;
        while y <= res
            invariant
                0 <= y <= res + 1,
                1 <= res <= MESH_RESOLUTION_LIMIT,
                x <= res,
                before.wf(),
                before.mesh_resolution() == res,
                array_shape(self.elevation) == ((res + 1) as nat, (res + 1) as nat),
                self.coords == before.coords,
                self.requested == before.requested,
                self.storage_config == before.storage_config,
                cy == before.coords.y,
                -0x8000_0000 * 8192 <= cy * res <= 0x8000_0000 * 8192,
                num_x == before.vertex_x(x as int),
                forall|i: int, j: int|
                    0 <= i <= res && 0 <= j <= res ==> #[trigger] array_cells(self.elevation)[(
                        i,
                        j,
                    )] == (if i == x && j < y {
                        before.height_from(from@, x as int, j)
                    } else {
                        before.heights[i][j]
                    }),
            decreases res + 1 - y,
        {
            let height = from.sample_at(num_x, cy * (res as i64) + (y as i64), res as u32);
            array_set(&mut self.elevation, x, y, height);
            y = y + 1;
        }
        proof {
            assert(self@.heights =~~= before.with_column(x as int, from@).heights);
            assert(self@ =~= before.with_column(x as int, from@));
        }
    }

    /// Rewrites the border of the grid to meet the neighbouring tiles.
    ///
    /// Each border that has a neighbour takes, vertex by vertex, the height
    /// that the neighbour has at the exact world position of the vertex; the
    /// tile's own heights there are dropped, not averaged in. A border
    /// without a neighbour stays as it is.
    pub fn cleanup_borders(
        &mut self,
        bottom_neighbor: Option<&GridSquare>,
        right_neighbor: Option<&GridSquare>,
        top_neighbor: Option<&GridSquare>,
        left_neighbor: Option<&GridSquare>,
    )
        ensures
            final(self)@ == old(self)@.stitched(
                view_of(bottom_neighbor),
                view_of(right_neighbor),
                view_of(top_neighbor),
                view_of(left_neighbor),
            ),
            final(self)@.wf(),
            old(self)@.wf(),
    {
        proof {
            use_type_invariant(&*self);
        }
        let res: usize = array_dim(&self.elevation).0 - 1;
        if let Some(from) = bottom_neighbor {
            self.stitch_row(res, from);
        }
        if let Some(from) = right_neighbor {
            self.stitch_column(res, from);
        }
        if let Some(from) = top_neighbor {
            self.stitch_row(0, from);
        }
        if let Some(from) = left_neighbor {
            self.stitch_column(0, from);
        }
    }
    /// Vertex `(x, y)` of the mesh.
    fn vertex_at(&self, x: usize, y: usize) -> (vertex: MeshVertex)
        requires
            self@.wf(),
            x <= self@.mesh_resolution(),
            y <= self@.mesh_resolution(),
        ensures
            vertex == (MeshVertex {
                grid_x: x as u32,
                grid_y: y as u32,
                height: self@.heights[x as int][y as int],
                tex_u: x as u32,
                tex_v: (self@.mesh_resolution() - y) as u32,
            }),
    {
        proof {
            use_type_invariant(self);
        }
        let res: usize = array_dim(&self.elevation).0 - 1;
        MeshVertex {
            grid_x: x as u32,
            grid_y: y as u32,
            height: array_get(&self.elevation, x, y),
            tex_u: x as u32,
            tex_v: (res - y) as u32,
        }
    }

    /// The mesh of the tile: for each cell its four corner vertices and the
    /// two triangles over them.
    pub fn mesh(&self) -> (mesh: MeshData)
        ensures
            mesh.vertices@ == self@.mesh_vertices(),
            mesh.indices@ == self@.mesh_indices(),
            self@.wf(),
    {
        proof {
            use_type_invariant(self);
        }
        let mut vertices: Vec<MeshVertex> = Vec::new();
        let mut indices: Vec<u32> = Vec::new();
        let res: usize = array_dim(&self.elevation).0 - 1;
        let ghost tile = self@;
        let mut x: usize = 0;
        while x < res
            invariant
                0 <= x <= res,
                1 <= res <= MESH_RESOLUTION_LIMIT,
                tile == self@,
                tile.wf(),
                tile.mesh_resolution() == res,
                array_shape(self.elevation) == ((res + 1) as nat, (res + 1) as nat),
                vertices@ == Seq::new((4 * (x * res)) as nat, |k: int| tile.mesh_vertex(k)),
                indices@ == Seq::new((6 * (x * res)) as nat, |k: int| TileView::mesh_index(k)),
            decreases res - x,
        {
            let mut y: usize = 0;
            while y < res
                invariant
                    0 <= x < res,
                    0 <= y <= res,
                    1 <= res <= MESH_RESOLUTION_LIMIT,
                    tile == self@,
                    tile.wf(),
                    tile.mesh_resolution() == res,
                    array_shape(self.elevation) == ((res + 1) as nat, (res + 1) as nat),
                    vertices@ == Seq::new(
                        (4 * (x * res + y)) as nat,
                        |k: int| tile.mesh_vertex(k),
                    ),
                    indices@ == Seq::new(
                        (6 * (x * res + y)) as nat,
                        |k: int| TileView::mesh_index(k),
                    ),
                decreases res - y,
            {
                let ghost cell = x * res + y;
                proof {
                    lemma_cell_of(x as int, y as int, res as int);
                }
                let v: u32 = vertices.len() as u32;
                indices.push(v + 2);
                indices.push(v + 1);
                indices.push(v);
                indices.push(v + 1);
                indices.push(v + 2);
                indices.push(v + 3);
                vertices.push(self.vertex_at(x, y));
                vertices.push(self.vertex_at(x, y + 1));
                vertices.push(self.vertex_at(x + 1, y));
                vertices.push(self.vertex_at(x + 1, y + 1));
                proof {
                    assert(vertices@ =~= Seq::new(
                        (4 * (cell + 1)) as nat,
                        |k: int| tile.mesh_vertex(k),
                    ));
                    assert(indices@ =~= Seq::new(
                        (6 * (cell + 1)) as nat,
                        |k: int| TileView::mesh_index(k),
                    ));
                }
                y = y + 1;
            }
            proof {
                assert(x * res + res == (x + 1) * res) by (nonlinear_arith);
            }
            x = x + 1;
        }
        proof {
            assert(4 * (res * res) == 4 * res * res && 6 * (res * res) == 6 * res * res)
                by (nonlinear_arith);
        }
        MeshData { vertices, indices }
    }

    /// Which orthoimage the tile loads and at what resolution it is shown;
    /// `None` where the finest image level in use has no pixel left.
    pub fn texture_plan(&self) -> (plan: Option<TexturePlan>)
        ensures
            plan == TexturePlan::spec_new(
                self@.requested,
                self@.storage_config.image_max_lod,
            ),
            plan matches Some(p) ==> p.resolution >= 1,
            self@.wf(),
    {
        proof {
            use_type_invariant(self);
        }
        TexturePlan::new(self.requested, self.storage_config.image_max_lod)
    }
}

} // verus!
