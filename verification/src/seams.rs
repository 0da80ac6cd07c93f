//! Why stitched tiles meet: after both passes over tiles of one mesh
//! resolution, two tiles that share an edge hold the same heights along it.

use crate::gridsquare::{lemma_sample_on_vertex, TileView};
use crate::terraingrid::{
    all_wf, distinct_coords, far_stitched, find_tile, first_pass, has_tile_at, is_at,
    is_descending, lemma_descending_is_distinct, lemma_find_tile_some, lemma_sort_descending,
    second_pass, second_pass_step, sort_descending, two_pass,
};
use vstd::prelude::*;

verus! {

/// Every tile has a mesh of `res` cells along a side.
pub open spec fn uniform_mesh(tiles: Seq<TileView>, res: int) -> bool {
    forall|i: int| 0 <= i < tiles.len() ==> (#[trigger] tiles[i]).mesh_resolution() == res
}

/// The two sequences hold tiles of the same shape at the same addresses,
/// place by place.
pub open spec fn same_shapes(a: Seq<TileView>, b: Seq<TileView>) -> bool {
    &&& a.len() == b.len()
    &&& forall|i: int|
        #![trigger a[i]]
        #![trigger b[i]]
        0 <= i < a.len() ==> a[i].coords == b[i].coords && a[i].heights.len()
            == b[i].heights.len() && a[i].wf() == b[i].wf()
}

/// Taking one row from another tile changes no address and no shape.
proof fn lemma_with_row_shape(tile: TileView, y: int, from: TileView)
    requires
        tile.wf(),
        0 <= y <= tile.mesh_resolution(),
    ensures
        tile.with_row(y, from).coords == tile.coords,
        tile.with_row(y, from).heights.len() == tile.heights.len(),
        tile.with_row(y, from).wf(),
        forall|i: int, j: int|
            0 <= i <= tile.mesh_resolution() && 0 <= j <= tile.mesh_resolution() ==> (
            #[trigger] tile.with_row(y, from).heights[i][j]) == (if j == y {
                tile.height_from(from, i, y)
            } else {
                tile.heights[i][j]
            }),
{
    let after = tile.with_row(y, from);
    assert forall|x: int| 0 <= x < after.heights.len() implies (#[trigger] after.heights[x]).len()
        == after.heights.len() by {
        assert(tile.heights[x].len() == tile.heights.len());
    }
}

/// Taking one column from another tile changes no address and no shape.
proof fn lemma_with_column_shape(tile: TileView, x: int, from: TileView)
    requires
        tile.wf(),
        0 <= x <= tile.mesh_resolution(),
    ensures
        tile.with_column(x, from).coords == tile.coords,
        tile.with_column(x, from).heights.len() == tile.heights.len(),
        tile.with_column(x, from).wf(),
        forall|i: int, j: int|
            0 <= i <= tile.mesh_resolution() && 0 <= j <= tile.mesh_resolution() ==> (
            #[trigger] tile.with_column(x, from).heights[i][j]) == (if i == x {
                tile.height_from(from, x, j)
            } else {
                tile.heights[i][j]
            }),
{
    let after = tile.with_column(x, from);
    assert forall|i: int| 0 <= i < after.heights.len() implies (#[trigger] after.heights[i]).len()
        == after.heights.len() by {
        assert(tile.heights[i].len() == tile.heights.len());
    }
}

/// Stitching changes no address and no shape.
pub proof fn lemma_stitched_shape(
    tile: TileView,
    bottom: Option<TileView>,
    right: Option<TileView>,
    top: Option<TileView>,
    left: Option<TileView>,
)
    requires
        tile.wf(),
    ensures
        tile.stitched(bottom, right, top, left).coords == tile.coords,
        tile.stitched(bottom, right, top, left).heights.len() == tile.heights.len(),
        tile.stitched(bottom, right, top, left).wf(),
{
    let res = tile.mesh_resolution();
    let after_bottom = match bottom {
        Some(from) => tile.with_row(res, from),
        None => tile,
    };
    if let Some(from) = bottom {
        lemma_with_row_shape(tile, res, from);
    }
    let after_right = match right {
        Some(from) => after_bottom.with_column(res, from),
        None => after_bottom,
    };
    if let Some(from) = right {
        lemma_with_column_shape(after_bottom, res, from);
    }
    let after_top = match top {
        Some(from) => after_right.with_row(0, from),
        None => after_right,
    };
    if let Some(from) = top {
        lemma_with_row_shape(after_right, 0, from);
    }
    if let Some(from) = left {
        lemma_with_column_shape(after_top, 0, from);
    }
}

/// The heights of a tile after it took its borders of largest `y` and `x`.
proof fn lemma_stitched_far_borders(
    tile: TileView,
    bottom: Option<TileView>,
    right: Option<TileView>,
    i: int,
    j: int,
)
    requires
        tile.wf(),
        0 <= i <= tile.mesh_resolution(),
        0 <= j <= tile.mesh_resolution(),
    ensures
        tile.stitched(bottom, right, None, None).heights[i][j] == (if right is Some && i
            == tile.mesh_resolution() {
            tile.height_from(right->0, i, j)
        } else if bottom is Some && j == tile.mesh_resolution() {
            tile.height_from(bottom->0, i, j)
        } else {
            tile.heights[i][j]
        }),
{
    let res = tile.mesh_resolution();
    let after_bottom = match bottom {
        Some(from) => tile.with_row(res, from),
        None => tile,
    };
    if let Some(from) = bottom {
        lemma_with_row_shape(tile, res, from);
    }
    if let Some(from) = right {
        lemma_with_column_shape(after_bottom, res, from);
        assert(after_bottom.height_from(from, res, j) == tile.height_from(from, res, j));
    }
}

/// The heights of a tile after it took its borders at zero.
proof fn lemma_stitched_near_borders(
    tile: TileView,
    top: Option<TileView>,
    left: Option<TileView>,
    i: int,
    j: int,
)
    requires
        tile.wf(),
        0 <= i <= tile.mesh_resolution(),
        0 <= j <= tile.mesh_resolution(),
    ensures
        tile.stitched(None, None, top, left).heights[i][j] == (if left is Some && i == 0 {
            tile.height_from(left->0, i, j)
        } else if top is Some && j == 0 {
            tile.height_from(top->0, i, j)
        } else {
            tile.heights[i][j]
        }),
{
    let after_top = match top {
        Some(from) => tile.with_row(0, from),
        None => tile,
    };
    if let Some(from) = top {
        lemma_with_row_shape(tile, 0, from);
    }
    if let Some(from) = left {
        lemma_with_column_shape(after_top, 0, from);
        assert(after_top.height_from(from, 0, j) == tile.height_from(from, 0, j));
    }
}

/// The height that a neighbour of the same mesh resolution has at a vertex
/// on the shared edge is the height at its own vertex there. The neighbour
/// lies `dx` cells further along `x` and `dy` cells further along `y`.
proof fn lemma_height_from_neighbour(
    tile: TileView,
    from: TileView,
    dx: int,
    dy: int,
    vx: int,
    vy: int,
)
    requires
        tile.wf(),
        from.wf(),
        from.mesh_resolution() == tile.mesh_resolution(),
        from.coords.x == tile.coords.x + dx,
        from.coords.y == tile.coords.y + dy,
        0 <= vx - dx * tile.mesh_resolution() <= tile.mesh_resolution(),
        0 <= vy - dy * tile.mesh_resolution() <= tile.mesh_resolution(),
    ensures
        tile.height_from(from, vx, vy) == from.heights[vx - dx * tile.mesh_resolution()][vy - dy
            * tile.mesh_resolution()],
{
    let res = tile.mesh_resolution();
    let fx = vx - dx * res;
    let fy = vy - dy * res;
    assert(tile.vertex_x(vx) - from.coords.x * res == fx && tile.vertex_y(vy) - from.coords.y
        * res == fy && res * fx == fx * res && res * fy == fy * res) by (nonlinear_arith)
        requires
            tile.vertex_x(vx) == tile.coords.x * res + vx,
            tile.vertex_y(vy) == tile.coords.y * res + vy,
            from.coords.x == tile.coords.x + dx,
            from.coords.y == tile.coords.y + dy,
            fx == vx - dx * res,
            fy == vy - dy * res,
    ;
    lemma_sample_on_vertex(from, tile.vertex_x(vx), tile.vertex_y(vy), res, fx, fy);
}

/// Tiles of the same shapes as descending tiles are descending.
proof fn lemma_same_shapes_descending(a: Seq<TileView>, b: Seq<TileView>)
    requires
        same_shapes(a, b),
        is_descending(b),
    ensures
        is_descending(a),
{
    assert forall|i: int, j: int| 0 <= i < j < a.len() implies (#[trigger] a[j]).coords.precedes(
        (#[trigger] a[i]).coords,
    ) by {
        assert(b[j].coords.precedes(b[i].coords));
    }
}

/// Looking for an address in two sequences with the same addresses finds a
/// tile in both or in none, and at the same place.
proof fn lemma_find_tile_same_place(a: Seq<TileView>, b: Seq<TileView>, x: int, y: int)
    requires
        same_shapes(a, b),
        is_descending(b),
    ensures
        has_tile_at(a, x, y) == has_tile_at(b, x, y),
        has_tile_at(b, x, y) ==> exists|j: int|
            0 <= j < b.len() && is_at(#[trigger] b[j], x, y) && find_tile(a, x, y) == Some(a[j])
                && find_tile(b, x, y) == Some(b[j]),
        !has_tile_at(b, x, y) ==> find_tile(a, x, y).is_none() && find_tile(b, x, y).is_none(),
{
    lemma_same_shapes_descending(a, b);
    lemma_descending_is_distinct(a);
    lemma_descending_is_distinct(b);
    if has_tile_at(a, x, y) {
        let j = choose|j: int| 0 <= j < a.len() && is_at(#[trigger] a[j], x, y);
        assert(is_at(b[j], x, y));
    }
    if has_tile_at(b, x, y) {
        let j = choose|j: int| 0 <= j < b.len() && is_at(#[trigger] b[j], x, y);
        assert(is_at(a[j], x, y));
        lemma_find_tile_some(a, j, x, y);
        lemma_find_tile_some(b, j, x, y);
    }
}

/// The tile at a known place is what `find_tile` finds at its address, in
/// every sequence of the same shapes.
proof fn lemma_find_in(passed: Seq<TileView>, tiles: Seq<TileView>, j: int, x: int, y: int)
    requires
        same_shapes(passed, tiles),
        is_descending(tiles),
        0 <= j < tiles.len(),
        is_at(tiles[j], x, y),
    ensures
        find_tile(passed, x, y) == Some(passed[j]),
        has_tile_at(passed, x, y),
        has_tile_at(tiles, x, y),
{
    lemma_same_shapes_descending(passed, tiles);
    lemma_descending_is_distinct(passed);
    assert(is_at(passed[j], x, y));
    lemma_find_tile_some(passed, j, x, y);
}

/// The first pass changes no address and no shape.
pub proof fn lemma_first_pass_shapes(tiles: Seq<TileView>)
    requires
        all_wf(tiles),
    ensures
        same_shapes(first_pass(tiles), tiles),
        all_wf(first_pass(tiles)),
{
    let next = first_pass(tiles);
    assert forall|i: int|
        #![trigger next[i]]
        #![trigger tiles[i]]
        0 <= i < next.len() implies next[i].coords == tiles[i].coords && next[i].heights.len()
        == tiles[i].heights.len() && next[i].wf() && tiles[i].wf() by {
        let c = tiles[i].coords;
        assert(tiles[i].wf());
        lemma_stitched_shape(
            tiles[i],
            find_tile(tiles, c.x as int, c.y + 1),
            find_tile(tiles, c.x + 1, c.y as int),
            None,
            None,
        );
    }
}

/// The second pass changes no address and no shape, however far it went.
pub proof fn lemma_second_pass_shapes(tiles: Seq<TileView>, k: nat)
    requires
        all_wf(tiles),
        k <= tiles.len(),
    ensures
        same_shapes(second_pass(tiles, k), tiles),
        all_wf(second_pass(tiles, k)),
    decreases k,
{
    if k > 0 {
        lemma_second_pass_shapes(tiles, (k - 1) as nat);
        let cur = second_pass(tiles, (k - 1) as nat);
        let at = tiles.len() - k;
        let c = cur[at].coords;
        assert(cur[at].wf());
        lemma_stitched_shape(
            cur[at],
            None,
            None,
            find_tile(cur, c.x as int, c.y - 1),
            find_tile(cur, c.x - 1, c.y as int),
        );
        let next = second_pass(tiles, k);
        assert forall|i: int|
            #![trigger next[i]]
            #![trigger tiles[i]]
            0 <= i < next.len() implies next[i].coords == tiles[i].coords && next[i].heights.len()
            == tiles[i].heights.len() && next[i].wf() == tiles[i].wf() by {
            assert(cur[i].coords == tiles[i].coords);
        }
    }
}

/// The second pass leaves a tile as it was until the tile's turn comes,
/// and as the tile's turn made it from then on. The turns go from the last
/// tile to the first.
proof fn lemma_second_pass_turns(tiles: Seq<TileView>, k: nat, i: int)
    requires
        all_wf(tiles),
        k <= tiles.len(),
        0 <= i < tiles.len(),
    ensures
        i < tiles.len() - k ==> second_pass(tiles, k)[i] == tiles[i],
        i >= tiles.len() - k ==> second_pass(tiles, k)[i] == second_pass(
            tiles,
            (tiles.len() - i) as nat,
        )[i],
    decreases k,
{
    if k > 0 {
        lemma_second_pass_turns(tiles, (k - 1) as nat, i);
        lemma_second_pass_shapes(tiles, (k - 1) as nat);
    }
}

/// In the second pass over descending tiles, every tile takes its near
/// borders from neighbours that had their turn already: from what the
/// whole pass leaves of them.
proof fn lemma_second_pass_takes_from_final(tiles: Seq<TileView>, i: int)
    requires
        all_wf(tiles),
        is_descending(tiles),
        0 <= i < tiles.len(),
    ensures
        second_pass(tiles, tiles.len())[i] == tiles[i].stitched(
            None,
            None,
            find_tile(second_pass(tiles, tiles.len()), tiles[i].coords.x as int, tiles[i].coords.y - 1),
            find_tile(second_pass(tiles, tiles.len()), tiles[i].coords.x - 1, tiles[i].coords.y as int),
        ),
{
    let n = tiles.len();
    let done = second_pass(tiles, n);
    let before = (n - i - 1) as nat;
    let cur = second_pass(tiles, before);
    let c = tiles[i].coords;
    lemma_second_pass_turns(tiles, n, i);
    lemma_second_pass_turns(tiles, before, i);
    lemma_second_pass_shapes(tiles, n);
    lemma_second_pass_shapes(tiles, before);
    assert(second_pass(tiles, (n - i) as nat) == second_pass_step(cur, n - (n - i)));
    assert(done[i] == second_pass_step(cur, i)[i]);
    assert(cur[i] == tiles[i]);
    lemma_descending_is_distinct(tiles);
    // The neighbour with the next smaller y.
    lemma_find_tile_same_place(cur, tiles, c.x as int, c.y - 1);
    lemma_find_tile_same_place(done, tiles, c.x as int, c.y - 1);
    if has_tile_at(tiles, c.x as int, c.y - 1) {
        let j = choose|j: int|
            0 <= j < tiles.len() && is_at(#[trigger] tiles[j], c.x as int, c.y - 1) && find_tile(
                cur,
                c.x as int,
                c.y - 1,
            ) == Some(cur[j]);
        lemma_find_in(done, tiles, j, c.x as int, c.y - 1);
        if j < i {
            assert(tiles[i].coords.precedes(tiles[j].coords));
        }
        lemma_second_pass_turns(tiles, n, j);
        lemma_second_pass_turns(tiles, before, j);
    }
    // The neighbour with the next smaller x.
    lemma_find_tile_same_place(cur, tiles, c.x - 1, c.y as int);
    lemma_find_tile_same_place(done, tiles, c.x - 1, c.y as int);
    if has_tile_at(tiles, c.x - 1, c.y as int) {
        let j = choose|j: int|
            0 <= j < tiles.len() && is_at(#[trigger] tiles[j], c.x - 1, c.y as int) && find_tile(
                cur,
                c.x - 1,
                c.y as int,
            ) == Some(cur[j]);
        lemma_find_in(done, tiles, j, c.x - 1, c.y as int);
        if j < i {
            assert(tiles[i].coords.precedes(tiles[j].coords));
        }
        lemma_second_pass_turns(tiles, n, j);
        lemma_second_pass_turns(tiles, before, j);
    }
}

/// What the first pass leaves of descending tiles of one mesh resolution
/// is again descending, well-formed and of that resolution.
proof fn lemma_first_pass_keeps(tiles: Seq<TileView>, res: int)
    requires
        all_wf(tiles),
        is_descending(tiles),
        uniform_mesh(tiles, res),
    ensures
        same_shapes(first_pass(tiles), tiles),
        all_wf(first_pass(tiles)),
        is_descending(first_pass(tiles)),
        uniform_mesh(first_pass(tiles), res),
{
    let done = first_pass(tiles);
    lemma_first_pass_shapes(tiles);
    lemma_same_shapes_descending(done, tiles);
    assert forall|i: int| 0 <= i < done.len() implies (#[trigger] done[i]).mesh_resolution()
        == res by {
        assert(tiles[i].mesh_resolution() == res);
    }
}

/// The height at vertex `(p, q)` of tile `i` after the first pass: on the
/// border of largest `x` that which the neighbour there had at its border
/// zero; else on the border of largest `y` that which the neighbour there
/// had at its border zero; else the tile's own.
proof fn lemma_first_pass_cell(tiles: Seq<TileView>, res: int, i: int, p: int, q: int)
    requires
        all_wf(tiles),
        is_descending(tiles),
        uniform_mesh(tiles, res),
        0 <= i < tiles.len(),
        0 <= p <= res,
        0 <= q <= res,
    ensures
        first_pass(tiles)[i].heights[p][q] == (if p == res && has_tile_at(
            tiles,
            tiles[i].coords.x + 1,
            tiles[i].coords.y as int,
        ) {
            find_tile(tiles, tiles[i].coords.x + 1, tiles[i].coords.y as int)->0.heights[0][q]
        } else if q == res && has_tile_at(tiles, tiles[i].coords.x as int, tiles[i].coords.y + 1) {
            find_tile(tiles, tiles[i].coords.x as int, tiles[i].coords.y + 1)->0.heights[p][0]
        } else {
            tiles[i].heights[p][q]
        }),
{
    let c = tiles[i].coords;
    let tile = tiles[i];
    let below = find_tile(tiles, c.x as int, c.y + 1);
    let right = find_tile(tiles, c.x + 1, c.y as int);
    lemma_find_tile_same_place(tiles, tiles, c.x as int, c.y + 1);
    lemma_find_tile_same_place(tiles, tiles, c.x + 1, c.y as int);
    assert(tile.wf() && tile.mesh_resolution() == res);
    lemma_stitched_far_borders(tile, below, right, p, q);
    if p == res && has_tile_at(tiles, c.x + 1, c.y as int) {
        let j = choose|j: int|
            0 <= j < tiles.len() && is_at(#[trigger] tiles[j], c.x + 1, c.y as int) && find_tile(
                tiles,
                c.x + 1,
                c.y as int,
            ) == Some(tiles[j]);
        assert(tiles[j].wf() && tiles[j].mesh_resolution() == res);
        assert(res - 1 * res == 0) by (nonlinear_arith);
        assert(q - 0 * res == q) by (nonlinear_arith);
        lemma_height_from_neighbour(tile, tiles[j], 1, 0, p, q);
    } else if q == res && has_tile_at(tiles, c.x as int, c.y + 1) {
        let j = choose|j: int|
            0 <= j < tiles.len() && is_at(#[trigger] tiles[j], c.x as int, c.y + 1) && find_tile(
                tiles,
                c.x as int,
                c.y + 1,
            ) == Some(tiles[j]);
        assert(tiles[j].wf() && tiles[j].mesh_resolution() == res);
        assert(res - 1 * res == 0) by (nonlinear_arith);
        assert(p - 0 * res == p) by (nonlinear_arith);
        lemma_height_from_neighbour(tile, tiles[j], 0, 1, p, q);
    }
}

/// The height at vertex `(p, q)` of tile `i` after the second pass: on
/// border zero along `x` that which the neighbour there holds at its
/// border of largest `x`, after the pass; else on border zero along `y`
/// that which the neighbour there holds at its border of largest `y`,
/// after the pass; else the tile's own.
proof fn lemma_second_pass_cell(tiles: Seq<TileView>, res: int, i: int, p: int, q: int)
    requires
        all_wf(tiles),
        is_descending(tiles),
        uniform_mesh(tiles, res),
        0 <= i < tiles.len(),
        0 <= p <= res,
        0 <= q <= res,
    ensures
        second_pass(tiles, tiles.len())[i].heights[p][q] == (if p == 0 && has_tile_at(
            tiles,
            tiles[i].coords.x - 1,
            tiles[i].coords.y as int,
        ) {
            find_tile(
                second_pass(tiles, tiles.len()),
                tiles[i].coords.x - 1,
                tiles[i].coords.y as int,
            )->0.heights[res][q]
        } else if q == 0 && has_tile_at(tiles, tiles[i].coords.x as int, tiles[i].coords.y - 1) {
            find_tile(
                second_pass(tiles, tiles.len()),
                tiles[i].coords.x as int,
                tiles[i].coords.y - 1,
            )->0.heights[p][res]
        } else {
            tiles[i].heights[p][q]
        }),
{
    let done = second_pass(tiles, tiles.len());
    let c = tiles[i].coords;
    let tile = tiles[i];
    lemma_second_pass_shapes(tiles, tiles.len());
    lemma_second_pass_takes_from_final(tiles, i);
    let above = find_tile(done, c.x as int, c.y - 1);
    let left = find_tile(done, c.x - 1, c.y as int);
    lemma_find_tile_same_place(done, tiles, c.x as int, c.y - 1);
    lemma_find_tile_same_place(done, tiles, c.x - 1, c.y as int);
    assert(tile.wf() && tile.mesh_resolution() == res);
    lemma_stitched_near_borders(tile, above, left, p, q);
    if p == 0 && has_tile_at(tiles, c.x - 1, c.y as int) {
        let j = choose|j: int|
            0 <= j < tiles.len() && is_at(#[trigger] tiles[j], c.x - 1, c.y as int) && find_tile(
                done,
                c.x - 1,
                c.y as int,
            ) == Some(done[j]);
        assert(tiles[j].wf() && tiles[j].mesh_resolution() == res);
        assert(done[j].wf() && done[j].heights.len() == tiles[j].heights.len());
        assert(done[j].coords == tiles[j].coords);
        assert(0 - (-1) * res == res) by (nonlinear_arith);
        assert(q - 0 * res == q) by (nonlinear_arith);
        lemma_height_from_neighbour(tile, done[j], -1, 0, p, q);
    } else if q == 0 && has_tile_at(tiles, c.x as int, c.y - 1) {
        let j = choose|j: int|
            0 <= j < tiles.len() && is_at(#[trigger] tiles[j], c.x as int, c.y - 1) && find_tile(
                done,
                c.x as int,
                c.y - 1,
            ) == Some(done[j]);
        assert(tiles[j].wf() && tiles[j].mesh_resolution() == res);
        assert(done[j].wf() && done[j].heights.len() == tiles[j].heights.len());
        assert(done[j].coords == tiles[j].coords);
        assert(0 - (-1) * res == res) by (nonlinear_arith);
        assert(p - 0 * res == p) by (nonlinear_arith);
        lemma_height_from_neighbour(tile, done[j], 0, -1, p, q);
    }
}

/// What both passes leave of descending tiles of one mesh resolution is
/// again descending, well-formed and of that resolution.
pub proof fn lemma_two_pass_keeps(tiles: Seq<TileView>, res: int)
    requires
        all_wf(tiles),
        is_descending(tiles),
        uniform_mesh(tiles, res),
    ensures
        same_shapes(two_pass(tiles), tiles),
        all_wf(two_pass(tiles)),
        is_descending(two_pass(tiles)),
        uniform_mesh(two_pass(tiles), res),
{
    let middle = first_pass(tiles);
    lemma_first_pass_keeps(tiles, res);
    lemma_second_pass_shapes(middle, middle.len());
    let done = two_pass(tiles);
    assert forall|i: int|
        #![trigger done[i]]
        #![trigger tiles[i]]
        0 <= i < done.len() implies done[i].coords == tiles[i].coords && done[i].heights.len()
        == tiles[i].heights.len() && done[i].wf() == tiles[i].wf() by {
        assert(middle[i].coords == tiles[i].coords);
    }
    lemma_same_shapes_descending(done, tiles);
    assert forall|i: int| 0 <= i < done.len() implies (#[trigger] done[i]).mesh_resolution()
        == res by {
        assert(tiles[i].mesh_resolution() == res);
    }
}

/// After stitching, tiles side by side meet.
///
/// Take tiles of one mesh resolution, in descending order of their
/// addresses, and stitch them in two passes. Let tile `b` lie next to tile
/// `a` on the side of larger `x`. Then at every vertex of the edge that
/// the two share, tile `a` holds the height that tile `b` holds there, which
/// is also the height that sampling tile `b` at the position of the vertex
/// gives.
pub proof fn lemma_side_by_side_tiles_meet(tiles: Seq<TileView>, res: int, a: int, b: int, k: int)
    requires
        all_wf(tiles),
        is_descending(tiles),
        uniform_mesh(tiles, res),
        0 <= a < tiles.len(),
        0 <= b < tiles.len(),
        tiles[b].coords.x == tiles[a].coords.x + 1,
        tiles[b].coords.y == tiles[a].coords.y,
        0 <= k <= res,
    ensures
        two_pass(tiles)[a].heights[res][k] == two_pass(tiles)[b].heights[0][k],
        two_pass(tiles)[a].heights[res][k] == two_pass(tiles)[a].height_from(
            two_pass(tiles)[b],
            res,
            k,
        ),
{
    let middle = first_pass(tiles);
    let done = two_pass(tiles);
    let c = tiles[a].coords;
    lemma_first_pass_keeps(tiles, res);
    lemma_two_pass_keeps(tiles, res);
    assert(tiles[a].wf() && tiles[a].mesh_resolution() == res);
    assert(middle[a].coords == c && middle[b].coords == tiles[b].coords);
    lemma_second_pass_shapes(middle, middle.len());
    // Tile b took its border zero from what the pass left of tile a.
    lemma_second_pass_cell(middle, res, b, 0, k);
    lemma_find_in(middle, middle, a, c.x as int, c.y as int);
    lemma_find_in(done, middle, a, c.x as int, c.y as int);
    assert(done[b].heights[0][k] == done[a].heights[res][k]);
    assert(done[a].coords == c && done[b].coords == tiles[b].coords);
    assert(done[a].wf() && done[b].wf());
    assert(done[a].mesh_resolution() == res && done[b].mesh_resolution() == res);
    assert(res - 1 * res == 0) by (nonlinear_arith);
    assert(k - 0 * res == k) by (nonlinear_arith);
    lemma_height_from_neighbour(done[a], done[b], 1, 0, res, k);
}

/// After stitching, tiles one above the other meet.
///
/// Take tiles of one mesh resolution, in descending order of their
/// addresses, and stitch them in two passes. Let tile `b` lie next to tile
/// `a` on the side of larger `y`. Then at every vertex of the edge that
/// the two share, tile `a` holds the height that tile `b` holds there, which
/// is also the height that sampling tile `b` at the position of the vertex
/// gives.
pub proof fn lemma_stacked_tiles_meet(tiles: Seq<TileView>, res: int, a: int, b: int, k: int)
    requires
        all_wf(tiles),
        is_descending(tiles),
        uniform_mesh(tiles, res),
        0 <= a < tiles.len(),
        0 <= b < tiles.len(),
        tiles[b].coords.x == tiles[a].coords.x,
        tiles[b].coords.y == tiles[a].coords.y + 1,
        0 <= k <= res,
    ensures
        two_pass(tiles)[a].heights[k][res] == two_pass(tiles)[b].heights[k][0],
        two_pass(tiles)[a].heights[k][res] == two_pass(tiles)[a].height_from(
            two_pass(tiles)[b],
            k,
            res,
        ),
{
    let middle = first_pass(tiles);
    let done = two_pass(tiles);
    let c = tiles[a].coords;
    let d = tiles[b].coords;
    lemma_first_pass_keeps(tiles, res);
    lemma_two_pass_keeps(tiles, res);
    assert(tiles[a].wf() && tiles[a].mesh_resolution() == res);
    assert(middle[a].coords == c && middle[b].coords == d);
    lemma_second_pass_shapes(middle, middle.len());
    // Tile b took its row zero from what the pass left of tile a, but for
    // the corner that its column zero owns.
    lemma_second_pass_cell(middle, res, b, k, 0);
    lemma_find_in(middle, middle, a, d.x as int, d.y - 1);
    lemma_find_in(done, middle, a, d.x as int, d.y - 1);
    if k == 0 && has_tile_at(middle, d.x - 1, d.y as int) {
        // The tile beside b took that corner from the tile beside a, or
        // kept what the first pass gave it.
        let beside_b = choose|j: int|
            0 <= j < middle.len() && is_at(#[trigger] middle[j], d.x - 1, d.y as int);
        assert(is_at(tiles[beside_b], d.x - 1, d.y as int));
        lemma_find_in(done, middle, beside_b, d.x - 1, d.y as int);
        assert(done[b].heights[0][0] == done[beside_b].heights[res][0]);
        lemma_second_pass_cell(middle, res, beside_b, res, 0);
        lemma_second_pass_cell(middle, res, a, 0, res);
        if has_tile_at(middle, c.x - 1, c.y as int) {
            let beside_a = choose|j: int|
                0 <= j < middle.len() && is_at(#[trigger] middle[j], c.x - 1, c.y as int);
            lemma_find_in(done, middle, beside_a, c.x - 1, c.y as int);
            assert(done[beside_b].heights[res][0] == done[beside_a].heights[res][res]);
            assert(done[a].heights[0][res] == done[beside_a].heights[res][res]);
        } else {
            // Both corners came from tile b in the first pass.
            lemma_first_pass_cell(tiles, res, beside_b, res, 0);
            lemma_find_in(tiles, tiles, b, d.x as int, d.y as int);
            lemma_first_pass_cell(tiles, res, a, 0, res);
            assert(middle[beside_b].heights[res][0] == tiles[b].heights[0][0]);
            assert(middle[a].heights[0][res] == tiles[b].heights[0][0]);
        }
    }
    assert(done[a].heights[k][res] == done[b].heights[k][0]);
    assert(done[a].coords == c && done[b].coords == d);
    assert(done[a].wf() && done[b].wf());
    assert(done[a].mesh_resolution() == res && done[b].mesh_resolution() == res);
    assert(res - 1 * res == 0) by (nonlinear_arith);
    assert(k - 0 * res == k) by (nonlinear_arith);
    lemma_height_from_neighbour(done[a], done[b], 0, 1, k, res);
}

/// Sorting well-formed tiles of one mesh resolution and of distinct
/// addresses gives descending, well-formed tiles of that resolution.
pub proof fn lemma_sorted_tiles_keep(tiles: Seq<TileView>, res: int)
    requires
        all_wf(tiles),
        distinct_coords(tiles),
        uniform_mesh(tiles, res),
    ensures
        sort_descending(tiles).len() == tiles.len(),
        is_descending(sort_descending(tiles)),
        all_wf(sort_descending(tiles)),
        uniform_mesh(sort_descending(tiles), res),
{
    let sorted = sort_descending(tiles);
    lemma_sort_descending(tiles);
    assert forall|i: int| 0 <= i < sorted.len() implies (#[trigger] sorted[i]).wf() && sorted[i].mesh_resolution()
        == res by {
        assert(sorted.contains(sorted[i]));
        assert(tiles.contains(sorted[i]));
        let j = choose|j: int| 0 <= j < tiles.len() && tiles[j] == sorted[i];
        assert(tiles[j].wf() && tiles[j].mesh_resolution() == res);
    }
}

/// What a terrain grid holds of tiles side by side.
///
/// Let tiles of one mesh resolution and of distinct addresses be sorted
/// and stitched, as a terrain grid does it. Where the grid then holds tile
/// `b` next to tile `a` on the side of larger `x`, the two hold the same
/// heights along the edge that they share.
pub proof fn lemma_grid_meets_side_by_side(tiles: Seq<TileView>, res: int, a: int, b: int, k: int)
    requires
        all_wf(tiles),
        distinct_coords(tiles),
        uniform_mesh(tiles, res),
        0 <= a < tiles.len(),
        0 <= b < tiles.len(),
        two_pass(sort_descending(tiles))[b].coords.x == two_pass(sort_descending(tiles))[a].coords.x
            + 1,
        two_pass(sort_descending(tiles))[b].coords.y == two_pass(
            sort_descending(tiles),
        )[a].coords.y,
        0 <= k <= res,
    ensures
        two_pass(sort_descending(tiles))[a].heights[res][k] == two_pass(
            sort_descending(tiles),
        )[b].heights[0][k],
        two_pass(sort_descending(tiles))[a].heights[res][k] == two_pass(
            sort_descending(tiles),
        )[a].height_from(two_pass(sort_descending(tiles))[b], res, k),
{
    let sorted = sort_descending(tiles);
    lemma_sorted_tiles_keep(tiles, res);
    lemma_two_pass_keeps(sorted, res);
    assert(two_pass(sorted)[a].coords == sorted[a].coords);
    assert(two_pass(sorted)[b].coords == sorted[b].coords);
    lemma_side_by_side_tiles_meet(sorted, res, a, b, k);
}

/// What a terrain grid holds of tiles one above the other.
///
/// Let tiles of one mesh resolution and of distinct addresses be sorted
/// and stitched, as a terrain grid does it. Where the grid then holds tile
/// `b` next to tile `a` on the side of larger `y`, the two hold the same
/// heights along the edge that they share.
pub proof fn lemma_grid_meets_stacked(tiles: Seq<TileView>, res: int, a: int, b: int, k: int)
    requires
        all_wf(tiles),
        distinct_coords(tiles),
        uniform_mesh(tiles, res),
        0 <= a < tiles.len(),
        0 <= b < tiles.len(),
        two_pass(sort_descending(tiles))[b].coords.x == two_pass(
            sort_descending(tiles),
        )[a].coords.x,
        two_pass(sort_descending(tiles))[b].coords.y == two_pass(sort_descending(tiles))[a].coords.y
            + 1,
        0 <= k <= res,
    ensures
        two_pass(sort_descending(tiles))[a].heights[k][res] == two_pass(
            sort_descending(tiles),
        )[b].heights[k][0],
        two_pass(sort_descending(tiles))[a].heights[k][res] == two_pass(
            sort_descending(tiles),
        )[a].height_from(two_pass(sort_descending(tiles))[b], k, res),
{
    let sorted = sort_descending(tiles);
    lemma_sorted_tiles_keep(tiles, res);
    lemma_two_pass_keeps(sorted, res);
    assert(two_pass(sorted)[a].coords == sorted[a].coords);
    assert(two_pass(sorted)[b].coords == sorted[b].coords);
    lemma_stacked_tiles_meet(sorted, res, a, b, k);
}

/// The tiles after tile `i` alone took its borders of largest `y` and `x`
/// from its neighbours as they are in `tiles`: one call of the stitching of
/// a single tile.
pub open spec fn far_step(tiles: Seq<TileView>, i: int) -> Seq<TileView> {
    tiles.update(i, far_stitched(tiles, i))
}

/// The tiles after the last `n` of them went through `far_step`, one
/// after the other from the last tile towards the first.
pub open spec fn first_pass_in_turns(tiles: Seq<TileView>, n: nat) -> Seq<TileView>
    decreases n,
{
    if n == 0 {
        tiles
    } else {
        far_step(first_pass_in_turns(tiles, (n - 1) as nat), tiles.len() - n)
    }
}

/// Where the first pass in turns stands after `k` turns: the tiles whose
/// turn is yet to come are as they were, the others as the whole pass
/// leaves them.
proof fn lemma_first_pass_in_turns(tiles: Seq<TileView>, k: nat)
    requires
        all_wf(tiles),
        is_descending(tiles),
        k <= tiles.len(),
    ensures
        first_pass_in_turns(tiles, k).len() == tiles.len(),
        forall|i: int|
            0 <= i < tiles.len() - k ==> (#[trigger] first_pass_in_turns(tiles, k)[i]) == tiles[i],
        forall|i: int|
            tiles.len() - k <= i < tiles.len() ==> (#[trigger] first_pass_in_turns(tiles, k)[i])
                == far_stitched(tiles, i),
    decreases k,
{
    if k > 0 {
        lemma_first_pass_in_turns(tiles, (k - 1) as nat);
        let cur = first_pass_in_turns(tiles, (k - 1) as nat);
        let at = tiles.len() - k;
        let c = tiles[at].coords;
        lemma_first_pass_shapes(tiles);
        let whole = first_pass(tiles);
        assert forall|i: int|
            #![trigger cur[i]]
            #![trigger tiles[i]]
            0 <= i < cur.len() implies cur[i].coords == tiles[i].coords && cur[i].heights.len()
            == tiles[i].heights.len() && cur[i].wf() == tiles[i].wf() by {
            if i >= at + 1 {
                assert(cur[i] == far_stitched(tiles, i));
                assert(whole[i] == far_stitched(tiles, i));
                assert(whole[i].coords == tiles[i].coords);
            }
        }
        assert(cur[at] == tiles[at]);
        lemma_descending_is_distinct(tiles);
        lemma_find_tile_same_place(cur, tiles, c.x as int, c.y + 1);
        if has_tile_at(tiles, c.x as int, c.y + 1) {
            let j = choose|j: int|
                0 <= j < tiles.len() && is_at(#[trigger] tiles[j], c.x as int, c.y + 1) && find_tile(
                    cur,
                    c.x as int,
                    c.y + 1,
                ) == Some(cur[j]) && find_tile(tiles, c.x as int, c.y + 1) == Some(tiles[j]);
            if j > at {
                assert(tiles[j].coords.precedes(tiles[at].coords));
            }
            assert(cur[j] == tiles[j]);
        }
        lemma_find_tile_same_place(cur, tiles, c.x + 1, c.y as int);
        if has_tile_at(tiles, c.x + 1, c.y as int) {
            let j = choose|j: int|
                0 <= j < tiles.len() && is_at(#[trigger] tiles[j], c.x + 1, c.y as int) && find_tile(
                    cur,
                    c.x + 1,
                    c.y as int,
                ) == Some(cur[j]) && find_tile(tiles, c.x + 1, c.y as int) == Some(tiles[j]);
            if j > at {
                assert(tiles[j].coords.precedes(tiles[at].coords));
            }
            assert(cur[j] == tiles[j]);
        }
        assert(far_stitched(cur, at) == far_stitched(tiles, at));
    }
}

/// The first pass is what single calls give, one tile after the other from
/// the smallest address to the largest: among descending tiles, stitching
/// the far borders of the last tile, then of the one before it, and so on
/// to the first, leaves every tile with what it takes from its neighbours
/// as they were before the pass. With `second_pass`, which goes the same
/// way, both passes are twice as many single calls as there are tiles.
pub proof fn lemma_first_pass_is_single_calls(tiles: Seq<TileView>)
    requires
        all_wf(tiles),
        is_descending(tiles),
    ensures
        first_pass_in_turns(tiles, tiles.len()) == first_pass(tiles),
        two_pass(tiles) == second_pass(first_pass_in_turns(tiles, tiles.len()), tiles.len()),
{
    lemma_first_pass_in_turns(tiles, tiles.len());
    assert(first_pass_in_turns(tiles, tiles.len()) =~= first_pass(tiles));
}

} // verus!
