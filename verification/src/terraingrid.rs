//! The working set of tiles around a viewpoint, stitched so that meshes meet.
//!
//! Stitching runs over the tiles twice. The first run takes each tile's
//! borders of largest `y` and `x` from the neighbours there, as the
//! neighbours were before any tile was rewritten. The second run takes the
//! borders at zero from the neighbours on the other sides, as the second
//! run has left them: it goes from the smallest address to the largest, so
//! that those neighbours have had their turn. The order is part of the
//! rule: what a border takes depends on which neighbour was rewritten
//! before.

use crate::camera::Camera;
use crate::camera::within_limit;
use crate::coords::{lemma_min_dist_within_cells, radius_cells, GridCoords};
use crate::gridsquare::{GridSquare, TileView};
use vstd::prelude::*;

verus! {

/// Why a set of tiles cannot be stitched.
#[derive(Debug, Copy, Clone, PartialEq, Eq, Structural)]
pub enum TerrainError {
    /// Two tiles cover the same cell.
    DuplicateTile,
}

/// A tile to load for a view: the cell, and the ground resolution in
/// millimetres per pixel that the camera resolves there, if it is known.
#[derive(Debug, Copy, Clone, PartialEq, Eq, Structural)]
pub struct TileRequest {
    pub coords: GridCoords,
    pub resolution_mm: Option<u64>,
}

/// The tiles of one view, stitched, from the largest address to the smallest.
#[derive(Debug)]
pub struct TerrainGrid {
    tiles: Vec<GridSquare>,
}

/// The views of a sequence of tiles.
pub open spec fn tile_views(tiles: Seq<GridSquare>) -> Seq<TileView> {
    Seq::new(tiles.len(), |i: int| tiles[i]@)
}

/// No two tiles cover the same cell.
pub open spec fn distinct_coords(tiles: Seq<TileView>) -> bool {
    forall|i: int, j: int|
        0 <= i < j < tiles.len() ==> (#[trigger] tiles[i]).coords != (#[trigger] tiles[j]).coords
}

/// The tiles go from larger to smaller addresses, none twice: each tile's
/// address precedes that of every tile before it.
pub open spec fn is_descending(tiles: Seq<TileView>) -> bool {
    forall|i: int, j: int|
        0 <= i < j < tiles.len() ==> (#[trigger] tiles[j]).coords.precedes(
            (#[trigger] tiles[i]).coords,
        )
}

/// The descending sequence `sorted` with `tile` put in its place: behind
/// every tile whose address does not precede its own.
pub open spec fn insert_descending(sorted: Seq<TileView>, tile: TileView) -> Seq<TileView>
    decreases sorted.len(),
{
    if sorted.len() > 0 && sorted.last().coords.precedes(tile.coords) {
        insert_descending(sorted.drop_last(), tile).push(sorted.last())
    } else {
        sorted.push(tile)
    }
}

/// The tiles put in descending order of their addresses.
pub open spec fn sort_descending(tiles: Seq<TileView>) -> Seq<TileView>
    decreases tiles.len(),
{
    if tiles.len() == 0 {
        tiles
    } else {
        insert_descending(sort_descending(tiles.drop_last()), tiles.last())
    }
}

/// A tile of the sequence lies at the address `(x, y)`.
pub open spec fn has_tile_at(tiles: Seq<TileView>, x: int, y: int) -> bool {
    exists|i: int| 0 <= i < tiles.len() && is_at(#[trigger] tiles[i], x, y)
}

/// The tile lies at the address `(x, y)`.
pub open spec fn is_at(tile: TileView, x: int, y: int) -> bool {
    tile.coords.x == x && tile.coords.y == y
}

/// The tile of the sequence at the address `(x, y)`, if there is one.
pub open spec fn find_tile(tiles: Seq<TileView>, x: int, y: int) -> Option<TileView> {
    if has_tile_at(tiles, x, y) {
        Some(tiles[choose|i: int| 0 <= i < tiles.len() && is_at(#[trigger] tiles[i], x, y)])
    } else {
        None
    }
}

/// Tile `i` with its borders of largest `y` and `x` taken from the
/// neighbours at the next larger `y` and `x`, as they are in `tiles`.
pub open spec fn far_stitched(tiles: Seq<TileView>, i: int) -> TileView {
    let c = tiles[i].coords;
    tiles[i].stitched(
        find_tile(tiles, c.x as int, c.y + 1),
        find_tile(tiles, c.x + 1, c.y as int),
        None,
        None,
    )
}

/// The tiles after the first pass: every tile took its borders of largest
/// `y` and `x` from its neighbours as they were before the pass.
pub open spec fn first_pass(tiles: Seq<TileView>) -> Seq<TileView> {
    Seq::new(tiles.len(), |i: int| far_stitched(tiles, i))
}

/// The tiles after tile `i` took its borders at zero from the neighbours at
/// the next smaller `y` and `x`, as they are in `tiles`.
pub open spec fn second_pass_step(tiles: Seq<TileView>, i: int) -> Seq<TileView> {
    let c = tiles[i].coords;
    tiles.update(
        i,
        tiles[i].stitched(
            None,
            None,
            find_tile(tiles, c.x as int, c.y - 1),
            find_tile(tiles, c.x - 1, c.y as int),
        ),
    )
}

/// The tiles after the last `n` of them went through `second_pass_step`,
/// one after the other from the last tile towards the first. Among
/// descending tiles the last is the one of smallest address.
pub open spec fn second_pass(tiles: Seq<TileView>, n: nat) -> Seq<TileView>
    decreases n,
{
    if n == 0 {
        tiles
    } else {
        second_pass_step(second_pass(tiles, (n - 1) as nat), tiles.len() - n)
    }
}

/// The tiles after both passes of stitching.
pub open spec fn two_pass(tiles: Seq<TileView>) -> Seq<TileView> {
    second_pass(first_pass(tiles), tiles.len())
}

/// Every tile is a well-formed tile.
pub open spec fn all_wf(tiles: Seq<TileView>) -> bool {
    forall|i: int| 0 <= i < tiles.len() ==> (#[trigger] tiles[i]).wf()
}

/// The two sequences hold tiles at the same addresses, place by place.
pub open spec fn same_addresses(a: Seq<TileView>, b: Seq<TileView>) -> bool {
    &&& a.len() == b.len()
    &&& forall|i: int|
        #![trigger a[i]]
        #![trigger b[i]]
        0 <= i < a.len() ==> a[i].coords == b[i].coords
}

/// The address `(ax, ay)` comes before `(bx, by)` when addresses are ordered
/// by `x`, then by `y`.
pub open spec fn address_precedes(ax: int, ay: int, bx: int, by: int) -> bool {
    ax < bx || (ax == bx && ay < by)
}

/// The addresses go from larger to smaller, none twice.
pub open spec fn addresses_descending(addresses: Seq<GridCoords>) -> bool {
    forall|i: int, j: int|
        0 <= i < j < addresses.len() ==> (#[trigger] addresses[j]).precedes(
            #[trigger] addresses[i],
        )
}

/// Putting a tile into a descending sequence places it at the one index
/// where everything behind it precedes it and nothing before it does.
proof fn lemma_insert_descending_at(sorted: Seq<TileView>, tile: TileView, at: int)
    requires
        0 <= at <= sorted.len(),
        forall|k: int| at <= k < sorted.len() ==> (#[trigger] sorted[k]).coords.precedes(tile.coords),
        at > 0 ==> !sorted[at - 1].coords.precedes(tile.coords),
    ensures
        insert_descending(sorted, tile) == sorted.insert(at, tile),
    decreases sorted.len(),
{
    if sorted.len() > 0 && sorted.last().coords.precedes(tile.coords) {
        assert(at < sorted.len());
        lemma_insert_descending_at(sorted.drop_last(), tile, at);
        assert(sorted.drop_last().insert(at, tile).push(sorted.last()) =~= sorted.insert(at, tile));
    } else {
        if at < sorted.len() {
            assert(sorted[sorted.len() - 1].coords.precedes(tile.coords));
        }
        assert(sorted.push(tile) =~= sorted.insert(at, tile));
    }
}

/// Where a tile at `(x, y)` is known, `find_tile` finds it, as long as no
/// two tiles share an address.
pub proof fn lemma_find_tile_some(tiles: Seq<TileView>, j: int, x: int, y: int)
    requires
        distinct_coords(tiles),
        0 <= j < tiles.len(),
        is_at(tiles[j], x, y),
    ensures
        find_tile(tiles, x, y) == Some(tiles[j]),
{
    let k = choose|i: int| 0 <= i < tiles.len() && is_at(#[trigger] tiles[i], x, y);
    if k < j {
        assert(tiles[k].coords != tiles[j].coords);
    } else if j < k {
        assert(tiles[j].coords != tiles[k].coords);
    }
}

/// Descending addresses are distinct.
pub proof fn lemma_descending_is_distinct(tiles: Seq<TileView>)
    requires
        is_descending(tiles),
    ensures
        distinct_coords(tiles),
{
    assert forall|i: int, j: int| 0 <= i < j < tiles.len() implies (#[trigger] tiles[i]).coords != (
    #[trigger] tiles[j]).coords by {
        assert(tiles[j].coords.precedes(tiles[i].coords));
    }
}

/// The place of the address `(x, y)` among descending addresses, if it is
/// among them.
fn find_index(addresses: &Vec<GridCoords>, x: i64, y: i64) -> (found: Option<usize>)
    requires
        addresses_descending(addresses@),
    ensures
        match found {
            Some(j) => j < addresses.len() && addresses[j as int].x == x && addresses[j as int].y
                == y,
            None => forall|k: int|
                0 <= k < addresses.len() ==> !((#[trigger] addresses[k]).x == x && addresses[k].y
                    == y),
        },
{
    let mut lo: usize = 0;
    let mut hi: usize = addresses.len();
    while lo < hi
        invariant
            0 <= lo <= hi <= addresses.len(),
            addresses_descending(addresses@),
            forall|k: int|
                0 <= k < lo ==> address_precedes(
                    x as int,
                    y as int,
                    (#[trigger] addresses[k]).x as int,
                    addresses[k].y as int,
                ),
            forall|k: int|
                hi <= k < addresses.len() ==> address_precedes(
                    (#[trigger] addresses[k]).x as int,
                    addresses[k].y as int,
                    x as int,
                    y as int,
                ),
        decreases hi - lo,
    {
        let mid: usize = lo + (hi - lo) / 2;
        let here = addresses[mid];
        let hx: i64 = here.x as i64;
        let hy: i64 = here.y as i64;
        if hx == x && hy == y {
            return Some(mid);
        }
        if x < hx || (x == hx && y < hy) {
            proof {
                assert forall|k: int| 0 <= k < mid + 1 implies address_precedes(
                    x as int,
                    y as int,
                    (#[trigger] addresses[k]).x as int,
                    addresses[k].y as int,
                ) by {
                    if k < mid {
                        assert(addresses[mid as int].precedes(addresses[k]));
                    }
                }
            }
            lo = mid + 1;
        } else {
            proof {
                assert forall|k: int| mid <= k < addresses.len() implies address_precedes(
                    (#[trigger] addresses[k]).x as int,
                    addresses[k].y as int,
                    x as int,
                    y as int,
                ) by {
                    if k > mid {
                        assert(addresses[k].precedes(addresses[mid as int]));
                    }
                }
            }
            hi = mid;
        }
    }
    None
}

/// Tile `i` takes its borders of largest `y` and `x` from the tiles at `b`
/// and `r`, which stand before it.
fn stitch_first(tiles: &mut Vec<GridSquare>, i: usize, b: Option<usize>, r: Option<usize>)
    requires
        i < old(tiles).len(),
        b matches Some(k) ==> k < i,
        r matches Some(k) ==> k < i,
    ensures
        final(tiles).len() == old(tiles).len(),
        forall|k: int| 0 <= k < old(tiles).len() && k != i ==> final(tiles)[k] == old(tiles)[k],
        final(tiles)[i as int]@ == old(tiles)[i as int]@.stitched(
            match b {
                Some(k) => Some(old(tiles)[k as int]@),
                None => None,
            },
            match r {
                Some(k) => Some(old(tiles)[k as int]@),
                None => None,
            },
            None,
            None,
        ),
{
    let (before, after) = tiles.as_mut_slice().split_at_mut(i);
    let tile = after.first_mut().unwrap();
    let bottom: Option<&GridSquare> = match b {
        Some(k) => Some(&before[k]),
        None => None,
    };
    let right: Option<&GridSquare> = match r {
        Some(k) => Some(&before[k]),
        None => None,
    };
    tile.cleanup_borders(bottom, right, None, None);
}

/// Tile `i` takes its borders at zero from the tiles at `a` and `l`, which
/// stand behind it.
fn stitch_second(tiles: &mut Vec<GridSquare>, i: usize, a: Option<usize>, l: Option<usize>)
    requires
        i < old(tiles).len(),
        a matches Some(k) ==> i < k < old(tiles).len(),
        l matches Some(k) ==> i < k < old(tiles).len(),
    ensures
        final(tiles).len() == old(tiles).len(),
        forall|k: int| 0 <= k < old(tiles).len() && k != i ==> final(tiles)[k] == old(tiles)[k],
        final(tiles)[i as int]@ == old(tiles)[i as int]@.stitched(
            None,
            None,
            match a {
                Some(k) => Some(old(tiles)[k as int]@),
                None => None,
            },
            match l {
                Some(k) => Some(old(tiles)[k as int]@),
                None => None,
            },
        ),
{
    let (before, after) = tiles.as_mut_slice().split_at_mut(i + 1);
    let tile = before.last_mut().unwrap();
    let top: Option<&GridSquare> = match a {
        Some(k) => Some(&after[k - i - 1]),
        None => None,
    };
    let left: Option<&GridSquare> = match l {
        Some(k) => Some(&after[k - i - 1]),
        None => None,
    };
    tile.cleanup_borders(None, None, top, left);
}

/// An address either precedes another, or follows it, or is the same.
proof fn lemma_address_order(a: GridCoords, b: GridCoords)
    ensures
        a.precedes(b) || b.precedes(a) || a == b,
        !(a.precedes(b) && b.precedes(a)),
        !a.precedes(a),
{
}

/// The place that `insert_descending` gives a tile of address `c` among
/// descending tiles: behind the last tile whose address does not precede `c`.
pub open spec fn place_descending(sorted: Seq<TileView>, c: GridCoords) -> int
    decreases sorted.len(),
{
    if sorted.len() > 0 && sorted.last().coords.precedes(c) {
        place_descending(sorted.drop_last(), c)
    } else {
        sorted.len() as int
    }
}

/// Everything from the place on precedes the address, and the tile just
/// before the place does not.
proof fn lemma_place_descending(sorted: Seq<TileView>, c: GridCoords)
    ensures
        0 <= place_descending(sorted, c) <= sorted.len(),
        forall|k: int|
            place_descending(sorted, c) <= k < sorted.len() ==> (#[trigger] sorted[k]).coords.precedes(
                c,
            ),
        place_descending(sorted, c) > 0 ==> !sorted[place_descending(sorted, c) - 1].coords.precedes(
            c,
        ),
    decreases sorted.len(),
{
    if sorted.len() > 0 && sorted.last().coords.precedes(c) {
        let head = sorted.drop_last();
        lemma_place_descending(head, c);
        let at = place_descending(head, c);
        assert forall|k: int| at <= k < sorted.len() implies (#[trigger] sorted[k]).coords.precedes(
            c,
        ) by {
            if k < head.len() {
                assert(head[k].coords.precedes(c));
            }
        }
        if at > 0 {
            assert(head[at - 1] == sorted[at - 1]);
        }
    }
}

/// Sorting keeps every tile and adds none, and tiles with distinct
/// addresses come out in descending order.
pub proof fn lemma_sort_descending(tiles: Seq<TileView>)
    ensures
        sort_descending(tiles).len() == tiles.len(),
        forall|t: TileView|
            #![trigger sort_descending(tiles).contains(t)]
            #![trigger tiles.contains(t)]
            sort_descending(tiles).contains(t) <==> tiles.contains(t),
        distinct_coords(tiles) ==> is_descending(sort_descending(tiles)),
    decreases tiles.len(),
{
    if tiles.len() > 0 {
        let head = tiles.drop_last();
        let last = tiles.last();
        lemma_sort_descending(head);
        let sorted = sort_descending(head);
        let at = place_descending(sorted, last.coords);
        lemma_place_descending(sorted, last.coords);
        lemma_insert_descending_at(sorted, last, at);
        let after = sorted.insert(at, last);
        assert forall|t: TileView|
            #![trigger after.contains(t)]
            #![trigger tiles.contains(t)]
            after.contains(t) <==> tiles.contains(t) by {
            assert(sorted.contains(t) <==> head.contains(t));
            if after.contains(t) {
                let i = choose|i: int| 0 <= i < after.len() && after[i] == t;
                if i < at {
                    assert(sorted[i] == t);
                    assert(sorted.contains(t));
                } else if i > at {
                    assert(sorted[i - 1] == t);
                    assert(sorted.contains(t));
                }
                if sorted.contains(t) {
                    let j = choose|j: int| 0 <= j < head.len() && head[j] == t;
                    assert(tiles[j] == t);
                } else {
                    assert(tiles[tiles.len() - 1] == t);
                }
            }
            if tiles.contains(t) {
                let j = choose|j: int| 0 <= j < tiles.len() && tiles[j] == t;
                if j < head.len() {
                    assert(head[j] == t);
                    assert(head.contains(t));
                    let i = choose|i: int| 0 <= i < sorted.len() && sorted[i] == t;
                    if i < at {
                        assert(after[i] == t);
                    } else {
                        assert(after[i + 1] == t);
                    }
                } else {
                    assert(after[at] == t);
                }
            }
        }
        if distinct_coords(tiles) {
            assert forall|i: int, j: int| 0 <= i < j < head.len() implies (#[trigger] head[i]).coords
                != (#[trigger] head[j]).coords by {
                assert(tiles[i].coords != tiles[j].coords);
            }
            assert forall|k: int| 0 <= k < at implies last.coords.precedes(
                (#[trigger] sorted[k]).coords,
            ) by {
                assert(sorted.contains(sorted[at - 1]));
                let m = choose|m: int| 0 <= m < head.len() && head[m] == sorted[at - 1];
                assert(tiles[m].coords != tiles[tiles.len() - 1].coords);
                lemma_address_order(sorted[at - 1].coords, last.coords);
                if k < at - 1 {
                    assert(sorted[at - 1].coords.precedes(sorted[k].coords));
                }
            }
            lemma_insert_keeps_descending(sorted, at, last);
        }
    }
}

/// A tile of the sequence covers the cell `c`.
pub open spec fn holds_address(tiles: Seq<TileView>, c: GridCoords) -> bool {
    exists|i: int| 0 <= i < tiles.len() && (#[trigger] tiles[i]).coords == c
}

/// A sequence with one more tile put in covers the cells it covered before
/// and the cell of the new tile.
proof fn lemma_insert_holds(tiles: Seq<TileView>, at: int, tile: TileView, c: GridCoords)
    requires
        0 <= at <= tiles.len(),
    ensures
        holds_address(tiles.insert(at, tile), c) <==> (holds_address(tiles, c) || tile.coords == c),
{
    let after = tiles.insert(at, tile);
    if holds_address(after, c) {
        let i = choose|i: int| 0 <= i < after.len() && (#[trigger] after[i]).coords == c;
        if i < at {
            assert(tiles[i].coords == c);
        } else if i > at {
            assert(tiles[i - 1].coords == c);
        }
    }
    if holds_address(tiles, c) {
        let i = choose|i: int| 0 <= i < tiles.len() && (#[trigger] tiles[i]).coords == c;
        if i < at {
            assert(after[i].coords == c);
        } else {
            assert(after[i + 1].coords == c);
        }
    }
    if tile.coords == c {
        assert(after[at].coords == c);
    }
}

/// A descending sequence stays descending when a tile is put in at the
/// place between the tiles that follow its address and those that precede it.
proof fn lemma_insert_keeps_descending(tiles: Seq<TileView>, at: int, tile: TileView)
    requires
        is_descending(tiles),
        0 <= at <= tiles.len(),
        forall|k: int| 0 <= k < at ==> tile.coords.precedes((#[trigger] tiles[k]).coords),
        forall|k: int| at <= k < tiles.len() ==> (#[trigger] tiles[k]).coords.precedes(tile.coords),
    ensures
        is_descending(tiles.insert(at, tile)),
{
    let after = tiles.insert(at, tile);
    assert forall|i: int, j: int| 0 <= i < j < after.len() implies (#[trigger] after[j]).coords.precedes(
        (#[trigger] after[i]).coords,
    ) by {
        if i == at {
            assert(after[j] == tiles[j - 1]);
        } else if j == at {
            assert(after[i] == tiles[i]);
        } else {
            let bi = if i < at { i } else { i - 1 };
            let bj = if j < at { j } else { j - 1 };
            assert(after[i] == tiles[bi] && after[j] == tiles[bj]);
            assert(tiles[bj].coords.precedes(tiles[bi].coords));
        }
    }
}

/// Puts `tile` in its place among the descending `sorted`, unless a tile
/// of the same address is there already.
fn insert_tile(sorted: &mut Vec<GridSquare>, tile: GridSquare) -> (placed: bool)
    requires
        is_descending(tile_views(old(sorted)@)),
    ensures
        placed == !holds_address(tile_views(old(sorted)@), tile@.coords),
        placed ==> tile_views(final(sorted)@) == insert_descending(
            tile_views(old(sorted)@),
            tile@,
        ),
        placed ==> is_descending(tile_views(final(sorted)@)),
        placed ==> final(sorted).len() == old(sorted).len() + 1,
        placed ==> forall|c: GridCoords|
            holds_address(tile_views(final(sorted)@), c) <==> (holds_address(
                tile_views(old(sorted)@),
                c,
            ) || tile@.coords == c),
{
    let here = tile.coords();
    let ghost view = tile@;
    let ghost before = tile_views(sorted@);
    let mut at: usize = sorted.len();
    while at > 0 && precedes(&sorted[at - 1].coords(), &here)
        invariant
            0 <= at <= sorted.len(),
            here == view.coords,
            before == tile_views(sorted@),
            forall|k: int|
                at <= k < sorted.len() ==> (#[trigger] before[k]).coords.precedes(view.coords),
        decreases at,
    {
        at = at - 1;
    }
    if at > 0 {
        let there = sorted[at - 1].coords();
        if there.x == here.x && there.y == here.y {
            assert(before[at - 1].coords == view.coords);
            return false;
        }
    }
    proof {
        assert forall|k: int| 0 <= k < at implies view.coords.precedes(
            (#[trigger] before[k]).coords,
        ) by {
            lemma_address_order(before[at - 1].coords, view.coords);
            if k < at - 1 {
                assert(before[at - 1].coords.precedes(before[k].coords));
            }
        }
        if holds_address(before, view.coords) {
            let k = choose|k: int| 0 <= k < before.len() && (#[trigger] before[k]).coords == view.coords;
            if k < at {
                assert(view.coords.precedes(before[k].coords));
            } else {
                assert(before[k].coords.precedes(view.coords));
            }
        }
        lemma_insert_descending_at(before, view, at as int);
        lemma_insert_keeps_descending(before, at as int, view);
        assert forall|c: GridCoords|
            holds_address(before.insert(at as int, view), c) <==> (holds_address(before, c)
                || view.coords == c) by {
            lemma_insert_holds(before, at as int, view, c);
        }
    }
    sorted.insert(at, tile);
    proof {
        assert(tile_views(sorted@) =~= before.insert(at as int, view));
    }
    true
}

/// A sequence with one more tile at its end covers the cells it covered
/// before and the cell of the new tile.
proof fn lemma_push_holds(tiles: Seq<TileView>, tile: TileView, c: GridCoords)
    ensures
        holds_address(tiles.push(tile), c) <==> (holds_address(tiles, c) || tile.coords == c),
{
    assert(tiles.push(tile) =~= tiles.insert(tiles.len() as int, tile));
    lemma_insert_holds(tiles, tiles.len() as int, tile, c);
}

/// Tiles with distinct addresses, and one more whose address is not among
/// them, have distinct addresses.
proof fn lemma_push_keeps_distinct(tiles: Seq<TileView>, tile: TileView)
    requires
        distinct_coords(tiles),
        !holds_address(tiles, tile.coords),
    ensures
        distinct_coords(tiles.push(tile)),
{
    let after = tiles.push(tile);
    assert forall|i: int, j: int| 0 <= i < j < after.len() implies (#[trigger] after[i]).coords != (
    #[trigger] after[j]).coords by {
        if j == tiles.len() {
            assert(tiles[i].coords != tile.coords);
        } else {
            assert(tiles[i].coords != tiles[j].coords);
        }
    }
}

/// Tiles of which one has the address of an earlier one do not have
/// distinct addresses, however many follow.
proof fn lemma_repeat_is_not_distinct(tiles: Seq<TileView>, done: int)
    requires
        0 <= done < tiles.len(),
        holds_address(tiles.take(done), tiles[done].coords),
    ensures
        !distinct_coords(tiles),
{
    let head = tiles.take(done);
    let m = choose|m: int| 0 <= m < head.len() && (#[trigger] head[m]).coords == tiles[done].coords;
    assert(tiles[m].coords == tiles[done].coords);
}

/// Puts the tiles in descending order of their addresses, unless two of
/// them share an address.
fn sort_tiles(tiles: Vec<GridSquare>) -> (sorted: Result<Vec<GridSquare>, TerrainError>)
    ensures
        match sorted {
            Ok(v) => distinct_coords(tile_views(tiles@)) && tile_views(v@) == sort_descending(
                tile_views(tiles@),
            ) && is_descending(tile_views(v@)) && v.len() == tiles.len(),
            Err(e) => !distinct_coords(tile_views(tiles@)),
        },
{
    let ghost input = tile_views(tiles@);
    let n = tiles.len();
    // Turn the tiles over, so that they can be taken from the back in
    // their first order.
    let mut rest = tiles;
    let mut stack: Vec<GridSquare> = Vec::new();
    while rest.len() > 0
        invariant
            rest.len() + stack.len() == n,
            n == input.len(),
            forall|m: int| 0 <= m < rest.len() ==> (#[trigger] rest[m])@ == input[m],
            forall|m: int| 0 <= m < stack.len() ==> (#[trigger] stack[m])@ == input[n - 1 - m],
        decreases rest.len(),
    {
        let tile = rest.pop().unwrap();
        stack.push(tile);
    }
    let mut sorted: Vec<GridSquare> = Vec::new();
    let ghost mut done: int = 0;
    proof {
        assert(input.take(0) =~= Seq::<TileView>::empty());
        assert(tile_views(sorted@) =~= sort_descending(input.take(0)));
    }
    while stack.len() > 0
        invariant
            0 <= done <= n,
            n == input.len(),
            input == tile_views(tiles@),
            stack.len() == n - done,
            sorted.len() == done,
            forall|m: int| 0 <= m < stack.len() ==> (#[trigger] stack[m])@ == input[n - 1 - m],
            tile_views(sorted@) == sort_descending(input.take(done)),
            is_descending(tile_views(sorted@)),
            distinct_coords(input.take(done)),
            forall|c: GridCoords|
                holds_address(tile_views(sorted@), c) <==> holds_address(input.take(done), c),
        decreases stack.len(),
    {
        let tile = stack.pop().unwrap();
        let ghost view = tile@;
        let ghost head = input.take(done);
        assert(view == input[done]);
        proof {
            assert(input.take(done + 1) =~= head.push(view));
            assert(head.push(view).drop_last() =~= head);
        }
        let placed = insert_tile(&mut sorted, tile);
        if !placed {
            proof {
                lemma_repeat_is_not_distinct(input, done);
            }
            return Err(TerrainError::DuplicateTile);
        }
        proof {
            lemma_push_keeps_distinct(head, view);
            assert forall|c: GridCoords|
                holds_address(tile_views(sorted@), c) <==> holds_address(
                    input.take(done + 1),
                    c,
                ) by {
                lemma_push_holds(head, view, c);
            }
            done = done + 1;
        }
    }
    proof {
        assert(input.take(n as int) =~= input);
    }
    Ok(sorted)
}

/// Whether address `a` comes before address `b`.
fn precedes(a: &GridCoords, b: &GridCoords) -> (r: bool)
    ensures
        r == a.precedes(*b),
{
    a.x < b.x || (a.x == b.x && a.y < b.y)
}

/// Tiles at the addresses of a descending sequence are themselves
/// descending, and so have distinct addresses.
proof fn lemma_same_addresses_descending(a: Seq<TileView>, b: Seq<TileView>)
    requires
        same_addresses(a, b),
        is_descending(b),
    ensures
        is_descending(a),
        distinct_coords(a),
{
    assert forall|i: int, j: int| 0 <= i < j < a.len() implies (#[trigger] a[j]).coords.precedes(
        (#[trigger] a[i]).coords,
    ) by {
        assert(b[j].coords.precedes(b[i].coords));
    }
    lemma_descending_is_distinct(a);
}

/// What `find_index` found among the addresses of the tiles is what
/// `find_tile` finds among the tiles.
proof fn lemma_found_is_find_tile(
    tiles: Seq<TileView>,
    addresses: Seq<GridCoords>,
    found: Option<usize>,
    x: int,
    y: int,
)
    requires
        is_descending(tiles),
        addresses.len() == tiles.len(),
        forall|k: int|
            #![trigger addresses[k]]
            #![trigger tiles[k]]
            0 <= k < tiles.len() ==> addresses[k] == tiles[k].coords,
        match found {
            Some(j) => j < addresses.len() && addresses[j as int].x == x && addresses[j as int].y
                == y,
            None => forall|k: int|
                0 <= k < addresses.len() ==> !((#[trigger] addresses[k]).x == x && addresses[k].y
                    == y),
        },
    ensures
        find_tile(tiles, x, y) == (match found {
            Some(j) => Some(tiles[j as int]),
            None => None,
        }),
{
    lemma_descending_is_distinct(tiles);
    match found {
        Some(j) => {
            assert(is_at(tiles[j as int], x, y));
            lemma_find_tile_some(tiles, j as int, x, y);
        },
        None => {
            if has_tile_at(tiles, x, y) {
                let i = choose|i: int| 0 <= i < tiles.len() && is_at(#[trigger] tiles[i], x, y);
                assert(addresses[i].x == x && addresses[i].y == y);
            }
        },
    }
}

/// The addresses of the tiles, place by place.
fn addresses_of(tiles: &Vec<GridSquare>) -> (addresses: Vec<GridCoords>)
    ensures
        addresses.len() == tiles.len(),
        forall|k: int|
            #![trigger addresses[k]]
            #![trigger tiles[k]]
            0 <= k < tiles.len() ==> addresses[k] == tiles[k]@.coords,
{
    let mut addresses: Vec<GridCoords> = Vec::new();
    let mut k: usize = 0;
    while k < tiles.len()
        invariant
            0 <= k <= tiles.len(),
            addresses.len() == k,
            forall|m: int| 0 <= m < k ==> addresses[m] == (#[trigger] tiles[m])@.coords,
        decreases tiles.len() - k,
    {
        addresses.push(tiles[k].coords());
        k = k + 1;
    }
    addresses
}

/// The first pass of stitching over descending tiles. It goes from the
/// last tile to the first, so that every tile reads neighbours that the
/// pass has not touched.
fn run_first_pass(tiles: &mut Vec<GridSquare>, addresses: &Vec<GridCoords>)
    requires
        is_descending(tile_views(old(tiles)@)),
        addresses.len() == old(tiles).len(),
        forall|k: int|
            #![trigger addresses[k]]
            #![trigger old(tiles)[k]]
            0 <= k < old(tiles).len() ==> addresses[k] == old(tiles)[k]@.coords,
    ensures
        final(tiles).len() == old(tiles).len(),
        tile_views(final(tiles)@) == first_pass(tile_views(old(tiles)@)),
        same_addresses(tile_views(final(tiles)@), tile_views(old(tiles)@)),
{
    let ghost start = tile_views(tiles@);
    let n = tiles.len();
    let mut i: usize = n;
    while i > 0
        invariant
            0 <= i <= n,
            n == tiles.len(),
            n == start.len(),
            addresses.len() == n,
            is_descending(start),
            forall|k: int|
                #![trigger addresses[k]]
                #![trigger start[k]]
                0 <= k < n ==> addresses[k] == start[k].coords,
            same_addresses(tile_views(tiles@), start),
            forall|k: int| 0 <= k < i ==> (#[trigger] tile_views(tiles@)[k]) == start[k],
            forall|k: int|
                i <= k < n ==> (#[trigger] tile_views(tiles@)[k]) == far_stitched(start, k),
        decreases i,
    {
        let idx: usize = i - 1;
        let ghost cur = tile_views(tiles@);
        let own = addresses[idx];
        let x: i64 = own.x as i64;
        let y: i64 = own.y as i64;
        proof {
            assert forall|a: int, b: int| 0 <= a < b < n implies (#[trigger] addresses[b]).precedes(
                #[trigger] addresses[a],
            ) by {
                assert(start[b].coords.precedes(start[a].coords));
            }
            assert(start[idx as int].coords == own);
            assert(cur[idx as int] == start[idx as int]);
        }
        let below = find_index(addresses, x, y + 1);
        let right = find_index(addresses, x + 1, y);
        proof {
            lemma_found_is_find_tile(start, addresses@, below, x as int, y + 1);
            lemma_found_is_find_tile(start, addresses@, right, x + 1, y as int);
            if let Some(j) = below {
                if j > idx {
                    assert(addresses[j as int].precedes(addresses[idx as int]));
                }
                assert(cur[j as int] == start[j as int]);
            }
            if let Some(j) = right {
                if j > idx {
                    assert(addresses[j as int].precedes(addresses[idx as int]));
                }
                assert(cur[j as int] == start[j as int]);
            }
        }
        stitch_first(tiles, idx, below, right);
        proof {
            let next = tile_views(tiles@);
            assert(next[idx as int] == far_stitched(start, idx as int));
            assert forall|k: int| 0 <= k < idx implies (#[trigger] next[k]) == start[k] by {
                assert(cur[k] == start[k]);
            }
            assert forall|k: int| idx <= k < n implies (#[trigger] next[k]) == far_stitched(
                start,
                k,
            ) by {
                if k > idx {
                    assert(cur[k] == far_stitched(start, k));
                }
            }
            assert forall|k: int|
                #![trigger next[k]]
                #![trigger start[k]]
                0 <= k < n implies next[k].coords == start[k].coords by {
                if k != idx {
                    assert(cur[k].coords == start[k].coords);
                }
            }
        }
        i = idx;
    }
    proof {
        assert(tile_views(tiles@) =~= first_pass(start));
    }
}

/// The second pass of stitching over descending tiles. It goes from the
/// last tile to the first, so that every tile reads neighbours that the
/// pass has rewritten.
fn run_second_pass(tiles: &mut Vec<GridSquare>, addresses: &Vec<GridCoords>)
    requires
        is_descending(tile_views(old(tiles)@)),
        addresses.len() == old(tiles).len(),
        forall|k: int|
            #![trigger addresses[k]]
            #![trigger old(tiles)[k]]
            0 <= k < old(tiles).len() ==> addresses[k] == old(tiles)[k]@.coords,
    ensures
        final(tiles).len() == old(tiles).len(),
        tile_views(final(tiles)@) == second_pass(
            tile_views(old(tiles)@),
            old(tiles).len() as nat,
        ),
        same_addresses(tile_views(final(tiles)@), tile_views(old(tiles)@)),
{
    let ghost start = tile_views(tiles@);
    let n = tiles.len();
    let mut i: usize = n;
    while i > 0
        invariant
            0 <= i <= n,
            n == tiles.len(),
            n == start.len(),
            addresses.len() == n,
            is_descending(start),
            forall|k: int|
                #![trigger addresses[k]]
                #![trigger start[k]]
                0 <= k < n ==> addresses[k] == start[k].coords,
            same_addresses(tile_views(tiles@), start),
            tile_views(tiles@) == second_pass(start, (n - i) as nat),
        decreases i,
    {
        let idx: usize = i - 1;
        let ghost cur = tile_views(tiles@);
        let own = addresses[idx];
        let x: i64 = own.x as i64;
        let y: i64 = own.y as i64;
        proof {
            assert forall|a: int, b: int| 0 <= a < b < n implies (#[trigger] addresses[b]).precedes(
                #[trigger] addresses[a],
            ) by {
                assert(start[b].coords.precedes(start[a].coords));
            }
            lemma_same_addresses_descending(cur, start);
            assert(cur[idx as int].coords == own);
            assert forall|k: int|
                #![trigger addresses[k]]
                #![trigger cur[k]]
                0 <= k < n implies addresses[k] == cur[k].coords by {
                assert(start[k].coords == cur[k].coords);
            }
        }
        let above = find_index(addresses, x, y - 1);
        let left = find_index(addresses, x - 1, y);
        proof {
            lemma_found_is_find_tile(cur, addresses@, above, x as int, y - 1);
            lemma_found_is_find_tile(cur, addresses@, left, x - 1, y as int);
            if let Some(j) = above {
                if j < idx {
                    assert(addresses[idx as int].precedes(addresses[j as int]));
                }
            }
            if let Some(j) = left {
                if j < idx {
                    assert(addresses[idx as int].precedes(addresses[j as int]));
                }
            }
        }
        stitch_second(tiles, idx, above, left);
        proof {
            let next = tile_views(tiles@);
            assert(next =~= second_pass_step(cur, idx as int));
            assert(same_addresses(next, start));
            assert(second_pass(start, (n - idx) as nat) == second_pass_step(
                second_pass(start, (n - idx - 1) as nat),
                start.len() - (n - idx),
            ));
        }
        i = idx;
    }
}

impl View for TerrainGrid {
    type V = Seq<TileView>;

    closed spec fn view(&self) -> Seq<TileView> {
        tile_views(self.tiles@)
    }
}

impl TerrainGrid {
    /// The cells to load for a view from `center` that reaches
    /// `view_range_m` metres: the generous circle of `circle_m`, from the
    /// largest address to the smallest.
    pub fn candidates(center: &GridCoords, view_range_m: i32) -> (cells: Vec<GridCoords>)
        ensures
            forall|p: GridCoords|
                cells@.contains(p) <==> center.within_cells(p, radius_cells(view_range_m as int)),
            addresses_descending(cells@),
    {
        let mut circle = center.circle_m(view_range_m);
        let ghost ascending = circle@;
        let mut cells: Vec<GridCoords> = Vec::new();
        while circle.len() > 0
            invariant
                forall|p: GridCoords|
                    ascending.contains(p) <==> center.within_cells(
                        p,
                        radius_cells(view_range_m as int),
                    ),
                forall|i: int, j: int|
                    0 <= i < j < ascending.len() ==> (#[trigger] ascending[i]).precedes(
                        #[trigger] ascending[j],
                    ),
                circle.len() + cells.len() == ascending.len(),
                forall|m: int| 0 <= m < circle.len() ==> circle[m] == ascending[m],
                forall|m: int|
                    0 <= m < cells.len() ==> cells[m] == ascending[ascending.len() - 1 - m],
            decreases circle.len(),
        {
            let cell = circle.pop().unwrap();
            cells.push(cell);
        }
        proof {
            let n = ascending.len() as int;
            assert forall|p: GridCoords| cells@.contains(p) <==> ascending.contains(p) by {
                if cells@.contains(p) {
                    let m = choose|m: int| 0 <= m < cells@.len() && cells@[m] == p;
                    assert(ascending[n - 1 - m] == p);
                }
                if ascending.contains(p) {
                    let m = choose|m: int| 0 <= m < ascending.len() && ascending[m] == p;
                    assert(cells@[n - 1 - m] == p);
                }
            }
            assert forall|i: int, j: int| 0 <= i < j < cells.len() implies (#[trigger] cells@[j]).precedes(
                #[trigger] cells@[i],
            ) by {
                assert(ascending[n - 1 - j].precedes(ascending[n - 1 - i]));
            }
            assert forall|p: GridCoords|
                cells@.contains(p) <==> center.within_cells(
                    p,
                    radius_cells(view_range_m as int),
                ) by {
                assert(cells@.contains(p) <==> ascending.contains(p));
            }
        }
        cells
    }

    /// The tiles to load for a view from `agl_mm` above the cell `center`
    /// that reaches `view_range_m` metres: the cells of `candidates`, in
    /// their order, each with the ground resolution that `camera` resolves
    /// on it, given how far the cell lies from `center`.
    pub fn tile_requests(
        center: &GridCoords,
        agl_mm: i64,
        camera: &Camera,
        view_range_m: i32,
    ) -> (requests: Vec<TileRequest>)
        requires
            camera.intrinsics.in_range(),
            within_limit(agl_mm as int),
        ensures
            forall|p: GridCoords|
                (exists|i: int| 0 <= i < requests.len() && (#[trigger] requests[i]).coords == p)
                    <==> center.within_cells(p, radius_cells(view_range_m as int)),
            forall|i: int, j: int|
                0 <= i < j < requests.len() ==> (#[trigger] requests[j]).coords.precedes(
                    (#[trigger] requests[i]).coords,
                ),
            forall|i: int|
                0 <= i < requests.len() ==> (#[trigger] requests[i]).resolution_mm
                    == camera.spec_ground_resolution_mm(
                    requests[i].coords.spec_min_dist_mm(*center) as u64,
                    agl_mm,
                ),
    {
        let cells = Self::candidates(center, view_range_m);
        let mut requests: Vec<TileRequest> = Vec::new();
        let mut k: usize = 0;
        while k < cells.len()
            invariant
                0 <= k <= cells.len(),
                requests.len() == k,
                camera.intrinsics.in_range(),
                within_limit(agl_mm as int),
                forall|p: GridCoords|
                    cells@.contains(p) <==> center.within_cells(
                        p,
                        radius_cells(view_range_m as int),
                    ),
                forall|i: int| 0 <= i < k ==> (#[trigger] requests[i]).coords == cells[i],
                forall|i: int|
                    0 <= i < k ==> (#[trigger] requests[i]).resolution_mm
                        == camera.spec_ground_resolution_mm(
                        requests[i].coords.spec_min_dist_mm(*center) as u64,
                        agl_mm,
                    ),
            decreases cells.len() - k,
        {
            let coords = cells[k];
            proof {
                assert(cells@.contains(coords));
                lemma_min_dist_within_cells(*center, coords, radius_cells(view_range_m as int));
            }
            let resolution_mm = camera.ground_resolution_mm(coords.min_dist_mm(center), agl_mm);
            requests.push(TileRequest { coords, resolution_mm });
            k = k + 1;
        }
        proof {
            assert forall|p: GridCoords|
                (exists|i: int| 0 <= i < requests.len() && (#[trigger] requests[i]).coords == p)
                    <==> center.within_cells(p, radius_cells(view_range_m as int)) by {
                if cells@.contains(p) {
                    let i = choose|i: int| 0 <= i < cells@.len() && cells@[i] == p;
                    assert(requests[i].coords == p);
                }
                if exists|i: int| 0 <= i < requests.len() && (#[trigger] requests[i]).coords == p {
                    let i = choose|i: int|
                        0 <= i < requests.len() && (#[trigger] requests[i]).coords == p;
                    assert(cells@[i] == p);
                }
            }
            assert forall|i: int, j: int| 0 <= i < j < requests.len() implies (
            #[trigger] requests[j]).coords.precedes((#[trigger] requests[i]).coords) by {
                assert(cells[j].precedes(cells[i]));
            }
        }
        requests
    }

    /// Stitches the loaded tiles of one view.
    ///
    /// The tiles are put in descending order of their addresses and then
    /// stitched in two passes. In the first pass every tile takes its
    /// borders of largest `y` and `x` from the neighbours there, as they
    /// were loaded. In the second pass, from the smallest address up, every
    /// tile takes its borders at zero from the neighbours on the other
    /// sides, as the second pass has left them. A border without a
    /// neighbour among the tiles stays as it is. Two tiles on one cell are
    /// refused.
    pub fn new(tiles: Vec<GridSquare>) -> (made: Result<TerrainGrid, TerrainError>)
        ensures
            match made {
                Ok(grid) => distinct_coords(tile_views(tiles@)) && grid@ == two_pass(
                    sort_descending(tile_views(tiles@)),
                ) && is_descending(grid@),
                Err(e) => !distinct_coords(tile_views(tiles@)) && e == TerrainError::DuplicateTile,
            },
    {
        let mut sorted = match sort_tiles(tiles) {
            Ok(v) => v,
            Err(e) => {
                return Err(TerrainError::DuplicateTile);
            },
        };
        let ghost start = tile_views(sorted@);
        let addresses = addresses_of(&sorted);
        run_first_pass(&mut sorted, &addresses);
        proof {
            lemma_same_addresses_descending(tile_views(sorted@), start);
        }
        let ghost middle = tile_views(sorted@);
        proof {
            assert forall|k: int|
                #![trigger addresses[k]]
                #![trigger sorted[k]]
                0 <= k < sorted.len() implies addresses[k] == sorted[k]@.coords by {
                assert(middle[k].coords == start[k].coords);
            }
        }
        run_second_pass(&mut sorted, &addresses);
        proof {
            lemma_same_addresses_descending(tile_views(sorted@), middle);
        }
        Ok(TerrainGrid { tiles: sorted })
    }

    /// The stitched tiles, from the largest address to the smallest.
    pub fn tiles(&self) -> (tiles: &Vec<GridSquare>)
        ensures
            tile_views(tiles@) == self@,
    {
        &self.tiles
    }

    /// Hands out the stitched tiles.
    pub fn into_tiles(self) -> (tiles: Vec<GridSquare>)
        ensures
            tile_views(tiles@) == self@,
    {
        self.tiles
    }
}

} // verus!
