use geo_renderer::camera::{Camera, Intrinsics};
use geo_renderer::config::StorageConfig;
use geo_renderer::coords::{Coords, GridCoords};
use geo_renderer::gridsquare::GridSquare;
use geo_renderer::terraingrid::{TerrainError, TerrainGrid};

fn config() -> StorageConfig {
    StorageConfig {
        surface_dir: "surface".to_string(),
        alti_dir: "alti".to_string(),
        image_dir: "image".to_string(),
        image_max_lod: 0,
    }
}

/// A tile with heights that differ from cell to cell and from tile to tile.
fn rough_tile(x: i32, y: i32, mesh: usize) -> GridSquare {
    let mut samples = Vec::new();
    for row in 0..mesh {
        for col in 0..mesh {
            let seed = (x as i64 * 7919 + y as i64 * 104_729 + row as i64 * 31 + col as i64 * 17) % 1000;
            samples.push(seed * 1000 - 250_000);
        }
    }
    GridSquare::new(GridCoords::new(x, y), 2, mesh, samples, config()).unwrap()
}

fn find<'a>(grid: &'a TerrainGrid, x: i32, y: i32) -> Option<&'a GridSquare> {
    grid.tiles().iter().find(|t| t.coords() == GridCoords::new(x, y))
}

fn assert_edges_meet(grid: &TerrainGrid) {
    let mut pairs = 0;
    for tile in grid.tiles() {
        let c = tile.coords();
        let res = tile.resolution() as usize;
        if let Some(right) = find(grid, c.x + 1, c.y) {
            for j in 0..=res {
                assert_eq!(tile.elevation(res, j), right.elevation(0, j));
                assert_eq!(
                    tile.elevation(res, j),
                    Some(right.sample_at(
                        c.x as i64 * res as i64 + res as i64,
                        c.y as i64 * res as i64 + j as i64,
                        res as u32
                    ))
                );
            }
            pairs += 1;
        }
        if let Some(below) = find(grid, c.x, c.y + 1) {
            for i in 0..=res {
                assert_eq!(tile.elevation(i, res), below.elevation(i, 0));
                assert_eq!(
                    tile.elevation(i, res),
                    Some(below.sample_at(
                        c.x as i64 * res as i64 + i as i64,
                        c.y as i64 * res as i64 + res as i64,
                        res as u32
                    ))
                );
            }
            pairs += 1;
        }
    }
    assert!(pairs > 0);
}

#[test]
fn three_by_three_block_meets_on_every_shared_edge() {
    for mesh in [2usize, 3, 4] {
        let mut tiles = Vec::new();
        // Not in any particular order: the grid sorts for itself.
        for &(x, y) in &[(1, 1), (0, 2), (2, 0), (0, 0), (2, 2), (1, 0), (0, 1), (2, 1), (1, 2)] {
            tiles.push(rough_tile(100 + x, -50 + y, mesh));
        }
        let grid = TerrainGrid::new(tiles).unwrap();
        assert_eq!(grid.tiles().len(), 9);
        assert_edges_meet(&grid);
    }
}

#[test]
fn block_with_a_hole_meets_on_every_shared_edge() {
    let mut tiles = Vec::new();
    for x in 0..4 {
        for y in 0..4 {
            if (x, y) != (1, 2) && (x, y) != (3, 0) {
                tiles.push(rough_tile(x, y, 2));
            }
        }
    }
    let grid = TerrainGrid::new(tiles).unwrap();
    assert_edges_meet(&grid);
}

#[test]
fn tiles_come_out_from_largest_to_smallest_address() {
    let tiles = vec![rough_tile(0, 0, 2), rough_tile(1, -1, 2), rough_tile(0, 1, 2), rough_tile(1, 0, 2)];
    let grid = TerrainGrid::new(tiles).unwrap();
    let order: Vec<GridCoords> = grid.tiles().iter().map(|t| t.coords()).collect();
    assert_eq!(
        order,
        vec![
            GridCoords::new(1, 0),
            GridCoords::new(1, -1),
            GridCoords::new(0, 1),
            GridCoords::new(0, 0),
        ]
    );
}

#[test]
fn two_tiles_on_one_cell_are_refused() {
    let tiles = vec![rough_tile(0, 0, 2), rough_tile(1, 0, 2), rough_tile(0, 0, 3)];
    assert_eq!(TerrainGrid::new(tiles).err(), Some(TerrainError::DuplicateTile));
}

#[test]
fn a_lone_tile_keeps_its_heights() {
    let before = rough_tile(5, 5, 2);
    let grid = TerrainGrid::new(vec![rough_tile(5, 5, 2)]).unwrap();
    let after = &grid.tiles()[0];
    for x in 0..=2 {
        for y in 0..=2 {
            assert_eq!(before.elevation(x, y), after.elevation(x, y));
        }
    }
}

#[test]
fn stitching_follows_the_two_pass_rule() {
    // Two tiles side by side: the left one takes its last column from the
    // right one's first column; the right one then takes its first column
    // back from the left one's last, which by then holds the same heights.
    let left_before = rough_tile(0, 0, 2);
    let right_before = rough_tile(1, 0, 2);
    let grid = TerrainGrid::new(vec![rough_tile(0, 0, 2), rough_tile(1, 0, 2)]).unwrap();
    let left = find(&grid, 0, 0).unwrap();
    let right = find(&grid, 1, 0).unwrap();
    for j in 0..=2 {
        assert_eq!(left.elevation(2, j), right_before.elevation(0, j));
        assert_eq!(right.elevation(0, j), right_before.elevation(0, j));
        assert_eq!(left.elevation(0, j), left_before.elevation(0, j));
        assert_eq!(right.elevation(2, j), right_before.elevation(2, j));
    }
}

#[test]
fn candidates_are_the_generous_circle_from_largest_to_smallest() {
    let center = GridCoords::new(10, 20);
    // 999 m still give a radius of one cell.
    let cells = TerrainGrid::candidates(&center, 999);
    assert_eq!(
        cells,
        vec![
            GridCoords::new(11, 20),
            GridCoords::new(10, 21),
            GridCoords::new(10, 20),
            GridCoords::new(10, 19),
            GridCoords::new(9, 20),
        ]
    );
    // 1000 m give two cells: thirteen cells in the disk.
    assert_eq!(TerrainGrid::candidates(&center, 1000).len(), 13);
    // A radius below minus one kilometre holds nothing.
    assert!(TerrainGrid::candidates(&center, -1001).is_empty());
    assert_eq!(TerrainGrid::candidates(&center, -1000), vec![center]);
}

#[test]
fn a_coarse_and_a_fine_tile_are_stitched_by_sampling() {
    // Left tile of two cells a side, right tile of four; heights in the
    // right tile rise with y by 100 per vertex.
    let left = GridSquare::new(GridCoords::new(0, 0), 2, 2, vec![0, 0, 0, 0], config()).unwrap();
    let mut samples = Vec::new();
    for row in 0..4 {
        for _col in 0..4 {
            samples.push(100 * (3 - row) as i64);
        }
    }
    let right = GridSquare::new(GridCoords::new(1, 0), 2, 4, samples, config()).unwrap();
    let grid = TerrainGrid::new(vec![left, right]).unwrap();
    let left = find(&grid, 0, 0).unwrap();
    let right = find(&grid, 1, 0).unwrap();
    // The left tile took every second height of the right tile's first
    // column: 0, 200 and, where the raster ends, 300.
    assert_eq!(left.elevation(2, 0), Some(0));
    assert_eq!(left.elevation(2, 1), Some(200));
    assert_eq!(left.elevation(2, 2), Some(300));
    // The right tile then took its first column back from the left tile's
    // last, half way between the left tile's vertices where it has none.
    assert_eq!(right.elevation(0, 0), Some(0));
    assert_eq!(right.elevation(0, 1), Some(100));
    assert_eq!(right.elevation(0, 2), Some(200));
    assert_eq!(right.elevation(0, 3), Some(250));
    assert_eq!(right.elevation(0, 4), Some(300));
    // Every other column of the right tile is as it was.
    assert_eq!(right.elevation(1, 3), Some(300));
    assert_eq!(right.elevation(1, 4), Some(300));
}

#[test]
fn tile_requests_carry_the_resolution_that_the_camera_resolves() {
    let camera = Camera::new(
        Coords { x: 0, y: 0, z: 0 },
        Intrinsics {
            xi_micro: 1_200_000,
            focal_length_x_mpx: 300_000,
            focal_length_y_mpx: 310_000,
            optical_center_x_mpx: 512_000,
            optical_center_y_mpx: 384_000,
            image_width_px: 1024,
            image_height_px: 768,
        },
    );
    let center = GridCoords::new(10, 20);
    let requests = TerrainGrid::tile_requests(&center, 300_000, &camera, 1000);
    let cells: Vec<GridCoords> = requests.iter().map(|r| r.coords).collect();
    assert_eq!(cells, TerrainGrid::candidates(&center, 1000));
    assert_eq!(requests.len(), 13);
    for request in &requests {
        let expected = match request.coords.min_dist_mm(&center) {
            0 => 2163,
            1_000_000 => 12_381,
            other => panic!("no cell of this circle lies {} mm away", other),
        };
        assert_eq!(request.resolution_mm, Some(expected));
    }
    // The cells two steps along an axis are the ones that do not touch.
    let far = requests.iter().filter(|r| r.resolution_mm == Some(12_381)).count();
    assert_eq!(far, 4);
}

#[test]
fn the_first_pass_reads_neighbours_as_they_were_loaded() {
    // Three flat tiles: A at (0, 0) of height 1, B at (1, 0) of height 5 and
    // C at (1, 1) of height 9. B takes its row of largest y from C, but A
    // takes its column of largest x from B as B was loaded.
    let flat = |x: i32, y: i32, h: i64| {
        GridSquare::new(GridCoords::new(x, y), 2, 2, vec![h; 4], config()).unwrap()
    };
    let grid = TerrainGrid::new(vec![flat(0, 0, 1), flat(1, 0, 5), flat(1, 1, 9)]).unwrap();
    let a = find(&grid, 0, 0).unwrap();
    let b = find(&grid, 1, 0).unwrap();
    let c = find(&grid, 1, 1).unwrap();
    for j in 0..=2 {
        assert_eq!(a.elevation(2, j), Some(5));
        assert_eq!(b.elevation(0, j), Some(5));
    }
    for i in 1..=2 {
        assert_eq!(b.elevation(i, 2), Some(9));
        assert_eq!(c.elevation(i, 0), Some(9));
    }
    // The corner that B's row of largest y and B's column zero share goes
    // to the column, which the second pass took from A.
    assert_eq!(b.elevation(0, 2), Some(5));
    // C has no neighbour at smaller x: its row zero comes from B whole.
    assert_eq!(c.elevation(0, 0), Some(5));
    assert_eq!(a.elevation(1, 1), Some(1));
}

#[test]
fn the_grid_is_what_eighteen_single_calls_give() {
    // Nine tiles, each stitched once for its far borders and once for its
    // near borders, from the smallest address to the largest.
    let cells: Vec<(i32, i32)> = (0..3).flat_map(|x| (0..3).map(move |y| (x, y))).collect();
    let mut tiles: Vec<GridSquare> = cells.iter().map(|&(x, y)| rough_tile(x, y, 3)).collect();
    let place = |tiles: &Vec<GridSquare>, x: i32, y: i32| {
        tiles.iter().position(|t| t.coords() == GridCoords::new(x, y))
    };
    for &(x, y) in &cells {
        let at = place(&tiles, x, y).unwrap();
        let mut tile = tiles.remove(at);
        let below = place(&tiles, x, y + 1).map(|k| &tiles[k]);
        let right = place(&tiles, x + 1, y).map(|k| &tiles[k]);
        tile.cleanup_borders(below, right, None, None);
        tiles.insert(at, tile);
    }
    for &(x, y) in &cells {
        let at = place(&tiles, x, y).unwrap();
        let mut tile = tiles.remove(at);
        let above = place(&tiles, x, y - 1).map(|k| &tiles[k]);
        let left = place(&tiles, x - 1, y).map(|k| &tiles[k]);
        tile.cleanup_borders(None, None, above, left);
        tiles.insert(at, tile);
    }
    let grid =
        TerrainGrid::new(cells.iter().rev().map(|&(x, y)| rough_tile(x, y, 3)).collect()).unwrap();
    for tile in &tiles {
        let c = tile.coords();
        let same = find(&grid, c.x, c.y).unwrap();
        for i in 0..=3 {
            for j in 0..=3 {
                assert_eq!(tile.elevation(i, j), same.elevation(i, j));
            }
        }
        // And the seams meet.
        if let Some(k) = place(&tiles, c.x + 1, c.y) {
            for j in 0..=3 {
                assert_eq!(tile.elevation(3, j), tiles[k].elevation(0, j));
            }
        }
        if let Some(k) = place(&tiles, c.x, c.y + 1) {
            for i in 0..=3 {
                assert_eq!(tile.elevation(i, 3), tiles[k].elevation(i, 0));
            }
        }
    }
}
