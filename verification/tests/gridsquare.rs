use geo_renderer::config::StorageConfig;
use geo_renderer::coords::{Coords, GridCoords};
use geo_renderer::gridsquare::{GridSquare, MeshVertex, TileError};
use geo_renderer::lod::TexturePlan;

fn config() -> StorageConfig {
    StorageConfig {
        surface_dir: "surface".to_string(),
        alti_dir: "alti".to_string(),
        image_dir: "image".to_string(),
        image_max_lod: 0,
    }
}

/// A tile whose raster holds `height(x, y)` at pixel column `x` and at the
/// row that ends up as grid row `y`.
fn tile_from(coords: GridCoords, mesh: usize, height: impl Fn(usize, usize) -> i64) -> GridSquare {
    let mut samples = Vec::new();
    for row in 0..mesh {
        for x in 0..mesh {
            samples.push(height(x, mesh - 1 - row));
        }
    }
    GridSquare::new(coords, 2 * mesh as u32, mesh, samples, config()).unwrap()
}

#[test]
fn new_flips_rows_and_repeats_the_last_row_and_column() {
    let tile = GridSquare::new(GridCoords::new(0, 0), 2, 2, vec![1, 2, 3, 4], config()).unwrap();
    assert_eq!(tile.resolution(), 2);
    assert_eq!(tile.requested_resolution(), 2);
    assert_eq!(tile.coords(), GridCoords::new(0, 0));
    // The first raster row is the one with the largest y.
    assert_eq!(tile.elevation(0, 1), Some(1));
    assert_eq!(tile.elevation(1, 1), Some(2));
    assert_eq!(tile.elevation(0, 0), Some(3));
    assert_eq!(tile.elevation(1, 0), Some(4));
    // Padding repeats the nearest sample.
    assert_eq!(tile.elevation(0, 2), Some(1));
    assert_eq!(tile.elevation(1, 2), Some(2));
    assert_eq!(tile.elevation(2, 2), Some(2));
    assert_eq!(tile.elevation(2, 1), Some(2));
    assert_eq!(tile.elevation(2, 0), Some(4));
    assert_eq!(tile.elevation(3, 0), None);
    assert_eq!(tile.elevation(0, 3), None);
}

#[test]
fn new_rejects_bad_meshes() {
    let c = GridCoords::new(0, 0);
    assert_eq!(
        GridSquare::new(c, 1, 2, vec![7, 7, 7, 7], config()).err(),
        Some(TileError::RequestTooSmall)
    );
    assert_eq!(
        GridSquare::new(c, 2, 0, vec![], config()).err(),
        Some(TileError::ResolutionTooSmall)
    );
    assert_eq!(
        GridSquare::new(c, 2, 1, vec![7], config()).err(),
        Some(TileError::ResolutionTooSmall)
    );
    assert_eq!(
        GridSquare::new(c, 2, 8193, vec![], config()).err(),
        Some(TileError::ResolutionTooLarge)
    );
    assert_eq!(
        GridSquare::new(c, 2, 2, vec![1, 2, 3], config()).err(),
        Some(TileError::SampleCount)
    );
    assert_eq!(
        GridSquare::new(c, 2, 2, vec![1, 2, 3, 4, 5], config()).err(),
        Some(TileError::SampleCount)
    );
}

#[test]
fn linear_ramp_is_interpolated_linearly() {
    // Heights in millimetres equal to the distance east of the tile's edge.
    let coords = GridCoords::new(2600, 1200);
    let tile = tile_from(coords, 4, |x, _| 250_000 * x as i64);
    let origin = coords.to_world_origin();
    assert_eq!(tile.sample_altitude(origin), 0);
    let midpoint = Coords { x: origin.x + 500_000, y: origin.y + 500_000, z: 0 };
    assert_eq!(tile.sample_altitude(midpoint), 500_000);
    let between = Coords { x: origin.x + 125_000, y: origin.y + 125_000, z: 0 };
    assert_eq!(tile.sample_altitude(between), 125_000);
    let odd = Coords { x: origin.x + 333_333, y: origin.y + 1, z: 0 };
    assert_eq!(tile.sample_altitude(odd), 333_333);
}

#[test]
fn sampling_at_vertices_returns_stored_heights() {
    let coords = GridCoords::new(-3, 7);
    let tile = tile_from(coords, 4, |x, y| (x as i64 * 31 + y as i64 * 17) * 1000 - 5);
    let origin = coords.to_world_origin();
    for x in 0..=4usize {
        for y in 0..=4usize {
            let stored = tile.elevation(x, y).unwrap();
            let at_mm = Coords {
                x: origin.x + 250_000 * x as i64,
                y: origin.y + 250_000 * y as i64,
                z: 0,
            };
            assert_eq!(tile.sample_altitude(at_mm), stored);
            assert_eq!(
                tile.sample_at(-3 * 4 + x as i64, 7 * 4 + y as i64, 4),
                stored
            );
        }
    }
}

#[test]
fn sampling_outside_the_tile_clamps_to_the_border() {
    let coords = GridCoords::new(0, 0);
    let tile = tile_from(coords, 2, |x, y| (10 * x + y) as i64);
    assert_eq!(tile.sample_altitude(Coords { x: -5_000_000, y: -1, z: 0 }), 0);
    assert_eq!(
        tile.sample_altitude(Coords { x: 9_000_000, y: 0, z: 0 }),
        tile.elevation(2, 0).unwrap()
    );
    assert_eq!(
        tile.sample_altitude(Coords { x: i64::MAX, y: i64::MIN, z: 0 }),
        tile.elevation(2, 0).unwrap()
    );
}

#[test]
fn sampling_rounds_down_also_below_zero() {
    // Heights -1 along x = 0 and 0 from x = 1 on.
    let slope = GridSquare::from_heights(
        GridCoords::new(0, 0),
        2,
        2,
        vec![-1, -1, -1, 0, 0, 0, 0, 0, 0],
        config(),
    )
    .unwrap();
    assert_eq!(slope.elevation(0, 0), Some(-1));
    assert_eq!(slope.elevation(1, 0), Some(0));
    // Half way between -1 and 0 lies -0.5, which rounds down to -1.
    assert_eq!(slope.sample_altitude(Coords { x: 250_000, y: 0, z: 0 }), -1);
    assert_eq!(slope.sample_altitude(Coords { x: 499_999, y: 0, z: 0 }), -1);
    assert_eq!(slope.sample_altitude(Coords { x: 500_000, y: 0, z: 0 }), 0);
}

#[test]
fn a_tile_from_a_full_grid_holds_every_height_as_given() {
    // Heights equal to the distance east of the tile's edge in metres, at
    // every vertex, the last column included.
    let mut heights = Vec::new();
    for x in 0..=4 {
        for y in 0..=4 {
            heights.push(250 * x + 0 * y);
        }
    }
    let coords = GridCoords::new(3, 4);
    let tile = GridSquare::from_heights(coords, 9, 4, heights, config()).unwrap();
    assert_eq!(tile.resolution(), 4);
    assert_eq!(tile.requested_resolution(), 9);
    assert_eq!(tile.coords(), coords);
    for x in 0..=4usize {
        for y in 0..=4usize {
            assert_eq!(tile.elevation(x, y), Some(250 * x as i64));
        }
    }
    let origin = coords.to_world_origin();
    assert_eq!(tile.sample_altitude(origin), 0);
    let midpoint = Coords { x: origin.x + 500_000, y: origin.y + 500_000, z: 0 };
    assert_eq!(tile.sample_altitude(midpoint), 500);
    let far_edge = Coords { x: origin.x + 1_000_000, y: origin.y + 123, z: 0 };
    assert_eq!(tile.sample_altitude(far_edge), 1000);
    let between = Coords { x: origin.x + 900_000, y: origin.y, z: 0 };
    assert_eq!(tile.sample_altitude(between), 900);
    // Vertices are told apart along both axes.
    let grid = GridSquare::from_heights(coords, 2, 2, (0..9).collect(), config()).unwrap();
    assert_eq!(grid.elevation(0, 1), Some(1));
    assert_eq!(grid.elevation(1, 0), Some(3));
    assert_eq!(grid.elevation(2, 2), Some(8));
}

#[test]
fn a_full_grid_of_the_wrong_size_is_refused() {
    let c = GridCoords::new(0, 0);
    assert_eq!(
        GridSquare::from_heights(c, 2, 2, vec![0; 8], config()).err(),
        Some(TileError::SampleCount)
    );
    assert_eq!(
        GridSquare::from_heights(c, 2, 2, vec![0; 4], config()).err(),
        Some(TileError::SampleCount)
    );
    assert_eq!(
        GridSquare::from_heights(c, 2, 1, vec![0; 4], config()).err(),
        Some(TileError::ResolutionTooSmall)
    );
    assert_eq!(
        GridSquare::from_heights(c, 2, 8193, vec![], config()).err(),
        Some(TileError::ResolutionTooLarge)
    );
    assert_eq!(
        GridSquare::from_heights(c, 0, 2, vec![0; 9], config()).err(),
        Some(TileError::RequestTooSmall)
    );
}

#[test]
fn borders_take_the_neighbours_heights() {
    let mut tile = tile_from(GridCoords::new(5, 5), 2, |_, _| 0);
    let bottom = tile_from(GridCoords::new(5, 6), 2, |x, _| 100 + x as i64);
    let right = tile_from(GridCoords::new(6, 5), 2, |_, y| 200 + y as i64);
    let top = tile_from(GridCoords::new(5, 4), 2, |x, _| 300 + x as i64);
    let left = tile_from(GridCoords::new(4, 5), 2, |_, y| 400 + y as i64);
    tile.cleanup_borders(Some(&bottom), Some(&right), Some(&top), Some(&left));
    // Row of largest y from the bottom neighbour's first row.
    assert_eq!(tile.elevation(1, 2), Some(101));
    // Column of largest x from the right neighbour's first column.
    assert_eq!(tile.elevation(2, 1), Some(201));
    // The shared corner keeps what the later border wrote: the right
    // neighbour's last row, which repeats its raster.
    assert_eq!(tile.elevation(2, 2), Some(201));
    // Row zero from the top neighbour's last row, which repeats its raster.
    assert_eq!(tile.elevation(1, 0), Some(301));
    assert_eq!(tile.elevation(2, 0), Some(301));
    // Column zero from the left neighbour's last column.
    assert_eq!(tile.elevation(0, 1), Some(401));
    assert_eq!(tile.elevation(0, 0), Some(400));
    assert_eq!(tile.elevation(0, 2), Some(401));
    // The inside is untouched.
    assert_eq!(tile.elevation(1, 1), Some(0));
}

#[test]
fn borders_without_neighbours_stay() {
    let mut tile = tile_from(GridCoords::new(0, 0), 2, |x, y| (x * 3 + y) as i64);
    let before: Vec<Option<i64>> = (0..9).map(|k| tile.elevation(k / 3, k % 3)).collect();
    tile.cleanup_borders(None, None, None, None);
    let after: Vec<Option<i64>> = (0..9).map(|k| tile.elevation(k / 3, k % 3)).collect();
    assert_eq!(before, after);
}

#[test]
fn coarse_border_is_interpolated_from_a_finer_neighbour() {
    let mut coarse = tile_from(GridCoords::new(0, 0), 2, |_, _| 0);
    let fine = tile_from(GridCoords::new(1, 0), 4, |_, y| 1000 * y as i64);
    coarse.cleanup_borders(None, Some(&fine), None, None);
    assert_eq!(coarse.elevation(2, 0), Some(0));
    assert_eq!(coarse.elevation(2, 1), Some(2000));
    // The fine tile's last row repeats its raster: 0, 1000, 2000, 3000, 3000.
    assert_eq!(coarse.elevation(2, 2), Some(3000));
    let mut finer = tile_from(GridCoords::new(0, 0), 8, |_, _| 0);
    finer.cleanup_borders(None, Some(&fine), None, None);
    assert_eq!(finer.elevation(8, 1), Some(500));
    assert_eq!(finer.elevation(8, 6), Some(3000));
    assert_eq!(finer.elevation(8, 7), Some(3000));
    assert_eq!(finer.elevation(8, 5), Some(2500));
}

#[test]
fn mesh_lists_four_vertices_and_two_triangles_for_each_cell() {
    let tile = tile_from(GridCoords::new(0, 0), 2, |x, y| (10 * x + y) as i64);
    let mesh = tile.mesh();
    assert_eq!(mesh.vertices.len(), 16);
    assert_eq!(mesh.indices.len(), 24);
    let h = |x: usize, y: usize| tile.elevation(x, y).unwrap();
    // Cell (0, 0).
    let v = |x: u32, y: u32| MeshVertex {
        grid_x: x,
        grid_y: y,
        height: h(x as usize, y as usize),
        tex_u: x,
        tex_v: 2 - y,
    };
    assert_eq!(mesh.vertices[0], v(0, 0));
    assert_eq!(mesh.vertices[1], v(0, 1));
    assert_eq!(mesh.vertices[2], v(1, 0));
    assert_eq!(mesh.vertices[3], v(1, 1));
    assert_eq!(mesh.vertices[0].tex_v, 2);
    assert_eq!(mesh.vertices[1].tex_v, 1);
    assert_eq!(&mesh.indices[0..6], &[2, 1, 0, 1, 2, 3]);
    // Cell (0, 1) follows cell (0, 0).
    assert_eq!(mesh.vertices[4], v(0, 1));
    assert_eq!(mesh.vertices[5], v(0, 2));
    assert_eq!(mesh.vertices[5].tex_v, 0);
    assert_eq!(&mesh.indices[6..12], &[6, 5, 4, 5, 6, 7]);
    // Cell (1, 1) is the last.
    assert_eq!(mesh.vertices[12], v(1, 1));
    assert_eq!(mesh.vertices[15], v(2, 2));
    assert_eq!(mesh.vertices[15].tex_u, 2);
    assert_eq!(&mesh.indices[18..24], &[14, 13, 12, 13, 14, 15]);
}

#[test]
fn texture_plan_follows_the_tile_and_its_configuration() {
    let mut storage = config();
    storage.image_max_lod = 1;
    let tile = GridSquare::new(GridCoords::new(0, 0), 700, 2, vec![0; 4], storage).unwrap();
    assert_eq!(tile.requested_resolution(), 700);
    assert_eq!(tile.resolution(), 2);
    assert_eq!(
        tile.texture_plan(),
        Some(TexturePlan { resolution: 700, lod: 3, cap: 5000 })
    );
    assert_eq!(tile.storage_config().image_max_lod, 1);
    let mut storage = config();
    storage.image_max_lod = 20;
    let tile = GridSquare::new(GridCoords::new(0, 0), 700, 2, vec![0; 4], storage).unwrap();
    assert_eq!(tile.texture_plan(), None);
}

#[test]
fn sampling_agrees_with_bilinear_interpolation_in_floating_point() {
    let coords = GridCoords::new(12, -7);
    let mesh = 8usize;
    let tile = tile_from(coords, mesh, |x, y| {
        ((x * x * 37 + y * 101 + x * y * 13) % 500) as i64 * 1000 - 120_000
    });
    let origin = coords.to_world_origin();
    let mut seed: u64 = 0x2545_f491_4f6c_dd1d;
    for _ in 0..2000 {
        seed ^= seed << 13;
        seed ^= seed >> 7;
        seed ^= seed << 17;
        let dx = (seed % 1_000_001) as i64;
        let dy = ((seed >> 24) % 1_000_001) as i64;
        let point = Coords { x: origin.x + dx, y: origin.y + dy, z: 0 };
        let ix = mesh as f64 * dx as f64 / 1e6;
        let iy = mesh as f64 * dy as f64 / 1e6;
        let left = (ix.floor() as usize).min(mesh);
        let bottom = (iy.floor() as usize).min(mesh);
        let right = (left + 1).min(mesh);
        let top = (bottom + 1).min(mesh);
        let fx = ix - ix.floor();
        let fy = iy - iy.floor();
        let h = |x: usize, y: usize| tile.elevation(x, y).unwrap() as f64;
        let left_val = h(left, top) * fy + h(left, bottom) * (1.0 - fy);
        let right_val = h(right, top) * fy + h(right, bottom) * (1.0 - fy);
        let expected = left_val * (1.0 - fx) + right_val * fx;
        let got = tile.sample_altitude(point) as f64;
        assert!(
            got <= expected + 1e-6 && expected < got + 1.0 + 1e-6,
            "at ({}, {}): {} against {}",
            dx,
            dy,
            got,
            expected
        );
    }
}
