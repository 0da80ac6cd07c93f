use geo_renderer::coords::{Coords, GridCoords};
use geo_renderer::dataset::{camera_positions, requests_at, sample_height, ChunkRange};
use geo_renderer::renderer::RequestPose;

#[test]
fn five_heights_from_the_lowest_up() {
    let heights: Vec<i64> = (0..5).map(sample_height).collect();
    assert_eq!(heights, vec![300, 550, 800, 1200, 2000]);
}

#[test]
fn cameras_are_spread_evenly_over_the_cell() {
    let chunk = GridCoords::new(2600, 1200);
    let positions = camera_positions(chunk);
    // 6 x 6 at 300 m, 3 x 3 at 550 m, 2 x 2 at 800 m and at 1200 m, one at 2000 m.
    assert_eq!(positions.len(), 36 + 9 + 4 + 4 + 1);
    let ox = 2_600_000_000i64;
    let oy = 1_200_000_000i64;
    // The first camera stands in the middle of the first of six parts.
    assert_eq!(positions[0], Coords { x: ox + 83_333, y: oy + 83_333, z: 300_000 });
    // Cameras of one x stand together.
    assert_eq!(positions[1], Coords { x: ox + 83_333, y: oy + 250_000, z: 300_000 });
    assert_eq!(positions[6], Coords { x: ox + 250_000, y: oy + 83_333, z: 300_000 });
    assert_eq!(positions[35], Coords { x: ox + 916_666, y: oy + 916_666, z: 300_000 });
    assert_eq!(positions[36], Coords { x: ox + 166_666, y: oy + 166_666, z: 550_000 });
    assert_eq!(positions[44], Coords { x: ox + 833_333, y: oy + 833_333, z: 550_000 });
    assert_eq!(positions[45], Coords { x: ox + 250_000, y: oy + 250_000, z: 800_000 });
    assert_eq!(positions[49], Coords { x: ox + 250_000, y: oy + 250_000, z: 1_200_000 });
    assert_eq!(positions[52], Coords { x: ox + 750_000, y: oy + 750_000, z: 1_200_000 });
    assert_eq!(positions[53], Coords { x: ox + 500_000, y: oy + 500_000, z: 2_000_000 });
    // Every camera stands over its cell.
    for p in &positions {
        assert_eq!(GridCoords::from_world(*p), chunk);
    }
}

#[test]
fn cameras_over_a_cell_with_negative_address() {
    let positions = camera_positions(GridCoords::new(-1, -2));
    assert_eq!(positions[53], Coords { x: -500_000, y: -1_500_000, z: 2_000_000 });
}

#[test]
fn requests_are_numbered_in_the_order_of_the_cameras() {
    let positions = vec![
        Coords { x: 1, y: 2, z: 3 },
        Coords { x: 4, y: 5, z: 6 },
        Coords { x: 7, y: 8, z: 9 },
    ];
    let requests = requests_at(&positions);
    assert_eq!(requests.len(), 3);
    for (k, request) in requests.iter().enumerate() {
        assert_eq!(request.request_id, k as u32);
        assert_eq!(
            request.camera_pose,
            RequestPose::PositionAgl { camera_pos_agl: positions[k] }
        );
    }
}

#[test]
fn range_ends_are_put_in_order() {
    let mut range = ChunkRange { min_easting: 5, max_easting: 3, min_northing: -1, max_northing: 7 };
    range.validate();
    assert_eq!(
        range,
        ChunkRange { min_easting: 3, max_easting: 5, min_northing: -1, max_northing: 7 }
    );
    let mut range = ChunkRange { min_easting: 1, max_easting: 1, min_northing: 9, max_northing: 8 };
    range.validate();
    assert_eq!(
        range,
        ChunkRange { min_easting: 1, max_easting: 1, min_northing: 8, max_northing: 9 }
    );
}

#[test]
fn range_lists_its_cells_by_x_then_y() {
    let range = ChunkRange { min_easting: 3, max_easting: 4, min_northing: -1, max_northing: 1 };
    assert_eq!(
        range.chunks(),
        vec![
            GridCoords::new(3, -1),
            GridCoords::new(3, 0),
            GridCoords::new(3, 1),
            GridCoords::new(4, -1),
            GridCoords::new(4, 0),
            GridCoords::new(4, 1),
        ]
    );
    let backwards = ChunkRange { min_easting: 4, max_easting: 3, min_northing: 0, max_northing: 0 };
    assert!(backwards.chunks().is_empty());
    let edge = ChunkRange {
        min_easting: i32::MAX,
        max_easting: i32::MAX,
        min_northing: i32::MIN,
        max_northing: i32::MIN,
    };
    assert_eq!(edge.chunks(), vec![GridCoords::new(i32::MAX, i32::MIN)]);
}
