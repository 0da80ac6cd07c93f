use geo_renderer::config::StorageConfig;
use geo_renderer::coords::{Coords, Direction, GridCoords};
use geo_renderer::gridsquare::GridSquare;
use geo_renderer::renderer::{
    group_requests, order_by_request_id, plan_chunk, plan_renders, reload_needed, sort_requests_by_agl,
    NormalizedRenderRequest, RenderRequest, RequestPose, UNLOADED_AGL_MM,
};

fn config() -> StorageConfig {
    StorageConfig {
        surface_dir: "surface".to_string(),
        alti_dir: "alti".to_string(),
        image_dir: "image".to_string(),
        image_max_lod: 0,
    }
}

/// A tile at the origin whose ground rises by one millimetre per metre east,
/// starting at 400 m.
fn sloped_tile() -> GridSquare {
    let mesh = 4;
    let mut samples = Vec::new();
    for _row in 0..mesh {
        for x in 0..mesh {
            samples.push(400_000 + 250 * x as i64);
        }
    }
    GridSquare::new(GridCoords::new(0, 0), 8, mesh, samples, config()).unwrap()
}

fn flat_tile(height: i64) -> GridSquare {
    GridSquare::new(GridCoords::new(0, 0), 2, 2, vec![height; 4], config()).unwrap()
}

fn agl_request(id: u32, x: i64, y: i64, z: i64) -> RenderRequest {
    RenderRequest {
        camera_pose: RequestPose::PositionAgl { camera_pos_agl: Coords { x, y, z } },
        request_id: id,
    }
}

fn normal_at(id: u32, agl: i64) -> NormalizedRenderRequest {
    NormalizedRenderRequest {
        camera_pos_agl: Coords { x: 0, y: 0, z: agl },
        camera_pos_asl: Coords { x: 0, y: 0, z: agl },
        camera_fwd: Direction { x: 0, y: 0, z: -1 },
        camera_up: Direction { x: 0, y: -1, z: 0 },
        request_id: id,
    }
}

#[test]
fn height_above_ground_gets_the_ground_added() {
    let tile = sloped_tile();
    let request = agl_request(7, 500_000, 100_000, 300_000);
    let normal = request.normalize(&tile);
    assert_eq!(normal.camera_pos_agl, Coords { x: 500_000, y: 100_000, z: 300_000 });
    assert_eq!(normal.camera_pos_asl, Coords { x: 500_000, y: 100_000, z: 700_500 });
    assert_eq!(normal.camera_fwd, Direction { x: 0, y: 0, z: -1 });
    assert_eq!(normal.camera_up, Direction { x: 0, y: -1, z: 0 });
    assert_eq!(normal.request_id, 7);
}

#[test]
fn height_above_sea_gets_the_ground_taken_off() {
    let tile = sloped_tile();
    let request = RenderRequest {
        camera_pose: RequestPose::PositionAsl {
            camera_pos_asl: Coords { x: 250_000, y: 0, z: 1_000_000 },
        },
        request_id: 1,
    };
    let normal = request.normalize(&tile);
    assert_eq!(normal.camera_pos_asl, Coords { x: 250_000, y: 0, z: 1_000_000 });
    assert_eq!(normal.camera_pos_agl, Coords { x: 250_000, y: 0, z: 599_750 });
    assert_eq!(normal.camera_fwd, Direction { x: 0, y: 0, z: -1 });
    assert_eq!(normal.camera_up, Direction { x: 0, y: -1, z: 0 });
}

#[test]
fn explicit_directions_are_kept() {
    let tile = sloped_tile();
    let fwd = Direction { x: 3, y: -4, z: -12 };
    let up = Direction { x: 0, y: 0, z: 1 };
    let request = RenderRequest {
        camera_pose: RequestPose::FacingAsl {
            camera_pos_asl: Coords { x: 0, y: 0, z: 400_000 },
            camera_fwd: fwd,
            camera_up: up,
        },
        request_id: 2,
    };
    let normal = request.normalize(&tile);
    assert_eq!(normal.camera_pos_agl.z, 0);
    assert_eq!(normal.camera_fwd, fwd);
    assert_eq!(normal.camera_up, up);
    assert_eq!(normal.request_id, 2);
}

#[test]
fn heights_saturate_at_the_ends_of_the_range() {
    let tile = flat_tile(1000);
    let high = agl_request(0, 0, 0, i64::MAX).normalize(&tile);
    assert_eq!(high.camera_pos_asl.z, i64::MAX);
    let low = RenderRequest {
        camera_pose: RequestPose::PositionAsl { camera_pos_asl: Coords { x: 0, y: 0, z: i64::MIN } },
        request_id: 0,
    }
    .normalize(&tile);
    assert_eq!(low.camera_pos_agl.z, i64::MIN);
}

#[test]
fn pose_names_the_cell_under_the_camera() {
    let pose = RequestPose::PositionAsl {
        camera_pos_asl: Coords { x: 2_600_123_456, y: -1, z: 9 },
    };
    assert_eq!(pose.position(), Coords { x: 2_600_123_456, y: -1, z: 9 });
    assert_eq!(pose.grid_coords(), GridCoords::new(2600, -1));
}

#[test]
fn requests_are_grouped_by_cell_in_their_order() {
    let requests = vec![
        agl_request(0, 100, 100, 1),
        agl_request(1, 1_000_100, 100, 2),
        agl_request(2, 999_999, 999_999, 3),
        agl_request(3, -1, 0, 4),
        agl_request(4, 1_999_999, 0, 5),
        agl_request(5, 0, 0, 6),
    ];
    let mut chunks = group_requests(requests.clone());
    chunks.sort_by_key(|c| (c.coords.x, c.coords.y));
    assert_eq!(chunks.len(), 3);
    assert_eq!(chunks[0].coords, GridCoords::new(-1, 0));
    assert_eq!(chunks[0].requests, vec![requests[3]]);
    assert_eq!(chunks[1].coords, GridCoords::new(0, 0));
    assert_eq!(chunks[1].requests, vec![requests[0], requests[2], requests[5]]);
    assert_eq!(chunks[2].coords, GridCoords::new(1, 0));
    assert_eq!(chunks[2].requests, vec![requests[1], requests[4]]);
}

#[test]
fn grouping_nothing_gives_nothing() {
    assert!(group_requests(Vec::new()).is_empty());
}

#[test]
fn ordering_by_height_keeps_equal_heights_in_order() {
    let requests = vec![
        normal_at(0, 500),
        normal_at(1, 100),
        normal_at(2, 500),
        normal_at(3, -7),
        normal_at(4, 100),
    ];
    let sorted = sort_requests_by_agl(&requests);
    let ids: Vec<u32> = sorted.iter().map(|r| r.request_id).collect();
    assert_eq!(ids, vec![3, 1, 4, 0, 2]);
}

#[test]
fn terrain_reload_fires_above_one_and_a_half_times_the_loaded_height() {
    let heights_m = [300, 550, 800, 1200, 2000];
    let requests: Vec<NormalizedRenderRequest> = heights_m
        .iter()
        .enumerate()
        .map(|(id, h)| normal_at(id as u32, h * 1000))
        .collect();
    let plan = plan_renders(&requests);
    let fired: Vec<bool> = plan.iter().map(|p| p.reload).collect();
    // 300 > -1500; 550 > 450; 800 <= 825; 1200 > 825; 2000 > 1800.
    assert_eq!(fired, vec![true, true, false, true, true]);
    let loaded: Vec<i64> = plan.iter().map(|p| p.terrain_agl).collect();
    assert_eq!(loaded, vec![300_000, 550_000, 550_000, 1_200_000, 2_000_000]);
    for (step, request) in plan.iter().zip(&requests) {
        assert_eq!(step.request, *request);
    }
}

#[test]
fn reload_threshold_is_strict() {
    assert!(!reload_needed(1500, 1000));
    assert!(reload_needed(1501, 1000));
    assert!(reload_needed(0, UNLOADED_AGL_MM));
    assert!(reload_needed(-1_499_999, UNLOADED_AGL_MM));
    assert!(!reload_needed(-1_500_000, UNLOADED_AGL_MM));
    assert!(!reload_needed(i64::MIN, i64::MAX));
    assert!(reload_needed(i64::MAX, i64::MIN));
}

#[test]
fn chunk_plan_orders_by_height_above_ground() {
    let tile = sloped_tile();
    let requests = vec![
        agl_request(0, 0, 0, 900_000),
        RenderRequest {
            camera_pose: RequestPose::PositionAsl {
                camera_pos_asl: Coords { x: 0, y: 0, z: 700_000 },
            },
            request_id: 1,
        },
        agl_request(2, 0, 0, 400_000),
    ];
    let plan = plan_chunk(&requests, &tile);
    let ids: Vec<u32> = plan.iter().map(|p| p.request.request_id).collect();
    // Heights above ground: 900 m, 700 - 400 = 300 m, 400 m.
    assert_eq!(ids, vec![1, 2, 0]);
    let fired: Vec<bool> = plan.iter().map(|p| p.reload).collect();
    assert_eq!(fired, vec![true, false, true]);
    assert_eq!(plan[1].terrain_agl, 300_000);
    assert_eq!(plan[2].terrain_agl, 900_000);
}

#[test]
fn results_are_handed_back_by_request_number() {
    let ids = vec![7, 3, 9, 3, 0, 7, 1];
    assert_eq!(order_by_request_id(&ids), vec![4, 6, 1, 3, 0, 5, 2]);
    assert_eq!(order_by_request_id(&vec![]), Vec::<usize>::new());
    assert_eq!(order_by_request_id(&vec![5, 5, 5]), vec![0, 1, 2]);
    assert_eq!(order_by_request_id(&vec![u32::MAX, 0]), vec![1, 0]);
}
