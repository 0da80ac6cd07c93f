use geo_renderer::coords::{Coords, GridCoords};

#[test]
fn from_world_floors_each_component() {
    let c = GridCoords::from_world(Coords { x: 2_600_999_999, y: -1, z: 5 });
    assert_eq!(c, GridCoords::new(2600, -1));
}

#[test]
fn origin_round_trip() {
    for &(x, y) in &[(0, 0), (2600, 1200), (-7, 3), (i32::MAX, i32::MIN)] {
        let c = GridCoords::new(x, y);
        assert_eq!(GridCoords::from_world(c.to_world_origin()), c);
    }
}

#[test]
fn circle_of_one_cell_radius_is_a_plus() {
    let c = GridCoords::new(10, 20);
    let cells = c.circle(1);
    assert_eq!(
        cells,
        vec![
            GridCoords::new(9, 20),
            GridCoords::new(10, 19),
            GridCoords::new(10, 20),
            GridCoords::new(10, 21),
            GridCoords::new(11, 20),
        ]
    );
}

#[test]
fn min_dist_rounds_down_to_metres() {
    let c = GridCoords::new(0, 0);
    assert_eq!(c.min_dist_m(&GridCoords::new(1, 1)), 0);
    assert_eq!(c.min_dist_m(&GridCoords::new(2, 0)), 1000);
    assert_eq!(c.min_dist_m(&GridCoords::new(-2, 2)), 1414);
}

#[test]
fn circle_m_holds_every_cell_within_the_radius() {
    let c = GridCoords::new(-4, 9);
    for radius in [0, 1, 999, 1000, 2500, 7000] {
        let cells = c.circle_m(radius);
        assert!(cells.contains(&c));
        for d in &cells {
            assert!(d.min_dist_m(&c) <= radius as u64);
            assert_eq!(d.min_dist_m(&c), c.min_dist_m(d));
        }
        // Every cell of the surrounding square that is left out lies beyond
        // the cell radius.
        let r = radius / 1000 + 1;
        for x in c.x - r - 1..=c.x + r + 1 {
            for y in c.y - r - 1..=c.y + r + 1 {
                let inside = (x - c.x) * (x - c.x) + (y - c.y) * (y - c.y) <= r * r;
                assert_eq!(cells.contains(&GridCoords::new(x, y)), inside);
            }
        }
    }
}

#[test]
fn circle_with_negative_radius_is_empty() {
    assert!(GridCoords::new(0, 0).circle(-1).is_empty());
    assert_eq!(GridCoords::new(3, 4).circle(0), vec![GridCoords::new(3, 4)]);
}

#[test]
fn circle_near_the_edge_of_the_address_range_stays_in_range() {
    let c = GridCoords::new(i32::MAX, i32::MIN);
    let cells = c.circle(1);
    assert_eq!(
        cells,
        vec![
            GridCoords::new(i32::MAX - 1, i32::MIN),
            GridCoords::new(i32::MAX, i32::MIN),
            GridCoords::new(i32::MAX, i32::MIN + 1),
        ]
    );
}

#[test]
fn neighbours_step_one_cell() {
    let c = GridCoords::new(7, -3);
    assert_eq!(c.below(), GridCoords::new(7, -2));
    assert_eq!(c.above(), GridCoords::new(7, -4));
    assert_eq!(c.right(), GridCoords::new(8, -3));
    assert_eq!(c.left(), GridCoords::new(6, -3));
}

#[test]
fn from_world_saturates_beyond_the_address_range() {
    let c = GridCoords::from_world(Coords { x: i64::MAX, y: i64::MIN, z: 0 });
    assert_eq!(c, GridCoords::new(i32::MAX, i32::MIN));
}

#[test]
fn min_dist_is_exact_for_far_cells() {
    let a = GridCoords::new(i32::MIN, i32::MIN);
    let b = GridCoords::new(i32::MAX, i32::MAX);
    // Gap of 2^32 - 2 cells along each axis.
    let gap: u128 = (1u128 << 32) - 2;
    let squared = 2 * gap * gap * 1_000_000;
    let d = a.min_dist_m(&b) as u128;
    assert!(d * d <= squared && squared < (d + 1) * (d + 1));
}

#[test]
fn world_origin_is_the_address_in_millimetres() {
    assert_eq!(
        GridCoords::new(2600, -1200).to_world_origin(),
        Coords { x: 2_600_000_000, y: -1_200_000_000, z: 0 }
    );
    assert_eq!(
        GridCoords::new(i32::MIN, i32::MAX).to_world_origin(),
        Coords { x: -2_147_483_648_000_000, y: 2_147_483_647_000_000, z: 0 }
    );
}
