use geo_renderer::lod::{
    calc_lod, next_power_of_two, target_resolution, ElevationPlan, TexturePlan, TextureSteps,
};

#[test]
fn calc_lod_is_the_whole_logarithm_of_the_quotient() {
    assert_eq!(calc_lod(1024, 256), 2);
    assert_eq!(calc_lod(1023, 256), 1);
    assert_eq!(calc_lod(255, 256), 0);
    assert_eq!(calc_lod(0, 5), 0);
    assert_eq!(calc_lod(256, 256), 0);
    assert_eq!(calc_lod(511, 256), 0);
    assert_eq!(calc_lod(512, 256), 1);
    assert_eq!(calc_lod(10_000, 2), 12);
    assert_eq!(calc_lod(u32::MAX, 1), 31);
}

#[test]
fn next_power_of_two_rounds_up() {
    assert_eq!(next_power_of_two(0), 1);
    assert_eq!(next_power_of_two(1), 1);
    assert_eq!(next_power_of_two(2), 2);
    assert_eq!(next_power_of_two(3), 4);
    assert_eq!(next_power_of_two(1000), 1024);
    assert_eq!(next_power_of_two(1024), 1024);
    assert_eq!(next_power_of_two(1025), 2048);
    assert_eq!(next_power_of_two(0x8000_0000), 0x8000_0000);
}

#[test]
fn target_resolution_rounds_up_and_keeps_two_cells() {
    assert_eq!(target_resolution(0), u32::MAX);
    assert_eq!(target_resolution(1), 1_000_000);
    assert_eq!(target_resolution(10_000), 100);
    assert_eq!(target_resolution(10_001), 100);
    assert_eq!(target_resolution(9_999), 101);
    assert_eq!(target_resolution(500_000), 2);
    assert_eq!(target_resolution(3_000_000), 2);
    assert_eq!(target_resolution(u64::MAX), 2);
}

#[test]
fn elevation_plan_snaps_to_a_power_of_two() {
    // Ten metres per pixel ask for 100 cells; a raster of 2000 can be halved
    // four times (125), and 125 rounds up to 128.
    let plan = ElevationPlan::new(10_000, 2000);
    assert_eq!(plan.resolution, 100);
    assert_eq!(plan.lod, 4);
    assert_eq!(plan.level, 2);
    assert_eq!(plan.mesh_resolution, 128);
    assert!(plan.needs_resampling(500, 500));
    assert!(!plan.needs_resampling(128, 128));
    assert!(plan.needs_resampling(128, 127));
}

#[test]
fn elevation_plan_is_capped_at_the_finest_mesh() {
    // One centimetre per pixel asks for 100000 cells, cut to 4000.
    let plan = ElevationPlan::new(10, 2000);
    assert_eq!(plan.resolution, 100_000);
    assert_eq!(plan.lod, 0);
    assert_eq!(plan.level, 0);
    assert_eq!(plan.mesh_resolution, 2048);
    let plan = ElevationPlan::new(0, 16_000);
    assert_eq!(plan.resolution, u32::MAX);
    assert_eq!(plan.lod, 2);
    assert_eq!(plan.level, 2);
    assert_eq!(plan.mesh_resolution, 4096);
}

#[test]
fn elevation_plan_for_a_coarse_view_or_an_empty_raster() {
    let plan = ElevationPlan::new(1_000_000, 2000);
    assert_eq!(plan.resolution, 2);
    assert_eq!(plan.lod, 9);
    assert_eq!(plan.level, 2);
    assert_eq!(plan.mesh_resolution, 4);
    let plan = ElevationPlan::new(10_000, 0);
    assert_eq!(plan.lod, 0);
    assert_eq!(plan.mesh_resolution, 1);
}

#[test]
fn texture_plan_picks_the_level_between_finest_in_use_and_coarsest_stored() {
    assert_eq!(
        TexturePlan::new(100, 0),
        Some(TexturePlan { resolution: 100, lod: 5, cap: 10_000 })
    );
    assert_eq!(
        TexturePlan::new(4000, 0),
        Some(TexturePlan { resolution: 4000, lod: 1, cap: 10_000 })
    );
    assert_eq!(
        TexturePlan::new(20_000, 0),
        Some(TexturePlan { resolution: 10_000, lod: 0, cap: 10_000 })
    );
    assert_eq!(
        TexturePlan::new(20_000, 2),
        Some(TexturePlan { resolution: 2500, lod: 2, cap: 2500 })
    );
    assert_eq!(
        TexturePlan::new(2, 13),
        Some(TexturePlan { resolution: 1, lod: 5, cap: 1 })
    );
    assert_eq!(TexturePlan::new(2, 14), None);
    assert_eq!(TexturePlan::new(2, usize::MAX), None);
}

#[test]
fn texture_steps_follow_the_loaded_width() {
    let plan = TexturePlan::new(1000, 1).unwrap();
    assert_eq!(plan, TexturePlan { resolution: 1000, lod: 3, cap: 5000 });
    assert_eq!(
        plan.steps(1250),
        TextureSteps { max_lod: 1, mip_level_count: 1, soften_to: None, shrink_to: Some(1000) }
    );
    assert_eq!(
        plan.steps(10_000),
        TextureSteps { max_lod: 4, mip_level_count: 4, soften_to: Some(5000), shrink_to: None }
    );
    let fine = TexturePlan { resolution: 10, lod: 5, cap: 10_000 };
    assert_eq!(
        fine.steps(10_000),
        TextureSteps { max_lod: 10, mip_level_count: 5, soften_to: None, shrink_to: None }
    );
    let full = TexturePlan { resolution: 10_000, lod: 0, cap: 10_000 };
    assert_eq!(
        full.steps(10_000),
        TextureSteps { max_lod: 1, mip_level_count: 1, soften_to: None, shrink_to: None }
    );
}

#[test]
fn a_view_without_estimate_gets_the_coarsest_mesh() {
    let plan = ElevationPlan::for_estimate(None, 2000);
    assert_eq!(plan, ElevationPlan::new(500_000, 2000));
    assert_eq!(plan.resolution, 2);
    assert_eq!(plan.mesh_resolution, 4);
    assert_eq!(
        ElevationPlan::for_estimate(Some(10_000), 2000),
        ElevationPlan::new(10_000, 2000)
    );
}
