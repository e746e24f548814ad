use pazifista::array_waypoint::{
    inspect_arraywaypoint_summary, ArrayWaypointError, ArrayWaypointGrid, ARRAY_WAYPOINT_BLOCK_BYTES,
};

fn synthetic_bytes() -> Vec<u8> {
    let mut bytes = Vec::new();
    bytes.extend_from_slice(&0i32.to_le_bytes());
    bytes.extend_from_slice(&0i32.to_le_bytes());
    bytes.extend_from_slice(&0i32.to_le_bytes());
    bytes.extend_from_slice(&1i32.to_le_bytes());
    bytes.extend_from_slice(&1i32.to_le_bytes());
    bytes.extend_from_slice(&1i32.to_le_bytes());

    assert_eq!(ARRAY_WAYPOINT_BLOCK_BYTES, 128);
    for sub_x in 0..8u16 {
        for sub_z in 0..8u16 {
            let value = sub_x * 10 + sub_z;
            bytes.extend_from_slice(&value.to_be_bytes());
        }
    }
    bytes
}

/// The sector and sub-cell that a world position falls in, with sectors
/// 12800 world units wide.
fn world_cell(world_x: f64, world_z: f64) -> (i32, i32, u8, u8) {
    let sx = world_x / 12800.0;
    let sz = world_z / 12800.0;
    let sector_x = sx.floor() as i32;
    let sector_z = sz.floor() as i32;
    let sub_x = ((sx - f64::from(sector_x)) * 8.0).floor().clamp(0.0, 7.0) as u8;
    let sub_z = ((sz - f64::from(sector_z)) * 8.0).floor().clamp(0.0, 7.0) as u8;
    (sector_x, sector_z, sub_x, sub_z)
}

#[test]
fn reconstructs_single_sector_grid_and_samples_world_positions() {
    let grid = ArrayWaypointGrid::from_bytes(&synthetic_bytes()).expect("grid");
    assert_eq!(grid.grid_width, 8);
    assert_eq!(grid.grid_height, 8);
    assert_eq!(grid.cell_at_grid(0, 7), Some(0));
    assert_eq!(grid.cell_at_grid(7, 0), Some(77));

    let (sx, sz, ux, uz) = world_cell(100.0, 100.0);
    let sample = grid.sample_sector(sx, sz, ux, uz).expect("sample within bounds");
    assert_eq!(sample.grid_x, 0);
    assert_eq!(sample.grid_y, 7);
    assert_eq!(sample.value, 0);

    let (sx, sz, ux, uz) = world_cell(12_799.0, 12_799.0);
    let sample = grid.sample_sector(sx, sz, ux, uz).expect("sample within bounds");
    assert_eq!(sample.grid_x, 7);
    assert_eq!(sample.grid_y, 0);
    assert_eq!(sample.value, 77);
}

#[test]
fn array_waypoint_stats_count_values_and_blocks() {
    let grid = ArrayWaypointGrid::from_bytes(&synthetic_bytes()).expect("grid");
    let stats = &grid.stats;
    assert_eq!(stats.file_size, 24 + 128);
    assert_eq!(stats.payload_bytes, 128);
    assert_eq!(stats.block_count, 1);
    assert_eq!(stats.unique_value_count, 64);
    assert_eq!(stats.unique_high_byte_count, 1);
    assert_eq!(stats.unique_low_byte_count, 64);
    assert_eq!(stats.top_values.len(), 20);
    assert_eq!(stats.top_values[0].value, 0);
    assert_eq!(stats.top_values[1].value, 1);
    assert_eq!(stats.top_values[8].value, 10);
    assert_eq!(stats.top_values[8].value_hex, "000a");
    assert_eq!(stats.top_high_bytes.len(), 1);
    assert_eq!((stats.top_high_bytes[0].value, stats.top_high_bytes[0].count), (0, 64));
    assert_eq!(stats.top_high_bytes[0].value_hex, "00");
    assert_eq!(stats.block_unique_value_histogram.len(), 1);
    assert_eq!(stats.block_unique_value_histogram[0].unique_value_count, 64);
    assert_eq!(stats.block_unique_value_histogram[0].block_count, 1);
    assert_eq!(stats.uniform_block_count, 0);
    assert!(stats.top_uniform_block_values.is_empty());
}

#[test]
fn array_waypoint_uniform_blocks_and_ranking() {
    // two sectors wide: the first block all 0x0102, the second all 7
    let mut bytes = Vec::new();
    for v in [0i32, 0, 0, 2, 1, 1] {
        bytes.extend_from_slice(&v.to_le_bytes());
    }
    for _ in 0..64 {
        bytes.extend_from_slice(&0x0102u16.to_be_bytes());
    }
    for _ in 0..64 {
        bytes.extend_from_slice(&7u16.to_be_bytes());
    }
    let grid = ArrayWaypointGrid::from_bytes(&bytes).expect("grid");
    assert_eq!((grid.grid_width, grid.grid_height), (16, 8));
    assert_eq!(grid.cell_at_grid(0, 0), Some(0x0102));
    assert_eq!(grid.cell_at_grid(8, 0), Some(7));
    assert_eq!(grid.cell_at_grid(16, 0), None);
    let stats = &grid.stats;
    assert_eq!(stats.uniform_block_count, 2);
    assert_eq!(stats.block_unique_value_histogram.len(), 1);
    assert_eq!(stats.block_unique_value_histogram[0].unique_value_count, 1);
    assert_eq!(stats.block_unique_value_histogram[0].block_count, 2);
    let top: Vec<(u32, u64)> = stats.top_values.iter().map(|r| (r.value, r.count)).collect();
    assert_eq!(top, vec![(7, 64), (0x0102, 64)]);
    assert_eq!(stats.top_values[1].value_hex, "0102");
    let uniform: Vec<(u32, u64)> = stats.top_uniform_block_values.iter().map(|r| (r.value, r.count)).collect();
    assert_eq!(uniform, vec![(7, 1), (0x0102, 1)]);
    let sampling = grid.sample_waypoints(&[Some((0, 0, 0, 0)), Some((1, 0, 3, 3)), Some((2, 0, 0, 0)), None]);
    assert_eq!(sampling.total_waypoint_count, 4);
    assert_eq!(sampling.inside_bounds_waypoint_count, 2);
    assert_eq!(sampling.unique_sampled_value_count, 2);
    let focus = [grid.sample_sector(0, 0, 1, 1), grid.sample_sector(-1, 0, 0, 0)];
    let summary = inspect_arraywaypoint_summary(&grid, Some(&sampling), &focus, None, Some("p.bmp"));
    assert_eq!((summary.sector_width, summary.sector_height), (2, 1));
    assert_eq!(summary.total_waypoint_count, Some(4));
    assert_eq!(summary.waypoints_inside_bounds, 2);
    assert_eq!(summary.focus_waypoint_sample_count, 1);
    assert_eq!(summary.preview_bmp_path.as_deref(), Some("p.bmp"));
}

#[test]
fn array_waypoint_preview_is_a_bmp_of_the_grid() {
    let grid = ArrayWaypointGrid::from_bytes(&synthetic_bytes()).expect("grid");
    let bmp = grid.render_bmp_bytes().expect("bmp");
    assert_eq!(&bmp[0..2], b"BM");
    assert_eq!(bmp.len(), 54 + 8 * 24);
    // the first pixel written is the bottom-left cell, value 0
    let [r, g, b] = pazifista::pabr::color_rgb_for_value(0);
    assert_eq!(&bmp[54..57], &[b, g, r]);
}

#[test]
fn array_waypoint_errors() {
    assert_eq!(ArrayWaypointGrid::from_bytes(&[0u8; 23]).unwrap_err(), ArrayWaypointError::TooSmall);
    let mut bytes = synthetic_bytes();
    bytes.pop();
    assert_eq!(
        ArrayWaypointGrid::from_bytes(&bytes).unwrap_err(),
        ArrayWaypointError::PayloadLengthMismatch(128, 127)
    );
    let mut flat = synthetic_bytes();
    flat[12..16].copy_from_slice(&0i32.to_le_bytes());
    assert_eq!(ArrayWaypointGrid::from_bytes(&flat).unwrap_err(), ArrayWaypointError::XSpanNotPositive);
    let mut wide = synthetic_bytes();
    wide[0..4].copy_from_slice(&i32::MIN.to_le_bytes());
    wide[12..16].copy_from_slice(&i32::MAX.to_le_bytes());
    assert_eq!(ArrayWaypointGrid::from_bytes(&wide).unwrap_err(), ArrayWaypointError::XSpanOverflow);
    let mut low = synthetic_bytes();
    low[20..24].copy_from_slice(&(-1i32).to_le_bytes());
    assert_eq!(ArrayWaypointGrid::from_bytes(&low).unwrap_err(), ArrayWaypointError::ZSpanNotPositive);
}
