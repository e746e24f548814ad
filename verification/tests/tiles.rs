use pazifista::archive::FileEntry;
use pazifista::tiles::{
    build_occupancy, output_name_for_entry, parse_coord_stem, parse_minimap_tile_name, MinimapTileNameError, parse_level_tile_name, parse_tile_name, tile_parent_quadrant,
    OccupancyError,
};

#[test]
fn parent_quadrants_handle_positive_tiles() {
    assert_eq!(tile_parent_quadrant(0, 0), (0, 0, 0, 0));
    assert_eq!(tile_parent_quadrant(1, 0), (0, 0, 1, 0));
    assert_eq!(tile_parent_quadrant(0, 1), (0, 0, 0, 1));
    assert_eq!(tile_parent_quadrant(3, 2), (1, 1, 1, 0));
}

#[test]
fn parent_quadrants_round_towards_negative_infinity() {
    assert_eq!(tile_parent_quadrant(-1, -2), (-1, -1, 1, 0));
    assert_eq!(tile_parent_quadrant(-3, 5), (-2, 2, 1, 1));
    assert_eq!(tile_parent_quadrant(i32::MIN, i32::MAX), (i32::MIN / 2, i32::MAX / 2, 0, 1));
}

#[test]
fn occupancy_bitset_roundtrip() {
    let bits = build_occupancy(&[(0, 0), (1, 0), (0, 1), (1, 1)]).expect("occupancy");
    assert_eq!(bits.width, 2);
    assert_eq!(bits.height, 2);
    assert_eq!(bits.bits.len(), 1);
    assert_eq!(bits.bits[0] & 0x0F, 0x0F);
}

#[test]
fn occupancy_marks_only_keys_in_the_bounding_box() {
    let bits = build_occupancy(&[(-2, 5), (1, 7), (1, 7)]).expect("occupancy");
    assert_eq!((bits.min_x, bits.min_y, bits.width, bits.height), (-2, 5, 4, 3));
    assert_eq!(bits.bits.len(), 2);
    // (-2, 5) is bit 0; (1, 7) is bit 2 * 4 + 3 = 11.
    assert_eq!(bits.bits, vec![0b0000_0001, 0b0000_1000]);
}

#[test]
fn occupancy_of_an_empty_level_is_an_error() {
    assert_eq!(build_occupancy(&[]).unwrap_err(), OccupancyError::EmptyLevel);
}

fn entry(file_path: &str) -> FileEntry {
    FileEntry {
        paz_num: 1,
        offset: 0,
        compressed_size: 0,
        original_size: 0,
        file_name: String::new(),
        file_path: file_path.to_string(),
    }
}

#[test]
fn output_name_maps_rader_dds_to_png() {
    let entry = FileEntry {
        paz_num: 1,
        offset: 0,
        compressed_size: 0,
        original_size: 0,
        file_name: "rader_24_-14.dds".to_string(),
        file_path: "ui_texture/new_ui_common_forlua/widget/rader/minimap_data_pack/rader_24_-14.dds"
            .to_string(),
    };
    assert_eq!(output_name_for_entry(&entry).as_deref(), Some("rader_24_-14.png"));
}

#[test]
fn output_name_skips_other_files() {
    assert_eq!(output_name_for_entry(&entry("pack/other_1.dds")), None);
    assert_eq!(output_name_for_entry(&entry("pack/rader_1.png")), None);
    assert_eq!(output_name_for_entry(&entry("")), None);
}

#[test]
fn tile_names_read_back_as_their_tiles() {
    for (x, y) in [(0, 0), (-3, 12), (i32::MIN, i32::MAX), (7, -1)] {
        let name = pazifista::tiles::tile_name(x, y);
        assert_eq!(name, format!("{x}_{y}.png"));
        assert_eq!(parse_tile_name(&name), Some((x, y)));
    }
}

#[test]
fn tile_names_need_two_numbers_and_the_png_extension() {
    assert_eq!(parse_tile_name("-4_+5.png"), Some((-4, 5)));
    assert_eq!(parse_tile_name("1_2.jpg"), None);
    assert_eq!(parse_tile_name("1_2_3.png"), None);
    assert_eq!(parse_tile_name("12.png"), None);
    assert_eq!(parse_tile_name("2147483648_0.png"), None);
    assert_eq!(parse_tile_name("-2147483648_0.png"), Some((i32::MIN, 0)));
    assert_eq!(parse_coord_stem("-10_20"), Some((-10, 20)));
    assert_eq!(parse_coord_stem("_20"), None);
    assert_eq!(parse_coord_stem("-_1"), None);
    assert_eq!(parse_level_tile_name("3_4.png"), Some((3, 4)));
    assert_eq!(parse_level_tile_name("-3_4.png"), None);
}

#[test]
fn minimap_tile_names_give_their_coordinates() {
    assert_eq!(parse_minimap_tile_name("rader_-3_12.png", 4), Ok((-3, 12)));
    assert_eq!(parse_minimap_tile_name("rader_3_1_2.png", 4), Err(MinimapTileNameError::InvalidY(4)));
    assert_eq!(parse_minimap_tile_name("rader_x_1.png", 5), Err(MinimapTileNameError::InvalidX(5)));
    assert_eq!(parse_minimap_tile_name("map_1_2.png", 6), Err(MinimapTileNameError::InvalidName(6)));
    assert_eq!(parse_minimap_tile_name("rader_1_2.dds", 7), Err(MinimapTileNameError::InvalidName(7)));
    assert_eq!(parse_minimap_tile_name("rader_12.png", 8), Err(MinimapTileNameError::InvalidName(8)));
}
