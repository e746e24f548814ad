use pazifista::pabr::geojson::Rectangle;
use pazifista::pabr::matching::{merge_intervals, subtract_intervals};
use pazifista::pabr::render::{bmp_header, preserve_aspect};
use pazifista::pabr::util::color_bgr_for_region_id;
use pazifista::pabr::{BkdFile, Breakpoint, OutputDimensions, PabrError, PabrMap, RidFile, RowSegment};

fn small_map() -> PabrMap {
    PabrMap {
        rid_path: "test.rid".into(),
        bkd_path: "test.bkd".into(),
        rid: RidFile { region_ids: vec![4, 9], native_width: 4, native_height: 4, trailer_prefix_len: 0 },
        bkd: BkdFile {
            rows: vec![
                vec![Breakpoint { source_x: 0, dictionary_index: 0 }, Breakpoint { source_x: 2, dictionary_index: 1 }],
                vec![Breakpoint { source_x: 0, dictionary_index: 0 }, Breakpoint { source_x: 2, dictionary_index: 1 }],
                vec![Breakpoint { source_x: 0, dictionary_index: 1 }],
                vec![Breakpoint { source_x: 0, dictionary_index: 1 }],
            ],
            trailer_words: [0, 0, 0],
            max_source_x: 3,
        },
    }
}

#[test]
fn build_rectangles_merges_matching_runs_vertically() {
    let map = small_map();
    let rectangles = map.build_rectangles(0, None).expect("rectangles");

    assert_eq!(rectangles.get(&4), Some(&vec![Rectangle { start_x: 0, end_x: 2, start_y: 0, end_y: 2 }]));
    assert_eq!(
        rectangles.get(&9),
        Some(&vec![
            Rectangle { start_x: 2, end_x: 4, start_y: 0, end_y: 2 },
            Rectangle { start_x: 0, end_x: 4, start_y: 2, end_y: 4 },
        ])
    );
}

#[test]
fn build_field_rows_preserves_background_gaps() {
    let map = PabrMap {
        rid_path: "test.rid".into(),
        bkd_path: "test.bkd".into(),
        rid: RidFile { region_ids: vec![4], native_width: 4, native_height: 2, trailer_prefix_len: 0 },
        bkd: BkdFile {
            rows: vec![vec![
                Breakpoint { source_x: 1, dictionary_index: 0 },
                Breakpoint { source_x: 3, dictionary_index: u16::MAX },
            ]],
            trailer_words: [0, 0, 0],
            max_source_x: 3,
        },
    };

    let field = map.build_field_rows(0, None).expect("field");
    let expected = vec![
        vec![RowSegment { start_x: 0, end_x: 3, value: 4 }],
        vec![RowSegment { start_x: 0, end_x: 3, value: 4 }],
    ];
    assert_eq!(field, expected);
}

#[test]
fn segments_follow_the_row_shift() {
    let map = small_map();
    let shifted = map.decoded_row_segments(0, 1, None).expect("segments");
    assert_eq!(
        shifted,
        vec![RowSegment { start_x: 0, end_x: 2, value: 4 }, RowSegment { start_x: 2, end_x: 4, value: 9 }]
    );
    let row1 = map.decoded_row_segments(1, 1, None).expect("segments");
    assert_eq!(
        row1,
        vec![RowSegment { start_x: 0, end_x: 1, value: 4 }, RowSegment { start_x: 1, end_x: 4, value: 9 }]
    );
    assert_eq!(map.decoded_row_segments(7, 0, None).unwrap_err(), PabrError::SourceRowOutOfBounds(7));
}

#[test]
fn native_areas_sum_run_widths() {
    let areas = small_map().native_region_areas(0).expect("areas");
    assert_eq!(areas.get(&4), Some(&4));
    assert_eq!(areas.get(&9), Some(&12));
    assert_eq!(areas.len(), 2);
}

#[test]
fn geojson_export_counts_features_and_rectangles() {
    let (rectangles, summary) = small_map().export_regions_geojson("out/regions.geojson", 0).expect("export");
    assert_eq!(summary.output_path, "out/regions.geojson");
    assert_eq!(summary.feature_count, 2);
    assert_eq!(summary.rectangle_count, 3);
    assert_eq!(rectangles.len(), 2);
}

#[test]
fn scanline_rows_take_the_mode_of_the_bands() {
    let map = small_map();
    let row = map.render_scanline_row(0, 4, 0, 12).expect("row");
    let a = color_bgr_for_region_id(4);
    let b = color_bgr_for_region_id(9);
    assert_eq!(row, [a, a, b, b].concat());
    let padded = map.render_scanline_row(2, 1, 0, 4).expect("row");
    assert_eq!(padded, [b.to_vec(), vec![0]].concat());
}

#[test]
fn bmp_bytes_start_with_the_header_and_end_with_the_top_row() {
    let map = small_map();
    let dims = OutputDimensions { width: 4, height: 4 };
    let bytes = map.render_bmp_bytes(dims, 0).expect("bmp");
    assert_eq!(bytes.len(), 54 + 4 * 12);
    assert_eq!(&bytes[..54], &bmp_header(dims, 48, 102)[..]);
    assert_eq!(&bytes[0..2], b"BM");
    assert_eq!(u32::from_le_bytes([bytes[2], bytes[3], bytes[4], bytes[5]]), 102);
    let top = map.render_scanline_row(0, 4, 0, 12).expect("row");
    assert_eq!(&bytes[54 + 36..], &top[..]);
    assert_eq!(
        map.render_bmp_bytes(OutputDimensions { width: 0, height: 4 }, 0).unwrap_err(),
        PabrError::ZeroOutputDimensions
    );
}

#[test]
fn aspect_rounds_to_nearest() {
    assert_eq!(preserve_aspect(2048, 11560, 10540), 1867);
    assert_eq!(preserve_aspect(1860, 10540, 11560), 2040);
    assert_eq!(preserve_aspect(0, 5, 7), 1);
}

#[test]
fn merging_joins_overlapping_and_touching_intervals() {
    let mut intervals = vec![(5, 7), (0, 2), (2, 3), (6, 9), (11, 12)];
    merge_intervals(&mut intervals);
    assert_eq!(intervals, vec![(0, 3), (5, 9), (11, 12)]);
    let mut single = vec![(4, 1)];
    merge_intervals(&mut single);
    assert_eq!(single, vec![(4, 1)]);
}

#[test]
fn subtracting_cuts_holes_out_of_intervals() {
    let base = vec![(0, 10), (20, 30)];
    let holes = vec![(2, 4), (8, 22), (25, 26)];
    assert_eq!(subtract_intervals(&base, &holes), vec![(0, 2), (4, 8), (22, 25), (26, 30)]);
    assert_eq!(subtract_intervals(&base, &[]), base);
    assert_eq!(subtract_intervals(&[(0, 5)], &[(0, 5)]), vec![]);
}
