use pazifista::pabr::util::{
    color_bgr_for_region_id, color_rgb_for_value, mode_region_id, mode_value, sample_local_x, sample_source_row,
};
use pazifista::pabr::{
    BkdFile, Breakpoint, OutputDimensions, PabrError, PabrMap, RidFile, RID_FOOTER_LEN, RID_FOOTER_SIGNATURE,
};

fn make_rid_bytes(region_ids: &[u16], width: u16, height: u16, prefix: &[u8]) -> Vec<u8> {
    let mut bytes = Vec::new();
    bytes.extend_from_slice(b"PABR");
    bytes.extend_from_slice(&(region_ids.len() as u32).to_le_bytes());
    for region_id in region_ids {
        bytes.extend_from_slice(&region_id.to_le_bytes());
    }
    bytes.extend_from_slice(prefix);

    let mut footer = [0u8; RID_FOOTER_LEN];
    footer[0..RID_FOOTER_SIGNATURE.len()].copy_from_slice(&RID_FOOTER_SIGNATURE);
    footer[10..12].copy_from_slice(&width.to_le_bytes());
    footer[14..16].copy_from_slice(&height.to_le_bytes());
    bytes.extend_from_slice(&footer);
    bytes
}

fn make_bkd_bytes(rows: &[Vec<Breakpoint>]) -> Vec<u8> {
    let mut bytes = Vec::new();
    bytes.extend_from_slice(b"PABR");
    bytes.extend_from_slice(&(rows.len() as u32).to_le_bytes());

    for row in rows {
        bytes.extend_from_slice(&(row.len() as u32).to_le_bytes());
        for breakpoint in row {
            bytes.extend_from_slice(&breakpoint.source_x.to_le_bytes());
            bytes.extend_from_slice(&breakpoint.dictionary_index.to_le_bytes());
        }
    }

    let payload_end = bytes.len() as u32;
    bytes.extend_from_slice(&0u32.to_le_bytes());
    bytes.extend_from_slice(&payload_end.to_le_bytes());
    bytes.extend_from_slice(&0u32.to_le_bytes());
    bytes
}

fn sample_rows() -> Vec<Vec<Breakpoint>> {
    vec![
        vec![
            Breakpoint { source_x: 0, dictionary_index: 0 },
            Breakpoint { source_x: 32768, dictionary_index: 1 },
        ],
        vec![Breakpoint { source_x: 0, dictionary_index: 1 }],
    ]
}

fn build_test_map() -> PabrMap {
    PabrMap {
        rid_path: "test.rid".into(),
        bkd_path: "test.bkd".into(),
        rid: RidFile {
            region_ids: vec![4, 17],
            native_width: 11560,
            native_height: 10540,
            trailer_prefix_len: 4,
        },
        bkd: BkdFile { rows: sample_rows(), trailer_words: [0, 24, 0], max_source_x: 32768 },
    }
}

fn check_rid_footer() {
    let rid = RidFile::from_bytes(&make_rid_bytes(&[4, 17], 11560, 10540, &[1, 2, 3, 4])).expect("RID should parse");

    assert_eq!(rid.region_ids, vec![4, 17]);
    assert_eq!(rid.native_width, 11560);
    assert_eq!(rid.native_height, 10540);
    assert_eq!(rid.trailer_prefix_len, 4);
}

fn check_bkd_rows() {
    let rows = sample_rows();
    let bkd = BkdFile::from_bytes(&make_bkd_bytes(&rows)).expect("BKD should parse");

    assert_eq!(bkd.rows, rows);
    assert_eq!(bkd.max_source_x, 32768);
}

fn check_sampling() {
    assert_eq!(sample_local_x(0, 4, 11560), 1445);
    assert_eq!(sample_local_x(3, 4, 11560), 10115);
    assert_eq!(sample_source_row(0, 4, 2), 0);
    assert_eq!(sample_source_row(3, 4, 2), 1);
}

fn check_false_color() {
    let a = color_bgr_for_region_id(4);
    let b = color_bgr_for_region_id(4);
    let c = color_bgr_for_region_id(5);

    assert_eq!(a, b);
    assert_ne!(a, [0, 0, 0]);
    assert_ne!(a, c);
}

fn check_explicit_dimensions() {
    let dimensions = OutputDimensions { width: 128, height: 64 };
    assert_eq!(dimensions.width, 128);
    assert_eq!(dimensions.height, 64);
}

#[test]
fn pabr_rid_footer_dimensions_are_parsed_from_fixed_trailer() {
    check_rid_footer();
}

#[test]
fn parse_rid_footer_dimensions_are_parsed_from_fixed_trailer() {
    check_rid_footer();
}

#[test]
fn pabr_bkd_rows_parse_sorted_breakpoints_and_footer_offset() {
    check_bkd_rows();
}

#[test]
fn parse_bkd_rows_parse_sorted_breakpoints_and_footer_offset() {
    check_bkd_rows();
}

#[test]
fn pabr_sampling_uses_pixel_centers() {
    check_sampling();
}

#[test]
fn util_sampling_uses_pixel_centers() {
    check_sampling();
}

#[test]
fn pabr_false_color_is_deterministic_and_non_black() {
    check_false_color();
}

#[test]
fn util_false_color_is_deterministic_and_non_black() {
    check_false_color();
}

#[test]
fn pabr_explicit_dimensions_are_returned_directly() {
    check_explicit_dimensions();
}

#[test]
fn render_explicit_dimensions_are_returned_directly() {
    check_explicit_dimensions();
}

#[test]
fn mode_prefers_majority_then_lowest_region_id() {
    assert_eq!(mode_region_id(&[9, 4, 9, 4, 4]), 4);
    assert_eq!(mode_region_id(&[9, 4]), 4);
}

#[test]
fn mode_prefers_majority_then_lowest_value() {
    assert_eq!(mode_region_id(&[9, 4, 9, 4, 4]), 4);
    assert_eq!(mode_region_id(&[9, 4]), 4);
    assert_eq!(mode_value(&[12, 8, 12, 8, 8]), 8);
    assert_eq!(mode_value(&[12, 8]), 8);
}

#[test]
fn inspect_reports_wrapped_bands_and_used_ids() {
    let map = PabrMap {
        rid_path: "test.rid".into(),
        bkd_path: "test.bkd".into(),
        rid: RidFile { region_ids: vec![4, 17], native_width: 11560, native_height: 10540, trailer_prefix_len: 0 },
        bkd: BkdFile {
            rows: vec![
                vec![
                    Breakpoint { source_x: 0, dictionary_index: 0 },
                    Breakpoint { source_x: 32768, dictionary_index: 1 },
                ],
                vec![Breakpoint { source_x: 0, dictionary_index: u16::MAX }],
            ],
            trailer_words: [0, 0, 0],
            max_source_x: 32768,
        },
    };

    let inspect = map.inspect().expect("inspect should succeed");
    assert_eq!(inspect.wrapped_bands, 3);
    assert_eq!(inspect.used_region_ids, 2);
    assert_eq!(inspect.transparent_breakpoints, 1);
}

#[test]
fn output_dimensions_keep_the_native_aspect_without_scale() {
    let map = build_test_map();
    assert_eq!(map.resolve_output_dimensions(Some(2048), None), OutputDimensions { width: 2048, height: 1867 });
    assert_eq!(map.resolve_output_dimensions(None, Some(1860)), OutputDimensions { width: 2040, height: 1860 });
    assert_eq!(map.resolve_output_dimensions(None, None), OutputDimensions { width: 11560, height: 10540 });
    assert_eq!(map.resolve_output_dimensions(Some(7), Some(9)), OutputDimensions { width: 7, height: 9 });
}

#[test]
fn mode_is_the_most_frequent_then_smallest_value() {
    assert_eq!(mode_value(&[5]), 5);
    assert_eq!(mode_value(&[3, 1, 2]), 1);
    assert_eq!(mode_value(&[7, 7, 1, 2]), 7);
}

#[test]
fn false_colours_stay_in_the_bright_band() {
    for value in [0u32, 1, 4, 5, 255, 65535, u32::MAX] {
        let rgb = color_rgb_for_value(value);
        for channel in rgb {
            assert!((64..192).contains(&channel));
        }
        let bgr = color_bgr_for_region_id((value & 0xFFFF) as u16);
        let rgb16 = color_rgb_for_value(value & 0xFFFF);
        assert_eq!(bgr, [rgb16[2], rgb16[1], rgb16[0]]);
    }
}

#[test]
fn rid_errors_are_reported() {
    assert_eq!(RidFile::from_bytes(&[0u8; 10]).unwrap_err(), PabrError::RidTooSmall);
    let mut bytes = make_rid_bytes(&[4], 1, 1, &[]);
    bytes[0] = b'X';
    assert_eq!(RidFile::from_bytes(&bytes).unwrap_err(), PabrError::RidMissingMagic);
    let mut bytes = make_rid_bytes(&[4], 1, 1, &[]);
    bytes[4] = 200;
    assert_eq!(RidFile::from_bytes(&bytes).unwrap_err(), PabrError::RidDictionaryExceedsFile);
    let mut bytes = make_rid_bytes(&[4], 1, 1, &[]);
    let footer = bytes.len() - RID_FOOTER_LEN;
    bytes[footer + 2] = 0;
    assert_eq!(RidFile::from_bytes(&bytes).unwrap_err(), PabrError::RidFooterSignature);
}

#[test]
fn bkd_errors_are_reported() {
    assert_eq!(BkdFile::from_bytes(&[0u8; 10]).unwrap_err(), PabrError::BkdTooSmall);
    let unsorted = vec![vec![
        Breakpoint { source_x: 5, dictionary_index: 0 },
        Breakpoint { source_x: 2, dictionary_index: 0 },
    ]];
    assert_eq!(BkdFile::from_bytes(&make_bkd_bytes(&unsorted)).unwrap_err(), PabrError::BkdRowNotSorted(0));
    let mut bytes = make_bkd_bytes(&sample_rows());
    let n = bytes.len();
    bytes[n - 8] ^= 1;
    assert!(matches!(BkdFile::from_bytes(&bytes).unwrap_err(), PabrError::BkdFooterOffsetMismatch(_, _)));
    let mut bytes = make_bkd_bytes(&sample_rows());
    bytes.push(0);
    assert_eq!(BkdFile::from_bytes(&bytes).unwrap_err(), PabrError::BkdFooterLengthMismatch(13));
}

#[test]
fn inspect_reports_out_of_range_dictionary_indices() {
    let mut map = build_test_map();
    map.bkd.rows[1][0].dictionary_index = 9;
    assert_eq!(map.inspect().unwrap_err(), PabrError::DictionaryIndexOutOfRange(9, 2));
    let used = build_test_map().used_region_ids().expect("used ids");
    assert_eq!(used.into_iter().collect::<Vec<_>>(), vec![4, 17]);
}

#[test]
fn paired_paths_swap_the_extension() {
    let (rid, bkd) = PabrMap::paired_paths("maps/area.RID").expect("rid input");
    assert_eq!(rid, "maps/area.RID");
    assert_eq!(bkd, "maps/area.bkd");
    let (rid, bkd) = PabrMap::paired_paths("maps/area.bkd").expect("bkd input");
    assert_eq!(rid, "maps/area.rid");
    assert_eq!(bkd, "maps/area.bkd");
    assert_eq!(PabrMap::paired_paths("maps/area.png").unwrap_err(), PabrError::NotPabrPath("png".to_string()));
}

#[test]
fn from_paths_reads_both_files() {
    let rid = make_rid_bytes(&[4, 17], 11560, 10540, &[]);
    let bkd = make_bkd_bytes(&sample_rows());
    let map = PabrMap::from_paths("a.rid", "a.bkd", &rid, &bkd).expect("map");
    assert_eq!(map.rid.region_ids, vec![4, 17]);
    assert_eq!(map.bkd.rows, sample_rows());
    assert_eq!(map.rid_path, "a.rid");
}
