use std::collections::BTreeSet;

use pazifista::gcdata::{
    decode_regiongroupinfo_bss_rows, regiongroupinfo_inspect_summary, regioninfo_inspect_summary,
    inspect_regionclientdata, RegionClientDataVariant,
};
use std::collections::BTreeMap;
use pazifista::gcdata::{
    decode_shifted_u32_field, decode_unaligned_u32_field, infer_regionclientdata_variant, inspect_pabr_table,
    parse_regionclientdata_region_ids, split_waypoint_name, GcdataError,
};

#[test]
fn parses_regionclientdata_keys() {
    let contents = r#"
            <Root>
              <RegionInfo Key="1677"></RegionInfo>
              <RegionInfo Key="1150"><SpawnInfo key="1" /></RegionInfo>
              <RegionInfo Key="1677"></RegionInfo>
            </Root>
        "#;

    let region_ids = parse_regionclientdata_region_ids(contents).unwrap();
    assert_eq!(region_ids.into_iter().collect::<Vec<_>>(), vec![1150, 1677]);
}

#[test]
fn infers_regionclientdata_variant_from_filename() {
    assert_eq!(infer_regionclientdata_variant("regionclientdata_sa_.xml"), "sa");
    assert_eq!(infer_regionclientdata_variant("custom-name.xml"), "custom-name");
}

#[test]
fn splits_scope_and_token_from_waypoint_name() {
    assert_eq!(
        split_waypoint_name("town(olvia_academy)"),
        (Some("town".to_string()), Some("olvia_academy".to_string()))
    );
    assert_eq!(
        split_waypoint_name("hidden_town_velia(worker)"),
        (Some("hidden_town_velia".to_string()), Some("worker".to_string()))
    );
    assert_eq!(split_waypoint_name("plain_name"), (None, None));
}

#[test]
fn waypoint_names_with_empty_parts() {
    assert_eq!(split_waypoint_name("(x)"), (None, Some("x".to_string())));
    assert_eq!(split_waypoint_name("a()"), (Some("a".to_string()), None));
    assert_eq!(split_waypoint_name("a(b"), (None, None));
}

#[test]
fn bad_region_keys_are_reported() {
    assert_eq!(
        parse_regionclientdata_region_ids("<RegionInfo Key=\"12x\">").unwrap_err(),
        GcdataError::BadKey("12x".to_string())
    );
    assert_eq!(
        parse_regionclientdata_region_ids("<RegionInfo Key=\"12").unwrap_err(),
        GcdataError::UnterminatedKey
    );
    assert!(parse_regionclientdata_region_ids("no regions here").unwrap().is_empty());
}

#[test]
fn variant_names_fall_back_to_the_stem() {
    assert_eq!(infer_regionclientdata_variant("dir/regionclientdata_kr_.xml"), "kr");
    assert_eq!(infer_regionclientdata_variant("dir/regionclientdata.xml"), "regionclientdata");
}

#[test]
fn pabr_table_header_is_read() {
    let mut bytes = b"PABR".to_vec();
    bytes.extend_from_slice(&7u32.to_le_bytes());
    bytes.extend_from_slice(&[0u8; 5]);
    let summary = inspect_pabr_table("t.bss", &bytes).expect("table");
    assert_eq!(summary.entry_count, 7);
    assert_eq!(summary.file_size, 13);
    assert_eq!(inspect_pabr_table("t.bss", b"PAB").unwrap_err(), GcdataError::TooSmall);
    assert_eq!(inspect_pabr_table("t.bss", b"XXXX1234").unwrap_err(), GcdataError::MissingMagic);
}

#[test]
fn shifted_fields_drop_their_low_byte() {
    let bytes = [0x00, 0x34, 0x12, 0x00, 0x05, 0x00, 0x00, 0x00];
    assert_eq!(decode_shifted_u32_field(&bytes, 0).unwrap(), Some(0x1234));
    assert_eq!(decode_shifted_u32_field(&bytes, 4).unwrap(), None);
    assert_eq!(decode_unaligned_u32_field(&bytes, 4).unwrap(), Some(5));
    assert_eq!(decode_unaligned_u32_field(&bytes, 6).unwrap_err(), GcdataError::OutOfBounds(6));
}

#[test]
fn regionclientdata_inspection_reports_focus_ids_per_variant() {
    let variants = vec![
        RegionClientDataVariant {
            variant: "kr".to_string(),
            path: "a/regionclientdata_kr_.xml".to_string(),
            region_ids: [1u32, 3, 5].into_iter().collect::<BTreeSet<u32>>(),
        },
        RegionClientDataVariant {
            variant: "na".to_string(),
            path: "b/regionclientdata_na_.xml".to_string(),
            region_ids: [3u32, 7].into_iter().collect::<BTreeSet<u32>>(),
        },
    ];
    let (reports, summary) = inspect_regionclientdata(variants.clone(), &[5, 3, 5, 99]);
    assert_eq!(reports.len(), 2);
    assert_eq!(reports[0].variant, "kr");
    assert_eq!(reports[0].region_count, 3);
    assert_eq!(reports[0].focus_region_ids, vec![3, 5]);
    assert_eq!(reports[1].path, "b/regionclientdata_na_.xml");
    assert_eq!(reports[1].focus_region_ids, vec![3]);
    assert_eq!(summary.variant_count, 2);
    assert_eq!(summary.total_unique_region_ids, 4);
    assert_eq!(summary.focus_region_count, 2);
    let (_, no_focus) = inspect_regionclientdata(variants, &[]);
    assert_eq!(no_focus.focus_region_count, 0);
}

#[test]
fn regionclientdata_reports_come_sorted_by_variant_name() {
    let file = |variant: &str, path: &str, ids: &[u32]| RegionClientDataVariant {
        variant: variant.to_string(),
        path: path.to_string(),
        region_ids: ids.iter().copied().collect::<BTreeSet<u32>>(),
    };
    let variants = vec![
        file("na", "1.xml", &[1]),
        file("kr", "2.xml", &[2, 3]),
        file("", "3.xml", &[]),
        file("kr", "4.xml", &[4]),
        file("k", "5.xml", &[5]),
    ];
    let (reports, summary) = inspect_regionclientdata(variants, &[]);
    let order: Vec<&str> = reports.iter().map(|r| r.path.as_str()).collect();
    assert_eq!(order, vec!["3.xml", "5.xml", "2.xml", "4.xml", "1.xml"]);
    assert_eq!(reports[2].region_count, 2);
    assert_eq!(summary.total_unique_region_ids, 5);
}

fn group_table(rows: &[(u16, u32, [f32; 3], [u8; 3])]) -> Vec<u8> {
    let mut b = b"PABR".to_vec();
    b.extend_from_slice(&(rows.len() as u32).to_le_bytes());
    for (key, waypoint, graph, flags) in rows {
        let mut row = vec![0u8; 51];
        row[0..2].copy_from_slice(&key.to_le_bytes());
        row[5..9].copy_from_slice(&waypoint.to_le_bytes());
        row[9..12].copy_from_slice(flags);
        row[12..16].copy_from_slice(&graph[0].to_le_bytes());
        row[16..20].copy_from_slice(&graph[1].to_le_bytes());
        row[20..24].copy_from_slice(&graph[2].to_le_bytes());
        b.extend_from_slice(&row);
    }
    b.extend_from_slice(&[0u8; 12]);
    b
}

#[test]
fn regiongroupinfo_rows_decode_keys_positions_and_flags() {
    let bytes = group_table(&[
        (7, 1234, [1.5, -0.0, 2.0], [0x01, 0xab, 0x00]),
        (0, 9, [3.0, 3.0, 3.0], [0, 0, 0]),
        (8, 0, [0.0, -0.0, 0.0], [0xff, 0x10, 0x02]),
        (7, 55, [0.0, 0.0, 0.0], [0, 0, 0]),
    ]);
    let rows = decode_regiongroupinfo_bss_rows(&bytes).expect("rows");
    assert_eq!(rows.len(), 2);
    let seven = &rows[&7];
    assert_eq!((seven.row_index, seven.row_start_offset, seven.waypoint), (3, 8 + 3 * 51, Some(55)));
    assert!(!seven.has_graph_position);
    let eight = &rows[&8];
    assert_eq!(eight.waypoint, None);
    assert!(!eight.has_graph_position);
    assert_eq!(eight.flag_bytes_hex, "ff1002");
    let first = decode_regiongroupinfo_bss_rows(&group_table(&[(7, 1234, [1.5, -0.0, 2.0], [0x01, 0xab, 0x00])]))
        .expect("rows");
    assert!(first[&7].has_graph_position);
    assert_eq!(f32::from_bits(first[&7].graphx_bits), 1.5);
    assert_eq!(first[&7].flag_bytes_hex, "01ab00");
    let (summary, requested, missing, sides) =
        regiongroupinfo_inspect_summary(6, &rows, Some(&[8u32, 9].into_iter().collect()), &[8, 3], Some("g.json"));
    assert_eq!(summary.decoded_group_row_count, 2);
    assert_eq!(summary.blank_placeholder_row_count, 4);
    assert_eq!(summary.current_group_count, Some(2));
    assert_eq!(summary.original_only_group_count, Some(1));
    assert_eq!(summary.current_only_group_count, Some(1));
    assert_eq!((summary.focus_row_count, summary.missing_focus_row_count), (1, 1));
    assert_eq!(requested, vec![8]);
    assert_eq!(missing, vec![3]);
    assert_eq!(sides, Some((vec![7], vec![9])));
    let (all, all_requested, none_missing, no_sides) = regiongroupinfo_inspect_summary(1, &rows, None, &[], None);
    assert_eq!(all.focus_row_count, 2);
    assert_eq!(all.blank_placeholder_row_count, 0);
    assert_eq!(all_requested, vec![7, 8]);
    assert!(none_missing.is_empty() && no_sides.is_none());
}

#[test]
fn regiongroupinfo_errors() {
    assert_eq!(decode_regiongroupinfo_bss_rows(b"PABR").unwrap_err(), GcdataError::TooSmall);
    let mut bytes = group_table(&[(1, 0, [0.0; 3], [0; 3])]);
    bytes[0] = b'X';
    assert_eq!(decode_regiongroupinfo_bss_rows(&bytes).unwrap_err(), GcdataError::MissingMagic);
    let mut bytes = group_table(&[(1, 0, [0.0; 3], [0; 3])]);
    bytes.push(0);
    assert_eq!(decode_regiongroupinfo_bss_rows(&bytes).unwrap_err(), GcdataError::PayloadLengthMismatch(51, 52));
}

#[test]
fn regioninfo_summary_selects_focus_rows() {
    let rows: BTreeMap<u32, pazifista::gcdata::DecodedRegionInfoBssRow> = BTreeMap::new();
    let (summary, requested, missing) = regioninfo_inspect_summary(3, &rows, &[5, 5], None);
    assert_eq!(summary.decoded_signature_row_count, 0);
    assert_eq!((summary.focus_row_count, summary.missing_focus_row_count), (0, 2));
    assert!(requested.is_empty());
    assert_eq!(missing, vec![5, 5]);
}
