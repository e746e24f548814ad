use std::collections::{BTreeMap, BTreeSet};

use pazifista::gcdata::RegionClientDataVariant;
use pazifista::pabr::{BkdFile, Breakpoint, PabrError, PabrMap, RidFile};
use pazifista::region_sources::{
    area_region_ids, compare_region_id_sets, compare_region_sources, region_source_comparison_summary,
    sorted_difference, sorted_ids,
};

fn set(ids: &[u32]) -> BTreeSet<u32> {
    ids.iter().copied().collect()
}

#[test]
fn sorted_sets_and_differences() {
    assert_eq!(sorted_ids(&set(&[9, 1, 4])), vec![1, 4, 9]);
    assert_eq!(sorted_difference(&set(&[1, 2, 3, 7]), &set(&[2, 7, 8])), vec![1, 3]);
    let mut areas = BTreeMap::new();
    areas.insert(5u32, 10u64);
    areas.insert(2u32, 1u64);
    assert_eq!(area_region_ids(&areas), set(&[2, 5]));
}

#[test]
fn region_sources_comparison_finds_disagreements() {
    let dictionary = set(&[1, 2, 3, 4, 5]);
    let used = set(&[1, 2, 3, 4]);
    let active = set(&[1, 2, 3]);
    let current = set(&[2, 3, 9]);
    let mut labels = BTreeMap::new();
    labels.insert(9u32, "Velia".to_string());
    let regioninfo = set(&[1, 2]);
    let variants = vec![RegionClientDataVariant {
        variant: "kr".to_string(),
        path: "regionclientdata_kr_.xml".to_string(),
        region_ids: set(&[1, 3]),
    }];
    let c = compare_region_id_sets(
        &dictionary,
        &used,
        &active,
        &current,
        &labels,
        Some(&regioninfo),
        Some(4),
        &variants,
    );
    assert_eq!(c.rid_dictionary_region_count, 5);
    assert_eq!(c.current_regioninfo_count, Some(2));
    assert_eq!(c.rid_dictionary_only_unused_region_ids, vec![5]);
    assert_eq!(c.bkd_referenced_only_zero_area_region_ids, vec![4]);
    assert_eq!(c.pabr_active_only_region_ids, vec![1]);
    assert_eq!(c.current_only_region_ids, vec![9]);
    assert_eq!(c.pabr_active_region_ids_missing_from_current_regioninfo, Some(vec![3]));
    assert_eq!(c.regioninfo_bss_minus_current_regioninfo_count, Some(2));
    assert_eq!(c.regioninfo_bss_gap_matches_missing_current_regioninfo_pabr_ids, Some(false));
    let ids: Vec<u32> = c.unresolved_region_ids.iter().map(|p| p.region_id).collect();
    assert_eq!(ids, vec![1, 9]);
    let one = &c.unresolved_region_ids[0];
    assert!(one.in_pabr_rid_dictionary && one.in_pabr_bkd_rows && one.in_pabr_active_area);
    assert!(!one.in_current_regions_geojson);
    assert_eq!(one.in_current_regioninfo_json, Some(true));
    assert_eq!(one.regionclientdata_variants, vec!["kr".to_string()]);
    let nine = &c.unresolved_region_ids[1];
    assert_eq!(nine.current_label.as_deref(), Some("Velia"));
    assert!(nine.regionclientdata_variants.is_empty());
    assert_eq!(c.regionclientdata_variants[0].focus_region_ids, vec![1]);
    let summary = region_source_comparison_summary(&c, "out.json");
    assert_eq!(summary.unresolved_region_count, 2);
    assert_eq!(summary.output_path, "out.json");
}

#[test]
fn region_sources_without_optional_inputs() {
    let c = compare_region_id_sets(&set(&[]), &set(&[]), &set(&[1]), &set(&[1]), &BTreeMap::new(), None, Some(3), &[]);
    assert_eq!(c.current_regioninfo_count, None);
    assert_eq!(c.pabr_active_region_ids_missing_from_current_regioninfo, None);
    assert_eq!(c.regioninfo_bss_minus_current_regioninfo_count, None);
    assert_eq!(c.regioninfo_bss_gap_matches_missing_current_regioninfo_pabr_ids, None);
    assert!(c.unresolved_region_ids.is_empty());
}

fn map_with_rows(region_ids: Vec<u16>, rows: Vec<Vec<Breakpoint>>) -> PabrMap {
    PabrMap {
        rid_path: "test.rid".into(),
        bkd_path: "test.bkd".into(),
        rid: RidFile { region_ids, native_width: 4, native_height: 2, trailer_prefix_len: 0 },
        bkd: BkdFile { rows, trailer_words: [0, 0, 0], max_source_x: 3 },
    }
}

#[test]
fn region_sources_are_read_from_the_map() {
    // Dictionary entry 2 (region 7) is referenced only at the row's end, so
    // it is used but covers no area; region 8 is never referenced.
    let map = map_with_rows(
        vec![4, 5, 7, 8],
        vec![
            vec![
                Breakpoint { source_x: 0, dictionary_index: 0 },
                Breakpoint { source_x: 2, dictionary_index: 1 },
                Breakpoint { source_x: 4, dictionary_index: 2 },
            ],
            vec![Breakpoint { source_x: 0, dictionary_index: 1 }],
        ],
    );
    let c = compare_region_sources(&map, 0, &set(&[5, 9]), &BTreeMap::new(), None, None, Vec::new()).expect("comparison");
    assert_eq!(c.rid_dictionary_region_count, 4);
    assert_eq!(c.pabr_used_region_count, 3);
    assert_eq!(c.pabr_active_region_count, 2);
    assert_eq!(c.rid_dictionary_only_unused_region_ids, vec![8]);
    assert_eq!(c.bkd_referenced_only_zero_area_region_ids, vec![7]);
    assert_eq!(c.pabr_active_only_region_ids, vec![4]);
    assert_eq!(c.current_only_region_ids, vec![9]);

    let broken = map_with_rows(vec![4], vec![vec![Breakpoint { source_x: 0, dictionary_index: 3 }]]);
    let err = compare_region_sources(&broken, 0, &set(&[]), &BTreeMap::new(), None, None, Vec::new()).unwrap_err();
    assert_eq!(err, PabrError::DictionaryIndexOutOfRange(3, 1));
}
