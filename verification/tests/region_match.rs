use std::collections::{BTreeMap, BTreeSet};

use pazifista::pabr::current_layer::{
    assemble_current_layer, geometry_rows, merge_row_interval_maps, merge_same_value_segments, polygon_rows, ring_rows,
    CurrentFeature,
};
use pazifista::pabr::region_match::{
    accumulate_overlap_areas, build_adjacency, build_mutual_best_matches, build_region_match_records,
    filter_region_match_records, MatchCandidate, MutualBestMatch, RegionMatchRecord,
};
use pazifista::pabr::{BkdFile, Breakpoint, PabrError, PabrMap, RidFile, RowSegment};

fn seg(start_x: u32, end_x: u32, value: u32) -> RowSegment {
    RowSegment { start_x, end_x, value }
}

fn small_map() -> PabrMap {
    PabrMap {
        rid_path: "test.rid".into(),
        bkd_path: "test.bkd".into(),
        rid: RidFile { region_ids: vec![4, 9], native_width: 4, native_height: 4, trailer_prefix_len: 0 },
        bkd: BkdFile {
            rows: vec![
                vec![Breakpoint { source_x: 0, dictionary_index: 0 }, Breakpoint { source_x: 2, dictionary_index: 1 }],
                vec![Breakpoint { source_x: 0, dictionary_index: 0 }, Breakpoint { source_x: 2, dictionary_index: 1 }],
                vec![Breakpoint { source_x: 0, dictionary_index: 1 }],
                vec![Breakpoint { source_x: 0, dictionary_index: 1 }],
            ],
            trailer_words: [0, 0, 0],
            max_source_x: 3,
        },
    }
}

fn rows_of(entries: &[(u32, &[(u32, u32)])]) -> BTreeMap<u32, Vec<(u32, u32)>> {
    entries.iter().map(|(y, intervals)| (*y, intervals.to_vec())).collect()
}

fn candidate(region_id: u32, label: Option<&str>, intersection_area: u64, source_area: u64, candidate_area: u64) -> MatchCandidate {
    MatchCandidate { region_id, label: label.map(str::to_owned), intersection_area, source_area, candidate_area }
}

fn record(region_id: u32, label: Option<&str>, area: u64, top_matches: Vec<MatchCandidate>) -> RegionMatchRecord {
    RegionMatchRecord { region_id, label: label.map(str::to_owned), area, top_matches }
}

fn feature(region_id: u32, label: Option<&str>, rows: BTreeMap<u32, Vec<(u32, u32)>>) -> CurrentFeature {
    CurrentFeature { region_id, label: label.map(str::to_owned), rows }
}

fn labels(entries: &[(u32, &str)]) -> BTreeMap<u32, String> {
    entries.iter().map(|(id, label)| (*id, label.to_string())).collect()
}

#[test]
fn overlap_areas_sum_shared_lengths_per_region_pair() {
    let pabr_rows = vec![vec![seg(0, 10, 1), seg(10, 20, 2)], vec![seg(0, 20, 2)]];
    let current_rows = vec![vec![seg(0, 15, 7), seg(15, 20, 8)], vec![seg(5, 8, 7)]];
    let overlaps = accumulate_overlap_areas(&pabr_rows, &current_rows).expect("overlaps");
    let expected: BTreeMap<(u32, u32), u64> = [((1, 7), 10), ((2, 7), 8), ((2, 8), 5)].into_iter().collect();
    assert_eq!(overlaps, expected);
}

#[test]
fn overlap_sweep_leaves_runs_it_has_passed() {
    // The sweep moves past the wide run of region 7 together with the PABR
    // run that ends with it, so the short run of region 8 inside it is never
    // met again.
    let pabr_rows = vec![vec![seg(0, 5, 1), seg(5, 10, 2)]];
    let current_rows = vec![vec![seg(0, 10, 7), seg(2, 3, 8)]];
    let overlaps = accumulate_overlap_areas(&pabr_rows, &current_rows).expect("overlaps");
    let expected: BTreeMap<(u32, u32), u64> = [((1, 7), 5), ((2, 7), 5)].into_iter().collect();
    assert_eq!(overlaps, expected);
}

#[test]
fn overlap_areas_skip_touching_runs_and_refuse_row_count_mismatch() {
    let pabr_rows = vec![vec![seg(0, 3, 1)]];
    let current_rows = vec![vec![seg(3, 6, 2)]];
    assert!(accumulate_overlap_areas(&pabr_rows, &current_rows).expect("overlaps").is_empty());
    let err = accumulate_overlap_areas(&pabr_rows, &vec![]).unwrap_err();
    assert_eq!(err, PabrError::RowCountMismatch(1, 0));
}

#[test]
fn adjacency_lists_candidates_per_region_of_either_layer() {
    let overlaps: BTreeMap<(u32, u32), u64> = [((1, 7), 10), ((2, 7), 8), ((2, 8), 5)].into_iter().collect();
    let by_pabr = build_adjacency(&overlaps, false);
    let by_current = build_adjacency(&overlaps, true);
    assert_eq!(by_pabr.len(), 2);
    assert_eq!(by_pabr[&1], [(7, 10)].into_iter().collect::<BTreeMap<u32, u64>>());
    assert_eq!(by_pabr[&2], [(7, 8), (8, 5)].into_iter().collect::<BTreeMap<u32, u64>>());
    assert_eq!(by_current[&7], [(1, 10), (2, 8)].into_iter().collect::<BTreeMap<u32, u64>>());
    assert_eq!(by_current[&8], [(2, 5)].into_iter().collect::<BTreeMap<u32, u64>>());
}

#[test]
fn candidates_rank_by_shared_area_then_candidate_area_then_id() {
    let ids: BTreeSet<u32> = [1].into_iter().collect();
    let source_areas: BTreeMap<u32, u64> = [(1, 100)].into_iter().collect();
    let target_areas: BTreeMap<u32, u64> = [(5, 40), (6, 20), (7, 20), (8, 50), (9, 10)].into_iter().collect();
    let mut adjacency: BTreeMap<u32, BTreeMap<u32, u64>> = BTreeMap::new();
    adjacency.insert(1, [(5, 10), (6, 10), (7, 10), (8, 30), (9, 2)].into_iter().collect());
    let target_labels = labels(&[(6, "Six")]);
    let records = build_region_match_records(&ids, &source_areas, &target_areas, &BTreeMap::new(), &target_labels, &adjacency, 4);
    assert_eq!(
        records,
        vec![record(
            1,
            None,
            100,
            vec![
                candidate(8, None, 30, 100, 50),
                candidate(6, Some("Six"), 10, 100, 20),
                candidate(7, None, 10, 100, 20),
                candidate(5, None, 10, 100, 40),
            ],
        )]
    );
}

#[test]
fn records_drop_candidates_of_unknown_area_after_taking_the_top() {
    let ids: BTreeSet<u32> = [1, 2].into_iter().collect();
    let source_areas: BTreeMap<u32, u64> = [(1, 10)].into_iter().collect();
    let target_areas: BTreeMap<u32, u64> = [(6, 4)].into_iter().collect();
    let mut adjacency: BTreeMap<u32, BTreeMap<u32, u64>> = BTreeMap::new();
    adjacency.insert(1, [(5, 9), (6, 4), (7, 1)].into_iter().collect());
    let source_labels = labels(&[(2, "Two")]);
    let records = build_region_match_records(&ids, &source_areas, &target_areas, &source_labels, &BTreeMap::new(), &adjacency, 2);
    assert_eq!(records, vec![record(1, None, 10, vec![candidate(6, None, 4, 10, 4)]), record(2, Some("Two"), 0, vec![])]);
}

#[test]
fn filtering_records_keeps_the_listed_regions_in_order() {
    let records = vec![
        record(1, Some("One"), 3, vec![candidate(5, None, 2, 3, 2)]),
        record(2, None, 4, vec![]),
        record(3, None, 5, vec![candidate(6, Some("Six"), 1, 5, 9)]),
    ];
    let kept = filter_region_match_records(&records, &vec![3, 1, 8]);
    assert_eq!(kept, vec![records[0].clone(), records[2].clone()]);
    assert!(filter_region_match_records(&records, &vec![]).is_empty());
}

#[test]
fn mutual_best_matches_pair_regions_that_pick_each_other() {
    let pabr = vec![
        record(1, None, 10, vec![candidate(7, None, 6, 10, 8)]),
        record(2, None, 10, vec![candidate(7, None, 4, 10, 8)]),
        record(3, None, 10, vec![]),
        record(4, None, 10, vec![candidate(9, None, 5, 10, 5)]),
    ];
    let current = vec![
        record(7, None, 8, vec![candidate(1, None, 6, 8, 10), candidate(2, None, 4, 8, 10)]),
        record(9, None, 5, vec![candidate(4, None, 5, 5, 10)]),
    ];
    let pabr_labels = labels(&[(4, "Four")]);
    let current_labels = labels(&[(9, "Nine"), (4, "Four")]);
    let mutual = build_mutual_best_matches(&pabr, &current, &pabr_labels, &current_labels);
    assert_eq!(
        mutual,
        vec![
            MutualBestMatch {
                pabr_region_id: 1,
                pabr_label: None,
                current_region_id: 7,
                current_label: None,
                intersection_area: 6,
                pabr_area: 10,
                current_area: 8,
            },
            MutualBestMatch {
                pabr_region_id: 4,
                pabr_label: Some("Four".into()),
                current_region_id: 9,
                current_label: Some("Nine".into()),
                intersection_area: 5,
                pabr_area: 10,
                current_area: 5,
            },
        ]
    );
}

#[test]
fn merging_runs_joins_touching_runs_of_one_region() {
    let mut row = vec![seg(0, 5, 1), seg(3, 8, 1), seg(8, 9, 2), seg(9, 12, 2), seg(12, 14, 1), seg(20, 21, 1)];
    merge_same_value_segments(&mut row);
    assert_eq!(row, vec![seg(0, 8, 1), seg(8, 12, 2), seg(12, 14, 1), seg(20, 21, 1)]);
    let mut single = vec![seg(4, 2, 7)];
    merge_same_value_segments(&mut single);
    assert_eq!(single, vec![seg(4, 2, 7)]);
}

#[test]
fn ring_rows_merge_spans_and_drop_empty_rows() {
    let spans = vec![(0, vec![(5, 7), (0, 2), (2, 3)]), (1, vec![]), (3, vec![(1, 4)])];
    let rows = ring_rows(&spans);
    assert_eq!(rows, rows_of(&[(0, &[(0, 3), (5, 7)]), (3, &[(1, 4)])]));
}

#[test]
fn polygon_rows_cut_out_holes() {
    let outline = rows_of(&[(0, &[(0, 10)]), (1, &[(0, 10)]), (2, &[(2, 4)])]);
    let hole = rows_of(&[(1, &[(3, 5), (7, 8)]), (2, &[(0, 6)]), (5, &[(0, 1)])]);
    let rows = polygon_rows(&vec![outline.clone(), hole]);
    assert_eq!(rows, rows_of(&[(0, &[(0, 10)]), (1, &[(0, 3), (5, 7), (8, 10)])]));
    assert_eq!(polygon_rows(&vec![outline.clone()]), outline);
    assert!(polygon_rows(&vec![]).is_empty());
}

#[test]
fn geometry_rows_join_the_polygons() {
    let first = vec![rows_of(&[(0, &[(0, 2)]), (1, &[(0, 2)])])];
    let second = vec![rows_of(&[(1, &[(2, 5)]), (2, &[(7, 9)])])];
    let rows = geometry_rows(&vec![first, second]);
    assert_eq!(rows, rows_of(&[(0, &[(0, 2)]), (1, &[(0, 5)]), (2, &[(7, 9)])]));
}

#[test]
fn merging_row_maps_unions_each_row() {
    let mut destination = rows_of(&[(0, &[(0, 2)]), (4, &[(6, 8)])]);
    merge_row_interval_maps(&mut destination, rows_of(&[(0, &[(1, 5), (9, 10)]), (2, &[(3, 4)])]));
    assert_eq!(destination, rows_of(&[(0, &[(0, 5), (9, 10)]), (2, &[(3, 4)]), (4, &[(6, 8)])]));
}

#[test]
fn current_layer_sorts_rows_and_sums_areas_and_labels() {
    let features = vec![
        feature(4, Some("Four"), rows_of(&[(0, &[(0, 2)]), (1, &[(0, 2)])])),
        feature(12, None, rows_of(&[(0, &[(2, 4)]), (1, &[(2, 4)])])),
        feature(12, Some("Twelve"), rows_of(&[(2, &[(0, 4)]), (3, &[(0, 4)])])),
        feature(30, None, rows_of(&[(3, &[(0, 1)])])),
        feature(40, Some("Empty"), BTreeMap::new()),
        feature(4, Some("Other"), rows_of(&[(1, &[(1, 3)])])),
    ];
    let layer = assemble_current_layer(&features, 4);
    assert_eq!(
        layer.rows,
        vec![
            vec![seg(0, 2, 4), seg(2, 4, 12)],
            vec![seg(0, 3, 4), seg(2, 4, 12)],
            vec![seg(0, 4, 12)],
            vec![seg(0, 1, 30), seg(0, 4, 12)],
        ]
    );
    assert_eq!(layer.region_ids, [4, 12, 30, 40].into_iter().collect::<BTreeSet<u32>>());
    assert_eq!(layer.areas, [(4, 6), (12, 12), (30, 1)].into_iter().collect::<BTreeMap<u32, u64>>());
    assert_eq!(layer.labels, labels(&[(4, "Four"), (12, "Twelve"), (40, "Empty")]));
}

#[test]
fn match_report_lists_candidates_and_mutual_best_matches() {
    let map = small_map();
    let features = vec![
        feature(4, Some("Four"), rows_of(&[(0, &[(0, 2)]), (1, &[(0, 2)])])),
        feature(12, Some("Twelve"), rows_of(&[(0, &[(2, 4)]), (1, &[(2, 4)]), (2, &[(0, 4)]), (3, &[(0, 4)])])),
        feature(30, None, rows_of(&[(3, &[(0, 1)])])),
    ];
    let layer = assemble_current_layer(&features, 4);
    let report = map.match_regions_geojson(&layer, 0, 3).expect("report");
    assert_eq!((report.native_width, report.native_height, report.row_shift, report.top), (4, 4, 0, 3));
    assert_eq!(report.pabr_region_count, 2);
    assert_eq!(report.current_region_count, 3);
    assert_eq!(report.overlap_pair_count, 3);
    assert_eq!(report.pabr_only_region_ids, vec![9]);
    assert_eq!(report.current_only_region_ids, vec![12, 30]);
    assert_eq!(
        report.pabr_regions,
        vec![
            record(4, Some("Four"), 4, vec![candidate(4, Some("Four"), 4, 4, 4)]),
            record(9, None, 12, vec![candidate(12, Some("Twelve"), 12, 12, 12), candidate(30, None, 1, 12, 1)]),
        ]
    );
    assert_eq!(
        report.current_regions,
        vec![
            record(4, Some("Four"), 4, vec![candidate(4, Some("Four"), 4, 4, 4)]),
            record(12, Some("Twelve"), 12, vec![candidate(9, None, 12, 12, 12)]),
            record(30, None, 1, vec![candidate(9, None, 1, 1, 12)]),
        ]
    );
    assert_eq!(report.pabr_only_candidates, vec![report.pabr_regions[1].clone()]);
    assert_eq!(report.current_only_candidates, report.current_regions[1..].to_vec());
    assert_eq!(report.mutual_best_matches.len(), 2);
    assert_eq!(
        report.mutual_best_id_changes,
        vec![MutualBestMatch {
            pabr_region_id: 9,
            pabr_label: None,
            current_region_id: 12,
            current_label: Some("Twelve".into()),
            intersection_area: 12,
            pabr_area: 12,
            current_area: 12,
        }]
    );
}

#[test]
fn match_report_needs_a_candidate_count() {
    let map = small_map();
    let layer = assemble_current_layer(&vec![], 4);
    assert_eq!(map.match_regions_geojson(&layer, 0, 0).unwrap_err(), PabrError::ZeroTopCount);
    let short = assemble_current_layer(&vec![], 3);
    assert_eq!(map.match_regions_geojson(&short, 0, 1).unwrap_err(), PabrError::RowCountMismatch(4, 3));
}
