use std::collections::{BTreeMap, BTreeSet};

use pazifista::hotspots::{
    combine_condition_raw, combine_select_rates, contents_group_open_condition, hotspot_grade_tone,
    mark_active_condition_option, rate_text_from_micros, source_loot_lineage_tooltip, ExpandedSourceLootOption,
    HotspotLootConditionOption, HotspotLootItem, SourceLootItem, HotspotLootGroup, active_loot_items, primary_fish_identity, plan_hotspots, HotspotError, SourceLootLineage, SourceLootLookup, SourceLootOption,
};

fn item(item_id: u32, name: &str) -> SourceLootItem {
    SourceLootItem {
        item_id,
        name: name.to_string(),
        select_rate: 1,
        grade_type: None,
        icon_item_id: Some(item_id),
        icon_image: None,
        is_fish: true,
        source_tooltip: None,
    }
}

fn option(option_idx: u32, select_rate: Option<u32>, condition: Option<&str>, sub: u32, items: Vec<SourceLootItem>) -> SourceLootOption {
    SourceLootOption {
        option_idx,
        select_rate,
        condition_raw: condition.map(str::to_owned),
        item_sub_group_key: sub,
        items,
    }
}

fn step(main: u32, option_idx: u32, sub: u32) -> SourceLootLineage {
    SourceLootLineage { item_main_group_key: main, option_idx, item_sub_group_key: sub }
}

fn lookup(groups: Vec<(u32, Vec<SourceLootOption>)>) -> SourceLootLookup {
    SourceLootLookup { options_by_main_group: groups.into_iter().collect::<BTreeMap<_, _>>(), option_rows: 0, variant_rows: 0 }
}

fn species(name: &str) -> HotspotLootItem {
    HotspotLootItem {
        item_id: 1,
        name: name.to_string(),
        label: name.to_string(),
        slot_idx: 1,
        group_label: "Group 1".to_string(),
        select_rate: Some(1_000_000),
        grade_type: None,
        icon_item_id: None,
        icon_image: None,
        icon_grade_tone: "unknown".to_string(),
        drop_rate_text: "100%".to_string(),
        drop_rate_source_kind: "database".to_string(),
        drop_rate_tooltip: String::new(),
        raw_drop_rate_text: String::new(),
        raw_drop_rate_tooltip: String::new(),
        normalized_drop_rate_text: String::new(),
        normalized_drop_rate_tooltip: String::new(),
        catch_methods: vec!["rod".to_string()],
        is_fish: true,
    }
}

fn condition_option(key: &str, with_species: bool) -> HotspotLootConditionOption {
    HotspotLootConditionOption {
        option_idx: 0,
        condition_key: key.to_string(),
        condition_text: key.to_string(),
        condition_tooltip: key.to_string(),
        item_sub_group_key: 0,
        select_rate: None,
        drop_rate_text: String::new(),
        drop_rate_source_kind: "database".to_string(),
        drop_rate_tooltip: String::new(),
        raw_drop_rate_text: String::new(),
        raw_drop_rate_tooltip: String::new(),
        normalized_drop_rate_text: String::new(),
        normalized_drop_rate_tooltip: String::new(),
        active: true,
        species_rows: if with_species { vec![species("Fish")] } else { vec![] },
    }
}

fn active_flags(options: &[HotspotLootConditionOption]) -> Vec<bool> {
    options.iter().map(|o| o.active).collect()
}

#[test]
fn select_rates_multiply_in_millionths_and_stay_within_the_whole() {
    assert_eq!(combine_select_rates(Some(500_000), Some(500_000)), Some(250_000));
    assert_eq!(combine_select_rates(Some(2_000_000), Some(2_000_000)), Some(1_000_000));
    assert_eq!(combine_select_rates(Some(7), None), Some(7));
    assert_eq!(combine_select_rates(None, Some(9)), Some(9));
    assert_eq!(combine_select_rates(None, None), None);
}

#[test]
fn grade_tones_name_each_grade() {
    assert_eq!(hotspot_grade_tone(Some(4)), "red");
    assert_eq!(hotspot_grade_tone(Some(3)), "yellow");
    assert_eq!(hotspot_grade_tone(Some(2)), "blue");
    assert_eq!(hotspot_grade_tone(Some(1)), "green");
    assert_eq!(hotspot_grade_tone(Some(0)), "white");
    assert_eq!(hotspot_grade_tone(Some(9)), "unknown");
    assert_eq!(hotspot_grade_tone(None), "unknown");
}

#[test]
fn rate_text_drops_trailing_zeros() {
    assert_eq!(rate_text_from_micros(0), "0%");
    assert_eq!(rate_text_from_micros(1), "0.0001%");
    assert_eq!(rate_text_from_micros(10), "0.001%");
    assert_eq!(rate_text_from_micros(120_000), "12%");
    assert_eq!(rate_text_from_micros(125_000), "12.5%");
    assert_eq!(rate_text_from_micros(123_456), "12.3456%");
    assert_eq!(rate_text_from_micros(1_000_000), "100%");
    assert_eq!(rate_text_from_micros(u32::MAX), "429496.7295%");
}

#[test]
fn conditions_join_trimmed_without_separator() {
    let conditions = vec!["  a;".to_string(), String::new(), " b ".to_string()];
    assert_eq!(combine_condition_raw(&conditions), Some("a;b".to_string()));
    assert_eq!(combine_condition_raw(&vec![]), None);
    assert_eq!(combine_condition_raw(&vec!["   ".to_string()]), None);
}

#[test]
fn contents_group_conditions_are_found_among_predicates() {
    assert!(contents_group_open_condition("isContentsGroupOpen(0,12)"));
    assert!(contents_group_open_condition("getLifeLevel(1)>10; isContentsGroupOpen(0,3)"));
    assert!(!contents_group_open_condition("!isContentsGroupOpen(0,3)"));
    assert!(!contents_group_open_condition(""));
    assert!(!contents_group_open_condition("default"));
}

#[test]
fn lineage_tooltip_lists_each_step() {
    assert_eq!(source_loot_lineage_tooltip(&vec![]), "unknown lineage");
    assert_eq!(
        source_loot_lineage_tooltip(&vec![step(10, 1, 20), step(20, 2, 30)]),
        "main group 10 -> subgroup 20, option 1 | main group 20 -> subgroup 30, option 2"
    );
}

#[test]
fn main_groups_expand_into_branches_through_nested_groups() {
    let lookup = lookup(vec![
        (
            10,
            vec![
                option(0, Some(500_000), Some("a"), 20, vec![item(1, "A")]),
                option(1, Some(500_000), None, 11, vec![item(2, "B")]),
            ],
        ),
        (
            20,
            vec![
                option(0, Some(200_000), Some("b"), 21, vec![item(3, "C")]),
                option(1, Some(800_000), Some("a"), 22, vec![item(4, "D")]),
            ],
        ),
    ]);
    let branches = lookup.expanded_options_for_main_group(10);
    assert_eq!(
        branches,
        vec![
            ExpandedSourceLootOption {
                branch_idx: 0,
                select_rate: Some(100_000),
                condition_raw: Some("ab".to_string()),
                item_sub_group_key: 21,
                items: vec![item(3, "C")],
                lineage: vec![step(10, 0, 20), step(20, 0, 21)],
            },
            ExpandedSourceLootOption {
                branch_idx: 1,
                select_rate: Some(400_000),
                condition_raw: Some("a".to_string()),
                item_sub_group_key: 22,
                items: vec![item(4, "D")],
                lineage: vec![step(10, 0, 20), step(20, 1, 22)],
            },
            ExpandedSourceLootOption {
                branch_idx: 2,
                select_rate: Some(500_000),
                condition_raw: None,
                item_sub_group_key: 11,
                items: vec![item(2, "B")],
                lineage: vec![step(10, 1, 11)],
            },
        ]
    );
    assert!(lookup.expanded_options_for_main_group(99).is_empty());
}

#[test]
fn expansion_stops_at_groups_already_on_the_way() {
    let lookup = lookup(vec![
        (30, vec![option(0, None, None, 30, vec![item(5, "E")])]),
        (40, vec![option(0, Some(1_000_000), None, 41, vec![])]),
        (41, vec![option(3, None, Some("c"), 40, vec![item(6, "F")])]),
    ]);
    let own = lookup.expanded_options_for_main_group(30);
    assert_eq!(own.len(), 1);
    assert_eq!(own[0].lineage, vec![step(30, 0, 30)]);
    let cycle = lookup.expanded_options_for_main_group(40);
    assert_eq!(cycle.len(), 1);
    assert_eq!(cycle[0].item_sub_group_key, 40);
    assert_eq!(cycle[0].lineage, vec![step(40, 0, 41), step(41, 3, 40)]);
    assert_eq!(cycle[0].condition_raw, Some("c".to_string()));
    assert_eq!(cycle[0].select_rate, Some(1_000_000));
}

#[test]
fn active_option_prefers_open_contents_groups_then_defaults_with_items() {
    let mut options = vec![
        condition_option("default", false),
        condition_option("isContentsGroupOpen(0,5)", true),
        condition_option("default", true),
    ];
    mark_active_condition_option(&mut options);
    assert_eq!(active_flags(&options), vec![false, true, false]);

    let mut options = vec![condition_option("x", true), condition_option("default", true), condition_option("default", false)];
    mark_active_condition_option(&mut options);
    assert_eq!(active_flags(&options), vec![false, true, false]);

    let mut options = vec![condition_option("x", false), condition_option("default", false)];
    mark_active_condition_option(&mut options);
    assert_eq!(active_flags(&options), vec![false, true]);

    let mut options = vec![condition_option("x", false), condition_option("y", true)];
    mark_active_condition_option(&mut options);
    assert_eq!(active_flags(&options), vec![false, true]);

    let mut options = vec![condition_option("x", false), condition_option("y", false)];
    mark_active_condition_option(&mut options);
    assert_eq!(active_flags(&options), vec![true, false]);

    let mut empty: Vec<HotspotLootConditionOption> = vec![];
    mark_active_condition_option(&mut empty);
    assert!(empty.is_empty());
}

fn loot(item_id: u32, label: &str, rate: Option<u32>, is_fish: bool) -> HotspotLootItem {
    HotspotLootItem { item_id, label: label.to_string(), select_rate: rate, is_fish, ..species(label) }
}

fn group(options: Vec<HotspotLootConditionOption>) -> HotspotLootGroup {
    HotspotLootGroup {
        slot_idx: 1,
        label: "Group 1".to_string(),
        condition_option_key: String::new(),
        item_main_group_key: 7,
        drop_rate: None,
        drop_rate_text: String::new(),
        drop_rate_source_kind: String::new(),
        drop_rate_tooltip: String::new(),
        raw_drop_rate_text: String::new(),
        raw_drop_rate_tooltip: String::new(),
        normalized_drop_rate_text: String::new(),
        normalized_drop_rate_tooltip: String::new(),
        catch_methods: vec![],
        condition_options: options,
    }
}

fn with_rows(active: bool, rows: Vec<HotspotLootItem>) -> HotspotLootConditionOption {
    HotspotLootConditionOption { active, species_rows: rows, ..condition_option("default", false) }
}

#[test]
fn active_items_come_from_active_options_in_order() {
    let groups = vec![
        group(vec![with_rows(false, vec![loot(1, "a", None, true)]), with_rows(true, vec![loot(2, "b", None, true)])]),
        group(vec![with_rows(true, vec![loot(3, "c", None, false), loot(4, "d", None, true)])]),
    ];
    let ids: Vec<u32> = active_loot_items(&groups).iter().map(|i| i.item_id).collect();
    assert_eq!(ids, vec![2, 3, 4]);
}

#[test]
fn primary_fish_is_the_most_likely_fish() {
    let groups = vec![group(vec![with_rows(
        true,
        vec![
            loot(1, "Junk", Some(900_000), false),
            loot(2, "Zander", Some(50_000), true),
            loot(3, "bream", Some(50_000), true),
            loot(4, "Carp", Some(10_000), true),
        ],
    )])];
    let p = primary_fish_identity(&groups).expect("primary fish");
    assert_eq!((p.item_id, p.name.as_str()), (3, "bream"));
    let none_fish = vec![group(vec![with_rows(false, vec![loot(5, "Box", Some(1), false), loot(6, "box", Some(1), false)])])];
    let p = primary_fish_identity(&none_fish).expect("some row");
    assert_eq!(p.item_id, 6);
    assert!(primary_fish_identity(&Vec::new()).is_none());
}

#[test]
fn hotspots_are_ordered_by_id_and_need_their_groups() {
    let points = vec![(30u32, 1u32), (10, 2), (30, 1), (20, 2)];
    let groups: BTreeSet<u32> = [1u32, 2].into_iter().collect();
    let metadata: BTreeSet<u32> = [30u32, 99].into_iter().collect();
    let plan = plan_hotspots(&points, &groups, &metadata).expect("plan");
    assert_eq!(plan.ids, vec![10, 20, 30, 30]);
    assert_eq!(plan.order, vec![1, 3, 0, 2]);
    assert_eq!(plan.matched_imported_metadata_rows, 2);
    let missing: BTreeSet<u32> = [1u32].into_iter().collect();
    assert_eq!(plan_hotspots(&points, &missing, &metadata).unwrap_err(), HotspotError::MissingGroup(2, 10));
}
