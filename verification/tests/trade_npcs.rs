use std::collections::{BTreeMap, BTreeSet};

use pazifista::trade_npcs::{
    collect_trade_candidates, destination_id, plan_trade_destinations, rgb_key, trade_function_counts, CandidateTradeNpc,
    TradeExclusionReason, TradeFunctionRecord,
};

fn record(npc_key: u32, regular: bool, barter: bool, group: Option<u32>, kind: Option<&str>) -> TradeFunctionRecord {
    TradeFunctionRecord {
        npc_key,
        is_regular_trade: regular,
        is_barter: barter,
        item_main_group_key: group,
        trade_group_type: kind.map(str::to_owned),
    }
}

fn keys(ids: &[u32]) -> BTreeSet<u32> {
    ids.iter().copied().collect()
}

#[test]
fn candidates_merge_function_rows_titles_and_selling_keys() {
    let records = vec![
        record(1, true, false, None, None),
        record(1, true, true, Some(50), Some("A")),
        record(1, true, false, Some(60), Some("B")),
        record(2, false, true, Some(70), Some("C")),
        record(3, true, false, None, Some("D")),
    ];
    let candidates = collect_trade_candidates(&records, &keys(&[3, 4]), &keys(&[1, 4, 9]));
    assert_eq!(candidates.keys().copied().collect::<Vec<_>>(), vec![1, 3, 4]);
    assert_eq!(
        candidates[&1],
        CandidateTradeNpc {
            npc_key: 1,
            character_function_trade: true,
            character_function_barter: true,
            selling_to_npc: true,
            character_title_trade_manager: false,
            item_main_group_key: Some(50),
            trade_group_type: Some("A".into()),
        }
    );
    assert_eq!(
        candidates[&3],
        CandidateTradeNpc {
            npc_key: 3,
            character_function_trade: true,
            character_function_barter: false,
            selling_to_npc: false,
            character_title_trade_manager: true,
            item_main_group_key: None,
            trade_group_type: Some("D".into()),
        }
    );
    assert_eq!(
        candidates[&4],
        CandidateTradeNpc {
            npc_key: 4,
            character_function_trade: false,
            character_function_barter: false,
            selling_to_npc: true,
            character_title_trade_manager: true,
            item_main_group_key: None,
            trade_group_type: None,
        }
    );
}

#[test]
fn candidate_tags_and_role_follow_their_sources() {
    let records = vec![record(1, true, true, None, None)];
    let candidates = collect_trade_candidates(&records, &keys(&[1, 2]), &keys(&[1]));
    assert_eq!(
        candidates[&1].source_tags(true),
        vec![
            "character_function_trade",
            "selling_to_npc",
            "character_title_trade_manager",
            "character_function_barter",
            "regionclientdata_spawn",
        ]
    );
    assert_eq!(candidates[&1].role_source(), "character_function_trade");
    assert_eq!(candidates[&2].source_tags(false), vec!["character_title_trade_manager"]);
    assert_eq!(candidates[&2].role_source(), "character_title_trade_manager");
}

#[test]
fn destination_ids_number_repeated_spawns() {
    assert_eq!(destination_id(40010, 0, 1), "40010");
    assert_eq!(destination_id(40010, 0, 0), "40010");
    assert_eq!(destination_id(40010, 0, 3), "40010:1");
    assert_eq!(destination_id(40010, 2, 3), "40010:3");
}

#[test]
fn function_rows_are_counted_by_kind() {
    let records = vec![
        record(1, true, false, None, None),
        record(2, true, true, None, None),
        record(3, false, true, None, None),
        record(4, false, false, None, None),
    ];
    assert_eq!(trade_function_counts(&records), (2, 2, 1));
}

#[test]
fn destinations_come_from_spawns_with_trade_origins() {
    let records = vec![record(1, true, false, Some(5), None), record(2, true, true, None, None)];
    let candidates = collect_trade_candidates(&records, &keys(&[7]), &keys(&[]));
    let mut spawns = BTreeMap::new();
    spawns.insert(1u32, vec![100u32, 200, 300]);
    spawns.insert(7u32, vec![]);
    let candidates: Vec<CandidateTradeNpc> = candidates.values().cloned().collect();
    let (dests, excluded) = plan_trade_destinations(&candidates, &spawns, &keys(&[100, 300]));
    let ids: Vec<&str> = dests.iter().map(|d| d.id.as_str()).collect();
    assert_eq!(ids, vec!["1:1", "1:3"]);
    assert_eq!(dests[1].region_id, 300);
    assert_eq!(dests[0].role_source, "character_function_trade");
    assert_eq!(dests[0].source_tags, vec!["character_function_trade", "regionclientdata_spawn"]);
    let reasons: Vec<(u32, TradeExclusionReason)> = excluded.iter().map(|e| (e.npc_key, e.reason)).collect();
    assert_eq!(
        reasons,
        vec![
            (1, TradeExclusionReason::MissingTradeOrigin),
            (2, TradeExclusionReason::MissingSpawn),
            (7, TradeExclusionReason::MissingSpawn),
        ]
    );
    assert_eq!(excluded[1].source_tags, vec!["character_function_trade", "character_function_barter"]);
    assert_eq!(excluded[0].reason.text(), "missing_assigned_region_trade_origin");
}

#[test]
fn rgb_keys_list_the_three_bytes() {
    assert_eq!(rgb_key(0x00ff_8001), "255,128,1");
    assert_eq!(rgb_key(0xab00_0000), "0,0,0");
}
