//! Trade NPCs: the NPCs that buy trade goods, gathered from the character
//! function table, the Trade Manager titles and the selling-to-NPC table,
//! and how each destination is tagged and named.
use std::collections::{BTreeMap, BTreeSet};
use vstd::prelude::*;
use crate::region_sources::sorted_ids;
use crate::text::{decimal, push_decimal_u64, decimal_string};
use crate::hotspots::string_views;
use crate::waypoint_xml::strictly_increasing;

verus! {

broadcast use vstd::laws_cmp::group_laws_cmp, vstd::std_specs::btree::group_btree_axioms;

/// One row of the character function table: the NPC, whether it is a
/// regular trader and whether it barters, and its trade item group.
#[derive(Clone, Debug, PartialEq, Eq)]
pub struct TradeFunctionRecord {
    pub npc_key: u32,
    pub is_regular_trade: bool,
    pub is_barter: bool,
    pub item_main_group_key: Option<u32>,
    pub trade_group_type: Option<String>,
}

/// An NPC that may buy trade goods, with the sources that say so.
#[derive(Clone, Debug, PartialEq, Eq)]
pub struct CandidateTradeNpc {
    pub npc_key: u32,
    pub character_function_trade: bool,
    pub character_function_barter: bool,
    pub selling_to_npc: bool,
    pub character_title_trade_manager: bool,
    pub item_main_group_key: Option<u32>,
    pub trade_group_type: Option<String>,
}

/// Whether some regular trade row of `records` is for NPC `key`.
pub open spec fn regular_trader(records: Seq<TradeFunctionRecord>, key: u32) -> bool {
    exists|i: int| 0 <= i < records.len() && (#[trigger] records[i]).is_regular_trade && records[i].npc_key == key
}

/// Whether some regular trade row of `records` for NPC `key` barters.
pub open spec fn regular_barterer(records: Seq<TradeFunctionRecord>, key: u32) -> bool {
    exists|i: int|
        0 <= i < records.len() && (#[trigger] records[i]).is_regular_trade && records[i].npc_key == key && records[i].is_barter
}

/// The trade item group of the first regular trade row for NPC `key` that
/// names one.
pub open spec fn first_main_group(records: Seq<TradeFunctionRecord>, key: u32) -> Option<u32>
    decreases records.len(),
{
    if records.len() == 0 {
        None
    } else {
        match first_main_group(records.drop_last(), key) {
            Some(g) => Some(g),
            None => if records.last().is_regular_trade && records.last().npc_key == key {
                records.last().item_main_group_key
            } else {
                None
            },
        }
    }
}

/// The trade group type of the first regular trade row for NPC `key` that
/// names one.
pub open spec fn first_group_type(records: Seq<TradeFunctionRecord>, key: u32) -> Option<String>
    decreases records.len(),
{
    if records.len() == 0 {
        None
    } else {
        match first_group_type(records.drop_last(), key) {
            Some(g) => Some(g),
            None => if records.last().is_regular_trade && records.last().npc_key == key {
                records.last().trade_group_type
            } else {
                None
            },
        }
    }
}

/// Whether `c` is the candidate for NPC `key` that the sources give.
pub open spec fn candidate_from(
    c: CandidateTradeNpc,
    records: Seq<TradeFunctionRecord>,
    titles: Set<u32>,
    selling: Set<u32>,
    key: u32,
) -> bool {
    &&& c.npc_key == key
    &&& c.character_function_trade == regular_trader(records, key)
    &&& c.character_function_barter == regular_barterer(records, key)
    &&& c.character_title_trade_manager == titles.contains(key)
    &&& c.selling_to_npc == selling.contains(key)
    &&& c.item_main_group_key == first_main_group(records, key)
    &&& c.trade_group_type == first_group_type(records, key)
}

fn new_candidate(npc_key: u32) -> (r: CandidateTradeNpc)
    ensures
        r == (CandidateTradeNpc {
            npc_key,
            character_function_trade: false,
            character_function_barter: false,
            selling_to_npc: false,
            character_title_trade_manager: false,
            item_main_group_key: None,
            trade_group_type: None,
        }),
{
    CandidateTradeNpc {
        npc_key,
        character_function_trade: false,
        character_function_barter: false,
        selling_to_npc: false,
        character_title_trade_manager: false,
        item_main_group_key: None,
        trade_group_type: None,
    }
}

/// The candidate trade NPCs: every NPC with a regular trade row or a Trade
/// Manager title; the sources that name each, its bartering, and the first
/// trade item group and group type that its regular rows give.
pub fn collect_trade_candidates(
    function_records: &Vec<TradeFunctionRecord>,
    title_trade_manager_keys: &BTreeSet<u32>,
    selling_to_npc_keys: &BTreeSet<u32>,
) -> (r: BTreeMap<u32, CandidateTradeNpc>)
    ensures
        forall|key: u32|
            #[trigger] r@.contains_key(key) <==> regular_trader(function_records@, key)
                || title_trade_manager_keys@.contains(key),
        forall|key: u32|
            #[trigger] r@.contains_key(key) ==> candidate_from(
                r@[key],
                function_records@,
                title_trade_manager_keys@,
                selling_to_npc_keys@,
                key,
            ),
{
    let ghost records = function_records@;
    let mut candidates: BTreeMap<u32, CandidateTradeNpc> = BTreeMap::new();
    let mut k: usize = 0;
    assert(records.take(0) =~= Seq::<TradeFunctionRecord>::empty());
    while k < function_records.len()
        invariant
            records == function_records@,
            k <= records.len(),
            forall|key: u32| #[trigger] candidates@.contains_key(key) <==> regular_trader(records.take(k as int), key),
            forall|key: u32|
                #[trigger] candidates@.contains_key(key) ==> candidate_from(
                    candidates@[key],
                    records.take(k as int),
                    Set::empty(),
                    Set::empty(),
                    key,
                ),
        decreases records.len() - k,
    {
        let record = &function_records[k];
        let ghost prev = records.take(k as int);
        let ghost next = records.take(k + 1);
        proof {
            assert(next.drop_last() =~= prev);
            assert(next.last() == records[k as int]);
            assert forall|key: u32| #[trigger] regular_trader(next, key) <==> regular_trader(prev, key) || (record.is_regular_trade
                && record.npc_key == key) by {
                if regular_trader(next, key) && !(record.is_regular_trade && record.npc_key == key) {
                    let i = choose|i: int| 0 <= i < next.len() && (#[trigger] next[i]).is_regular_trade && next[i].npc_key == key;
                    assert(prev[i] == next[i]);
                }
                if regular_trader(prev, key) {
                    let i = choose|i: int| 0 <= i < prev.len() && (#[trigger] prev[i]).is_regular_trade && prev[i].npc_key == key;
                    assert(next[i] == prev[i]);
                }
                if record.is_regular_trade && record.npc_key == key {
                    assert(next[k as int] == *record);
                }
            }
            assert forall|key: u32| #[trigger] regular_barterer(next, key) <==> regular_barterer(prev, key) || (record.is_regular_trade
                && record.npc_key == key && record.is_barter) by {
                if regular_barterer(next, key) && !(record.is_regular_trade && record.npc_key == key && record.is_barter) {
                    let i = choose|i: int|
                        0 <= i < next.len() && (#[trigger] next[i]).is_regular_trade && next[i].npc_key == key && next[i].is_barter;
                    assert(prev[i] == next[i]);
                }
                if regular_barterer(prev, key) {
                    let i = choose|i: int|
                        0 <= i < prev.len() && (#[trigger] prev[i]).is_regular_trade && prev[i].npc_key == key && prev[i].is_barter;
                    assert(next[i] == prev[i]);
                }
                if record.is_regular_trade && record.npc_key == key && record.is_barter {
                    assert(next[k as int] == *record);
                }
            }
        }
        if record.is_regular_trade {
            let key = record.npc_key;
            let ghost before = candidates@;
            let mut c = match candidates.remove(&key) {
                Some(c) => c,
                None => new_candidate(key),
            };
            proof {
                if !before.contains_key(key) {
                    assert(!regular_trader(prev, key));
                    assert(first_main_group(prev, key) is None) by {
                        lemma_first_fields_absent(prev, key);
                    }
                    assert(first_group_type(prev, key) is None) by {
                        lemma_first_fields_absent(prev, key);
                    }
                    assert(!regular_barterer(prev, key));
                }
            }
            c.character_function_trade = true;
            c.character_function_barter = c.character_function_barter || record.is_barter;
            if c.item_main_group_key.is_none() {
                c.item_main_group_key = record.item_main_group_key;
            }
            if c.trade_group_type.is_none() {
                c.trade_group_type = match &record.trade_group_type {
                    Some(t) => Some(t.clone()),
                    None => None,
                };
            }
            candidates.insert(key, c);
        }
        k = k + 1;
    }
    assert(records.take(records.len() as int) =~= records);
    let titles = sorted_ids(title_trade_manager_keys);
    let mut t: usize = 0;
    while t < titles.len()
        invariant
            records == function_records@,
            t <= titles@.len(),
            strictly_increasing(titles@),
            forall|x: u32| titles@.contains(x) <==> title_trade_manager_keys@.contains(x),
            forall|key: u32|
                #[trigger] candidates@.contains_key(key) <==> regular_trader(records, key) || titles@.take(t as int).contains(key),
            forall|key: u32|
                #[trigger] candidates@.contains_key(key) ==> candidate_from(
                    candidates@[key],
                    records,
                    titles@.take(t as int).to_set(),
                    Set::empty(),
                    key,
                ),
        decreases titles@.len() - t,
    {
        let key = titles[t];
        let ghost before = candidates@;
        let mut c = match candidates.remove(&key) {
            Some(c) => c,
            None => new_candidate(key),
        };
        proof {
            assert(titles@.take(t + 1) =~= titles@.take(t as int).push(key));
            if !before.contains_key(key) {
                lemma_first_fields_absent(records, key);
                assert(!regular_barterer(records, key)) by {
                    if regular_barterer(records, key) {
                        let i = choose|i: int|
                            0 <= i < records.len() && (#[trigger] records[i]).is_regular_trade && records[i].npc_key == key
                                && records[i].is_barter;
                        assert(regular_trader(records, key));
                    }
                }
            }
            assert(!titles@.take(t as int).contains(key)) by {
                if titles@.take(t as int).contains(key) {
                    let j = choose|j: int| 0 <= j < t && titles@.take(t as int)[j] == key;
                    assert(titles@[j] < titles@[t as int]);
                }
            }
        }
        c.character_title_trade_manager = true;
        candidates.insert(key, c);
        proof {
            assert forall|key2: u32| #[trigger] candidates@.contains_key(key2) ==> candidate_from(
                candidates@[key2],
                records,
                titles@.take(t + 1).to_set(),
                Set::empty(),
                key2,
            ) by {
                if candidates@.contains_key(key2) && key2 != key {
                    assert(candidate_from(before[key2], records, titles@.take(t as int).to_set(), Set::empty(), key2));
                    assert(titles@.take(t + 1).to_set().contains(key2) == titles@.take(t as int).to_set().contains(key2));
                }
                if key2 == key {
                    assert(titles@.take(t + 1)[t as int] == key);
                    assert(titles@.take(t + 1).to_set().contains(key));
                    if before.contains_key(key) {
                        assert(candidate_from(before[key], records, titles@.take(t as int).to_set(), Set::empty(), key));
                    }
                }
            }
        }
        t = t + 1;
    }
    assert(titles@.take(titles@.len() as int) =~= titles@);
    assert(titles@.to_set() =~= title_trade_manager_keys@);
    let selling = sorted_ids(selling_to_npc_keys);
    let mut s: usize = 0;
    while s < selling.len()
        invariant
            records == function_records@,
            s <= selling@.len(),
            strictly_increasing(selling@),
            forall|x: u32| selling@.contains(x) <==> selling_to_npc_keys@.contains(x),
            forall|key: u32|
                #[trigger] candidates@.contains_key(key) <==> regular_trader(records, key)
                    || title_trade_manager_keys@.contains(key),
            forall|key: u32|
                #[trigger] candidates@.contains_key(key) ==> candidate_from(
                    candidates@[key],
                    records,
                    title_trade_manager_keys@,
                    selling@.take(s as int).to_set(),
                    key,
                ),
        decreases selling@.len() - s,
    {
        let key = selling[s];
        let ghost before = candidates@;
        proof {
            assert(selling@.take(s + 1) =~= selling@.take(s as int).push(key));
        }
        match candidates.remove(&key) {
            Some(c) => {
                let mut c = c;
                c.selling_to_npc = true;
                candidates.insert(key, c);
            },
            None => {},
        }
        proof {
            assert forall|key2: u32| #[trigger] candidates@.contains_key(key2) ==> candidate_from(
                candidates@[key2],
                records,
                title_trade_manager_keys@,
                selling@.take(s + 1).to_set(),
                key2,
            ) by {
                if candidates@.contains_key(key2) && key2 != key {
                    assert(candidate_from(before[key2], records, title_trade_manager_keys@, selling@.take(s as int).to_set(), key2));
                    assert(selling@.take(s + 1).to_set().contains(key2) == selling@.take(s as int).to_set().contains(key2));
                }
                if key2 == key && candidates@.contains_key(key) {
                    assert(selling@.take(s + 1)[s as int] == key);
                    assert(selling@.take(s + 1).to_set().contains(key));
                    assert(candidate_from(before[key], records, title_trade_manager_keys@, selling@.take(s as int).to_set(), key));
                }
            }
        }
        s = s + 1;
    }
    assert(selling@.take(selling@.len() as int) =~= selling@);
    assert(selling@.to_set() =~= selling_to_npc_keys@);
    candidates
}

proof fn lemma_first_fields_absent(records: Seq<TradeFunctionRecord>, key: u32)
    requires
        !regular_trader(records, key),
    ensures
        first_main_group(records, key) is None,
        first_group_type(records, key) is None,
    decreases records.len(),
{
    if records.len() > 0 {
        let rest = records.drop_last();
        assert(!regular_trader(rest, key)) by {
            if regular_trader(rest, key) {
                let i = choose|i: int| 0 <= i < rest.len() && (#[trigger] rest[i]).is_regular_trade && rest[i].npc_key == key;
                assert(records[i] == rest[i]);
            }
        }
        lemma_first_fields_absent(rest, key);
        assert(!(records.last().is_regular_trade && records.last().npc_key == key)) by {
            if records.last().is_regular_trade && records.last().npc_key == key {
                assert(records[records.len() - 1] == records.last());
            }
        }
    }
}

/// The sources that name a candidate, as tags in a fixed order; the
/// `regionclientdata` spawn last where it has one.
pub open spec fn source_tag_list(c: CandidateTradeNpc, has_regionclientdata_spawn: bool) -> Seq<Seq<char>> {
    (if c.character_function_trade { seq!["character_function_trade"@] } else { seq![] }) + (if c.selling_to_npc {
        seq!["selling_to_npc"@]
    } else {
        seq![]
    }) + (if c.character_title_trade_manager { seq!["character_title_trade_manager"@] } else { seq![] }) + (
    if c.character_function_barter {
        seq!["character_function_barter"@]
    } else {
        seq![]
    }) + (if has_regionclientdata_spawn { seq!["regionclientdata_spawn"@] } else { seq![] })
}

impl CandidateTradeNpc {
    /// The source that makes the NPC a trader: its character function row
    /// where it has one, else its Trade Manager title.
    pub fn role_source(&self) -> (r: &'static str)
        ensures
            r@ == if self.character_function_trade {
                "character_function_trade"@
            } else {
                "character_title_trade_manager"@
            },
    {
        if self.character_function_trade {
            "character_function_trade"
        } else {
            "character_title_trade_manager"
        }
    }

    /// The sources that name this NPC, as tags.
    pub fn source_tags(&self, has_regionclientdata_spawn: bool) -> (r: Vec<String>)
        ensures
            string_views(r@) == source_tag_list(*self, has_regionclientdata_spawn),
    {
        proof {
            reveal_strlit("character_function_trade");
            reveal_strlit("selling_to_npc");
            reveal_strlit("character_title_trade_manager");
            reveal_strlit("character_function_barter");
            reveal_strlit("regionclientdata_spawn");
        }
        let mut tags: Vec<String> = Vec::new();
        let ghost mut expected: Seq<Seq<char>> = seq![];
        if self.character_function_trade {
            tags.push("character_function_trade".to_owned());
            proof {
                expected = expected + seq!["character_function_trade"@];
            }
        }
        assert(string_views(tags@) =~= expected);
        if self.selling_to_npc {
            tags.push("selling_to_npc".to_owned());
            proof {
                expected = expected + seq!["selling_to_npc"@];
            }
        }
        assert(string_views(tags@) =~= expected);
        if self.character_title_trade_manager {
            tags.push("character_title_trade_manager".to_owned());
            proof {
                expected = expected + seq!["character_title_trade_manager"@];
            }
        }
        assert(string_views(tags@) =~= expected);
        if self.character_function_barter {
            tags.push("character_function_barter".to_owned());
            proof {
                expected = expected + seq!["character_function_barter"@];
            }
        }
        assert(string_views(tags@) =~= expected);
        if has_regionclientdata_spawn {
            tags.push("regionclientdata_spawn".to_owned());
            proof {
                expected = expected + seq!["regionclientdata_spawn"@];
            }
        }
        assert(string_views(tags@) =~= expected);
        assert(expected =~= source_tag_list(*self, has_regionclientdata_spawn));
        tags
    }
}

/// The id of an NPC's destination: the NPC's key, followed by `:` and the
/// spawn's number from 1 where the NPC spawns more than once.
pub fn destination_id(npc_key: u32, spawn_idx: usize, spawn_count: usize) -> (r: String)
    requires
        spawn_count > 1 ==> spawn_idx < usize::MAX,
    ensures
        r@ == if spawn_count <= 1 {
            decimal(npc_key as nat)
        } else {
            decimal(npc_key as nat) + ":"@ + decimal((spawn_idx + 1) as nat)
        },
{
    let mut out = String::new();
    push_decimal_u64(&mut out, npc_key as u64);
    if spawn_count > 1 {
        proof {
            reveal_strlit(":");
        }
        out.append(":");
        push_decimal_u64(&mut out, (spawn_idx + 1) as u64);
    }
    out
}

/// The number of rows of `records` that pass `test`: regular trade rows
/// (0), barter rows (1), or rows that are both (2).
pub open spec fn count_rows(records: Seq<TradeFunctionRecord>, test: u8) -> nat
    decreases records.len(),
{
    if records.len() == 0 {
        0
    } else {
        let r = records.last();
        let hit = if test == 0 {
            r.is_regular_trade
        } else if test == 1 {
            r.is_barter
        } else {
            r.is_regular_trade && r.is_barter
        };
        count_rows(records.drop_last(), test) + if hit { 1nat } else { 0nat }
    }
}

proof fn lemma_count_rows_bound(records: Seq<TradeFunctionRecord>, test: u8)
    ensures
        count_rows(records, test) <= records.len(),
    decreases records.len(),
{
    if records.len() > 0 {
        lemma_count_rows_bound(records.drop_last(), test);
    }
}

/// The numbers of regular trade rows, barter rows and rows that are both.
pub fn trade_function_counts(function_records: &Vec<TradeFunctionRecord>) -> (r: (usize, usize, usize))
    ensures
        r.0 == count_rows(function_records@, 0),
        r.1 == count_rows(function_records@, 1),
        r.2 == count_rows(function_records@, 2),
{
    let ghost records = function_records@;
    let mut trade: usize = 0;
    let mut barter: usize = 0;
    let mut both: usize = 0;
    let mut k: usize = 0;
    while k < function_records.len()
        invariant
            records == function_records@,
            k <= records.len(),
            trade == count_rows(records.take(k as int), 0),
            barter == count_rows(records.take(k as int), 1),
            both == count_rows(records.take(k as int), 2),
        decreases records.len() - k,
    {
        let r = &function_records[k];
        proof {
            assert(records.take(k + 1).drop_last() =~= records.take(k as int));
            assert(records.take(k + 1).last() == records[k as int]);
            lemma_count_rows_bound(records.take(k as int), 0);
            lemma_count_rows_bound(records.take(k as int), 1);
            lemma_count_rows_bound(records.take(k as int), 2);
        }
        if r.is_regular_trade {
            trade = trade + 1;
        }
        if r.is_barter {
            barter = barter + 1;
        }
        if r.is_regular_trade && r.is_barter {
            both = both + 1;
        }
        k = k + 1;
    }
    assert(records.take(records.len() as int) =~= records);
    (trade, barter, both)
}


/// Why a candidate, or one of its spawns, gives no destination.
#[derive(Clone, Copy, Debug, PartialEq, Eq)]
pub enum TradeExclusionReason {
    /// The NPC has no spawn in `regionclientdata`.
    MissingSpawn,
    /// The region the NPC spawns in resolves to no trade origin with a
    /// position.
    MissingTradeOrigin,
}

impl TradeExclusionReason {
    /// The reason as the catalog writes it.
    pub fn text(&self) -> (r: &'static str)
        ensures
            *self == TradeExclusionReason::MissingSpawn ==> r@ == "missing_regionclientdata_spawn"@,
            *self == TradeExclusionReason::MissingTradeOrigin ==> r@ == "missing_assigned_region_trade_origin"@,
    {
        match self {
            TradeExclusionReason::MissingSpawn => "missing_regionclientdata_spawn",
            TradeExclusionReason::MissingTradeOrigin => "missing_assigned_region_trade_origin",
        }
    }
}

/// A spawn of a candidate that becomes a sell destination.
#[derive(Clone, Debug)]
pub struct PlannedTradeDestination {
    pub id: String,
    pub npc_key: u32,
    pub spawn_idx: usize,
    pub region_id: u32,
    pub role_source: &'static str,
    pub source_tags: Vec<String>,
}

/// A candidate, or one of its spawns, left out, and why.
#[derive(Clone, Debug)]
pub struct ExcludedTradeCandidate {
    pub npc_key: u32,
    pub reason: TradeExclusionReason,
    pub source_tags: Vec<String>,
}

/// The spawn regions of NPC `key`, where it has any.
pub open spec fn spawns_of(spawns: Map<u32, Vec<u32>>, key: u32) -> Seq<u32> {
    if spawns.contains_key(key) { spawns[key]@ } else { seq![] }
}

/// The destinations that the first `n` spawns of candidate `c` give: each
/// spawn whose region has a trade origin, as (NPC, spawn index, region).
pub open spec fn spawn_destinations(key: u32, regions: Seq<u32>, origins: Set<u32>, n: int) -> Seq<(u32, int, u32)>
    decreases n,
{
    if n <= 0 {
        seq![]
    } else {
        let rest = spawn_destinations(key, regions, origins, n - 1);
        if origins.contains(regions[n - 1]) { rest.push((key, n - 1, regions[n - 1])) } else { rest }
    }
}

/// The exclusions that the first `n` spawns of a candidate give: one for
/// each spawn whose region has no trade origin.
pub open spec fn spawn_exclusions(key: u32, regions: Seq<u32>, origins: Set<u32>, n: int) -> Seq<(u32, TradeExclusionReason)>
    decreases n,
{
    if n <= 0 {
        seq![]
    } else {
        let rest = spawn_exclusions(key, regions, origins, n - 1);
        if origins.contains(regions[n - 1]) { rest } else { rest.push((key, TradeExclusionReason::MissingTradeOrigin)) }
    }
}

/// The destinations of the first `n` candidates, in order.
pub open spec fn planned_destinations(
    cands: Seq<CandidateTradeNpc>,
    spawns: Map<u32, Vec<u32>>,
    origins: Set<u32>,
    n: int,
) -> Seq<(u32, int, u32)>
    decreases n,
{
    if n <= 0 {
        seq![]
    } else {
        let key = cands[n - 1].npc_key;
        let regions = spawns_of(spawns, key);
        planned_destinations(cands, spawns, origins, n - 1) + spawn_destinations(key, regions, origins, regions.len() as int)
    }
}

/// The exclusions of the first `n` candidates, in order: a candidate without
/// spawns once, a candidate with spawns once for each spawn without a trade
/// origin.
pub open spec fn planned_exclusions(
    cands: Seq<CandidateTradeNpc>,
    spawns: Map<u32, Vec<u32>>,
    origins: Set<u32>,
    n: int,
) -> Seq<(u32, TradeExclusionReason)>
    decreases n,
{
    if n <= 0 {
        seq![]
    } else {
        let key = cands[n - 1].npc_key;
        let regions = spawns_of(spawns, key);
        planned_exclusions(cands, spawns, origins, n - 1) + if regions.len() == 0 {
            seq![(key, TradeExclusionReason::MissingSpawn)]
        } else {
            spawn_exclusions(key, regions, origins, regions.len() as int)
        }
    }
}

/// The candidate with NPC key `key` among `cands`, where there is one.
pub open spec fn candidate_with(cands: Seq<CandidateTradeNpc>, key: u32) -> CandidateTradeNpc {
    cands[choose|i: int| 0 <= i < cands.len() && cands[i].npc_key == key]
}

/// Turns candidates into sell destinations: each spawn of a candidate (given
/// as the regions in `spawns`) whose region is among `origins`, the regions
/// with a trade origin, becomes a destination, named by `destination_id`;
/// a candidate without spawns, and each spawn without a trade origin, is
/// left out with its reason. Candidates are taken in the order given, their
/// spawns in order.
pub fn plan_trade_destinations(
    cands: &Vec<CandidateTradeNpc>,
    spawns: &BTreeMap<u32, Vec<u32>>,
    origins: &BTreeSet<u32>,
) -> (r: (Vec<PlannedTradeDestination>, Vec<ExcludedTradeCandidate>))
    requires
        forall|i: int, j: int| 0 <= i < j < cands@.len() ==> (#[trigger] cands@[i]).npc_key != (#[trigger] cands@[j]).npc_key,
    ensures
        r.0@.len() == planned_destinations(cands@, spawns@, origins@, cands@.len() as int).len(),
        forall|k: int| 0 <= k < r.0@.len() ==> dest_matches(
            #[trigger] r.0@[k],
            planned_destinations(cands@, spawns@, origins@, cands@.len() as int)[k],
            cands@,
            spawns@,
        ),
        r.1@.len() == planned_exclusions(cands@, spawns@, origins@, cands@.len() as int).len(),
        forall|k: int| 0 <= k < r.1@.len() ==> excl_matches(
            #[trigger] r.1@[k],
            planned_exclusions(cands@, spawns@, origins@, cands@.len() as int)[k],
            cands@,
        ),
{
    let mut dests: Vec<PlannedTradeDestination> = Vec::new();
    let mut excluded: Vec<ExcludedTradeCandidate> = Vec::new();
    let empty: Vec<u32> = Vec::new();
    let mut i: usize = 0;
    while i < cands.len()
        invariant
            i <= cands@.len(),
            empty@.len() == 0,
            forall|a: int, b: int| 0 <= a < b < cands@.len() ==> (#[trigger] cands@[a]).npc_key != (#[trigger] cands@[b]).npc_key,
            dests@.len() == planned_destinations(cands@, spawns@, origins@, i as int).len(),
            forall|k: int| 0 <= k < dests@.len() ==> dest_matches(#[trigger] dests@[k], planned_destinations(cands@, spawns@, origins@, i as int)[k], cands@, spawns@),
            excluded@.len() == planned_exclusions(cands@, spawns@, origins@, i as int).len(),
            forall|k: int| 0 <= k < excluded@.len() ==> excl_matches(#[trigger] excluded@[k], planned_exclusions(cands@, spawns@, origins@, i as int)[k], cands@),
        decreases cands@.len() - i,
    {
        let c = &cands[i];
        let key = c.npc_key;
        proof {
            lemma_candidate_with(cands@, i as int);
        }
        let regions = match spawns.get(&key) {
            Some(v) => v,
            None => &empty,
        };
        assert(regions@ == spawns_of(spawns@, key));
        let ghost d0 = planned_destinations(cands@, spawns@, origins@, i as int);
        let ghost e0 = planned_exclusions(cands@, spawns@, origins@, i as int);
        if regions.len() == 0 {
            let ghost before = excluded@;
            excluded.push(ExcludedTradeCandidate { npc_key: key, reason: TradeExclusionReason::MissingSpawn, source_tags: c.source_tags(false) });
            proof {
                let e1 = planned_exclusions(cands@, spawns@, origins@, i + 1);
                assert(e1 == e0 + seq![(key, TradeExclusionReason::MissingSpawn)]);
                assert forall|k: int| 0 <= k < excluded@.len() implies excl_matches(#[trigger] excluded@[k], e1[k], cands@) by {
                    if k < before.len() {
                        assert(excluded@[k] == before[k]);
                        assert(e1[k] == e0[k]);
                    }
                }
                assert(planned_destinations(cands@, spawns@, origins@, i + 1) =~= d0);
            }
        } else {
            let n = regions.len();
            let mut s: usize = 0;
            while s < n
                invariant
                    s <= n,
                    n == regions@.len(),
                    regions@ == spawns_of(spawns@, key),
                    key == cands@[i as int].npc_key,
                    candidate_with(cands@, key) == cands@[i as int],
                    c == &cands@[i as int],
                    dests@.len() == d0.len() + spawn_destinations(key, regions@, origins@, s as int).len(),
                    forall|k: int| 0 <= k < dests@.len() ==> dest_matches(#[trigger] dests@[k], (d0 + spawn_destinations(key, regions@, origins@, s as int))[k], cands@, spawns@),
                    excluded@.len() == e0.len() + spawn_exclusions(key, regions@, origins@, s as int).len(),
                    forall|k: int| 0 <= k < excluded@.len() ==> excl_matches(#[trigger] excluded@[k], (e0 + spawn_exclusions(key, regions@, origins@, s as int))[k], cands@),
                decreases n - s,
            {
                let region = regions[s];
                let ghost dprev = dests@;
                let ghost eprev = excluded@;
                let ghost ds = d0 + spawn_destinations(key, regions@, origins@, s as int);
                let ghost es = e0 + spawn_exclusions(key, regions@, origins@, s as int);
                if origins.contains(&region) {
                    dests.push(PlannedTradeDestination {
                        id: destination_id(key, s, n),
                        npc_key: key,
                        spawn_idx: s,
                        region_id: region,
                        role_source: c.role_source(),
                        source_tags: c.source_tags(true),
                    });
                    proof {
                        let ds1 = d0 + spawn_destinations(key, regions@, origins@, s + 1);
                        assert(ds1 =~= ds.push((key, s as int, region)));
                        assert forall|k: int| 0 <= k < dests@.len() implies dest_matches(#[trigger] dests@[k], ds1[k], cands@, spawns@) by {
                            if k < dprev.len() {
                                assert(dests@[k] == dprev[k]);
                            }
                        }
                        assert(e0 + spawn_exclusions(key, regions@, origins@, s + 1) =~= es);
                    }
                } else {
                    excluded.push(ExcludedTradeCandidate { npc_key: key, reason: TradeExclusionReason::MissingTradeOrigin, source_tags: c.source_tags(true) });
                    proof {
                        let es1 = e0 + spawn_exclusions(key, regions@, origins@, s + 1);
                        assert(es1 =~= es.push((key, TradeExclusionReason::MissingTradeOrigin)));
                        assert forall|k: int| 0 <= k < excluded@.len() implies excl_matches(#[trigger] excluded@[k], es1[k], cands@) by {
                            if k < eprev.len() {
                                assert(excluded@[k] == eprev[k]);
                            }
                        }
                        assert(d0 + spawn_destinations(key, regions@, origins@, s + 1) =~= ds);
                    }
                }
                s = s + 1;
            }
            proof {
                assert(planned_destinations(cands@, spawns@, origins@, i + 1) == d0 + spawn_destinations(key, regions@, origins@, n as int));
                assert(planned_exclusions(cands@, spawns@, origins@, i + 1) == e0 + spawn_exclusions(key, regions@, origins@, n as int));
            }
        }
        i = i + 1;
    }
    (dests, excluded)
}

/// Whether destination `d` is the planned `p`.
pub open spec fn dest_matches(
    d: PlannedTradeDestination,
    p: (u32, int, u32),
    cands: Seq<CandidateTradeNpc>,
    spawns: Map<u32, Vec<u32>>,
) -> bool {
    let c = candidate_with(cands, p.0);
    &&& d.npc_key == p.0 && d.spawn_idx == p.1 && d.region_id == p.2
    &&& d.id@ == (if spawns_of(spawns, p.0).len() <= 1 {
        decimal(p.0 as nat)
    } else {
        decimal(p.0 as nat) + ":"@ + decimal((p.1 + 1) as nat)
    })
    &&& string_views(d.source_tags@) == source_tag_list(c, true)
    &&& d.role_source@ == (if c.character_function_trade { "character_function_trade"@ } else { "character_title_trade_manager"@ })
}

/// Whether exclusion `e` is the planned `p`.
pub open spec fn excl_matches(e: ExcludedTradeCandidate, p: (u32, TradeExclusionReason), cands: Seq<CandidateTradeNpc>) -> bool {
    &&& e.npc_key == p.0 && e.reason == p.1
    &&& string_views(e.source_tags@) == source_tag_list(candidate_with(cands, p.0), p.1 == TradeExclusionReason::MissingTradeOrigin)
}

proof fn lemma_candidate_with(cands: Seq<CandidateTradeNpc>, i: int)
    requires
        0 <= i < cands.len(),
        forall|a: int, b: int| 0 <= a < b < cands.len() ==> (#[trigger] cands[a]).npc_key != (#[trigger] cands[b]).npc_key,
    ensures
        candidate_with(cands, cands[i].npc_key) == cands[i],
{
    let j = choose|j: int| 0 <= j < cands.len() && cands[j].npc_key == cands[i].npc_key;
    assert(cands[j].npc_key == cands[i].npc_key);
    if j < i {
        assert(cands[j].npc_key != cands[i].npc_key);
    } else if j > i {
        assert(cands[i].npc_key != cands[j].npc_key);
    }
}


/// The key of a zone colour: its red, green and blue bytes in decimal,
/// joined with `,`.
pub fn rgb_key(rgb: u32) -> (r: String)
    ensures
        r@ == decimal(((rgb / 0x10000) % 0x100) as nat) + ","@ + decimal(((rgb / 0x100) % 0x100) as nat) + ","@
            + decimal((rgb % 0x100) as nat),
{
    let red = (rgb >> 16) & 0xff;
    let green = (rgb >> 8) & 0xff;
    let blue = rgb & 0xff;
    assert(((rgb >> 16) & 0xff) == (rgb / 0x10000) % 0x100) by (bit_vector);
    assert(((rgb >> 8) & 0xff) == (rgb / 0x100) % 0x100) by (bit_vector);
    assert((rgb & 0xff) == rgb % 0x100) by (bit_vector);
    let mut out = decimal_string(red);
    out.append(",");
    let g = decimal_string(green);
    out.append(g.as_str());
    out.append(",");
    let b = decimal_string(blue);
    out.append(b.as_str());
    proof {
        reveal_strlit(",");
    }
    out
}


/// How many of the exclusions `ex` have reason `reason`.
pub open spec fn reason_count(ex: Seq<(u32, TradeExclusionReason)>, reason: TradeExclusionReason) -> nat
    decreases ex.len(),
{
    if ex.len() == 0 {
        0
    } else {
        reason_count(ex.drop_last(), reason) + if ex.last().1 == reason { 1nat } else { 0nat }
    }
}

/// How many of the first `n` candidates have no spawn.
pub open spec fn spawnless_count(cands: Seq<CandidateTradeNpc>, spawns: Map<u32, Vec<u32>>, n: int) -> nat
    decreases n,
{
    if n <= 0 {
        0
    } else {
        spawnless_count(cands, spawns, n - 1) + if spawns_of(spawns, cands[n - 1].npc_key).len() == 0 { 1nat } else { 0nat }
    }
}

/// How many spawns the first `n` candidates have together.
pub open spec fn spawn_total(cands: Seq<CandidateTradeNpc>, spawns: Map<u32, Vec<u32>>, n: int) -> nat
    decreases n,
{
    if n <= 0 {
        0
    } else {
        spawn_total(cands, spawns, n - 1) + spawns_of(spawns, cands[n - 1].npc_key).len()
    }
}

proof fn lemma_reason_count_concat(a: Seq<(u32, TradeExclusionReason)>, b: Seq<(u32, TradeExclusionReason)>, reason: TradeExclusionReason)
    ensures
        reason_count(a + b, reason) == reason_count(a, reason) + reason_count(b, reason),
    decreases b.len(),
{
    if b.len() > 0 {
        lemma_reason_count_concat(a, b.drop_last(), reason);
        assert((a + b).drop_last() =~= a + b.drop_last());
    } else {
        assert(a + b =~= a);
    }
}

proof fn lemma_spawn_split(key: u32, regions: Seq<u32>, origins: Set<u32>, m: int)
    requires
        0 <= m <= regions.len(),
    ensures
        spawn_destinations(key, regions, origins, m).len() + reason_count(
            spawn_exclusions(key, regions, origins, m),
            TradeExclusionReason::MissingTradeOrigin,
        ) == m,
        reason_count(spawn_exclusions(key, regions, origins, m), TradeExclusionReason::MissingSpawn) == 0,
    decreases m,
{
    if m > 0 {
        lemma_spawn_split(key, regions, origins, m - 1);
        let e = spawn_exclusions(key, regions, origins, m);
        if !origins.contains(regions[m - 1]) {
            assert(e.drop_last() == spawn_exclusions(key, regions, origins, m - 1));
        }
    }
}

/// The counts of a trade destination plan add up: each candidate without a
/// spawn is left out once for it, and every spawn of the others becomes a
/// destination or is left out for want of a trade origin.
pub proof fn law_trade_plan_counts(cands: Seq<CandidateTradeNpc>, spawns: Map<u32, Vec<u32>>, origins: Set<u32>, n: int)
    requires
        0 <= n <= cands.len(),
    ensures
        reason_count(planned_exclusions(cands, spawns, origins, n), TradeExclusionReason::MissingSpawn)
            == spawnless_count(cands, spawns, n),
        planned_destinations(cands, spawns, origins, n).len() + reason_count(
            planned_exclusions(cands, spawns, origins, n),
            TradeExclusionReason::MissingTradeOrigin,
        ) == spawn_total(cands, spawns, n),
    decreases n,
{
    if n > 0 {
        law_trade_plan_counts(cands, spawns, origins, n - 1);
        let key = cands[n - 1].npc_key;
        let regions = spawns_of(spawns, key);
        let e0 = planned_exclusions(cands, spawns, origins, n - 1);
        let tail = if regions.len() == 0 {
            seq![(key, TradeExclusionReason::MissingSpawn)]
        } else {
            spawn_exclusions(key, regions, origins, regions.len() as int)
        };
        lemma_reason_count_concat(e0, tail, TradeExclusionReason::MissingSpawn);
        lemma_reason_count_concat(e0, tail, TradeExclusionReason::MissingTradeOrigin);
        lemma_spawn_split(key, regions, origins, regions.len() as int);
        if regions.len() == 0 {
            assert(tail.drop_last() =~= Seq::<(u32, TradeExclusionReason)>::empty());
            assert(spawn_destinations(key, regions, origins, 0) =~= Seq::<(u32, int, u32)>::empty());
        }
    }
}

} // verus!
