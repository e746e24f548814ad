//! The loot of fishing hotspots: the options of item main groups expanded
//! into branches, their drop rates and conditions, and which condition
//! option of a loot group is shown as active.
use std::collections::{BTreeMap, BTreeSet};
use vstd::prelude::*;
use vstd::string::StrSliceExecFns;
use crate::ingest::{join_spec, pieces_from};
use crate::text::{
    decimal, decimal_padded, decimal_string, digit_char, find_char_from, has_prefix, lemma_next_char_from,
    push_decimal_padded, starts_with_str, trim_spec, trim_str, text_lt, str_lt, lemma_text_lt_strict,
    lemma_text_lt_total, lemma_text_lt_transitive,
};

verus! {

/// The most that a select rate, in millionths, can be.
pub const RATE_SCALE: u64 = 1_000_000;

/// The select rate of an option reached through a parent with rate
/// `parent`: the product of the two in millionths, at most the whole; the
/// one that is known where only one is.
pub open spec fn combined_rate(parent: Option<u32>, child: Option<u32>) -> Option<u32> {
    match (parent, child) {
        (Some(p), Some(c)) => Some(
            if (p * c) / RATE_SCALE as int > RATE_SCALE as int {
                RATE_SCALE as u32
            } else {
                ((p * c) / RATE_SCALE as int) as u32
            },
        ),
        (Some(p), None) => Some(p),
        (None, Some(c)) => Some(c),
        (None, None) => None,
    }
}

/// Combines a parent's select rate with an option's; see `combined_rate`.
pub fn combine_select_rates(parent: Option<u32>, child: Option<u32>) -> (r: Option<u32>)
    ensures
        r == combined_rate(parent, child),
{
    match (parent, child) {
        (Some(p), Some(c)) => {
            assert((p as u64) * (c as u64) <= 0xFFFF_FFFF * 0xFFFF_FFFF) by (nonlinear_arith)
                requires
                    p <= 0xFFFF_FFFF,
                    c <= 0xFFFF_FFFF,
            ;
            let product = (p as u64) * (c as u64) / RATE_SCALE;
            Some(if product > RATE_SCALE { RATE_SCALE as u32 } else { product as u32 })
        },
        (Some(p), None) => Some(p),
        (None, Some(c)) => Some(c),
        (None, None) => None,
    }
}

/// The tone that an item grade is drawn in.
pub open spec fn grade_tone(grade_type: Option<u32>) -> Seq<char> {
    match grade_type {
        Some(4) => "red"@,
        Some(3) => "yellow"@,
        Some(2) => "blue"@,
        Some(1) => "green"@,
        Some(0) => "white"@,
        _ => "unknown"@,
    }
}

/// The tone that an item grade is drawn in.
pub fn hotspot_grade_tone(grade_type: Option<u32>) -> (r: &'static str)
    ensures
        r@ == grade_tone(grade_type),
{
    match grade_type {
        Some(4) => "red",
        Some(3) => "yellow",
        Some(2) => "blue",
        Some(1) => "green",
        Some(0) => "white",
        _ => "unknown",
    }
}

/// `s` without the `0` digits that end it.
pub open spec fn strip_trailing_zeros(s: Seq<char>) -> Seq<char>
    decreases s.len(),
{
    if s.len() > 0 && s.last() == '0' {
        strip_trailing_zeros(s.drop_last())
    } else {
        s
    }
}

/// A rate in millionths as a percentage: the whole percent, then the four
/// digits of hundredths of a permille less the zeros that end them (and the
/// point, where none are left), then `%`.
pub open spec fn rate_text(rate: u32) -> Seq<char> {
    let whole = decimal((rate / 10000) as nat);
    let frac = strip_trailing_zeros(decimal_padded((rate % 10000) as nat, 4));
    if frac.len() == 0 {
        whole + "%"@
    } else {
        whole + "."@ + frac + "%"@
    }
}

/// Shows a rate in millionths as a percentage with at most four decimals
/// and no zeros at the end, such as `12.5%` or `0.0001%`.
pub fn rate_text_from_micros(rate: u32) -> (r: String)
    ensures
        r@ == rate_text(rate),
{
    let rem = rate % 10000;
    let d1 = rem / 1000;
    let d2 = rem / 100 % 10;
    let d3 = rem / 10 % 10;
    let d4 = rem % 10;
    let mut out = decimal_string(rate / 10000);
    let ghost whole = out@;
    proof {
        reveal_with_fuel(decimal_padded, 5);
        reveal_with_fuel(strip_trailing_zeros, 5);
        reveal_strlit(".");
        reveal_strlit("%");
        assert(rem / 1000 < 10);
        assert(decimal_padded(rem as nat, 4) == seq![
            digit_char(d1 as int),
            digit_char(d2 as int),
            digit_char(d3 as int),
            digit_char(d4 as int),
        ]);
    }
    let (kept, width): (u32, u32) = if d4 != 0 {
        (rem, 4)
    } else if d3 != 0 {
        (rem / 10, 3)
    } else if d2 != 0 {
        (rem / 100, 2)
    } else if d1 != 0 {
        (rem / 1000, 1)
    } else {
        (0, 0)
    };
    let ghost digits = decimal_padded(rem as nat, 4);
    if width > 0 {
        out.append(".");
        push_decimal_padded(&mut out, kept, width);
        proof {
            let s = decimal_padded(kept as nat, width as nat);
            if width == 4 {
                assert(strip_trailing_zeros(digits) == digits);
                assert(s == digits);
            } else if width == 3 {
                assert(digits.drop_last() =~= seq![digit_char(d1 as int), digit_char(d2 as int), digit_char(d3 as int)]);
                assert(strip_trailing_zeros(digits) == strip_trailing_zeros(digits.drop_last()));
                assert(strip_trailing_zeros(digits.drop_last()) == digits.drop_last());
                assert(s =~= digits.drop_last());
            } else if width == 2 {
                assert(digits.drop_last().drop_last() =~= seq![digit_char(d1 as int), digit_char(d2 as int)]);
                assert(strip_trailing_zeros(digits) == strip_trailing_zeros(digits.drop_last()));
                assert(strip_trailing_zeros(digits.drop_last()) == strip_trailing_zeros(digits.drop_last().drop_last()));
                assert(s =~= digits.drop_last().drop_last());
            } else {
                assert(digits.drop_last().drop_last().drop_last() =~= seq![digit_char(d1 as int)]);
                assert(strip_trailing_zeros(digits) == strip_trailing_zeros(digits.drop_last()));
                assert(strip_trailing_zeros(digits.drop_last()) == strip_trailing_zeros(digits.drop_last().drop_last()));
                assert(strip_trailing_zeros(digits.drop_last().drop_last()) == strip_trailing_zeros(
                    digits.drop_last().drop_last().drop_last(),
                ));
                assert(s =~= digits.drop_last().drop_last().drop_last());
            }
        }
    } else {
        proof {
            assert(strip_trailing_zeros(digits) == strip_trailing_zeros(digits.drop_last()));
            assert(strip_trailing_zeros(digits.drop_last()) == strip_trailing_zeros(digits.drop_last().drop_last()));
            assert(strip_trailing_zeros(digits.drop_last().drop_last()) == strip_trailing_zeros(
                digits.drop_last().drop_last().drop_last(),
            ));
            assert(digits.drop_last().drop_last().drop_last().drop_last() =~= Seq::<char>::empty());
            assert(strip_trailing_zeros(digits.drop_last().drop_last().drop_last()) == Seq::<char>::empty());
        }
    }
    out.append("%");
    out
}

/// The conditions along a branch written as one: each trimmed, joined with
/// nothing between them.
pub open spec fn joined_conditions(conditions: Seq<Seq<char>>) -> Seq<char>
    decreases conditions.len(),
{
    if conditions.len() == 0 {
        seq![]
    } else {
        joined_conditions(conditions.drop_last()) + trim_spec(conditions.last())
    }
}

/// The raw condition of a branch: its conditions joined, none where that is
/// empty.
pub open spec fn combined_condition(conditions: Seq<Seq<char>>) -> Option<Seq<char>> {
    if joined_conditions(conditions).len() == 0 {
        None
    } else {
        Some(joined_conditions(conditions))
    }
}

/// The views of a list of strings.
pub open spec fn string_views(v: Seq<String>) -> Seq<Seq<char>> {
    v.map_values(|s: String| s@)
}

/// Joins the conditions along a branch into one raw condition.
pub fn combine_condition_raw(conditions: &Vec<String>) -> (r: Option<String>)
    ensures
        match r {
            Some(s) => combined_condition(string_views(conditions@)) == Some(s@),
            None => combined_condition(string_views(conditions@)) is None,
        },
{
    let mut joined = String::new();
    let mut k: usize = 0;
    while k < conditions.len()
        invariant
            k <= conditions@.len(),
            joined@ == joined_conditions(string_views(conditions@.take(k as int))),
        decreases conditions@.len() - k,
    {
        let part = trim_str(conditions[k].as_str());
        joined.append(part);
        proof {
            let prev = string_views(conditions@.take(k as int));
            let next = string_views(conditions@.take(k + 1));
            assert(next.drop_last() =~= prev);
            assert(next.last() == conditions@[k as int]@);
        }
        k = k + 1;
    }
    assert(conditions@.take(conditions@.len() as int) =~= conditions@);
    if joined.as_str().unicode_len() == 0 {
        None
    } else {
        Some(joined)
    }
}

/// The predicate that opens a contents group.
pub open spec fn open_group_prefix() -> Seq<char> {
    "isContentsGroupOpen(0,"@
}

/// Whether some predicate of a condition key, trimmed, opens a contents
/// group.
pub open spec fn opens_contents_group(condition_key: Seq<char>) -> bool {
    let pieces = pieces_from(condition_key, ';', 0);
    exists|i: int| 0 <= i < pieces.len() && has_prefix(trim_spec(#[trigger] pieces[i]), open_group_prefix())
}

/// Whether a condition key has a predicate that opens a contents group.
pub fn contents_group_open_condition(condition_key: &str) -> (r: bool)
    ensures
        r == opens_contents_group(condition_key@),
{
    let prefix = "isContentsGroupOpen(0,";
    let n = condition_key.unicode_len();
    let ghost all = pieces_from(condition_key@, ';', 0);
    let ghost mut done: Seq<Seq<char>> = seq![];
    let mut i: usize = 0;
    proof {
        reveal_strlit("isContentsGroupOpen(0,");
    }
    loop
        invariant
            i <= n,
            n == condition_key@.len(),
            prefix@ == open_group_prefix(),
            all == pieces_from(condition_key@, ';', 0),
            done + pieces_from(condition_key@, ';', i as int) == all,
            forall|j: int| 0 <= j < done.len() ==> !has_prefix(trim_spec(#[trigger] done[j]), open_group_prefix()),
        decreases n + 1 - i,
    {
        let k = find_char_from(condition_key, ';', i);
        proof {
            lemma_next_char_from(condition_key@, ';', i as int);
        }
        let piece = condition_key.substring_char(i, k);
        let p = trim_str(piece);
        let ghost before = done;
        proof {
            done = done.push(piece@);
            assert(all[before.len() as int] == piece@);
        }
        if starts_with_str(p, prefix) {
            assert(has_prefix(trim_spec(all[before.len() as int]), open_group_prefix()));
            return true;
        }
        if k >= n {
            proof {
                assert(done =~= all);
                assert forall|j: int| 0 <= j < all.len() implies !has_prefix(trim_spec(#[trigger] all[j]), open_group_prefix()) by {
                    assert(all[j] == done[j]);
                }
            }
            return false;
        }
        assert(before + pieces_from(condition_key@, ';', i as int) =~= done + pieces_from(condition_key@, ';', k + 1));
        i = k + 1;
    }
}

/// One step of the way to a loot branch: main group `item_main_group_key`,
/// its option `option_idx`, which points at subgroup `item_sub_group_key`.
#[derive(Clone, Copy, Debug, PartialEq, Eq, Structural)]
pub struct SourceLootLineage {
    pub item_main_group_key: u32,
    pub option_idx: u32,
    pub item_sub_group_key: u32,
}

/// How one step of a lineage is shown.
pub open spec fn lineage_step_text(step: SourceLootLineage) -> Seq<char> {
    "main group "@ + decimal(step.item_main_group_key as nat) + " -> subgroup "@ + decimal(
        step.item_sub_group_key as nat,
    ) + ", option "@ + decimal(step.option_idx as nat)
}

/// How a lineage is shown: its steps joined with ` | `, or `unknown
/// lineage` where it has none.
pub open spec fn lineage_text(lineage: Seq<SourceLootLineage>) -> Seq<char> {
    if lineage.len() == 0 {
        "unknown lineage"@
    } else {
        join_spec(lineage.map_values(|step: SourceLootLineage| lineage_step_text(step)), " | "@)
    }
}

/// Shows the lineage of a loot branch.
pub fn source_loot_lineage_tooltip(lineage: &Vec<SourceLootLineage>) -> (r: String)
    ensures
        r@ == lineage_text(lineage@),
{
    proof {
        reveal_strlit("unknown lineage");
        reveal_strlit("main group ");
        reveal_strlit(" -> subgroup ");
        reveal_strlit(", option ");
        reveal_strlit(" | ");
    }
    if lineage.len() == 0 {
        return "unknown lineage".to_owned();
    }
    let mut out = String::new();
    let mut k: usize = 0;
    let ghost texts = lineage@.map_values(|step: SourceLootLineage| lineage_step_text(step));
    while k < lineage.len()
        invariant
            k <= lineage@.len(),
            lineage@.len() > 0,
            texts == lineage@.map_values(|step: SourceLootLineage| lineage_step_text(step)),
            k > 0 ==> out@ == join_spec(texts.take(k as int), " | "@),
            k == 0 ==> out@ == Seq::<char>::empty(),
        decreases lineage@.len() - k,
    {
        let step = lineage[k];
        if k > 0 {
            out.append(" | ");
        }
        out.append("main group ");
        push_decimal_padded(&mut out, step.item_main_group_key, 1);
        out.append(" -> subgroup ");
        push_decimal_padded(&mut out, step.item_sub_group_key, 1);
        out.append(", option ");
        push_decimal_padded(&mut out, step.option_idx, 1);
        proof {
            assert(texts.take(k + 1).drop_last() =~= texts.take(k as int));
            assert(texts.take(k + 1).last() == lineage_step_text(step));
            if k == 0 {
                assert(texts.take(1) =~= seq![lineage_step_text(step)]);
            }
        }
        k = k + 1;
    }
    assert(texts.take(lineage@.len() as int) =~= texts);
    out
}

/// One item that a loot subgroup can give, with its select rate.
#[derive(Clone, Debug, PartialEq, Eq)]
pub struct SourceLootItem {
    pub item_id: u32,
    pub name: String,
    pub select_rate: u32,
    pub grade_type: Option<u32>,
    pub icon_item_id: Option<u32>,
    pub icon_image: Option<String>,
    pub is_fish: bool,
    pub source_tooltip: Option<String>,
}

/// One option of an item main group: its select rate and condition, and the
/// subgroup it points at with that subgroup's items.
#[derive(Clone, Debug, PartialEq, Eq)]
pub struct SourceLootOption {
    pub option_idx: u32,
    pub select_rate: Option<u32>,
    pub condition_raw: Option<String>,
    pub item_sub_group_key: u32,
    pub items: Vec<SourceLootItem>,
}

/// The options of each item main group, in the order they are tried, with
/// the number of option and item rows they were read from.
#[derive(Clone, Debug)]
pub struct SourceLootLookup {
    pub options_by_main_group: BTreeMap<u32, Vec<SourceLootOption>>,
    pub option_rows: usize,
    pub variant_rows: usize,
}

/// A branch of a main group's options: where options point at further
/// main groups, those are expanded in their place.
#[derive(Clone, Debug, PartialEq, Eq)]
pub struct ExpandedSourceLootOption {
    pub branch_idx: u32,
    pub select_rate: Option<u32>,
    pub condition_raw: Option<String>,
    pub item_sub_group_key: u32,
    pub items: Vec<SourceLootItem>,
    pub lineage: Vec<SourceLootLineage>,
}

/// A branch as the contracts see it.
pub struct LootBranch {
    pub select_rate: Option<u32>,
    pub condition_raw: Option<Seq<char>>,
    pub item_sub_group_key: u32,
    pub items: Seq<SourceLootItem>,
    pub lineage: Seq<SourceLootLineage>,
}

/// The view of an optional string.
pub open spec fn text_view(s: Option<String>) -> Option<Seq<char>> {
    match s {
        Some(t) => Some(t@),
        None => None,
    }
}

/// The view of a branch.
pub open spec fn branch_view(e: ExpandedSourceLootOption) -> LootBranch {
    LootBranch {
        select_rate: e.select_rate,
        condition_raw: text_view(e.condition_raw),
        item_sub_group_key: e.item_sub_group_key,
        items: e.items@,
        lineage: e.lineage@,
    }
}

/// The views of a list of branches.
pub open spec fn branches_view(v: Seq<ExpandedSourceLootOption>) -> Seq<LootBranch> {
    v.map_values(|e: ExpandedSourceLootOption| branch_view(e))
}

/// The conditions along a branch after an option with condition `c`: `c`
/// is added where it is not there yet.
pub open spec fn with_condition(conditions: Seq<Seq<char>>, c: Option<String>) -> Seq<Seq<char>> {
    match c {
        Some(s) => if conditions.contains(s@) {
            conditions
        } else {
            conditions.push(s@)
        },
        None => conditions,
    }
}

/// The branch that ends at option `opt`.
pub open spec fn leaf_branch(
    opt: SourceLootOption,
    conditions: Seq<Seq<char>>,
    rate: Option<u32>,
    lineage: Seq<SourceLootLineage>,
) -> LootBranch {
    LootBranch {
        select_rate: rate,
        condition_raw: combined_condition(conditions),
        item_sub_group_key: opt.item_sub_group_key,
        items: opt.items@,
        lineage,
    }
}

/// The branches of main group `key`, reached with conditions `conditions`,
/// rate `rate` and lineage `lineage` at depth `depth`, where the main groups
/// of `visited` are being expanded already: none where the depth is past 8,
/// the group is being expanded already, or it has no options; else those of
/// its options in turn.
pub open spec fn expand_group(
    groups: Map<u32, Vec<SourceLootOption>>,
    key: u32,
    visited: Seq<u32>,
    conditions: Seq<Seq<char>>,
    rate: Option<u32>,
    lineage: Seq<SourceLootLineage>,
    depth: int,
) -> Seq<LootBranch>
    decreases 9 - depth, 1int, 0int,
{
    if depth > 8 || depth < 0 || visited.contains(key) || !groups.contains_key(key) {
        seq![]
    } else {
        expand_options(groups, key, visited.push(key), conditions, rate, lineage, depth, groups[key]@.len() as int)
    }
}

/// The branches of the first `k` options of main group `key`: an option
/// that points at another main group, not being expanded yet, that gives
/// any branches is replaced by those; any other option ends a branch.
pub open spec fn expand_options(
    groups: Map<u32, Vec<SourceLootOption>>,
    key: u32,
    visited: Seq<u32>,
    conditions: Seq<Seq<char>>,
    rate: Option<u32>,
    lineage: Seq<SourceLootLineage>,
    depth: int,
    k: int,
) -> Seq<LootBranch>
    decreases 9 - depth, 0int, k,
{
    if k <= 0 || depth > 8 || depth < 0 || !groups.contains_key(key) || k > groups[key]@.len() {
        seq![]
    } else {
        let prev = expand_options(groups, key, visited, conditions, rate, lineage, depth, k - 1);
        let opt = groups[key]@[k - 1];
        let c2 = with_condition(conditions, opt.condition_raw);
        let r2 = combined_rate(rate, opt.select_rate);
        let l2 = lineage.push(
            SourceLootLineage { item_main_group_key: key, option_idx: opt.option_idx, item_sub_group_key: opt.item_sub_group_key },
        );
        let nested = if opt.item_sub_group_key != key && groups.contains_key(opt.item_sub_group_key) && !visited.contains(
            opt.item_sub_group_key,
        ) {
            expand_group(groups, opt.item_sub_group_key, visited, c2, r2, l2, depth + 1)
        } else {
            seq![]
        };
        if nested.len() > 0 {
            prev + nested
        } else {
            prev.push(leaf_branch(opt, c2, r2, l2))
        }
    }
}

fn copy_text(s: &Option<String>) -> (r: Option<String>)
    ensures
        r == *s,
{
    match s {
        Some(t) => Some(t.clone()),
        None => None,
    }
}

fn copy_items(v: &Vec<SourceLootItem>) -> (r: Vec<SourceLootItem>)
    ensures
        r@ == v@,
{
    let mut out: Vec<SourceLootItem> = Vec::new();
    let mut k: usize = 0;
    while k < v.len()
        invariant
            k <= v@.len(),
            out@ == v@.take(k as int),
        decreases v@.len() - k,
    {
        let it = &v[k];
        out.push(
            SourceLootItem {
                item_id: it.item_id,
                name: it.name.clone(),
                select_rate: it.select_rate,
                grade_type: it.grade_type,
                icon_item_id: it.icon_item_id,
                icon_image: copy_text(&it.icon_image),
                is_fish: it.is_fish,
                source_tooltip: copy_text(&it.source_tooltip),
            },
        );
        assert(out@ =~= v@.take(k + 1));
        k = k + 1;
    }
    assert(out@ =~= v@);
    out
}

fn copy_strings(v: &Vec<String>) -> (r: Vec<String>)
    ensures
        r@ == v@,
{
    let mut out: Vec<String> = Vec::new();
    let mut k: usize = 0;
    while k < v.len()
        invariant
            k <= v@.len(),
            out@ == v@.take(k as int),
        decreases v@.len() - k,
    {
        out.push(v[k].clone());
        assert(out@ =~= v@.take(k + 1));
        k = k + 1;
    }
    assert(out@ =~= v@);
    out
}

fn copy_lineage(v: &Vec<SourceLootLineage>) -> (r: Vec<SourceLootLineage>)
    ensures
        r@ == v@,
{
    let mut out: Vec<SourceLootLineage> = Vec::new();
    let mut k: usize = 0;
    while k < v.len()
        invariant
            k <= v@.len(),
            out@ == v@.take(k as int),
        decreases v@.len() - k,
    {
        out.push(v[k]);
        assert(out@ =~= v@.take(k + 1));
        k = k + 1;
    }
    assert(out@ =~= v@);
    out
}

fn holds_id(v: &Vec<u32>, x: u32) -> (r: bool)
    ensures
        r == v@.contains(x),
{
    let mut k: usize = 0;
    while k < v.len()
        invariant
            k <= v@.len(),
            forall|j: int| 0 <= j < k ==> v@[j] != x,
        decreases v@.len() - k,
    {
        if v[k] == x {
            assert(v@[k as int] == x);
            return true;
        }
        k = k + 1;
    }
    false
}

fn holds_text(v: &Vec<String>, s: &String) -> (r: bool)
    ensures
        r == string_views(v@).contains(s@),
{
    let mut k: usize = 0;
    while k < v.len()
        invariant
            k <= v@.len(),
            forall|j: int| 0 <= j < k ==> v@[j]@ != s@,
        decreases v@.len() - k,
    {
        if v[k] == *s {
            assert(string_views(v@)[k as int] == s@);
            return true;
        }
        k = k + 1;
    }
    assert forall|j: int| 0 <= j < string_views(v@).len() implies string_views(v@)[j] != s@ by {
        assert(string_views(v@)[j] == v@[j]@);
    }
    false
}

impl SourceLootLookup {
    /// The branches of main group `item_main_group_key`, reached with the
    /// given conditions, rate and lineage at depth `depth`, while the main
    /// groups of `visited_main_groups` are being expanded; see
    /// `expand_group`. `visited_main_groups` is as it was on return.
    pub fn expand_main_group(
        &self,
        item_main_group_key: u32,
        visited_main_groups: &mut Vec<u32>,
        inherited_conditions: Vec<String>,
        inherited_select_rate: Option<u32>,
        inherited_lineage: Vec<SourceLootLineage>,
        depth: usize,
    ) -> (r: Vec<ExpandedSourceLootOption>)
        ensures
            final(visited_main_groups)@ == old(visited_main_groups)@,
            branches_view(r@) == expand_group(
                self.options_by_main_group@,
                item_main_group_key,
                old(visited_main_groups)@,
                string_views(inherited_conditions@),
                inherited_select_rate,
                inherited_lineage@,
                depth as int,
            ),
            forall|i: int| 0 <= i < r@.len() ==> (#[trigger] r@[i]).branch_idx == 0,
        decreases 9 - depth,
    {
        let ghost groups = self.options_by_main_group@;
        let ghost visited0 = visited_main_groups@;
        let ghost conds0 = string_views(inherited_conditions@);
        if depth > 8 || holds_id(visited_main_groups, item_main_group_key) {
            return Vec::new();
        }
        let options = match self.options_by_main_group.get(&item_main_group_key) {
            Some(o) => o,
            None => {
                return Vec::new();
            },
        };
        visited_main_groups.push(item_main_group_key);
        let ghost visited1 = visited_main_groups@;
        let mut expanded: Vec<ExpandedSourceLootOption> = Vec::new();
        let mut k: usize = 0;
        while k < options.len()
            invariant
                groups == self.options_by_main_group@,
                groups.contains_key(item_main_group_key),
                groups[item_main_group_key] == *options,
                depth <= 8,
                visited1 == visited0.push(item_main_group_key),
                visited_main_groups@ == visited1,
                conds0 == string_views(inherited_conditions@),
                k <= options@.len(),
                branches_view(expanded@) == expand_options(
                    groups,
                    item_main_group_key,
                    visited1,
                    conds0,
                    inherited_select_rate,
                    inherited_lineage@,
                    depth as int,
                    k as int,
                ),
                forall|i: int| 0 <= i < expanded@.len() ==> (#[trigger] expanded@[i]).branch_idx == 0,
            decreases options@.len() - k,
        {
            let option = &options[k];
            let mut conditions = copy_strings(&inherited_conditions);
            match &option.condition_raw {
                Some(condition) => {
                    if !holds_text(&conditions, condition) {
                        conditions.push(condition.clone());
                    }
                },
                None => {},
            }
            assert(string_views(conditions@) =~= with_condition(conds0, option.condition_raw));
            let select_rate = combine_select_rates(inherited_select_rate, option.select_rate);
            let mut lineage = copy_lineage(&inherited_lineage);
            lineage.push(
                SourceLootLineage {
                    item_main_group_key,
                    option_idx: option.option_idx,
                    item_sub_group_key: option.item_sub_group_key,
                },
            );
            let ghost prev = branches_view(expanded@);
            let sub = option.item_sub_group_key;
            let mut nested_used = false;
            if sub != item_main_group_key && self.options_by_main_group.contains_key(&sub) && !holds_id(
                visited_main_groups,
                sub,
            ) {
                let mut nested = self.expand_main_group(
                    sub,
                    visited_main_groups,
                    copy_strings(&conditions),
                    select_rate,
                    copy_lineage(&lineage),
                    depth + 1,
                );
                if nested.len() > 0 {
                    let ghost nv = branches_view(nested@);
                    let ghost before = expanded@;
                    let ghost nested0 = nested@;
                    expanded.append(&mut nested);
                    assert(branches_view(expanded@) =~= prev + nv);
                    assert forall|i: int| 0 <= i < expanded@.len() implies (#[trigger] expanded@[i]).branch_idx == 0 by {
                        if i >= before.len() {
                            assert(expanded@[i] == nested0[i - before.len()]);
                        } else {
                            assert(expanded@[i] == before[i]);
                        }
                    }
                    nested_used = true;
                }
            }
            if !nested_used {
                let branch = ExpandedSourceLootOption {
                    branch_idx: 0,
                    select_rate,
                    condition_raw: combine_condition_raw(&conditions),
                    item_sub_group_key: sub,
                    items: copy_items(&option.items),
                    lineage,
                };
                let ghost before = expanded@;
                expanded.push(branch);
                assert(branches_view(expanded@) =~= prev.push(branch_view(branch)));
            }
            k = k + 1;
        }
        visited_main_groups.pop();
        assert(visited_main_groups@ =~= visited0);
        expanded
    }
}

impl SourceLootLookup {
    /// The branches of main group `item_main_group_key` from the top, each
    /// numbered by its place in the list.
    pub fn expanded_options_for_main_group(&self, item_main_group_key: u32) -> (r: Vec<ExpandedSourceLootOption>)
        ensures
            branches_view(r@) == expand_group(
                self.options_by_main_group@,
                item_main_group_key,
                seq![],
                seq![],
                None,
                seq![],
                0,
            ),
            forall|i: int| 0 <= i < r@.len() ==> (#[trigger] r@[i]).branch_idx == if i <= u32::MAX {
                i
            } else {
                u32::MAX as int
            },
    {
        let mut visited: Vec<u32> = Vec::new();
        let mut branches = self.expand_main_group(item_main_group_key, &mut visited, Vec::new(), None, Vec::new(), 0);
        proof {
            assert(string_views(Seq::<String>::empty()) =~= Seq::<Seq<char>>::empty());
        }
        let ghost view = branches_view(branches@);
        let mut i: usize = 0;
        while i < branches.len()
            invariant
                i <= branches@.len(),
                branches_view(branches@) == view,
                forall|j: int| 0 <= j < i ==> (#[trigger] branches@[j]).branch_idx == if j <= u32::MAX {
                    j
                } else {
                    u32::MAX as int
                },
            decreases branches@.len() - i,
        {
            let idx: u32 = if i <= u32::MAX as usize {
                i as u32
            } else {
                u32::MAX
            };
            let ghost before = branches@;
            branches[i].branch_idx = idx;
            assert(branches_view(branches@) =~= branches_view(before));
            i = i + 1;
        }
        branches
    }
}

/// One item of a loot group as it is shown.
#[derive(Clone, Debug, PartialEq, Eq)]
pub struct HotspotLootItem {
    pub item_id: u32,
    pub name: String,
    pub label: String,
    pub slot_idx: u8,
    pub group_label: String,
    pub select_rate: Option<u32>,
    pub grade_type: Option<u32>,
    pub icon_item_id: Option<u32>,
    pub icon_image: Option<String>,
    pub icon_grade_tone: String,
    pub drop_rate_text: String,
    pub drop_rate_source_kind: String,
    pub drop_rate_tooltip: String,
    pub raw_drop_rate_text: String,
    pub raw_drop_rate_tooltip: String,
    pub normalized_drop_rate_text: String,
    pub normalized_drop_rate_tooltip: String,
    pub catch_methods: Vec<String>,
    pub is_fish: bool,
}

/// One condition option of a loot group as it is shown, with the items it
/// gives and whether it is the one shown as active.
#[derive(Clone, Debug, PartialEq, Eq)]
pub struct HotspotLootConditionOption {
    pub option_idx: u32,
    pub condition_key: String,
    pub condition_text: String,
    pub condition_tooltip: String,
    pub item_sub_group_key: u32,
    pub select_rate: Option<u32>,
    pub drop_rate_text: String,
    pub drop_rate_source_kind: String,
    pub drop_rate_tooltip: String,
    pub raw_drop_rate_text: String,
    pub raw_drop_rate_tooltip: String,
    pub normalized_drop_rate_text: String,
    pub normalized_drop_rate_tooltip: String,
    pub active: bool,
    pub species_rows: Vec<HotspotLootItem>,
}

/// Whether an option's condition opens a contents group.
pub open spec fn opens_group(o: HotspotLootConditionOption) -> bool {
    opens_contents_group(o.condition_key@)
}

/// Whether an option's condition is the default one.
pub open spec fn is_default(o: HotspotLootConditionOption) -> bool {
    o.condition_key@ == "default"@
}

/// Whether an option gives any items.
pub open spec fn has_species(o: HotspotLootConditionOption) -> bool {
    o.species_rows@.len() > 0
}

/// The tests tried in turn to find the active option: one whose condition
/// opens a contents group (0), and gives items too (1); a default one that
/// gives items (2); a default one (3); one that gives items (4).
pub open spec fn option_test(test: u8, o: HotspotLootConditionOption) -> bool {
    if test == 0 {
        opens_group(o)
    } else if test == 1 {
        opens_group(o) && has_species(o)
    } else if test == 2 {
        is_default(o) && has_species(o)
    } else if test == 3 {
        is_default(o)
    } else {
        has_species(o)
    }
}

/// The place of the first option that passes `test`, if any.
pub open spec fn first_option(options: Seq<HotspotLootConditionOption>, test: u8) -> Option<int>
    decreases options.len(),
{
    if options.len() == 0 {
        None
    } else {
        match first_option(options.drop_last(), test) {
            Some(i) => Some(i),
            None => if option_test(test, options.last()) {
                Some(options.len() - 1)
            } else {
                None
            },
        }
    }
}

/// The option shown as active: the first whose condition opens a contents
/// group; else the first default one that gives items; else the first
/// default one; else the first that gives items; else the first.
pub open spec fn active_option(options: Seq<HotspotLootConditionOption>) -> int {
    match first_option(options, 0) {
        Some(i) => i,
        None => match first_option(options, 1) {
            Some(i) => i,
            None => match first_option(options, 2) {
                Some(i) => i,
                None => match first_option(options, 3) {
                    Some(i) => i,
                    None => match first_option(options, 4) {
                        Some(i) => i,
                        None => 0,
                    },
                },
            },
        },
    }
}

/// `o` with its active flag set to `active`.
pub open spec fn with_active(o: HotspotLootConditionOption, active: bool) -> HotspotLootConditionOption {
    HotspotLootConditionOption { active, ..o }
}

proof fn lemma_first_option_found(options: Seq<HotspotLootConditionOption>, test: u8, k: int)
    requires
        0 <= k < options.len(),
        option_test(test, options[k]),
        forall|j: int| 0 <= j < k ==> !option_test(test, #[trigger] options[j]),
    ensures
        first_option(options, test) == Some(k),
    decreases options.len(),
{
    if k < options.len() - 1 {
        lemma_first_option_found(options.drop_last(), test, k);
    } else {
        lemma_first_option_none(options.drop_last(), test);
    }
}

proof fn lemma_first_option_none(options: Seq<HotspotLootConditionOption>, test: u8)
    requires
        forall|j: int| 0 <= j < options.len() ==> !option_test(test, #[trigger] options[j]),
    ensures
        first_option(options, test) is None,
    decreases options.len(),
{
    if options.len() > 0 {
        lemma_first_option_none(options.drop_last(), test);
    }
}

/// The place of the first option that passes `test`; see `option_test`.
fn first_passing(options: &Vec<HotspotLootConditionOption>, test: u8) -> (r: Option<usize>)
    ensures
        match first_option(options@, test) {
            Some(i) => r == Some(i as usize) && 0 <= i < options@.len(),
            None => r is None,
        },
{
    proof {
        reveal_strlit("default");
    }
    let default_key: String = "default".to_owned();
    let mut k: usize = 0;
    while k < options.len()
        invariant
            k <= options@.len(),
            default_key@ == "default"@,
            forall|j: int| 0 <= j < k ==> !option_test(test, #[trigger] options@[j]),
        decreases options@.len() - k,
    {
        let o = &options[k];
        let species = o.species_rows.len() > 0;
        let passes = if test == 0 {
            contents_group_open_condition(o.condition_key.as_str())
        } else if test == 1 {
            contents_group_open_condition(o.condition_key.as_str()) && species
        } else if test == 2 {
            o.condition_key == default_key && species
        } else if test == 3 {
            o.condition_key == default_key
        } else {
            species
        };
        if passes {
            proof {
                lemma_first_option_found(options@, test, k as int);
            }
            return Some(k);
        }
        k = k + 1;
    }
    proof {
        lemma_first_option_none(options@, test);
    }
    None
}

/// Marks one option of a loot group as active and the others as not: see
/// `active_option`.
pub fn mark_active_condition_option(options: &mut Vec<HotspotLootConditionOption>)
    ensures
        old(options)@.len() == 0 ==> final(options)@ == old(options)@,
        old(options)@.len() > 0 ==> final(options)@.len() == old(options)@.len() && forall|i: int|
            0 <= i < old(options)@.len() ==> #[trigger] final(options)@[i] == with_active(
                old(options)@[i],
                i == active_option(old(options)@),
            ),
{
    if options.len() == 0 {
        return;
    }
    let ghost original = options@;
    let active_index = match first_passing(options, 0) {
        Some(i) => i,
        None => match first_passing(options, 1) {
            Some(i) => i,
            None => match first_passing(options, 2) {
                Some(i) => i,
                None => match first_passing(options, 3) {
                    Some(i) => i,
                    None => match first_passing(options, 4) {
                        Some(i) => i,
                        None => 0,
                    },
                },
            },
        },
    };
    assert(active_index == active_option(original));
    let mut i: usize = 0;
    while i < options.len()
        invariant
            i <= options@.len(),
            options@.len() == original.len(),
            active_index == active_option(original),
            forall|j: int| 0 <= j < i ==> #[trigger] options@[j] == with_active(original[j], j == active_index),
            forall|j: int| i <= j < options@.len() ==> #[trigger] options@[j] == original[j],
        decreases options@.len() - i,
    {
        options[i].active = i == active_index;
        i = i + 1;
    }
}

/// The main groups that a lineage passes through, in order.
pub open spec fn lineage_groups(lineage: Seq<SourceLootLineage>) -> Seq<u32> {
    lineage.map_values(|step: SourceLootLineage| step.item_main_group_key)
}

/// Whether branch `b` continues the lineage `lineage` at main group `key`
/// and passes through no main group twice.
pub open spec fn continues_lineage(b: LootBranch, lineage: Seq<SourceLootLineage>, key: u32) -> bool {
    &&& b.lineage.len() > lineage.len()
    &&& b.lineage.take(lineage.len() as int) == lineage
    &&& b.lineage[lineage.len() as int].item_main_group_key == key
    &&& lineage_groups(b.lineage).no_duplicates()
}

proof fn lemma_expand_group_lineage(
    groups: Map<u32, Vec<SourceLootOption>>,
    key: u32,
    visited: Seq<u32>,
    conditions: Seq<Seq<char>>,
    rate: Option<u32>,
    lineage: Seq<SourceLootLineage>,
    depth: int,
)
    requires
        visited == lineage_groups(lineage),
        visited.no_duplicates(),
    ensures
        forall|i: int|
            0 <= i < expand_group(groups, key, visited, conditions, rate, lineage, depth).len() ==> continues_lineage(
                #[trigger] expand_group(groups, key, visited, conditions, rate, lineage, depth)[i],
                lineage,
                key,
            ),
    decreases 9 - depth, 1int, 0int,
{
    if !(depth > 8 || depth < 0 || visited.contains(key) || !groups.contains_key(key)) {
        let v2 = visited.push(key);
        assert(v2.no_duplicates()) by {
            assert forall|i: int, j: int| 0 <= i < v2.len() && 0 <= j < v2.len() && i != j implies v2[i] != v2[j] by {
                if i < visited.len() && j < visited.len() {
                } else if i == visited.len() {
                    assert(visited[j] == v2[j]);
                } else {
                    assert(visited[i] == v2[i]);
                }
            }
        }
        lemma_expand_options_lineage(groups, key, v2, conditions, rate, lineage, depth, groups[key]@.len() as int);
        assert(expand_group(groups, key, visited, conditions, rate, lineage, depth) == expand_options(
            groups,
            key,
            v2,
            conditions,
            rate,
            lineage,
            depth,
            groups[key]@.len() as int,
        ));
    }
}

proof fn lemma_expand_options_lineage(
    groups: Map<u32, Vec<SourceLootOption>>,
    key: u32,
    visited: Seq<u32>,
    conditions: Seq<Seq<char>>,
    rate: Option<u32>,
    lineage: Seq<SourceLootLineage>,
    depth: int,
    k: int,
)
    requires
        visited == lineage_groups(lineage).push(key),
        visited.no_duplicates(),
    ensures
        forall|i: int|
            0 <= i < expand_options(groups, key, visited, conditions, rate, lineage, depth, k).len() ==> continues_lineage(
                #[trigger] expand_options(groups, key, visited, conditions, rate, lineage, depth, k)[i],
                lineage,
                key,
            ),
    decreases 9 - depth, 0int, k,
{
    if !(k <= 0 || depth > 8 || depth < 0 || !groups.contains_key(key) || k > groups[key]@.len()) {
        lemma_expand_options_lineage(groups, key, visited, conditions, rate, lineage, depth, k - 1);
        let prev = expand_options(groups, key, visited, conditions, rate, lineage, depth, k - 1);
        let opt = groups[key]@[k - 1];
        let c2 = with_condition(conditions, opt.condition_raw);
        let r2 = combined_rate(rate, opt.select_rate);
        let step = SourceLootLineage {
            item_main_group_key: key,
            option_idx: opt.option_idx,
            item_sub_group_key: opt.item_sub_group_key,
        };
        let l2 = lineage.push(step);
        assert(lineage_groups(l2) =~= visited);
        assert(l2.take(lineage.len() as int) =~= lineage);
        let all = expand_options(groups, key, visited, conditions, rate, lineage, depth, k);
        if opt.item_sub_group_key != key && groups.contains_key(opt.item_sub_group_key) && !visited.contains(
            opt.item_sub_group_key,
        ) {
            lemma_expand_group_lineage(groups, opt.item_sub_group_key, visited, c2, r2, l2, depth + 1);
            let nested = expand_group(groups, opt.item_sub_group_key, visited, c2, r2, l2, depth + 1);
            if nested.len() > 0 {
                assert forall|i: int| 0 <= i < all.len() implies continues_lineage(#[trigger] all[i], lineage, key) by {
                    if i < prev.len() {
                        assert(all[i] == prev[i]);
                    } else {
                        let b = nested[i - prev.len()];
                        assert(all[i] == b);
                        assert(continues_lineage(b, l2, opt.item_sub_group_key));
                        assert(b.lineage.take(l2.len() as int) == l2);
                        assert(b.lineage.take(lineage.len() as int) =~= b.lineage.take(l2.len() as int).take(lineage.len() as int));
                        assert(b.lineage[lineage.len() as int] == b.lineage.take(l2.len() as int)[lineage.len() as int]);
                    }
                }
            } else {
                assert forall|i: int| 0 <= i < all.len() implies continues_lineage(#[trigger] all[i], lineage, key) by {
                    if i < prev.len() {
                        assert(all[i] == prev[i]);
                    } else {
                        assert(all[i] == leaf_branch(opt, c2, r2, l2));
                        assert(l2.take(l2.len() as int) =~= l2);
                    }
                }
            }
        } else {
            assert forall|i: int| 0 <= i < all.len() implies continues_lineage(#[trigger] all[i], lineage, key) by {
                if i < prev.len() {
                    assert(all[i] == prev[i]);
                } else {
                    assert(all[i] == leaf_branch(opt, c2, r2, l2));
                }
            }
        }
    }
}

/// Every branch of a main group starts at that group and passes through no
/// main group twice: the main groups along its lineage are distinct.
pub proof fn law_branches_pass_each_group_once(groups: Map<u32, Vec<SourceLootOption>>, key: u32)
    ensures
        forall|i: int|
            0 <= i < expand_group(groups, key, seq![], seq![], None, seq![], 0).len() ==> {
                let b = #[trigger] expand_group(groups, key, seq![], seq![], None, seq![], 0)[i];
                &&& b.lineage.len() > 0
                &&& b.lineage[0].item_main_group_key == key
                &&& lineage_groups(b.lineage).no_duplicates()
            },
{
    assert(lineage_groups(Seq::<SourceLootLineage>::empty()) =~= Seq::<u32>::empty());
    lemma_expand_group_lineage(groups, key, seq![], seq![], None, seq![], 0);
}


/// A loot group of a hotspot as it is shown, with its condition options.
#[derive(Clone, Debug)]
pub struct HotspotLootGroup {
    pub slot_idx: u8,
    pub label: String,
    pub condition_option_key: String,
    pub item_main_group_key: u32,
    pub drop_rate: Option<u32>,
    pub drop_rate_text: String,
    pub drop_rate_source_kind: String,
    pub drop_rate_tooltip: String,
    pub raw_drop_rate_text: String,
    pub raw_drop_rate_tooltip: String,
    pub normalized_drop_rate_text: String,
    pub normalized_drop_rate_tooltip: String,
    pub catch_methods: Vec<String>,
    pub condition_options: Vec<HotspotLootConditionOption>,
}

/// The items of the options `opts`, in order: of the active ones only, or
/// of all.
pub open spec fn option_rows(opts: Seq<HotspotLootConditionOption>, active_only: bool) -> Seq<HotspotLootItem>
    decreases opts.len(),
{
    if opts.len() == 0 {
        seq![]
    } else {
        let o = opts.last();
        option_rows(opts.drop_last(), active_only) + if !active_only || o.active { o.species_rows@ } else { seq![] }
    }
}

/// The items of the options of all `groups`, in order: of the active
/// options only, or of all.
pub open spec fn group_rows(groups: Seq<HotspotLootGroup>, active_only: bool) -> Seq<HotspotLootItem>
    decreases groups.len(),
{
    if groups.len() == 0 {
        seq![]
    } else {
        group_rows(groups.drop_last(), active_only) + option_rows(groups.last().condition_options@, active_only)
    }
}

/// Whether loot item `a` is a copy of `b`: every field the same, the catch
/// methods as text.
pub open spec fn same_item(a: HotspotLootItem, b: HotspotLootItem) -> bool {
    &&& a.item_id == b.item_id
    &&& a.name == b.name
    &&& a.label == b.label
    &&& a.slot_idx == b.slot_idx
    &&& a.group_label == b.group_label
    &&& a.select_rate == b.select_rate
    &&& a.grade_type == b.grade_type
    &&& a.icon_item_id == b.icon_item_id
    &&& a.icon_image == b.icon_image
    &&& a.icon_grade_tone == b.icon_grade_tone
    &&& a.drop_rate_text == b.drop_rate_text
    &&& a.drop_rate_source_kind == b.drop_rate_source_kind
    &&& a.drop_rate_tooltip == b.drop_rate_tooltip
    &&& a.raw_drop_rate_text == b.raw_drop_rate_text
    &&& a.raw_drop_rate_tooltip == b.raw_drop_rate_tooltip
    &&& a.normalized_drop_rate_text == b.normalized_drop_rate_text
    &&& a.normalized_drop_rate_tooltip == b.normalized_drop_rate_tooltip
    &&& a.catch_methods@ == b.catch_methods@
    &&& a.is_fish == b.is_fish
}

/// Whether the items `a` are copies of the items `b`, one for one.
pub open spec fn items_copied(a: Seq<HotspotLootItem>, b: Seq<HotspotLootItem>) -> bool {
    a.len() == b.len() && forall|i: int| 0 <= i < a.len() ==> same_item(#[trigger] a[i], b[i])
}

fn copy_loot_item(it: &HotspotLootItem) -> (r: HotspotLootItem)
    ensures
        same_item(r, *it),
{
    HotspotLootItem {
        item_id: it.item_id,
        name: it.name.clone(),
        label: it.label.clone(),
        slot_idx: it.slot_idx,
        group_label: it.group_label.clone(),
        select_rate: it.select_rate,
        grade_type: it.grade_type,
        icon_item_id: it.icon_item_id,
        icon_image: copy_text(&it.icon_image),
        icon_grade_tone: it.icon_grade_tone.clone(),
        drop_rate_text: it.drop_rate_text.clone(),
        drop_rate_source_kind: it.drop_rate_source_kind.clone(),
        drop_rate_tooltip: it.drop_rate_tooltip.clone(),
        raw_drop_rate_text: it.raw_drop_rate_text.clone(),
        raw_drop_rate_tooltip: it.raw_drop_rate_tooltip.clone(),
        normalized_drop_rate_text: it.normalized_drop_rate_text.clone(),
        normalized_drop_rate_tooltip: it.normalized_drop_rate_tooltip.clone(),
        catch_methods: copy_strings(&it.catch_methods),
        is_fish: it.is_fish,
    }
}

fn collect_group_rows(groups: &Vec<HotspotLootGroup>, active_only: bool) -> (r: Vec<HotspotLootItem>)
    ensures
        items_copied(r@, group_rows(groups@, active_only)),
{
    let mut out: Vec<HotspotLootItem> = Vec::new();
    let mut g: usize = 0;
    while g < groups.len()
        invariant
            g <= groups@.len(),
            items_copied(out@, group_rows(groups@.take(g as int), active_only)),
        decreases groups@.len() - g,
    {
        let opts = &groups[g].condition_options;
        let ghost before = group_rows(groups@.take(g as int), active_only);
        let mut o: usize = 0;
        while o < opts.len()
            invariant
                o <= opts@.len(),
                opts == groups@[g as int].condition_options,
                items_copied(out@, before + option_rows(opts@.take(o as int), active_only)),
            decreases opts@.len() - o,
        {
            let opt = &opts[o];
            let ghost mid = before + option_rows(opts@.take(o as int), active_only);
            if !active_only || opt.active {
                let mut q: usize = 0;
                while q < opt.species_rows.len()
                    invariant
                        q <= opt.species_rows@.len(),
                        items_copied(out@, mid + opt.species_rows@.take(q as int)),
                    decreases opt.species_rows@.len() - q,
                {
                    let ghost prev = out@;
                    out.push(copy_loot_item(&opt.species_rows[q]));
                    let ghost want = mid + opt.species_rows@.take(q + 1);
                    assert forall|i: int| 0 <= i < out@.len() implies same_item(#[trigger] out@[i], want[i]) by {
                        if i < prev.len() {
                            assert(out@[i] == prev[i]);
                            assert(want[i] == (mid + opt.species_rows@.take(q as int))[i]);
                        }
                    }
                    q = q + 1;
                }
                assert(opt.species_rows@.take(q as int) =~= opt.species_rows@);
            }
            assert(opts@.take(o + 1).drop_last() =~= opts@.take(o as int));
            assert(before + option_rows(opts@.take(o + 1), active_only) =~= mid + if !active_only || opt.active { opt.species_rows@ } else { seq![] });
            o = o + 1;
        }
        assert(opts@.take(o as int) =~= opts@);
        assert(groups@.take(g + 1).drop_last() =~= groups@.take(g as int));
        assert(group_rows(groups@.take(g + 1), active_only) == before + option_rows(opts@, active_only));
        g = g + 1;
    }
    assert(groups@.take(g as int) =~= groups@);
    out
}

/// The items of the active condition options of all groups, in order.
pub fn active_loot_items(groups: &Vec<HotspotLootGroup>) -> (r: Vec<HotspotLootItem>)
    ensures
        items_copied(r@, group_rows(groups@, true)),
{
    collect_group_rows(groups, true)
}

/// What `str::to_lowercase` makes of `s`.
pub uninterp spec fn lowercased(s: Seq<char>) -> Seq<char>;

/// The label in lower case, by `str::to_lowercase` (Unicode lower case).
#[verifier::external_body]
fn lowercase(s: &str) -> (r: String)
    ensures
        r@ == lowercased(s@),
{
    s.to_lowercase()
}

/// Whether loot item `a` ranks above `b` as a primary fish: a higher select
/// rate (none counts as 0), or an equal one and a label that comes first
/// in lower case.
pub open spec fn ranks_above(a: HotspotLootItem, b: HotspotLootItem) -> bool {
    let ra = match a.select_rate { Some(v) => v, None => 0 };
    let rb = match b.select_rate { Some(v) => v, None => 0 };
    ra > rb || (ra == rb && text_lt(lowercased(a.label@), lowercased(b.label@)))
}

/// Whether `k` is the row that `Iterator::max_by` picks among the rows that
/// `fish_only` admits: none of them ranks above it, and it ranks above every
/// later one (so of equals the last is picked).
pub open spec fn picked_row(rows: Seq<HotspotLootItem>, fish_only: bool, k: int) -> bool {
    &&& 0 <= k < rows.len()
    &&& (!fish_only || rows[k].is_fish)
    &&& forall|j: int| 0 <= j < rows.len() && (!fish_only || rows[j].is_fish) ==> !ranks_above(#[trigger] rows[j], rows[k])
    &&& forall|j: int| k < j < rows.len() && (!fish_only || rows[j].is_fish) ==> ranks_above(rows[k], #[trigger] rows[j])
}

proof fn lemma_ranks(a: HotspotLootItem, b: HotspotLootItem, c: HotspotLootItem)
    ensures
        !ranks_above(a, a),
        ranks_above(a, b) ==> !ranks_above(b, a),
        ranks_above(a, b) && ranks_above(b, c) ==> ranks_above(a, c),
        !ranks_above(a, b) && !ranks_above(b, c) ==> !ranks_above(a, c),
        !ranks_above(a, b) ==> ranks_above(b, a) || (a.select_rate.unwrap_or(0) == b.select_rate.unwrap_or(0)
            && lowercased(a.label@) == lowercased(b.label@)),
{
    let (la, lb, lc) = (lowercased(a.label@), lowercased(b.label@), lowercased(c.label@));
    lemma_text_lt_strict(la, lb);
    lemma_text_lt_strict(lb, lc);
    lemma_text_lt_strict(la, lc);
    lemma_text_lt_strict(lc, la);
    lemma_text_lt_total(la, lb);
    lemma_text_lt_total(lb, lc);
    lemma_text_lt_total(la, lc);
    if text_lt(la, lb) && text_lt(lb, lc) {
        lemma_text_lt_transitive(la, lb, lc);
    }
    if text_lt(lc, lb) && text_lt(lb, la) {
        lemma_text_lt_transitive(lc, lb, la);
    }
    if text_lt(lb, la) && text_lt(la, lc) {
        lemma_text_lt_transitive(lb, la, lc);
    }
    if text_lt(lc, la) && text_lt(la, lb) {
        lemma_text_lt_transitive(lc, la, lb);
    }
    if text_lt(lb, lc) && text_lt(lc, la) {
        lemma_text_lt_transitive(lb, lc, la);
    }
    if text_lt(la, lc) && text_lt(lc, lb) {
        lemma_text_lt_transitive(la, lc, lb);
    }
}

fn rank_above(a: &HotspotLootItem, b: &HotspotLootItem) -> (r: bool)
    ensures
        r == ranks_above(*a, *b),
{
    let ra = match a.select_rate { Some(v) => v, None => 0 };
    let rb = match b.select_rate { Some(v) => v, None => 0 };
    if ra != rb {
        return ra > rb;
    }
    let la = lowercase(a.label.as_str());
    let lb = lowercase(b.label.as_str());
    str_lt(la.as_str(), lb.as_str())
}

/// The row `Iterator::max_by` picks by `ranks_above` among the rows that
/// `fish_only` admits, if any.
fn pick_row(rows: &Vec<HotspotLootItem>, fish_only: bool) -> (r: Option<usize>)
    ensures
        match r {
            Some(k) => picked_row(rows@, fish_only, k as int),
            None => if fish_only {
                forall|j: int| 0 <= j < rows@.len() ==> !(#[trigger] rows@[j]).is_fish
            } else {
                rows@.len() == 0
            },
        },
{
    let mut found = false;
    let mut k: usize = 0;
    let mut j: usize = 0;
    while j < rows.len()
        invariant
            j <= rows@.len(),
            !found ==> (fish_only ==> forall|i: int| 0 <= i < j ==> !(#[trigger] rows@[i]).is_fish),
            !found ==> (!fish_only ==> j == 0),
            found ==> k < j && (!fish_only || rows@[k as int].is_fish),
            found ==> forall|i: int| 0 <= i < j && (!fish_only || rows@[i].is_fish) ==> !ranks_above(#[trigger] rows@[i], rows@[k as int]),
            found ==> forall|i: int| k < i < j && (!fish_only || rows@[i].is_fish) ==> ranks_above(rows@[k as int], #[trigger] rows@[i]),
        decreases rows@.len() - j,
    {
        if !fish_only || rows[j].is_fish {
            if !found {
                found = true;
                k = j;
                proof {
                    lemma_ranks(rows@[j as int], rows@[j as int], rows@[j as int]);
                }
            } else if !rank_above(&rows[k], &rows[j]) {
                proof {
                    let x = rows@[j as int];
                    let y = rows@[k as int];
                    assert forall|i: int| 0 <= i < j + 1 && (!fish_only || rows@[i].is_fish) implies !ranks_above(#[trigger] rows@[i], x) by {
                        lemma_ranks(rows@[i], y, x);
                        lemma_ranks(y, x, x);
                        lemma_ranks(x, x, x);
                    }
                }
                k = j;
            } else {
                proof {
                    lemma_ranks(rows@[k as int], rows@[j as int], rows@[j as int]);
                }
            }
        }
        j = j + 1;
    }
    if found { Some(k) } else { None }
}

/// The item that stands for a hotspot's catch: its id, name and icon.
#[derive(Clone, Debug)]
pub struct PrimaryFishIdentity {
    pub item_id: u32,
    pub name: String,
    pub icon_image: Option<String>,
}

/// Whether `p` is the identity of loot item `row`.
pub open spec fn identity_of(p: PrimaryFishIdentity, row: HotspotLootItem) -> bool {
    p.item_id == row.item_id && p.name == row.label && p.icon_image == row.icon_image
}

/// The primary fish among `rows`: the best-ranked fish, or, where no row is
/// a fish, the best-ranked row.
pub open spec fn best_primary_spec(rows: Seq<HotspotLootItem>, p: Option<PrimaryFishIdentity>) -> bool {
    if exists|j: int| 0 <= j < rows.len() && (#[trigger] rows[j]).is_fish {
        p matches Some(id) && exists|k: int| picked_row(rows, true, k) && identity_of(id, rows[k])
    } else if rows.len() > 0 {
        p matches Some(id) && exists|k: int| picked_row(rows, false, k) && identity_of(id, rows[k])
    } else {
        p is None
    }
}

/// The primary fish among `rows`.
pub fn best_primary_fish(rows: &Vec<HotspotLootItem>) -> (r: Option<PrimaryFishIdentity>)
    ensures
        best_primary_spec(rows@, r),
{
    let k = match pick_row(rows, true) {
        Some(k) => k,
        None => match pick_row(rows, false) {
            Some(k) => k,
            None => return None,
        },
    };
    let row = &rows[k];
    Some(PrimaryFishIdentity { item_id: row.item_id, name: row.label.clone(), icon_image: copy_text(&row.icon_image) })
}

proof fn lemma_primary_transfer(a: Seq<HotspotLootItem>, b: Seq<HotspotLootItem>, p: Option<PrimaryFishIdentity>)
    requires
        items_copied(a, b),
        best_primary_spec(a, p),
    ensures
        best_primary_spec(b, p),
{
    assert forall|j: int, k: int| 0 <= j < a.len() && 0 <= k < a.len() implies ranks_above(a[j], a[k]) == ranks_above(b[j], b[k])
        && a[j].is_fish == b[j].is_fish by {
        assert(same_item(a[j], b[j]) && same_item(a[k], b[k]));
    }
    assert forall|f: bool, k: int| #[trigger] picked_row(a, f, k) implies picked_row(b, f, k) by {
        assert(same_item(a[k], b[k]));
        assert forall|j: int| 0 <= j < b.len() && (!f || b[j].is_fish) implies !ranks_above(#[trigger] b[j], b[k]) by {
            assert(same_item(a[j], b[j]));
        }
        assert forall|j: int| k < j < b.len() && (!f || b[j].is_fish) implies ranks_above(b[k], #[trigger] b[j]) by {
            assert(same_item(a[j], b[j]));
        }
    }
    if exists|j: int| 0 <= j < b.len() && (#[trigger] b[j]).is_fish {
        let j = choose|j: int| 0 <= j < b.len() && (#[trigger] b[j]).is_fish;
        assert(same_item(a[j], b[j]));
        assert(a[j].is_fish);
        let k = choose|k: int| picked_row(a, true, k) && identity_of(p->Some_0, a[k]);
        assert(same_item(a[k], b[k]));
        assert(picked_row(b, true, k));
    } else {
        assert forall|j: int| 0 <= j < a.len() implies !(#[trigger] a[j]).is_fish by {
            assert(same_item(a[j], b[j]));
        }
        if b.len() > 0 {
            let k = choose|k: int| picked_row(a, false, k) && identity_of(p->Some_0, a[k]);
            assert(same_item(a[k], b[k]));
            assert(picked_row(b, false, k));
        }
    }
}

/// The primary fish of a hotspot: among the items of the active condition
/// options, and where they hold none, among all items.
pub fn primary_fish_identity(groups: &Vec<HotspotLootGroup>) -> (r: Option<PrimaryFishIdentity>)
    ensures
        group_rows(groups@, true).len() > 0 ==> best_primary_spec(group_rows(groups@, true), r),
        group_rows(groups@, true).len() == 0 ==> best_primary_spec(group_rows(groups@, false), r),
{
    let active = active_loot_items(groups);
    if active.len() > 0 {
        let r = best_primary_fish(&active);
        proof {
            lemma_primary_transfer(active@, group_rows(groups@, true), r);
        }
        return r;
    }
    let all = collect_group_rows(groups, false);
    let r = best_primary_fish(&all);
    proof {
        lemma_primary_transfer(all@, group_rows(groups@, false), r);
    }
    r
}


/// Why no hotspots could be planned: a point's fishing group is not in the
/// fishing group table; the group and the point.
#[derive(Clone, Copy, Debug, PartialEq, Eq)]
pub enum HotspotError {
    MissingGroup(u32, u32),
}

/// The hotspots to write: the points in the order of their ids (points of
/// one id in the order given), their ids, and how many points have imported
/// metadata.
#[derive(Clone, Debug)]
pub struct HotspotPlan {
    pub order: Vec<usize>,
    pub ids: Vec<u32>,
    pub matched_imported_metadata_rows: usize,
}

/// Whether `order` lists the positions of `keys` as a stable sort by key
/// puts them: each position once, keys never falling, equal keys in their
/// first order.
pub open spec fn stable_key_order(keys: Seq<u32>, order: Seq<int>) -> bool {
    &&& order.len() == keys.len()
    &&& forall|i: int| 0 <= i < order.len() ==> 0 <= #[trigger] order[i] < keys.len()
    &&& forall|i: int, j: int| 0 <= i < order.len() && 0 <= j < order.len() && i != j ==> #[trigger] order[i] != #[trigger] order[j]
    &&& forall|i: int, j: int| 0 <= i < j < order.len() ==> keys[#[trigger] order[i]] <= keys[#[trigger] order[j]]
    &&& forall|i: int, j: int| 0 <= i < j < order.len() && keys[#[trigger] order[i]] == keys[#[trigger] order[j]] ==> order[i] < order[j]
}

/// The position of the first point whose group is not among `group_keys`.
pub open spec fn first_missing_group(points: Seq<(u32, u32)>, group_keys: Set<u32>) -> Option<int> {
    if exists|i: int| 0 <= i < points.len() && !group_keys.contains(#[trigger] points[i].1) {
        Some(choose|i: int| 0 <= i < points.len() && !group_keys.contains(#[trigger] points[i].1)
            && forall|j: int| 0 <= j < i ==> group_keys.contains(#[trigger] points[j].1))
    } else {
        None
    }
}

/// The number of the first `n` points whose id has imported metadata.
pub open spec fn metadata_matches(points: Seq<(u32, u32)>, ids: Set<u32>, n: int) -> nat
    decreases n,
{
    if n <= 0 {
        0
    } else {
        metadata_matches(points, ids, n - 1) + if ids.contains(points[n - 1].0) { 1nat } else { 0nat }
    }
}

/// Plans the hotspots of fishing points given as (point id, fishing group):
/// refuses the first point whose group is missing; otherwise orders the
/// points by id, as a stable sort does, and counts the points whose id has
/// imported metadata.
pub fn plan_hotspots(points: &Vec<(u32, u32)>, group_keys: &BTreeSet<u32>, metadata_ids: &BTreeSet<u32>) -> (r: Result<
    HotspotPlan,
    HotspotError,
>)
    ensures
        match first_missing_group(points@, group_keys@) {
            Some(i) => r == Err::<HotspotPlan, HotspotError>(HotspotError::MissingGroup(points@[i].1, points@[i].0)),
            None => r matches Ok(plan) && {
                let keys = points@.map_values(|p: (u32, u32)| p.0);
                &&& stable_key_order(keys, plan.order@.map_values(|k: usize| k as int))
                &&& plan.ids@.len() == points@.len()
                &&& forall|i: int| 0 <= i < plan.ids@.len() ==> #[trigger] plan.ids@[i] == keys[plan.order@[i] as int]
                &&& plan.matched_imported_metadata_rows == metadata_matches(points@, metadata_ids@, points@.len() as int)
            },
        },
{
    let n = points.len();
    let mut i: usize = 0;
    let mut matched: usize = 0;
    while i < n
        invariant
            n == points@.len(),
            i <= n,
            forall|j: int| 0 <= j < i ==> group_keys@.contains(#[trigger] points@[j].1),
            matched == metadata_matches(points@, metadata_ids@, i as int),
            matched <= i,
        decreases n - i,
    {
        let (key, group) = points[i];
        if !group_keys.contains(&group) {
            proof {
                let w = choose|k: int| 0 <= k < points@.len() && !group_keys@.contains(#[trigger] points@[k].1)
                    && forall|j: int| 0 <= j < k ==> group_keys@.contains(#[trigger] points@[j].1);
                assert(w == i) by {
                    if w < i {
                        assert(group_keys@.contains(points@[w].1));
                    }
                    if w > i {
                        assert(group_keys@.contains(points@[i as int].1));
                    }
                }
            }
            return Err(HotspotError::MissingGroup(group, key));
        }
        if metadata_ids.contains(&key) {
            matched = matched + 1;
        }
        i = i + 1;
    }
    let ghost keys = points@.map_values(|p: (u32, u32)| p.0);
    let mut order: Vec<usize> = Vec::new();
    let mut k: usize = 0;
    while k < n
        invariant
            n == points@.len(),
            keys == points@.map_values(|p: (u32, u32)| p.0),
            k <= n,
            order@.len() == k,
            forall|a: int| 0 <= a < k ==> #[trigger] order@[a] < k,
            forall|a: int, b: int| 0 <= a < k && 0 <= b < k && a != b ==> #[trigger] order@[a] != #[trigger] order@[b],
            forall|a: int, b: int| 0 <= a < b < k ==> keys[#[trigger] order@[a] as int] <= keys[#[trigger] order@[b] as int],
            forall|a: int, b: int| 0 <= a < b < k && keys[#[trigger] order@[a] as int] == keys[#[trigger] order@[b] as int] ==> order@[a] < order@[b],
        decreases n - k,
    {
        let key = points[k].0;
        let mut q = order.len();
        while q > 0 && key < points[order[q - 1]].0
            invariant
                q <= order@.len(),
                order@.len() == k,
                k < n,
                n == points@.len(),
                keys == points@.map_values(|p: (u32, u32)| p.0),
                key == keys[k as int],
                forall|a: int| 0 <= a < k ==> #[trigger] order@[a] < k,
                forall|j: int| q <= j < order@.len() ==> key < keys[#[trigger] order@[j] as int],
            decreases q,
        {
            q = q - 1;
        }
        let ghost before = order@;
        order.insert(q, k);
        proof {
            assert forall|a: int| 0 <= a < k + 1 implies #[trigger] order@[a] < k + 1 by {
                if a < q {
                    assert(order@[a] == before[a]);
                } else if a > q {
                    assert(order@[a] == before[a - 1]);
                }
            }
            assert forall|a: int, b: int| 0 <= a < k + 1 && 0 <= b < k + 1 && a != b implies #[trigger] order@[a] != #[trigger] order@[b] by {
                if a != q {
                    assert(order@[a] == before[if a < q { a } else { a - 1 }]);
                }
                if b != q {
                    assert(order@[b] == before[if b < q { b } else { b - 1 }]);
                }
            }
            assert forall|a: int, b: int| 0 <= a < b < k + 1 implies keys[#[trigger] order@[a] as int] <= keys[#[trigger] order@[b] as int] by {
                let oa = if a < q { a } else { a - 1 };
                let ob = if b < q { b } else { b - 1 };
                if a != q {
                    assert(order@[a] == before[oa]);
                }
                if b != q {
                    assert(order@[b] == before[ob]);
                }
                if b == q && q > 0 && a < q - 1 {
                    assert(keys[before[a] as int] <= keys[before[q - 1] as int]);
                }
            }
            assert forall|a: int, b: int| 0 <= a < b < k + 1 && keys[#[trigger] order@[a] as int] == keys[#[trigger] order@[b] as int] implies order@[a] < order@[b] by {
                let oa = if a < q { a } else { a - 1 };
                let ob = if b < q { b } else { b - 1 };
                if a != q {
                    assert(order@[a] == before[oa]);
                }
                if b != q {
                    assert(order@[b] == before[ob]);
                }
            }
        }
        k = k + 1;
    }
    let mut ids: Vec<u32> = Vec::new();
    let mut t: usize = 0;
    while t < n
        invariant
            n == points@.len(),
            keys == points@.map_values(|p: (u32, u32)| p.0),
            order@.len() == n,
            forall|a: int| 0 <= a < n ==> #[trigger] order@[a] < n,
            t <= n,
            ids@.len() == t,
            forall|a: int| 0 <= a < t ==> #[trigger] ids@[a] == keys[order@[a] as int],
        decreases n - t,
    {
        let o = order[t];
        ids.push(points[o].0);
        t = t + 1;
    }
    let ghost ord = order@.map_values(|x: usize| x as int);
    assert(stable_key_order(keys, ord)) by {
        assert forall|a: int, b: int| 0 <= a < ord.len() && 0 <= b < ord.len() && a != b implies #[trigger] ord[a] != #[trigger] ord[b] by {
            assert(order@[a] != order@[b]);
        }
        assert forall|a: int, b: int| 0 <= a < b < ord.len() implies keys[#[trigger] ord[a]] <= keys[#[trigger] ord[b]] by {
            assert(keys[order@[a] as int] <= keys[order@[b] as int]);
        }
        assert forall|a: int, b: int| 0 <= a < b < ord.len() && keys[#[trigger] ord[a]] == keys[#[trigger] ord[b]] implies ord[a] < ord[b] by {
            assert(keys[order@[a] as int] == keys[order@[b] as int]);
        }
    }
    Ok(HotspotPlan { order, ids, matched_imported_metadata_rows: matched })
}

} // verus!
