//! Which fishing workbooks to take from an archive, and which archive entry
//! stands for each.
use vstd::prelude::*;
use vstd::utf8::encode_utf8;
use crate::archive::FileEntry;
use crate::text::{lower_byte, ascii_lower_byte};
use crate::ingest::join_spec;
use crate::hotspots::string_views;

verus! {

/// A workbook to look for, and whether the plan fails without it.
#[derive(Clone, Copy, Debug, PartialEq, Eq)]
pub struct FishingWorkbookTarget {
    pub file_name: &'static str,
    pub required: bool,
}

/// A target and the archive entry chosen for it.
#[derive(Clone, Debug)]
pub struct ResolvedFishingWorkbook {
    pub target: FishingWorkbookTarget,
    pub entry: FileEntry,
}

/// The entries to extract, and the optional workbooks that were not found.
#[derive(Clone, Debug)]
pub struct FishingWorkbookPlan {
    pub extracted: Vec<ResolvedFishingWorkbook>,
    pub missing_optional: Vec<&'static str>,
}

/// Why no plan could be made.
#[derive(Clone, Debug)]
pub enum PlanError {
    /// A required workbook matched no entry.
    RequiredMissing(&'static str),
    /// A workbook matched several entries, none or several of them under an
    /// `excel` folder; the paths of all of them.
    MultipleMatches(&'static str, Vec<String>),
}

impl PlanError {
    /// The error as text.
    pub fn message(&self) -> (r: String)
        ensures
            self matches PlanError::RequiredMissing(n) ==> r@ == "required workbook "@ + n@ + " not found in archive"@,
            self matches PlanError::MultipleMatches(n, paths) ==> r@ == "workbook "@ + n@
                + " matched multiple archive entries: "@ + join_spec(string_views(paths@), ", "@),
    {
        match self {
            PlanError::RequiredMissing(name) => {
                let mut s = String::from_str("required workbook ");
                s.append(name);
                s.append(" not found in archive");
                s
            },
            PlanError::MultipleMatches(name, paths) => {
                let mut s = String::from_str("workbook ");
                s.append(name);
                s.append(" matched multiple archive entries: ");
                proof {
                    reveal_strlit(", ");
                }
                let ghost head = s@;
                let mut i: usize = 0;
                while i < paths.len()
                    invariant
                        i <= paths@.len(),
                        s@ == head + join_spec(string_views(paths@.take(i as int)), ", "@),
                    decreases paths@.len() - i,
                {
                    let ghost before = string_views(paths@.take(i as int));
                    assert(string_views(paths@.take(i + 1)) =~= before.push(paths@[i as int]@));
                    assert(string_views(paths@.take(i + 1)).drop_last() =~= before);
                    if i > 0 {
                        s.append(", ");
                    }
                    s.append(paths[i].as_str());
                    proof {
                        if i == 0 {
                            assert(before.len() == 0);
                            assert(join_spec(before, ", "@) =~= Seq::<char>::empty());
                        }
                    }
                    i = i + 1;
                }
                assert(paths@.take(i as int) =~= paths@);
                s
            },
        }
    }
}

/// The names of the four required workbooks, then the eight optional ones.
pub open spec fn target_name(i: int) -> Seq<char> {
    if i == 0 {
        "Fishing_Table.xlsx"@
    } else if i == 1 {
        "Item_Table.xlsx"@
    } else if i == 2 {
        "ItemMainGroup_Table.xlsx"@
    } else if i == 3 {
        "ItemSubGroup_Table.xlsx"@
    } else if i == 4 {
        "FloatFishing_Table.xlsx"@
    } else if i == 5 {
        "FloatFishingPoint_Table.xlsx"@
    } else if i == 6 {
        "Water_Table.xlsx"@
    } else if i == 7 {
        "FishingStatData.xlsx"@
    } else if i == 8 {
        "DiscardFish.xlsx"@
    } else if i == 9 {
        "LightStoneSetOption.xlsx"@
    } else if i == 10 {
        "Pet_Table.xlsx"@
    } else {
        "Pet_SetStats_Table.xlsx"@
    }
}

/// Whether `t` is the `q`-th target.
pub open spec fn is_target(t: FishingWorkbookTarget, q: int) -> bool {
    t.file_name@ == target_name(q) && t.required == (q < 4)
}

fn target(i: usize) -> (t: FishingWorkbookTarget)
    requires
        i < 12,
    ensures
        t.file_name@ == target_name(i as int),
        t.required == (i < 4),
{
    let name = if i == 0 {
        "Fishing_Table.xlsx"
    } else if i == 1 {
        "Item_Table.xlsx"
    } else if i == 2 {
        "ItemMainGroup_Table.xlsx"
    } else if i == 3 {
        "ItemSubGroup_Table.xlsx"
    } else if i == 4 {
        "FloatFishing_Table.xlsx"
    } else if i == 5 {
        "FloatFishingPoint_Table.xlsx"
    } else if i == 6 {
        "Water_Table.xlsx"
    } else if i == 7 {
        "FishingStatData.xlsx"
    } else if i == 8 {
        "DiscardFish.xlsx"
    } else if i == 9 {
        "LightStoneSetOption.xlsx"
    } else if i == 10 {
        "Pet_Table.xlsx"
    } else {
        "Pet_SetStats_Table.xlsx"
    };
    FishingWorkbookTarget { file_name: name, required: i < 4 }
}

/// The workbooks to look for: the four required ones, then, if asked, the
/// eight optional ones.
pub fn fishing_workbook_targets(include_optional: bool) -> (r: Vec<FishingWorkbookTarget>)
    ensures
        r@.len() == if include_optional { 12int } else { 4int },
        forall|i: int| 0 <= i < r@.len() ==> is_target(#[trigger] r@[i], i),
{
    let n: usize = if include_optional {
        12
    } else {
        4
    };
    let mut targets: Vec<FishingWorkbookTarget> = Vec::new();
    let mut i: usize = 0;
    while i < n
        invariant
            n == if include_optional { 12usize } else { 4usize },
            i <= n,
            targets@.len() == i,
            forall|q: int| 0 <= q < i ==> is_target(#[trigger] targets@[q], q),
        decreases n - i,
    {
        let t = target(i);
        let ghost before = targets@;
        targets.push(t);
        assert forall|q: int| 0 <= q < i + 1 implies is_target(#[trigger] targets@[q], q) by {
            if q < i {
                assert(targets@[q] == before[q]);
            }
        }
        i = i + 1;
    }
    targets
}

/// Whether the lower-cased path starts with `excel/<name>` or holds
/// `/excel/<name>`, `name` lower-cased too.
pub open spec fn is_excel_spec(path: Seq<char>, file_name: Seq<char>) -> bool {
    let p = encode_utf8(path).map_values(|b: u8| lower_byte(b));
    let n = encode_utf8(file_name).map_values(|b: u8| lower_byte(b));
    let head = seq![101u8, 120u8, 99u8, 101u8, 108u8, 47u8] + n;
    let needle = seq![47u8] + head;
    p.take(head.len() as int) == head && p.len() >= head.len()
        || exists|k: int| 0 <= k && k + needle.len() <= p.len() && #[trigger] p.subrange(k, k + needle.len()) == needle
}

/// Whether `text`, lower-cased, has `needle` at `k`.
fn lower_bytes_at(text: &[u8], k: usize, needle: &Vec<u8>) -> (r: bool)
    requires
        k + needle@.len() <= text@.len(),
    ensures
        r == (text@.map_values(|b: u8| lower_byte(b)).subrange(k as int, k + needle@.len()) == needle@),
{
    let ghost lt = text@.map_values(|b: u8| lower_byte(b));
    let n = text.len();
    let mut j: usize = 0;
    while j < needle.len()
        invariant
            n == text@.len(),
            k + needle@.len() <= text@.len(),
            lt == text@.map_values(|b: u8| lower_byte(b)),
            j <= needle@.len(),
            forall|q: int| 0 <= q < j ==> lt[k + q] == needle@[q],
        decreases needle@.len() - j,
    {
        if ascii_lower_byte(text[k + j]) != needle[j] {
            assert(lt.subrange(k as int, k + needle@.len())[j as int] != needle@[j as int]);
            return false;
        }
        j = j + 1;
    }
    assert(lt.subrange(k as int, k + needle@.len()) =~= needle@);
    true
}

fn is_excel_workbook_path(path: &str, file_name: &str) -> (r: bool)
    ensures
        r == is_excel_spec(path@, file_name@),
{
    let p = path.as_bytes();
    let f = file_name.as_bytes();
    let mut needle: Vec<u8> = vec![47u8, 101u8, 120u8, 99u8, 101u8, 108u8, 47u8];
    let mut i: usize = 0;
    while i < f.len()
        invariant
            i <= f@.len(),
            needle@ == seq![47u8, 101u8, 120u8, 99u8, 101u8, 108u8, 47u8] + f@.subrange(0, i as int).map_values(|b: u8| lower_byte(b)),
        decreases f@.len() - i,
    {
        needle.push(ascii_lower_byte(f[i]));
        i = i + 1;
        assert(needle@ =~= seq![47u8, 101u8, 120u8, 99u8, 101u8, 108u8, 47u8] + f@.subrange(0, i as int).map_values(|b: u8| lower_byte(b)));
    }
    let ghost lp = encode_utf8(path@).map_values(|b: u8| lower_byte(b));
    let ghost ln = encode_utf8(file_name@).map_values(|b: u8| lower_byte(b));
    assert(f@.subrange(0, f@.len() as int) =~= f@);
    let ghost head = seq![101u8, 120u8, 99u8, 101u8, 108u8, 47u8] + ln;
    assert(needle@ =~= seq![47u8] + head);
    let head_len = needle.len() - 1;
    let mut head_vec: Vec<u8> = Vec::new();
    let mut q: usize = 1;
    while q < needle.len()
        invariant
            1 <= q <= needle@.len(),
            head_vec@ == needle@.subrange(1, q as int),
        decreases needle@.len() - q,
    {
        head_vec.push(needle[q]);
        q = q + 1;
        assert(head_vec@ =~= needle@.subrange(1, q as int));
    }
    assert(head_vec@ =~= head);
    if p.len() >= head_len && lower_bytes_at(p, 0, &head_vec) {
        assert(lp.take(head.len() as int) =~= lp.subrange(0, head.len() as int));
        return true;
    }
    assert(!(lp.take(head.len() as int) == head && lp.len() >= head.len())) by {
        if lp.len() >= head.len() {
            assert(lp.take(head.len() as int) =~= lp.subrange(0, head.len() as int));
        }
    }
    if p.len() < needle.len() {
        return false;
    }
    let last = p.len() - needle.len();
    assert(needle@.len() >= 1);
    let mut k: usize = 0;
    while k <= last
        invariant
            k <= last + 1,
            last < usize::MAX,
            last == p@.len() - needle@.len(),
            needle@.len() <= p@.len(),
            lp == p@.map_values(|b: u8| lower_byte(b)),
            needle@ == seq![47u8] + head,
            !(lp.take(head.len() as int) == head && lp.len() >= head.len()),
            lp == encode_utf8(path@).map_values(|b: u8| lower_byte(b)),
            head == seq![101u8, 120u8, 99u8, 101u8, 108u8, 47u8] + encode_utf8(file_name@).map_values(|b: u8| lower_byte(b)),
            forall|j: int| 0 <= j < k ==> #[trigger] lp.subrange(j, j + needle@.len()) != needle@,
        decreases last + 1 - k,
    {
        if lower_bytes_at(p, k, &needle) {
            assert(lp.subrange(k as int, k + needle@.len()) == seq![47u8] + head);
            return true;
        }
        k = k + 1;
    }
    false
}

/// The entry chosen among the `matches` of `target`: none for no match;
/// the only one; or else the only one under an `excel` folder. `None` where
/// there is no such single entry.
pub open spec fn select_spec(file_name: Seq<char>, matches: Seq<FileEntry>) -> Option<Option<int>> {
    if matches.len() == 0 {
        Some(None)
    } else if matches.len() == 1 {
        Some(Some(0))
    } else if exists|k: int| 0 <= k < matches.len() && is_excel_spec(#[trigger] matches[k].file_path@, file_name)
        && forall|j: int| 0 <= j < matches.len() && j != k ==> !is_excel_spec(#[trigger] matches[j].file_path@, file_name) {
        Some(Some(choose|k: int| 0 <= k < matches.len() && is_excel_spec(#[trigger] matches[k].file_path@, file_name)
            && forall|j: int| 0 <= j < matches.len() && j != k ==> !is_excel_spec(#[trigger] matches[j].file_path@, file_name)))
    } else {
        None
    }
}

fn select_workbook_entry(target: FishingWorkbookTarget, matches: Vec<FileEntry>) -> (r: Result<Option<FileEntry>, PlanError>)
    ensures
        select_spec(target.file_name@, matches@) is None ==> r is Err,
        select_spec(target.file_name@, matches@) matches Some(None) ==> r matches Ok(None),
        select_spec(target.file_name@, matches@) matches Some(Some(k)) ==> r == Ok::<Option<FileEntry>, PlanError>(Some(matches@[k])),
        r matches Err(e) ==> e matches PlanError::MultipleMatches(n, paths) && n@ == target.file_name@
            && paths@.len() == matches@.len()
            && forall|j: int| 0 <= j < paths@.len() ==> #[trigger] paths@[j]@ == matches@[j].file_path@,
{
    let mut matches = matches;
    let ghost m0 = matches@;
    if matches.len() == 0 {
        return Ok(None);
    }
    if matches.len() == 1 {
        return Ok(matches.pop());
    }
    let mut count: usize = 0;
    let mut found: usize = 0;
    let mut i: usize = 0;
    while i < matches.len()
        invariant
            matches@ == m0,
            i <= m0.len(),
            count <= i,
            count == 0 ==> forall|j: int| 0 <= j < i ==> !is_excel_spec(#[trigger] m0[j].file_path@, target.file_name@),
            count >= 1 ==> found < i && is_excel_spec(m0[found as int].file_path@, target.file_name@),
            count == 1 ==> forall|j: int| 0 <= j < i && j != found ==> !is_excel_spec(#[trigger] m0[j].file_path@, target.file_name@),
            count >= 2 ==> exists|a: int, b: int| 0 <= a < b < i && is_excel_spec(#[trigger] m0[a].file_path@, target.file_name@) && is_excel_spec(#[trigger] m0[b].file_path@, target.file_name@),
        decreases m0.len() - i,
    {
        if is_excel_workbook_path(matches[i].file_path.as_str(), target.file_name) {
            if count >= 1 {
                assert(is_excel_spec(m0[found as int].file_path@, target.file_name@));
            }
            if count == 0 {
                found = i;
            }
            count = if count < 2 { count + 1 } else { 2 };
        }
        i = i + 1;
    }
    if count == 1 {
        proof {
            let k = found as int;
            assert(is_excel_spec(m0[k].file_path@, target.file_name@));
            assert forall|k2: int| 0 <= k2 < m0.len() && is_excel_spec(#[trigger] m0[k2].file_path@, target.file_name@)
                && (forall|j: int| 0 <= j < m0.len() && j != k2 ==> !is_excel_spec(#[trigger] m0[j].file_path@, target.file_name@))
                implies k2 == k by {}
        }
        let e = matches.remove(found);
        return Ok(Some(e));
    }
    let mut paths: Vec<String> = Vec::new();
    let mut q: usize = 0;
    while q < matches.len()
        invariant
            matches@ == m0,
            q <= m0.len(),
            paths@.len() == q,
            forall|j: int| 0 <= j < q ==> #[trigger] paths@[j]@ == m0[j].file_path@,
        decreases matches@.len() - q,
    {
        paths.push(matches[q].file_path.clone());
        q = q + 1;
    }
    proof {
        if count == 0 {
            assert(!(exists|k: int| 0 <= k < m0.len() && is_excel_spec(#[trigger] m0[k].file_path@, target.file_name@)
                && forall|j: int| 0 <= j < m0.len() && j != k ==> !is_excel_spec(#[trigger] m0[j].file_path@, target.file_name@)));
        } else {
            let (a, b) = choose|a: int, b: int| 0 <= a < b < m0.len() && is_excel_spec(#[trigger] m0[a].file_path@, target.file_name@) && is_excel_spec(#[trigger] m0[b].file_path@, target.file_name@);
            assert forall|k: int| 0 <= k < m0.len() && is_excel_spec(#[trigger] m0[k].file_path@, target.file_name@)
                implies !(forall|j: int| 0 <= j < m0.len() && j != k ==> !is_excel_spec(#[trigger] m0[j].file_path@, target.file_name@)) by {
                if k == a {
                    assert(is_excel_spec(m0[b].file_path@, target.file_name@));
                } else {
                    assert(is_excel_spec(m0[a].file_path@, target.file_name@));
                }
            }
        }
    }
    Err(PlanError::MultipleMatches(target.file_name, paths))
}

/// Whether the `k`-th target fails the plan when its matches are `v`: a
/// required target with no match, or any target whose matches leave no
/// single entry to choose.
pub open spec fn target_fails(k: int, v: Seq<FileEntry>) -> bool {
    ||| select_spec(target_name(k), v) is None
    ||| (k < 4 && select_spec(target_name(k), v) matches Some(None))
}

/// Whether one of `items` is the `q`-th target.
pub open spec fn holds_target(items: Seq<ResolvedFishingWorkbook>, q: int) -> bool {
    exists|i: int| 0 <= i < items.len() && is_target(#[trigger] items[i].target, q)
}

/// The number of targets.
pub open spec fn target_count(include_optional: bool) -> int {
    if include_optional { 12 } else { 4 }
}

/// The workbooks to extract when the first `n` targets, each paired with the
/// matches found for it, are taken in order: each target with a chosen entry,
/// with that entry.
pub open spec fn extracted_spec(calls: Seq<(FishingWorkbookTarget, Vec<FileEntry>)>, n: int) -> Seq<ResolvedFishingWorkbook>
    decreases n,
{
    if n <= 0 {
        seq![]
    } else {
        let rest = extracted_spec(calls, n - 1);
        let (t, v) = calls[n - 1];
        match select_spec(t.file_name@, v@) {
            Some(Some(j)) => rest.push(ResolvedFishingWorkbook { target: t, entry: v@[j] }),
            _ => rest,
        }
    }
}

/// The names of the optional targets among the first `n` that matched no
/// entry, in order.
pub open spec fn missing_spec(calls: Seq<(FishingWorkbookTarget, Vec<FileEntry>)>, n: int) -> Seq<&'static str>
    decreases n,
{
    if n <= 0 {
        seq![]
    } else {
        let rest = missing_spec(calls, n - 1);
        let (t, v) = calls[n - 1];
        if !t.required && select_spec(t.file_name@, v@) matches Some(None) {
            rest.push(t.file_name)
        } else {
            rest
        }
    }
}

/// Whether `calls` records `resolve_matches` consulted once for each of the
/// first targets, in target order, each with a list that it may give.
pub open spec fn consulted_in_order<F: Fn(&FishingWorkbookTarget) -> Vec<FileEntry>>(
    resolve_matches: F,
    calls: Seq<(FishingWorkbookTarget, Vec<FileEntry>)>,
) -> bool {
    forall|k: int| 0 <= k < calls.len() ==> {
        &&& is_target(#[trigger] calls[k].0, k)
        &&& call_ensures(resolve_matches, (&calls[k].0,), calls[k].1)
    }
}

/// The plan, or the error, that the consulted `calls` give.
pub open spec fn plan_outcome(
    include_optional: bool,
    calls: Seq<(FishingWorkbookTarget, Vec<FileEntry>)>,
    r: Result<FishingWorkbookPlan, PlanError>,
) -> bool {
    &&& forall|k: int| 0 <= k < calls.len() - 1 ==> !target_fails(k, #[trigger] calls[k].1@)
    &&& match r {
        Ok(plan) => {
            &&& calls.len() == target_count(include_optional)
            &&& !target_fails(calls.len() - 1, calls[calls.len() - 1].1@)
            &&& plan.extracted@ == extracted_spec(calls, calls.len() as int)
            &&& plan.missing_optional@ == missing_spec(calls, calls.len() as int)
        },
        Err(e) => {
            let k = calls.len() - 1;
            let v = calls[k].1@;
            &&& 1 <= calls.len() <= target_count(include_optional)
            &&& target_fails(k, v)
            &&& match e {
                PlanError::RequiredMissing(n) => n@ == target_name(k) && k < 4 && select_spec(target_name(k), v) matches Some(None),
                PlanError::MultipleMatches(n, paths) => {
                    &&& n@ == target_name(k)
                    &&& select_spec(target_name(k), v) is None
                    &&& paths@.len() == v.len()
                    &&& forall|j: int| 0 <= j < paths@.len() ==> #[trigger] paths@[j]@ == v[j].file_path@
                },
            }
        },
    }
}

/// Resolves each target through `resolve_matches`, which lists the archive
/// entries whose file name is the target's. The targets are consulted once
/// each, in order, up to the first that fails; the plan extracts every
/// target with a chosen entry and lists the optional ones with none.
pub fn build_fishing_workbook_plan<F: Fn(&FishingWorkbookTarget) -> Vec<FileEntry>>(
    include_optional: bool,
    resolve_matches: F,
) -> (r: Result<FishingWorkbookPlan, PlanError>)
    requires
        forall|t: &FishingWorkbookTarget| call_requires(resolve_matches, (t,)),
    ensures
        exists|calls: Seq<(FishingWorkbookTarget, Vec<FileEntry>)>| {
            &&& consulted_in_order(resolve_matches, calls)
            &&& plan_outcome(include_optional, calls, r)
        },
        r matches Ok(plan) ==> forall|q: int| 0 <= q < 4 ==> #[trigger] holds_target(plan.extracted@, q),
{
    let targets = fishing_workbook_targets(include_optional);
    let mut extracted: Vec<ResolvedFishingWorkbook> = Vec::new();
    let mut missing_optional: Vec<&'static str> = Vec::new();
    let ghost mut calls: Seq<(FishingWorkbookTarget, Vec<FileEntry>)> = seq![];
    let mut i: usize = 0;
    while i < targets.len()
        invariant
            forall|t: &FishingWorkbookTarget| call_requires(resolve_matches, (t,)),
            targets@.len() == target_count(include_optional),
            forall|q: int| 0 <= q < targets@.len() ==> is_target(#[trigger] targets@[q], q),
            i <= targets@.len(),
            calls.len() == i,
            consulted_in_order(resolve_matches, calls),
            forall|k: int| 0 <= k < calls.len() ==> !target_fails(k, #[trigger] calls[k].1@),
            extracted@ == extracted_spec(calls, i as int),
            missing_optional@ == missing_spec(calls, i as int),
            forall|q: int| 0 <= q < 4 && q < i ==> #[trigger] holds_target(extracted@, q),
        decreases targets@.len() - i,
    {
        let target = targets[i];
        assert(is_target(targets@[i as int], i as int));
        let matches = resolve_matches(&target);
        let ghost before = calls;
        proof {
            calls = calls.push((target, matches));
            assert forall|k: int| 0 <= k < calls.len() implies {
                &&& is_target(#[trigger] calls[k].0, k)
                &&& call_ensures(resolve_matches, (&calls[k].0,), calls[k].1)
            } by {
                if k < before.len() {
                    assert(calls[k] == before[k]);
                }
            }
            assert(calls.subrange(0, i as int) =~= before);
            lemma_outcome_prefix(before, calls);
        }
        let ghost mv = matches;
        match select_workbook_entry(target, matches) {
            Err(e) => {
                proof {
                    assert forall|k: int| 0 <= k < calls.len() - 1 implies !target_fails(k, #[trigger] calls[k].1@) by {
                        assert(calls[k] == before[k]);
                    }
                    assert(calls[i as int].1 == mv);
                    assert(select_spec(target_name(i as int), mv@) is None);
                    assert(target_fails(i as int, calls[i as int].1@));
                    assert(plan_outcome(include_optional, calls, Err::<FishingWorkbookPlan, PlanError>(e)));
                }
                return Err(e);
            },
            Ok(Some(entry)) => {
                let ghost old_extracted = extracted@;
                extracted.push(ResolvedFishingWorkbook { target, entry });
                proof {
                    assert(extracted_spec(calls, i as int) == extracted_spec(before, i as int));
                    assert(calls[i as int].1 == mv);
                    let j = select_spec(target.file_name@, mv@)->Some_0->Some_0;
                    assert(entry == mv@[j]);
                    assert(extracted_spec(calls, i + 1) == old_extracted.push(ResolvedFishingWorkbook { target, entry }));
                    assert(extracted@ =~= extracted_spec(calls, i + 1));
                    assert(missing_spec(calls, i as int) == missing_spec(before, i as int));
                    assert(missing_optional@ =~= missing_spec(calls, i + 1));
                    assert(!target_fails(i as int, calls[i as int].1@));
                    assert forall|q: int| 0 <= q < 4 && q < i + 1 implies #[trigger] holds_target(extracted@, q) by {
                        if q < i {
                            assert(holds_target(old_extracted, q));
                            let e = choose|e: int| 0 <= e < old_extracted.len() && is_target(#[trigger] old_extracted[e].target, q);
                            assert(extracted@[e] == old_extracted[e]);
                        } else {
                            assert(is_target(extracted@[old_extracted.len() as int].target, q));
                        }
                    }
                    assert forall|k: int| 0 <= k < calls.len() implies !target_fails(k, #[trigger] calls[k].1@) by {
                        if k < before.len() {
                            assert(calls[k] == before[k]);
                        }
                    }
                }
            },
            Ok(None) => {
                if target.required {
                    proof {
                        assert(calls[i as int].1 == mv);
                        assert forall|k: int| 0 <= k < calls.len() - 1 implies !target_fails(k, #[trigger] calls[k].1@) by {
                            assert(calls[k] == before[k]);
                        }
                        assert(select_spec(target_name(i as int), mv@) matches Some(None));
                        assert(target_fails(i as int, calls[i as int].1@));
                        assert(plan_outcome(include_optional, calls, Err::<FishingWorkbookPlan, PlanError>(PlanError::RequiredMissing(target.file_name))));
                    }
                    return Err(PlanError::RequiredMissing(target.file_name));
                }
                missing_optional.push(target.file_name);
                proof {
                    assert(missing_spec(calls, i as int) == missing_spec(before, i as int));
                    assert(extracted_spec(calls, i as int) == extracted_spec(before, i as int));
                    assert(calls[i as int].1 == mv);
                    assert(extracted@ =~= extracted_spec(calls, i + 1));
                    assert(!target_fails(i as int, calls[i as int].1@));
                    assert(missing_optional@ =~= missing_spec(calls, i + 1));
                    assert forall|k: int| 0 <= k < calls.len() implies !target_fails(k, #[trigger] calls[k].1@) by {
                        if k < before.len() {
                            assert(calls[k] == before[k]);
                        }
                    }
                }
            },
        }
        i = i + 1;
    }
    Ok(FishingWorkbookPlan { extracted, missing_optional })
}

/// Extending the record of calls keeps what its first calls give.
proof fn lemma_outcome_prefix(
    before: Seq<(FishingWorkbookTarget, Vec<FileEntry>)>,
    calls: Seq<(FishingWorkbookTarget, Vec<FileEntry>)>,
)
    requires
        calls.len() == before.len() + 1,
        forall|k: int| 0 <= k < before.len() ==> calls[k] == before[k],
    ensures
        forall|n: int| n <= before.len() ==> #[trigger] extracted_spec(calls, n) == extracted_spec(before, n),
        forall|n: int| n <= before.len() ==> #[trigger] missing_spec(calls, n) == missing_spec(before, n),
{
    assert forall|n: int| n <= before.len() implies #[trigger] extracted_spec(calls, n) == extracted_spec(before, n) by {
        lemma_extracted_prefix(before, calls, n);
    }
    assert forall|n: int| n <= before.len() implies #[trigger] missing_spec(calls, n) == missing_spec(before, n) by {
        lemma_missing_prefix(before, calls, n);
    }
}

proof fn lemma_extracted_prefix(
    a: Seq<(FishingWorkbookTarget, Vec<FileEntry>)>,
    b: Seq<(FishingWorkbookTarget, Vec<FileEntry>)>,
    n: int,
)
    requires
        n <= a.len(),
        n <= b.len(),
        forall|k: int| 0 <= k < n ==> b[k] == a[k],
    ensures
        extracted_spec(b, n) == extracted_spec(a, n),
    decreases n,
{
    if n > 0 {
        lemma_extracted_prefix(a, b, n - 1);
        assert(b[n - 1] == a[n - 1]);
    }
}

proof fn lemma_missing_prefix(
    a: Seq<(FishingWorkbookTarget, Vec<FileEntry>)>,
    b: Seq<(FishingWorkbookTarget, Vec<FileEntry>)>,
    n: int,
)
    requires
        n <= a.len(),
        n <= b.len(),
        forall|k: int| 0 <= k < n ==> b[k] == a[k],
    ensures
        missing_spec(b, n) == missing_spec(a, n),
    decreases n,
{
    if n > 0 {
        lemma_missing_prefix(a, b, n - 1);
        assert(b[n - 1] == a[n - 1]);
    }
}


/// The names of the first `n` targets that `m` finds entries for, in order.
pub open spec fn found_names(m: spec_fn(Seq<char>) -> Seq<FileEntry>, n: int) -> Seq<Seq<char>>
    decreases n,
{
    if n <= 0 {
        seq![]
    } else {
        found_names(m, n - 1) + if m(target_name(n - 1)).len() > 0 { seq![target_name(n - 1)] } else { seq![] }
    }
}

/// The names of the optional targets among the first `n` that `m` finds no
/// entry for, in order.
pub open spec fn unfound_optional_names(m: spec_fn(Seq<char>) -> Seq<FileEntry>, n: int) -> Seq<Seq<char>>
    decreases n,
{
    if n <= 0 {
        seq![]
    } else {
        unfound_optional_names(m, n - 1) + if n - 1 >= 4 && m(target_name(n - 1)).len() == 0 {
            seq![target_name(n - 1)]
        } else {
            seq![]
        }
    }
}

proof fn lemma_plan_names(calls: Seq<(FishingWorkbookTarget, Vec<FileEntry>)>, m: spec_fn(Seq<char>) -> Seq<FileEntry>, n: int)
    requires
        0 <= n <= calls.len(),
        forall|k: int| 0 <= k < calls.len() ==> is_target(#[trigger] calls[k].0, k) && calls[k].1@ == m(target_name(k)),
        forall|k: int| 0 <= k < n ==> !target_fails(k, #[trigger] calls[k].1@),
    ensures
        extracted_spec(calls, n).map_values(|x: ResolvedFishingWorkbook| x.target.file_name@) == found_names(m, n),
        missing_spec(calls, n).map_values(|x: &'static str| x@) == unfound_optional_names(m, n),
        forall|i: int| 0 <= i < extracted_spec(calls, n).len() ==> {
            let x = #[trigger] extracted_spec(calls, n)[i];
            select_spec(x.target.file_name@, m(x.target.file_name@)) matches Some(Some(j)) && x.entry == m(x.target.file_name@)[j]
        },
    decreases n,
{
    if n > 0 {
        lemma_plan_names(calls, m, n - 1);
        let (t, v) = calls[n - 1];
        assert(is_target(t, n - 1) && v@ == m(target_name(n - 1)));
        assert(!target_fails(n - 1, calls[n - 1].1@));
        let prev = extracted_spec(calls, n - 1);
        let cur = extracted_spec(calls, n);
        assert(cur.map_values(|x: ResolvedFishingWorkbook| x.target.file_name@) =~= found_names(m, n));
        assert(missing_spec(calls, n).map_values(|x: &'static str| x@) =~= unfound_optional_names(m, n));
        assert forall|i: int| 0 <= i < cur.len() implies {
            let x = #[trigger] cur[i];
            select_spec(x.target.file_name@, m(x.target.file_name@)) matches Some(Some(j)) && x.entry == m(x.target.file_name@)[j]
        } by {
            if i < prev.len() {
                assert(cur[i] == prev[i]);
            }
        }
    }
}

/// The plan for a resolver that always lists `m(name)` for a workbook: it
/// fails exactly where some target fails; otherwise it extracts exactly the
/// targets with entries, in target order, each with the entry `select_spec`
/// chooses among `m`'s, lists exactly the optional targets without entries,
/// and so extracts every required target.
pub proof fn law_plan_for_fixed_matches(
    include_optional: bool,
    calls: Seq<(FishingWorkbookTarget, Vec<FileEntry>)>,
    r: Result<FishingWorkbookPlan, PlanError>,
    m: spec_fn(Seq<char>) -> Seq<FileEntry>,
)
    requires
        plan_outcome(include_optional, calls, r),
        forall|k: int| 0 <= k < calls.len() ==> is_target(#[trigger] calls[k].0, k) && calls[k].1@ == m(target_name(k)),
    ensures
        r is Err <==> exists|k: int| 0 <= k < target_count(include_optional) && #[trigger] target_fails(k, m(target_name(k))),
        r matches Ok(plan) ==> {
            &&& plan.extracted@.map_values(|x: ResolvedFishingWorkbook| x.target.file_name@) == found_names(m, target_count(include_optional))
            &&& plan.missing_optional@.map_values(|x: &'static str| x@) == unfound_optional_names(m, target_count(include_optional))
            &&& forall|i: int| 0 <= i < plan.extracted@.len() ==> {
                let x = #[trigger] plan.extracted@[i];
                select_spec(x.target.file_name@, m(x.target.file_name@)) matches Some(Some(j)) && x.entry == m(x.target.file_name@)[j]
            }
            &&& forall|k: int| 0 <= k < 4 ==> m(target_name(k)).len() > 0
        },
{
    match r {
        Ok(plan) => {
            assert forall|k: int| 0 <= k < calls.len() implies !target_fails(k, #[trigger] calls[k].1@) by {
                if k == calls.len() - 1 {
                } else {
                    assert(!target_fails(k, calls[k].1@));
                }
            }
            lemma_plan_names(calls, m, calls.len() as int);
            assert forall|k: int| 0 <= k < target_count(include_optional) implies !#[trigger] target_fails(k, m(target_name(k))) by {
                assert(is_target(calls[k].0, k));
                assert(!target_fails(k, calls[k].1@));
            }
            assert forall|k: int| 0 <= k < 4 implies m(target_name(k)).len() > 0 by {
                assert(is_target(calls[k].0, k));
                assert(!target_fails(k, calls[k].1@));
            }
        },
        Err(_) => {
            let k = calls.len() - 1;
            assert(target_fails(k, calls[k].1@));
            assert(is_target(calls[k].0, k));
            assert(target_fails(k, m(target_name(k))));
        },
    }
}

} // verus!
