//! Comparing the region ids that the sources of region data know of: the
//! PABR dictionary, the regions the PABR rows use and those with an area,
//! the current GeoJSON and `regioninfo.json`, `regioninfo.bss` and the
//! `regionclientdata` files.
use std::collections::{BTreeMap, BTreeSet};
use vstd::prelude::*;
use crate::gcdata::{
    inspect_variants_in_order, sort_regionclientdata_variants, sorted_by_variant, RegionClientDataVariant, RegionClientDataVariantReport,
};
use crate::waypoint_xml::{insert_sorted, strictly_increasing};
use crate::pabr::{PabrError, PabrMap};
use crate::pabr::parse::{first_bad_index, indices_ok, used_ids};
use crate::pabr::matching::region_area_map;

verus! {

broadcast use vstd::laws_cmp::group_laws_cmp, vstd::std_specs::btree::group_btree_axioms;

proof fn lemma_rising_at_least_index(s: Seq<u32>, i: int)
    requires
        strictly_increasing(s),
        0 <= i < s.len(),
    ensures
        s[i] >= i,
    decreases i,
{
    if i > 0 {
        lemma_rising_at_least_index(s, i - 1);
    }
}

/// A rising list of 32-bit ids has at most 2^32 of them.
proof fn lemma_rising_len(s: Seq<u32>)
    requires
        strictly_increasing(s),
    ensures
        s.len() <= 0x1_0000_0000,
{
    if s.len() > 0 {
        lemma_rising_at_least_index(s, s.len() - 1);
    }
}

/// The ids of `set`, rising.
pub fn sorted_ids(set: &BTreeSet<u32>) -> (r: Vec<u32>)
    ensures
        strictly_increasing(r@),
        forall|x: u32| r@.contains(x) <==> set@.contains(x),
{
    let mut out: Vec<u32> = Vec::new();
    for id in it: set.iter()
        invariant
            it.seq().unref().to_set() == set@,
            strictly_increasing(out@),
            forall|x: u32|
                #[trigger] out@.contains(x) <==> exists|j: int| 0 <= j < it.index() && it.seq().unref()[j] == x,
    {
        let ghost k = it.index();
        let ghost s = it.seq().unref();
        insert_sorted(&mut out, *id);
        assert forall|x: u32| #[trigger] out@.contains(x) <==> exists|j: int| 0 <= j < k + 1 && s[j] == x by {
            if x == *id {
                assert(s[k] == x);
            }
        }
    }
    out
}

/// The ids of `a` that `b` lacks, rising.
pub fn sorted_difference(a: &BTreeSet<u32>, b: &BTreeSet<u32>) -> (r: Vec<u32>)
    ensures
        strictly_increasing(r@),
        forall|x: u32| r@.contains(x) <==> (a@.contains(x) && !b@.contains(x)),
{
    let ids = sorted_ids(a);
    let mut out: Vec<u32> = Vec::new();
    let mut k: usize = 0;
    while k < ids.len()
        invariant
            k <= ids@.len(),
            strictly_increasing(ids@),
            forall|x: u32| ids@.contains(x) <==> a@.contains(x),
            strictly_increasing(out@),
            forall|x: u32|
                #[trigger] out@.contains(x) <==> (exists|j: int| 0 <= j < k && ids@[j] == x) && !b@.contains(x),
        decreases ids@.len() - k,
    {
        let x = ids[k];
        if !b.contains(&x) {
            insert_sorted(&mut out, x);
        }
        assert forall|y: u32| #[trigger] out@.contains(y) <==> (exists|j: int| 0 <= j < k + 1 && ids@[j] == y)
            && !b@.contains(y) by {
            if y == x {
                assert(ids@[k as int] == y);
            }
        }
        k = k + 1;
    }
    out
}

/// The ids of two rising lists together, each once, rising.
fn sorted_union(a: &Vec<u32>, b: &Vec<u32>) -> (r: Vec<u32>)
    ensures
        strictly_increasing(r@),
        forall|x: u32| r@.contains(x) <==> (a@.contains(x) || b@.contains(x)),
{
    let mut out: Vec<u32> = Vec::new();
    let mut k: usize = 0;
    while k < a.len()
        invariant
            k <= a@.len(),
            strictly_increasing(out@),
            forall|x: u32| #[trigger] out@.contains(x) <==> exists|j: int| 0 <= j < k && a@[j] == x,
        decreases a@.len() - k,
    {
        let x = a[k];
        insert_sorted(&mut out, x);
        assert forall|y: u32| #[trigger] out@.contains(y) <==> exists|j: int| 0 <= j < k + 1 && a@[j] == y by {
            if y == x {
                assert(a@[k as int] == y);
            }
        }
        k = k + 1;
    }
    let mut k: usize = 0;
    while k < b.len()
        invariant
            k <= b@.len(),
            strictly_increasing(out@),
            forall|x: u32| #[trigger] out@.contains(x) <==> (a@.contains(x) || exists|j: int| 0 <= j < k && b@[j] == x),
        decreases b@.len() - k,
    {
        let x = b[k];
        insert_sorted(&mut out, x);
        assert forall|y: u32| #[trigger] out@.contains(y) <==> (a@.contains(y) || exists|j: int| 0 <= j < k + 1 && b@[j] == y) by {
            if y == x {
                assert(b@[k as int] == y);
            }
        }
        k = k + 1;
    }
    out
}

/// Where one region that the sources disagree on is found.
#[derive(Clone, Debug)]
pub struct RegionSourcePresence {
    pub region_id: u32,
    pub current_label: Option<String>,
    pub in_pabr_rid_dictionary: bool,
    pub in_pabr_bkd_rows: bool,
    pub in_pabr_active_area: bool,
    pub in_current_regions_geojson: bool,
    pub in_current_regioninfo_json: Option<bool>,
    pub regionclientdata_variants: Vec<String>,
}

/// What the sources of region ids say of each other.
#[derive(Clone, Debug)]
pub struct RegionSourceComparison {
    pub rid_dictionary_region_count: usize,
    pub pabr_used_region_count: usize,
    pub pabr_active_region_count: usize,
    pub current_region_count: usize,
    pub current_regioninfo_count: Option<usize>,
    pub rid_dictionary_only_unused_region_ids: Vec<u32>,
    pub bkd_referenced_only_zero_area_region_ids: Vec<u32>,
    pub pabr_active_only_region_ids: Vec<u32>,
    pub current_only_region_ids: Vec<u32>,
    pub pabr_active_region_ids_missing_from_current_regioninfo: Option<Vec<u32>>,
    pub regioninfo_bss_minus_current_regioninfo_count: Option<i64>,
    pub regioninfo_bss_gap_matches_missing_current_regioninfo_pabr_ids: Option<bool>,
    pub unresolved_region_ids: Vec<RegionSourcePresence>,
    pub regionclientdata_variants: Vec<RegionClientDataVariantReport>,
}

/// What a comparison of region sources counts.
#[derive(Clone, Debug)]
pub struct RegionSourceComparisonSummary {
    pub output_path: String,
    pub rid_dictionary_region_count: usize,
    pub pabr_used_region_count: usize,
    pub pabr_active_region_count: usize,
    pub current_region_count: usize,
    pub current_regioninfo_count: Option<usize>,
    pub unresolved_region_count: usize,
}

/// Whether the rising list `r` holds exactly the ids that `p` holds of.
pub open spec fn lists(r: Seq<u32>, p: spec_fn(u32) -> bool) -> bool {
    strictly_increasing(r) && forall|x: u32| r.contains(x) <==> p(x)
}

/// The names of the variants that hold region `id`, in order.
pub open spec fn variants_holding(vs: Seq<RegionClientDataVariant>, id: u32) -> Seq<Seq<char>>
    decreases vs.len(),
{
    if vs.len() == 0 {
        seq![]
    } else if vs.last().region_ids@.contains(id) {
        variants_holding(vs.drop_last(), id).push(vs.last().variant@)
    } else {
        variants_holding(vs.drop_last(), id)
    }
}

/// The names of the variants of `variants` that hold region `id`.
fn variants_with(variants: &[RegionClientDataVariant], id: u32) -> (r: Vec<String>)
    ensures
        r@.map_values(|s: String| s@) == variants_holding(variants@, id),
{
    let mut out: Vec<String> = Vec::new();
    let mut k: usize = 0;
    while k < variants.len()
        invariant
            k <= variants@.len(),
            out@.map_values(|s: String| s@) == variants_holding(variants@.subrange(0, k as int), id),
        decreases variants@.len() - k,
    {
        assert(variants@.subrange(0, k + 1).drop_last() =~= variants@.subrange(0, k as int));
        let ghost before = out@;
        if variants[k].region_ids.contains(&id) {
            out.push(variants[k].variant.clone());
            assert(out@.map_values(|s: String| s@) =~= before.map_values(|s: String| s@).push(variants@[k as int].variant@));
        }
        k = k + 1;
    }
    assert(variants@.subrange(0, variants@.len() as int) =~= variants@);
    out
}

/// Whether `p` tells where region `id` is found.
pub open spec fn presence_matches(
    p: RegionSourcePresence,
    id: u32,
    rid_dictionary: Set<u32>,
    used: Set<u32>,
    active: Set<u32>,
    current: Set<u32>,
    labels: Map<u32, String>,
    current_regioninfo: Option<Set<u32>>,
    variants: Seq<RegionClientDataVariant>,
) -> bool {
    &&& p.region_id == id
    &&& (match p.current_label {
        Some(l) => labels.contains_key(id) && l@ == labels[id]@,
        None => !labels.contains_key(id),
    })
    &&& p.in_pabr_rid_dictionary == rid_dictionary.contains(id)
    &&& p.in_pabr_bkd_rows == used.contains(id)
    &&& p.in_pabr_active_area == active.contains(id)
    &&& p.in_current_regions_geojson == current.contains(id)
    &&& p.in_current_regioninfo_json == (match current_regioninfo {
        Some(s) => Some(s.contains(id)),
        None => None,
    })
    &&& p.regionclientdata_variants@.map_values(|s: String| s@) == variants_holding(variants, id)
}

/// Whether `r` compares the region id sets of the sources: each source's
/// count, the ids that one source has and another lacks, and, for each
/// region that the active PABR area and the current GeoJSON disagree on,
/// where it is found.
pub open spec fn comparison_of(
    r: RegionSourceComparison,
    rid_dictionary: Set<u32>,
    used: Set<u32>,
    active: Set<u32>,
    current: Set<u32>,
    current_labels: Map<u32, String>,
    current_regioninfo: Option<Set<u32>>,
    regioninfo_bss_entry_count: Option<u32>,
    regionclientdata: Seq<RegionClientDataVariant>,
) -> bool {
    &&& r.rid_dictionary_region_count == rid_dictionary.len()
    &&& r.pabr_used_region_count == used.len()
    &&& r.pabr_active_region_count == active.len()
    &&& r.current_region_count == current.len()
    &&& r.current_regioninfo_count == (match current_regioninfo {
        Some(s) => Some(s.len() as usize),
        None => None,
    })
    &&& lists(r.rid_dictionary_only_unused_region_ids@, |x: u32| rid_dictionary.contains(x) && !used.contains(x))
    &&& lists(r.bkd_referenced_only_zero_area_region_ids@, |x: u32| used.contains(x) && !active.contains(x))
    &&& lists(r.pabr_active_only_region_ids@, |x: u32| active.contains(x) && !current.contains(x))
    &&& lists(r.current_only_region_ids@, |x: u32| current.contains(x) && !active.contains(x))
    &&& match current_regioninfo {
        Some(s) => r.pabr_active_region_ids_missing_from_current_regioninfo matches Some(m) && lists(
            m@,
            |x: u32| active.contains(x) && !s.contains(x),
        ),
        None => r.pabr_active_region_ids_missing_from_current_regioninfo is None,
    }
    &&& match (regioninfo_bss_entry_count, current_regioninfo) {
        (Some(n), Some(s)) => r.regioninfo_bss_minus_current_regioninfo_count == Some((n - s.len()) as i64)
            && (r.pabr_active_region_ids_missing_from_current_regioninfo matches Some(m)
            && r.regioninfo_bss_gap_matches_missing_current_regioninfo_pabr_ids == Some(n - s.len() == m@.len())),
        _ => r.regioninfo_bss_minus_current_regioninfo_count is None
            && r.regioninfo_bss_gap_matches_missing_current_regioninfo_pabr_ids is None,
    }
    &&& ({
        let ids = r.unresolved_region_ids@.map_values(|p: RegionSourcePresence| p.region_id);
        &&& lists(ids, |x: u32| active.contains(x) != current.contains(x))
        &&& forall|k: int|
            0 <= k < r.unresolved_region_ids@.len() ==> presence_matches(
                #[trigger] r.unresolved_region_ids@[k],
                ids[k],
                rid_dictionary,
                used,
                active,
                current,
                current_labels,
                current_regioninfo,
                regionclientdata,
            )
        &&& r.regionclientdata_variants@.len() == regionclientdata.len()
        &&& forall|k: int|
            0 <= k < regionclientdata.len() ==> {
                let rep = #[trigger] r.regionclientdata_variants@[k];
                let v = regionclientdata[k];
                &&& rep.variant@ == v.variant@
                &&& rep.path@ == v.path@
                &&& rep.region_count == v.region_ids@.len()
                &&& lists(rep.focus_region_ids@, |x: u32| ids.contains(x) && v.region_ids@.contains(x))
            }
    })
}

/// Compares the region ids of the sources: each source's count, the ids
/// that one source has and another lacks, and, for each region that the
/// active PABR area and the current GeoJSON disagree on, where it is found.
pub fn compare_region_id_sets(
    rid_dictionary: &BTreeSet<u32>,
    used: &BTreeSet<u32>,
    active: &BTreeSet<u32>,
    current: &BTreeSet<u32>,
    current_labels: &BTreeMap<u32, String>,
    current_regioninfo: Option<&BTreeSet<u32>>,
    regioninfo_bss_entry_count: Option<u32>,
    regionclientdata: &[RegionClientDataVariant],
) -> (r: RegionSourceComparison)
    requires
        current_regioninfo matches Some(s) ==> s@.len() <= i64::MAX,
    ensures
        comparison_of(
            r,
            rid_dictionary@,
            used@,
            active@,
            current@,
            current_labels@,
            match current_regioninfo {
                Some(s) => Some(s@),
                None => None,
            },
            regioninfo_bss_entry_count,
            regionclientdata@,
        ),
{
    let dictionary_only = sorted_difference(rid_dictionary, used);
    let zero_area = sorted_difference(used, active);
    let active_only = sorted_difference(active, current);
    let current_only = sorted_difference(current, active);
    let missing = match current_regioninfo {
        Some(s) => Some(sorted_difference(active, s)),
        None => None,
    };
    let minus: Option<i64> = match (regioninfo_bss_entry_count, current_regioninfo) {
        (Some(n), Some(s)) => {
            let len = s.len();
            Some(n as i64 - len as i64)
        },
        _ => None,
    };
    let unresolved = sorted_union(&active_only, &current_only);
    let mut presence: Vec<RegionSourcePresence> = Vec::new();
    let mut k: usize = 0;
    while k < unresolved.len()
        invariant
            k <= unresolved@.len(),
            presence@.len() == k,
            forall|j: int|
                0 <= j < k ==> presence_matches(
                    #[trigger] presence@[j],
                    unresolved@[j],
                    rid_dictionary@,
                    used@,
                    active@,
                    current@,
                    current_labels@,
                    match current_regioninfo {
                        Some(s) => Some(s@),
                        None => None,
                    },
                    regionclientdata@,
                ),
        decreases unresolved@.len() - k,
    {
        let id = unresolved[k];
        let current_label = match current_labels.get(&id) {
            Some(l) => Some(l.clone()),
            None => None,
        };
        presence.push(RegionSourcePresence {
            region_id: id,
            current_label,
            in_pabr_rid_dictionary: rid_dictionary.contains(&id),
            in_pabr_bkd_rows: used.contains(&id),
            in_pabr_active_area: active.contains(&id),
            in_current_regions_geojson: current.contains(&id),
            in_current_regioninfo_json: match current_regioninfo {
                Some(s) => Some(s.contains(&id)),
                None => None,
            },
            regionclientdata_variants: variants_with(regionclientdata, id),
        });
        k = k + 1;
    }
    let ghost ids = presence@.map_values(|p: RegionSourcePresence| p.region_id);
    assert(ids =~= unresolved@);
    let (reports, _) = inspect_variants_in_order(regionclientdata, unresolved.as_slice());
    let gap_matches = match (minus, &missing) {
        (Some(d), Some(m)) => {
            proof {
                lemma_rising_len(m@);
            }
            Some(d == m.len() as i64)
        },
        _ => None,
    };
    RegionSourceComparison {
        rid_dictionary_region_count: rid_dictionary.len(),
        pabr_used_region_count: used.len(),
        pabr_active_region_count: active.len(),
        current_region_count: current.len(),
        current_regioninfo_count: match current_regioninfo {
            Some(s) => Some(s.len()),
            None => None,
        },
        rid_dictionary_only_unused_region_ids: dictionary_only,
        bkd_referenced_only_zero_area_region_ids: zero_area,
        pabr_active_only_region_ids: active_only,
        current_only_region_ids: current_only,
        pabr_active_region_ids_missing_from_current_regioninfo: missing,
        regioninfo_bss_minus_current_regioninfo_count: minus,
        regioninfo_bss_gap_matches_missing_current_regioninfo_pabr_ids: gap_matches,
        unresolved_region_ids: presence,
        regionclientdata_variants: reports,
    }
}


/// The region ids of a PABR map's dictionary.
pub fn dictionary_region_ids(map: &PabrMap) -> (r: BTreeSet<u32>)
    ensures
        forall|x: u32|
            r@.contains(x) <==> exists|i: int| 0 <= i < map.rid.region_ids@.len() && map.rid.region_ids@[i] as u32 == x,
{
    let mut out: BTreeSet<u32> = BTreeSet::new();
    let mut k: usize = 0;
    while k < map.rid.region_ids.len()
        invariant
            k <= map.rid.region_ids@.len(),
            forall|x: u32|
                #[trigger] out@.contains(x) <==> exists|i: int| 0 <= i < k && map.rid.region_ids@[i] as u32 == x,
        decreases map.rid.region_ids@.len() - k,
    {
        let id = map.rid.region_ids[k] as u32;
        out.insert(id);
        assert forall|x: u32| #[trigger] out@.contains(x) <==> exists|i: int|
            0 <= i < k + 1 && map.rid.region_ids@[i] as u32 == x by {
            if x == id {
                assert(map.rid.region_ids@[k as int] as u32 == x);
            }
        }
        k = k + 1;
    }
    out
}

/// The regions that have an entry in `areas`.
pub fn area_region_ids(areas: &BTreeMap<u32, u64>) -> (r: BTreeSet<u32>)
    ensures
        r@ == areas@.dom(),
{
    let mut out: BTreeSet<u32> = BTreeSet::new();
    for id in it: areas.keys()
        invariant
            it.seq().unref().to_set() == areas@.dom(),
            forall|x: u32|
                #[trigger] out@.contains(x) <==> exists|j: int| 0 <= j < it.index() && it.seq().unref()[j] == x,
    {
        let ghost k = it.index();
        let ghost s = it.seq().unref();
        out.insert(*id);
        assert forall|x: u32| #[trigger] out@.contains(x) <==> exists|j: int| 0 <= j < k + 1 && s[j] == x by {
            if x == *id {
                assert(s[k] == x);
            }
        }
    }
    out
}

/// Sums up a comparison of region sources.
pub fn region_source_comparison_summary(c: &RegionSourceComparison, output_path: &str) -> (r: RegionSourceComparisonSummary)
    ensures
        r.output_path@ == output_path@,
        r.rid_dictionary_region_count == c.rid_dictionary_region_count,
        r.pabr_used_region_count == c.pabr_used_region_count,
        r.pabr_active_region_count == c.pabr_active_region_count,
        r.current_region_count == c.current_region_count,
        r.current_regioninfo_count == c.current_regioninfo_count,
        r.unresolved_region_count == c.unresolved_region_ids@.len(),
{
    RegionSourceComparisonSummary {
        output_path: output_path.to_owned(),
        rid_dictionary_region_count: c.rid_dictionary_region_count,
        pabr_used_region_count: c.pabr_used_region_count,
        pabr_active_region_count: c.pabr_active_region_count,
        current_region_count: c.current_region_count,
        current_regioninfo_count: c.current_regioninfo_count,
        unresolved_region_count: c.unresolved_region_ids.len(),
    }
}

/// The region ids of a map's dictionary.
pub open spec fn dictionary_id_set(map: PabrMap) -> Set<u32> {
    Set::new(|x: u32| exists|i: int| 0 <= i < map.rid.region_ids@.len() && map.rid.region_ids@[i] as u32 == x)
}

/// The region ids that a map's rows use.
pub open spec fn used_id_set(map: PabrMap) -> Set<u32> {
    Set::new(|v: u32| v <= 0xFFFF && used_ids(map.rows(), map.rid.region_ids@).contains(v as u16))
}

/// Compares the region ids of the sources, taking those of `map` from its
/// dictionary, from the regions its rows use, and from the regions that have
/// an area when read with `row_shift`; see `comparison_of`. A map whose rows
/// cannot be read is refused with the error of `used_region_ids`, and then
/// with that of `native_region_areas`.
pub fn compare_region_sources(
    map: &PabrMap,
    row_shift: u32,
    current: &BTreeSet<u32>,
    current_labels: &BTreeMap<u32, String>,
    current_regioninfo: Option<&BTreeSet<u32>>,
    regioninfo_bss_entry_count: Option<u32>,
    regionclientdata: Vec<RegionClientDataVariant>,
) -> (r: Result<RegionSourceComparison, PabrError>)
    requires
        map.bkd.rows@.len() * row_shift <= u64::MAX,
        2 * map.rid.native_height * map.bkd.rows@.len() <= u64::MAX,
        current_regioninfo matches Some(s) ==> s@.len() <= i64::MAX,
    ensures
        !indices_ok(map.rows(), map.rid.region_ids@.len() as int) ==> (r matches Err(e) && exists|rr: int, k: int|
            first_bad_index(map.rows(), map.rid.region_ids@.len() as int, rr, k) && e == PabrError::DictionaryIndexOutOfRange(
                #[trigger] map.rows()[rr][k].dictionary_index as usize,
                map.rid.region_ids@.len() as usize,
            )),
        indices_ok(map.rows(), map.rid.region_ids@.len() as int) ==> exists|sorted: Seq<RegionClientDataVariant>| sorted_by_variant(regionclientdata@, sorted) && if map.rid.native_width == 0
            || map.rid.native_height == 0 {
            r == Err::<RegionSourceComparison, PabrError>(PabrError::ZeroNativeDimensions)
        } else if map.bkd.rows@.len() == 0 {
            r == Err::<RegionSourceComparison, PabrError>(PabrError::NoBkdRows)
        } else {
            match map.field_rows_spec(row_shift, None, map.rid.native_height as nat) {
                Err(e) => r == Err::<RegionSourceComparison, PabrError>(e),
                Ok(rows) => r matches Ok(c) && comparison_of(
                    c,
                    dictionary_id_set(*map),
                    used_id_set(*map),
                    region_area_map(rows).dom(),
                    current@,
                    current_labels@,
                    match current_regioninfo {
                        Some(s) => Some(s@),
                        None => None,
                    },
                    regioninfo_bss_entry_count,
                    sorted,
                ),
            }
        },
{
    let sorted = sort_regionclientdata_variants(regionclientdata);
    let dictionary = dictionary_region_ids(map);
    let used = match map.used_region_ids() {
        Ok(u) => u,
        Err(e) => return Err(e),
    };
    let areas = match map.native_region_areas(row_shift) {
        Ok(a) => a,
        Err(e) => return Err(e),
    };
    let active = area_region_ids(&areas);
    assert(dictionary@ =~= dictionary_id_set(*map));
    assert(used@ =~= used_id_set(*map));
    Ok(
        compare_region_id_sets(
            &dictionary,
            &used,
            &active,
            current,
            current_labels,
            current_regioninfo,
            regioninfo_bss_entry_count,
            sorted.as_slice(),
        ),
    )
}

} // verus!
