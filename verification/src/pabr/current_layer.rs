//! The other region layer of a match, drawn on the PABR grid: the rows that
//! each ring of a polygon covers, polygons with their holes cut out,
//! geometries made of several polygons, and the layer's rows of runs with
//! the areas and labels of its regions.
use std::collections::{BTreeMap, BTreeSet};
use vstd::prelude::*;
use super::matching::{
    covers, disjoint_sorted, intervals_nonempty, merge_intervals, merged_shape, region_area_map, rows_area,
    runs_forward, separated, subtract_intervals, sum_region_areas,
};
use super::geojson::segment_rows_view;
use super::region_match::{label_of, CurrentLayer};
use super::RowSegment;

verus! {

broadcast use vstd::laws_cmp::group_laws_cmp, vstd::std_specs::btree::group_btree_axioms;

/// Whether each row of `m` holds at least one interval, and its intervals
/// are non-empty, sorted, and each ends before the next starts.
pub open spec fn rows_shaped(m: Map<u32, Vec<(u32, u32)>>) -> bool {
    forall|y: u32| #[trigger] m.contains_key(y) ==> disjoint_sorted(m[y]@) && m[y]@.len() > 0
}

/// Whether row `y` of `m` holds the point `x`.
pub open spec fn row_covers(m: Map<u32, Vec<(u32, u32)>>, y: u32, x: int) -> bool {
    m.contains_key(y) && covers(m[y]@, x)
}

proof fn lemma_separated_chain(s: Seq<(u32, u32)>, i: int, j: int)
    requires
        separated(s),
        intervals_nonempty(s),
        0 <= i < j < s.len(),
    ensures
        s[i].1 < s[j].0,
    decreases j - i,
{
    if j > i + 1 {
        lemma_separated_chain(s, i + 1, j);
        assert(s[i].1 < s[i + 1].0);
        assert(s[i + 1].0 < s[i + 1].1);
    }
}

/// Merged non-empty intervals end each before the next starts.
proof fn lemma_merged_disjoint(s: Seq<(u32, u32)>)
    requires
        merged_shape(s),
        intervals_nonempty(s),
    ensures
        disjoint_sorted(s),
{
    assert forall|i: int, j: int| 0 <= i < j < s.len() implies (#[trigger] s[i]).1 < (#[trigger] s[j]).0 by {
        lemma_separated_chain(s, i, j);
    }
}

fn copy_intervals(v: &Vec<(u32, u32)>) -> (r: Vec<(u32, u32)>)
    ensures
        r@ == v@,
{
    let mut out: Vec<(u32, u32)> = Vec::new();
    let mut k: usize = 0;
    while k < v.len()
        invariant
            k <= v@.len(),
            out@ == v@.take(k as int),
        decreases v@.len() - k,
    {
        out.push(v[k]);
        assert(out@ =~= v@.take(k + 1));
        k = k + 1;
    }
    assert(out@ =~= v@);
    out
}

/// Merges the spans of each row of a ring, given by rising row, and keeps
/// the rows where any remain: the intervals of each kept row are sorted
/// and each ends before the next starts.
pub fn ring_rows(spans: &Vec<(u32, Vec<(u32, u32)>)>) -> (r: BTreeMap<u32, Vec<(u32, u32)>>)
    requires
        forall|i: int, j: int| 0 <= i < j < spans@.len() ==> (#[trigger] spans@[i]).0 < (#[trigger] spans@[j]).0,
        forall|k: int| 0 <= k < spans@.len() ==> intervals_nonempty((#[trigger] spans@[k]).1@),
    ensures
        rows_shaped(r@),
        forall|y: u32, x: int|
            #[trigger] row_covers(r@, y, x) <==> exists|k: int|
                0 <= k < spans@.len() && (#[trigger] spans@[k]).0 == y && covers(spans@[k].1@, x),
{
    let mut rows: BTreeMap<u32, Vec<(u32, u32)>> = BTreeMap::new();
    let mut k: usize = 0;
    while k < spans.len()
        invariant
            k <= spans@.len(),
            forall|i: int, j: int| 0 <= i < j < spans@.len() ==> (#[trigger] spans@[i]).0 < (#[trigger] spans@[j]).0,
            forall|q: int| 0 <= q < spans@.len() ==> intervals_nonempty((#[trigger] spans@[q]).1@),
            rows_shaped(rows@),
            forall|y: u32| #[trigger] rows@.contains_key(y) ==> exists|q: int| 0 <= q < k && (#[trigger] spans@[q]).0 == y,
            forall|y: u32, x: int|
                #[trigger] row_covers(rows@, y, x) <==> exists|q: int|
                    0 <= q < k && (#[trigger] spans@[q]).0 == y && covers(spans@[q].1@, x),
        decreases spans@.len() - k,
    {
        let y = spans[k].0;
        let mut intervals = copy_intervals(&spans[k].1);
        let ghost original = intervals@;
        merge_intervals(&mut intervals);
        proof {
            if original.len() >= 2 {
                lemma_merged_disjoint(intervals@);
                reveal(super::matching::same_cover);
            }
            assert(forall|x: int| covers(intervals@, x) <==> covers(original, x));
        }
        let ghost before = rows@;
        if intervals.len() > 0 {
            rows.insert(y, intervals);
        }
        proof {
            assert(!before.contains_key(y));
            assert forall|y2: u32, x: int|
                #[trigger] row_covers(rows@, y2, x) <==> exists|q: int|
                    0 <= q < k + 1 && (#[trigger] spans@[q]).0 == y2 && covers(spans@[q].1@, x) by {
                if y2 == y {
                    if exists|q: int| 0 <= q < k && (#[trigger] spans@[q]).0 == y2 && covers(spans@[q].1@, x) {
                        let q = choose|q: int| 0 <= q < k && (#[trigger] spans@[q]).0 == y2 && covers(spans@[q].1@, x);
                        assert(spans@[q].0 < spans@[k as int].0);
                    }
                    if covers(spans@[k as int].1@, x) {
                        assert(covers(original, x));
                    }
                } else {
                    assert(row_covers(before, y2, x) == row_covers(rows@, y2, x));
                }
            }
            assert forall|y2: u32| #[trigger] rows@.contains_key(y2) implies exists|q: int| 0 <= q < k + 1 && (#[trigger] spans@[q]).0 == y2 by {
                if y2 != y {
                    assert(before.contains_key(y2));
                } else {
                    assert(spans@[k as int].0 == y2);
                }
            }
        }
        k = k + 1;
    }
    rows
}

/// Whether the polygon with rings `rings` (its outline first, then its
/// holes) holds point `x` of row `y`: the outline does and no hole does.
pub open spec fn polygon_covers(rings: Seq<BTreeMap<u32, Vec<(u32, u32)>>>, y: u32, x: int) -> bool {
    &&& rings.len() > 0
    &&& row_covers(rings[0]@, y, x)
    &&& !exists|h: int| 1 <= h < rings.len() && row_covers((#[trigger] rings[h])@, y, x)
}

/// The rows of a polygon given the rows of its rings, its outline first and
/// then its holes: the outline's intervals less those of the holes, where
/// any remain.
pub fn polygon_rows(rings: &Vec<BTreeMap<u32, Vec<(u32, u32)>>>) -> (r: BTreeMap<u32, Vec<(u32, u32)>>)
    requires
        forall|i: int| 0 <= i < rings@.len() ==> rows_shaped((#[trigger] rings@[i])@),
    ensures
        rows_shaped(r@),
        forall|y: u32, x: int| #[trigger] row_covers(r@, y, x) <==> polygon_covers(rings@, y, x),
{
    if rings.len() == 0 {
        return BTreeMap::new();
    }
    let mut rows = rings[0].clone();
    let mut h: usize = 1;
    while h < rings.len()
        invariant
            1 <= h <= rings@.len(),
            forall|i: int| 0 <= i < rings@.len() ==> rows_shaped((#[trigger] rings@[i])@),
            rows_shaped(rows@),
            forall|y: u32, x: int|
                #[trigger] row_covers(rows@, y, x) <==> (row_covers(rings@[0]@, y, x) && !exists|g: int|
                    1 <= g < h && row_covers((#[trigger] rings@[g])@, y, x)),
        decreases rings@.len() - h,
    {
        let hole = &rings[h];
        let ghost hm = hole@;
        let ghost start = rows@;
        let ghost mut seen: Set<u32> = Set::empty();
        assert(rows_shaped(hm));
        for (y, hole_intervals) in it: hole.iter()
            invariant
                hm == hole@,
                rows_shaped(hm),
                rows_shaped(rows@),
                forall|j: int|
                    0 <= j < it.seq().len() ==> hm.contains_key(*(#[trigger] it.seq()[j]).0) && hm[*it.seq()[j].0]
                        == *it.seq()[j].1,
                forall|q: u32| #[trigger] seen.contains(q) ==> hm.contains_key(q),
                forall|q: u32|
                    #[trigger] hm.contains_key(q) && !seen.contains(q) ==> exists|j: int|
                        it.index() <= j < it.seq().len() && *(#[trigger] it.seq()[j]).0 == q,
                forall|y2: u32, x: int|
                    #[trigger] row_covers(rows@, y2, x) <==> (row_covers(start, y2, x) && !(seen.contains(y2)
                        && row_covers(hm, y2, x))),
        {
            let ghost k = it.index();
            let ghost sq = it.seq();
            assert(hm.contains_key(*sq[k].0) && hm[*sq[k].0] == *sq[k].1);
            let ghost before = rows@;
            let cut: Option<Vec<(u32, u32)>> = match rows.get(y) {
                Some(base) => Some(subtract_intervals(base.as_slice(), hole_intervals.as_slice())),
                None => None,
            };
            match cut {
                Some(c) => {
                    if c.len() == 0 {
                        rows.remove(y);
                    } else {
                        rows.insert(*y, c);
                    }
                },
                None => {},
            }
            proof {
                let old_seen = seen;
                seen = seen.insert(*y);
                assert forall|y2: u32, x: int|
                    #[trigger] row_covers(rows@, y2, x) <==> (row_covers(start, y2, x) && !(seen.contains(y2)
                        && row_covers(hm, y2, x))) by {
                    assert(row_covers(before, y2, x) <==> (row_covers(start, y2, x) && !(old_seen.contains(y2)
                        && row_covers(hm, y2, x))));
                    if y2 == *y && before.contains_key(y2) {
                        assert(super::matching::difference_point(cut->Some_0@, before[y2]@, hm[y2]@, x));
                    }
                }
                assert forall|q: u32| #[trigger] hm.contains_key(q) && !seen.contains(q) implies exists|j: int|
                    k + 1 <= j < sq.len() && *(#[trigger] sq[j]).0 == q by {
                    assert(!old_seen.contains(q));
                    let j = choose|j: int| k <= j < sq.len() && *(#[trigger] sq[j]).0 == q;
                    assert(j != k);
                }
            }
        }
        proof {
            assert forall|y: u32, x: int|
                #[trigger] row_covers(rows@, y, x) <==> (row_covers(rings@[0]@, y, x) && !exists|g: int|
                    1 <= g < h + 1 && row_covers((#[trigger] rings@[g])@, y, x)) by {
                if hm.contains_key(y) {
                    assert(seen.contains(y));
                }
            }
        }
        h = h + 1;
    }
    rows
}

proof fn lemma_covers_concat(a: Seq<(u32, u32)>, b: Seq<(u32, u32)>, x: int)
    ensures
        covers(a + b, x) <==> covers(a, x) || covers(b, x),
{
    if covers(a, x) {
        let k = choose|k: int| 0 <= k < a.len() && (#[trigger] a[k]).0 <= x < a[k].1;
        assert((a + b)[k] == a[k]);
    }
    if covers(b, x) {
        let k = choose|k: int| 0 <= k < b.len() && (#[trigger] b[k]).0 <= x < b[k].1;
        assert((a + b)[a.len() + k] == b[k]);
    }
    if covers(a + b, x) {
        let k = choose|k: int| 0 <= k < (a + b).len() && (#[trigger] (a + b)[k]).0 <= x < (a + b)[k].1;
        if k < a.len() {
            assert((a + b)[k] == a[k]);
        } else {
            assert((a + b)[k] == b[k - a.len()]);
        }
    }
}

/// Adds the rows of `source` to those of `destination`, merging the
/// intervals of each row that both hold.
pub fn merge_row_interval_maps(destination: &mut BTreeMap<u32, Vec<(u32, u32)>>, source: BTreeMap<u32, Vec<(u32, u32)>>)
    requires
        rows_shaped(old(destination)@),
        rows_shaped(source@),
    ensures
        rows_shaped(final(destination)@),
        forall|y: u32, x: int|
            #[trigger] row_covers(final(destination)@, y, x) <==> row_covers(old(destination)@, y, x) || row_covers(
                source@,
                y,
                x,
            ),
{
    let ghost start = destination@;
    let ghost sm = source@;
    let ghost mut seen: Set<u32> = Set::empty();
    for (y, intervals) in it: source.iter()
        invariant
            sm == source@,
            rows_shaped(sm),
            rows_shaped(destination@),
            forall|j: int|
                0 <= j < it.seq().len() ==> sm.contains_key(*(#[trigger] it.seq()[j]).0) && sm[*it.seq()[j].0]
                    == *it.seq()[j].1,
            forall|q: u32| #[trigger] seen.contains(q) ==> sm.contains_key(q),
            forall|q: u32|
                #[trigger] sm.contains_key(q) && !seen.contains(q) ==> exists|j: int|
                    it.index() <= j < it.seq().len() && *(#[trigger] it.seq()[j]).0 == q,
            forall|y2: u32, x: int|
                #[trigger] row_covers(destination@, y2, x) <==> row_covers(start, y2, x) || (seen.contains(y2)
                    && row_covers(sm, y2, x)),
    {
        let ghost k = it.index();
        let ghost sq = it.seq();
        assert(sm.contains_key(*sq[k].0) && sm[*sq[k].0] == *sq[k].1);
        let ghost before = destination@;
        let mut row: Vec<(u32, u32)> = match destination.remove(y) {
            Some(v) => v,
            None => Vec::new(),
        };
        let ghost old_row = row@;
        assert(before.contains_key(*y) ==> old_row == before[*y]@);
        let mut q: usize = 0;
        while q < intervals.len()
            invariant
                q <= intervals@.len(),
                row@ == old_row + intervals@.take(q as int),
            decreases intervals@.len() - q,
        {
            row.push(intervals[q]);
            assert(row@ =~= old_row + intervals@.take(q + 1));
            q = q + 1;
        }
        assert(intervals@.take(intervals@.len() as int) =~= intervals@);
        let ghost combined = row@;
        proof {
            assert forall|i: int| 0 <= i < combined.len() implies (#[trigger] combined[i]).0 < combined[i].1 by {
                if i < old_row.len() {
                    assert(combined[i] == old_row[i]);
                } else {
                    assert(combined[i] == intervals@[i - old_row.len()]);
                }
            }
        }
        merge_intervals(&mut row);
        proof {
            assert(sm[*y]@ == intervals@);
            assert(intervals@.len() > 0);
            if combined.len() >= 2 {
                lemma_merged_disjoint(row@);
                reveal(super::matching::same_cover);
            } else {
                assert(combined.len() == 1);
            }
            assert(forall|x: int| covers(row@, x) <==> covers(combined, x));
            assert(covers(combined, combined[0].0 as int));
            assert(covers(row@, combined[0].0 as int));
            assert(row@.len() > 0);
            assert(disjoint_sorted(row@));
        }
        destination.insert(*y, row);
        proof {
            let old_seen = seen;
            seen = seen.insert(*y);
            assert forall|y2: u32, x: int|
                #[trigger] row_covers(destination@, y2, x) <==> row_covers(start, y2, x) || (seen.contains(y2)
                    && row_covers(sm, y2, x)) by {
                assert(row_covers(before, y2, x) <==> row_covers(start, y2, x) || (old_seen.contains(y2)
                    && row_covers(sm, y2, x)));
                if y2 == *y {
                    lemma_covers_concat(old_row, intervals@, x);
                    assert(covers(destination@[y2]@, x) <==> covers(combined, x));
                }
            }
            assert forall|q2: u32| #[trigger] sm.contains_key(q2) && !seen.contains(q2) implies exists|j: int|
                k + 1 <= j < sq.len() && *(#[trigger] sq[j]).0 == q2 by {
                assert(!old_seen.contains(q2));
                let j = choose|j: int| k <= j < sq.len() && *(#[trigger] sq[j]).0 == q2;
                assert(j != k);
            }
        }
    }
    proof {
        assert forall|y: u32, x: int|
            #[trigger] row_covers(destination@, y, x) <==> row_covers(start, y, x) || row_covers(sm, y, x) by {
            if sm.contains_key(y) {
                assert(seen.contains(y));
            }
        }
    }
}

/// Whether some polygon of `polygons` holds point `x` of row `y`.
pub open spec fn geometry_covers(polygons: Seq<Vec<BTreeMap<u32, Vec<(u32, u32)>>>>, y: u32, x: int) -> bool {
    exists|p: int| 0 <= p < polygons.len() && polygon_covers((#[trigger] polygons[p])@, y, x)
}

/// The rows of a geometry made of `polygons`, each given by the rows of its
/// rings: the union of what the polygons hold, row by row.
pub fn geometry_rows(polygons: &Vec<Vec<BTreeMap<u32, Vec<(u32, u32)>>>>) -> (r: BTreeMap<u32, Vec<(u32, u32)>>)
    requires
        forall|p: int, i: int|
            0 <= p < polygons@.len() && 0 <= i < polygons@[p]@.len() ==> rows_shaped((#[trigger] polygons@[p]@[i])@),
    ensures
        rows_shaped(r@),
        forall|y: u32, x: int| #[trigger] row_covers(r@, y, x) <==> geometry_covers(polygons@, y, x),
{
    let mut rows: BTreeMap<u32, Vec<(u32, u32)>> = BTreeMap::new();
    let mut p: usize = 0;
    while p < polygons.len()
        invariant
            p <= polygons@.len(),
            forall|p2: int, i: int|
                0 <= p2 < polygons@.len() && 0 <= i < polygons@[p2]@.len() ==> rows_shaped((#[trigger] polygons@[p2]@[i])@),
            rows_shaped(rows@),
            forall|y: u32, x: int|
                #[trigger] row_covers(rows@, y, x) <==> exists|q: int|
                    0 <= q < p && polygon_covers((#[trigger] polygons@[q])@, y, x),
        decreases polygons@.len() - p,
    {
        let polygon = polygon_rows(&polygons[p]);
        let ghost before = rows@;
        let ghost pm = polygon@;
        merge_row_interval_maps(&mut rows, polygon);
        proof {
            assert forall|y: u32, x: int|
                #[trigger] row_covers(rows@, y, x) <==> exists|q: int|
                    0 <= q < p + 1 && polygon_covers((#[trigger] polygons@[q])@, y, x) by {
                assert(row_covers(pm, y, x) <==> polygon_covers(polygons@[p as int]@, y, x));
                assert(row_covers(before, y, x) <==> exists|q: int|
                    0 <= q < p && polygon_covers((#[trigger] polygons@[q])@, y, x));
            }
        }
        p = p + 1;
    }
    rows
}

/// Whether run `a` comes before or with `b`: by start, then end, then value.
pub open spec fn segment_le(a: RowSegment, b: RowSegment) -> bool {
    a.start_x < b.start_x || (a.start_x == b.start_x && (a.end_x < b.end_x || (a.end_x == b.end_x && a.value
        <= b.value)))
}

/// Whether the runs are sorted by start, then end, then value.
pub open spec fn segments_sorted(s: Seq<RowSegment>) -> bool {
    forall|i: int, j: int| 0 <= i < j < s.len() ==> segment_le(#[trigger] s[i], #[trigger] s[j])
}

/// The key that runs are sorted by: start, end, value.
fn segment_key(segment: &RowSegment) -> (r: (u32, u32, u32))
    ensures
        r == (segment.start_x, segment.end_x, segment.value),
{
    (segment.start_x, segment.end_x, segment.value)
}

/// Sorts runs by start, then end, then value, with `slice::sort_by_key`.
#[verifier::external_body]
fn sort_segments(row: &mut Vec<RowSegment>)
    ensures
        final(row)@.to_multiset() == old(row)@.to_multiset(),
        segments_sorted(final(row)@),
{
    row.sort_by_key(|segment| segment_key(segment));
}

/// The runs of `s` after joining each run to the one before it where both
/// have the same value and the later one starts no later than the earlier
/// one ends.
pub open spec fn merge_runs(s: Seq<RowSegment>) -> Seq<RowSegment>
    decreases s.len(),
{
    if s.len() <= 1 {
        s
    } else {
        let m = merge_runs(s.drop_last());
        let c = m.last();
        let x = s.last();
        if x.value == c.value && x.start_x <= c.end_x {
            m.update(
                m.len() - 1,
                RowSegment { start_x: c.start_x, end_x: if c.end_x < x.end_x { x.end_x } else { c.end_x }, value: c.value },
            )
        } else {
            m.push(x)
        }
    }
}

/// Joins each run to the one before it where both have the same value and
/// the later one starts no later than the earlier one ends.
pub fn merge_same_value_segments(row: &mut Vec<RowSegment>)
    ensures
        final(row)@ == merge_runs(old(row)@),
{
    if row.len() < 2 {
        return;
    }
    let ghost s = row@;
    let mut merged: Vec<RowSegment> = Vec::new();
    let mut current = row[0];
    let mut i: usize = 1;
    assert(s.take(1) =~= seq![s[0]]);
    assert(merged@.push(current) =~= seq![current]);
    while i < row.len()
        invariant
            s == row@,
            1 <= i <= s.len(),
            merged@.push(current) == merge_runs(s.take(i as int)),
        decreases s.len() - i,
    {
        let segment = row[i];
        proof {
            assert(s.take(i + 1).drop_last() =~= s.take(i as int));
            assert(s.take(i + 1).last() == segment);
            assert(merge_runs(s.take(i as int)).last() == current);
        }
        if segment.value == current.value && segment.start_x <= current.end_x {
            let end_x = if current.end_x < segment.end_x { segment.end_x } else { current.end_x };
            let wider = RowSegment { start_x: current.start_x, end_x, value: current.value };
            assert(merged@.push(wider) =~= merged@.push(current).update(merged@.len() as int, wider));
            current = wider;
        } else {
            merged.push(current);
            current = segment;
        }
        i = i + 1;
    }
    merged.push(current);
    assert(s.take(s.len() as int) =~= s);
    *row = merged;
}

/// One feature of the current layer: its region, its label, and the rows
/// that its geometry covers.
#[derive(Clone, Debug)]
pub struct CurrentFeature {
    pub region_id: u32,
    pub label: Option<String>,
    pub rows: BTreeMap<u32, Vec<(u32, u32)>>,
}

/// The runs that feature `f` puts on row `y`, in the order of its intervals.
pub open spec fn feature_row(f: CurrentFeature, y: u32) -> Seq<RowSegment> {
    if f.rows@.contains_key(y) {
        f.rows@[y]@.map_values(|iv: (u32, u32)| RowSegment { start_x: iv.0, end_x: iv.1, value: f.region_id })
    } else {
        Seq::empty()
    }
}

/// The runs that the features put on row `y`, feature after feature.
pub open spec fn raw_row(features: Seq<CurrentFeature>, y: u32) -> Seq<RowSegment>
    decreases features.len(),
{
    if features.len() == 0 {
        Seq::empty()
    } else {
        raw_row(features.drop_last(), y) + feature_row(features.last(), y)
    }
}

/// The runs that the features put on each of the first `height` rows.
pub open spec fn raw_rows(features: Seq<CurrentFeature>, height: u32) -> Seq<Seq<RowSegment>> {
    Seq::new(height as nat, |y: int| raw_row(features, y as u32))
}

/// The label of the first feature of region `id` that has one.
pub open spec fn first_label(features: Seq<CurrentFeature>, id: u32) -> Option<String>
    decreases features.len(),
{
    if features.len() == 0 {
        None
    } else {
        let prev = first_label(features.drop_last(), id);
        if prev is Some {
            prev
        } else if features.last().region_id == id {
            features.last().label
        } else {
            None
        }
    }
}

/// Whether `row` holds the runs `raw` sorted by start, end and value, with
/// `merge_runs` applied.
pub open spec fn row_assembled(row: Seq<RowSegment>, raw: Seq<RowSegment>) -> bool {
    exists|sorted: Seq<RowSegment>|
        #[trigger] segments_sorted(sorted) && sorted.to_multiset() == raw.to_multiset() && row == merge_runs(sorted)
}

proof fn lemma_raw_row_forward(features: Seq<CurrentFeature>, y: u32)
    requires
        forall|k: int| 0 <= k < features.len() ==> rows_shaped((#[trigger] features[k]).rows@),
    ensures
        runs_forward(raw_row(features, y)),
    decreases features.len(),
{
    if features.len() > 0 {
        let rest = features.drop_last();
        assert forall|k: int| 0 <= k < rest.len() implies rows_shaped((#[trigger] rest[k]).rows@) by {
            assert(rest[k] == features[k]);
        }
        lemma_raw_row_forward(rest, y);
        let f = features.last();
        assert(rows_shaped(features[features.len() - 1].rows@));
        let a = raw_row(rest, y);
        let b = feature_row(f, y);
        assert forall|i: int| 0 <= i < (a + b).len() implies (#[trigger] (a + b)[i]).start_x <= (a + b)[i].end_x by {
            if i < a.len() {
                assert((a + b)[i] == a[i]);
            } else {
                assert((a + b)[i] == b[i - a.len()]);
                assert(f.rows@.contains_key(y));
                assert(disjoint_sorted(f.rows@[y]@));
                assert(f.rows@[y]@[i - a.len()].0 < f.rows@[y]@[i - a.len()].1);
            }
        }
    }
}

/// The current layer that `features` make on a grid of `height` rows: the
/// runs that the features put on each row, sorted by start, end and value,
/// with `merge_same_value_segments` applied; the ids of all features; the
/// area of each region, the width of its runs before they are joined; and
/// the label of the first feature of each region that has one.
pub fn assemble_current_layer(features: &Vec<CurrentFeature>, height: u32) -> (layer: CurrentLayer)
    requires
        forall|k: int| 0 <= k < features@.len() ==> rows_shaped((#[trigger] features@[k]).rows@),
        forall|k: int, y: u32| 0 <= k < features@.len() && #[trigger] features@[k].rows@.contains_key(y) ==> y < height,
        forall|v: u32| #[trigger] rows_area(raw_rows(features@, height), v) <= u64::MAX,
    ensures
        layer.rows@.len() == height,
        forall|y: int| 0 <= y < height ==> row_assembled((#[trigger] layer.rows@[y])@, raw_row(features@, y as u32)),
        forall|id: u32|
            layer.region_ids@.contains(id) <==> exists|k: int| 0 <= k < features@.len() && (#[trigger] features@[k]).region_id == id,
        layer.areas@ == region_area_map(raw_rows(features@, height)),
        forall|id: u32| #[trigger] label_of(layer.labels@, id) == first_label(features@, id),
{
    let mut rows: Vec<Vec<RowSegment>> = Vec::new();
    let mut y: u32 = 0;
    while y < height
        invariant
            y <= height,
            rows@.len() == y,
            forall|q: int| 0 <= q < y ==> (#[trigger] rows@[q])@ == Seq::<RowSegment>::empty(),
        decreases height - y,
    {
        rows.push(Vec::new());
        y = y + 1;
    }
    let mut region_ids: BTreeSet<u32> = BTreeSet::new();
    let mut labels: BTreeMap<u32, String> = BTreeMap::new();
    let ghost fs = features@;
    let mut k: usize = 0;
    assert(fs.take(0) =~= Seq::<CurrentFeature>::empty());
    while k < features.len()
        invariant
            fs == features@,
            k <= fs.len(),
            forall|q: int| 0 <= q < fs.len() ==> rows_shaped((#[trigger] fs[q]).rows@),
            forall|q: int, yy: u32| 0 <= q < fs.len() && #[trigger] fs[q].rows@.contains_key(yy) ==> yy < height,
            rows@.len() == height,
            forall|yy: int| 0 <= yy < height ==> (#[trigger] rows@[yy])@ == raw_row(fs.take(k as int), yy as u32),
            forall|id: u32| region_ids@.contains(id) <==> exists|q: int| 0 <= q < k && (#[trigger] fs[q]).region_id == id,
            forall|id: u32| #[trigger] label_of(labels@, id) == first_label(fs.take(k as int), id),
        decreases fs.len() - k,
    {
        let f = &features[k];
        let ghost fk = fs[k as int];
        assert(*f == fk);
        assert(fs.take(k + 1).drop_last() =~= fs.take(k as int));
        assert(fs.take(k + 1).last() == fk);
        region_ids.insert(f.region_id);
        let ghost labels_before = labels@;
        match &f.label {
            Some(l) => {
                if !labels.contains_key(&f.region_id) {
                    labels.insert(f.region_id, l.clone());
                }
            },
            None => {},
        }
        proof {
            assert forall|id: u32| #[trigger] label_of(labels@, id) == first_label(fs.take(k + 1), id) by {
                assert(label_of(labels_before, id) == first_label(fs.take(k as int), id));
            }
            assert forall|id: u32| region_ids@.contains(id) <==> exists|q: int| 0 <= q < k + 1 && (#[trigger] fs[q]).region_id == id by {
                if id == fk.region_id {
                    assert(fs[k as int].region_id == id);
                }
            }
        }
        let ghost fm = f.rows@;
        let ghost start = rows@;
        let ghost mut seen: Set<u32> = Set::empty();
        assert(rows_shaped(fm));
        for (row_y, intervals) in it: f.rows.iter()
            invariant
                fs == features@,
                k < fs.len(),
                fk == fs[k as int],
                fm == fk.rows@,
                *f == fk,
                forall|q: int, yy: u32| 0 <= q < fs.len() && #[trigger] fs[q].rows@.contains_key(yy) ==> yy < height,
                rows@.len() == height,
                start.len() == height,
                forall|j: int|
                    0 <= j < it.seq().len() ==> fm.contains_key(*(#[trigger] it.seq()[j]).0) && fm[*it.seq()[j].0]
                        == *it.seq()[j].1,
                forall|yy: int|
                    0 <= yy < height ==> (#[trigger] rows@[yy])@ == start[yy]@ + if seen.contains(yy as u32) {
                        feature_row(fk, yy as u32)
                    } else {
                        Seq::<RowSegment>::empty()
                    },
                forall|q: u32| #[trigger] seen.contains(q) ==> fm.contains_key(q),
                forall|q: u32|
                    #[trigger] seen.contains(q) ==> exists|j: int| 0 <= j < it.index() && *(#[trigger] it.seq()[j]).0 == q,
                it.seq().no_duplicates(),
                forall|q: u32|
                    #[trigger] fm.contains_key(q) && !seen.contains(q) ==> exists|j: int|
                        it.index() <= j < it.seq().len() && *(#[trigger] it.seq()[j]).0 == q,
        {
            let ghost x = it.index();
            let ghost sq = it.seq();
            assert(fm.contains_key(*sq[x].0) && fm[*sq[x].0] == *sq[x].1);
            let ghost yv = *row_y;
            assert(fs[k as int].rows@.contains_key(yv));
            assert(!seen.contains(yv)) by {
                if seen.contains(yv) {
                    let j = choose|j: int| 0 <= j < x && *(#[trigger] sq[j]).0 == yv;
                    assert(fm.contains_key(*sq[j].0) && fm[*sq[j].0] == *sq[j].1);
                    assert(sq[j] == sq[x]);
                }
            }
            let ry = *row_y as usize;
            let ghost pre = rows@;
            let mut q: usize = 0;
            while q < intervals.len()
                invariant
                    ry == yv,
                    yv < height,
                    rows@.len() == height,
                    pre.len() == height,
                    fm.contains_key(yv),
                    fm[yv]@ == intervals@,
                    q <= intervals@.len(),
                    forall|yy: int| 0 <= yy < height && yy != ry ==> (#[trigger] rows@[yy]) == pre[yy],
                    rows@[ry as int]@ == pre[ry as int]@ + feature_row(fk, yv).take(q as int),
                    fm == fk.rows@,
                    f.region_id == fk.region_id,
                decreases intervals@.len() - q,
            {
                let (start_x, end_x) = intervals[q];
                let ghost before_push = rows@;
                let seg = RowSegment { start_x, end_x, value: f.region_id };
                rows[ry].push(seg);
                assert(rows@[ry as int]@ == before_push[ry as int]@.push(seg));
                assert(forall|yy: int| 0 <= yy < height && yy != ry ==> rows@[yy] == before_push[yy]);
                assert(feature_row(fk, yv).take(q + 1) =~= feature_row(fk, yv).take(q as int).push(
                    RowSegment { start_x, end_x, value: fk.region_id },
                ));
                assert(rows@[ry as int]@ =~= pre[ry as int]@ + feature_row(fk, yv).take(q + 1));
                q = q + 1;
            }
            proof {
                assert(feature_row(fk, yv).take(intervals@.len() as int) =~= feature_row(fk, yv));
                let old_seen = seen;
                seen = seen.insert(yv);
                assert forall|q2: u32| #[trigger] seen.contains(q2) implies exists|j: int| 0 <= j < x + 1 && *(#[trigger] sq[j]).0 == q2 by {
                    if q2 == yv {
                        assert(*sq[x].0 == q2);
                    } else {
                        let j = choose|j: int| 0 <= j < x && *(#[trigger] sq[j]).0 == q2;
                        assert(0 <= j < x + 1);
                    }
                }
                assert forall|yy: int|
                    0 <= yy < height implies (#[trigger] rows@[yy])@ == start[yy]@ + if seen.contains(yy as u32) {
                        feature_row(fk, yy as u32)
                    } else {
                        Seq::<RowSegment>::empty()
                    } by {
                    assert(pre[yy]@ == start[yy]@ + if old_seen.contains(yy as u32) {
                        feature_row(fk, yy as u32)
                    } else {
                        Seq::<RowSegment>::empty()
                    });
                    if yy == ry {
                        assert(start[yy]@ + Seq::<RowSegment>::empty() =~= start[yy]@);
                    }
                }
                assert forall|q2: u32| #[trigger] fm.contains_key(q2) && !seen.contains(q2) implies exists|j: int|
                    x + 1 <= j < sq.len() && *(#[trigger] sq[j]).0 == q2 by {
                    assert(!old_seen.contains(q2));
                    let j = choose|j: int| x <= j < sq.len() && *(#[trigger] sq[j]).0 == q2;
                    assert(j != x);
                }
            }
        }
        proof {
            assert forall|yy: int| 0 <= yy < height implies (#[trigger] rows@[yy])@ == raw_row(fs.take(k + 1), yy as u32) by {
                if fm.contains_key(yy as u32) {
                    assert(seen.contains(yy as u32));
                } else {
                    assert(start[yy]@ + Seq::<RowSegment>::empty() =~= start[yy]@);
                    assert(raw_row(fs.take(k as int), yy as u32) + feature_row(fk, yy as u32) =~= raw_row(fs.take(k as int), yy as u32));
                }
            }
        }
        k = k + 1;
    }
    assert(fs.take(fs.len() as int) =~= fs);
    proof {
        assert(segment_rows_view(rows@) =~= raw_rows(fs, height));
        assert forall|q: int| 0 <= q < rows@.len() implies runs_forward(#[trigger] segment_rows_view(rows@)[q]) by {
            lemma_raw_row_forward(fs, q as u32);
        }
    }
    let areas = sum_region_areas(&rows);
    let mut i: usize = 0;
    while i < rows.len()
        invariant
            fs == features@,
            rows@.len() == height,
            i <= height,
            forall|q: int| 0 <= q < i ==> row_assembled((#[trigger] rows@[q])@, raw_row(fs, q as u32)),
            forall|q: int| i <= q < height ==> (#[trigger] rows@[q])@ == raw_row(fs, q as u32),
        decreases height - i,
    {
        let ghost raw = rows@[i as int]@;
        let ghost pre = rows@;
        sort_segments(&mut rows[i]);
        let ghost sorted = rows@[i as int]@;
        merge_same_value_segments(&mut rows[i]);
        proof {
            assert(segments_sorted(sorted) && sorted.to_multiset() == raw.to_multiset() && rows@[i as int]@ == merge_runs(sorted));
            assert forall|q: int| 0 <= q < height && q != i implies (#[trigger] rows@[q]) == pre[q] by {}
        }
        i = i + 1;
    }
    CurrentLayer { rows, region_ids, areas, labels }
}

} // verus!
