//! Decoding scanlines into runs of one value, and stacking equal runs of
//! consecutive rows into rectangles.
use std::collections::BTreeMap;
use vstd::prelude::*;
use super::{Breakpoint, PabrMap, PabrError, RowSegment, GeoJsonExportSummary};
use super::parse::rows_view;
use super::render::{folded_region_ids, reached, band_global, row_offset_spec};
use super::util::{mode_value, is_mode32, occurrences, sample_source_row, sample_source_row_spec};

verus! {

broadcast use vstd::laws_cmp::group_laws_cmp, vstd::std_specs::btree::group_btree_axioms;

/// Which region group each region belongs to, and the regions of each group.
#[derive(Clone, Debug)]
pub struct RegionGroupMapping {
    pub region_to_group: BTreeMap<u16, u16>,
    pub group_to_regions: BTreeMap<u16, Vec<u16>>,
}

impl RegionGroupMapping {
    /// The region group of a region, if it has one.
    pub fn region_group_for_region(&self, region_id: u16) -> (r: Option<u16>)
        ensures
            r == (if self.region_to_group@.contains_key(region_id) {
                Some(self.region_to_group@[region_id])
            } else {
                None::<u16>
            }),
    {
        match self.region_to_group.get(&region_id) {
            Some(group) => Some(*group),
            None => None,
        }
    }
}

/// The group of region `r` in `pairs` of region and group: that of the last
/// pair for `r`.
pub open spec fn group_of(pairs: Seq<(u16, u16)>, r: u16) -> Option<u16>
    decreases pairs.len(),
{
    if pairs.len() == 0 {
        None
    } else if pairs.last().0 == r {
        Some(pairs.last().1)
    } else {
        group_of(pairs.drop_last(), r)
    }
}

/// The regions of group `g` in `pairs` of region and group, in order.
pub open spec fn regions_of(pairs: Seq<(u16, u16)>, g: u16) -> Seq<u16>
    decreases pairs.len(),
{
    if pairs.len() == 0 {
        Seq::empty()
    } else {
        let rest = regions_of(pairs.drop_last(), g);
        if pairs.last().1 == g { rest.push(pairs.last().0) } else { rest }
    }
}

/// A region is listed under a group exactly where that group is the
/// region's: where each region comes in one pair at most, `regions_of`
/// and `group_of` describe the same pairs from both sides.
pub proof fn law_group_lists_match_groups(pairs: Seq<(u16, u16)>, g: u16, r: u16)
    requires
        forall|i: int, j: int| 0 <= i < j < pairs.len() ==> (#[trigger] pairs[i]).0 != (#[trigger] pairs[j]).0,
    ensures
        regions_of(pairs, g).contains(r) <==> group_of(pairs, r) == Some(g),
    decreases pairs.len(),
{
    if pairs.len() > 0 {
        let rest = pairs.drop_last();
        assert forall|i: int, j: int| 0 <= i < j < rest.len() implies (#[trigger] rest[i]).0 != (#[trigger] rest[j]).0 by {
            assert(rest[i] == pairs[i] && rest[j] == pairs[j]);
        }
        law_group_lists_match_groups(rest, g, r);
        let last = pairs.last();
        let rr = regions_of(rest, g);
        if last.0 == r {
            lemma_group_of_absent(rest, r);
            assert(group_of(rest, r) is None) by {
                assert forall|i: int| 0 <= i < rest.len() implies rest[i].0 != r by {
                    assert(pairs[i].0 != pairs[pairs.len() - 1].0);
                }
            }
            assert(!rr.contains(r));
            if last.1 == g {
                assert(regions_of(pairs, g) == rr.push(r));
                assert(regions_of(pairs, g)[rr.len() as int] == r);
            }
        } else if last.1 == g {
            assert(regions_of(pairs, g) == rr.push(last.0));
            if regions_of(pairs, g).contains(r) {
                let k = choose|k: int| 0 <= k < regions_of(pairs, g).len() && regions_of(pairs, g)[k] == r;
                assert(k < rr.len());
                assert(rr[k] == r);
            }
            if rr.contains(r) {
                let k = choose|k: int| 0 <= k < rr.len() && rr[k] == r;
                assert(regions_of(pairs, g)[k] == r);
            }
        }
    }
}

/// A region that no pair names has no group.
proof fn lemma_group_of_absent(pairs: Seq<(u16, u16)>, r: u16)
    ensures
        (forall|i: int| 0 <= i < pairs.len() ==> (#[trigger] pairs[i]).0 != r) ==> group_of(pairs, r) is None,
    decreases pairs.len(),
{
    if pairs.len() > 0 {
        let rest = pairs.drop_last();
        lemma_group_of_absent(rest, r);
        if forall|i: int| 0 <= i < pairs.len() ==> (#[trigger] pairs[i]).0 != r {
            assert forall|i: int| 0 <= i < rest.len() implies (#[trigger] rest[i]).0 != r by {
                assert(rest[i] == pairs[i]);
            }
            assert(pairs[pairs.len() - 1].0 != r);
        }
    }
}

impl RegionGroupMapping {
    /// The mapping given by pairs of region and group; a later pair for the
    /// same region wins, and each group lists its regions in order.
    pub fn from_pairs(pairs: &[(u16, u16)]) -> (r: RegionGroupMapping)
        ensures
            forall|region: u16| #![trigger r.region_to_group@.contains_key(region)]
                (r.region_to_group@.contains_key(region) <==> group_of(pairs@, region) is Some)
                && (r.region_to_group@.contains_key(region) ==> group_of(pairs@, region) == Some(r.region_to_group@[region])),
            forall|g: u16| #![trigger r.group_to_regions@.contains_key(g)]
                (r.group_to_regions@.contains_key(g) <==> regions_of(pairs@, g).len() > 0)
                && (r.group_to_regions@.contains_key(g) ==> r.group_to_regions@[g]@ == regions_of(pairs@, g)),
    {
        let mut region_to_group: BTreeMap<u16, u16> = BTreeMap::new();
        let mut group_to_regions: BTreeMap<u16, Vec<u16>> = BTreeMap::new();
        let mut i: usize = 0;
        assert(pairs@.take(0) =~= Seq::<(u16, u16)>::empty());
        while i < pairs.len()
            invariant
                i <= pairs@.len(),
                forall|region: u16| #![trigger region_to_group@.contains_key(region)]
                    (region_to_group@.contains_key(region) <==> group_of(pairs@.take(i as int), region) is Some)
                    && (region_to_group@.contains_key(region) ==> group_of(pairs@.take(i as int), region) == Some(region_to_group@[region])),
                forall|g: u16| #![trigger group_to_regions@.contains_key(g)]
                    (group_to_regions@.contains_key(g) <==> regions_of(pairs@.take(i as int), g).len() > 0)
                    && (group_to_regions@.contains_key(g) ==> group_to_regions@[g]@ == regions_of(pairs@.take(i as int), g)),
            decreases pairs@.len() - i,
        {
            let (region, group) = pairs[i];
            let ghost before_groups = group_to_regions@;
            let ghost before_regions = region_to_group@;
            assert(pairs@.take(i + 1).drop_last() =~= pairs@.take(i as int));
            region_to_group.insert(region, group);
            let mut list = match group_to_regions.remove(&group) {
                Some(l) => l,
                None => Vec::new(),
            };
            list.push(region);
            group_to_regions.insert(group, list);
            proof {
                assert forall|g: u16| #![trigger group_to_regions@.contains_key(g)]
                    (group_to_regions@.contains_key(g) <==> regions_of(pairs@.take(i + 1), g).len() > 0)
                    && (group_to_regions@.contains_key(g) ==> group_to_regions@[g]@ == regions_of(pairs@.take(i + 1), g)) by {
                    if g != group {
                        assert(group_to_regions@.contains_key(g) == before_groups.contains_key(g));
                    } else if !before_groups.contains_key(g) {
                        assert(regions_of(pairs@.take(i as int), g).len() == 0);
                    }
                }
                assert forall|region2: u16| #![trigger region_to_group@.contains_key(region2)]
                    (region_to_group@.contains_key(region2) <==> group_of(pairs@.take(i + 1), region2) is Some)
                    && (region_to_group@.contains_key(region2) ==> group_of(pairs@.take(i + 1), region2) == Some(region_to_group@[region2])) by {
                    if region2 != region {
                        assert(region_to_group@.contains_key(region2) == before_regions.contains_key(region2));
                    }
                }
            }
            i = i + 1;
        }
        assert(pairs@.take(pairs@.len() as int) =~= pairs@);
        RegionGroupMapping { region_to_group, group_to_regions }
    }
}

/// The value a region id stands for: itself, or with a mapping its region
/// group, where it has one.
pub open spec fn mapped_value(mapping: Option<RegionGroupMapping>, region_id: u16) -> Option<u32> {
    match mapping {
        None => Some(region_id as u32),
        Some(m) => if m.region_to_group@.contains_key(region_id) {
            Some(m.region_to_group@[region_id] as u32)
        } else {
            None
        },
    }
}

/// The values that a list of region ids stands for, skipping those without one.
pub open spec fn mapped_values(mapping: Option<RegionGroupMapping>, ids: Seq<u16>) -> Seq<u32>
    decreases ids.len(),
{
    if ids.len() == 0 {
        Seq::empty()
    } else {
        let rest = mapped_values(mapping, ids.drop_last());
        match mapped_value(mapping, ids.last()) {
            Some(v) => rest.push(v),
            None => rest,
        }
    }
}

/// The most frequent of a non-empty list of values, the smallest on a tie.
pub open spec fn mode32(s: Seq<u32>) -> u32 {
    choose|r: u32| is_mode32(s, r)
}

proof fn lemma_mode32_unique(s: Seq<u32>, a: u32)
    requires
        is_mode32(s, a),
    ensures
        mode32(s) == a,
{
    let b = mode32(s);
    assert(is_mode32(s, b));
    let ia = choose|i: int| 0 <= i < s.len() && s[i] == a;
    let ib = choose|i: int| 0 <= i < s.len() && s[i] == b;
    assert(occurrences(s, s[ib]) <= occurrences(s, a));
    assert(occurrences(s, s[ia]) <= occurrences(s, b));
}

/// The value shown at local x `local_x`: the most frequent value among the
/// bands folded onto it, or none.
pub open spec fn column_value(
    ids: Seq<u16>,
    row: Seq<Breakpoint>,
    local_x: int,
    row_offset: int,
    native_width: int,
    nb: nat,
    mapping: Option<RegionGroupMapping>,
) -> Result<Option<u32>, PabrError> {
    match folded_region_ids(ids, row, local_x, row_offset, native_width, nb) {
        Err(e) => Err(e),
        Ok(folded) => {
            let values = mapped_values(mapping, folded);
            Ok(if values.len() == 0 { None } else { Some(mode32(values)) })
        },
    }
}

/// The runs closed after the first `x` columns, the value of the open run
/// and where it started.
pub open spec fn runs_state(
    ids: Seq<u16>,
    row: Seq<Breakpoint>,
    row_offset: int,
    native_width: int,
    nb: nat,
    mapping: Option<RegionGroupMapping>,
    x: nat,
) -> Result<(Seq<RowSegment>, Option<u32>, u32), PabrError>
    decreases x,
{
    if x == 0 {
        Ok((Seq::empty(), None, 0))
    } else {
        match runs_state(ids, row, row_offset, native_width, nb, mapping, (x - 1) as nat) {
            Err(e) => Err(e),
            Ok((segments, current, start)) => match column_value(ids, row, x - 1, row_offset, native_width, nb, mapping) {
                Err(e) => Err(e),
                Ok(next) => if next != current {
                    let closed = match current {
                        Some(v) => segments.push(RowSegment { start_x: start, end_x: (x - 1) as u32, value: v }),
                        None => segments,
                    };
                    Ok((closed, next, (x - 1) as u32))
                } else {
                    Ok((segments, current, start))
                },
            },
        }
    }
}

impl PabrMap {
    /// The runs of one value along source row `source_row`, across the
    /// native width: each column shows the most frequent value among the
    /// bands folded onto it, and columns with none are gaps.
    pub open spec fn segments_spec(&self, source_row: int, row_shift: u32, mapping: Option<RegionGroupMapping>) -> Result<Seq<RowSegment>, PabrError> {
        let rows = rows_view(self.bkd.rows@);
        if source_row < 0 || source_row >= rows.len() {
            Err(PabrError::SourceRowOutOfBounds(source_row as usize))
        } else if rows[source_row].len() == 0 {
            Ok(Seq::empty())
        } else if self.rid.native_width == 0 {
            Err(PabrError::ZeroNativeWidth)
        } else {
            let nw = self.rid.native_width;
            match runs_state(
                self.rid.region_ids@,
                rows[source_row],
                row_offset_spec(source_row, row_shift, nw),
                nw as int,
                self.bands(),
                mapping,
                nw as nat,
            ) {
                Err(e) => Err(e),
                Ok((segments, current, start)) => Ok(match current {
                    Some(v) => segments.push(RowSegment { start_x: start, end_x: nw, value: v }),
                    None => segments,
                }),
            }
        }
    }
}

proof fn lemma_runs_err_persists(
    ids: Seq<u16>,
    row: Seq<Breakpoint>,
    row_offset: int,
    native_width: int,
    nb: nat,
    mapping: Option<RegionGroupMapping>,
    i: nat,
    j: nat,
    e: PabrError,
)
    requires
        i <= j,
        runs_state(ids, row, row_offset, native_width, nb, mapping, i) == Err::<(Seq<RowSegment>, Option<u32>, u32), PabrError>(e),
    ensures
        runs_state(ids, row, row_offset, native_width, nb, mapping, j) == Err::<(Seq<RowSegment>, Option<u32>, u32), PabrError>(e),
    decreases j - i,
{
    if i < j {
        lemma_runs_err_persists(ids, row, row_offset, native_width, nb, mapping, i, (j - 1) as nat, e);
    }
}

/// The values the region ids stand for.
fn map_region_ids(mapping: Option<&RegionGroupMapping>, ids: &Vec<u16>) -> (r: Vec<u32>)
    ensures
        r@ == mapped_values(
            match mapping {
                Some(m) => Some(*m),
                None => None,
            },
            ids@,
        ),
{
    let ghost m = match mapping {
        Some(m) => Some(*m),
        None => None::<RegionGroupMapping>,
    };
    let mut values: Vec<u32> = Vec::new();
    let mut i: usize = 0;
    while i < ids.len()
        invariant
            i <= ids@.len(),
            m == match mapping {
                Some(mm) => Some(*mm),
                None => None::<RegionGroupMapping>,
            },
            values@ == mapped_values(m, ids@.take(i as int)),
        decreases ids@.len() - i,
    {
        assert(ids@.take(i + 1).drop_last() =~= ids@.take(i as int));
        let id = ids[i];
        let mapped = match mapping {
            None => Some(id as u32),
            Some(mm) => match mm.region_group_for_region(id) {
                Some(g) => Some(g as u32),
                None => None,
            },
        };
        assert(mapped == mapped_value(m, id));
        if let Some(v) = mapped {
            values.push(v);
        }
        i = i + 1;
    }
    assert(ids@.take(ids@.len() as int) =~= ids@);
    values
}

impl PabrMap {
    /// The runs of one value along source row `source_row`.
    pub fn decoded_row_segments(&self, source_row: usize, row_shift: u32, mapping: Option<&RegionGroupMapping>) -> (r: Result<Vec<RowSegment>, PabrError>)
        requires
            source_row * row_shift <= u64::MAX,
        ensures
            match self.segments_spec(source_row as int, row_shift, match mapping {
                Some(m) => Some(*m),
                None => None,
            }) {
                Ok(segments) => r matches Ok(v) && v@ == segments,
                Err(e) => r == Err::<Vec<RowSegment>, PabrError>(e),
            },
    {
        let ghost m = match mapping {
            Some(mm) => Some(*mm),
            None => None::<RegionGroupMapping>,
        };
        if source_row >= self.bkd.rows.len() {
            return Err(PabrError::SourceRowOutOfBounds(source_row));
        }
        let ghost rs = self.bkd.rows@[source_row as int]@;
        let ghost ids = self.rid.region_ids@;
        assert(rows_view(self.bkd.rows@)[source_row as int] == rs);
        if self.bkd.rows[source_row].len() == 0 {
            return Ok(Vec::new());
        }
        let band_count = match self.band_count() {
            Ok(v) => v,
            Err(e) => return Err(e),
        };
        let nw = self.rid.native_width;
        let product: u64 = source_row as u64 * row_shift as u64;
        let row_offset: u32 = (product % (nw as u64)) as u32;
        assert(row_offset == row_offset_spec(source_row as int, row_shift, nw));
        let mut band_positions: Vec<usize> = Vec::new();
        let mut c: usize = 0;
        while c < band_count
            invariant
                c <= band_count,
                band_positions@.len() == c,
                forall|k: int| 0 <= k < c ==> #[trigger] band_positions@[k] == 0,
            decreases band_count - c,
        {
            band_positions.push(0);
            c = c + 1;
        }
        let mut segments: Vec<RowSegment> = Vec::new();
        let mut current_value: Option<u32> = None;
        let mut run_start_x: u32 = 0;
        let mut local_x: u32 = 0;
        while local_x < nw
            invariant
                nw == self.rid.native_width,
                nw > 0,
                local_x <= nw,
                rs == self.bkd.rows@[source_row as int]@,
                rs.len() > 0,
                ids == self.rid.region_ids@,
                source_row < self.bkd.rows@.len(),
                rows_view(self.bkd.rows@)[source_row as int] == rs,
                row_offset < nw,
                row_offset == row_offset_spec(source_row as int, row_shift, nw),
                m == match mapping {
                    Some(mm) => Some(*mm),
                    None => None::<RegionGroupMapping>,
                },
                band_count == self.bands(),
                band_positions@.len() == band_count,
                forall|k: int| 0 <= k < band_positions@.len() ==> {
                    &&& #[trigger] band_positions@[k] < rs.len()
                    &&& reached(rs, band_positions@[k] as int, band_global(local_x as int, row_offset as int, k, nw as int))
                },
                runs_state(ids, rs, row_offset as int, nw as int, self.bands(), m, local_x as nat)
                    == Ok::<(Seq<RowSegment>, Option<u32>, u32), PabrError>((segments@, current_value, run_start_x)),
            decreases nw - local_x,
        {
            let folded = match self.fold_bands(source_row, local_x, row_offset, &mut band_positions) {
                Ok(v) => v,
                Err(e) => {
                    proof {
                        lemma_runs_err_persists(ids, rs, row_offset as int, nw as int, self.bands(), m,
                            (local_x + 1) as nat, nw as nat, e);
                    }
                    return Err(e);
                },
            };
            let values = map_region_ids(mapping, &folded);
            let next_value: Option<u32> = if values.len() == 0 {
                None
            } else {
                let v = mode_value(values.as_slice());
                proof {
                    lemma_mode32_unique(values@, v);
                }
                Some(v)
            };
            assert(column_value(ids, rs, local_x as int, row_offset as int, nw as int, self.bands(), m)
                == Ok::<Option<u32>, PabrError>(next_value));
            if next_value != current_value {
                if let Some(value) = current_value {
                    segments.push(RowSegment { start_x: run_start_x, end_x: local_x, value });
                }
                current_value = next_value;
                run_start_x = local_x;
            }
            proof {
                assert forall|k: int| 0 <= k < band_positions@.len() implies {
                    &&& #[trigger] band_positions@[k] < rs.len()
                    &&& reached(rs, band_positions@[k] as int, band_global(local_x + 1, row_offset as int, k, nw as int))
                } by {
                    assert(reached(rs, band_positions@[k] as int, band_global(local_x as int, row_offset as int, k, nw as int)));
                }
            }
            local_x = local_x + 1;
        }
        if let Some(value) = current_value {
            segments.push(RowSegment { start_x: run_start_x, end_x: nw, value });
        }
        Ok(segments)
    }
}


/// Whether runs are non-empty, end by `bound`, and follow each other from
/// left to right without overlapping.
pub open spec fn runs_ordered(segments: Seq<RowSegment>, bound: int) -> bool {
    &&& forall|i: int| 0 <= i < segments.len() ==> (#[trigger] segments[i]).start_x < segments[i].end_x <= bound
    &&& forall|i: int, j: int| 0 <= i < j < segments.len() ==> (#[trigger] segments[i]).end_x <= (#[trigger] segments[j]).start_x
}

proof fn lemma_runs_state_ordered(
    ids: Seq<u16>,
    row: Seq<Breakpoint>,
    row_offset: int,
    native_width: int,
    nb: nat,
    mapping: Option<RegionGroupMapping>,
    x: nat,
)
    requires
        x <= u32::MAX,
        runs_state(ids, row, row_offset, native_width, nb, mapping, x) is Ok,
    ensures
        runs_state(ids, row, row_offset, native_width, nb, mapping, x) matches Ok((segments, current, start))
            && runs_ordered(segments, start as int) && start <= x
            && (current is Some ==> start < x),
    decreases x,
{
    if x > 0 {
        lemma_runs_state_ordered(ids, row, row_offset, native_width, nb, mapping, (x - 1) as nat);
    }
}

impl PabrMap {
    /// The runs of one value along a source row are non-empty, lie within
    /// the native width and follow each other from left to right.
    pub proof fn lemma_segments_ordered(&self, source_row: int, row_shift: u32, mapping: Option<RegionGroupMapping>)
        requires
            self.segments_spec(source_row, row_shift, mapping) is Ok,
        ensures
            self.segments_spec(source_row, row_shift, mapping) matches Ok(segments)
                && runs_ordered(segments, self.rid.native_width as int),
    {
        let rows = rows_view(self.bkd.rows@);
        if 0 <= source_row < rows.len() && rows[source_row].len() > 0 && self.rid.native_width > 0 {
            let nw = self.rid.native_width;
            lemma_runs_state_ordered(self.rid.region_ids@, rows[source_row], row_offset_spec(source_row, row_shift, nw),
                nw as int, self.bands(), mapping, nw as nat);
        }
    }
}


/// The rows of `rows` as sequences.
pub open spec fn segment_rows_view(rows: Seq<Vec<RowSegment>>) -> Seq<Seq<RowSegment>> {
    rows.map_values(|r: Vec<RowSegment>| r@)
}

impl PabrMap {
    /// The runs of the first `n` output rows at native size, each row taking
    /// the source row its centre samples.
    pub open spec fn field_rows_spec(&self, row_shift: u32, mapping: Option<RegionGroupMapping>, n: nat) -> Result<Seq<Seq<RowSegment>>, PabrError>
        decreases n,
    {
        if n == 0 {
            Ok(Seq::empty())
        } else {
            match self.field_rows_spec(row_shift, mapping, (n - 1) as nat) {
                Err(e) => Err(e),
                Ok(rows) => {
                    let source_row = sample_source_row_spec((n - 1) as u32, self.rid.native_height, self.bkd.rows@.len() as usize);
                    match self.segments_spec(source_row, row_shift, mapping) {
                        Err(e) => Err(e),
                        Ok(segments) => Ok(rows.push(segments)),
                    }
                },
            }
        }
    }

    proof fn lemma_field_rows_err_persists(&self, row_shift: u32, mapping: Option<RegionGroupMapping>, i: nat, j: nat, e: PabrError)
        requires
            i <= j,
            self.field_rows_spec(row_shift, mapping, i) == Err::<Seq<Seq<RowSegment>>, PabrError>(e),
        ensures
            self.field_rows_spec(row_shift, mapping, j) == Err::<Seq<Seq<RowSegment>>, PabrError>(e),
        decreases j - i,
    {
        if i < j {
            self.lemma_field_rows_err_persists(row_shift, mapping, i, (j - 1) as nat, e);
        }
    }
}

fn copy_segments(v: &Vec<RowSegment>) -> (r: Vec<RowSegment>)
    ensures
        r@ == v@,
{
    let mut r: Vec<RowSegment> = Vec::new();
    let mut i: usize = 0;
    while i < v.len()
        invariant
            i <= v@.len(),
            r@ == v@.take(i as int),
        decreases v@.len() - i,
    {
        r.push(v[i]);
        i = i + 1;
        assert(r@ =~= v@.take(i as int));
    }
    assert(v@.take(v@.len() as int) =~= v@);
    r
}

impl PabrMap {
    /// The runs of every output row at native size.
    pub fn build_field_rows(&self, row_shift: u32, mapping: Option<&RegionGroupMapping>) -> (r: Result<Vec<Vec<RowSegment>>, PabrError>)
        requires
            self.bkd.rows@.len() * row_shift <= u64::MAX,
            2 * self.rid.native_height * self.bkd.rows@.len() <= u64::MAX,
        ensures
            self.rid.native_width == 0 || self.rid.native_height == 0 ==> r == Err::<Vec<Vec<RowSegment>>, PabrError>(PabrError::ZeroNativeDimensions),
            self.rid.native_width > 0 && self.rid.native_height > 0 && self.bkd.rows@.len() == 0
                ==> r == Err::<Vec<Vec<RowSegment>>, PabrError>(PabrError::NoBkdRows),
            self.rid.native_width > 0 && self.rid.native_height > 0 && self.bkd.rows@.len() > 0 ==> match self.field_rows_spec(
                row_shift,
                match mapping {
                    Some(m) => Some(*m),
                    None => None,
                },
                self.rid.native_height as nat,
            ) {
                Ok(rows) => r matches Ok(v) && segment_rows_view(v@) == rows,
                Err(e) => r == Err::<Vec<Vec<RowSegment>>, PabrError>(e),
            },
    {
        let ghost m = match mapping {
            Some(mm) => Some(*mm),
            None => None::<RegionGroupMapping>,
        };
        if self.rid.native_width == 0 || self.rid.native_height == 0 {
            return Err(PabrError::ZeroNativeDimensions);
        }
        if self.bkd.rows.len() == 0 {
            return Err(PabrError::NoBkdRows);
        }
        let nh = self.rid.native_height;
        let rows_len = self.bkd.rows.len();
        let mut rows: Vec<Vec<RowSegment>> = Vec::new();
        let mut cached_source_row: usize = usize::MAX;
        let mut cached: Vec<RowSegment> = Vec::new();
        let mut y: u32 = 0;
        assert(segment_rows_view(rows@) =~= Seq::<Seq<RowSegment>>::empty());
        while y < nh
            invariant
                nh == self.rid.native_height,
                rows_len == self.bkd.rows@.len(),
                self.rid.native_width > 0,
                nh > 0,
                rows_len > 0,
                y <= nh,
                m == match mapping {
                    Some(mm) => Some(*mm),
                    None => None::<RegionGroupMapping>,
                },
                self.bkd.rows@.len() * row_shift <= u64::MAX,
                2 * nh * rows_len <= u64::MAX,
                cached_source_row != usize::MAX ==> self.segments_spec(cached_source_row as int, row_shift, m)
                    == Ok::<Seq<RowSegment>, PabrError>(cached@),
                self.field_rows_spec(row_shift, m, y as nat) == Ok::<Seq<Seq<RowSegment>>, PabrError>(segment_rows_view(rows@)),
            decreases nh - y,
        {
            assert((2 * y + 1) * rows_len <= u64::MAX) by (nonlinear_arith)
                requires
                    y < nh,
                    2 * nh * rows_len <= u64::MAX,
            ;
            let source_row = sample_source_row(y, nh, rows_len);
            if source_row != cached_source_row {
                assert(source_row * row_shift <= u64::MAX) by (nonlinear_arith)
                    requires
                        source_row < rows_len || source_row == 0,
                        rows_len * row_shift <= u64::MAX,
                ;
                match self.decoded_row_segments(source_row, row_shift, mapping) {
                    Ok(v) => {
                        cached = v;
                    },
                    Err(e) => {
                        proof {
                            self.lemma_field_rows_err_persists(row_shift, m, (y + 1) as nat, nh as nat, e);
                        }
                        return Err(e);
                    },
                }
                cached_source_row = source_row;
            }
            let ghost before = rows@;
            rows.push(copy_segments(&cached));
            assert(segment_rows_view(rows@) =~= segment_rows_view(before).push(cached@));
            y = y + 1;
        }
        Ok(rows)
    }
}


/// A rectangle of one value: columns `start_x..end_x`, rows `start_y..end_y`.
#[derive(Clone, Copy, Debug, PartialEq, Eq)]
pub struct Rectangle {
    pub start_x: u32,
    pub end_x: u32,
    pub start_y: u32,
    pub end_y: u32,
}

/// Whether the runs start further right one after another.
pub open spec fn starts_increase(segments: Seq<RowSegment>) -> bool {
    forall|i: int, j: int| 0 <= i < j < segments.len() ==> (#[trigger] segments[i]).start_x < (#[trigger] segments[j]).start_x
}

/// Whether the open runs start further right one after another.
pub open spec fn open_starts_increase(open: Seq<(RowSegment, u32)>) -> bool {
    forall|i: int, j: int| 0 <= i < j < open.len() ==> (#[trigger] open[i]).0.start_x < (#[trigger] open[j]).0.start_x
}

/// The row where the open run `segment` started, or `y` where it is not open.
pub open spec fn open_start(open: Seq<(RowSegment, u32)>, segment: RowSegment, y: u32) -> u32 {
    if exists|i: int| 0 <= i < open.len() && (#[trigger] open[i]).0 == segment {
        open[choose|i: int| 0 <= i < open.len() && (#[trigger] open[i]).0 == segment].1
    } else {
        y
    }
}

/// The runs open after row `y`: each run of the row, with the row where
/// the same run started without a break.
pub open spec fn reopened(open: Seq<(RowSegment, u32)>, segments: Seq<RowSegment>, y: u32) -> Seq<(RowSegment, u32)> {
    Seq::new(segments.len(), |i: int| (segments[i], open_start(open, segments[i], y)))
}

/// The rectangles of the open runs that row `y` does not continue, in the
/// order of the open runs, each with its value.
pub open spec fn closed_runs(open: Seq<(RowSegment, u32)>, segments: Seq<RowSegment>, y: u32) -> Seq<(u32, Rectangle)>
    decreases open.len(),
{
    if open.len() == 0 {
        Seq::empty()
    } else {
        let rest = closed_runs(open.drop_last(), segments, y);
        let run = open.last();
        if segments.contains(run.0) {
            rest
        } else {
            rest.push((run.0.value, Rectangle { start_x: run.0.start_x, end_x: run.0.end_x, start_y: run.1, end_y: y }))
        }
    }
}

/// The open runs after the first `n` rows, and the rectangles closed so far.
pub open spec fn rect_state(rows: Seq<Seq<RowSegment>>, n: nat) -> (Seq<(RowSegment, u32)>, Seq<(u32, Rectangle)>)
    decreases n,
{
    if n == 0 {
        (Seq::empty(), Seq::empty())
    } else {
        let (open, closed) = rect_state(rows, (n - 1) as nat);
        (reopened(open, rows[n - 1], (n - 1) as u32), closed + closed_runs(open, rows[n - 1], (n - 1) as u32))
    }
}

/// Every rectangle of equal runs stacked over consecutive rows, in the order
/// they close, each with its value.
pub open spec fn all_rectangles(rows: Seq<Seq<RowSegment>>, height: u32) -> Seq<(u32, Rectangle)> {
    let (open, closed) = rect_state(rows, rows.len());
    closed + closed_runs(open, Seq::empty(), height)
}

/// Whether rectangle `r` lies within `width` columns and `height` rows and
/// is not empty.
pub open spec fn rect_in_bounds(r: Rectangle, width: int, height: int) -> bool {
    r.start_x < r.end_x <= width && r.start_y < r.end_y <= height
}

proof fn lemma_closed_runs_bounds(open: Seq<(RowSegment, u32)>, segments: Seq<RowSegment>, y: u32, width: int)
    requires
        forall|i: int| 0 <= i < open.len() ==> (#[trigger] open[i]).0.start_x < open[i].0.end_x <= width && open[i].1 < y,
    ensures
        forall|k: int| 0 <= k < closed_runs(open, segments, y).len() ==> rect_in_bounds(
            (#[trigger] closed_runs(open, segments, y)[k]).1,
            width,
            y as int,
        ),
    decreases open.len(),
{
    if open.len() > 0 {
        let rest = open.drop_last();
        assert forall|i: int| 0 <= i < rest.len() implies (#[trigger] rest[i]).0.start_x < rest[i].0.end_x <= width && rest[i].1 < y by {
            assert(rest[i] == open[i]);
        }
        lemma_closed_runs_bounds(rest, segments, y, width);
        assert(open.last() == open[open.len() - 1]);
        let c = closed_runs(open, segments, y);
        let rc = closed_runs(rest, segments, y);
        assert forall|k: int| 0 <= k < c.len() implies rect_in_bounds((#[trigger] c[k]).1, width, y as int) by {
            if k < rc.len() {
                assert(c[k] == rc[k]);
            }
        }
    }
}

proof fn lemma_rect_state_bounds(rows: Seq<Seq<RowSegment>>, n: nat, width: int)
    requires
        n <= rows.len() <= u32::MAX,
        forall|q: int| 0 <= q < rows.len() ==> runs_ordered(#[trigger] rows[q], width),
    ensures
        ({
            let (open, closed) = rect_state(rows, n);
            &&& forall|i: int| 0 <= i < open.len() ==> (#[trigger] open[i]).0.start_x < open[i].0.end_x <= width && open[i].1 < n
            &&& forall|k: int| 0 <= k < closed.len() ==> rect_in_bounds((#[trigger] closed[k]).1, width, n as int)
        }),
    decreases n,
{
    if n > 0 {
        lemma_rect_state_bounds(rows, (n - 1) as nat, width);
        let (open, closed) = rect_state(rows, (n - 1) as nat);
        let y = (n - 1) as u32;
        let segs = rows[n - 1];
        assert(runs_ordered(segs, width));
        lemma_closed_runs_bounds(open, segs, y, width);
        let re = reopened(open, segs, y);
        assert forall|i: int| 0 <= i < re.len() implies (#[trigger] re[i]).0.start_x < re[i].0.end_x <= width && re[i].1 < n by {
            assert(re[i].0 == segs[i]);
            if exists|j: int| 0 <= j < open.len() && (#[trigger] open[j]).0 == segs[i] {
                let j = choose|j: int| 0 <= j < open.len() && (#[trigger] open[j]).0 == segs[i];
                assert(open[j].1 < n - 1);
            }
        }
        let all = closed + closed_runs(open, segs, y);
        assert forall|k: int| 0 <= k < all.len() implies rect_in_bounds((#[trigger] all[k]).1, width, n as int) by {
            if k < closed.len() {
                assert(all[k] == closed[k]);
            } else {
                assert(all[k] == closed_runs(open, segs, y)[k - closed.len()]);
            }
        }
    }
}

/// Every rectangle that a field is cut into lies within the field and is
/// not empty: where each of the `height` rows holds ordered runs within
/// `width`, each rectangle spans columns within `width` and rows within
/// `height`.
pub proof fn law_rectangles_in_bounds(rows: Seq<Seq<RowSegment>>, width: int, height: u32)
    requires
        rows.len() == height,
        forall|q: int| 0 <= q < rows.len() ==> runs_ordered(#[trigger] rows[q], width),
    ensures
        forall|k: int| 0 <= k < all_rectangles(rows, height).len() ==> rect_in_bounds(
            (#[trigger] all_rectangles(rows, height)[k]).1,
            width,
            height as int,
        ),
{
    lemma_rect_state_bounds(rows, rows.len(), width);
    let (open, closed) = rect_state(rows, rows.len());
    lemma_closed_runs_bounds(open, Seq::empty(), height, width);
    let all = all_rectangles(rows, height);
    assert forall|k: int| 0 <= k < all.len() implies rect_in_bounds((#[trigger] all[k]).1, width, height as int) by {
        if k < closed.len() {
            assert(all[k] == closed[k]);
        } else {
            assert(all[k] == closed_runs(open, Seq::empty(), height)[k - closed.len()]);
        }
    }
}

/// Whether the run `seg` stands in each of the rows `y0` to `y1` (not
/// included).
pub open spec fn run_spans(rows: Seq<Seq<RowSegment>>, seg: RowSegment, y0: int, y1: int) -> bool {
    forall|y: int| y0 <= y < y1 ==> (#[trigger] rows[y]).contains(seg)
}

/// The run that rectangle `r` of value `v` stacks.
pub open spec fn rect_run(v: u32, r: Rectangle) -> RowSegment {
    RowSegment { start_x: r.start_x, end_x: r.end_x, value: v }
}

proof fn lemma_closed_runs_span(rows: Seq<Seq<RowSegment>>, open: Seq<(RowSegment, u32)>, segments: Seq<RowSegment>, y: u32)
    requires
        forall|i: int| 0 <= i < open.len() ==> run_spans(rows, (#[trigger] open[i]).0, open[i].1 as int, y as int),
    ensures
        forall|k: int| 0 <= k < closed_runs(open, segments, y).len() ==> {
            let c = #[trigger] closed_runs(open, segments, y)[k];
            run_spans(rows, rect_run(c.0, c.1), c.1.start_y as int, c.1.end_y as int)
        },
    decreases open.len(),
{
    if open.len() > 0 {
        let rest = open.drop_last();
        assert forall|i: int| 0 <= i < rest.len() implies run_spans(rows, (#[trigger] rest[i]).0, rest[i].1 as int, y as int) by {
            assert(rest[i] == open[i]);
        }
        lemma_closed_runs_span(rows, rest, segments, y);
        let run = open.last();
        assert(run == open[open.len() - 1]);
        assert(rect_run(run.0.value, Rectangle { start_x: run.0.start_x, end_x: run.0.end_x, start_y: run.1, end_y: y }) == run.0);
        let c = closed_runs(open, segments, y);
        let rc = closed_runs(rest, segments, y);
        assert forall|k: int| 0 <= k < c.len() implies {
            let e = #[trigger] c[k];
            run_spans(rows, rect_run(e.0, e.1), e.1.start_y as int, e.1.end_y as int)
        } by {
            if k < rc.len() {
                assert(c[k] == rc[k]);
            }
        }
    }
}

proof fn lemma_rect_state_span(rows: Seq<Seq<RowSegment>>, n: nat)
    requires
        n <= rows.len() <= u32::MAX,
    ensures
        ({
            let (open, closed) = rect_state(rows, n);
            &&& forall|i: int| 0 <= i < open.len() ==> run_spans(rows, (#[trigger] open[i]).0, open[i].1 as int, n as int)
            &&& forall|k: int| 0 <= k < closed.len() ==> {
                let c = #[trigger] closed[k];
                run_spans(rows, rect_run(c.0, c.1), c.1.start_y as int, c.1.end_y as int)
            }
        }),
    decreases n,
{
    if n > 0 {
        lemma_rect_state_span(rows, (n - 1) as nat);
        let (open, closed) = rect_state(rows, (n - 1) as nat);
        let y = (n - 1) as u32;
        let segs = rows[n - 1];
        lemma_closed_runs_span(rows, open, segs, y);
        let re = reopened(open, segs, y);
        assert forall|i: int| 0 <= i < re.len() implies run_spans(rows, (#[trigger] re[i]).0, re[i].1 as int, n as int) by {
            assert(re[i].0 == segs[i]);
            assert(segs.contains(segs[i]));
            if exists|j: int| 0 <= j < open.len() && (#[trigger] open[j]).0 == segs[i] {
                let j = choose|j: int| 0 <= j < open.len() && (#[trigger] open[j]).0 == segs[i];
                assert(run_spans(rows, open[j].0, open[j].1 as int, n - 1));
                assert(re[i].1 == open[j].1);
            }
            assert forall|yy: int| re[i].1 <= yy < n implies (#[trigger] rows[yy]).contains(re[i].0) by {
                if yy == n - 1 {
                    assert(rows[yy] == segs);
                }
            }
        }
        let all = closed + closed_runs(open, segs, y);
        assert forall|k: int| 0 <= k < all.len() implies {
            let c = #[trigger] all[k];
            run_spans(rows, rect_run(c.0, c.1), c.1.start_y as int, c.1.end_y as int)
        } by {
            if k < closed.len() {
                assert(all[k] == closed[k]);
            } else {
                assert(all[k] == closed_runs(open, segs, y)[k - closed.len()]);
            }
        }
    }
}

/// Every rectangle that a field is cut into stacks one run of its value:
/// the run with the rectangle's columns and value stands in each row the
/// rectangle spans.
pub proof fn law_rectangles_lie_on_runs(rows: Seq<Seq<RowSegment>>, height: u32)
    requires
        rows.len() == height,
    ensures
        forall|k: int| 0 <= k < all_rectangles(rows, height).len() ==> {
            let c = #[trigger] all_rectangles(rows, height)[k];
            run_spans(rows, rect_run(c.0, c.1), c.1.start_y as int, c.1.end_y as int)
        },
{
    lemma_rect_state_span(rows, rows.len());
    let (open, closed) = rect_state(rows, rows.len());
    lemma_closed_runs_span(rows, open, Seq::empty(), height);
    let all = all_rectangles(rows, height);
    assert forall|k: int| 0 <= k < all.len() implies {
        let c = #[trigger] all[k];
        run_spans(rows, rect_run(c.0, c.1), c.1.start_y as int, c.1.end_y as int)
    } by {
        if k < closed.len() {
            assert(all[k] == closed[k]);
        } else {
            assert(all[k] == closed_runs(open, Seq::empty(), height)[k - closed.len()]);
        }
    }
}

/// Whether the run `seg` spans rows `y0` to `y1` and no more: the row
/// before and the row after do not hold it.
pub open spec fn run_spans_fully(rows: Seq<Seq<RowSegment>>, seg: RowSegment, y0: int, y1: int) -> bool {
    &&& run_spans(rows, seg, y0, y1)
    &&& (y0 == 0 || !rows[y0 - 1].contains(seg))
    &&& (y1 == rows.len() || !rows[y1].contains(seg))
}

proof fn lemma_closed_runs_full(rows: Seq<Seq<RowSegment>>, open: Seq<(RowSegment, u32)>, segments: Seq<RowSegment>, y: u32)
    requires
        y <= rows.len(),
        y < rows.len() ==> rows[y as int] == segments,
        forall|i: int| 0 <= i < open.len() ==> run_spans(rows, (#[trigger] open[i]).0, open[i].1 as int, y as int)
            && (open[i].1 == 0 || !rows[open[i].1 - 1].contains(open[i].0)),
    ensures
        forall|k: int| 0 <= k < closed_runs(open, segments, y).len() ==> {
            let c = #[trigger] closed_runs(open, segments, y)[k];
            run_spans_fully(rows, rect_run(c.0, c.1), c.1.start_y as int, c.1.end_y as int)
        },
    decreases open.len(),
{
    if open.len() > 0 {
        let rest = open.drop_last();
        assert forall|i: int| 0 <= i < rest.len() implies run_spans(rows, (#[trigger] rest[i]).0, rest[i].1 as int, y as int)
            && (rest[i].1 == 0 || !rows[rest[i].1 - 1].contains(rest[i].0)) by {
            assert(rest[i] == open[i]);
        }
        lemma_closed_runs_full(rows, rest, segments, y);
        let run = open.last();
        assert(run == open[open.len() - 1]);
        assert(rect_run(run.0.value, Rectangle { start_x: run.0.start_x, end_x: run.0.end_x, start_y: run.1, end_y: y }) == run.0);
        let c = closed_runs(open, segments, y);
        let rc = closed_runs(rest, segments, y);
        assert forall|k: int| 0 <= k < c.len() implies {
            let e = #[trigger] c[k];
            run_spans_fully(rows, rect_run(e.0, e.1), e.1.start_y as int, e.1.end_y as int)
        } by {
            if k < rc.len() {
                assert(c[k] == rc[k]);
            }
        }
    }
}

proof fn lemma_rect_state_full(rows: Seq<Seq<RowSegment>>, n: nat)
    requires
        n <= rows.len() <= u32::MAX,
    ensures
        ({
            let (open, closed) = rect_state(rows, n);
            &&& n > 0 ==> open.len() == rows[n - 1].len() && forall|i: int| 0 <= i < open.len() ==> (#[trigger] open[i]).0 == rows[n - 1][i]
            &&& n == 0 ==> open.len() == 0
            &&& forall|i: int| 0 <= i < open.len() ==> run_spans(rows, (#[trigger] open[i]).0, open[i].1 as int, n as int)
                && (open[i].1 == 0 || !rows[open[i].1 - 1].contains(open[i].0))
            &&& forall|k: int| 0 <= k < closed.len() ==> {
                let c = #[trigger] closed[k];
                run_spans_fully(rows, rect_run(c.0, c.1), c.1.start_y as int, c.1.end_y as int)
            }
        }),
    decreases n,
{
    if n > 0 {
        lemma_rect_state_full(rows, (n - 1) as nat);
        lemma_rect_state_span(rows, (n - 1) as nat);
        let (open, closed) = rect_state(rows, (n - 1) as nat);
        let y = (n - 1) as u32;
        let segs = rows[n - 1];
        lemma_closed_runs_full(rows, open, segs, y);
        let re = reopened(open, segs, y);
        assert forall|i: int| 0 <= i < re.len() implies run_spans(rows, (#[trigger] re[i]).0, re[i].1 as int, n as int)
            && (re[i].1 == 0 || !rows[re[i].1 - 1].contains(re[i].0)) by {
            assert(re[i].0 == segs[i]);
            assert(segs.contains(segs[i]));
            if exists|j: int| 0 <= j < open.len() && (#[trigger] open[j]).0 == segs[i] {
                let j = choose|j: int| 0 <= j < open.len() && (#[trigger] open[j]).0 == segs[i];
                assert(re[i].1 == open[j].1);
            } else {
                assert(re[i].1 == n - 1);
                if n >= 2 && rows[n - 2].contains(segs[i]) {
                    let prev_row = rows[n - 2];
                    let j = choose|j: int| 0 <= j < prev_row.len() && #[trigger] prev_row[j] == segs[i];
                    assert(open[j].0 == prev_row[j]);
                }
            }
            assert forall|yy: int| re[i].1 <= yy < n implies (#[trigger] rows[yy]).contains(re[i].0) by {
                if yy == n - 1 {
                    assert(rows[yy] == segs);
                } else if exists|j: int| 0 <= j < open.len() && (#[trigger] open[j]).0 == segs[i] {
                    let j = choose|j: int| 0 <= j < open.len() && (#[trigger] open[j]).0 == segs[i];
                    assert(run_spans(rows, open[j].0, open[j].1 as int, n - 1));
                }
            }
        }
        let all = closed + closed_runs(open, segs, y);
        assert forall|k: int| 0 <= k < all.len() implies {
            let c = #[trigger] all[k];
            run_spans_fully(rows, rect_run(c.0, c.1), c.1.start_y as int, c.1.end_y as int)
        } by {
            if k < closed.len() {
                assert(all[k] == closed[k]);
            } else {
                assert(all[k] == closed_runs(open, segs, y)[k - closed.len()]);
            }
        }
    }
}

/// Whether some rectangle of `closed` stacks run `seg` over row `y`.
pub open spec fn covered_by(closed: Seq<(u32, Rectangle)>, seg: RowSegment, y: int) -> bool {
    exists|k: int| 0 <= k < closed.len() && rect_run((#[trigger] closed[k]).0, closed[k].1) == seg
        && closed[k].1.start_y <= y < closed[k].1.end_y
}

proof fn lemma_closed_runs_closes(open: Seq<(RowSegment, u32)>, segments: Seq<RowSegment>, y: u32, i: int)
    requires
        0 <= i < open.len(),
        !segments.contains(open[i].0),
    ensures
        exists|k: int| 0 <= k < closed_runs(open, segments, y).len() && #[trigger] closed_runs(open, segments, y)[k]
            == (open[i].0.value, Rectangle { start_x: open[i].0.start_x, end_x: open[i].0.end_x, start_y: open[i].1, end_y: y }),
    decreases open.len(),
{
    let rest = open.drop_last();
    let c = closed_runs(open, segments, y);
    let rc = closed_runs(rest, segments, y);
    if i < open.len() - 1 {
        assert(rest[i] == open[i]);
        lemma_closed_runs_closes(rest, segments, y, i);
        let k = choose|k: int| 0 <= k < rc.len() && #[trigger] rc[k]
            == (rest[i].0.value, Rectangle { start_x: rest[i].0.start_x, end_x: rest[i].0.end_x, start_y: rest[i].1, end_y: y });
        assert(c[k] == rc[k]);
    } else {
        assert(open.last() == open[i]);
        assert(c[rc.len() as int] == (open[i].0.value, Rectangle { start_x: open[i].0.start_x, end_x: open[i].0.end_x, start_y: open[i].1, end_y: y }));
    }
}

/// Whether each run of the first `n` rows is stacked by a rectangle of
/// `closed` or is still open in `open`, opened no later than its row.
pub open spec fn runs_accounted(rows: Seq<Seq<RowSegment>>, n: int, open: Seq<(RowSegment, u32)>, closed: Seq<(u32, Rectangle)>) -> bool {
    forall|y: int, p: int| 0 <= y < n && 0 <= p < rows[y].len() ==> covered_by(closed, #[trigger] rows[y][p], y)
        || exists|i: int| 0 <= i < open.len() && (#[trigger] open[i]).0 == rows[y][p] && open[i].1 <= y
}

#[verifier::rlimit(60)]
proof fn lemma_rect_state_complete(rows: Seq<Seq<RowSegment>>, n: nat, width: int)
    requires
        n <= rows.len() <= u32::MAX,
        forall|q: int| 0 <= q < rows.len() ==> runs_ordered(#[trigger] rows[q], width),
    ensures
        runs_accounted(rows, n as int, rect_state(rows, n).0, rect_state(rows, n).1),
    decreases n,
{
    if n > 0 {
        lemma_rect_state_complete(rows, (n - 1) as nat, width);
        lemma_rect_state_full(rows, (n - 1) as nat);
        let (open, closed) = rect_state(rows, (n - 1) as nat);
        let yn = (n - 1) as u32;
        let segs = rows[n - 1];
        let re = reopened(open, segs, yn);
        let cl = closed_runs(open, segs, yn);
        let all = closed + cl;
        assert(runs_ordered(segs, width));
        assert forall|y: int, p: int| 0 <= y < n && 0 <= p < rows[y].len() implies covered_by(all, #[trigger] rows[y][p], y)
            || exists|i: int| 0 <= i < re.len() && (#[trigger] re[i]).0 == rows[y][p] && re[i].1 <= y by {
            let seg = rows[y][p];
            if y == n - 1 {
                assert(re[p].0 == segs[p]);
                if exists|j: int| 0 <= j < open.len() && (#[trigger] open[j]).0 == segs[p] {
                    let j = choose|j: int| 0 <= j < open.len() && (#[trigger] open[j]).0 == segs[p];
                    assert(re[p].1 == open[j].1);
                    lemma_rect_state_bounds_open(rows, (n - 1) as nat, width, j);
                    assert(open[j].1 < n - 1);
                }
                assert(re[p].1 <= y);
            } else if covered_by(closed, seg, y) {
                let k = choose|k: int| 0 <= k < closed.len() && rect_run((#[trigger] closed[k]).0, closed[k].1) == seg
                    && closed[k].1.start_y <= y < closed[k].1.end_y;
                assert(all[k] == closed[k]);
            } else {
                let i = choose|i: int| 0 <= i < open.len() && (#[trigger] open[i]).0 == seg && open[i].1 <= y;
                if segs.contains(seg) {
                    let q = choose|q: int| 0 <= q < segs.len() && segs[q] == seg;
                    assert(re[q].0 == seg);
                    let j = choose|j: int| 0 <= j < open.len() && (#[trigger] open[j]).0 == segs[q];
                    assert(open[i].0 == rows[n - 2][i] && open[j].0 == rows[n - 2][j]);
                    assert(runs_ordered(rows[n - 2], width));
                    if i < j {
                        assert(rows[n - 2][i].end_x <= rows[n - 2][j].start_x);
                    } else if j < i {
                        assert(rows[n - 2][j].end_x <= rows[n - 2][i].start_x);
                    }
                    assert(i == j);
                    assert(re[q].1 == open[i].1);
                } else {
                    lemma_closed_runs_closes(open, segs, yn, i);
                    let k = choose|k: int| 0 <= k < cl.len() && #[trigger] cl[k]
                        == (open[i].0.value, Rectangle { start_x: open[i].0.start_x, end_x: open[i].0.end_x, start_y: open[i].1, end_y: yn });
                    assert(all[closed.len() + k] == cl[k]);
                    assert(rect_run(cl[k].0, cl[k].1) == seg);
                }
            }
        }
        assert(runs_accounted(rows, n as int, re, all));
        assert(rect_state(rows, n) == (re, all));
    }
}

proof fn lemma_rect_state_bounds_open(rows: Seq<Seq<RowSegment>>, n: nat, width: int, j: int)
    requires
        n <= rows.len() <= u32::MAX,
        forall|q: int| 0 <= q < rows.len() ==> runs_ordered(#[trigger] rows[q], width),
        0 <= j < rect_state(rows, n).0.len(),
    ensures
        rect_state(rows, n).0[j].1 < n,
{
    lemma_rect_state_bounds(rows, n, width);
}

/// Every run of every row lies in a rectangle that a field is cut into:
/// some rectangle stacks that run over that row.
pub proof fn law_rectangles_cover_runs(rows: Seq<Seq<RowSegment>>, width: int, height: u32)
    requires
        rows.len() == height,
        forall|q: int| 0 <= q < rows.len() ==> runs_ordered(#[trigger] rows[q], width),
    ensures
        forall|y: int, p: int| 0 <= y < rows.len() && 0 <= p < rows[y].len() ==> covered_by(
            all_rectangles(rows, height),
            #[trigger] rows[y][p],
            y,
        ),
{
    lemma_rect_state_complete(rows, rows.len(), width);
    let (open, closed) = rect_state(rows, rows.len());
    assert(runs_accounted(rows, rows.len() as int, open, closed));
    let cl = closed_runs(open, Seq::empty(), height);
    let all = all_rectangles(rows, height);
    lemma_rect_state_bounds(rows, rows.len(), width);
    assert forall|y: int, p: int| 0 <= y < rows.len() && 0 <= p < rows[y].len() implies covered_by(all, #[trigger] rows[y][p], y) by {
        let seg = rows[y][p];
        if covered_by(closed, seg, y) {
            let k = choose|k: int| 0 <= k < closed.len() && rect_run((#[trigger] closed[k]).0, closed[k].1) == seg
                && closed[k].1.start_y <= y < closed[k].1.end_y;
            assert(all[k] == closed[k]);
        } else {
            let i = choose|i: int| 0 <= i < open.len() && (#[trigger] open[i]).0 == seg && open[i].1 <= y;
            assert(!Seq::<RowSegment>::empty().contains(open[i].0));
            lemma_closed_runs_closes(open, Seq::empty(), height, i);
            let k = choose|k: int| 0 <= k < cl.len() && #[trigger] cl[k]
                == (open[i].0.value, Rectangle { start_x: open[i].0.start_x, end_x: open[i].0.end_x, start_y: open[i].1, end_y: height });
            assert(all[closed.len() + k] == cl[k]);
        }
    }
}

/// Whether two rectangles share a cell.
pub open spec fn rects_overlap(a: Rectangle, b: Rectangle) -> bool {
    a.start_x < b.end_x && b.start_x < a.end_x && a.start_y < b.end_y && b.start_y < a.end_y
}

/// No two different rectangles that a field is cut into share a cell: where
/// each row's runs are ordered, rectangles that overlap are the same
/// rectangle of the same value.
pub proof fn law_rectangles_do_not_overlap(rows: Seq<Seq<RowSegment>>, width: int, height: u32)
    requires
        rows.len() == height,
        forall|q: int| 0 <= q < rows.len() ==> runs_ordered(#[trigger] rows[q], width),
    ensures
        forall|i: int, j: int| 0 <= i < all_rectangles(rows, height).len() && 0 <= j < all_rectangles(rows, height).len()
            && rects_overlap((#[trigger] all_rectangles(rows, height)[i]).1, (#[trigger] all_rectangles(rows, height)[j]).1)
            ==> all_rectangles(rows, height)[i] == all_rectangles(rows, height)[j],
{
    lemma_rect_state_full(rows, rows.len());
    lemma_rect_state_span(rows, rows.len());
    let (open, closed) = rect_state(rows, rows.len());
    assert forall|i: int| 0 <= i < open.len() implies run_spans(rows, (#[trigger] open[i]).0, open[i].1 as int, height as int)
        && (open[i].1 == 0 || !rows[open[i].1 - 1].contains(open[i].0)) by {}
    lemma_closed_runs_full(rows, open, Seq::empty(), height);
    law_rectangles_in_bounds(rows, width, height);
    let all = all_rectangles(rows, height);
    assert forall|k: int| 0 <= k < all.len() implies {
        let c = #[trigger] all[k];
        run_spans_fully(rows, rect_run(c.0, c.1), c.1.start_y as int, c.1.end_y as int)
    } by {
        if k < closed.len() {
            assert(all[k] == closed[k]);
        } else {
            assert(all[k] == closed_runs(open, Seq::empty(), height)[k - closed.len()]);
        }
    }
    assert forall|i: int, j: int| 0 <= i < all.len() && 0 <= j < all.len()
        && rects_overlap((#[trigger] all[i]).1, (#[trigger] all[j]).1) implies all[i] == all[j] by {
        let a = all[i];
        let b = all[j];
        let sa = rect_run(a.0, a.1);
        let sb = rect_run(b.0, b.1);
        assert(run_spans_fully(rows, sa, a.1.start_y as int, a.1.end_y as int));
        assert(run_spans_fully(rows, sb, b.1.start_y as int, b.1.end_y as int));
        let y = if a.1.start_y < b.1.start_y { b.1.start_y as int } else { a.1.start_y as int };
        assert(rect_in_bounds(a.1, width, height as int));
        assert(a.1.start_y <= y < a.1.end_y && b.1.start_y <= y < b.1.end_y);
        assert(run_spans(rows, sa, a.1.start_y as int, a.1.end_y as int));
        assert(run_spans(rows, sb, b.1.start_y as int, b.1.end_y as int));
        assert(rows[y].contains(sa));
        assert(rows[y].contains(sb));
        let ry = rows[y];
        let p = choose|p: int| 0 <= p < ry.len() && #[trigger] ry[p] == sa;
        let q = choose|q: int| 0 <= q < ry.len() && #[trigger] ry[q] == sb;
        assert(runs_ordered(ry, width));
        if p < q {
            assert(ry[p].end_x <= ry[q].start_x);
        } else if q < p {
            assert(ry[q].end_x <= ry[p].start_x);
        }
        assert(sa == sb);
        if a.1.start_y < b.1.start_y {
            assert(rows[b.1.start_y - 1].contains(sa));
        }
        if b.1.start_y < a.1.start_y {
            assert(rows[a.1.start_y - 1].contains(sb));
        }
        if a.1.end_y < b.1.end_y {
            assert(rows[a.1.end_y as int].contains(sb));
        }
        if b.1.end_y < a.1.end_y {
            assert(rows[b.1.end_y as int].contains(sa));
        }
    }
}

/// The rectangles of value `v`, in order.
pub open spec fn rects_of(closed: Seq<(u32, Rectangle)>, v: u32) -> Seq<Rectangle>
    decreases closed.len(),
{
    if closed.len() == 0 {
        Seq::empty()
    } else {
        let rest = rects_of(closed.drop_last(), v);
        if closed.last().0 == v { rest.push(closed.last().1) } else { rest }
    }
}

/// Whether the map groups `closed` by value.
pub open spec fn groups_rectangles(m: Map<u32, Vec<Rectangle>>, closed: Seq<(u32, Rectangle)>) -> bool {
    forall|v: u32| #![trigger m.contains_key(v)]
        (m.contains_key(v) <==> rects_of(closed, v).len() > 0) && (m.contains_key(v) ==> m[v]@ == rects_of(closed, v))
}

/// Adds one rectangle to its value's list.
fn add_rectangle(map: &mut BTreeMap<u32, Vec<Rectangle>>, value: u32, rect: Rectangle, Ghost(closed): Ghost<Seq<(u32, Rectangle)>>)
    requires
        groups_rectangles(old(map)@, closed),
    ensures
        groups_rectangles(final(map)@, closed.push((value, rect))),
{
    let ghost before = map@;
    let mut list = match map.remove(&value) {
        Some(l) => l,
        None => Vec::new(),
    };
    list.push(rect);
    map.insert(value, list);
    proof {
        let c2 = closed.push((value, rect));
        assert(c2.drop_last() =~= closed);
        assert forall|v: u32| #![trigger map@.contains_key(v)]
            (map@.contains_key(v) <==> rects_of(c2, v).len() > 0) && (map@.contains_key(v) ==> map@[v]@ == rects_of(c2, v)) by {
            if v != value {
                assert(map@.contains_key(v) == before.contains_key(v));
            } else {
                if !before.contains_key(v) {
                    assert(rects_of(closed, v).len() == 0);
                }
            }
        }
    }
}

/// Continues the open runs that row `y` repeats, in the order of its runs.
fn reopen_runs(open: &Vec<(RowSegment, u32)>, segments: &Vec<RowSegment>, y: u32) -> (r: Vec<(RowSegment, u32)>)
    requires
        open_starts_increase(open@),
        starts_increase(segments@),
    ensures
        r@ == reopened(open@, segments@, y),
        open_starts_increase(r@),
{
    let mut next: Vec<(RowSegment, u32)> = Vec::new();
    let mut p: usize = 0;
    let mut i: usize = 0;
    while i < segments.len()
        invariant
            open_starts_increase(open@),
            starts_increase(segments@),
            i <= segments@.len(),
            p <= open@.len(),
            next@.len() == i,
            forall|k: int| 0 <= k < i ==> #[trigger] next@[k] == (segments@[k], open_start(open@, segments@[k], y)),
            i < segments@.len() ==> forall|k: int| 0 <= k < p ==> (#[trigger] open@[k]).0.start_x < segments@[i as int].start_x,
        decreases segments@.len() - i,
    {
        let segment = segments[i];
        while p < open.len() && open[p].0.start_x < segment.start_x
            invariant
                p <= open@.len(),
                forall|k: int| 0 <= k < p ==> (#[trigger] open@[k]).0.start_x < segment.start_x,
            decreases open@.len() - p,
        {
            p = p + 1;
        }
        let start = if p < open.len() && open[p].0 == segment {
            proof {
                assert forall|k: int| 0 <= k < open@.len() && (#[trigger] open@[k]).0 == segment implies k == p by {
                    if k < p {
                        assert(open@[k].0.start_x < segment.start_x);
                    } else if k > p {
                        assert(open@[p as int].0.start_x < open@[k].0.start_x);
                    }
                }
            }
            open[p].1
        } else {
            proof {
                assert forall|k: int| 0 <= k < open@.len() implies (#[trigger] open@[k]).0 != segment by {
                    if k > p {
                        assert(open@[p as int].0.start_x < open@[k].0.start_x);
                    }
                }
            }
            y
        };
        next.push((segment, start));
        proof {
            if i + 1 < segments@.len() {
                assert(segments@[i as int].start_x < segments@[i + 1].start_x);
            }
        }
        i = i + 1;
    }
    assert(next@ =~= reopened(open@, segments@, y));
    next
}

/// Closes the open runs that row `y` does not repeat.
fn close_runs(
    map: &mut BTreeMap<u32, Vec<Rectangle>>,
    open: &Vec<(RowSegment, u32)>,
    segments: &Vec<RowSegment>,
    y: u32,
    Ghost(closed): Ghost<Seq<(u32, Rectangle)>>,
    count: &mut usize,
)
    requires
        open_starts_increase(open@),
        starts_increase(segments@),
        groups_rectangles(old(map)@, closed),
        *old(count) + open@.len() <= usize::MAX,
    ensures
        groups_rectangles(final(map)@, closed + closed_runs(open@, segments@, y)),
        *final(count) == *old(count) + closed_runs(open@, segments@, y).len(),
{
    let ghost count0 = *count;
    let mut q: usize = 0;
    let mut j: usize = 0;
    assert(closed + closed_runs(open@.take(0), segments@, y) =~= closed);
    while j < open.len()
        invariant
            open_starts_increase(open@),
            starts_increase(segments@),
            j <= open@.len(),
            q <= segments@.len(),
            count0 + open@.len() <= usize::MAX,
            *count == count0 + closed_runs(open@.take(j as int), segments@, y).len(),
            closed_runs(open@.take(j as int), segments@, y).len() <= j,
            groups_rectangles(map@, closed + closed_runs(open@.take(j as int), segments@, y)),
            j < open@.len() ==> forall|k: int| 0 <= k < q ==> (#[trigger] segments@[k]).start_x < open@[j as int].0.start_x,
        decreases open@.len() - j,
    {
        let run = open[j];
        while q < segments.len() && segments[q].start_x < run.0.start_x
            invariant
                q <= segments@.len(),
                forall|k: int| 0 <= k < q ==> (#[trigger] segments@[k]).start_x < run.0.start_x,
            decreases segments@.len() - q,
        {
            q = q + 1;
        }
        assert(open@.take(j + 1).drop_last() =~= open@.take(j as int));
        assert(open@.take(j + 1).last() == run);
        if q < segments.len() && segments[q] == run.0 {
            assert(segments@.contains(run.0));
            assert(closed_runs(open@.take(j + 1), segments@, y) == closed_runs(open@.take(j as int), segments@, y));
        } else {
            proof {
                assert forall|k: int| 0 <= k < segments@.len() implies (#[trigger] segments@[k]) != run.0 by {
                    if k > q {
                        assert(segments@[q as int].start_x < segments@[k].start_x);
                    }
                }
                assert(!segments@.contains(run.0));
            }
            let rect = Rectangle { start_x: run.0.start_x, end_x: run.0.end_x, start_y: run.1, end_y: y };
            add_rectangle(map, run.0.value, rect, Ghost(closed + closed_runs(open@.take(j as int), segments@, y)));
            *count = *count + 1;
            assert((closed + closed_runs(open@.take(j as int), segments@, y)).push((run.0.value, rect))
                =~= closed + closed_runs(open@.take(j + 1), segments@, y));
        }
        proof {
            if j + 1 < open@.len() {
                assert(open@[j as int].0.start_x < open@[j + 1].0.start_x);
            }
        }
        j = j + 1;
    }
    assert(open@.take(open@.len() as int) =~= open@);
}

proof fn lemma_runs_ordered_len(segments: Seq<RowSegment>, bound: int)
    requires
        runs_ordered(segments, bound),
    ensures
        segments.len() <= bound || segments.len() == 0,
        segments.len() > 0 ==> segments.last().end_x >= segments.len(),
    decreases segments.len(),
{
    if segments.len() > 0 {
        let rest = segments.drop_last();
        assert(runs_ordered(rest, bound)) by {
            assert forall|i: int, j: int| 0 <= i < j < rest.len() implies (#[trigger] rest[i]).end_x <= (#[trigger] rest[j]).start_x by {
                assert(segments[i].end_x <= segments[j].start_x);
            }
        }
        lemma_runs_ordered_len(rest, bound);
        if rest.len() > 0 {
            assert(segments[rest.len() - 1].end_x <= segments[segments.len() - 1].start_x);
        }
        assert(segments[segments.len() - 1].end_x <= bound);
    }
}

proof fn lemma_ordered_starts_increase(segments: Seq<RowSegment>, bound: int)
    requires
        runs_ordered(segments, bound),
    ensures
        starts_increase(segments),
{
    assert forall|i: int, j: int| 0 <= i < j < segments.len() implies (#[trigger] segments[i]).start_x < (#[trigger] segments[j]).start_x by {
        assert(segments[i].start_x < segments[i].end_x);
        assert(segments[i].end_x <= segments[j].start_x);
    }
}

impl PabrMap {
    proof fn lemma_field_rows_ordered_here(&self, row_shift: u32, mapping: Option<RegionGroupMapping>, n: nat)
        requires
            self.field_rows_spec(row_shift, mapping, n) is Ok,
        ensures
            self.field_rows_spec(row_shift, mapping, n) matches Ok(rows) && rows.len() == n
                && forall|r: int| 0 <= r < rows.len() ==> starts_increase(#[trigger] rows[r])
                    && rows[r].len() <= self.rid.native_width,
        decreases n,
    {
        if n > 0 {
            self.lemma_field_rows_ordered_here(row_shift, mapping, (n - 1) as nat);
            let source_row = sample_source_row_spec((n - 1) as u32, self.rid.native_height, self.bkd.rows@.len() as usize);
            self.lemma_segments_ordered(source_row, row_shift, mapping);
            let rows = self.field_rows_spec(row_shift, mapping, n)->Ok_0;
            lemma_ordered_starts_increase(rows[n - 1], self.rid.native_width as int);
            lemma_runs_ordered_len(rows[n - 1], self.rid.native_width as int);
        }
    }

    /// The rectangles of equal runs stacked over consecutive output rows at
    /// native size, grouped by value in the order they close, and how many
    /// there are.
    fn rectangles_counted(&self, row_shift: u32, mapping: Option<&RegionGroupMapping>) -> (r: Result<(BTreeMap<u32, Vec<Rectangle>>, usize), PabrError>)
        requires
            self.bkd.rows@.len() * row_shift <= u64::MAX,
            2 * self.rid.native_height * self.bkd.rows@.len() <= u64::MAX,
            (self.rid.native_height + 1) * self.rid.native_width <= usize::MAX,
        ensures
            self.rid.native_width == 0 || self.rid.native_height == 0 ==> r == Err::<(BTreeMap<u32, Vec<Rectangle>>, usize), PabrError>(PabrError::ZeroNativeDimensions),
            self.rid.native_width > 0 && self.rid.native_height > 0 && self.bkd.rows@.len() == 0
                ==> r == Err::<(BTreeMap<u32, Vec<Rectangle>>, usize), PabrError>(PabrError::NoBkdRows),
            self.rid.native_width > 0 && self.rid.native_height > 0 && self.bkd.rows@.len() > 0 ==> match self.field_rows_spec(
                row_shift,
                match mapping {
                    Some(m) => Some(*m),
                    None => None,
                },
                self.rid.native_height as nat,
            ) {
                Ok(rows) => r matches Ok((map, count)) && groups_rectangles(map@, all_rectangles(rows, self.rid.native_height))
                    && count == all_rectangles(rows, self.rid.native_height).len(),
                Err(e) => r == Err::<(BTreeMap<u32, Vec<Rectangle>>, usize), PabrError>(e),
            },
    {
        let ghost m = match mapping {
            Some(mm) => Some(*mm),
            None => None::<RegionGroupMapping>,
        };
        let rows = match self.build_field_rows(row_shift, mapping) {
            Ok(v) => v,
            Err(e) => return Err(e),
        };
        let ghost rs = segment_rows_view(rows@);
        proof {
            self.lemma_field_rows_ordered_here(row_shift, m, self.rid.native_height as nat);
        }
        let nh = self.rid.native_height;
        let ghost nw = self.rid.native_width as int;
        let mut map: BTreeMap<u32, Vec<Rectangle>> = BTreeMap::new();
        let mut open: Vec<(RowSegment, u32)> = Vec::new();
        let ghost mut closed: Seq<(u32, Rectangle)> = Seq::empty();
        let mut count: usize = 0;
        let mut y: u32 = 0;
        proof {
            assert(open@ =~= rect_state(rs, 0).0);
            assert forall|v: u32| #![trigger map@.contains_key(v)]
                (map@.contains_key(v) <==> rects_of(closed, v).len() > 0) && (map@.contains_key(v) ==> map@[v]@ == rects_of(closed, v)) by {}
        }
        while y < nh
            invariant
                nh == self.rid.native_height,
                nw == self.rid.native_width,
                (nh + 1) * nw <= usize::MAX,
                rs == segment_rows_view(rows@),
                rs.len() == nh,
                forall|q: int| 0 <= q < rs.len() ==> starts_increase(#[trigger] rs[q]) && rs[q].len() <= nw,
                y <= nh,
                open@ == rect_state(rs, y as nat).0,
                closed == rect_state(rs, y as nat).1,
                open_starts_increase(open@),
                open@.len() <= nw,
                count == closed.len(),
                closed.len() <= y * nw,
                groups_rectangles(map@, closed),
            decreases nh - y,
        {
            let segments = &rows[y as usize];
            assert(segments@ == rs[y as int]);
            proof {
                assert((y + 1) * nw <= (nh + 1) * nw) by (nonlinear_arith)
                    requires
                        y < nh,
                        nw >= 0,
                ;
                assert(y * nw + nw == (y + 1) * nw) by (nonlinear_arith);
            }
            close_runs(&mut map, &open, segments, y, Ghost(closed), &mut count);
            let next = reopen_runs(&open, segments, y);
            proof {
                lemma_closed_runs_len(open@, segments@, y);
                closed = closed + closed_runs(open@, segments@, y);
            }
            open = next;
            y = y + 1;
        }
        let empty: Vec<RowSegment> = Vec::new();
        proof {
            assert(nh * nw + nw == (nh + 1) * nw) by (nonlinear_arith);
        }
        close_runs(&mut map, &open, &empty, nh, Ghost(closed), &mut count);
        proof {
            assert(empty@ =~= Seq::<RowSegment>::empty());
        }
        Ok((map, count))
    }

    /// The rectangles of equal runs stacked over consecutive output rows at
    /// native size, grouped by value in the order they close.
    pub fn build_rectangles(&self, row_shift: u32, mapping: Option<&RegionGroupMapping>) -> (r: Result<BTreeMap<u32, Vec<Rectangle>>, PabrError>)
        requires
            self.bkd.rows@.len() * row_shift <= u64::MAX,
            2 * self.rid.native_height * self.bkd.rows@.len() <= u64::MAX,
            (self.rid.native_height + 1) * self.rid.native_width <= usize::MAX,
        ensures
            self.rid.native_width == 0 || self.rid.native_height == 0 ==> r == Err::<BTreeMap<u32, Vec<Rectangle>>, PabrError>(PabrError::ZeroNativeDimensions),
            self.rid.native_width > 0 && self.rid.native_height > 0 && self.bkd.rows@.len() == 0
                ==> r == Err::<BTreeMap<u32, Vec<Rectangle>>, PabrError>(PabrError::NoBkdRows),
            self.rid.native_width > 0 && self.rid.native_height > 0 && self.bkd.rows@.len() > 0 ==> match self.field_rows_spec(
                row_shift,
                match mapping {
                    Some(m) => Some(*m),
                    None => None,
                },
                self.rid.native_height as nat,
            ) {
                Ok(rows) => r matches Ok(map) && groups_rectangles(map@, all_rectangles(rows, self.rid.native_height)),
                Err(e) => r == Err::<BTreeMap<u32, Vec<Rectangle>>, PabrError>(e),
            },
    {
        match self.rectangles_counted(row_shift, mapping) {
            Ok((map, _)) => Ok(map),
            Err(e) => Err(e),
        }
    }

    /// The rectangles of each region, for a GeoJSON file at `output_path`,
    /// and what that file will hold.
    pub fn export_regions_geojson(&self, output_path: &str, row_shift: u32) -> (r: Result<(BTreeMap<u32, Vec<Rectangle>>, GeoJsonExportSummary), PabrError>)
        requires
            self.bkd.rows@.len() * row_shift <= u64::MAX,
            2 * self.rid.native_height * self.bkd.rows@.len() <= u64::MAX,
            (self.rid.native_height + 1) * self.rid.native_width <= usize::MAX,
        ensures
            self.rid.native_width == 0 || self.rid.native_height == 0 ==> r is Err,
            self.rid.native_width > 0 && self.rid.native_height > 0 && self.bkd.rows@.len() == 0 ==> r is Err,
            self.rid.native_width > 0 && self.rid.native_height > 0 && self.bkd.rows@.len() > 0 ==> match self.field_rows_spec(
                row_shift, None, self.rid.native_height as nat) {
                Ok(rows) => r matches Ok((map, summary)) && groups_rectangles(map@, all_rectangles(rows, self.rid.native_height))
                    && summary.output_path@ == output_path@ && summary.feature_count == map@.len()
                    && summary.rectangle_count == all_rectangles(rows, self.rid.native_height).len(),
                Err(e) => r matches Err(e2) && e2 == e,
            },
    {
        let (map, count) = match self.rectangles_counted(row_shift, None) {
            Ok(v) => v,
            Err(e) => return Err(e),
        };
        let feature_count = map.len();
        Ok((map, GeoJsonExportSummary { output_path: output_path.to_owned(), feature_count, rectangle_count: count }))
    }

    /// The rectangles of each region group, for a GeoJSON file at
    /// `output_path`, and what that file will hold.
    pub fn export_region_groups_geojson(&self, output_path: &str, row_shift: u32, mapping: &RegionGroupMapping) -> (r: Result<(BTreeMap<u32, Vec<Rectangle>>, GeoJsonExportSummary), PabrError>)
        requires
            self.bkd.rows@.len() * row_shift <= u64::MAX,
            2 * self.rid.native_height * self.bkd.rows@.len() <= u64::MAX,
            (self.rid.native_height + 1) * self.rid.native_width <= usize::MAX,
        ensures
            self.rid.native_width == 0 || self.rid.native_height == 0 ==> r is Err,
            self.rid.native_width > 0 && self.rid.native_height > 0 && self.bkd.rows@.len() == 0 ==> r is Err,
            self.rid.native_width > 0 && self.rid.native_height > 0 && self.bkd.rows@.len() > 0 ==> match self.field_rows_spec(
                row_shift, Some(*mapping), self.rid.native_height as nat) {
                Ok(rows) => r matches Ok((map, summary)) && groups_rectangles(map@, all_rectangles(rows, self.rid.native_height))
                    && summary.output_path@ == output_path@ && summary.feature_count == map@.len()
                    && summary.rectangle_count == all_rectangles(rows, self.rid.native_height).len(),
                Err(e) => r matches Err(e2) && e2 == e,
            },
    {
        let (map, count) = match self.rectangles_counted(row_shift, Some(mapping)) {
            Ok(v) => v,
            Err(e) => return Err(e),
        };
        let feature_count = map.len();
        Ok((map, GeoJsonExportSummary { output_path: output_path.to_owned(), feature_count, rectangle_count: count }))
    }
}

proof fn lemma_closed_runs_len(open: Seq<(RowSegment, u32)>, segments: Seq<RowSegment>, y: u32)
    ensures
        closed_runs(open, segments, y).len() <= open.len(),
    decreases open.len(),
{
    if open.len() > 0 {
        lemma_closed_runs_len(open.drop_last(), segments, y);
    }
}


impl PabrMap {
    /// The rectangles that the GeoJSON exports write partition the field:
    /// each lies within the native size and stacks one run of its value, every
    /// run of every row lies in one of them, and no two different ones share
    /// a cell (see `build_rectangles`, which groups exactly these by value).
    pub proof fn law_exported_rectangles_partition_the_field(&self, row_shift: u32, mapping: Option<RegionGroupMapping>)
        requires
            self.field_rows_spec(row_shift, mapping, self.rid.native_height as nat) is Ok,
        ensures
            ({
                let rows = self.field_rows_spec(row_shift, mapping, self.rid.native_height as nat)->Ok_0;
                let all = all_rectangles(rows, self.rid.native_height);
                &&& forall|k: int| 0 <= k < all.len() ==> rect_in_bounds(
                    (#[trigger] all[k]).1,
                    self.rid.native_width as int,
                    self.rid.native_height as int,
                )
                &&& forall|k: int| 0 <= k < all.len() ==> {
                    let c = #[trigger] all[k];
                    run_spans(rows, rect_run(c.0, c.1), c.1.start_y as int, c.1.end_y as int)
                }
                &&& forall|y: int, p: int| 0 <= y < rows.len() && 0 <= p < rows[y].len() ==> covered_by(all, #[trigger] rows[y][p], y)
                &&& forall|i: int, j: int| 0 <= i < all.len() && 0 <= j < all.len() && rects_overlap((#[trigger] all[i]).1, (#[trigger] all[j]).1)
                    ==> all[i] == all[j]
            }),
    {
        self.lemma_field_rows_ordered(row_shift, mapping, self.rid.native_height as nat);
        let rows = self.field_rows_spec(row_shift, mapping, self.rid.native_height as nat)->Ok_0;
        let w = self.rid.native_width as int;
        let h = self.rid.native_height;
        law_rectangles_in_bounds(rows, w, h);
        law_rectangles_lie_on_runs(rows, h);
        law_rectangles_cover_runs(rows, w, h);
        law_rectangles_do_not_overlap(rows, w, h);
    }
}

} // verus!
