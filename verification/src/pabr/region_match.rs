//! Matching the regions of a PABR map against another region layer drawn
//! on the same grid: the area each pair of regions shares, and for each
//! region the regions of the other layer that cover it best.
use std::collections::{BTreeMap, BTreeSet};
use vstd::prelude::*;
use super::{PabrError, RowSegment};
use super::geojson::segment_rows_view;
use crate::region_sources::{area_region_ids, lists, sorted_difference, sorted_ids};
use super::matching::{field_region_areas, region_area_map};
use super::{PabrMap, RegionMatchSummary};
use crate::waypoint_xml::strictly_increasing;

verus! {

broadcast use vstd::laws_cmp::group_laws_cmp, vstd::std_specs::btree::group_btree_axioms;

/// The length that two runs share.
pub open spec fn seg_overlap(a: RowSegment, b: RowSegment) -> nat {
    let lo = if a.start_x > b.start_x { a.start_x } else { b.start_x };
    let hi = if a.end_x < b.end_x { a.end_x } else { b.end_x };
    if lo < hi {
        (hi - lo) as nat
    } else {
        0
    }
}

/// The area that one sweep along a row credits to the pair `key`, from run
/// `i` of the first layer's row and run `j` of the second's on. At each step
/// the two current runs are credited with the length they share, and the
/// run that ends first gives way to the next one of its row (both, where
/// they end together); the sweep stops when either row is used up.
pub open spec fn sweep_credit(pr: Seq<RowSegment>, cr: Seq<RowSegment>, i: int, j: int, key: (u32, u32)) -> nat
    decreases pr.len() - i + cr.len() - j,
{
    if i < 0 || j < 0 || i >= pr.len() || j >= cr.len() {
        0
    } else {
        let a = pr[i];
        let b = cr[j];
        let here: nat = if a.value == key.0 && b.value == key.1 {
            seg_overlap(a, b)
        } else {
            0
        };
        if a.end_x < b.end_x {
            here + sweep_credit(pr, cr, i + 1, j, key)
        } else if a.end_x > b.end_x {
            here + sweep_credit(pr, cr, i, j + 1, key)
        } else {
            here + sweep_credit(pr, cr, i + 1, j + 1, key)
        }
    }
}

/// The area credited to `key` by the sweeps along the first `n` rows.
pub open spec fn total_sweep(prs: Seq<Seq<RowSegment>>, crs: Seq<Seq<RowSegment>>, key: (u32, u32), n: int) -> nat
    decreases n,
{
    if n <= 0 {
        0
    } else {
        total_sweep(prs, crs, key, n - 1) + sweep_credit(prs[n - 1], crs[n - 1], 0, 0, key)
    }
}

/// The number of runs in the first `n` rows of both layers.
pub open spec fn run_count(prs: Seq<Seq<RowSegment>>, crs: Seq<Seq<RowSegment>>, n: int) -> nat
    decreases n,
{
    if n <= 0 {
        0
    } else {
        run_count(prs, crs, n - 1) + prs[n - 1].len() + crs[n - 1].len()
    }
}

/// The most runs whose shared lengths a sum in 64 bits always holds: each
/// step of a sweep credits less than 2^32, so 2^32 runs credit less than
/// 2^64. The shared areas are summed in `u64`; past this many runs a sum
/// could pass `u64::MAX`, where plain `u64` addition would wrap or panic,
/// so such row lists are refused instead of summed wrongly.
pub const OVERLAP_RUN_LIMIT: u64 = 0x1_0000_0000;

proof fn lemma_sweep_bound(pr: Seq<RowSegment>, cr: Seq<RowSegment>, i: int, j: int, key: (u32, u32))
    requires
        0 <= i <= pr.len(),
        0 <= j <= cr.len(),
    ensures
        sweep_credit(pr, cr, i, j, key) <= (pr.len() - i + cr.len() - j) * 0xFFFF_FFFF,
    decreases pr.len() - i + cr.len() - j,
{
    if i < pr.len() && j < cr.len() {
        let a = pr[i];
        let b = cr[j];
        if a.end_x < b.end_x {
            lemma_sweep_bound(pr, cr, i + 1, j, key);
        } else if a.end_x > b.end_x {
            lemma_sweep_bound(pr, cr, i, j + 1, key);
        } else {
            lemma_sweep_bound(pr, cr, i + 1, j + 1, key);
        }
    }
}

proof fn lemma_total_bound(prs: Seq<Seq<RowSegment>>, crs: Seq<Seq<RowSegment>>, key: (u32, u32), n: int)
    requires
        0 <= n <= prs.len(),
        prs.len() == crs.len(),
    ensures
        total_sweep(prs, crs, key, n) <= run_count(prs, crs, n) * 0xFFFF_FFFF,
    decreases n,
{
    if n > 0 {
        lemma_total_bound(prs, crs, key, n - 1);
        lemma_sweep_bound(prs[n - 1], crs[n - 1], 0, 0, key);
    }
}

proof fn lemma_total_monotone(prs: Seq<Seq<RowSegment>>, crs: Seq<Seq<RowSegment>>, key: (u32, u32), r: int, n: int)
    requires
        0 <= r <= n,
    ensures
        total_sweep(prs, crs, key, r) <= total_sweep(prs, crs, key, n),
    decreases n - r,
{
    if r < n {
        lemma_total_monotone(prs, crs, key, r, n - 1);
    }
}

proof fn lemma_run_count_monotone(prs: Seq<Seq<RowSegment>>, crs: Seq<Seq<RowSegment>>, r: int, n: int)
    requires
        0 <= r <= n,
    ensures
        run_count(prs, crs, r) <= run_count(prs, crs, n),
    decreases n - r,
{
    if r < n {
        lemma_run_count_monotone(prs, crs, r, n - 1);
    }
}

/// Whether no run of a row ends before it starts, and each ends before or
/// where every later run starts.
pub open spec fn runs_apart(s: Seq<RowSegment>) -> bool {
    &&& forall|i: int| 0 <= i < s.len() ==> (#[trigger] s[i]).start_x <= s[i].end_x
    &&& forall|i: int, j: int| 0 <= i < j < s.len() ==> (#[trigger] s[i]).end_x <= (#[trigger] s[j]).start_x
}

/// The length that runs `a` and `b` share, where they are of the pair `key`.
pub open spec fn pair_share(a: RowSegment, b: RowSegment, key: (u32, u32)) -> nat {
    if a.value == key.0 && b.value == key.1 {
        seg_overlap(a, b)
    } else {
        0
    }
}

/// The length that run `a` shares with runs `j..` of `cr`, for the pair `key`.
pub open spec fn run_shared(a: RowSegment, cr: Seq<RowSegment>, j: int, key: (u32, u32)) -> nat
    decreases cr.len() - j,
{
    if j < 0 || j >= cr.len() {
        0
    } else {
        pair_share(a, cr[j], key) + run_shared(a, cr, j + 1, key)
    }
}

/// The length that runs `i..` of `pr` share with run `b`, for the pair `key`.
pub open spec fn column_shared(pr: Seq<RowSegment>, b: RowSegment, i: int, key: (u32, u32)) -> nat
    decreases pr.len() - i,
{
    if i < 0 || i >= pr.len() {
        0
    } else {
        pair_share(pr[i], b, key) + column_shared(pr, b, i + 1, key)
    }
}

/// The length that runs `i..` of `pr` share with runs `j..` of `cr`, summed
/// over every pair of them, for the pair of regions `key`.
pub open spec fn rows_shared(pr: Seq<RowSegment>, cr: Seq<RowSegment>, i: int, j: int, key: (u32, u32)) -> nat
    decreases pr.len() - i,
{
    if i < 0 || i >= pr.len() {
        0
    } else {
        run_shared(pr[i], cr, j, key) + rows_shared(pr, cr, i + 1, j, key)
    }
}

/// The area that the runs of the pair `key` share over the first `n` rows,
/// summed over every pair of runs on each row.
pub open spec fn layers_shared(prs: Seq<Seq<RowSegment>>, crs: Seq<Seq<RowSegment>>, key: (u32, u32), n: int) -> nat
    decreases n,
{
    if n <= 0 {
        0
    } else {
        layers_shared(prs, crs, key, n - 1) + rows_shared(prs[n - 1], crs[n - 1], 0, 0, key)
    }
}

proof fn lemma_rows_shared_by_column(pr: Seq<RowSegment>, cr: Seq<RowSegment>, i: int, j: int, key: (u32, u32))
    requires
        0 <= i,
        0 <= j < cr.len(),
    ensures
        rows_shared(pr, cr, i, j, key) == column_shared(pr, cr[j], i, key) + rows_shared(pr, cr, i, j + 1, key),
    decreases pr.len() - i,
{
    if i < pr.len() {
        lemma_rows_shared_by_column(pr, cr, i + 1, j, key);
    }
}

proof fn lemma_rows_shared_past_end(pr: Seq<RowSegment>, cr: Seq<RowSegment>, i: int, j: int, key: (u32, u32))
    requires
        0 <= i,
        j >= cr.len(),
    ensures
        rows_shared(pr, cr, i, j, key) == 0,
    decreases pr.len() - i,
{
    if i < pr.len() {
        lemma_rows_shared_past_end(pr, cr, i + 1, j, key);
    }
}

/// A run shares nothing with the runs of an ordered row that start where
/// it ends or later.
proof fn lemma_run_shared_clear(a: RowSegment, cr: Seq<RowSegment>, j: int, key: (u32, u32))
    requires
        runs_apart(cr),
        0 <= j,
        j < cr.len() ==> a.end_x <= cr[j].start_x,
    ensures
        run_shared(a, cr, j, key) == 0,
    decreases cr.len() - j,
{
    if j < cr.len() {
        if j + 1 < cr.len() {
            assert(cr[j].start_x <= cr[j].end_x);
            assert(cr[j].end_x <= cr[j + 1].start_x);
        }
        lemma_run_shared_clear(a, cr, j + 1, key);
    }
}

/// A run shares nothing with the runs of an ordered row that start where
/// it ends or later.
proof fn lemma_column_shared_clear(pr: Seq<RowSegment>, b: RowSegment, i: int, key: (u32, u32))
    requires
        runs_apart(pr),
        0 <= i,
        i < pr.len() ==> b.end_x <= pr[i].start_x,
    ensures
        column_shared(pr, b, i, key) == 0,
    decreases pr.len() - i,
{
    if i < pr.len() {
        if i + 1 < pr.len() {
            assert(pr[i].start_x <= pr[i].end_x);
            assert(pr[i].end_x <= pr[i + 1].start_x);
        }
        lemma_column_shared_clear(pr, b, i + 1, key);
    }
}

proof fn lemma_sweep_shared(pr: Seq<RowSegment>, cr: Seq<RowSegment>, i: int, j: int, key: (u32, u32))
    requires
        runs_apart(pr),
        runs_apart(cr),
        0 <= i <= pr.len(),
        0 <= j <= cr.len(),
    ensures
        sweep_credit(pr, cr, i, j, key) == rows_shared(pr, cr, i, j, key),
    decreases pr.len() - i + cr.len() - j,
{
    if i < pr.len() {
        if j >= cr.len() {
            lemma_rows_shared_past_end(pr, cr, i, j, key);
        } else {
            let a = pr[i];
            let b = cr[j];
            if j + 1 < cr.len() {
                assert(b.end_x <= cr[j + 1].start_x);
            }
            if i + 1 < pr.len() {
                assert(a.end_x <= pr[i + 1].start_x);
            }
            if a.end_x < b.end_x {
                lemma_sweep_shared(pr, cr, i + 1, j, key);
                lemma_run_shared_clear(a, cr, j + 1, key);
            } else if a.end_x > b.end_x {
                lemma_sweep_shared(pr, cr, i, j + 1, key);
                lemma_rows_shared_by_column(pr, cr, i, j, key);
                lemma_column_shared_clear(pr, b, i + 1, key);
            } else {
                lemma_sweep_shared(pr, cr, i + 1, j + 1, key);
                lemma_run_shared_clear(a, cr, j + 1, key);
                lemma_rows_shared_by_column(pr, cr, i + 1, j, key);
                lemma_column_shared_clear(pr, b, i + 1, key);
            }
        }
    }
}

/// Where the runs of every row of both layers are ordered and apart, the
/// area that the sweeps of `accumulate_overlap_areas` credit to a pair of
/// regions is the area their runs share: the length shared by every pair of
/// their runs on a row, summed over the rows.
pub proof fn law_sweep_counts_shared_area(prs: Seq<Seq<RowSegment>>, crs: Seq<Seq<RowSegment>>, key: (u32, u32), n: int)
    requires
        0 <= n <= prs.len(),
        prs.len() == crs.len(),
        forall|r: int| 0 <= r < prs.len() ==> runs_apart(#[trigger] prs[r]),
        forall|r: int| 0 <= r < crs.len() ==> runs_apart(#[trigger] crs[r]),
    ensures
        total_sweep(prs, crs, key, n) == layers_shared(prs, crs, key, n),
    decreases n,
{
    if n > 0 {
        law_sweep_counts_shared_area(prs, crs, key, n - 1);
        lemma_sweep_shared(prs[n - 1], crs[n - 1], 0, 0, key);
    }
}

/// The length two runs share.
fn overlap_len(a: RowSegment, b: RowSegment) -> (r: u32)
    ensures
        r == seg_overlap(a, b),
{
    let lo = if a.start_x > b.start_x { a.start_x } else { b.start_x };
    let hi = if a.end_x < b.end_x { a.end_x } else { b.end_x };
    if lo < hi {
        hi - lo
    } else {
        0
    }
}

/// Whether `m` holds, for every pair of regions that share area, that area.
pub open spec fn holds_overlaps(m: Map<(u32, u32), u64>, area: spec_fn((u32, u32)) -> nat) -> bool {
    forall|key: (u32, u32)|
        #![trigger m.contains_key(key)]
        #![trigger area(key)]
        (m.contains_key(key) <==> area(key) > 0) && (m.contains_key(key) ==> m[key] == area(key))
}

/// The area that each pair of regions shares: `pabr_rows` and
/// `current_rows` hold the runs of each row of the two layers, ordered by
/// where they end; each row pair is swept once from left to right (see
/// `sweep_credit`), and a pair (region of the first layer, region of the
/// second) is listed with the length credited to it over all rows, where
/// that is not zero. Rows of different counts are refused, and so are more
/// than `OVERLAP_RUN_LIMIT` runs in all, whose sums 64 bits might not hold.
pub fn accumulate_overlap_areas(pabr_rows: &Vec<Vec<RowSegment>>, current_rows: &Vec<Vec<RowSegment>>) -> (r: Result<
    BTreeMap<(u32, u32), u64>,
    PabrError,
>)
    ensures
        pabr_rows@.len() != current_rows@.len() ==> r == Err::<BTreeMap<(u32, u32), u64>, PabrError>(
            PabrError::RowCountMismatch(pabr_rows@.len() as usize, current_rows@.len() as usize),
        ),
        pabr_rows@.len() == current_rows@.len() && run_count(
            segment_rows_view(pabr_rows@),
            segment_rows_view(current_rows@),
            pabr_rows@.len() as int,
        ) > OVERLAP_RUN_LIMIT ==> r == Err::<BTreeMap<(u32, u32), u64>, PabrError>(PabrError::OverlapSegmentLimit),
        pabr_rows@.len() == current_rows@.len() && run_count(
            segment_rows_view(pabr_rows@),
            segment_rows_view(current_rows@),
            pabr_rows@.len() as int,
        ) <= OVERLAP_RUN_LIMIT ==> (r matches Ok(m) && holds_overlaps(
            m@,
            |key: (u32, u32)|
                total_sweep(
                    segment_rows_view(pabr_rows@),
                    segment_rows_view(current_rows@),
                    key,
                    pabr_rows@.len() as int,
                ),
        )),
{
    if pabr_rows.len() != current_rows.len() {
        return Err(PabrError::RowCountMismatch(pabr_rows.len(), current_rows.len()));
    }
    let ghost prs = segment_rows_view(pabr_rows@);
    let ghost crs = segment_rows_view(current_rows@);
    let ghost n = pabr_rows@.len() as int;
    let mut count: u64 = 0;
    let mut q: usize = 0;
    while q < pabr_rows.len()
        invariant
            prs == segment_rows_view(pabr_rows@),
            crs == segment_rows_view(current_rows@),
            n == pabr_rows@.len(),
            pabr_rows@.len() == current_rows@.len(),
            q <= n,
            count == run_count(prs, crs, q as int),
            count <= OVERLAP_RUN_LIMIT,
        decreases n - q,
    {
        assert(prs[q as int] == pabr_rows@[q as int]@ && crs[q as int] == current_rows@[q as int]@);
        let a = pabr_rows[q].len();
        let b = current_rows[q].len();
        if a as u64 > OVERLAP_RUN_LIMIT - count || b as u64 > OVERLAP_RUN_LIMIT - count - a as u64 {
            proof {
                lemma_run_count_monotone(prs, crs, q + 1, n);
            }
            return Err(PabrError::OverlapSegmentLimit);
        }
        count = count + a as u64 + b as u64;
        q = q + 1;
    }
    proof {
        assert forall|key: (u32, u32)| #[trigger] total_sweep(prs, crs, key, n) <= u64::MAX by {
            lemma_total_bound(prs, crs, key, n);
        }
    }
    let mut overlaps: BTreeMap<(u32, u32), u64> = BTreeMap::new();
    let mut r: usize = 0;
    while r < pabr_rows.len()
        invariant
            prs == segment_rows_view(pabr_rows@),
            crs == segment_rows_view(current_rows@),
            n == pabr_rows@.len(),
            pabr_rows@.len() == current_rows@.len(),
            r <= n,
            forall|key: (u32, u32)| #[trigger] total_sweep(prs, crs, key, n) <= u64::MAX,
            holds_overlaps(overlaps@, |key: (u32, u32)| total_sweep(prs, crs, key, r as int)),
        decreases n - r,
    {
        let pr = &pabr_rows[r];
        let cr = &current_rows[r];
        assert(prs[r as int] == pr@ && crs[r as int] == cr@);
        let ghost mut acc: spec_fn((u32, u32)) -> nat = |key: (u32, u32)| 0nat;
        let mut pi: usize = 0;
        let mut ci: usize = 0;
        while pi < pr.len() && ci < cr.len()
            invariant
                prs == segment_rows_view(pabr_rows@),
                crs == segment_rows_view(current_rows@),
                n == pabr_rows@.len(),
                pabr_rows@.len() == current_rows@.len(),
                r < n,
                prs[r as int] == pr@,
                crs[r as int] == cr@,
                pi <= pr@.len(),
                ci <= cr@.len(),
                forall|key: (u32, u32)| #[trigger] total_sweep(prs, crs, key, n) <= u64::MAX,
                forall|key: (u32, u32)|
                    #[trigger] acc(key) + sweep_credit(pr@, cr@, pi as int, ci as int, key) == sweep_credit(pr@, cr@, 0, 0, key),
                holds_overlaps(overlaps@, |key: (u32, u32)| total_sweep(prs, crs, key, r as int) + acc(key)),
            decreases pr@.len() - pi + cr@.len() - ci,
        {
            let a = pr[pi];
            let b = cr[ci];
            let ov = overlap_len(a, b);
            let key = (a.value, b.value);
            let (npi, nci) = if a.end_x < b.end_x {
                (pi + 1, ci)
            } else if a.end_x > b.end_x {
                (pi, ci + 1)
            } else {
                (pi + 1, ci + 1)
            };
            let ghost credit = |k: (u32, u32)| if k == key { ov as nat } else { 0nat };
            assert forall|k: (u32, u32)|
                #[trigger] sweep_credit(pr@, cr@, pi as int, ci as int, k) == credit(k) + sweep_credit(
                    pr@,
                    cr@,
                    npi as int,
                    nci as int,
                    k,
                ) by {}
            let ghost before = overlaps@;
            let ghost old_acc = acc;
            if ov > 0 {
                let old_value: u64 = match overlaps.get(&key) {
                    Some(v) => *v,
                    None => 0,
                };
                proof {
                    lemma_total_monotone(prs, crs, key, r + 1, n);
                    assert(total_sweep(prs, crs, key, r + 1) == total_sweep(prs, crs, key, r as int) + sweep_credit(
                        pr@,
                        cr@,
                        0,
                        0,
                        key,
                    ));
                    assert(acc(key) + sweep_credit(pr@, cr@, pi as int, ci as int, key) == sweep_credit(pr@, cr@, 0, 0, key));
                }
                overlaps.insert(key, old_value + ov as u64);
            }
            proof {
                acc = |k: (u32, u32)| old_acc(k) + credit(k);
                assert forall|k: (u32, u32)|
                    #[trigger] acc(k) + sweep_credit(pr@, cr@, npi as int, nci as int, k) == sweep_credit(pr@, cr@, 0, 0, k) by {
                    assert(old_acc(k) + sweep_credit(pr@, cr@, pi as int, ci as int, k) == sweep_credit(pr@, cr@, 0, 0, k));
                }
                assert forall|k: (u32, u32)|
                    #![trigger overlaps@.contains_key(k)]
                    (overlaps@.contains_key(k) <==> total_sweep(prs, crs, k, r as int) + acc(k) > 0) && (overlaps@.contains_key(k)
                        ==> overlaps@[k] == total_sweep(prs, crs, k, r as int) + acc(k)) by {
                    assert(before.contains_key(k) <==> total_sweep(prs, crs, k, r as int) + old_acc(k) > 0);
                }
            }
            pi = npi;
            ci = nci;
        }
        proof {
            assert forall|k: (u32, u32)|
                #![trigger overlaps@.contains_key(k)]
                (overlaps@.contains_key(k) <==> total_sweep(prs, crs, k, r + 1) > 0) && (overlaps@.contains_key(k)
                    ==> overlaps@[k] == total_sweep(prs, crs, k, r + 1)) by {
                assert(acc(k) + sweep_credit(pr@, cr@, pi as int, ci as int, k) == sweep_credit(pr@, cr@, 0, 0, k));
                assert(overlaps@.contains_key(k) <==> total_sweep(prs, crs, k, r as int) + acc(k) > 0);
            }
        }
        r = r + 1;
    }
    Ok(overlaps)
}


/// The area of region `id` in `m`, or `default` where `m` has none.
pub open spec fn area_or(m: Map<u32, u64>, id: u32, default: int) -> int {
    if m.contains_key(id) {
        m[id] as int
    } else {
        default
    }
}

/// Whether candidate `l` (a region of the other layer and the area it
/// shares) ranks before candidate `r` for a region of area `sa`: the larger
/// shared area first; then the larger share of the candidate's own area
/// (its area taken as 1 where unknown); then the larger intersection over
/// union; then the smaller region id. Fractions are compared by cross
/// multiplication.
pub open spec fn candidate_before(l: (u32, u64), r: (u32, u64), sa: int, targets: Map<u32, u64>) -> bool {
    let la = area_or(targets, l.0, 1);
    let ra = area_or(targets, r.0, 1);
    let lu = sa + la - l.1;
    let ru = sa + ra - r.1;
    l.1 > r.1 || (l.1 == r.1 && (r.1 * la < l.1 * ra || (r.1 * la == l.1 * ra && (r.1 * lu < l.1 * ru || (r.1 * lu
        == l.1 * ru && l.0 < r.0)))))
}

/// The same order, written without products: with equal shared areas, a
/// shared area that is not zero puts the smaller candidate area first.
pub open spec fn candidate_before_linear(l: (u32, u64), r: (u32, u64), targets: Map<u32, u64>) -> bool {
    let la = area_or(targets, l.0, 1);
    let ra = area_or(targets, r.0, 1);
    l.1 > r.1 || (l.1 == r.1 && ((l.1 > 0 && la < ra) || ((l.1 == 0 || la == ra) && l.0 < r.0)))
}

proof fn lemma_candidate_before_linear(l: (u32, u64), r: (u32, u64), sa: int, targets: Map<u32, u64>)
    ensures
        candidate_before(l, r, sa, targets) == candidate_before_linear(l, r, targets),
{
    let la = area_or(targets, l.0, 1);
    let ra = area_or(targets, r.0, 1);
    let v = l.1 as int;
    if l.1 == r.1 {
        assert((v * la < v * ra) <==> (v > 0 && la < ra)) by (nonlinear_arith)
            requires
                v >= 0,
        ;
        assert((v * la == v * ra) <==> (v == 0 || la == ra)) by (nonlinear_arith)
            requires
                v >= 0,
        ;
        assert(v * (sa + la - v) < v * (sa + ra - v) <==> v * la < v * ra) by (nonlinear_arith);
        assert(v * (sa + la - v) == v * (sa + ra - v) <==> v * la == v * ra) by (nonlinear_arith);
    }
}

/// Whether `l` ranks before `r`.
fn candidate_ranks_before(l: (u32, u64), r: (u32, u64), sa: u64, targets: &BTreeMap<u32, u64>) -> (b: bool)
    ensures
        b == candidate_before(l, r, sa as int, targets@),
{
    proof {
        lemma_candidate_before_linear(l, r, sa as int, targets@);
    }
    let la: u64 = match targets.get(&l.0) {
        Some(a) => *a,
        None => 1,
    };
    let ra: u64 = match targets.get(&r.0) {
        Some(a) => *a,
        None => 1,
    };
    l.1 > r.1 || (l.1 == r.1 && ((l.1 > 0 && la < ra) || ((l.1 == 0 || la == ra) && l.0 < r.0)))
}

/// The pair of the overlap map that joins region `id` of the layer being
/// ranked and region `t` of the other.
pub open spec fn pair_of(id: u32, t: u32, invert: bool) -> (u32, u32) {
    if invert {
        (t, id)
    } else {
        (id, t)
    }
}

/// The regions of the other layer that share area with region `id`, with
/// that area.
pub open spec fn candidates_spec(overlaps: Map<(u32, u32), u64>, id: u32, invert: bool) -> Map<u32, u64> {
    Map::new(|t: u32| overlaps.contains_key(pair_of(id, t, invert)), |t: u32| overlaps[pair_of(id, t, invert)])
}

/// The candidates that `adjacency` lists for region `id`: none where it
/// has no entry.
pub open spec fn adjacent(adjacency: Map<u32, BTreeMap<u32, u64>>, id: u32) -> Map<u32, u64> {
    if adjacency.contains_key(id) {
        adjacency[id]@
    } else {
        Map::empty()
    }
}

/// For each region of one layer (the first of each pair, or the second
/// where `invert`), the regions of the other layer it shares area with and
/// that area; a region that shares none has no entry.
pub fn build_adjacency(overlaps: &BTreeMap<(u32, u32), u64>, invert: bool) -> (r: BTreeMap<u32, BTreeMap<u32, u64>>)
    ensures
        forall|id: u32| #[trigger] adjacent(r@, id) == candidates_spec(overlaps@, id, invert),
        forall|id: u32|
            #[trigger] r@.contains_key(id) <==> exists|t: u32| #[trigger] overlaps@.contains_key(pair_of(id, t, invert)),
{
    let mut adjacency: BTreeMap<u32, BTreeMap<u32, u64>> = BTreeMap::new();
    let ghost om = overlaps@;
    let ghost mut seen: Set<(u32, u32)> = Set::empty();
    for (key, value) in it: overlaps.iter()
        invariant
            om == overlaps@,
            forall|j: int|
                0 <= j < it.seq().len() ==> om.contains_key(*(#[trigger] it.seq()[j]).0) && om[*it.seq()[j].0] == *it.seq()[j].1,
            forall|k: (u32, u32)| #[trigger] seen.contains(k) ==> om.contains_key(k),
            forall|k: (u32, u32)|
                #[trigger] om.contains_key(k) && !seen.contains(k) ==> exists|j: int|
                    it.index() <= j < it.seq().len() && *(#[trigger] it.seq()[j]).0 == k,
            forall|id: u32| #[trigger] adjacent(adjacency@, id) == candidates_spec(om.restrict(seen), id, invert),
            forall|id: u32|
                #[trigger] adjacency@.contains_key(id) <==> exists|t: u32| #[trigger] seen.contains(pair_of(id, t, invert)),
    {
        let ghost k = it.index();
        let ghost sq = it.seq();
        assert(om.contains_key(*sq[k].0) && om[*sq[k].0] == *sq[k].1);
        let (a, b) = *key;
        let (source, target) = if invert {
            (b, a)
        } else {
            (a, b)
        };
        let ghost before = adjacency@;
        let mut inner: BTreeMap<u32, u64> = match adjacency.remove(&source) {
            Some(m) => m,
            None => BTreeMap::new(),
        };
        proof {
            assert(inner@ == adjacent(before, source));
        }
        inner.insert(target, *value);
        adjacency.insert(source, inner);
        proof {
            let old_seen = seen;
            seen = seen.insert(*key);
            assert(pair_of(source, target, invert) == *key);
            assert forall|id: u32| #[trigger] adjacent(adjacency@, id) == candidates_spec(om.restrict(seen), id, invert) by {
                assert(adjacent(before, id) == candidates_spec(om.restrict(old_seen), id, invert));
                assert(adjacent(adjacency@, id) =~= candidates_spec(om.restrict(seen), id, invert));
            }
            assert forall|id: u32|
                #[trigger] adjacency@.contains_key(id) <==> exists|t: u32| #[trigger] seen.contains(pair_of(id, t, invert)) by {
                if id == source {
                    assert(seen.contains(pair_of(id, target, invert)));
                } else {
                    if exists|t: u32| #[trigger] seen.contains(pair_of(id, t, invert)) {
                        let t = choose|t: u32| #[trigger] seen.contains(pair_of(id, t, invert));
                        assert(old_seen.contains(pair_of(id, t, invert)));
                    }
                    if before.contains_key(id) {
                        let t = choose|t: u32| #[trigger] old_seen.contains(pair_of(id, t, invert));
                        assert(seen.contains(pair_of(id, t, invert)));
                    }
                }
            }
            assert forall|q: (u32, u32)| #[trigger] om.contains_key(q) && !seen.contains(q) implies exists|j: int|
                k + 1 <= j < sq.len() && *(#[trigger] sq[j]).0 == q by {
                assert(!old_seen.contains(q));
                let j = choose|j: int| k <= j < sq.len() && *(#[trigger] sq[j]).0 == q;
                assert(j != k);
            }
        }
    }
    proof {
        assert(om.restrict(seen) =~= om);
        assert forall|id: u32|
            #[trigger] adjacency@.contains_key(id) <==> exists|t: u32| #[trigger] om.contains_key(pair_of(id, t, invert)) by {
            if exists|t: u32| #[trigger] om.contains_key(pair_of(id, t, invert)) {
                let t = choose|t: u32| #[trigger] om.contains_key(pair_of(id, t, invert));
                assert(seen.contains(pair_of(id, t, invert)));
            }
        }
    }
    adjacency
}

/// Whether `top` lists candidates of `cands` in rank order and either holds
/// `limit` of them, ranked before every candidate it leaves out, or holds
/// them all.
pub open spec fn is_top_candidates(cands: Map<u32, u64>, sa: int, targets: Map<u32, u64>, limit: int, top: Seq<(u32, u64)>) -> bool {
    &&& top.len() <= limit
    &&& forall|k: int| 0 <= k < top.len() ==> cands.contains_key((#[trigger] top[k]).0) && top[k].1 == cands[top[k].0]
    &&& forall|i: int, j: int| 0 <= i < j < top.len() ==> candidate_before(#[trigger] top[i], #[trigger] top[j], sa, targets)
    &&& forall|t: u32|
        cands.contains_key(t) && (forall|k: int| 0 <= k < top.len() ==> (#[trigger] top[k]).0 != t) ==> top.len() == limit
            && (top.len() > 0 ==> candidate_before(top.last(), (t, cands[t]), sa, targets))
}

/// Whether candidate `t` is in `top` or ranks after all of it.
pub open spec fn cand_placed(cands: Map<u32, u64>, sa: int, targets: Map<u32, u64>, top: Seq<(u32, u64)>, t: u32) -> bool {
    top.len() == 0 || (exists|k: int| 0 <= k < top.len() && (#[trigger] top[k]).0 == t) || candidate_before(
        top.last(),
        (t, cands[t]),
        sa,
        targets,
    )
}

proof fn lemma_linear_order(a: (u32, u64), b: (u32, u64), c: (u32, u64), targets: Map<u32, u64>)
    ensures
        candidate_before_linear(a, b, targets) && candidate_before_linear(b, c, targets) ==> candidate_before_linear(
            a,
            c,
            targets,
        ),
        !candidate_before_linear(a, a, targets),
        a.0 != b.0 ==> (candidate_before_linear(a, b, targets) || candidate_before_linear(b, a, targets)),
        candidate_before_linear(a, b, targets) ==> !candidate_before_linear(b, a, targets),
{
}

/// The candidates of `cands` that share the most area with a region of
/// area `sa`, at most `limit` of them, in rank order.
fn top_candidates(cands: &BTreeMap<u32, u64>, sa: u64, targets: &BTreeMap<u32, u64>, limit: usize) -> (r: Vec<(u32, u64)>)
    ensures
        is_top_candidates(cands@, sa as int, targets@, limit as int, r@),
{
    let ghost cm = cands@;
    let ghost tm = targets@;
    let mut top: Vec<(u32, u64)> = Vec::new();
    while top.len() < limit
        invariant
            cm == cands@,
            tm == targets@,
            top@.len() <= limit,
            forall|k: int| 0 <= k < top@.len() ==> cm.contains_key((#[trigger] top@[k]).0) && top@[k].1 == cm[top@[k].0],
            forall|i: int, j: int| 0 <= i < j < top@.len() ==> candidate_before(#[trigger] top@[i], #[trigger] top@[j], sa as int, tm),
            forall|t: u32| cm.contains_key(t) ==> #[trigger] cand_placed(cm, sa as int, tm, top@, t),
        decreases limit - top@.len(),
    {
        let mut best: Option<(u32, u64)> = None;
        let ghost mut seen: Set<u32> = Set::empty();
        for (t, v) in it: cands.iter()
            invariant
                cm == cands@,
                tm == targets@,
                forall|k: u32| #[trigger] cm.contains_key(k) ==> it.seq().contains((&k, &cm[k])),
                forall|j: int|
                    0 <= j < it.seq().len() ==> cm.contains_key(*(#[trigger] it.seq()[j]).0) && cm[*it.seq()[j].0] == *it.seq()[j].1,
                best matches Some(p) ==> cm.contains_key(p.0) && p.1 == cm[p.0] && (top@.len() == 0 || candidate_before(
                    top@.last(),
                    p,
                    sa as int,
                    tm,
                )),
                forall|t: u32| #[trigger] seen.contains(t) ==> cm.contains_key(t),
                forall|t: u32|
                    #[trigger] cm.contains_key(t) && !seen.contains(t) ==> exists|j: int|
                        it.index() <= j < it.seq().len() && *(#[trigger] it.seq()[j]).0 == t,
                forall|t: u32|
                    #[trigger] seen.contains(t) && (top@.len() == 0 || candidate_before(top@.last(), (t, cm[t]), sa as int, tm))
                        ==> (best matches Some(p) && (p.0 == t || candidate_before(p, (t, cm[t]), sa as int, tm))),
        {
            let ghost k = it.index();
            let ghost sq = it.seq();
            assert(cm.contains_key(*sq[k].0) && cm[*sq[k].0] == *sq[k].1);
            let cand = (*t, *v);
            let after_last = if top.len() == 0 {
                true
            } else {
                candidate_ranks_before(top[top.len() - 1], cand, sa, targets)
            };
            if after_last {
                let better = match best {
                    None => true,
                    Some(p) => candidate_ranks_before(cand, p, sa, targets),
                };
                if better {
                    proof {
                        assert forall|u: u32|
                            #[trigger] seen.contains(u) && (top@.len() == 0 || candidate_before(top@.last(), (u, cm[u]), sa as int, tm))
                                implies (cand.0 == u || candidate_before(cand, (u, cm[u]), sa as int, tm)) by {
                            let w = (u, cm[u]);
                            let p = best->Some_0;
                            lemma_candidate_before_linear(cand, p, sa as int, tm);
                            lemma_candidate_before_linear(p, w, sa as int, tm);
                            lemma_candidate_before_linear(cand, w, sa as int, tm);
                            lemma_linear_order(cand, p, w, tm);
                        }
                    }
                    best = Some(cand);
                }
            }
            proof {
                let ghost old_seen = seen;
                seen = seen.insert(*t);
                assert forall|u: u32| #[trigger] cm.contains_key(u) && !seen.contains(u) implies exists|j: int|
                    k + 1 <= j < sq.len() && *(#[trigger] sq[j]).0 == u by {
                    assert(!old_seen.contains(u));
                    let j = choose|j: int| k <= j < sq.len() && *(#[trigger] sq[j]).0 == u;
                    assert(j != k);
                }
            }
        }
        match best {
            None => {
                assert forall|t: u32| cm.contains_key(t) implies exists|q: int| 0 <= q < top@.len() && (#[trigger] top@[q]).0 == t by {
                    assert(cand_placed(cm, sa as int, tm, top@, t));
                    assert(seen.contains(t));
                }
                return top;
            },
            Some(p) => {
                let ghost old_top = top@;
                top.push(p);
                assert forall|i: int, j: int| 0 <= i < j < top@.len() implies candidate_before(#[trigger] top@[i], #[trigger] top@[j], sa as int, tm) by {
                    if j < old_top.len() {
                        assert(top@[i] == old_top[i] && top@[j] == old_top[j]);
                    } else if i < old_top.len() - 1 {
                        let last = old_top[old_top.len() - 1];
                        assert(candidate_before(old_top[i], last, sa as int, tm));
                        lemma_candidate_before_linear(old_top[i], last, sa as int, tm);
                        lemma_candidate_before_linear(last, p, sa as int, tm);
                        lemma_candidate_before_linear(old_top[i], p, sa as int, tm);
                        lemma_linear_order(old_top[i], last, p, tm);
                    }
                }
                assert forall|t: u32| cm.contains_key(t) implies #[trigger] cand_placed(cm, sa as int, tm, top@, t) by {
                    assert(cand_placed(cm, sa as int, tm, old_top, t));
                    if exists|q: int| 0 <= q < old_top.len() && (#[trigger] old_top[q]).0 == t {
                        let q = choose|q: int| 0 <= q < old_top.len() && (#[trigger] old_top[q]).0 == t;
                        assert(top@[q] == old_top[q]);
                    } else if p.0 == t {
                        assert(top@[old_top.len() as int] == p);
                    } else {
                        assert(seen.contains(t));
                    }
                }
            },
        }
    }
    proof {
        assert forall|t: u32|
            cm.contains_key(t) && (forall|k: int| 0 <= k < top@.len() ==> (#[trigger] top@[k]).0 != t) implies top@.len() == limit
                && (top@.len() > 0 ==> candidate_before(top@.last(), (t, cm[t]), sa as int, tm)) by {
            assert(cand_placed(cm, sa as int, tm, top@, t));
        }
    }
    top
}

/// A region of the other layer listed as a match for a region, with the
/// areas that its coverage ratios are formed from.
#[derive(Clone, Debug, PartialEq, Eq)]
pub struct MatchCandidate {
    pub region_id: u32,
    pub label: Option<String>,
    /// The area the two regions share.
    pub intersection_area: u64,
    /// The area of the region the candidate is listed for.
    pub source_area: u64,
    /// The candidate's own area.
    pub candidate_area: u64,
}

/// A region of one layer with its best matches in the other.
#[derive(Clone, Debug, PartialEq, Eq)]
pub struct RegionMatchRecord {
    pub region_id: u32,
    pub label: Option<String>,
    pub area: u64,
    pub top_matches: Vec<MatchCandidate>,
}

/// The label that `labels` gives region `id`, if any.
pub open spec fn label_of(labels: Map<u32, String>, id: u32) -> Option<String> {
    if labels.contains_key(id) {
        Some(labels[id])
    } else {
        None
    }
}

fn label_lookup(labels: &BTreeMap<u32, String>, id: u32) -> (r: Option<String>)
    ensures
        r == label_of(labels@, id),
{
    match labels.get(&id) {
        Some(s) => Some(s.clone()),
        None => None,
    }
}

/// The ranked candidates whose own area is known.
pub open spec fn kept_candidates(ranked: Seq<(u32, u64)>, targets: Map<u32, u64>) -> Seq<(u32, u64)> {
    ranked.filter(|t: (u32, u64)| targets.contains_key(t.0))
}

/// Whether `c` lists candidate `t` of a region of area `source_area`.
pub open spec fn candidate_for(
    c: MatchCandidate,
    t: (u32, u64),
    source_area: u64,
    targets: Map<u32, u64>,
    target_labels: Map<u32, String>,
) -> bool {
    &&& c.region_id == t.0
    &&& c.intersection_area == t.1
    &&& c.source_area == source_area
    &&& targets.contains_key(t.0)
    &&& c.candidate_area == targets[t.0]
    &&& c.label == label_of(target_labels, t.0)
}

/// Whether `list` lists the candidates `kept`, in their order.
pub open spec fn matches_listed(
    list: Seq<MatchCandidate>,
    kept: Seq<(u32, u64)>,
    source_area: u64,
    targets: Map<u32, u64>,
    target_labels: Map<u32, String>,
) -> bool {
    list.len() == kept.len() && forall|k: int|
        0 <= k < list.len() ==> candidate_for(#[trigger] list[k], kept[k], source_area, targets, target_labels)
}

/// Whether `rec` is the record of its region: its label and area, and the
/// best `top` of its candidates `cands` in rank order, less those whose own
/// area is unknown.
pub open spec fn record_for(
    rec: RegionMatchRecord,
    source_areas: Map<u32, u64>,
    targets: Map<u32, u64>,
    source_labels: Map<u32, String>,
    target_labels: Map<u32, String>,
    cands: Map<u32, u64>,
    top: int,
) -> bool {
    &&& rec.label == label_of(source_labels, rec.region_id)
    &&& rec.area == area_or(source_areas, rec.region_id, 0)
    &&& exists|ranked: Seq<(u32, u64)>|
        #[trigger] is_top_candidates(cands, rec.area as int, targets, top, ranked) && matches_listed(
            rec.top_matches@,
            kept_candidates(ranked, targets),
            rec.area,
            targets,
            target_labels,
        )
}

/// Lists the ranked candidates whose own area is known.
fn listed_candidates(
    ranked: &Vec<(u32, u64)>,
    source_area: u64,
    target_areas: &BTreeMap<u32, u64>,
    target_labels: &BTreeMap<u32, String>,
) -> (r: Vec<MatchCandidate>)
    ensures
        matches_listed(r@, kept_candidates(ranked@, target_areas@), source_area, target_areas@, target_labels@),
{
    let mut out: Vec<MatchCandidate> = Vec::new();
    let mut k: usize = 0;
    proof {
        reveal(Seq::filter);
        assert(ranked@.take(0) =~= Seq::<(u32, u64)>::empty());
        assert(kept_candidates(ranked@.take(0), target_areas@) =~= Seq::<(u32, u64)>::empty());
    }
    while k < ranked.len()
        invariant
            k <= ranked@.len(),
            matches_listed(out@, kept_candidates(ranked@.take(k as int), target_areas@), source_area, target_areas@, target_labels@),
        decreases ranked@.len() - k,
    {
        let t = ranked[k];
        proof {
            reveal(Seq::filter);
            assert(ranked@.take(k + 1).drop_last() =~= ranked@.take(k as int));
        }
        match target_areas.get(&t.0) {
            Some(a) => {
                let c = MatchCandidate {
                    region_id: t.0,
                    label: label_lookup(target_labels, t.0),
                    intersection_area: t.1,
                    source_area,
                    candidate_area: *a,
                };
                out.push(c);
            },
            None => {},
        }
        k = k + 1;
    }
    assert(ranked@.take(ranked@.len() as int) =~= ranked@);
    out
}

/// The record of region `id`: its label and area, and its best `top`
/// candidates from `adjacency` whose own area is known.
fn region_match_record(
    id: u32,
    source_areas: &BTreeMap<u32, u64>,
    target_areas: &BTreeMap<u32, u64>,
    source_labels: &BTreeMap<u32, String>,
    target_labels: &BTreeMap<u32, String>,
    adjacency: &BTreeMap<u32, BTreeMap<u32, u64>>,
    top: usize,
) -> (r: RegionMatchRecord)
    ensures
        r.region_id == id,
        record_for(r, source_areas@, target_areas@, source_labels@, target_labels@, adjacent(adjacency@, id), top as int),
{
    let area: u64 = match source_areas.get(&id) {
        Some(a) => *a,
        None => 0,
    };
    let ranked: Vec<(u32, u64)> = match adjacency.get(&id) {
        Some(m) => top_candidates(m, area, target_areas, top),
        None => {
            let v: Vec<(u32, u64)> = Vec::new();
            assert(is_top_candidates(adjacent(adjacency@, id), area as int, target_areas@, top as int, v@));
            v
        },
    };
    let top_matches = listed_candidates(&ranked, area, target_areas, target_labels);
    let rec = RegionMatchRecord { region_id: id, label: label_lookup(source_labels, id), area, top_matches };
    assert(is_top_candidates(adjacent(adjacency@, id), rec.area as int, target_areas@, top as int, ranked@));
    rec
}

/// The record of each region of `source_region_ids`, by rising id: its
/// label and area (0 where unknown), and the first `top` of the regions
/// that `adjacency` lists for it in rank order (see `candidate_before`),
/// less those whose own area `target_areas` lacks.
pub fn build_region_match_records(
    source_region_ids: &BTreeSet<u32>,
    source_areas: &BTreeMap<u32, u64>,
    target_areas: &BTreeMap<u32, u64>,
    source_labels: &BTreeMap<u32, String>,
    target_labels: &BTreeMap<u32, String>,
    adjacency: &BTreeMap<u32, BTreeMap<u32, u64>>,
    top: usize,
) -> (r: Vec<RegionMatchRecord>)
    ensures
        forall|i: int, j: int| 0 <= i < j < r@.len() ==> (#[trigger] r@[i]).region_id < (#[trigger] r@[j]).region_id,
        forall|x: u32| source_region_ids@.contains(x) <==> exists|i: int| 0 <= i < r@.len() && (#[trigger] r@[i]).region_id == x,
        forall|i: int|
            0 <= i < r@.len() ==> record_for(
                #[trigger] r@[i],
                source_areas@,
                target_areas@,
                source_labels@,
                target_labels@,
                adjacent(adjacency@, r@[i].region_id),
                top as int,
            ),
{
    let ids = sorted_ids(source_region_ids);
    let mut out: Vec<RegionMatchRecord> = Vec::new();
    let mut k: usize = 0;
    while k < ids.len()
        invariant
            k <= ids@.len(),
            strictly_increasing(ids@),
            forall|x: u32| ids@.contains(x) <==> source_region_ids@.contains(x),
            out@.len() == k,
            forall|i: int| 0 <= i < k ==> (#[trigger] out@[i]).region_id == ids@[i],
            forall|i: int|
                0 <= i < out@.len() ==> record_for(
                    #[trigger] out@[i],
                    source_areas@,
                    target_areas@,
                    source_labels@,
                    target_labels@,
                    adjacent(adjacency@, out@[i].region_id),
                    top as int,
                ),
        decreases ids@.len() - k,
    {
        let rec = region_match_record(ids[k], source_areas, target_areas, source_labels, target_labels, adjacency, top);
        out.push(rec);
        k = k + 1;
    }
    assert forall|x: u32| source_region_ids@.contains(x) implies exists|i: int| 0 <= i < out@.len() && (#[trigger] out@[i]).region_id == x by {
        assert(ids@.contains(x));
        let i = choose|i: int| 0 <= i < ids@.len() && ids@[i] == x;
        assert(out@[i].region_id == x);
    }
    out
}

/// Whether `a` and `b` hold the same record.
pub open spec fn same_record(a: RegionMatchRecord, b: RegionMatchRecord) -> bool {
    &&& a.region_id == b.region_id
    &&& a.label == b.label
    &&& a.area == b.area
    &&& a.top_matches@ == b.top_matches@
}

/// Whether `a` and `b` hold the same records, in the same order.
pub open spec fn same_records(a: Seq<RegionMatchRecord>, b: Seq<RegionMatchRecord>) -> bool {
    a.len() == b.len() && forall|i: int| 0 <= i < a.len() ==> same_record(#[trigger] a[i], b[i])
}

fn copy_label(label: &Option<String>) -> (r: Option<String>)
    ensures
        r == *label,
{
    match label {
        Some(s) => Some(s.clone()),
        None => None,
    }
}

fn copy_record(rec: &RegionMatchRecord) -> (r: RegionMatchRecord)
    ensures
        same_record(r, *rec),
{
    let mut top_matches: Vec<MatchCandidate> = Vec::new();
    let mut k: usize = 0;
    while k < rec.top_matches.len()
        invariant
            k <= rec.top_matches@.len(),
            top_matches@ == rec.top_matches@.take(k as int),
        decreases rec.top_matches@.len() - k,
    {
        let c = &rec.top_matches[k];
        top_matches.push(
            MatchCandidate {
                region_id: c.region_id,
                label: copy_label(&c.label),
                intersection_area: c.intersection_area,
                source_area: c.source_area,
                candidate_area: c.candidate_area,
            },
        );
        assert(top_matches@ =~= rec.top_matches@.take(k + 1));
        k = k + 1;
    }
    assert(top_matches@ =~= rec.top_matches@);
    RegionMatchRecord { region_id: rec.region_id, label: copy_label(&rec.label), area: rec.area, top_matches }
}

/// The records of `records` whose region is one of `region_ids`.
pub open spec fn records_within(records: Seq<RegionMatchRecord>, region_ids: Seq<u32>) -> Seq<RegionMatchRecord> {
    records.filter(|rec: RegionMatchRecord| region_ids.contains(rec.region_id))
}

/// Copies out the records whose region is one of `region_ids`, in order.
pub fn filter_region_match_records(records: &Vec<RegionMatchRecord>, region_ids: &Vec<u32>) -> (r: Vec<RegionMatchRecord>)
    ensures
        same_records(r@, records_within(records@, region_ids@)),
{
    let mut wanted: BTreeSet<u32> = BTreeSet::new();
    let mut q: usize = 0;
    while q < region_ids.len()
        invariant
            q <= region_ids@.len(),
            forall|x: u32| #[trigger] wanted@.contains(x) <==> region_ids@.take(q as int).contains(x),
        decreases region_ids@.len() - q,
    {
        wanted.insert(region_ids[q]);
        proof {
            assert forall|x: u32| #[trigger] wanted@.contains(x) <==> region_ids@.take(q + 1).contains(x) by {
                if x == region_ids@[q as int] {
                    assert(region_ids@.take(q + 1)[q as int] == x);
                }
                if region_ids@.take(q + 1).contains(x) && x != region_ids@[q as int] {
                    let j = choose|j: int| 0 <= j < q + 1 && #[trigger] region_ids@.take(q + 1)[j] == x;
                    assert(region_ids@.take(q as int)[j] == x);
                }
            }
        }
        q = q + 1;
    }
    assert(region_ids@.take(region_ids@.len() as int) =~= region_ids@);
    let mut out: Vec<RegionMatchRecord> = Vec::new();
    let mut k: usize = 0;
    proof {
        reveal(Seq::filter);
        assert(records@.take(0) =~= Seq::<RegionMatchRecord>::empty());
        assert(records_within(records@.take(0), region_ids@) =~= Seq::<RegionMatchRecord>::empty());
    }
    while k < records.len()
        invariant
            k <= records@.len(),
            forall|x: u32| #[trigger] wanted@.contains(x) <==> region_ids@.contains(x),
            same_records(out@, records_within(records@.take(k as int), region_ids@)),
        decreases records@.len() - k,
    {
        proof {
            reveal(Seq::filter);
            assert(records@.take(k + 1).drop_last() =~= records@.take(k as int));
        }
        let rec = &records[k];
        if wanted.contains(&rec.region_id) {
            let c = copy_record(rec);
            out.push(c);
        }
        k = k + 1;
    }
    assert(records@.take(records@.len() as int) =~= records@);
    out
}

/// A PABR region and a region of the current layer that are each other's
/// best match, with the areas that its coverage ratios are formed from.
#[derive(Clone, Debug, PartialEq, Eq)]
pub struct MutualBestMatch {
    pub pabr_region_id: u32,
    pub pabr_label: Option<String>,
    pub current_region_id: u32,
    pub current_label: Option<String>,
    pub intersection_area: u64,
    /// The area of the PABR region.
    pub pabr_area: u64,
    /// The area of the current region.
    pub current_area: u64,
}

/// The best match of the last record of region `id` that lists any.
pub open spec fn best_back(records: Seq<RegionMatchRecord>, id: u32) -> Option<u32>
    decreases records.len(),
{
    if records.len() == 0 {
        None
    } else {
        let last = records.last();
        if last.region_id == id && last.top_matches@.len() > 0 {
            Some(last.top_matches@[0].region_id)
        } else {
            best_back(records.drop_last(), id)
        }
    }
}

/// Whether the best match of PABR record `rec` has `rec`'s region as its
/// own best match among the `current` records.
pub open spec fn is_mutual(rec: RegionMatchRecord, current: Seq<RegionMatchRecord>) -> bool {
    rec.top_matches@.len() > 0 && best_back(current, rec.top_matches@[0].region_id) == Some(rec.region_id)
}

/// The mutual match that PABR record `rec` takes part in.
pub open spec fn mutual_entry(
    rec: RegionMatchRecord,
    pabr_labels: Map<u32, String>,
    current_labels: Map<u32, String>,
) -> MutualBestMatch {
    let b = rec.top_matches@[0];
    MutualBestMatch {
        pabr_region_id: rec.region_id,
        pabr_label: label_of(pabr_labels, rec.region_id),
        current_region_id: b.region_id,
        current_label: label_of(current_labels, b.region_id),
        intersection_area: b.intersection_area,
        pabr_area: b.source_area,
        current_area: b.candidate_area,
    }
}

/// The mutual best matches, in the order of the PABR records.
pub open spec fn mutual_matches(
    pabr: Seq<RegionMatchRecord>,
    current: Seq<RegionMatchRecord>,
    pabr_labels: Map<u32, String>,
    current_labels: Map<u32, String>,
) -> Seq<MutualBestMatch>
    decreases pabr.len(),
{
    if pabr.len() == 0 {
        seq![]
    } else {
        let prev = mutual_matches(pabr.drop_last(), current, pabr_labels, current_labels);
        if is_mutual(pabr.last(), current) {
            prev.push(mutual_entry(pabr.last(), pabr_labels, current_labels))
        } else {
            prev
        }
    }
}

/// The region ids of match records, in order.
pub open spec fn record_ids(records: Seq<RegionMatchRecord>) -> Seq<u32> {
    records.map_values(|r: RegionMatchRecord| r.region_id)
}

proof fn lemma_best_back_listed(records: Seq<RegionMatchRecord>, id: u32)
    ensures
        best_back(records, id) is Some ==> record_ids(records).contains(id),
    decreases records.len(),
{
    if records.len() > 0 {
        lemma_best_back_listed(records.drop_last(), id);
        if best_back(records, id) is Some {
            if records.last().region_id == id && records.last().top_matches@.len() > 0 {
                assert(record_ids(records)[records.len() - 1] == id);
            } else {
                let j = choose|j: int| 0 <= j < records.len() - 1 && record_ids(records.drop_last())[j] == id;
                assert(record_ids(records)[j] == id);
            }
        }
    }
}

proof fn lemma_mutual_shape(
    pabr: Seq<RegionMatchRecord>,
    current: Seq<RegionMatchRecord>,
    pabr_labels: Map<u32, String>,
    current_labels: Map<u32, String>,
)
    ensures
        ({
            let m = mutual_matches(pabr, current, pabr_labels, current_labels);
            &&& m.len() <= pabr.len()
            &&& forall|i: int| 0 <= i < m.len() ==> best_back(current, (#[trigger] m[i]).current_region_id)
                == Some(m[i].pabr_region_id)
            &&& forall|i: int| 0 <= i < m.len() ==> exists|k: int| 0 <= k < pabr.len()
                && #[trigger] pabr[k].region_id == (#[trigger] m[i]).pabr_region_id
            &&& forall|i: int, j: int| 0 <= i < j < m.len() ==> exists|a: int, b: int| 0 <= a < b < pabr.len()
                && #[trigger] pabr[a].region_id == (#[trigger] m[i]).pabr_region_id && #[trigger] pabr[b].region_id
                == (#[trigger] m[j]).pabr_region_id
        }),
    decreases pabr.len(),
{
    if pabr.len() > 0 {
        let q = pabr.drop_last();
        lemma_mutual_shape(q, current, pabr_labels, current_labels);
        let prev = mutual_matches(q, current, pabr_labels, current_labels);
        let m = mutual_matches(pabr, current, pabr_labels, current_labels);
        assert forall|i: int| 0 <= i < prev.len() implies exists|k: int| 0 <= k < pabr.len()
            && #[trigger] pabr[k].region_id == (#[trigger] m[i]).pabr_region_id by {
            let k = choose|k: int| 0 <= k < q.len() && #[trigger] q[k].region_id == (#[trigger] prev[i]).pabr_region_id;
            assert(pabr[k] == q[k]);
            assert(m[i] == prev[i]);
        }
        assert forall|i: int, j: int| 0 <= i < j < prev.len() implies exists|a: int, b: int| 0 <= a < b < pabr.len()
            && #[trigger] pabr[a].region_id == (#[trigger] m[i]).pabr_region_id && #[trigger] pabr[b].region_id
            == (#[trigger] m[j]).pabr_region_id by {
            let (a, b) = choose|a: int, b: int| 0 <= a < b < q.len()
                && #[trigger] q[a].region_id == (#[trigger] prev[i]).pabr_region_id && #[trigger] q[b].region_id
                == (#[trigger] prev[j]).pabr_region_id;
            assert(pabr[a] == q[a] && pabr[b] == q[b]);
            assert(m[i] == prev[i] && m[j] == prev[j]);
        }
        if is_mutual(pabr.last(), current) {
            let l = pabr.len() - 1;
            assert(m[prev.len() as int].pabr_region_id == pabr[l].region_id);
            assert forall|i: int| 0 <= i < prev.len() implies exists|a: int, b: int| 0 <= a < b < pabr.len()
                && #[trigger] pabr[a].region_id == (#[trigger] m[i]).pabr_region_id && #[trigger] pabr[b].region_id
                == (#[trigger] m[prev.len() as int]).pabr_region_id by {
                let k = choose|k: int| 0 <= k < q.len() && #[trigger] q[k].region_id == (#[trigger] prev[i]).pabr_region_id;
                assert(pabr[k] == q[k]);
                assert(m[i] == prev[i]);
            }
            assert forall|i: int| 0 <= i < m.len() implies exists|k: int| 0 <= k < pabr.len()
                && #[trigger] pabr[k].region_id == (#[trigger] m[i]).pabr_region_id by {
                if i == prev.len() {
                    assert(pabr[l].region_id == m[i].pabr_region_id);
                }
            }
            assert forall|i: int| 0 <= i < m.len() implies best_back(current, (#[trigger] m[i]).current_region_id)
                == Some(m[i].pabr_region_id) by {
                if i < prev.len() {
                    assert(m[i] == prev[i]);
                }
            }
        }
    }
}

/// Mutual best matches are never more than the regions of either side:
/// where the PABR records name each region once, no two matches share a
/// PABR region or a current region.
pub proof fn law_mutual_matches_bounded(
    pabr: Seq<RegionMatchRecord>,
    current: Seq<RegionMatchRecord>,
    pabr_labels: Map<u32, String>,
    current_labels: Map<u32, String>,
)
    requires
        record_ids(pabr).no_duplicates(),
    ensures
        ({
            let m = mutual_matches(pabr, current, pabr_labels, current_labels);
            &&& m.len() <= pabr.len()
            &&& m.len() <= current.len()
            &&& forall|i: int, j: int| 0 <= i < j < m.len() ==> (#[trigger] m[i]).pabr_region_id != (#[trigger] m[j]).pabr_region_id
                && m[i].current_region_id != m[j].current_region_id
        }),
{
    let m = mutual_matches(pabr, current, pabr_labels, current_labels);
    lemma_mutual_shape(pabr, current, pabr_labels, current_labels);
    assert forall|i: int, j: int| 0 <= i < j < m.len() implies (#[trigger] m[i]).pabr_region_id != (#[trigger] m[j]).pabr_region_id
        && m[i].current_region_id != m[j].current_region_id by {
        let (a, b) = choose|a: int, b: int| 0 <= a < b < pabr.len()
            && #[trigger] pabr[a].region_id == (#[trigger] m[i]).pabr_region_id && #[trigger] pabr[b].region_id
            == (#[trigger] m[j]).pabr_region_id;
        assert(record_ids(pabr)[a] == pabr[a].region_id && record_ids(pabr)[b] == pabr[b].region_id);
        assert(best_back(current, m[i].current_region_id) == Some(m[i].pabr_region_id));
        assert(best_back(current, m[j].current_region_id) == Some(m[j].pabr_region_id));
    }
    let cs = m.map_values(|x: MutualBestMatch| x.current_region_id);
    assert(cs.no_duplicates()) by {
        assert forall|i: int, j: int| 0 <= i < cs.len() && 0 <= j < cs.len() && i != j implies cs[i] != cs[j] by {
            if i < j {
                assert(m[i].current_region_id != m[j].current_region_id);
            } else {
                assert(m[j].current_region_id != m[i].current_region_id);
            }
        }
    }
    let ids = record_ids(current);
    assert(cs.to_set().subset_of(ids.to_set())) by {
        assert forall|c: u32| cs.to_set().contains(c) implies ids.to_set().contains(c) by {
            let i = choose|i: int| 0 <= i < cs.len() && cs[i] == c;
            assert(best_back(current, m[i].current_region_id) == Some(m[i].pabr_region_id));
            lemma_best_back_listed(current, c);
        }
    }
    cs.unique_seq_to_set();
    ids.lemma_cardinality_of_set();
    vstd::set_lib::lemma_len_subset(cs.to_set(), ids.to_set());
}

/// The best match of each current region, as `best_back` gives it.
fn best_back_map(current_regions: &Vec<RegionMatchRecord>) -> (r: BTreeMap<u32, u32>)
    ensures
        forall|id: u32|
            #[trigger] best_back(current_regions@, id) == if r@.contains_key(id) {
                Some(r@[id])
            } else {
                None
            },
{
    let mut best: BTreeMap<u32, u32> = BTreeMap::new();
    let mut k: usize = 0;
    while k < current_regions.len()
        invariant
            k <= current_regions@.len(),
            forall|id: u32|
                #[trigger] best_back(current_regions@.take(k as int), id) == if best@.contains_key(id) {
                    Some(best@[id])
                } else {
                    None
                },
        decreases current_regions@.len() - k,
    {
        let rec = &current_regions[k];
        if rec.top_matches.len() > 0 {
            best.insert(rec.region_id, rec.top_matches[0].region_id);
        }
        proof {
            let prev = current_regions@.take(k as int);
            let next = current_regions@.take(k + 1);
            assert(next.drop_last() =~= prev);
            assert(next.last() == current_regions@[k as int]);
            assert forall|id: u32|
                #[trigger] best_back(next, id) == if best@.contains_key(id) {
                    Some(best@[id])
                } else {
                    None
                } by {
                assert(best_back(next, id) == if next.last().region_id == id && next.last().top_matches@.len() > 0 {
                    Some(next.last().top_matches@[0].region_id)
                } else {
                    best_back(prev, id)
                });
            }
        }
        k = k + 1;
    }
    assert(current_regions@.take(current_regions@.len() as int) =~= current_regions@);
    best
}

/// The pairs of a PABR region and a current region that are each other's
/// best match, in the order of the PABR records; labels come from the two
/// label maps.
pub fn build_mutual_best_matches(
    pabr_regions: &Vec<RegionMatchRecord>,
    current_regions: &Vec<RegionMatchRecord>,
    pabr_labels: &BTreeMap<u32, String>,
    current_labels: &BTreeMap<u32, String>,
) -> (r: Vec<MutualBestMatch>)
    ensures
        r@ == mutual_matches(pabr_regions@, current_regions@, pabr_labels@, current_labels@),
{
    let best = best_back_map(current_regions);
    let mut out: Vec<MutualBestMatch> = Vec::new();
    let mut k: usize = 0;
    while k < pabr_regions.len()
        invariant
            k <= pabr_regions@.len(),
            forall|id: u32|
                #[trigger] best_back(current_regions@, id) == if best@.contains_key(id) {
                    Some(best@[id])
                } else {
                    None
                },
            out@ == mutual_matches(pabr_regions@.take(k as int), current_regions@, pabr_labels@, current_labels@),
        decreases pabr_regions@.len() - k,
    {
        let rec = &pabr_regions[k];
        proof {
            assert(pabr_regions@.take(k + 1).drop_last() =~= pabr_regions@.take(k as int));
            assert(pabr_regions@.take(k + 1).last() == pabr_regions@[k as int]);
        }
        if rec.top_matches.len() > 0 {
            let b = &rec.top_matches[0];
            match best.get(&b.region_id) {
                Some(back) => {
                    if *back == rec.region_id {
                        out.push(
                            MutualBestMatch {
                                pabr_region_id: rec.region_id,
                                pabr_label: label_lookup(pabr_labels, rec.region_id),
                                current_region_id: b.region_id,
                                current_label: label_lookup(current_labels, b.region_id),
                                intersection_area: b.intersection_area,
                                pabr_area: b.source_area,
                                current_area: b.candidate_area,
                            },
                        );
                    }
                },
                None => {},
            }
        }
        k = k + 1;
    }
    assert(pabr_regions@.take(pabr_regions@.len() as int) =~= pabr_regions@);
    out
}

/// The mutual matches whose two regions have different ids.
pub open spec fn id_changes(matches: Seq<MutualBestMatch>) -> Seq<MutualBestMatch> {
    matches.filter(|m: MutualBestMatch| m.pabr_region_id != m.current_region_id)
}

/// Copies out the mutual matches whose two regions have different ids.
fn mutual_id_changes(matches: &Vec<MutualBestMatch>) -> (r: Vec<MutualBestMatch>)
    ensures
        r@ == id_changes(matches@),
{
    let mut out: Vec<MutualBestMatch> = Vec::new();
    let mut k: usize = 0;
    proof {
        reveal(Seq::filter);
        assert(matches@.take(0) =~= Seq::<MutualBestMatch>::empty());
        assert(id_changes(matches@.take(0)) =~= Seq::<MutualBestMatch>::empty());
    }
    while k < matches.len()
        invariant
            k <= matches@.len(),
            out@ == id_changes(matches@.take(k as int)),
        decreases matches@.len() - k,
    {
        proof {
            reveal(Seq::filter);
            assert(matches@.take(k + 1).drop_last() =~= matches@.take(k as int));
        }
        let m = &matches[k];
        if m.pabr_region_id != m.current_region_id {
            out.push(
                MutualBestMatch {
                    pabr_region_id: m.pabr_region_id,
                    pabr_label: copy_label(&m.pabr_label),
                    current_region_id: m.current_region_id,
                    current_label: copy_label(&m.current_label),
                    intersection_area: m.intersection_area,
                    pabr_area: m.pabr_area,
                    current_area: m.current_area,
                },
            );
        }
        k = k + 1;
    }
    assert(matches@.take(matches@.len() as int) =~= matches@);
    out
}

/// The region layer that PABR regions are matched against, drawn on the
/// same grid: the runs of each row, the ids of its regions, their areas and
/// their labels.
#[derive(Clone, Debug)]
pub struct CurrentLayer {
    pub rows: Vec<Vec<RowSegment>>,
    pub region_ids: BTreeSet<u32>,
    pub areas: BTreeMap<u32, u64>,
    pub labels: BTreeMap<u32, String>,
}

/// How the regions of a PABR map and of a current layer match.
#[derive(Clone, Debug)]
pub struct RegionMatchReport {
    pub native_width: u32,
    pub native_height: u32,
    pub row_shift: u32,
    pub top: usize,
    pub pabr_region_count: usize,
    pub current_region_count: usize,
    pub overlap_pair_count: usize,
    pub pabr_only_region_ids: Vec<u32>,
    pub current_only_region_ids: Vec<u32>,
    pub pabr_regions: Vec<RegionMatchRecord>,
    pub current_regions: Vec<RegionMatchRecord>,
    pub pabr_only_candidates: Vec<RegionMatchRecord>,
    pub current_only_candidates: Vec<RegionMatchRecord>,
    pub mutual_best_matches: Vec<MutualBestMatch>,
    pub mutual_best_id_changes: Vec<MutualBestMatch>,
}

/// The labels of `labels` whose region is one of `ids`.
fn labels_within(labels: &BTreeMap<u32, String>, ids: &BTreeSet<u32>) -> (r: BTreeMap<u32, String>)
    ensures
        r@ == labels@.restrict(ids@),
{
    let mut out: BTreeMap<u32, String> = BTreeMap::new();
    let ghost lm = labels@;
    for (id, label) in it: labels.iter()
        invariant
            lm == labels@,
            forall|j: int| 0 <= j < it.seq().len() ==> lm.contains_key(*(#[trigger] it.seq()[j]).0) && lm[*it.seq()[j].0] == *it.seq()[j].1,
            forall|k: u32| #[trigger] lm.contains_key(k) ==> it.seq().contains((&k, &lm[k])),
            forall|k: u32|
                #[trigger] out@.contains_key(k) <==> ids@.contains(k) && exists|j: int| 0 <= j < it.index() && *it.seq()[j].0 == k,
            forall|k: u32| #[trigger] out@.contains_key(k) ==> lm.contains_key(k) && out@[k] == lm[k],
    {
        let ghost x = it.index();
        let ghost sq = it.seq();
        assert(lm.contains_key(*sq[x].0) && lm[*sq[x].0] == *sq[x].1);
        if ids.contains(id) {
            out.insert(*id, label.clone());
        }
        assert forall|k: u32|
            #[trigger] out@.contains_key(k) <==> ids@.contains(k) && exists|j: int| 0 <= j < x + 1 && *sq[j].0 == k by {
            if *sq[x].0 == k {
                assert(0 <= x < x + 1 && *sq[x].0 == k);
            }
        }
    }
    assert forall|k: u32| #[trigger] labels@.restrict(ids@).contains_key(k) implies out@.contains_key(k) by {
        assert(lm.contains_key(k));
    }
    assert(out@ =~= labels@.restrict(ids@));
    out
}

/// The area each pair of regions shares over the rows, as the sweeps
/// credit it, for the pairs where that is not zero.
pub open spec fn overlap_map(prs: Seq<Seq<RowSegment>>, crs: Seq<Seq<RowSegment>>) -> Map<(u32, u32), u64> {
    Map::new(
        |key: (u32, u32)| total_sweep(prs, crs, key, prs.len() as int) > 0,
        |key: (u32, u32)| total_sweep(prs, crs, key, prs.len() as int) as u64,
    )
}

/// Whether `records` holds the record of each region of `ids`, by rising
/// id, with its candidates from `overlaps`.
pub open spec fn records_for(
    records: Seq<RegionMatchRecord>,
    ids: Set<u32>,
    source_areas: Map<u32, u64>,
    targets: Map<u32, u64>,
    source_labels: Map<u32, String>,
    target_labels: Map<u32, String>,
    overlaps: Map<(u32, u32), u64>,
    invert: bool,
    top: int,
) -> bool {
    &&& forall|i: int, j: int| 0 <= i < j < records.len() ==> (#[trigger] records[i]).region_id < (#[trigger] records[j]).region_id
    &&& forall|x: u32| ids.contains(x) <==> exists|i: int| 0 <= i < records.len() && (#[trigger] records[i]).region_id == x
    &&& forall|i: int|
        0 <= i < records.len() ==> record_for(
            #[trigger] records[i],
            source_areas,
            targets,
            source_labels,
            target_labels,
            candidates_spec(overlaps, records[i].region_id, invert),
            top,
        )
}

/// Whether `report` is the match report of the PABR rows `prs` (native
/// size `native_width` by `native_height`, read with `row_shift`) against
/// a current layer with rows `crs`, region ids `current_ids`, areas
/// `current_areas` and labels `current_labels`, listing `top` candidates.
pub open spec fn report_for(
    report: RegionMatchReport,
    native_width: u32,
    native_height: u32,
    row_shift: u32,
    top: usize,
    prs: Seq<Seq<RowSegment>>,
    crs: Seq<Seq<RowSegment>>,
    current_ids: Set<u32>,
    current_areas: Map<u32, u64>,
    current_labels: Map<u32, String>,
) -> bool {
    let overlaps = overlap_map(prs, crs);
    let pabr_areas = region_area_map(prs);
    let pabr_ids = pabr_areas.dom();
    let pabr_labels = current_labels.restrict(pabr_ids);
    &&& report.native_width == native_width
    &&& report.native_height == native_height
    &&& report.row_shift == row_shift
    &&& report.top == top
    &&& report.pabr_region_count == report.pabr_regions@.len()
    &&& report.current_region_count == report.current_regions@.len()
    &&& report.overlap_pair_count == overlaps.len()
    &&& lists(report.pabr_only_region_ids@, |x: u32| pabr_ids.contains(x) && !current_ids.contains(x))
    &&& lists(report.current_only_region_ids@, |x: u32| current_ids.contains(x) && !pabr_ids.contains(x))
    &&& records_for(report.pabr_regions@, pabr_ids, pabr_areas, current_areas, pabr_labels, current_labels, overlaps, false, top as int)
    &&& records_for(
        report.current_regions@,
        current_ids,
        current_areas,
        pabr_areas,
        current_labels,
        pabr_labels,
        overlaps,
        true,
        top as int,
    )
    &&& same_records(report.pabr_only_candidates@, records_within(report.pabr_regions@, report.pabr_only_region_ids@))
    &&& same_records(report.current_only_candidates@, records_within(report.current_regions@, report.current_only_region_ids@))
    &&& report.mutual_best_matches@ == mutual_matches(report.pabr_regions@, report.current_regions@, pabr_labels, current_labels)
    &&& report.mutual_best_id_changes@ == id_changes(report.mutual_best_matches@)
}

impl PabrMap {
    /// Matches the regions of this map, at native size and read with
    /// `row_shift`, against the `current` layer drawn on the same grid: the
    /// area each pair of regions shares, for each region of either layer its
    /// best `top` matches in the other, the regions that only one layer
    /// has, and the pairs that are each other's best match.
    pub fn match_regions_geojson(&self, current: &CurrentLayer, row_shift: u32, top: usize) -> (r: Result<
        RegionMatchReport,
        PabrError,
    >)
        requires
            self.bkd.rows@.len() * row_shift <= u64::MAX,
            2 * self.rid.native_height * self.bkd.rows@.len() <= u64::MAX,
        ensures
            top == 0 ==> r == Err::<RegionMatchReport, PabrError>(PabrError::ZeroTopCount),
            top > 0 && (self.rid.native_width == 0 || self.rid.native_height == 0) ==> r == Err::<
                RegionMatchReport,
                PabrError,
            >(PabrError::ZeroNativeDimensions),
            top > 0 && self.rid.native_width > 0 && self.rid.native_height > 0 && self.bkd.rows@.len() == 0 ==> r == Err::<
                RegionMatchReport,
                PabrError,
            >(PabrError::NoBkdRows),
            top > 0 && self.rid.native_width > 0 && self.rid.native_height > 0 && self.bkd.rows@.len() > 0 ==> match self.field_rows_spec(
                row_shift,
                None,
                self.rid.native_height as nat,
            ) {
                Err(e) => r == Err::<RegionMatchReport, PabrError>(e),
                Ok(prs) => {
                    let crs = segment_rows_view(current.rows@);
                    if prs.len() != crs.len() {
                        r == Err::<RegionMatchReport, PabrError>(PabrError::RowCountMismatch(prs.len() as usize, crs.len() as usize))
                    } else if run_count(prs, crs, prs.len() as int) > OVERLAP_RUN_LIMIT {
                        r == Err::<RegionMatchReport, PabrError>(PabrError::OverlapSegmentLimit)
                    } else {
                        r matches Ok(report) && report_for(
                            report,
                            self.rid.native_width,
                            self.rid.native_height,
                            row_shift,
                            top,
                            prs,
                            crs,
                            current.region_ids@,
                            current.areas@,
                            current.labels@,
                        )
                    }
                },
            },
    {
        if top == 0 {
            return Err(PabrError::ZeroTopCount);
        }
        let pabr_rows = match self.build_field_rows(row_shift, None) {
            Ok(v) => v,
            Err(e) => return Err(e),
        };
        proof {
            self.lemma_field_rows_ordered(row_shift, None, self.rid.native_height as nat);
        }
        let ghost prs = segment_rows_view(pabr_rows@);
        let ghost crs = segment_rows_view(current.rows@);
        let pabr_areas = field_region_areas(&pabr_rows, self.rid.native_width);
        let overlaps = match accumulate_overlap_areas(&pabr_rows, &current.rows) {
            Ok(m) => m,
            Err(e) => return Err(e),
        };
        let ghost om = overlap_map(prs, crs);
        assert(overlaps@ =~= om);
        let pabr_region_ids = area_region_ids(&pabr_areas);
        let pabr_only_region_ids = sorted_difference(&pabr_region_ids, &current.region_ids);
        let current_only_region_ids = sorted_difference(&current.region_ids, &pabr_region_ids);
        let pabr_labels = labels_within(&current.labels, &pabr_region_ids);
        let by_pabr = build_adjacency(&overlaps, false);
        let by_current = build_adjacency(&overlaps, true);
        let pabr_regions = build_region_match_records(
            &pabr_region_ids,
            &pabr_areas,
            &current.areas,
            &pabr_labels,
            &current.labels,
            &by_pabr,
            top,
        );
        let current_regions = build_region_match_records(
            &current.region_ids,
            &current.areas,
            &pabr_areas,
            &current.labels,
            &pabr_labels,
            &by_current,
            top,
        );
        let pabr_only_candidates = filter_region_match_records(&pabr_regions, &pabr_only_region_ids);
        let current_only_candidates = filter_region_match_records(&current_regions, &current_only_region_ids);
        let mutual_best_matches = build_mutual_best_matches(&pabr_regions, &current_regions, &pabr_labels, &current.labels);
        let mutual_best_id_changes = mutual_id_changes(&mutual_best_matches);
        let report = RegionMatchReport {
            native_width: self.rid.native_width,
            native_height: self.rid.native_height,
            row_shift,
            top,
            pabr_region_count: pabr_regions.len(),
            current_region_count: current_regions.len(),
            overlap_pair_count: overlaps.len(),
            pabr_only_region_ids,
            current_only_region_ids,
            pabr_regions,
            current_regions,
            pabr_only_candidates,
            current_only_candidates,
            mutual_best_matches,
            mutual_best_id_changes,
        };
        proof {
            assert(pabr_region_ids@ == region_area_map(prs).dom());
            assert forall|i: int| 0 <= i < report.pabr_regions@.len() implies record_for(
                #[trigger] report.pabr_regions@[i],
                region_area_map(prs),
                current.areas@,
                pabr_labels@,
                current.labels@,
                candidates_spec(om, report.pabr_regions@[i].region_id, false),
                top as int,
            ) by {
                assert(adjacent(by_pabr@, report.pabr_regions@[i].region_id) == candidates_spec(overlaps@, report.pabr_regions@[i].region_id, false));
            }
            assert forall|i: int| 0 <= i < report.current_regions@.len() implies record_for(
                #[trigger] report.current_regions@[i],
                current.areas@,
                region_area_map(prs),
                current.labels@,
                pabr_labels@,
                candidates_spec(om, report.current_regions@[i].region_id, true),
                top as int,
            ) by {
                assert(adjacent(by_current@, report.current_regions@[i].region_id) == candidates_spec(overlaps@, report.current_regions@[i].region_id, true));
            }
        }
        Ok(report)
    }
}

/// The counts of a match report, with the path it is written to.
pub fn region_match_summary(report: &RegionMatchReport, output_path: &str) -> (r: RegionMatchSummary)
    ensures
        r.output_path@ == output_path@,
        r.pabr_region_count == report.pabr_region_count,
        r.current_region_count == report.current_region_count,
        r.overlap_pair_count == report.overlap_pair_count,
        r.pabr_only_count == report.pabr_only_region_ids@.len(),
        r.current_only_count == report.current_only_region_ids@.len(),
        r.mutual_best_match_count == report.mutual_best_matches@.len(),
{
    RegionMatchSummary {
        output_path: output_path.to_string(),
        pabr_region_count: report.pabr_region_count,
        current_region_count: report.current_region_count,
        overlap_pair_count: report.overlap_pair_count,
        pabr_only_count: report.pabr_only_region_ids.len(),
        current_only_count: report.current_only_region_ids.len(),
        mutual_best_match_count: report.mutual_best_matches.len(),
    }
}

} // verus!
