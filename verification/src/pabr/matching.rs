//! Scanline intervals and runs: merging, subtracting, overlap areas, and the
//! native areas of a map's regions.
use std::collections::BTreeMap;
use vstd::prelude::*;
use vstd::multiset::Multiset;
use super::{PabrMap, PabrError, RowSegment};
use super::geojson::{RegionGroupMapping, segment_rows_view, runs_ordered};
use super::util::sample_source_row_spec;

verus! {

broadcast use vstd::laws_cmp::group_laws_cmp, vstd::std_specs::btree::group_btree_axioms;

/// Whether `a` comes before or with `b`, by start and then end.
pub open spec fn interval_le(a: (u32, u32), b: (u32, u32)) -> bool {
    a.0 < b.0 || (a.0 == b.0 && a.1 <= b.1)
}

/// Whether the intervals are sorted by start and then end.
pub open spec fn intervals_sorted(s: Seq<(u32, u32)>) -> bool {
    forall|i: int, j: int| 0 <= i < j < s.len() ==> interval_le(#[trigger] s[i], #[trigger] s[j])
}

/// Whether some interval of `s` holds `p`.
pub open spec fn covers(s: Seq<(u32, u32)>, p: int) -> bool {
    exists|k: int| 0 <= k < s.len() && (#[trigger] s[k]).0 <= p < s[k].1
}

/// Whether `a` and `b` cover the same points.
#[verifier::opaque]
pub open spec fn same_cover(a: Seq<(u32, u32)>, b: Seq<(u32, u32)>) -> bool {
    forall|p: int| covers(a, p) <==> covers(b, p)
}

/// Whether each interval ends before the next one starts.
pub open spec fn separated(s: Seq<(u32, u32)>) -> bool {
    forall|i: int| 0 <= i < s.len() - 1 ==> (#[trigger] s[i]).1 < s[i + 1].0
}

/// Whether the intervals are non-empty and each one ends before the next
/// starts.
pub open spec fn disjoint_sorted(s: Seq<(u32, u32)>) -> bool {
    &&& forall|i: int| 0 <= i < s.len() ==> (#[trigger] s[i]).0 < s[i].1
    &&& forall|i: int, j: int| 0 <= i < j < s.len() ==> (#[trigger] s[i]).1 < (#[trigger] s[j]).0
}

/// Sorts intervals by start and then end, with `slice::sort_unstable`.
#[verifier::external_body]
fn sort_intervals(v: &mut Vec<(u32, u32)>)
    ensures
        final(v)@.to_multiset() == old(v)@.to_multiset(),
        intervals_sorted(final(v)@),
{
    v.sort_unstable();
}

proof fn lemma_separated_cover_order(s: Seq<(u32, u32)>, i: int, j: int)
    requires
        separated(s),
        forall|k: int| 0 <= k < s.len() ==> (#[trigger] s[k]).0 <= s[k].1,
        0 <= i < j < s.len(),
    ensures
        s[i].1 < s[j].0,
    decreases j - i,
{
    if j > i + 1 {
        lemma_separated_cover_order(s, i, j - 1);
        assert(s[j - 1].0 <= s[j - 1].1);
        assert(s[j - 1].1 < s[j].0);
    }
}

proof fn lemma_same_multiset_covers(a: Seq<(u32, u32)>, b: Seq<(u32, u32)>)
    requires
        a.to_multiset() == b.to_multiset(),
    ensures
        forall|p: int| covers(a, p) <==> covers(b, p),
{
    a.to_multiset_ensures();
    b.to_multiset_ensures();
    assert forall|p: int| covers(a, p) implies covers(b, p) by {
        let k = choose|k: int| 0 <= k < a.len() && (#[trigger] a[k]).0 <= p < a[k].1;
        assert(a.contains(a[k]));
        assert(a.to_multiset().count(a[k]) > 0);
        assert(b.to_multiset().count(a[k]) > 0);
        assert(b.contains(a[k]));
        let k2 = choose|k2: int| 0 <= k2 < b.len() && b[k2] == a[k];
        assert(b[k2].0 <= p < b[k2].1);
    }
    assert forall|p: int| covers(b, p) implies covers(a, p) by {
        let k = choose|k: int| 0 <= k < b.len() && (#[trigger] b[k]).0 <= p < b[k].1;
        assert(b.contains(b[k]));
        assert(b.to_multiset().count(b[k]) > 0);
        assert(a.to_multiset().count(b[k]) > 0);
        assert(a.contains(b[k]));
        let k2 = choose|k2: int| 0 <= k2 < a.len() && a[k2] == b[k];
        assert(a[k2].0 <= p < a[k2].1);
    }
}

proof fn lemma_covers_push(s: Seq<(u32, u32)>, x: (u32, u32), p: int)
    ensures
        covers(s.push(x), p) <==> (covers(s, p) || (x.0 <= p < x.1)),
{
    if covers(s.push(x), p) {
        let k = choose|k: int| 0 <= k < s.push(x).len() && (#[trigger] s.push(x)[k]).0 <= p < s.push(x)[k].1;
        if k < s.len() {
            assert(s[k] == s.push(x)[k]);
        }
    }
    if covers(s, p) {
        let k = choose|k: int| 0 <= k < s.len() && (#[trigger] s[k]).0 <= p < s[k].1;
        assert(s.push(x)[k] == s[k]);
    }
    if x.0 <= p < x.1 {
        assert(s.push(x)[s.len() as int] == x);
    }
}

/// Widening the last interval by an interval that starts inside it covers
/// what both covered.
proof fn lemma_merge_widen(merged: Seq<(u32, u32)>, current: (u32, u32), next: (u32, u32), wider: (u32, u32))
    requires
        current.0 <= next.0 <= current.1,
        wider.0 == current.0,
        wider.1 == if current.1 < next.1 { next.1 } else { current.1 },
    ensures
        forall|p: int| covers(merged.push(wider), p) <==> (covers(merged.push(current), p) || (next.0 <= p < next.1)),
{
    assert forall|p: int| covers(merged.push(wider), p) <==> (covers(merged.push(current), p) || (next.0 <= p < next.1)) by {
        lemma_covers_push(merged, wider, p);
        lemma_covers_push(merged, current, p);
    }
}

proof fn lemma_take_push_covers(s: Seq<(u32, u32)>, i: int)
    requires
        0 <= i < s.len(),
    ensures
        forall|p: int| covers(s.take(i + 1), p) <==> (covers(s.take(i), p) || (s[i].0 <= p < s[i].1)),
{
    assert(s.take(i + 1) =~= s.take(i).push(s[i]));
    assert forall|p: int| covers(s.take(i + 1), p) <==> (covers(s.take(i), p) || (s[i].0 <= p < s[i].1)) by {
        lemma_covers_push(s.take(i), s[i], p);
    }
}

/// Whether the intervals are sorted and each ends before the next starts.
pub open spec fn merged_shape(s: Seq<(u32, u32)>) -> bool {
    intervals_sorted(s) && separated(s)
}

proof fn lemma_shape_widen(merged: Seq<(u32, u32)>, current: (u32, u32), wider: (u32, u32))
    requires
        merged_shape(merged.push(current)),
        wider.0 == current.0,
        wider.1 >= current.1,
    ensures
        merged_shape(merged.push(wider)),
{
    let b = merged.push(current);
    let a = merged.push(wider);
    assert forall|i: int, j: int| 0 <= i < j < a.len() implies interval_le(#[trigger] a[i], #[trigger] a[j]) by {
        assert(interval_le(b[i], b[j]));
        assert(a[i] == b[i]);
        if j < merged.len() {
            assert(a[j] == b[j]);
        } else {
            assert(b[j] == current);
            assert(a[j] == wider);
            assert(interval_le(b[i], current));
            assert(interval_le(a[i], wider));
        }
    }
    assert forall|i: int| 0 <= i < a.len() - 1 implies (#[trigger] a[i]).1 < a[i + 1].0 by {
        assert(b[i].1 < b[i + 1].0);
        assert(a[i] == b[i]);
    }
}

proof fn lemma_shape_push(merged: Seq<(u32, u32)>, current: (u32, u32), next: (u32, u32))
    requires
        merged_shape(merged.push(current)),
        interval_le(current, next),
        current.1 < next.0,
    ensures
        merged_shape(merged.push(current).push(next)),
{
    let b = merged.push(current);
    let a = b.push(next);
    assert forall|i: int, j: int| 0 <= i < j < a.len() implies interval_le(#[trigger] a[i], #[trigger] a[j]) by {
        assert(a[i] == b[i]);
        if j < b.len() {
            assert(a[j] == b[j]);
        } else if i < b.len() - 1 {
            assert(interval_le(b[i], b[b.len() - 1]));
            assert(b[b.len() - 1] == current);
        }
    }
    assert forall|i: int| 0 <= i < a.len() - 1 implies (#[trigger] a[i]).1 < a[i + 1].0 by {
        assert(a[i] == b[i]);
        if i + 1 < b.len() {
            assert(b[i].1 < b[i + 1].0);
        }
    }
}

proof fn lemma_cover_widen_step(
    merged: Seq<(u32, u32)>,
    current: (u32, u32),
    wider: (u32, u32),
    sorted: Seq<(u32, u32)>,
    i: int,
)
    requires
        0 <= i < sorted.len(),
        current.0 <= sorted[i].0 <= current.1,
        wider.0 == current.0,
        wider.1 == if current.1 < sorted[i].1 { sorted[i].1 } else { current.1 },
        same_cover(merged.push(current), sorted.take(i)),
    ensures
        same_cover(merged.push(wider), sorted.take(i + 1)),
{
    reveal(same_cover);
    lemma_merge_widen(merged, current, sorted[i], wider);
    lemma_take_push_covers(sorted, i);
    assert forall|p: int| covers(merged.push(wider), p) <==> covers(sorted.take(i + 1), p) by {
        assert(covers(merged.push(current), p) <==> covers(sorted.take(i), p));
        assert(covers(merged.push(wider), p) <==> (covers(merged.push(current), p) || (sorted[i].0 <= p < sorted[i].1)));
        assert(covers(sorted.take(i + 1), p) <==> (covers(sorted.take(i), p) || (sorted[i].0 <= p < sorted[i].1)));
    }
}

proof fn lemma_cover_push_step(merged: Seq<(u32, u32)>, current: (u32, u32), sorted: Seq<(u32, u32)>, i: int)
    requires
        0 <= i < sorted.len(),
        same_cover(merged.push(current), sorted.take(i)),
    ensures
        same_cover(merged.push(current).push(sorted[i]), sorted.take(i + 1)),
{
    reveal(same_cover);
    lemma_take_push_covers(sorted, i);
    assert forall|p: int| covers(merged.push(current).push(sorted[i]), p) <==> covers(sorted.take(i + 1), p) by {
        lemma_covers_push(merged.push(current), sorted[i], p);
        assert(covers(merged.push(current), p) <==> covers(sorted.take(i), p));
        assert(covers(sorted.take(i + 1), p) <==> (covers(sorted.take(i), p) || (sorted[i].0 <= p < sorted[i].1)));
    }
}

/// Whether every interval holds at least one point.
pub open spec fn intervals_nonempty(s: Seq<(u32, u32)>) -> bool {
    forall|i: int| 0 <= i < s.len() ==> (#[trigger] s[i]).0 < s[i].1
}

/// Sorts intervals and merges those that overlap or touch.
pub fn merge_intervals(intervals: &mut Vec<(u32, u32)>)
    ensures
        old(intervals)@.len() < 2 ==> final(intervals)@ == old(intervals)@,
        old(intervals)@.len() >= 2 ==> merged_shape(final(intervals)@) && same_cover(final(intervals)@, old(intervals)@),
        intervals_nonempty(old(intervals)@) ==> intervals_nonempty(final(intervals)@),
{
    if intervals.len() < 2 {
        return;
    }
    let ghost original = intervals@;
    sort_intervals(intervals);
    let ghost sorted = intervals@;
    proof {
        original.to_multiset_ensures();
        sorted.to_multiset_ensures();
        lemma_same_multiset_covers(sorted, original);
        if intervals_nonempty(original) {
            assert forall|k: int| 0 <= k < sorted.len() implies (#[trigger] sorted[k]).0 < sorted[k].1 by {
                assert(sorted.contains(sorted[k]));
                assert(sorted.to_multiset().count(sorted[k]) > 0);
                assert(original.to_multiset().count(sorted[k]) > 0);
                assert(original.contains(sorted[k]));
                let j = choose|j: int| 0 <= j < original.len() && original[j] == sorted[k];
                assert(original[j].0 < original[j].1);
            }
        }
    }
    let mut merged: Vec<(u32, u32)> = Vec::new();
    let mut current = intervals[0];
    let mut i: usize = 1;
    proof {
        assert(sorted.take(1) =~= seq![sorted[0]]);
        assert(merged@.push(current) =~= seq![current]);
        reveal(same_cover);
    }
    while i < intervals.len()
        invariant
            sorted == intervals@,
            intervals_sorted(sorted),
            1 <= i <= sorted.len(),
            forall|k: int| i <= k < sorted.len() ==> interval_le(current, #[trigger] sorted[k])
                || (current.0 <= current.1 && current.0 <= sorted[k].0),
            merged_shape(merged@.push(current)),
            same_cover(merged@.push(current), sorted.take(i as int)),
            intervals_nonempty(sorted) ==> intervals_nonempty(merged@.push(current)),
        decreases sorted.len() - i,
    {
        let next = intervals[i];
        if next.0 <= current.1 {
            let end = if current.1 < next.1 { next.1 } else { current.1 };
            let wider = (current.0, end);
            proof {
                assert(current.0 <= next.0);
                lemma_cover_widen_step(merged@, current, wider, sorted, i as int);
                lemma_shape_widen(merged@, current, wider);
                if intervals_nonempty(sorted) {
                    assert(merged@.push(current)[merged@.len() as int] == current);
                    assert forall|k: int| 0 <= k < merged@.push(wider).len() implies (#[trigger] merged@.push(wider)[k]).0 < merged@.push(wider)[k].1 by {
                        if k < merged@.len() {
                            assert(merged@.push(wider)[k] == merged@.push(current)[k]);
                        }
                    }
                }
            }
            current = wider;
        } else {
            proof {
                lemma_shape_push(merged@, current, next);
                lemma_cover_push_step(merged@, current, sorted, i as int);
                assert(interval_le(current, next));
                assert forall|k: int| i + 1 <= k < sorted.len() implies interval_le(next, #[trigger] sorted[k])
                    || (next.0 <= next.1 && next.0 <= sorted[k].0) by {
                    assert(interval_le(sorted[i as int], sorted[k]));
                }
                if intervals_nonempty(sorted) {
                    assert(sorted[i as int] == next);
                    assert forall|k: int| 0 <= k < merged@.push(current).push(next).len() implies (#[trigger] merged@.push(current).push(next)[k]).0 < merged@.push(current).push(next)[k].1 by {
                        if k < merged@.len() + 1 {
                            assert(merged@.push(current).push(next)[k] == merged@.push(current)[k]);
                        }
                    }
                }
            }
            merged.push(current);
            current = next;
        }
        i = i + 1;
    }
    merged.push(current);
    proof {
        assert(sorted.take(sorted.len() as int) =~= sorted);
        reveal(same_cover);
    }
    *intervals = merged;
}


/// Whether `result` covers exactly what the first `b` base intervals and
/// `[start, cursor)` cover, less what the holes cover.
#[verifier::opaque]
pub open spec fn subtract_state(
    result: Seq<(u32, u32)>,
    base: Seq<(u32, u32)>,
    holes: Seq<(u32, u32)>,
    b: int,
    start: int,
    cursor: int,
) -> bool {
    forall|p: int| #[trigger] subtract_point(result, base, holes, b, start, cursor, p)
}

/// Whether `result` holds `p` exactly when the first `b` base intervals or
/// `[start, cursor)` hold it and no hole does.
pub open spec fn subtract_point(
    result: Seq<(u32, u32)>,
    base: Seq<(u32, u32)>,
    holes: Seq<(u32, u32)>,
    b: int,
    start: int,
    cursor: int,
    p: int,
) -> bool {
    covers(result, p) <==> ((covers(base.take(b), p) || (start <= p && p < cursor)) && !covers(holes, p))
}

/// Whether `r` holds `p` exactly when `base` holds it and `holes` do not.
pub open spec fn difference_point(r: Seq<(u32, u32)>, base: Seq<(u32, u32)>, holes: Seq<(u32, u32)>, p: int) -> bool {
    covers(r, p) <==> (covers(base, p) && !covers(holes, p))
}

proof fn lemma_holes_clear(holes: Seq<(u32, u32)>, j: int, cursor: int, limit: int)
    requires
        disjoint_sorted(holes),
        0 <= j <= holes.len(),
        forall|k: int| 0 <= k < j ==> (#[trigger] holes[k]).1 <= cursor,
        j < holes.len() ==> limit <= holes[j].0,
    ensures
        forall|p: int| cursor <= p < limit ==> !covers(holes, p),
{
    assert forall|p: int| cursor <= p < limit implies !covers(holes, p) by {
        if covers(holes, p) {
            let k = choose|k: int| 0 <= k < holes.len() && (#[trigger] holes[k]).0 <= p < holes[k].1;
            if k > j {
                assert(holes[j].1 < holes[k].0);
            }
        }
    }
}

proof fn lemma_subtract_push(
    result: Seq<(u32, u32)>,
    base: Seq<(u32, u32)>,
    holes: Seq<(u32, u32)>,
    b: int,
    start: int,
    cursor: int,
    piece_end: int,
    new_cursor: int,
)
    requires
        subtract_state(result, base, holes, b, start, cursor),
        start <= cursor < piece_end <= new_cursor,
        piece_end <= u32::MAX,
        cursor >= 0,
        forall|p: int| cursor <= p < piece_end ==> !covers(holes, p),
        forall|p: int| piece_end <= p < new_cursor ==> covers(holes, p),
    ensures
        subtract_state(result.push((cursor as u32, piece_end as u32)), base, holes, b, start, new_cursor),
{
    reveal(subtract_state);
    let piece = (cursor as u32, piece_end as u32);
    assert(piece.0 == cursor && piece.1 == piece_end);
    assert forall|p: int| #[trigger] subtract_point(result.push(piece), base, holes, b, start, new_cursor, p) by {
        lemma_covers_push(result, piece, p);
        assert(subtract_point(result, base, holes, b, start, cursor, p));
        if cursor <= p < piece_end {
            assert(!covers(holes, p));
        }
        if piece_end <= p < new_cursor {
            assert(covers(holes, p));
        }
    }
    assert(result.push((cursor as u32, piece_end as u32)) == result.push(piece));
}

proof fn lemma_subtract_skip(
    result: Seq<(u32, u32)>,
    base: Seq<(u32, u32)>,
    holes: Seq<(u32, u32)>,
    b: int,
    start: int,
    cursor: int,
    new_cursor: int,
)
    requires
        subtract_state(result, base, holes, b, start, cursor),
        start <= cursor <= new_cursor,
        forall|p: int| cursor <= p < new_cursor ==> covers(holes, p),
    ensures
        subtract_state(result, base, holes, b, start, new_cursor),
{
    reveal(subtract_state);
    assert forall|p: int| #[trigger] subtract_point(result, base, holes, b, start, new_cursor, p) by {
        assert(subtract_point(result, base, holes, b, start, cursor, p));
    }
}

proof fn lemma_subtract_next_base(
    result: Seq<(u32, u32)>,
    base: Seq<(u32, u32)>,
    holes: Seq<(u32, u32)>,
    b: int,
)
    requires
        0 <= b < base.len(),
        subtract_state(result, base, holes, b, base[b].0 as int, base[b].1 as int),
    ensures
        b + 1 < base.len() ==> subtract_state(result, base, holes, b + 1, base[b + 1].0 as int, base[b + 1].0 as int),
        forall|p: int| #[trigger] difference_point(result, base.take(b + 1), holes, p),
{
    reveal(subtract_state);
    assert(base.take(b + 1) =~= base.take(b).push(base[b]));
    assert forall|p: int| #[trigger] difference_point(result, base.take(b + 1), holes, p) by {
        lemma_covers_push(base.take(b), base[b], p);
        assert(subtract_point(result, base, holes, b, base[b].0 as int, base[b].1 as int, p));
    }
    if b + 1 < base.len() {
        assert forall|p: int| #[trigger] subtract_point(result, base, holes, b + 1, base[b + 1].0 as int, base[b + 1].0 as int, p) by {
            assert(difference_point(result, base.take(b + 1), holes, p));
        }
    }
}

/// The points of `base` that no hole covers, as intervals from left to
/// right; both lists are non-empty intervals that each end before the next
/// starts.
pub fn subtract_intervals(base: &[(u32, u32)], holes: &[(u32, u32)]) -> (r: Vec<(u32, u32)>)
    requires
        disjoint_sorted(base@),
        disjoint_sorted(holes@),
    ensures
        forall|i: int| 0 <= i < r@.len() ==> (#[trigger] r@[i]).0 < r@[i].1,
        forall|i: int, j: int| 0 <= i < j < r@.len() ==> (#[trigger] r@[i]).1 < (#[trigger] r@[j]).0,
        forall|p: int| #[trigger] difference_point(r@, base@, holes@, p),
{
    let mut result: Vec<(u32, u32)> = Vec::new();
    let mut hole_index: usize = 0;
    let mut b: usize = 0;
    let ghost bs = base@;
    let ghost hs = holes@;
    proof {
        reveal(subtract_state);
        assert(bs.take(0) =~= Seq::<(u32, u32)>::empty());
        if base.len() > 0 {
            assert forall|p: int| #[trigger] subtract_point(result@, bs, hs, 0, bs[0].0 as int, bs[0].0 as int, p) by {}
        } else {
            assert forall|p: int| #[trigger] difference_point(result@, bs.take(0), hs, p) by {}
        }
    }
    while b < base.len()
        invariant
            bs == base@,
            hs == holes@,
            disjoint_sorted(bs),
            disjoint_sorted(hs),
            b <= bs.len(),
            hole_index <= hs.len(),
            b < bs.len() ==> forall|k: int| 0 <= k < hole_index ==> (#[trigger] hs[k]).1 <= bs[b as int].0,
            b < bs.len() ==> subtract_state(result@, bs, hs, b as int, bs[b as int].0 as int, bs[b as int].0 as int),
            b == bs.len() ==> forall|p: int| #[trigger] difference_point(result@, bs.take(b as int), hs, p),
            forall|i: int| 0 <= i < result@.len() ==> (#[trigger] result@[i]).0 < result@[i].1,
            forall|i: int, j: int| 0 <= i < j < result@.len() ==> (#[trigger] result@[i]).1 < (#[trigger] result@[j]).0,
            b < bs.len() ==> forall|i: int| 0 <= i < result@.len() ==> (#[trigger] result@[i]).1 < bs[b as int].0,
        decreases bs.len() - b,
    {
        let (start_x, end_x) = base[b];
        let mut cursor = start_x;
        while hole_index < holes.len() && holes[hole_index].1 <= cursor
            invariant
                hs == holes@,
                hole_index <= hs.len(),
                forall|k: int| 0 <= k < hole_index ==> (#[trigger] hs[k]).1 <= cursor,
            decreases hs.len() - hole_index,
        {
            hole_index = hole_index + 1;
        }
        let mut scan_index = hole_index;
        while scan_index < holes.len()
            invariant_except_break
                cursor < end_x,
            invariant
                bs == base@,
                hs == holes@,
                disjoint_sorted(bs),
                disjoint_sorted(hs),
                b < bs.len(),
                bs[b as int] == (start_x, end_x),
                start_x <= cursor <= end_x,
                scan_index <= hs.len(),
                forall|k: int| 0 <= k < scan_index ==> (#[trigger] hs[k]).1 <= cursor,
                subtract_state(result@, bs, hs, b as int, start_x as int, cursor as int),
                forall|i: int| 0 <= i < result@.len() ==> (#[trigger] result@[i]).0 < result@[i].1,
                forall|i: int, j: int| 0 <= i < j < result@.len() ==> (#[trigger] result@[i]).1 < (#[trigger] result@[j]).0,
                forall|i: int| 0 <= i < result@.len() ==> (#[trigger] result@[i]).1 < cursor,
            ensures
                start_x <= cursor <= end_x,
                cursor < end_x ==> forall|p: int| cursor <= p < end_x ==> !covers(hs, p),
                subtract_state(result@, bs, hs, b as int, start_x as int, cursor as int),
                forall|i: int| 0 <= i < result@.len() ==> (#[trigger] result@[i]).0 < result@[i].1,
                forall|i: int, j: int| 0 <= i < j < result@.len() ==> (#[trigger] result@[i]).1 < (#[trigger] result@[j]).0,
                forall|i: int| 0 <= i < result@.len() ==> (#[trigger] result@[i]).1 < cursor,
            decreases hs.len() - scan_index,
        {
            let (hole_start, hole_end) = holes[scan_index];
            if hole_start >= end_x {
                proof {
                    lemma_holes_clear(hs, scan_index as int, cursor as int, end_x as int);
                }
                break;
            }
            let clipped = if hole_end < end_x { hole_end } else { end_x };
            let new_cursor = if cursor < clipped { clipped } else { cursor };
            if hole_start > cursor {
                proof {
                    lemma_holes_clear(hs, scan_index as int, cursor as int, hole_start as int);
                    assert forall|p: int| hole_start <= p < new_cursor implies covers(hs, p) by {
                        assert(hs[scan_index as int].0 <= p < hs[scan_index as int].1);
                    }
                    lemma_subtract_push(result@, bs, hs, b as int, start_x as int, cursor as int,
                        hole_start as int, new_cursor as int);
                }
                result.push((cursor, hole_start));
            } else {
                proof {
                    assert forall|p: int| cursor <= p < new_cursor implies covers(hs, p) by {
                        assert(hs[scan_index as int].0 <= p < hs[scan_index as int].1);
                    }
                    lemma_subtract_skip(result@, bs, hs, b as int, start_x as int, cursor as int, new_cursor as int);
                }
            }
            cursor = new_cursor;
            if cursor >= end_x {
                break;
            }
            scan_index = scan_index + 1;
        }
        if cursor < end_x {
            proof {
                lemma_subtract_push(result@, bs, hs, b as int, start_x as int, cursor as int, end_x as int, end_x as int);
            }
            result.push((cursor, end_x));
        }
        proof {
            lemma_subtract_next_base(result@, bs, hs, b as int);
            if b + 1 < bs.len() {
                assert(bs[b as int].1 < bs[b + 1].0);
                assert forall|k: int| 0 <= k < hole_index implies (#[trigger] hs[k]).1 <= bs[b + 1].0 by {}
            }
        }
        b = b + 1;
    }
    proof {
        assert(bs.take(bs.len() as int) =~= bs);
        assert(b == bs.len());
        assert forall|p: int| #[trigger] difference_point(result@, bs, hs, p) by {
            assert(difference_point(result@, bs.take(b as int), hs, p));
        }
    }
    result
}


/// The total width of the runs of value `v` in a row.
pub open spec fn row_area(segments: Seq<RowSegment>, v: u32) -> int
    decreases segments.len(),
{
    if segments.len() == 0 {
        0
    } else {
        row_area(segments.drop_last(), v) + if segments.last().value == v {
            segments.last().end_x - segments.last().start_x
        } else {
            0
        }
    }
}

/// The total width of the runs of value `v` in all rows.
pub open spec fn rows_area(rows: Seq<Seq<RowSegment>>, v: u32) -> int
    decreases rows.len(),
{
    if rows.len() == 0 {
        0
    } else {
        rows_area(rows.drop_last(), v) + row_area(rows.last(), v)
    }
}

/// Whether some run before `(r, k)` has value `v`.
pub open spec fn value_seen_before(rows: Seq<Seq<RowSegment>>, r: int, k: int, v: u32) -> bool {
    exists|r2: int, k2: int|
        #![trigger rows[r2][k2]]
        0 <= r2 < rows.len() && 0 <= k2 < rows[r2].len() && (r2 < r || (r2 == r && k2 < k)) && rows[r2][k2].value == v
}

/// Whether some run has value `v`.
pub open spec fn value_seen(rows: Seq<Seq<RowSegment>>, v: u32) -> bool {
    value_seen_before(rows, rows.len() as int, 0, v)
}

proof fn lemma_row_area_bound(segments: Seq<RowSegment>, v: u32, bound: int)
    requires
        runs_ordered(segments, bound),
    ensures
        0 <= row_area(segments, v) <= if segments.len() == 0 { 0 } else { segments.last().end_x as int },
        segments.len() > 0 ==> segments.last().end_x <= bound,
    decreases segments.len(),
{
    if segments.len() > 0 {
        let rest = segments.drop_last();
        assert(runs_ordered(rest, bound)) by {
            assert forall|i: int, j: int| 0 <= i < j < rest.len() implies (#[trigger] rest[i]).end_x <= (#[trigger] rest[j]).start_x by {
                assert(segments[i].end_x <= segments[j].start_x);
            }
        }
        lemma_row_area_bound(rest, v, bound);
        if rest.len() > 0 {
            assert(segments[rest.len() - 1].end_x <= segments[segments.len() - 1].start_x);
        }
    }
}

proof fn lemma_rows_area_bound(rows: Seq<Seq<RowSegment>>, v: u32, bound: int)
    requires
        bound >= 0,
        forall|r: int| 0 <= r < rows.len() ==> runs_ordered(#[trigger] rows[r], bound),
    ensures
        0 <= rows_area(rows, v) <= rows.len() * bound,
    decreases rows.len(),
{
    if rows.len() > 0 {
        let rest = rows.drop_last();
        assert forall|r: int| 0 <= r < rest.len() implies runs_ordered(#[trigger] rest[r], bound) by {
            assert(rest[r] == rows[r]);
        }
        lemma_rows_area_bound(rest, v, bound);
        assert(runs_ordered(rows[rows.len() - 1], bound));
        lemma_row_area_bound(rows.last(), v, bound);
        assert(rows_area(rows, v) <= rest.len() * bound + bound);
        assert(rest.len() * bound + bound == rows.len() * bound) by (nonlinear_arith)
            requires
                rows.len() == rest.len() + 1,
        ;
    }
}

/// Whether every run of a row ends no earlier than it starts.
pub open spec fn runs_forward(segments: Seq<RowSegment>) -> bool {
    forall|i: int| 0 <= i < segments.len() ==> (#[trigger] segments[i]).start_x <= segments[i].end_x
}

proof fn lemma_row_area_nonneg(segments: Seq<RowSegment>, v: u32)
    requires
        runs_forward(segments),
    ensures
        row_area(segments, v) >= 0,
    decreases segments.len(),
{
    if segments.len() > 0 {
        let rest = segments.drop_last();
        assert(runs_forward(rest)) by {
            assert forall|i: int| 0 <= i < rest.len() implies (#[trigger] rest[i]).start_x <= rest[i].end_x by {
                assert(rest[i] == segments[i]);
            }
        }
        lemma_row_area_nonneg(rest, v);
        assert(segments[segments.len() - 1].start_x <= segments[segments.len() - 1].end_x);
    }
}

proof fn lemma_row_area_prefix(segments: Seq<RowSegment>, v: u32, k: int)
    requires
        runs_forward(segments),
        0 <= k <= segments.len(),
    ensures
        0 <= row_area(segments.take(k), v) <= row_area(segments, v),
    decreases segments.len() - k,
{
    if k < segments.len() {
        lemma_row_area_prefix(segments, v, k + 1);
        assert(segments.take(k + 1).drop_last() =~= segments.take(k));
        assert(segments[k].start_x <= segments[k].end_x);
    } else {
        assert(segments.take(k) =~= segments);
    }
    assert(runs_forward(segments.take(k))) by {
        assert forall|i: int| 0 <= i < segments.take(k).len() implies (#[trigger] segments.take(k)[i]).start_x <= segments.take(k)[i].end_x by {
            assert(segments.take(k)[i] == segments[i]);
        }
    }
    lemma_row_area_nonneg(segments.take(k), v);
}

proof fn lemma_rows_area_prefix(rows: Seq<Seq<RowSegment>>, v: u32, r: int)
    requires
        forall|q: int| 0 <= q < rows.len() ==> runs_forward(#[trigger] rows[q]),
        0 <= r <= rows.len(),
    ensures
        0 <= rows_area(rows.take(r), v) <= rows_area(rows, v),
    decreases rows.len() - r,
{
    if r < rows.len() {
        lemma_rows_area_prefix(rows, v, r + 1);
        assert(rows.take(r + 1).drop_last() =~= rows.take(r));
        lemma_row_area_nonneg(rows[r], v);
        assert(rows.take(r + 1).last() == rows[r]);
        assert forall|q: int| 0 <= q < rows.take(r).len() implies runs_forward(#[trigger] rows.take(r)[q]) by {
            assert(rows.take(r)[q] == rows[q]);
        }
        lemma_rows_area_nonneg(rows.take(r), v);
    } else {
        assert(rows.take(r) =~= rows);
        lemma_rows_area_nonneg(rows, v);
    }
}

proof fn lemma_rows_area_nonneg(rows: Seq<Seq<RowSegment>>, v: u32)
    requires
        forall|q: int| 0 <= q < rows.len() ==> runs_forward(#[trigger] rows[q]),
    ensures
        rows_area(rows, v) >= 0,
    decreases rows.len(),
{
    if rows.len() > 0 {
        let rest = rows.drop_last();
        assert forall|q: int| 0 <= q < rest.len() implies runs_forward(#[trigger] rest[q]) by {
            assert(rest[q] == rows[q]);
        }
        lemma_rows_area_nonneg(rest, v);
        lemma_row_area_nonneg(rows[rows.len() - 1], v);
    }
}

proof fn lemma_row_area_positive(segments: Seq<RowSegment>, v: u32, k: int)
    requires
        runs_forward(segments),
        0 <= k < segments.len(),
        segments[k].value == v,
        segments[k].start_x < segments[k].end_x,
    ensures
        row_area(segments, v) > 0,
    decreases segments.len(),
{
    let rest = segments.drop_last();
    assert forall|i: int| 0 <= i < rest.len() implies (#[trigger] rest[i]).start_x <= rest[i].end_x by {
        assert(rest[i] == segments[i]);
    }
    if k < segments.len() - 1 {
        assert(rest[k] == segments[k]);
        lemma_row_area_positive(rest, v, k);
        assert(segments.last() == segments[segments.len() - 1]);
    } else {
        lemma_row_area_nonneg(rest, v);
    }
}

/// Every region that the rows of a field hold has a positive area: where
/// each row's runs are ordered and not empty, a value that some run holds
/// covers at least that run.
pub proof fn law_region_areas_positive(rows: Seq<Seq<RowSegment>>, width: int)
    requires
        forall|q: int| 0 <= q < rows.len() ==> runs_ordered(#[trigger] rows[q], width),
    ensures
        forall|v: u32| #[trigger] region_area_map(rows).dom().contains(v) ==> rows_area(rows, v) > 0,
{
    assert forall|q: int| 0 <= q < rows.len() implies runs_forward(#[trigger] rows[q]) by {
        assert(runs_ordered(rows[q], width));
    }
    assert forall|v: u32| #[trigger] region_area_map(rows).dom().contains(v) implies rows_area(rows, v) > 0 by {
        let (r, k) = choose|r: int, k: int|
            #![trigger rows[r][k]]
            0 <= r < rows.len() && 0 <= k < rows[r].len() && (r < rows.len() || (r == rows.len() && k < 0)) && rows[r][k].value == v;
        assert(runs_ordered(rows[r], width));
        assert(rows[r][k].start_x < rows[r][k].end_x);
        lemma_row_area_positive(rows[r], v, k);
        lemma_rows_area_split(rows, v, r);
    }
}

proof fn lemma_rows_area_split(rows: Seq<Seq<RowSegment>>, v: u32, r: int)
    requires
        forall|q: int| 0 <= q < rows.len() ==> runs_forward(#[trigger] rows[q]),
        0 <= r < rows.len(),
    ensures
        rows_area(rows, v) >= row_area(rows[r], v),
    decreases rows.len(),
{
    let rest = rows.drop_last();
    assert forall|q: int| 0 <= q < rest.len() implies runs_forward(#[trigger] rest[q]) by {
        assert(rest[q] == rows[q]);
    }
    lemma_rows_area_nonneg(rest, v);
    lemma_row_area_nonneg(rows[rows.len() - 1], v);
    if r < rows.len() - 1 {
        assert(rest[r] == rows[r]);
        lemma_rows_area_split(rest, v, r);
    }
}

impl PabrMap {
    /// Every row of the native-size field is ordered within the native width.
    pub proof fn lemma_field_rows_ordered(&self, row_shift: u32, mapping: Option<RegionGroupMapping>, n: nat)
        requires
            self.field_rows_spec(row_shift, mapping, n) is Ok,
        ensures
            self.field_rows_spec(row_shift, mapping, n) matches Ok(rows) && rows.len() == n
                && forall|r: int| 0 <= r < rows.len() ==> runs_ordered(#[trigger] rows[r], self.rid.native_width as int),
        decreases n,
    {
        if n > 0 {
            self.lemma_field_rows_ordered(row_shift, mapping, (n - 1) as nat);
            let source_row = sample_source_row_spec((n - 1) as u32, self.rid.native_height, self.bkd.rows@.len() as usize);
            self.lemma_segments_ordered(source_row, row_shift, mapping);
        }
    }

    /// The area of each region at native size: the total width of its runs
    /// over all output rows.
    pub fn native_region_areas(&self, row_shift: u32) -> (r: Result<BTreeMap<u32, u64>, PabrError>)
        requires
            self.bkd.rows@.len() * row_shift <= u64::MAX,
            2 * self.rid.native_height * self.bkd.rows@.len() <= u64::MAX,
        ensures
            self.rid.native_width == 0 || self.rid.native_height == 0 ==> r == Err::<BTreeMap<u32, u64>, PabrError>(PabrError::ZeroNativeDimensions),
            self.rid.native_width > 0 && self.rid.native_height > 0 && self.bkd.rows@.len() == 0
                ==> r == Err::<BTreeMap<u32, u64>, PabrError>(PabrError::NoBkdRows),
            self.rid.native_width > 0 && self.rid.native_height > 0 && self.bkd.rows@.len() > 0 ==> match self.field_rows_spec(
                row_shift, None, self.rid.native_height as nat) {
                Ok(rows) => r matches Ok(areas) && areas@ == region_area_map(rows),
                Err(e) => r == Err::<BTreeMap<u32, u64>, PabrError>(e),
            },
            r matches Ok(areas) ==> forall|v: u32| #[trigger] areas@.contains_key(v) ==> 0 < areas@[v]
                <= self.rid.native_height * self.rid.native_width,
    {
        let rows = match self.build_field_rows(row_shift, None) {
            Ok(v) => v,
            Err(e) => return Err(e),
        };
        proof {
            self.lemma_field_rows_ordered(row_shift, None, self.rid.native_height as nat);
        }
        Ok(field_region_areas(&rows, self.rid.native_width))
    }
}

/// The area of each region that `rows` use: the total width of its runs.
pub open spec fn region_area_map(rows: Seq<Seq<RowSegment>>) -> Map<u32, u64> {
    Map::new(|v: u32| value_seen(rows, v), |v: u32| rows_area(rows, v) as u64)
}

/// Sums the width of each region's runs over `rows`, whose rows each hold
/// ordered runs within `native_width`.
pub fn field_region_areas(rows: &Vec<Vec<RowSegment>>, native_width: u32) -> (areas: BTreeMap<u32, u64>)
    requires
        rows@.len() <= 0xFFFF_FFFF,
        forall|q: int| 0 <= q < rows@.len() ==> runs_ordered(#[trigger] segment_rows_view(rows@)[q], native_width as int),
    ensures
        areas@ == region_area_map(segment_rows_view(rows@)),
        forall|v: u32| #[trigger] areas@.contains_key(v) ==> 0 < areas@[v] <= rows@.len() * native_width,
{
    let ghost rs = segment_rows_view(rows@);
    let ghost nw = native_width as int;
    proof {
        assert forall|q: int| 0 <= q < rs.len() implies runs_forward(#[trigger] rs[q]) by {
            assert(runs_ordered(rs[q], nw));
        }
        assert forall|v: u32| #[trigger] rows_area(rs, v) <= u64::MAX by {
            lemma_rows_area_bound(rs, v, nw);
            assert(rs.len() * nw <= 0xFFFF_FFFF * 0xFFFF_FFFF) by (nonlinear_arith)
                requires
                    rs.len() <= 0xFFFF_FFFF,
                    nw <= 0xFFFF_FFFF,
                    nw >= 0,
            ;
        }
        law_region_areas_positive(rs, nw);
        assert forall|v: u32| #[trigger] rows_area(rs, v) <= rs.len() * nw by {
            lemma_rows_area_bound(rs, v, nw);
        }
    }
    sum_region_areas(rows)
}

/// Sums the width of each region's runs over `rows`; no run ends before it
/// starts, and no region's total exceeds 64 bits.
pub fn sum_region_areas(rows: &Vec<Vec<RowSegment>>) -> (areas: BTreeMap<u32, u64>)
    requires
        forall|q: int| 0 <= q < rows@.len() ==> runs_forward(#[trigger] segment_rows_view(rows@)[q]),
        forall|v: u32| #[trigger] rows_area(segment_rows_view(rows@), v) <= u64::MAX,
    ensures
        areas@ == region_area_map(segment_rows_view(rows@)),
{
    let ghost rs = segment_rows_view(rows@);
    let mut areas: BTreeMap<u32, u64> = BTreeMap::new();
    let mut r: usize = 0;
    assert(rs.take(0) =~= Seq::<Seq<RowSegment>>::empty());
    while r < rows.len()
        invariant
            rs == segment_rows_view(rows@),
            forall|q: int| 0 <= q < rs.len() ==> runs_forward(#[trigger] rs[q]),
            forall|v: u32| #[trigger] rows_area(rs, v) <= u64::MAX,
            r <= rs.len(),
            forall|v: u32| #![trigger areas@.contains_key(v)]
                (areas@.contains_key(v) <==> value_seen_before(rs, r as int, 0, v))
                && (areas@.contains_key(v) ==> areas@[v] == rows_area(rs.take(r as int), v))
                && (!areas@.contains_key(v) ==> rows_area(rs.take(r as int), v) == 0),
        decreases rs.len() - r,
    {
        let row = &rows[r];
        assert(row@ == rs[r as int]);
        let mut k: usize = 0;
        assert(rs[r as int].take(0) =~= Seq::<RowSegment>::empty());
        while k < row.len()
            invariant
                rs == segment_rows_view(rows@),
                forall|q: int| 0 <= q < rs.len() ==> runs_forward(#[trigger] rs[q]),
                forall|v: u32| #[trigger] rows_area(rs, v) <= u64::MAX,
                r < rs.len(),
                row@ == rs[r as int],
                k <= row@.len(),
                forall|v: u32| #![trigger areas@.contains_key(v)]
                    (areas@.contains_key(v) <==> value_seen_before(rs, r as int, k as int, v))
                    && (areas@.contains_key(v) ==> areas@[v] == rows_area(rs.take(r as int), v) + row_area(rs[r as int].take(k as int), v))
                    && (!areas@.contains_key(v) ==> rows_area(rs.take(r as int), v) + row_area(rs[r as int].take(k as int), v) == 0),
            decreases row@.len() - k,
        {
            let segment = row[k];
            assert(rs[r as int][k as int] == segment);
            assert(rs[r as int].take(k + 1).drop_last() =~= rs[r as int].take(k as int));
            let width: u64 = (segment.end_x - segment.start_x) as u64;
            let v = segment.value;
            proof {
                assert(runs_forward(rs[r as int]));
                lemma_row_area_prefix(rs[r as int], v, k + 1);
                lemma_rows_area_prefix(rs, v, r as int);
                assert(rs.take(r + 1).drop_last() =~= rs.take(r as int));
                lemma_rows_area_prefix(rs, v, r + 1);
                assert(rows_area(rs.take(r + 1), v) == rows_area(rs.take(r as int), v) + row_area(rs[r as int], v));
            }
            let ghost before = areas@;
            let total: u64 = match areas.get(&v) {
                Some(a) => *a + width,
                None => width,
            };
            areas.insert(v, total);
            proof {
                assert forall|w: u32| #![trigger areas@.contains_key(w)]
                    (areas@.contains_key(w) <==> value_seen_before(rs, r as int, k + 1, w))
                    && (areas@.contains_key(w) ==> areas@[w] == rows_area(rs.take(r as int), w) + row_area(rs[r as int].take(k + 1), w))
                    && (!areas@.contains_key(w) ==> rows_area(rs.take(r as int), w) + row_area(rs[r as int].take(k + 1), w) == 0) by {
                    if w != v {
                        assert(before.contains_key(w) == areas@.contains_key(w));
                        if value_seen_before(rs, r as int, k + 1, w) {
                            let (r2, k2) = choose|r2: int, k2: int| #![trigger rs[r2][k2]]
                                0 <= r2 < rs.len() && 0 <= k2 < rs[r2].len() && (r2 < r || (r2 == r && k2 < k + 1)) && rs[r2][k2].value == w;
                            assert(value_seen_before(rs, r as int, k as int, w));
                        }
                        assert(before.contains_key(w) ==> value_seen_before(rs, r as int, k as int, w));
                    } else {
                        assert(value_seen_before(rs, r as int, k + 1, w)) by {
                            assert(rs[r as int][k as int].value == w);
                        }
                        assert(areas@[w] == total);
                    }
                }
            }
            k = k + 1;
        }
        proof {
            assert(rs[r as int].take(row@.len() as int) =~= rs[r as int]);
            assert(rs.take(r + 1).drop_last() =~= rs.take(r as int));
            assert forall|w: u32| #![trigger areas@.contains_key(w)]
                (areas@.contains_key(w) <==> value_seen_before(rs, r + 1, 0, w))
                && (areas@.contains_key(w) ==> areas@[w] == rows_area(rs.take(r + 1), w))
                && (!areas@.contains_key(w) ==> rows_area(rs.take(r + 1), w) == 0) by {
                if value_seen_before(rs, r + 1, 0, w) {
                    let (r2, k2) = choose|r2: int, k2: int| #![trigger rs[r2][k2]]
                        0 <= r2 < rs.len() && 0 <= k2 < rs[r2].len() && (r2 < r + 1 || (r2 == r + 1 && k2 < 0)) && rs[r2][k2].value == w;
                    assert(value_seen_before(rs, r as int, row@.len() as int, w));
                }
                if value_seen_before(rs, r as int, row@.len() as int, w) {
                    let (r2, k2) = choose|r2: int, k2: int| #![trigger rs[r2][k2]]
                        0 <= r2 < rs.len() && 0 <= k2 < rs[r2].len() && (r2 < r || (r2 == r && k2 < row@.len())) && rs[r2][k2].value == w;
                    assert(value_seen_before(rs, r + 1, 0, w));
                }
            }
        }
        r = r + 1;
    }
    assert(rs.take(rs.len() as int) =~= rs);
    proof {
        assert(areas@ =~= region_area_map(rs));
    }
    areas
}

} // verus!
