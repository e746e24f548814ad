//! `mapdata_arraywaypoint.bin`: a grid of 16-bit waypoint values over the
//! world's sectors, 8 by 8 cells to a sector, and the statistics that an
//! inspection reports of it.
use vstd::prelude::*;
use crate::bytes::{u32_at, u32_le_at};
use crate::text::{hex_lower_padded, push_hex_lower_padded};
use crate::pabr::OutputDimensions;
use crate::pabr::render::{bmp_header, bmp_header_spec, bmp_row_stride};
use crate::pabr::util::{color_rgb_spec, color_rgb_for_value};

verus! {

/// The length of the header: six little-endian `i32` sector bounds.
pub const ARRAY_WAYPOINT_HEADER_LEN: usize = 24;
/// Cells along each side of a sector.
pub const ARRAY_WAYPOINT_MICROCELLS_PER_SECTOR: u32 = 8;
/// Values in the block of one sector.
pub const ARRAY_WAYPOINT_BLOCK_VALUE_COUNT: usize = 64;
/// Bytes in the block of one sector.
pub const ARRAY_WAYPOINT_BLOCK_BYTES: usize = 128;
/// How many entries each ranked list of an inspection keeps.
pub const ARRAY_WAYPOINT_HISTOGRAM_LIMIT: usize = 20;

/// Why `mapdata_arraywaypoint.bin` could not be read.
#[derive(Clone, Copy, Debug, PartialEq, Eq)]
pub enum ArrayWaypointError {
    /// The file is shorter than its header.
    TooSmall,
    /// `max_x - min_x` does not fit in an `i32`.
    XSpanOverflow,
    /// The x span is not positive.
    XSpanNotPositive,
    /// `max_z - min_z` does not fit in an `i32`.
    ZSpanOverflow,
    /// The z span is not positive.
    ZSpanNotPositive,
    /// The size of the payload that the spans call for does not fit in memory.
    PayloadSizeOverflow,
    /// The payload holds `.1` bytes where the spans call for `.0`.
    PayloadLengthMismatch(usize, usize),
    /// The grid is wider than 32 bits can count.
    GridWidthOverflow,
    /// The grid is taller than 32 bits can count.
    GridHeightOverflow,
    /// The grid does not fit in memory.
    GridTooLarge,
}

/// The sector bounds in the header.
#[derive(Clone, Copy, Debug)]
pub struct ArrayWaypointHeader {
    pub min_x_sector: i32,
    pub min_y_sector: i32,
    pub min_z_sector: i32,
    pub max_x_sector: i32,
    pub max_y_sector: i32,
    pub max_z_sector: i32,
}

/// The little-endian `i32` at `offset`.
pub open spec fn i32_at(b: Seq<u8>, offset: int) -> i32 {
    u32_at(b, offset) as i32
}

/// The big-endian `u16` at `offset`.
pub open spec fn be16_at(b: Seq<u8>, offset: int) -> u16 {
    (b[offset] * 256 + b[offset + 1]) as u16
}

/// The header of `b`.
pub open spec fn header_of(b: Seq<u8>) -> ArrayWaypointHeader {
    ArrayWaypointHeader {
        min_x_sector: i32_at(b, 0),
        min_y_sector: i32_at(b, 4),
        min_z_sector: i32_at(b, 8),
        max_x_sector: i32_at(b, 12),
        max_y_sector: i32_at(b, 16),
        max_z_sector: i32_at(b, 20),
    }
}

/// The number of sectors across the grid.
pub open spec fn x_span(h: ArrayWaypointHeader) -> int {
    h.max_x_sector - h.min_x_sector
}

/// The number of sectors down the grid.
pub open spec fn z_span(h: ArrayWaypointHeader) -> int {
    h.max_z_sector - h.min_z_sector
}

/// What is wrong with `b` as a waypoint grid, if anything, in the order
/// the checks are made.
pub open spec fn grid_fault(b: Seq<u8>) -> Option<ArrayWaypointError> {
    let h = header_of(b);
    let sw = x_span(h);
    let sh = z_span(h);
    if b.len() < 24 {
        Some(ArrayWaypointError::TooSmall)
    } else if sw < i32::MIN || sw > i32::MAX {
        Some(ArrayWaypointError::XSpanOverflow)
    } else if sw <= 0 {
        Some(ArrayWaypointError::XSpanNotPositive)
    } else if sh < i32::MIN || sh > i32::MAX {
        Some(ArrayWaypointError::ZSpanOverflow)
    } else if sh <= 0 {
        Some(ArrayWaypointError::ZSpanNotPositive)
    } else if sw * sh * 128 > usize::MAX {
        Some(ArrayWaypointError::PayloadSizeOverflow)
    } else if b.len() - 24 != sw * sh * 128 {
        Some(ArrayWaypointError::PayloadLengthMismatch((sw * sh * 128) as usize, (b.len() - 24) as usize))
    } else if sw * 8 > u32::MAX {
        Some(ArrayWaypointError::GridWidthOverflow)
    } else if sh * 8 > u32::MAX {
        Some(ArrayWaypointError::GridHeightOverflow)
    } else if sw * 8 * (sh * 8) > usize::MAX {
        Some(ArrayWaypointError::GridTooLarge)
    } else {
        None
    }
}

/// Where the value of cell `(gx, gy)` lies, row `gy` counted from the top:
/// the payload holds one block per sector, sectors bottom row first and
/// left to right, each block column by column, each column bottom up.
pub open spec fn cell_offset(sw: int, gh: int, gx: int, gy: int) -> int {
    let bu = gh - 1 - gy;
    24 + 2 * ((((bu / 8) * sw + gx / 8) * 8 + gx % 8) * 8 + bu % 8)
}

/// The big-endian value of `b` at `offset`.
fn be16_le_at_offset(bytes: &[u8], offset: usize) -> (r: u16)
    requires
        offset + 2 <= bytes@.len(),
    ensures
        r == be16_at(bytes@, offset as int),
{
    (bytes[offset] as u16) * 256 + (bytes[offset + 1] as u16)
}

proof fn lemma_cell_offset_bound(sw: int, sh: int, gx: int, gy: int)
    requires
        sw > 0,
        sh > 0,
        0 <= gx < sw * 8,
        0 <= gy < sh * 8,
    ensures
        24 <= cell_offset(sw, sh * 8, gx, gy),
        cell_offset(sw, sh * 8, gx, gy) + 2 <= 24 + sw * sh * 128,
        0 <= ((sh * 8 - 1 - gy) / 8) * sw,
        ((sh * 8 - 1 - gy) / 8) * sw + gx / 8 < sw * sh,
{
    let bu = sh * 8 - 1 - gy;
    let sz = bu / 8;
    let sx = gx / 8;
    assert(0 <= bu < sh * 8);
    assert(0 <= sz < sh);
    assert(0 <= sx < sw);
    assert(0 <= sz * sw) by (nonlinear_arith)
        requires
            0 <= sz,
            0 < sw,
    ;
    assert(sz * sw + sx < sw * sh) by (nonlinear_arith)
        requires
            0 <= sz < sh,
            0 <= sx < sw,
    {
        assert(sz * sw <= (sh - 1) * sw);
    }
}

/// The decoded grid: its header, its size in cells, its cells row by row
/// from the top, and the statistics of an inspection.
#[derive(Clone, Debug)]
pub struct ArrayWaypointGrid {
    pub header: ArrayWaypointHeader,
    pub grid_width: u32,
    pub grid_height: u32,
    pub cells: Vec<u16>,
    pub stats: ArrayWaypointStats,
}

/// Whether `cells` holds the grid of `b`, row by row from the top.
pub open spec fn cells_match(b: Seq<u8>, sw: int, gw: int, gh: int, cells: Seq<u16>) -> bool {
    &&& cells.len() == gw * gh
    &&& forall|idx: int|
        0 <= idx < cells.len() ==> #[trigger] cells[idx] == be16_at(b, cell_offset(sw, gh, idx % gw, idx / gw))
}

/// The span between two sector bounds, where it fits in an `i32`.
fn span(min: i32, max: i32) -> (r: Option<i32>)
    ensures
        r matches Some(v) ==> v == max - min,
        r is None <==> (max - min < i32::MIN || max - min > i32::MAX),
{
    let d = max as i64 - min as i64;
    if d < i32::MIN as i64 || d > i32::MAX as i64 {
        None
    } else {
        Some(d as i32)
    }
}

impl ArrayWaypointGrid {
    /// Decodes `mapdata_arraywaypoint.bin`: the header's sector bounds, then
    /// one 128-byte block of big-endian values per sector.
    pub fn from_bytes(bytes: &[u8]) -> (r: Result<ArrayWaypointGrid, ArrayWaypointError>)
        ensures
            match grid_fault(bytes@) {
                Some(e) => r == Err::<ArrayWaypointGrid, ArrayWaypointError>(e),
                None => r matches Ok(g) && {
                    let h = header_of(bytes@);
                    &&& g.header == h
                    &&& g.grid_width == x_span(h) * 8
                    &&& g.grid_height == z_span(h) * 8
                    &&& cells_match(bytes@, x_span(h), g.grid_width as int, g.grid_height as int, g.cells@)
                    &&& stats_match(bytes@, x_span(h) * z_span(h), g.cells@, g.stats)
                    &&& g.wf()
                },
            },
    {
        let n = bytes.len();
        if n < 24 {
            return Err(ArrayWaypointError::TooSmall);
        }
        let header = ArrayWaypointHeader {
            min_x_sector: u32_le_at(bytes, 0) as i32,
            min_y_sector: u32_le_at(bytes, 4) as i32,
            min_z_sector: u32_le_at(bytes, 8) as i32,
            max_x_sector: u32_le_at(bytes, 12) as i32,
            max_y_sector: u32_le_at(bytes, 16) as i32,
            max_z_sector: u32_le_at(bytes, 20) as i32,
        };
        assert(header == header_of(bytes@));
        let sw = match span(header.min_x_sector, header.max_x_sector) {
            Some(v) => v,
            None => return Err(ArrayWaypointError::XSpanOverflow),
        };
        if sw <= 0 {
            return Err(ArrayWaypointError::XSpanNotPositive);
        }
        let sh = match span(header.min_z_sector, header.max_z_sector) {
            Some(v) => v,
            None => return Err(ArrayWaypointError::ZSpanOverflow),
        };
        if sh <= 0 {
            return Err(ArrayWaypointError::ZSpanNotPositive);
        }
        let sw_u = sw as usize;
        let sh_u = sh as usize;
        if sw_u > usize::MAX / sh_u {
            assert(sw_u * sh_u > usize::MAX) by (nonlinear_arith)
                requires
                    sw_u > usize::MAX / sh_u,
                    sh_u > 0,
            ;
            assert(sw_u * sh_u * 128 > usize::MAX) by (nonlinear_arith)
                requires
                    sw_u * sh_u > usize::MAX,
            ;
            return Err(ArrayWaypointError::PayloadSizeOverflow);
        }
        assert(sw_u * sh_u <= usize::MAX) by (nonlinear_arith)
            requires
                sw_u <= usize::MAX / sh_u,
                sh_u > 0,
        ;
        let sectors = sw_u * sh_u;
        if sectors > usize::MAX / 128 {
            return Err(ArrayWaypointError::PayloadSizeOverflow);
        }
        let expected = sw_u * sh_u * 128;
        let payload = n - 24;
        if payload != expected {
            return Err(ArrayWaypointError::PayloadLengthMismatch(expected, payload));
        }
        if sw_u > 0xffff_ffffusize / 8 {
            return Err(ArrayWaypointError::GridWidthOverflow);
        }
        if sh_u > 0xffff_ffffusize / 8 {
            return Err(ArrayWaypointError::GridHeightOverflow);
        }
        let gw = (sw_u * 8) as u32;
        let gh = (sh_u * 8) as u32;
        assert(sw_u * 8 * (sh_u * 8) == sw_u * sh_u * 64) by (nonlinear_arith);
        let gw_u = gw as usize;
        let gh_u = gh as usize;
        let mut cells: Vec<u16> = Vec::new();
        let mut gy: usize = 0;
        while gy < gh_u
            invariant
                n == bytes@.len(),
                n == 24 + sw_u * sh_u * 128,
                sw_u > 0,
                sh_u > 0,
                gw_u == sw_u * 8,
                gh_u == sh_u * 8,
                gy <= gh_u,
                cells@.len() == gy * gw_u,
                forall|idx: int|
                    0 <= idx < cells@.len() ==> #[trigger] cells@[idx] == be16_at(
                        bytes@,
                        cell_offset(sw_u as int, gh_u as int, idx % (gw_u as int), idx / (gw_u as int)),
                    ),
            decreases gh_u - gy,
        {
            let mut gx: usize = 0;
            while gx < gw_u
                invariant
                    n == bytes@.len(),
                    n == 24 + sw_u * sh_u * 128,
                    sw_u > 0,
                    sh_u > 0,
                    gw_u == sw_u * 8,
                    gh_u == sh_u * 8,
                    gy < gh_u,
                    gx <= gw_u,
                    cells@.len() == gy * gw_u + gx,
                    forall|idx: int|
                        0 <= idx < cells@.len() ==> #[trigger] cells@[idx] == be16_at(
                            bytes@,
                            cell_offset(sw_u as int, gh_u as int, idx % (gw_u as int), idx / (gw_u as int)),
                        ),
                decreases gw_u - gx,
            {
                let bu = gh_u - 1 - gy;
                proof {
                    lemma_cell_offset_bound(sw_u as int, sh_u as int, gx as int, gy as int);
                }
                let block = (bu / 8) * sw_u + gx / 8;
                let offset = 24 + 2 * ((block * 8 + gx % 8) * 8 + bu % 8);
                let value = be16_le_at_offset(bytes, offset);
                let ghost idx = gy * gw_u + gx;
                assert(idx % (gw_u as int) == gx && idx / (gw_u as int) == gy) by (nonlinear_arith)
                    requires
                        idx == gy * gw_u + gx,
                        gx < gw_u,
                ;
                cells.push(value);
                gx = gx + 1;
            }
            assert(cells@.len() == (gy + 1) * gw_u) by (nonlinear_arith)
                requires
                    cells@.len() == gy * gw_u + gw_u,
            ;
            gy = gy + 1;
        }
        assert(gh_u * gw_u == gw_u * gh_u) by (nonlinear_arith);
        assert(n == 24 + 128 * sectors);
        let stats = grid_stats(bytes, sectors, &cells);
        Ok(ArrayWaypointGrid { header, grid_width: gw, grid_height: gh, cells, stats })
    }
}


/// The bin of value `v` in a tally: the value itself (`mode` 0), its high
/// byte (1) or its low byte (2).
pub open spec fn bin_of(v: u16, mode: u8) -> int {
    if mode == 0 {
        v as int
    } else if mode == 1 {
        v as int / 256
    } else {
        v as int % 256
    }
}

/// The number of bins of a tally.
pub open spec fn bin_count_of(mode: u8) -> int {
    if mode == 0 {
        65536
    } else {
        256
    }
}

/// How many values of `s` fall in bin `k`.
pub open spec fn in_bin(s: Seq<u16>, mode: u8, k: int) -> nat
    decreases s.len(),
{
    if s.len() == 0 {
        0
    } else {
        in_bin(s.drop_last(), mode, k) + if bin_of(s.last(), mode) == k { 1nat } else { 0nat }
    }
}

/// Counts the values of `values` in each bin.
fn tally(values: &Vec<u16>, mode: u8) -> (r: Vec<u64>)
    requires
        mode <= 2,
    ensures
        r@.len() == bin_count_of(mode),
        forall|k: int| 0 <= k < r@.len() ==> #[trigger] r@[k] == in_bin(values@, mode, k),
{
    let bins: usize = if mode == 0 { 65536 } else { 256 };
    let mut counts: Vec<u64> = Vec::new();
    while counts.len() < bins
        invariant
            bins == bin_count_of(mode),
            counts@.len() <= bins,
            forall|k: int| 0 <= k < counts@.len() ==> #[trigger] counts@[k] == 0,
        decreases bins - counts@.len(),
    {
        counts.push(0);
    }
    let mut i: usize = 0;
    while i < values.len()
        invariant
            mode <= 2,
            bins == bin_count_of(mode),
            counts@.len() == bins,
            i <= values@.len(),
            forall|k: int|
                0 <= k < bins ==> #[trigger] counts@[k] == in_bin(values@.subrange(0, i as int), mode, k),
            forall|k: int| 0 <= k < bins ==> #[trigger] counts@[k] <= i,
        decreases values@.len() - i,
    {
        let v = values[i];
        let k: usize = if mode == 0 {
            v as usize
        } else if mode == 1 {
            (v / 256) as usize
        } else {
            (v % 256) as usize
        };
        assert(k == bin_of(v, mode));
        assert(values@.subrange(0, i + 1).drop_last() =~= values@.subrange(0, i as int));
        let c = counts[k];
        counts.set(k, c + 1);
        i = i + 1;
    }
    assert(values@.subrange(0, values@.len() as int) =~= values@);
    counts
}

/// How many of the first `n` counts are not zero.
pub open spec fn positives(counts: Seq<u64>, n: int) -> nat
    decreases n,
{
    if n <= 0 {
        0
    } else {
        positives(counts, n - 1) + if counts[n - 1] > 0 { 1nat } else { 0nat }
    }
}

/// Counts the counts that are not zero.
fn count_positive(counts: &Vec<u64>) -> (r: usize)
    ensures
        r == positives(counts@, counts@.len() as int),
{
    let mut r: usize = 0;
    let mut i: usize = 0;
    while i < counts.len()
        invariant
            i <= counts@.len(),
            r == positives(counts@, i as int),
            r <= i,
        decreases counts@.len() - i,
    {
        if counts[i] > 0 {
            r = r + 1;
        }
        i = i + 1;
    }
    r
}

/// Whether `a` ranks before `b` in a list of counts: the larger count
/// first, and of equal counts the smaller value.
pub open spec fn ranks_before(a: (u32, u64), b: (u32, u64)) -> bool {
    a.1 > b.1 || (a.1 == b.1 && a.0 < b.0)
}

/// Whether `top` lists values of `counts` with their counts, in rank order,
/// and either holds `limit` of them, ranked before every value it leaves
/// out, or holds every value whose count is not zero.
pub open spec fn is_top_counts(counts: Seq<u64>, limit: int, top: Seq<(u32, u64)>) -> bool {
    &&& top.len() <= limit
    &&& forall|k: int|
        0 <= k < top.len() ==> (#[trigger] top[k]).0 < counts.len() && top[k].1 == counts[top[k].0 as int]
            && top[k].1 > 0
    &&& forall|i: int, j: int| 0 <= i < j < top.len() ==> ranks_before(#[trigger] top[i], #[trigger] top[j])
    &&& forall|v: int|
        0 <= v < counts.len() && counts[v] > 0 && (forall|k: int| 0 <= k < top.len() ==> (#[trigger] top[k]).0 != v)
            ==> top.len() == limit && (top.len() > 0 ==> ranks_before(top.last(), (v as u32, counts[v])))
}

/// Whether value `v` with its count is in `top` or ranks after all of it.
pub open spec fn placed(counts: Seq<u64>, top: Seq<(u32, u64)>, v: int) -> bool {
    top.len() == 0 || (exists|k: int| 0 <= k < top.len() && (#[trigger] top[k]).0 == v) || ranks_before(
        top.last(),
        (v as u32, counts[v]),
    )
}

/// The values with the largest counts, at most `limit` of them, largest
/// first and, among equal counts, smallest value first.
fn top_counts(counts: &Vec<u64>, limit: usize) -> (r: Vec<(u32, u64)>)
    requires
        counts@.len() <= 65536,
    ensures
        is_top_counts(counts@, limit as int, r@),
{
    let n = counts.len();
    let mut top: Vec<(u32, u64)> = Vec::new();
    while top.len() < limit
        invariant
            n == counts@.len(),
            n <= 65536,
            top@.len() <= limit,
            forall|k: int|
                0 <= k < top@.len() ==> (#[trigger] top@[k]).0 < n && top@[k].1 == counts@[top@[k].0 as int]
                    && top@[k].1 > 0,
            forall|i: int, j: int| 0 <= i < j < top@.len() ==> ranks_before(#[trigger] top@[i], #[trigger] top@[j]),
            forall|v: int| 0 <= v < n && counts@[v] > 0 ==> #[trigger] placed(counts@, top@, v),
        decreases limit - top@.len(),
    {
        let mut best: Option<(u32, u64)> = None;
        let mut v: usize = 0;
        while v < n
            invariant
                n == counts@.len(),
                n <= 65536,
                v <= n,
                best matches Some(p) ==> p.0 < v && p.1 == counts@[p.0 as int] && p.1 > 0 && (top@.len() == 0
                    || ranks_before(top@.last(), p)),
                forall|w: int|
                    0 <= w < v && counts@[w] > 0 && (top@.len() == 0 || ranks_before(top@.last(), (w as u32, counts@[w])))
                        ==> (best matches Some(p) && (p.0 == w || ranks_before(p, (w as u32, counts@[w])))),
            decreases n - v,
        {
            let c = counts[v];
            let cand = (v as u32, c);
            let after_last = if top.len() == 0 {
                true
            } else {
                let last = top[top.len() - 1];
                last.1 > c || (last.1 == c && last.0 < v as u32)
            };
            if c > 0 && after_last {
                let better = match best {
                    None => true,
                    Some(p) => c > p.1 || (c == p.1 && (v as u32) < p.0),
                };
                if better {
                    best = Some(cand);
                }
            }
            v = v + 1;
        }
        match best {
            None => {
                assert forall|w: int| 0 <= w < n && counts@[w] > 0 implies exists|k: int|
                    0 <= k < top@.len() && (#[trigger] top@[k]).0 == w by {
                    assert(placed(counts@, top@, w));
                }
                return top;
            },
            Some(p) => {
                let ghost old_top = top@;
                top.push(p);
                assert forall|v: int| 0 <= v < n && counts@[v] > 0 implies #[trigger] placed(counts@, top@, v) by {
                    assert(placed(counts@, old_top, v));
                    if exists|k: int| 0 <= k < old_top.len() && (#[trigger] old_top[k]).0 == v {
                        let k = choose|k: int| 0 <= k < old_top.len() && (#[trigger] old_top[k]).0 == v;
                        assert(top@[k] == old_top[k]);
                    } else if p.0 == v {
                        assert(top@[old_top.len() as int] == p);
                    }
                }
            },
        }
    }
    proof {
        assert forall|v: int|
            0 <= v < n && counts@[v] > 0 && (forall|k: int| 0 <= k < top@.len() ==> (#[trigger] top@[k]).0 != v)
                implies top@.len() == limit && (top@.len() > 0 ==> ranks_before(top@.last(), (v as u32, counts@[v]))) by {
            assert(placed(counts@, top@, v));
        }
    }
    top
}


/// The count of each bin of a tally of `s`.
pub open spec fn bin_counts(s: Seq<u16>, mode: u8) -> Seq<u64> {
    Seq::new(bin_count_of(mode) as nat, |k: int| in_bin(s, mode, k) as u64)
}

/// A value of the grid and how often it occurs, its value also in four
/// hexadecimal digits.
#[derive(Clone, Debug)]
pub struct HexCountReport {
    pub value: u32,
    pub value_hex: String,
    pub count: u64,
}

/// A byte and how often it occurs, the byte also in two hexadecimal digits.
#[derive(Clone, Debug)]
pub struct ByteCountReport {
    pub value: u8,
    pub value_hex: String,
    pub count: u64,
}

/// How many blocks hold a given number of distinct values.
#[derive(Clone, Copy, Debug)]
pub struct BlockUniqueValueBucket {
    pub unique_value_count: usize,
    pub block_count: usize,
}

/// The values and counts that hex reports list.
pub open spec fn hex_pairs(r: Seq<HexCountReport>) -> Seq<(u32, u64)> {
    r.map_values(|x: HexCountReport| (x.value, x.count))
}

/// The bytes and counts that byte reports list.
pub open spec fn byte_pairs(r: Seq<ByteCountReport>) -> Seq<(u32, u64)> {
    r.map_values(|x: ByteCountReport| (x.value as u32, x.count))
}

/// Whether each hex report writes its value in `width` hexadecimal digits.
pub open spec fn hex_labels(r: Seq<HexCountReport>) -> bool {
    forall|k: int| 0 <= k < r.len() ==> (#[trigger] r[k]).value_hex@ == hex_lower_padded(r[k].value as nat, 4)
}

/// Whether each byte report writes its byte in two hexadecimal digits.
pub open spec fn byte_labels(r: Seq<ByteCountReport>) -> bool {
    forall|k: int| 0 <= k < r.len() ==> (#[trigger] r[k]).value_hex@ == hex_lower_padded(r[k].value as nat, 2)
}

/// The values of `counts` with the largest counts, as reports.
fn top_hex_counts(counts: &Vec<u64>, limit: usize) -> (r: Vec<HexCountReport>)
    requires
        counts@.len() <= 65536,
    ensures
        is_top_counts(counts@, limit as int, hex_pairs(r@)),
        hex_labels(r@),
{
    let top = top_counts(counts, limit);
    let mut out: Vec<HexCountReport> = Vec::new();
    let mut k: usize = 0;
    while k < top.len()
        invariant
            k <= top@.len(),
            out@.len() == k,
            forall|j: int| 0 <= j < k ==> (#[trigger] out@[j]).value == top@[j].0 && out@[j].count == top@[j].1,
            hex_labels(out@),
        decreases top@.len() - k,
    {
        let (value, count) = top[k];
        let mut value_hex = String::new();
        push_hex_lower_padded(&mut value_hex, value, 4);
        out.push(HexCountReport { value, value_hex, count });
        k = k + 1;
    }
    assert(hex_pairs(out@) =~= top@);
    out
}

/// The bytes of `counts` with the largest counts, as reports.
fn top_byte_counts(counts: &Vec<u64>, limit: usize) -> (r: Vec<ByteCountReport>)
    requires
        counts@.len() <= 256,
    ensures
        is_top_counts(counts@, limit as int, byte_pairs(r@)),
        byte_labels(r@),
{
    let top = top_counts(counts, limit);
    let mut out: Vec<ByteCountReport> = Vec::new();
    let mut k: usize = 0;
    while k < top.len()
        invariant
            counts@.len() <= 256,
            is_top_counts(counts@, limit as int, top@),
            k <= top@.len(),
            out@.len() == k,
            forall|j: int| 0 <= j < k ==> (#[trigger] out@[j]).value as u32 == top@[j].0 && out@[j].count == top@[j].1,
            byte_labels(out@),
        decreases top@.len() - k,
    {
        let (value, count) = top[k];
        assert(value < 256);
        let byte = value as u8;
        let mut value_hex = String::new();
        push_hex_lower_padded(&mut value_hex, value, 2);
        out.push(ByteCountReport { value: byte, value_hex, count });
        k = k + 1;
    }
    assert(byte_pairs(out@) =~= top@);
    out
}

/// The 64 values of the block that begins at `start`, in file order.
pub open spec fn block_values(b: Seq<u8>, start: int) -> Seq<u16> {
    Seq::new(64, |k: int| be16_at(b, start + 2 * k))
}

/// The number of distinct values in `s`.
pub open spec fn distinct_count(s: Seq<u16>) -> nat
    decreases s.len(),
{
    if s.len() == 0 {
        0
    } else {
        distinct_count(s.drop_last()) + if s.drop_last().contains(s.last()) { 0nat } else { 1nat }
    }
}

proof fn lemma_distinct_count_bounds(s: Seq<u16>)
    ensures
        distinct_count(s) <= s.len(),
        s.len() > 0 ==> distinct_count(s) >= 1,
    decreases s.len(),
{
    if s.len() > 0 {
        lemma_distinct_count_bounds(s.drop_last());
    }
}

/// The number of distinct values in block `k` of `b`.
pub open spec fn block_distinct(b: Seq<u8>, k: int) -> nat {
    distinct_count(block_values(b, 24 + 128 * k))
}

/// How many of the first `n` blocks hold exactly `u` distinct values.
pub open spec fn blocks_with_distinct(b: Seq<u8>, n: int, u: int) -> nat
    decreases n,
{
    if n <= 0 {
        0
    } else {
        blocks_with_distinct(b, n - 1, u) + if block_distinct(b, n - 1) == u { 1nat } else { 0nat }
    }
}

/// How many of the first `n` blocks hold value `v` alone.
pub open spec fn uniform_blocks_of(b: Seq<u8>, n: int, v: int) -> nat
    decreases n,
{
    if n <= 0 {
        0
    } else {
        uniform_blocks_of(b, n - 1, v) + if block_distinct(b, n - 1) == 1 && block_values(b, 24 + 128 * (n - 1))[0] == v {
            1nat
        } else {
            0nat
        }
    }
}

/// Counts the distinct values of the block that begins at `start`.
fn distinct_in_block(bytes: &[u8], start: usize) -> (r: usize)
    requires
        start + 128 <= bytes@.len(),
    ensures
        r == distinct_count(block_values(bytes@, start as int)),
        1 <= r <= 64,
{
    let ghost vals = block_values(bytes@, start as int);
    let n = bytes.len();
    let mut r: usize = 0;
    let mut k: usize = 0;
    while k < 64
        invariant
            n == bytes@.len(),
            start + 128 <= bytes@.len(),
            vals == block_values(bytes@, start as int),
            k <= 64,
            r == distinct_count(vals.subrange(0, k as int)),
        decreases 64 - k,
    {
        let v = be16_le_at_offset(bytes, start + 2 * k);
        assert(v == vals[k as int]);
        let mut seen = false;
        let mut j: usize = 0;
        while j < k
            invariant
                n == bytes@.len(),
                start + 128 <= bytes@.len(),
                vals == block_values(bytes@, start as int),
                k < 64,
                j <= k,
                v == vals[k as int],
                seen <==> exists|i: int| 0 <= i < j && vals[i] == v,
            decreases k - j,
        {
            let w = be16_le_at_offset(bytes, start + 2 * j);
            assert(w == vals[j as int]);
            if w == v {
                seen = true;
            }
            j = j + 1;
        }
        let ghost prefix = vals.subrange(0, k as int);
        assert(vals.subrange(0, k + 1).drop_last() =~= prefix);
        assert(seen <==> prefix.contains(v)) by {
            if seen {
                let i = choose|i: int| 0 <= i < k && vals[i] == v;
                assert(prefix[i] == v);
            }
            if prefix.contains(v) {
                let i = choose|i: int| 0 <= i < prefix.len() && prefix[i] == v;
                assert(vals[i] == v);
            }
        }
        proof {
            lemma_distinct_count_bounds(prefix);
        }
        if !seen {
            r = r + 1;
        }
        k = k + 1;
    }
    assert(vals.subrange(0, 64) =~= vals);
    proof {
        lemma_distinct_count_bounds(vals);
    }
    r
}

/// The buckets of a histogram: each count from the first `n` that is not
/// zero, with its index, in order.
pub open spec fn buckets_from(hist: Seq<usize>, n: int) -> Seq<(usize, usize)>
    decreases n,
{
    if n <= 0 {
        seq![]
    } else if hist[n - 1] > 0 {
        buckets_from(hist, n - 1).push(((n - 1) as usize, hist[n - 1]))
    } else {
        buckets_from(hist, n - 1)
    }
}

/// What an inspection counts of a waypoint grid.
#[derive(Clone, Debug)]
pub struct ArrayWaypointStats {
    pub file_size: u64,
    pub payload_bytes: usize,
    pub block_count: usize,
    pub unique_value_count: usize,
    pub unique_high_byte_count: usize,
    pub unique_low_byte_count: usize,
    pub top_values: Vec<HexCountReport>,
    pub top_high_bytes: Vec<ByteCountReport>,
    pub top_low_bytes: Vec<ByteCountReport>,
    pub block_unique_value_histogram: Vec<BlockUniqueValueBucket>,
    pub top_uniform_block_values: Vec<HexCountReport>,
    pub uniform_block_count: usize,
}

/// The block histogram as pairs.
pub open spec fn bucket_pairs(r: Seq<BlockUniqueValueBucket>) -> Seq<(usize, usize)> {
    r.map_values(|x: BlockUniqueValueBucket| (x.unique_value_count, x.block_count))
}

/// The number of blocks with each number of distinct values, from 0 to 64.
pub open spec fn distinct_histogram(b: Seq<u8>, blocks: int) -> Seq<usize> {
    Seq::new(65, |u: int| blocks_with_distinct(b, blocks, u) as usize)
}

/// The number of blocks that hold each value alone.
pub open spec fn uniform_counts(b: Seq<u8>, blocks: int) -> Seq<u64> {
    Seq::new(65536, |v: int| uniform_blocks_of(b, blocks, v) as u64)
}

/// Whether `st` holds the statistics of the file `b`, whose blocks number
/// `blocks` and whose grid is `cells`.
pub open spec fn stats_match(b: Seq<u8>, blocks: int, cells: Seq<u16>, st: ArrayWaypointStats) -> bool {
    &&& st.file_size == b.len()
    &&& st.payload_bytes == b.len() - 24
    &&& st.block_count == blocks
    &&& st.unique_value_count == positives(bin_counts(cells, 0), 65536)
    &&& st.unique_high_byte_count == positives(bin_counts(cells, 1), 256)
    &&& st.unique_low_byte_count == positives(bin_counts(cells, 2), 256)
    &&& is_top_counts(bin_counts(cells, 0), 20, hex_pairs(st.top_values@)) && hex_labels(st.top_values@)
    &&& is_top_counts(bin_counts(cells, 1), 20, byte_pairs(st.top_high_bytes@)) && byte_labels(st.top_high_bytes@)
    &&& is_top_counts(bin_counts(cells, 2), 20, byte_pairs(st.top_low_bytes@)) && byte_labels(st.top_low_bytes@)
    &&& bucket_pairs(st.block_unique_value_histogram@) == buckets_from(distinct_histogram(b, blocks), 65)
    &&& is_top_counts(uniform_counts(b, blocks), 20, hex_pairs(st.top_uniform_block_values@))
        && hex_labels(st.top_uniform_block_values@)
    &&& st.uniform_block_count == blocks_with_distinct(b, blocks, 1)
}

/// Counts the values of the grid and the blocks of the file.
fn grid_stats(bytes: &[u8], blocks: usize, cells: &Vec<u16>) -> (r: ArrayWaypointStats)
    requires
        bytes@.len() == 24 + 128 * blocks,
    ensures
        stats_match(bytes@, blocks as int, cells@, r),
{
    let value_counts = tally(cells, 0);
    let high_counts = tally(cells, 1);
    let low_counts = tally(cells, 2);
    assert(value_counts@ =~= bin_counts(cells@, 0));
    assert(high_counts@ =~= bin_counts(cells@, 1));
    assert(low_counts@ =~= bin_counts(cells@, 2));
    let mut hist: Vec<usize> = Vec::new();
    while hist.len() < 65
        invariant
            hist@.len() <= 65,
            forall|u: int| 0 <= u < hist@.len() ==> #[trigger] hist@[u] == 0,
        decreases 65 - hist@.len(),
    {
        hist.push(0);
    }
    let mut uniform: Vec<u64> = Vec::new();
    while uniform.len() < 65536
        invariant
            uniform@.len() <= 65536,
            forall|v: int| 0 <= v < uniform@.len() ==> #[trigger] uniform@[v] == 0,
        decreases 65536 - uniform@.len(),
    {
        uniform.push(0);
    }
    let mut uniform_block_count: usize = 0;
    let n = bytes.len();
    let mut k: usize = 0;
    while k < blocks
        invariant
            n == bytes@.len(),
            bytes@.len() == 24 + 128 * blocks,
            k <= blocks,
            hist@.len() == 65,
            uniform@.len() == 65536,
            forall|u: int| 0 <= u < 65 ==> #[trigger] hist@[u] == blocks_with_distinct(bytes@, k as int, u),
            forall|u: int| 0 <= u < 65 ==> #[trigger] hist@[u] <= k,
            forall|v: int| 0 <= v < 65536 ==> #[trigger] uniform@[v] == uniform_blocks_of(bytes@, k as int, v),
            forall|v: int| 0 <= v < 65536 ==> #[trigger] uniform@[v] <= k,
            uniform_block_count == blocks_with_distinct(bytes@, k as int, 1),
            uniform_block_count <= k,
        decreases blocks - k,
    {
        let start = 24 + 128 * k;
        let d = distinct_in_block(bytes, start);
        let h = hist[d];
        hist.set(d, h + 1);
        if d == 1 {
            let v = be16_le_at_offset(bytes, start);
            assert(v == block_values(bytes@, start as int)[0]);
            let c = uniform[v as usize];
            uniform.set(v as usize, c + 1);
            uniform_block_count = uniform_block_count + 1;
        }
        k = k + 1;
    }
    assert(hist@ =~= distinct_histogram(bytes@, blocks as int));
    assert(uniform@ =~= uniform_counts(bytes@, blocks as int));
    let mut buckets: Vec<BlockUniqueValueBucket> = Vec::new();
    let mut u: usize = 0;
    while u < 65
        invariant
            hist@.len() == 65,
            u <= 65,
            bucket_pairs(buckets@) == buckets_from(hist@, u as int),
        decreases 65 - u,
    {
        if hist[u] > 0 {
            buckets.push(BlockUniqueValueBucket { unique_value_count: u, block_count: hist[u] });
            assert(bucket_pairs(buckets@) =~= buckets_from(hist@, u as int).push((u, hist@[u as int])));
        }
        u = u + 1;
    }
    ArrayWaypointStats {
        file_size: bytes.len() as u64,
        payload_bytes: bytes.len() - 24,
        block_count: blocks,
        unique_value_count: count_positive(&value_counts),
        unique_high_byte_count: count_positive(&high_counts),
        unique_low_byte_count: count_positive(&low_counts),
        top_values: top_hex_counts(&value_counts, 20),
        top_high_bytes: top_byte_counts(&high_counts, 20),
        top_low_bytes: top_byte_counts(&low_counts, 20),
        block_unique_value_histogram: buckets,
        top_uniform_block_values: top_hex_counts(&uniform, 20),
        uniform_block_count,
    }
}


/// A cell of the grid that a position falls in.
#[derive(Clone, Debug)]
pub struct WaypointGridCell {
    pub sector_x: i32,
    pub sector_z: i32,
    pub sub_x: u8,
    pub sub_z: u8,
    pub grid_x: u32,
    pub grid_y: u32,
    pub value: u16,
    pub value_hex: String,
}

/// What sampling a set of waypoints on the grid finds.
#[derive(Clone, Debug)]
pub struct WaypointSamplingSummary {
    pub total_waypoint_count: usize,
    pub inside_bounds_waypoint_count: usize,
    pub unique_sampled_value_count: usize,
    pub top_sampled_values: Vec<HexCountReport>,
}

/// The cell that sector `(sx, sz)`, sub-cell `(ux, uz)` falls in, where it
/// lies inside the grid: its column, its row from the top, and its value.
pub open spec fn sector_cell(g: ArrayWaypointGrid, sx: int, sz: int, ux: int, uz: int) -> Option<(u32, u32, u16)> {
    let h = g.header;
    if sx < h.min_x_sector || sx >= h.max_x_sector || sz < h.min_z_sector || sz >= h.max_z_sector {
        None
    } else {
        let gx = (sx - h.min_x_sector) * 8 + ux;
        let gy = g.grid_height - 1 - ((sz - h.min_z_sector) * 8 + uz);
        Some((gx as u32, gy as u32, g.cells@[gy * g.grid_width + gx]))
    }
}

impl ArrayWaypointGrid {
    /// Whether the grid is one that `from_bytes` builds: eight cells to a
    /// sector each way, and all of them.
    pub open spec fn wf(self) -> bool {
        &&& x_span(self.header) > 0
        &&& z_span(self.header) > 0
        &&& self.grid_width == x_span(self.header) * 8
        &&& self.grid_height == z_span(self.header) * 8
        &&& self.cells@.len() == self.grid_width * self.grid_height
    }

    /// The number of sectors across the grid.
    pub fn sector_width(&self) -> (r: u32)
        requires
            self.wf(),
        ensures
            r == x_span(self.header),
    {
        (self.header.max_x_sector as i64 - self.header.min_x_sector as i64) as u32
    }

    /// The number of sectors down the grid.
    pub fn sector_height(&self) -> (r: u32)
        requires
            self.wf(),
        ensures
            r == z_span(self.header),
    {
        (self.header.max_z_sector as i64 - self.header.min_z_sector as i64) as u32
    }

    /// The value of cell `(grid_x, grid_y)`, row `grid_y` counted from the
    /// top; `None` outside the grid.
    pub fn cell_at_grid(&self, grid_x: u32, grid_y: u32) -> (r: Option<u16>)
        requires
            self.wf(),
        ensures
            r is Some <==> grid_x < self.grid_width && grid_y < self.grid_height,
            r matches Some(v) ==> v == self.cells@[grid_y * self.grid_width + grid_x],
    {
        if grid_x >= self.grid_width || grid_y >= self.grid_height {
            return None;
        }
        let w = self.grid_width as usize;
        let total = self.cells.len();
        assert(grid_y * w + grid_x < self.grid_height * w) by (nonlinear_arith)
            requires
                grid_x < w,
                grid_y < self.grid_height,
        {
            assert(grid_y * w <= (self.grid_height - 1) * w);
        }
        assert(self.grid_height * w == w * self.grid_height) by (nonlinear_arith);
        assert(grid_y * w + grid_x < total);
        assert(grid_y * w <= total) by (nonlinear_arith)
            requires
                grid_y * w + grid_x < total,
                0 <= grid_x,
        ;
        let row_start = grid_y as usize * w;
        Some(self.cells[row_start + grid_x as usize])
    }

    /// The cell that sub-cell `(sub_x, sub_z)` of sector `(sector_x,
    /// sector_z)` falls in; `None` outside the grid's sectors.
    pub fn sample_sector(&self, sector_x: i32, sector_z: i32, sub_x: u8, sub_z: u8) -> (r: Option<WaypointGridCell>)
        requires
            self.wf(),
            sub_x < 8,
            sub_z < 8,
        ensures
            match sector_cell(*self, sector_x as int, sector_z as int, sub_x as int, sub_z as int) {
                Some((gx, gy, v)) => r matches Some(c) && c.sector_x == sector_x && c.sector_z == sector_z
                    && c.sub_x == sub_x && c.sub_z == sub_z && c.grid_x == gx && c.grid_y == gy && c.value == v
                    && c.value_hex@ == hex_lower_padded(v as nat, 4),
                None => r is None,
            },
    {
        let h = self.header;
        if sector_x < h.min_x_sector || sector_x >= h.max_x_sector || sector_z < h.min_z_sector || sector_z
            >= h.max_z_sector {
            return None;
        }
        let dx = (sector_x as i64 - h.min_x_sector as i64) as u32;
        let dz = (sector_z as i64 - h.min_z_sector as i64) as u32;
        let grid_x = dx * 8 + sub_x as u32;
        let bottom_up = dz * 8 + sub_z as u32;
        let grid_y = self.grid_height - 1 - bottom_up;
        let value = match self.cell_at_grid(grid_x, grid_y) {
            Some(v) => v,
            None => return None,
        };
        let mut value_hex = String::new();
        push_hex_lower_padded(&mut value_hex, value as u32, 4);
        Some(WaypointGridCell { sector_x, sector_z, sub_x, sub_z, grid_x, grid_y, value, value_hex })
    }

    /// Samples waypoints on the grid, each given by the sector and sub-cell
    /// its position falls in (`None` where the position is not finite): how
    /// many fall inside, and the values they find.
    pub fn sample_waypoints(&self, positions: &[Option<(i32, i32, u8, u8)>]) -> (r: WaypointSamplingSummary)
        requires
            self.wf(),
            forall|k: int|
                0 <= k < positions@.len() ==> (#[trigger] positions@[k] matches Some(p) ==> (p.2 < 8 && p.3 < 8)),
        ensures
            r.total_waypoint_count == positions@.len(),
            r.inside_bounds_waypoint_count == sampled_values(*self, positions@).len(),
            r.unique_sampled_value_count == positives(bin_counts(sampled_values(*self, positions@), 0), 65536),
            is_top_counts(bin_counts(sampled_values(*self, positions@), 0), 20, hex_pairs(r.top_sampled_values@)),
            hex_labels(r.top_sampled_values@),
    {
        let mut values: Vec<u16> = Vec::new();
        let mut k: usize = 0;
        while k < positions.len()
            invariant
                self.wf(),
                k <= positions@.len(),
                forall|j: int|
                    0 <= j < positions@.len() ==> (#[trigger] positions@[j] matches Some(p) ==> (p.2 < 8 && p.3 < 8)),
                values@ == sampled_values(*self, positions@.subrange(0, k as int)),
            decreases positions@.len() - k,
        {
            assert(positions@.subrange(0, k + 1).drop_last() =~= positions@.subrange(0, k as int));
            if let Some((sx, sz, ux, uz)) = positions[k] {
                if let Some(cell) = self.sample_sector(sx, sz, ux, uz) {
                    values.push(cell.value);
                }
            }
            k = k + 1;
        }
        assert(positions@.subrange(0, positions@.len() as int) =~= positions@);
        let counts = tally(&values, 0);
        assert(counts@ =~= bin_counts(values@, 0));
        WaypointSamplingSummary {
            total_waypoint_count: positions.len(),
            inside_bounds_waypoint_count: values.len(),
            unique_sampled_value_count: count_positive(&counts),
            top_sampled_values: top_hex_counts(&counts, 20),
        }
    }
}

/// The values that the positions inside the grid find, in order.
pub open spec fn sampled_values(g: ArrayWaypointGrid, positions: Seq<Option<(i32, i32, u8, u8)>>) -> Seq<u16>
    decreases positions.len(),
{
    if positions.len() == 0 {
        seq![]
    } else {
        let rest = sampled_values(g, positions.drop_last());
        match positions.last() {
            Some(p) => match sector_cell(g, p.0 as int, p.1 as int, p.2 as int, p.3 as int) {
                Some(c) => rest.push(c.2),
                None => rest,
            },
            None => rest,
        }
    }
}


/// The bytes of one row of the preview image: grid row `y`, three bytes
/// per cell (blue, green, red of the cell's false color), padded with
/// zeros to `stride`.
pub open spec fn preview_row(g: ArrayWaypointGrid, y: int, stride: int) -> Seq<u8> {
    Seq::new(
        stride as nat,
        |i: int|
            if i < 3 * g.grid_width {
                let c = color_rgb_spec(g.cells@[y * g.grid_width + i / 3] as u32);
                if i % 3 == 0 {
                    c[2]
                } else if i % 3 == 1 {
                    c[1]
                } else {
                    c[0]
                }
            } else {
                0u8
            },
    )
}

/// The first `n` rows of the preview image, bottom row of the grid first.
pub open spec fn preview_rows(g: ArrayWaypointGrid, n: nat) -> Seq<u8>
    decreases n,
{
    if n == 0 {
        seq![]
    } else {
        preview_rows(g, (n - 1) as nat) + preview_row(
            g,
            g.grid_height - n,
            bmp_row_stride(g.grid_width),
        )
    }
}

impl ArrayWaypointGrid {
    /// The grid as a 24-bit BMP image, each cell one pixel in its value's
    /// false color; `None` where the file would be too large for the
    /// format's 32-bit sizes.
    pub fn render_bmp_bytes(&self) -> (r: Option<Vec<u8>>)
        requires
            self.wf(),
        ensures
            ({
                let stride = bmp_row_stride(self.grid_width);
                let image_size = stride * self.grid_height;
                if 54 + image_size > u32::MAX {
                    r is None
                } else {
                    r matches Some(v) && v@ == bmp_header_spec(
                        self.grid_width,
                        self.grid_height,
                        image_size as u32,
                        (54 + image_size) as u32,
                    ) + preview_rows(*self, self.grid_height as nat)
                }
            }),
    {
        let w = self.grid_width as u64;
        let h = self.grid_height as u64;
        let padding = (4 - (w * 3) % 4) % 4;
        let stride = w * 3 + padding;
        assert(stride == bmp_row_stride(self.grid_width));
        let c: u64 = 0xffff_ffffu64 - 54;
        if h > 0 {
            let limit = c / h;
            assert(limit * h <= c && c < (limit + 1) * h) by (nonlinear_arith)
                requires
                    limit == c / h,
                    h > 0,
            ;
            if stride > limit {
                assert(stride * h >= (limit + 1) * h) by (nonlinear_arith)
                    requires
                        stride >= limit + 1,
                        h > 0,
                ;
                return None;
            }
            assert(stride * h <= limit * h) by (nonlinear_arith)
                requires
                    stride <= limit,
                    h > 0,
            ;
        }
        let image_size = stride * h;
        assert(image_size <= c);
        let mut out = bmp_header(
            OutputDimensions { width: self.grid_width, height: self.grid_height },
            image_size as u32,
            (54 + image_size) as u32,
        );
        let ghost header = out@;
        assert(header.len() == 54);
        assert(self.grid_height * stride == stride * h) by (nonlinear_arith)
            requires
                h == self.grid_height,
        ;
        let wu = self.grid_width as usize;
        let stride_u = stride as usize;
        let total = self.cells.len();
        let mut k: usize = 0;
        while k < self.grid_height as usize
            invariant
                self.wf(),
                wu == self.grid_width,
                stride_u == bmp_row_stride(self.grid_width),
                stride_u >= 3 * wu,
                total == self.cells@.len(),
                k <= self.grid_height,
                out@ == header + preview_rows(*self, k as nat),
                out@.len() == header.len() + k * stride_u,
                header.len() + self.grid_height * stride_u <= 0xffff_ffffu64,
            decreases self.grid_height - k,
        {
            let y = self.grid_height as usize - 1 - k;
            assert(y * wu + wu <= total) by (nonlinear_arith)
                requires
                    y < self.grid_height,
                    total == wu * self.grid_height,
            {
                assert(y * wu + wu == (y + 1) * wu);
                assert((y + 1) * wu <= self.grid_height * wu);
            }
            let row_start = y * wu;
            let ghost before = out@;
            let mut i: usize = 0;
            while i < stride_u
                invariant
                    self.wf(),
                    wu == self.grid_width,
                    stride_u >= 3 * wu,
                    total == self.cells@.len(),
                    row_start == y * wu,
                    row_start + wu <= total,
                    i <= stride_u,
                    out@ == before + preview_row(*self, y as int, stride_u as int).subrange(0, i as int),
                decreases stride_u - i,
            {
                let byte: u8 = if i < 3 * wu {
                    let c = color_rgb_for_value(self.cells[row_start + i / 3] as u32);
                    if i % 3 == 0 {
                        c[2]
                    } else if i % 3 == 1 {
                        c[1]
                    } else {
                        c[0]
                    }
                } else {
                    0
                };
                out.push(byte);
                assert(out@ =~= before + preview_row(*self, y as int, stride_u as int).subrange(0, i + 1));
                i = i + 1;
            }
            assert(preview_row(*self, y as int, stride_u as int).subrange(0, stride_u as int) =~= preview_row(
                *self,
                y as int,
                stride_u as int,
            ));
            assert(out@ =~= header + preview_rows(*self, (k + 1) as nat));
            assert(out@.len() == header.len() + (k + 1) * stride_u) by (nonlinear_arith)
                requires
                    out@.len() == header.len() + k * stride_u + stride_u,
            ;
            k = k + 1;
        }
        Some(out)
    }
}


/// What an inspection of `mapdata_arraywaypoint.bin` reports.
#[derive(Clone, Debug)]
pub struct ArrayWaypointInspectSummary {
    pub output_path: Option<String>,
    pub preview_bmp_path: Option<String>,
    pub min_x_sector: i32,
    pub min_y_sector: i32,
    pub min_z_sector: i32,
    pub max_x_sector: i32,
    pub max_y_sector: i32,
    pub max_z_sector: i32,
    pub sector_width: u32,
    pub sector_height: u32,
    pub grid_width: u32,
    pub grid_height: u32,
    pub block_count: usize,
    pub uniform_block_count: usize,
    pub unique_value_count: usize,
    pub total_waypoint_count: Option<usize>,
    pub waypoints_inside_bounds: usize,
    pub focus_waypoint_sample_count: usize,
}

/// A text argument, copied.
fn copy_text(s: Option<&str>) -> (r: Option<String>)
    ensures
        (match r {
            Some(t) => Some(t@),
            None => None,
        }) == (match s {
            Some(t) => Some(t@),
            None => None,
        }),
{
    match s {
        Some(t) => Some(t.to_owned()),
        None => None,
    }
}

/// Sums up an inspection: the grid's bounds and sizes, its block
/// statistics, how many waypoints were sampled and fell inside, and how
/// many of the focus samples fell inside.
pub fn inspect_arraywaypoint_summary(
    grid: &ArrayWaypointGrid,
    sampling: Option<&WaypointSamplingSummary>,
    focus_samples: &[Option<WaypointGridCell>],
    output_path: Option<&str>,
    preview_bmp_path: Option<&str>,
) -> (r: ArrayWaypointInspectSummary)
    requires
        grid.wf(),
    ensures
        r.min_x_sector == grid.header.min_x_sector && r.min_y_sector == grid.header.min_y_sector
            && r.min_z_sector == grid.header.min_z_sector && r.max_x_sector == grid.header.max_x_sector
            && r.max_y_sector == grid.header.max_y_sector && r.max_z_sector == grid.header.max_z_sector,
        r.sector_width == x_span(grid.header),
        r.sector_height == z_span(grid.header),
        r.grid_width == grid.grid_width,
        r.grid_height == grid.grid_height,
        r.block_count == grid.stats.block_count,
        r.uniform_block_count == grid.stats.uniform_block_count,
        r.unique_value_count == grid.stats.unique_value_count,
        r.total_waypoint_count == (match sampling {
            Some(s) => Some(s.total_waypoint_count),
            None => None,
        }),
        r.waypoints_inside_bounds == (match sampling {
            Some(s) => s.inside_bounds_waypoint_count,
            None => 0,
        }),
        r.focus_waypoint_sample_count == focus_samples@.filter(|c: Option<WaypointGridCell>| c is Some).len(),
        (match r.output_path {
            Some(t) => Some(t@),
            None => None,
        }) == (match output_path {
            Some(t) => Some(t@),
            None => None,
        }),
        (match r.preview_bmp_path {
            Some(t) => Some(t@),
            None => None,
        }) == (match preview_bmp_path {
            Some(t) => Some(t@),
            None => None,
        }),
{
    let mut inside: usize = 0;
    let mut k: usize = 0;
    while k < focus_samples.len()
        invariant
            k <= focus_samples@.len(),
            inside == focus_samples@.subrange(0, k as int).filter(|c: Option<WaypointGridCell>| c is Some).len(),
            inside <= k,
        decreases focus_samples@.len() - k,
    {
        proof {
            reveal(Seq::filter);
            assert(focus_samples@.subrange(0, k + 1).drop_last() =~= focus_samples@.subrange(0, k as int));
        }
        if focus_samples[k].is_some() {
            inside = inside + 1;
        }
        k = k + 1;
    }
    assert(focus_samples@.subrange(0, focus_samples@.len() as int) =~= focus_samples@);
    ArrayWaypointInspectSummary {
        output_path: copy_text(output_path),
        preview_bmp_path: copy_text(preview_bmp_path),
        min_x_sector: grid.header.min_x_sector,
        min_y_sector: grid.header.min_y_sector,
        min_z_sector: grid.header.min_z_sector,
        max_x_sector: grid.header.max_x_sector,
        max_y_sector: grid.header.max_y_sector,
        max_z_sector: grid.header.max_z_sector,
        sector_width: grid.sector_width(),
        sector_height: grid.sector_height(),
        grid_width: grid.grid_width,
        grid_height: grid.grid_height,
        block_count: grid.stats.block_count,
        uniform_block_count: grid.stats.uniform_block_count,
        unique_value_count: grid.stats.unique_value_count,
        total_waypoint_count: match sampling {
            Some(s) => Some(s.total_waypoint_count),
            None => None,
        },
        waypoints_inside_bounds: match sampling {
            Some(s) => s.inside_bounds_waypoint_count,
            None => 0,
        },
        focus_waypoint_sample_count: inside,
    }
}

} // verus!
