//! Rendering a PABR map to a false-colour BMP image.
use vstd::prelude::*;
use super::{Breakpoint, PabrMap, OutputDimensions, PabrError, INDEX_SENTINEL};
use super::parse::rows_view;
use super::util::{
    sample_local_x, sample_local_x_spec, sample_source_row, sample_source_row_spec, color_bgr_for_region_id,
    color_rgb_spec, mode_region_id, is_mode16, occurrences,
};

verus! {

/// `target` scaled by `to / from`, rounded to nearest, at least 1, cut to
/// 32 bits.
pub open spec fn preserve_aspect_spec(target: u32, from: u32, to: u32) -> u32 {
    let scaled = (target * to + from as int / 2) / (from as int);
    (if scaled < 1 { 1 } else { scaled }) as u32
}

/// Scales `target` by `to / from`, rounding to nearest and keeping at least 1.
pub fn preserve_aspect(target: u32, from: u32, to: u32) -> (r: u32)
    requires
        from > 0,
    ensures
        r == preserve_aspect_spec(target, from, to),
{
    let t = target as u64;
    let o = to as u64;
    assert(t * o <= 0xFFFF_FFFF * 0xFFFF_FFFF) by (nonlinear_arith)
        requires
            t <= 0xFFFF_FFFF,
            o <= 0xFFFF_FFFF,
    ;
    let scaled: u64 = (t * o + (from as u64) / 2) / (from as u64);
    let bounded: u64 = if scaled < 1 { 1 } else { scaled };
    #[verifier::truncate] (bounded as u32)
}

impl PabrMap {
    /// The output size for an explicit width and/or height; a missing one
    /// keeps the native aspect ratio, and with neither the native size is
    /// used.
    pub fn resolve_output_dimensions(&self, width: Option<u32>, height: Option<u32>) -> (r: OutputDimensions)
        requires
            width is Some && height is None ==> self.rid.native_width > 0,
            width is None && height is Some ==> self.rid.native_height > 0,
        ensures
            match (width, height) {
                (Some(w), Some(h)) => r == OutputDimensions { width: w, height: h },
                (Some(w), None) => r == OutputDimensions {
                    width: w,
                    height: preserve_aspect_spec(w, self.rid.native_width, self.rid.native_height),
                },
                (None, Some(h)) => r == OutputDimensions {
                    width: preserve_aspect_spec(h, self.rid.native_height, self.rid.native_width),
                    height: h,
                },
                (None, None) => r == OutputDimensions { width: self.rid.native_width, height: self.rid.native_height },
            },
    {
        match (width, height) {
            (Some(w), Some(h)) => OutputDimensions { width: w, height: h },
            (Some(w), None) => OutputDimensions {
                width: w,
                height: preserve_aspect(w, self.rid.native_width, self.rid.native_height),
            },
            (None, Some(h)) => OutputDimensions {
                width: preserve_aspect(h, self.rid.native_height, self.rid.native_width),
                height: h,
            },
            (None, None) => OutputDimensions { width: self.rid.native_width, height: self.rid.native_height },
        }
    }
}

/// The breakpoint in effect at global x `g`, searching forward from `p`:
/// the last one reached while the next one starts at or before `g`.
pub open spec fn active_from(row: Seq<Breakpoint>, p: int, g: int) -> int
    decreases row.len() - p,
{
    if 0 <= p && p + 1 < row.len() && row[p + 1].source_x as int <= g {
        active_from(row, p + 1, g)
    } else {
        p
    }
}

/// The breakpoint in effect at global x `g`.
pub open spec fn active(row: Seq<Breakpoint>, g: int) -> int {
    active_from(row, 0, g)
}

/// Every breakpoint after the first, up to `p`, starts at or before `g`.
pub open spec fn reached(row: Seq<Breakpoint>, p: int, g: int) -> bool {
    forall|j: int| 0 < j <= p ==> (#[trigger] row[j]).source_x as int <= g
}

pub proof fn lemma_active_from_bounds(row: Seq<Breakpoint>, p: int, g: int)
    requires
        0 <= p < row.len(),
    ensures
        p <= active_from(row, p, g) < row.len(),
        reached(row, p, g) ==> reached(row, active_from(row, p, g), g),
    decreases row.len() - p,
{
    if p + 1 < row.len() && row[p + 1].source_x as int <= g {
        lemma_active_from_bounds(row, p + 1, g);
    }
}

pub proof fn lemma_active_from_skip(row: Seq<Breakpoint>, q: int, p: int, g: int)
    requires
        0 <= q <= p < row.len(),
        forall|j: int| q < j <= p ==> (#[trigger] row[j]).source_x as int <= g,
    ensures
        active_from(row, q, g) == active_from(row, p, g),
    decreases p - q,
{
    if q < p {
        lemma_active_from_skip(row, q + 1, p, g);
    }
}

/// The global x of band `band` at local x `local_x`.
pub open spec fn band_global(local_x: int, row_offset: int, band: int, native_width: int) -> int {
    local_x + row_offset + band * native_width
}

/// The region ids that the first `nb` bands fold onto local x `local_x`:
/// for each band within the 16-bit range whose breakpoint is not
/// transparent, the region id of its dictionary entry.
pub open spec fn folded_region_ids(
    ids: Seq<u16>,
    row: Seq<Breakpoint>,
    local_x: int,
    row_offset: int,
    native_width: int,
    nb: nat,
) -> Result<Seq<u16>, PabrError>
    decreases nb,
{
    if nb == 0 {
        Ok(Seq::empty())
    } else {
        match folded_region_ids(ids, row, local_x, row_offset, native_width, (nb - 1) as nat) {
            Err(e) => Err(e),
            Ok(s) => {
                let g = band_global(local_x, row_offset, nb - 1, native_width);
                if g > 0xFFFF {
                    Ok(s)
                } else {
                    let index = row[active(row, g)].dictionary_index;
                    if index == INDEX_SENTINEL {
                        Ok(s)
                    } else if index as int >= ids.len() {
                        Err(PabrError::DictionaryIndexOutOfRange(index as usize, ids.len() as usize))
                    } else {
                        Ok(s.push(ids[index as int]))
                    }
                }
            },
        }
    }
}

/// The most frequent of a non-empty list of region ids, the smallest on a tie.
pub open spec fn mode16(s: Seq<u16>) -> u16 {
    choose|r: u16| is_mode16(s, r)
}

/// The background colour, blue, green, red.
pub open spec fn background_bgr() -> Seq<u8> {
    seq![193u8, 154u8, 79u8]
}

/// The blue, green and red bytes of the colour of `region_id`.
pub open spec fn region_bgr(region_id: u16) -> Seq<u8> {
    seq![color_rgb_spec(region_id as u32)@[2], color_rgb_spec(region_id as u32)@[1], color_rgb_spec(region_id as u32)@[0]]
}

/// The colour of a pixel with these folded region ids.
pub open spec fn pixel_bgr(folded: Seq<u16>) -> Seq<u8> {
    if folded.len() == 0 {
        background_bgr()
    } else {
        region_bgr(mode16(folded))
    }
}

pub proof fn lemma_mode16_unique(s: Seq<u16>, a: u16)
    requires
        is_mode16(s, a),
    ensures
        mode16(s) == a,
{
    let b = mode16(s);
    assert(is_mode16(s, b));
    let ia = choose|i: int| 0 <= i < s.len() && s[i] == a;
    let ib = choose|i: int| 0 <= i < s.len() && s[i] == b;
    assert(occurrences(s, s[ib]) <= occurrences(s, a));
    assert(occurrences(s, s[ia]) <= occurrences(s, b));
}

/// The bytes of the first `n` pixels of source row `row`, each folding the
/// bands at the local x its centre samples.
pub open spec fn row_pixels(
    ids: Seq<u16>,
    row: Seq<Breakpoint>,
    output_width: u32,
    native_width: u32,
    row_offset: int,
    nb: nat,
    n: nat,
) -> Result<Seq<u8>, PabrError>
    decreases n,
{
    if n == 0 {
        Ok(Seq::empty())
    } else {
        match row_pixels(ids, row, output_width, native_width, row_offset, nb, (n - 1) as nat) {
            Err(e) => Err(e),
            Ok(bytes) => {
                let local_x = sample_local_x_spec((n - 1) as usize, output_width, native_width) as int;
                match folded_region_ids(ids, row, local_x, row_offset, native_width as int, nb) {
                    Err(e) => Err(e),
                    Ok(folded) => Ok(bytes + pixel_bgr(folded)),
                }
            },
        }
    }
}

/// The offset that source row `source_row` is shifted by.
pub open spec fn row_offset_spec(source_row: int, row_shift: u32, native_width: u32) -> int {
    (source_row * row_shift) % (native_width as int)
}

impl PabrMap {
    /// The number of bands, where the native width is not zero.
    pub open spec fn bands(&self) -> nat {
        (self.bkd.max_source_x as int / self.rid.native_width as int + 1) as nat
    }

    /// The bytes of source row `source_row` rendered `output_width` pixels
    /// wide and padded with zeros to `stride` bytes.
    #[verifier::opaque]
    pub open spec fn scanline_spec(&self, source_row: int, output_width: u32, row_shift: u32, stride: int) -> Result<Seq<u8>, PabrError> {
        let rows = rows_view(self.bkd.rows@);
        if source_row < 0 || source_row >= rows.len() {
            Err(PabrError::SourceRowOutOfBounds(source_row as usize))
        } else if self.rid.native_width == 0 {
            Err(PabrError::ZeroNativeWidth)
        } else if rows[source_row].len() == 0 {
            Ok(Seq::new(stride as nat, |i: int| 0u8))
        } else {
            match row_pixels(
                self.rid.region_ids@,
                rows[source_row],
                output_width,
                self.rid.native_width,
                row_offset_spec(source_row, row_shift, self.rid.native_width),
                self.bands(),
                output_width as nat,
            ) {
                Err(e) => Err(e),
                Ok(pixels) => Ok(pixels + Seq::new((stride - 3 * output_width) as nat, |i: int| 0u8)),
            }
        }
    }
}

proof fn lemma_local_x_bounds(x: usize, output_width: u32, native_width: u32)
    requires
        x < output_width,
        native_width > 0,
    ensures
        sample_local_x_spec(x, output_width, native_width) < native_width,
        (((2 * x + 1) * native_width) / (2 * output_width)) < native_width,
{
    let q = ((2 * x + 1) * native_width) / (2 * output_width);
    assert(q < native_width) by (nonlinear_arith)
        requires
            x < output_width,
            native_width > 0,
            q == ((2 * x + 1) * native_width) / (2 * output_width),
    ;
}

proof fn lemma_local_x_monotone(x1: usize, x2: usize, output_width: u32, native_width: u32)
    requires
        x1 <= x2 < output_width,
        native_width > 0,
    ensures
        sample_local_x_spec(x1, output_width, native_width) <= sample_local_x_spec(x2, output_width, native_width),
{
    lemma_local_x_bounds(x1, output_width, native_width);
    lemma_local_x_bounds(x2, output_width, native_width);
    let a = (2 * x1 + 1) * native_width;
    let b = (2 * x2 + 1) * native_width;
    let d = 2 * output_width;
    assert(a <= b) by (nonlinear_arith)
        requires
            x1 <= x2,
            a == (2 * x1 + 1) * native_width,
            b == (2 * x2 + 1) * native_width,
    ;
    assert(a / d <= b / d) by (nonlinear_arith)
        requires
            a <= b,
            d > 0,
            a >= 0,
    ;
}

/// Zero bytes up to length `len`.
fn pad_zeros(v: &mut Vec<u8>, len: usize)
    requires
        old(v)@.len() <= len,
    ensures
        final(v)@ == old(v)@ + Seq::new((len - old(v)@.len()) as nat, |i: int| 0u8),
{
    let ghost start = v@;
    while v.len() < len
        invariant
            start.len() <= v@.len() <= len,
            v@ == start + Seq::new((v@.len() - start.len()) as nat, |i: int| 0u8),
        decreases len - v@.len(),
    {
        v.push(0u8);
        assert(v@ =~= start + Seq::new((v@.len() - start.len()) as nat, |i: int| 0u8));
    }
}

impl PabrMap {
    /// Folds the bands onto local x `local_x`, moving each band's position
    /// forward to the breakpoint in effect there.
    pub(crate) fn fold_bands(
        &self,
        source_row: usize,
        local_x: u32,
        row_offset: u32,
        band_positions: &mut Vec<usize>,
    ) -> (r: Result<Vec<u16>, PabrError>)
        requires
            source_row < self.bkd.rows@.len(),
            self.bkd.rows@[source_row as int]@.len() > 0,
            self.rid.native_width > 0,
            local_x < self.rid.native_width,
            row_offset < self.rid.native_width,
            old(band_positions)@.len() == self.bands(),
            forall|c: int| 0 <= c < old(band_positions)@.len() ==> {
                &&& #[trigger] old(band_positions)@[c] < self.bkd.rows@[source_row as int]@.len()
                &&& reached(self.bkd.rows@[source_row as int]@, old(band_positions)@[c] as int,
                    band_global(local_x as int, row_offset as int, c, self.rid.native_width as int))
            },
        ensures
            final(band_positions)@.len() == self.bands(),
            forall|c: int| 0 <= c < final(band_positions)@.len() ==> {
                &&& #[trigger] final(band_positions)@[c] < self.bkd.rows@[source_row as int]@.len()
                &&& reached(self.bkd.rows@[source_row as int]@, final(band_positions)@[c] as int,
                    band_global(local_x as int, row_offset as int, c, self.rid.native_width as int))
            },
            match folded_region_ids(self.rid.region_ids@, self.bkd.rows@[source_row as int]@, local_x as int,
                row_offset as int, self.rid.native_width as int, self.bands()) {
                Ok(s) => r matches Ok(v) && v@ == s,
                Err(e) => r == Err::<Vec<u16>, PabrError>(e),
            },
    {
        let row = &self.bkd.rows[source_row];
        let ghost rs = row@;
        let nw = self.rid.native_width;
        let band_count = band_positions.len();
        let mut folded: Vec<u16> = Vec::new();
        let mut b: usize = 0;
        let ghost mx = self.bkd.max_source_x as int;
        let ghost q = mx / (nw as int);
        assert(q * nw <= mx) by (nonlinear_arith)
            requires
                nw > 0,
                mx >= 0,
                q == mx / (nw as int),
        ;
        assert(self.bands() == q + 1);
        assert((q + 1) * nw == q * nw + nw) by (nonlinear_arith);
        let rlen = row.len();
        while b < band_count
            invariant
                rs == row@,
                rs == self.bkd.rows@[source_row as int]@,
                rlen == rs.len(),
                rs.len() > 0,
                nw == self.rid.native_width,
                nw > 0,
                local_x < nw,
                row_offset < nw,
                band_count == self.bands(),
                self.bands() * nw <= self.bkd.max_source_x + nw,
                band_positions@.len() == band_count,
                b <= band_count,
                forall|c: int| 0 <= c < band_positions@.len() ==> {
                    &&& #[trigger] band_positions@[c] < rs.len()
                    &&& reached(rs, band_positions@[c] as int, band_global(local_x as int, row_offset as int, c, nw as int))
                },
                folded_region_ids(self.rid.region_ids@, rs, local_x as int, row_offset as int, nw as int, b as nat)
                    == Ok::<Seq<u16>, PabrError>(folded@),
            decreases band_count - b,
        {
            assert(b * nw <= self.bkd.max_source_x) by (nonlinear_arith)
                requires
                    b < band_count,
                    band_count * nw <= self.bkd.max_source_x + nw,
            ;
            let global_x: u64 = local_x as u64 + row_offset as u64 + (b as u64) * (nw as u64);
            let ghost g = band_global(local_x as int, row_offset as int, b as int, nw as int);
            assert(global_x == g);
            if global_x > 0xFFFF {
                b = b + 1;
            } else {
                let start = band_positions[b];
                let mut p = start;
                proof {
                    lemma_active_from_bounds(rs, start as int, g);
                }
                while p + 1 < rlen && (row[p + 1].source_x as u64) <= global_x
                    invariant
                        rs == row@,
                        rlen == rs.len(),
                        start <= p < rs.len(),
                        active_from(rs, p as int, g) == active_from(rs, start as int, g),
                        reached(rs, p as int, g),
                        global_x == g,
                    decreases rs.len() - p,
                {
                    p = p + 1;
                }
                assert(active_from(rs, p as int, g) == p);
                proof {
                    lemma_active_from_skip(rs, 0, start as int, g);
                }
                assert(active(rs, g) == p);
                let ghost before = band_positions@;
                band_positions.set(b, p);
                assert forall|c: int| 0 <= c < band_positions@.len() implies {
                    &&& #[trigger] band_positions@[c] < rs.len()
                    &&& reached(rs, band_positions@[c] as int, band_global(local_x as int, row_offset as int, c, nw as int))
                } by {
                    if c != b {
                        assert(band_positions@[c] == before[c]);
                    }
                }
                let index = row[p].dictionary_index;
                if index != INDEX_SENTINEL {
                    let region_id = match self.region_id_for_dictionary_index(index) {
                        Ok(v) => v,
                        Err(e) => {
                            proof {
                                lemma_folded_err_persists(self.rid.region_ids@, rs, local_x as int, row_offset as int,
                                    nw as int, (b + 1) as nat, band_count as nat, e);
                            }
                            return Err(e);
                        },
                    };
                    folded.push(region_id);
                }
                b = b + 1;
            }
        }
        Ok(folded)
    }
}

proof fn lemma_folded_err_persists(
    ids: Seq<u16>,
    row: Seq<Breakpoint>,
    local_x: int,
    row_offset: int,
    native_width: int,
    i: nat,
    j: nat,
    e: PabrError,
)
    requires
        i <= j,
        folded_region_ids(ids, row, local_x, row_offset, native_width, i) == Err::<Seq<u16>, PabrError>(e),
    ensures
        folded_region_ids(ids, row, local_x, row_offset, native_width, j) == Err::<Seq<u16>, PabrError>(e),
    decreases j - i,
{
    if i < j {
        lemma_folded_err_persists(ids, row, local_x, row_offset, native_width, i, (j - 1) as nat, e);
    }
}


proof fn lemma_row_pixels_err_persists(
    ids: Seq<u16>,
    row: Seq<Breakpoint>,
    output_width: u32,
    native_width: u32,
    row_offset: int,
    nb: nat,
    i: nat,
    j: nat,
    e: PabrError,
)
    requires
        i <= j,
        row_pixels(ids, row, output_width, native_width, row_offset, nb, i) == Err::<Seq<u8>, PabrError>(e),
    ensures
        row_pixels(ids, row, output_width, native_width, row_offset, nb, j) == Err::<Seq<u8>, PabrError>(e),
    decreases j - i,
{
    if i < j {
        lemma_row_pixels_err_persists(ids, row, output_width, native_width, row_offset, nb, i, (j - 1) as nat, e);
    }
}

impl PabrMap {
    /// Renders source row `source_row` `output_width` pixels wide, each
    /// pixel the colour of the most frequent region id among the bands
    /// folded onto it (the background where there is none), padded with
    /// zeros to `stride` bytes.
    pub fn render_scanline_row(&self, source_row: usize, output_width: u32, row_shift: u32, stride: usize) -> (r: Result<Vec<u8>, PabrError>)
        requires
            stride >= 3 * output_width,
            2 * output_width * self.rid.native_width <= u64::MAX,
            source_row * row_shift <= u64::MAX,
        ensures
            match self.scanline_spec(source_row as int, output_width, row_shift, stride as int) {
                Ok(bytes) => r matches Ok(v) && v@ == bytes,
                Err(e) => r == Err::<Vec<u8>, PabrError>(e),
            },
    {
        reveal(PabrMap::scanline_spec);
        if source_row >= self.bkd.rows.len() {
            return Err(PabrError::SourceRowOutOfBounds(source_row));
        }
        let band_count = match self.band_count() {
            Ok(v) => v,
            Err(e) => return Err(e),
        };
        let nw = self.rid.native_width;
        let ghost rs = self.bkd.rows@[source_row as int]@;
        let ghost ids = self.rid.region_ids@;
        assert(rows_view(self.bkd.rows@)[source_row as int] == rs);
        let product: u64 = source_row as u64 * row_shift as u64;
        let row_offset: u32 = (product % (nw as u64)) as u32;
        assert(row_offset == row_offset_spec(source_row as int, row_shift, nw));
        let mut out: Vec<u8> = Vec::new();
        if self.bkd.rows[source_row].len() == 0 {
            pad_zeros(&mut out, stride);
            assert(out@ =~= Seq::new(stride as nat, |i: int| 0u8));
            return Ok(out);
        }
        let mut band_positions: Vec<usize> = Vec::new();
        let mut c: usize = 0;
        while c < band_count
            invariant
                c <= band_count,
                band_positions@.len() == c,
                forall|k: int| 0 <= k < c ==> #[trigger] band_positions@[k] == 0,
            decreases band_count - c,
        {
            band_positions.push(0);
            c = c + 1;
        }
        let w = output_width as usize;
        let mut x: usize = 0;
        let ghost mut prev_local: int = 0;
        while x < w
            invariant
                w == output_width,
                x <= w,
                nw == self.rid.native_width,
                nw > 0,
                rs == self.bkd.rows@[source_row as int]@,
                rs.len() > 0,
                ids == self.rid.region_ids@,
                source_row < self.bkd.rows@.len(),
                row_offset < nw,
                2 * output_width * nw <= u64::MAX,
                band_count == self.bands(),
                band_positions@.len() == band_count,
                x > 0 ==> prev_local == sample_local_x_spec((x - 1) as usize, output_width, nw) as int,
                x == 0 ==> forall|k: int| 0 <= k < band_positions@.len() ==> #[trigger] band_positions@[k] == 0,
                row_offset == row_offset_spec(source_row as int, row_shift, nw),
                rows_view(self.bkd.rows@)[source_row as int] == rs,
                stride >= 3 * output_width,
                out@.len() == 3 * x,
                forall|k: int| 0 <= k < band_positions@.len() ==> {
                    &&& #[trigger] band_positions@[k] < rs.len()
                    &&& reached(rs, band_positions@[k] as int, band_global(prev_local, row_offset as int, k, nw as int))
                },
                row_pixels(ids, rs, output_width, nw, row_offset as int, self.bands(), x as nat) == Ok::<Seq<u8>, PabrError>(out@),
            decreases w - x,
        {
            assert((2 * x + 1) * nw <= u64::MAX) by (nonlinear_arith)
                requires
                    x < output_width,
                    2 * output_width * nw <= u64::MAX,
            ;
            let local_x = sample_local_x(x, output_width, nw);
            proof {
                lemma_local_x_bounds(x, output_width, nw);
                if x > 0 {
                    lemma_local_x_monotone((x - 1) as usize, x, output_width, nw);
                }
                assert forall|k: int| 0 <= k < band_positions@.len() implies {
                    &&& #[trigger] band_positions@[k] < rs.len()
                    &&& reached(rs, band_positions@[k] as int, band_global(local_x as int, row_offset as int, k, nw as int))
                } by {
                    if x > 0 {
                        assert(prev_local <= local_x);
                    } else {
                        assert(band_positions@[k] == 0);
                    }
                }
            }
            let folded = match self.fold_bands(source_row, local_x, row_offset, &mut band_positions) {
                Ok(v) => v,
                Err(e) => {
                    proof {
                        reveal(PabrMap::scanline_spec);
                        lemma_row_pixels_err_persists(ids, rs, output_width, nw, row_offset as int, self.bands(),
                            (x + 1) as nat, output_width as nat, e);
                    }
                    return Err(e);
                },
            };
            let color: [u8; 3] = if folded.len() == 0 {
                [193u8, 154u8, 79u8]
            } else {
                let mode = mode_region_id(folded.as_slice());
                proof {
                    lemma_mode16_unique(folded@, mode);
                }
                color_bgr_for_region_id(mode)
            };
            assert(color@ == pixel_bgr(folded@));
            let ghost before = out@;
            out.push(color[0]);
            out.push(color[1]);
            out.push(color[2]);
            assert(out@ =~= before + pixel_bgr(folded@));
            proof {
                prev_local = local_x as int;
            }
            x = x + 1;
        }
        pad_zeros(&mut out, stride);
        Ok(out)
    }
}

/// The four little-endian bytes of `v`.
pub open spec fn le32(v: u32) -> Seq<u8> {
    seq![v as u8, (v >> 8u32) as u8, (v >> 16u32) as u8, (v >> 24u32) as u8]
}

/// The two little-endian bytes of `v`.
pub open spec fn le16(v: u16) -> Seq<u8> {
    seq![v as u8, (v >> 8u16) as u8]
}

/// The 54-byte header of a 24-bit BMP image.
pub open spec fn bmp_header_spec(width: u32, height: u32, image_size: u32, file_size: u32) -> Seq<u8> {
    seq![0x42u8, 0x4Du8] + le32(file_size) + le32(0) + le32(54) + le32(40) + le32(width) + le32(height) + le16(1)
        + le16(24) + le32(0) + le32(image_size) + le32(2835) + le32(2835) + le32(0) + le32(0)
}

fn push_le32(v: &mut Vec<u8>, x: u32)
    ensures
        final(v)@ == old(v)@ + le32(x),
{
    let ghost start = v@;
    v.push(#[verifier::truncate] (x as u8));
    v.push(#[verifier::truncate] ((x >> 8u32) as u8));
    v.push(#[verifier::truncate] ((x >> 16u32) as u8));
    v.push(#[verifier::truncate] ((x >> 24u32) as u8));
    assert(v@ =~= start + le32(x));
}

fn push_le16(v: &mut Vec<u8>, x: u16)
    ensures
        final(v)@ == old(v)@ + le16(x),
{
    let ghost start = v@;
    v.push(#[verifier::truncate] (x as u8));
    v.push(#[verifier::truncate] ((x >> 8u16) as u8));
    assert(v@ =~= start + le16(x));
}

/// The header of a 24-bit BMP image of these dimensions.
pub fn bmp_header(dimensions: OutputDimensions, image_size: u32, file_size: u32) -> (r: Vec<u8>)
    ensures
        r@ == bmp_header_spec(dimensions.width, dimensions.height, image_size, file_size),
{
    let mut v: Vec<u8> = Vec::new();
    v.push(0x42u8);
    v.push(0x4Du8);
    push_le32(&mut v, file_size);
    push_le32(&mut v, 0);
    push_le32(&mut v, 54);
    push_le32(&mut v, 40);
    push_le32(&mut v, dimensions.width);
    push_le32(&mut v, dimensions.height);
    push_le16(&mut v, 1);
    push_le16(&mut v, 24);
    push_le32(&mut v, 0);
    push_le32(&mut v, image_size);
    push_le32(&mut v, 2835);
    push_le32(&mut v, 2835);
    push_le32(&mut v, 0);
    push_le32(&mut v, 0);
    assert(v@ =~= bmp_header_spec(dimensions.width, dimensions.height, image_size, file_size));
    v
}

/// The bytes of one padded image row of `width` pixels.
pub open spec fn bmp_row_stride(width: u32) -> int {
    3 * width + (4 - (3 * width) % 4) % 4
}

/// The image rows for output rows `height - 1` down to `height - n`, each
/// the scanline of the source row its centre samples.
pub open spec fn bmp_rows(map: PabrMap, dimensions: OutputDimensions, row_shift: u32, n: nat) -> Result<Seq<u8>, PabrError>
    decreases n,
{
    if n == 0 {
        Ok(Seq::empty())
    } else {
        match bmp_rows(map, dimensions, row_shift, (n - 1) as nat) {
            Err(e) => Err(e),
            Ok(bytes) => {
                let y = (dimensions.height - n) as u32;
                let source_row = sample_source_row_spec(y, dimensions.height, map.bkd.rows@.len() as usize);
                match map.scanline_spec(source_row, dimensions.width, row_shift, bmp_row_stride(dimensions.width)) {
                    Err(e) => Err(e),
                    Ok(row) => Ok(bytes + row),
                }
            },
        }
    }
}

proof fn lemma_bmp_rows_err_persists(map: PabrMap, dimensions: OutputDimensions, row_shift: u32, i: nat, j: nat, e: PabrError)
    requires
        i <= j,
        bmp_rows(map, dimensions, row_shift, i) == Err::<Seq<u8>, PabrError>(e),
    ensures
        bmp_rows(map, dimensions, row_shift, j) == Err::<Seq<u8>, PabrError>(e),
    decreases j - i,
{
    if i < j {
        lemma_bmp_rows_err_persists(map, dimensions, row_shift, i, (j - 1) as nat, e);
    }
}

impl PabrMap {
    /// The bytes of the map rendered as a 24-bit BMP image: the header, then
    /// the rows from the bottom up.
    #[verifier::spinoff_prover]
    pub fn render_bmp_bytes(&self, dimensions: OutputDimensions, row_shift: u32) -> (r: Result<Vec<u8>, PabrError>)
        requires
            2 * dimensions.width * self.rid.native_width <= u64::MAX,
            self.bkd.rows@.len() * row_shift <= u64::MAX,
            2 * dimensions.height * self.bkd.rows@.len() <= u64::MAX,
        ensures
            dimensions.width == 0 || dimensions.height == 0 ==> r == Err::<Vec<u8>, PabrError>(PabrError::ZeroOutputDimensions),
            dimensions.width > 0 && dimensions.height > 0 && 54 + bmp_row_stride(dimensions.width) * dimensions.height > u32::MAX
                ==> r == Err::<Vec<u8>, PabrError>(PabrError::ImageTooLarge),
            dimensions.width > 0 && dimensions.height > 0 && 54 + bmp_row_stride(dimensions.width) * dimensions.height <= u32::MAX
                ==> match bmp_rows(*self, dimensions, row_shift, dimensions.height as nat) {
                    Ok(rows) => r matches Ok(v) && v@ == bmp_header_spec(
                        dimensions.width,
                        dimensions.height,
                        (bmp_row_stride(dimensions.width) * dimensions.height) as u32,
                        (54 + bmp_row_stride(dimensions.width) * dimensions.height) as u32,
                    ) + rows,
                    Err(e) => r == Err::<Vec<u8>, PabrError>(e),
                },
    {
        if dimensions.width == 0 || dimensions.height == 0 {
            return Err(PabrError::ZeroOutputDimensions);
        }
        let w = dimensions.width as u64;
        let h = dimensions.height as u64;
        let padding: u64 = (4 - (w * 3) % 4) % 4;
        let stride64: u64 = w * 3 + padding;
        assert(stride64 == bmp_row_stride(dimensions.width));
        if stride64 > 0xFFFF_FFFF {
            assert(stride64 * h >= stride64) by (nonlinear_arith)
                requires
                    h >= 1,
            ;
            return Err(PabrError::ImageTooLarge);
        }
        assert(stride64 * h <= 0xFFFF_FFFF * 0xFFFF_FFFF) by (nonlinear_arith)
            requires
                stride64 <= 0xFFFF_FFFF,
                h <= 0xFFFF_FFFF,
        ;
        let image_size: u64 = stride64 * h;
        let file_size: u64 = 54 + image_size;
        if file_size > 0xFFFF_FFFF {
            return Err(PabrError::ImageTooLarge);
        }
        let stride = stride64 as usize;
        let mut out = bmp_header(dimensions, image_size as u32, file_size as u32);
        let ghost header = out@;
        let ghost mut acc: Seq<u8> = Seq::empty();
        let rows_len = self.bkd.rows.len();
        let mut cached_source_row: usize = usize::MAX;
        let mut cached: Vec<u8> = Vec::new();
        let mut done: u32 = 0;
        while done < dimensions.height
            invariant
                done <= dimensions.height,
                dimensions.width > 0,
                stride == bmp_row_stride(dimensions.width),
                rows_len == self.bkd.rows@.len(),
                2 * dimensions.width * self.rid.native_width <= u64::MAX,
                self.bkd.rows@.len() * row_shift <= u64::MAX,
                2 * dimensions.height * self.bkd.rows@.len() <= u64::MAX,
                cached_source_row != usize::MAX ==> self.scanline_spec(cached_source_row as int, dimensions.width,
                    row_shift, stride as int) == Ok::<Seq<u8>, PabrError>(cached@),
                dimensions.height > 0,
                54 + stride * dimensions.height <= u32::MAX,
                bmp_rows(*self, dimensions, row_shift, done as nat) == Ok::<Seq<u8>, PabrError>(acc),
                out@ == header + acc,
            decreases dimensions.height - done,
        {
            let y = dimensions.height - 1 - done;
            assert((2 * y + 1) * rows_len <= u64::MAX) by (nonlinear_arith)
                requires
                    y < dimensions.height,
                    2 * dimensions.height * rows_len <= u64::MAX,
            ;
            let source_row = sample_source_row(y, dimensions.height, rows_len);
            if source_row != cached_source_row {
                if source_row < rows_len {
                    assert(source_row * row_shift <= u64::MAX) by (nonlinear_arith)
                        requires
                            source_row < rows_len,
                            rows_len * row_shift <= u64::MAX,
                    ;
                } else {
                    assert(source_row * row_shift <= u64::MAX) by (nonlinear_arith)
                        requires
                            source_row == 0,
                    ;
                }
                match self.render_scanline_row(source_row, dimensions.width, row_shift, stride) {
                    Ok(v) => {
                        cached = v;
                    },
                    Err(e) => {
                        proof {
                            lemma_bmp_rows_err_persists(*self, dimensions, row_shift, (done + 1) as nat,
                                dimensions.height as nat, e);
                        }
                        return Err(e);
                    },
                }
                cached_source_row = source_row;
            }
            out.extend_from_slice(cached.as_slice());
            proof {
                acc = acc + cached@;
            }
            assert(out@ =~= header + acc);
            done = done + 1;
        }
        Ok(out)
    }
}

} // verus!
