//! Sampling, false colours and the mode of a list of values.
use vstd::prelude::*;

verus! {

/// The source row that output row `output_y` of `output_height` samples at
/// its centre, among `source_rows` rows.
pub open spec fn sample_source_row_spec(output_y: u32, output_height: u32, source_rows: usize) -> int {
    let q = ((2 * output_y + 1) * source_rows) / (2 * output_height);
    let last = if source_rows == 0 { 0 } else { source_rows - 1 };
    if q < last { q } else { last }
}

/// Picks the source row under the centre of output row `output_y`.
pub fn sample_source_row(output_y: u32, output_height: u32, source_rows: usize) -> (r: usize)
    requires
        output_height > 0,
        (2 * output_y + 1) * source_rows <= u64::MAX,
    ensures
        r == sample_source_row_spec(output_y, output_height, source_rows),
{
    let y = output_y as u64;
    let rows = source_rows as u64;
    assert(0 <= (2 * y + 1) * rows) by (nonlinear_arith);
    let numerator: u64 = (y * 2 + 1) * rows;
    let denominator: u64 = output_height as u64 * 2;
    let q: u64 = numerator / denominator;
    let last: usize = if source_rows == 0 { 0 } else { source_rows - 1 };
    if q < last as u64 {
        q as usize
    } else {
        last
    }
}

/// The local x that output column `output_x` of `output_width` samples at
/// its centre, on a map `native_width` wide; the quotient is cut to 32 bits
/// before it is bounded.
pub open spec fn sample_local_x_spec(output_x: usize, output_width: u32, native_width: u32) -> u32 {
    let q = (((2 * output_x + 1) * native_width) / (2 * output_width)) as u32;
    let last: u32 = if native_width == 0 { 0 } else { (native_width - 1) as u32 };
    if q < last { q } else { last }
}

/// Picks the local x under the centre of output column `output_x`.
pub fn sample_local_x(output_x: usize, output_width: u32, native_width: u32) -> (r: u32)
    requires
        output_width > 0,
        2 * output_x + 1 <= u64::MAX,
        (2 * output_x + 1) * native_width <= u64::MAX,
    ensures
        r == sample_local_x_spec(output_x, output_width, native_width),
{
    let x = output_x as u64;
    let w = native_width as u64;
    assert(0 <= (2 * x + 1) * w) by (nonlinear_arith);
    let numerator: u64 = (x * 2 + 1) * w;
    let denominator: u64 = output_width as u64 * 2;
    let q: u32 = #[verifier::truncate] ((numerator / denominator) as u32);
    let last: u32 = if native_width == 0 { 0 } else { native_width - 1 };
    if q < last {
        q
    } else {
        last
    }
}

/// The hash that the false colour of `value` is taken from.
pub open spec fn color_mix(value: u32) -> u32 {
    let s1 = value ^ (value >> 16u32);
    let s2 = s1.wrapping_mul(0x7FEB_352Du32);
    let s3 = s2 ^ (s2 >> 15u32);
    let s4 = s3.wrapping_mul(0x846C_A68Bu32);
    s4 ^ (s4 >> 16u32)
}

/// The false colour of `value`, red, green and blue, each in `64..192`.
pub open spec fn color_rgb_spec(value: u32) -> [u8; 3] {
    let s = color_mix(value);
    [
        (64 + ((s >> 16u32) as u8 & 0x7Fu8)) as u8,
        (64 + ((s >> 8u32) as u8 & 0x7Fu8)) as u8,
        (64 + (s as u8 & 0x7Fu8)) as u8,
    ]
}

proof fn lemma_low_bits(b: u8)
    ensures
        b & 0x7Fu8 <= 0x7F,
{
    assert(b & 0x7Fu8 <= 0x7F) by (bit_vector);
}

/// The false colour of `value`, as red, green and blue.
pub fn color_rgb_for_value(value: u32) -> (r: [u8; 3])
    ensures
        r@ == color_rgb_spec(value)@,
        forall|i: int| 0 <= i < 3 ==> 64 <= #[trigger] r@[i] < 192,
{
    let mut state = value;
    state = state ^ (state >> 16u32);
    state = state.wrapping_mul(0x7FEB_352Du32);
    state = state ^ (state >> 15u32);
    state = state.wrapping_mul(0x846C_A68Bu32);
    state = state ^ (state >> 16u32);
    assert(state == color_mix(value));
    let r8 = (state >> 16u32) as u8 & 0x7Fu8;
    let g8 = (state >> 8u32) as u8 & 0x7Fu8;
    let b8 = state as u8 & 0x7Fu8;
    proof {
        lemma_low_bits((state >> 16u32) as u8);
        lemma_low_bits((state >> 8u32) as u8);
        lemma_low_bits(state as u8);
    }
    let red = 64 + r8;
    let green = 64 + g8;
    let blue = 64 + b8;
    let r = [red, green, blue];
    assert(r@ =~= color_rgb_spec(value)@);
    r
}

/// The false colour of a region id, as blue, green and red.
pub fn color_bgr_for_region_id(region_id: u16) -> (r: [u8; 3])
    ensures
        r@ == seq![color_rgb_spec(region_id as u32)@[2], color_rgb_spec(region_id as u32)@[1], color_rgb_spec(region_id as u32)@[0]],
        forall|i: int| 0 <= i < 3 ==> 64 <= #[trigger] r@[i] < 192,
{
    let rgb = color_rgb_for_value(region_id as u32);
    let r = [rgb[2], rgb[1], rgb[0]];
    assert(r@ =~= seq![rgb@[2], rgb@[1], rgb@[0]]);
    r
}

/// How often `v` occurs in `s`.
pub open spec fn occurrences<T>(s: Seq<T>, v: T) -> nat
    decreases s.len(),
{
    if s.len() == 0 {
        0
    } else {
        occurrences(s.drop_last(), v) + if s.last() == v { 1nat } else { 0nat }
    }
}

/// Whether `r` occurs in `s` most often, and is the smallest such value.
pub open spec fn is_mode16(s: Seq<u16>, r: u16) -> bool {
    &&& s.contains(r)
    &&& forall|j: int| 0 <= j < s.len() ==> occurrences(s, #[trigger] s[j]) <= occurrences(s, r)
    &&& forall|j: int| 0 <= j < s.len() && occurrences(s, #[trigger] s[j]) == occurrences(s, r) ==> r <= s[j]
}

/// Whether `r` occurs in `s` most often, and is the smallest such value.
pub open spec fn is_mode32(s: Seq<u32>, r: u32) -> bool {
    &&& s.contains(r)
    &&& forall|j: int| 0 <= j < s.len() ==> occurrences(s, #[trigger] s[j]) <= occurrences(s, r)
    &&& forall|j: int| 0 <= j < s.len() && occurrences(s, #[trigger] s[j]) == occurrences(s, r) ==> r <= s[j]
}

proof fn lemma_occurrences_bound<T>(s: Seq<T>, v: T)
    ensures
        occurrences(s, v) <= s.len(),
    decreases s.len(),
{
    if s.len() > 0 {
        lemma_occurrences_bound(s.drop_last(), v);
    }
}

proof fn lemma_occurrences_positive<T>(s: Seq<T>, j: int)
    requires
        0 <= j < s.len(),
    ensures
        occurrences(s, s[j]) >= 1,
    decreases s.len(),
{
    if j < s.len() - 1 {
        lemma_occurrences_positive(s.drop_last(), j);
        assert(s.drop_last()[j] == s[j]);
    }
}

/// How often `v` occurs in `s`.
fn count16(s: &[u16], v: u16) -> (c: usize)
    ensures
        c == occurrences(s@, v),
{
    let mut c: usize = 0;
    let mut i: usize = 0;
    while i < s.len()
        invariant
            i <= s@.len(),
            c == occurrences(s@.subrange(0, i as int), v),
            c <= i,
        decreases s@.len() - i,
    {
        assert(s@.subrange(0, i + 1).drop_last() =~= s@.subrange(0, i as int));
        if s[i] == v {
            c = c + 1;
        }
        i = i + 1;
    }
    assert(s@.subrange(0, s@.len() as int) =~= s@);
    c
}

/// How often `v` occurs in `s`.
fn count32(s: &[u32], v: u32) -> (c: usize)
    ensures
        c == occurrences(s@, v),
{
    let mut c: usize = 0;
    let mut i: usize = 0;
    while i < s.len()
        invariant
            i <= s@.len(),
            c == occurrences(s@.subrange(0, i as int), v),
            c <= i,
        decreases s@.len() - i,
    {
        assert(s@.subrange(0, i + 1).drop_last() =~= s@.subrange(0, i as int));
        if s[i] == v {
            c = c + 1;
        }
        i = i + 1;
    }
    assert(s@.subrange(0, s@.len() as int) =~= s@);
    c
}

/// The region id that occurs most often, the smallest one on a tie.
pub fn mode_region_id(region_ids: &[u16]) -> (r: u16)
    requires
        region_ids@.len() > 0,
    ensures
        is_mode16(region_ids@, r),
{
    let ghost s = region_ids@;
    let mut best_id = region_ids[0];
    let mut best_count: usize = 1;
    let mut i: usize = 0;
    while i < region_ids.len()
        invariant
            s == region_ids@,
            s.len() > 0,
            i <= s.len(),
            s.contains(best_id),
            i == 0 ==> best_id == s[0] && best_count == 1,
            i > 0 ==> best_count == occurrences(s, best_id),
            forall|j: int| 0 <= j < i ==> occurrences(s, #[trigger] s[j]) <= best_count,
            forall|j: int| 0 <= j < i && occurrences(s, #[trigger] s[j]) == best_count ==> best_id <= s[j],
        decreases s.len() - i,
    {
        let candidate = region_ids[i];
        let count = count16(region_ids, candidate);
        proof {
            lemma_occurrences_positive(s, i as int);
        }
        if count > best_count || (count == best_count && candidate < best_id) {
            best_id = candidate;
            best_count = count;
        }
        i = i + 1;
    }
    best_id
}

/// The value that occurs most often, the smallest one on a tie.
pub fn mode_value(values: &[u32]) -> (r: u32)
    requires
        values@.len() > 0,
    ensures
        is_mode32(values@, r),
{
    let ghost s = values@;
    let mut best_value = values[0];
    let mut best_count: usize = 1;
    let mut i: usize = 0;
    while i < values.len()
        invariant
            s == values@,
            s.len() > 0,
            i <= s.len(),
            s.contains(best_value),
            i == 0 ==> best_value == s[0] && best_count == 1,
            i > 0 ==> best_count == occurrences(s, best_value),
            forall|j: int| 0 <= j < i ==> occurrences(s, #[trigger] s[j]) <= best_count,
            forall|j: int| 0 <= j < i && occurrences(s, #[trigger] s[j]) == best_count ==> best_value <= s[j],
        decreases s.len() - i,
    {
        let candidate = values[i];
        let count = count32(values, candidate);
        proof {
            lemma_occurrences_positive(s, i as int);
        }
        if count > best_count || (count == best_count && candidate < best_value) {
            best_value = candidate;
            best_count = count;
        }
        i = i + 1;
    }
    best_value
}

} // verus!
