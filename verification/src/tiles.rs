//! Tile pyramids: the parent of a tile, the occupancy bitset of a level, and
//! the names of the minimap tiles taken from the archive.
use vstd::prelude::*;
use vstd::string::StrSliceExecFns;
use crate::archive::FileEntry;
use crate::gcdata::{path_file_name, file_name_of};
use crate::text::{
    has_prefix, has_suffix, starts_with_str, ends_with_str, first_char, find_char, ascii_bytes, parse_i32_spec,
    parse_i32_str, parse_u32_spec, parse_u32_str, signed_decimal, push_signed_decimal, lemma_signed_decimal_parses,
    lemma_first_char,
};

verus! {

/// The tile one level up that holds tile `(x, y)`, and the quadrant of it
/// that `(x, y)` fills: coordinates halved towards negative infinity, and
/// their remainders (0 or 1).
pub fn tile_parent_quadrant(x: i32, y: i32) -> (r: (i32, i32, u32, u32))
    ensures
        r.0 == x / 2,
        r.1 == y / 2,
        r.2 == x % 2,
        r.3 == y % 2,
{
    let xo: u64 = (x as i64 + 0x8000_0000i64) as u64;
    let yo: u64 = (y as i64 + 0x8000_0000i64) as u64;
    let px = ((xo / 2) as i64 - 0x4000_0000i64) as i32;
    let py = ((yo / 2) as i64 - 0x4000_0000i64) as i32;
    let qx = (xo % 2) as u32;
    let qy = (yo % 2) as u32;
    (px, py, qx, qy)
}

/// The coordinate of a tile key along one axis (`y` when `along_y`).
pub open spec fn coord(p: (i32, i32), along_y: bool) -> int {
    if along_y {
        p.1 as int
    } else {
        p.0 as int
    }
}

/// The least coordinate among the first `n` keys.
pub open spec fn lowest(keys: Seq<(i32, i32)>, along_y: bool, n: int) -> int
    decreases n,
{
    if n <= 1 {
        coord(keys[0], along_y)
    } else {
        let m = lowest(keys, along_y, n - 1);
        let c = coord(keys[n - 1], along_y);
        if c < m {
            c
        } else {
            m
        }
    }
}

/// The greatest coordinate among the first `n` keys.
pub open spec fn highest(keys: Seq<(i32, i32)>, along_y: bool, n: int) -> int
    decreases n,
{
    if n <= 1 {
        coord(keys[0], along_y)
    } else {
        let m = highest(keys, along_y, n - 1);
        let c = coord(keys[n - 1], along_y);
        if c > m {
            c
        } else {
            m
        }
    }
}

proof fn lemma_bounds(keys: Seq<(i32, i32)>, along_y: bool, n: int)
    requires
        1 <= n <= keys.len(),
    ensures
        forall|k: int|
            0 <= k < n ==> lowest(keys, along_y, n) <= #[trigger] coord(keys[k], along_y) <= highest(
                keys,
                along_y,
                n,
            ),
    decreases n,
{
    if n > 1 {
        lemma_bounds(keys, along_y, n - 1);
    }
}

/// The number of tiles across a level along one axis.
pub open spec fn extent(keys: Seq<(i32, i32)>, along_y: bool) -> int {
    highest(keys, along_y, keys.len() as int) - lowest(keys, along_y, keys.len() as int) + 1
}

/// The bit of a tile key in the occupancy grid: rows of `width` from the
/// least key.
pub open spec fn cell_of(p: (i32, i32), min_x: int, min_y: int, width: int) -> int {
    (p.1 - min_y) * width + (p.0 - min_x)
}

/// Whether bit `idx` of `bits` is set, least significant bit first.
pub open spec fn bit_at(bits: Seq<u8>, idx: int) -> bool {
    (bits[idx / 8] >> ((idx % 8) as u8)) & 1u8 == 1u8
}

/// Whether one of the first `n` keys falls on bit `idx`.
pub open spec fn marked(keys: Seq<(i32, i32)>, n: int, min_x: int, min_y: int, width: int, idx: int) -> bool {
    exists|k: int| 0 <= k < n && cell_of(#[trigger] keys[k], min_x, min_y, width) == idx
}

proof fn lemma_marked_step(keys: Seq<(i32, i32)>, n: int, min_x: int, min_y: int, width: int, idx: int)
    requires
        0 <= n < keys.len(),
    ensures
        marked(keys, n + 1, min_x, min_y, width, idx) <==> (marked(keys, n, min_x, min_y, width, idx)
            || cell_of(keys[n], min_x, min_y, width) == idx),
{
    if marked(keys, n + 1, min_x, min_y, width, idx) {
        let k = choose|k: int| 0 <= k < n + 1 && cell_of(#[trigger] keys[k], min_x, min_y, width) == idx;
        if k < n {
            assert(marked(keys, n, min_x, min_y, width, idx));
        }
    }
    if marked(keys, n, min_x, min_y, width, idx) {
        let k = choose|k: int| 0 <= k < n && cell_of(#[trigger] keys[k], min_x, min_y, width) == idx;
        assert(0 <= k < n + 1 && cell_of(keys[k], min_x, min_y, width) == idx);
    }
    if cell_of(keys[n], min_x, min_y, width) == idx {
        assert(0 <= n < n + 1 && cell_of(keys[n], min_x, min_y, width) == idx);
    }
}

/// Which tiles of one level exist, as a bitset over their bounding box.
#[derive(Debug)]
pub struct OccupancyBits {
    pub min_x: i32,
    pub min_y: i32,
    pub width: u32,
    pub height: u32,
    pub bits: Vec<u8>,
}

/// Why an occupancy bitset could not be built.
#[derive(Clone, Copy, Debug, PartialEq, Eq)]
pub enum OccupancyError {
    /// The level has no tiles.
    EmptyLevel,
}

proof fn lemma_set_bit(b: u8, a: u8, c: u8)
    requires
        a < 8,
        c < 8,
    ensures
        (((b | (1u8 << a)) >> c) & 1u8 == 1u8) == (((b >> c) & 1u8 == 1u8) || a == c),
{
    assert((((b | (1u8 << a)) >> c) & 1u8 == 1u8) == (((b >> c) & 1u8 == 1u8) || a == c))
        by (bit_vector)
        requires
            a < 8,
            c < 8,
    ;
}

proof fn lemma_zero_bits(c: u8)
    requires
        c < 8,
    ensures
        (0u8 >> c) & 1u8 != 1u8,
{
    assert((0u8 >> c) & 1u8 != 1u8) by (bit_vector);
}

/// Builds the occupancy bitset of a level from its tile keys: the box from
/// the least to the greatest key on each axis, and one bit per tile of it,
/// set exactly for the tiles that are keys.
pub fn build_occupancy(keys: &[(i32, i32)]) -> (r: Result<OccupancyBits, OccupancyError>)
    requires
        keys@.len() > 0 ==> extent(keys@, false) <= i32::MAX,
        keys@.len() > 0 ==> extent(keys@, true) <= i32::MAX,
        keys@.len() > 0 ==> extent(keys@, false) * extent(keys@, true) <= usize::MAX,
    ensures
        keys@.len() == 0 <==> r is Err,
        r matches Ok(o) ==> {
            let n = keys@.len() as int;
            let cells = o.width * o.height;
            &&& o.min_x == lowest(keys@, false, n)
            &&& o.min_y == lowest(keys@, true, n)
            &&& o.width == extent(keys@, false)
            &&& o.height == extent(keys@, true)
            &&& o.bits@.len() == (cells + 7) / 8
            &&& forall|idx: int|
                0 <= idx < 8 * o.bits@.len() ==> (bit_at(o.bits@, idx) <==> (idx < cells && marked(
                    keys@,
                    n,
                    o.min_x as int,
                    o.min_y as int,
                    o.width as int,
                    idx,
                )))
        },
{
    let count = keys.len();
    if count == 0 {
        return Err(OccupancyError::EmptyLevel);
    }
    let ghost ks = keys@;
    let mut min_x = keys[0].0;
    let mut max_x = keys[0].0;
    let mut min_y = keys[0].1;
    let mut max_y = keys[0].1;
    let mut i: usize = 1;
    while i < count
        invariant
            count == ks.len(),
            ks == keys@,
            1 <= i <= count,
            min_x == lowest(ks, false, i as int),
            max_x == highest(ks, false, i as int),
            min_y == lowest(ks, true, i as int),
            max_y == highest(ks, true, i as int),
        decreases count - i,
    {
        let (x, y) = keys[i];
        if x < min_x {
            min_x = x;
        }
        if x > max_x {
            max_x = x;
        }
        if y < min_y {
            min_y = y;
        }
        if y > max_y {
            max_y = y;
        }
        i = i + 1;
    }
    proof {
        lemma_bounds(ks, false, count as int);
        lemma_bounds(ks, true, count as int);
    }
    let width_i = max_x - min_x + 1;
    let height_i = max_y - min_y + 1;
    let width = width_i as u32;
    let height = height_i as u32;
    let cells: usize = width as usize * height as usize;
    let byte_count: usize = cells / 8 + if cells % 8 == 0 { 0 } else { 1 };
    assert(byte_count == (cells + 7) / 8);
    let mut bits: Vec<u8> = Vec::new();
    while bits.len() < byte_count
        invariant
            byte_count == (cells + 7) / 8,
            bits@.len() <= byte_count,
            forall|j: int| 0 <= j < bits@.len() ==> bits@[j] == 0u8,
        decreases byte_count - bits@.len(),
    {
        bits.push(0u8);
    }
    assert forall|idx: int| 0 <= idx < 8 * bits@.len() implies !bit_at(bits@, idx) by {
        lemma_zero_bits((idx % 8) as u8);
    }
    let mut i: usize = 0;
    while i < count
        invariant
            count == ks.len(),
            ks == keys@,
            i <= count,
            min_x == lowest(ks, false, count as int),
            min_y == lowest(ks, true, count as int),
            width == extent(ks, false),
            height == extent(ks, true),
            cells == width * height,
            bits@.len() == byte_count,
            byte_count == (cells + 7) / 8,
            forall|k: int|
                0 <= k < count ==> lowest(ks, false, count as int) <= #[trigger] coord(ks[k], false)
                    <= highest(ks, false, count as int),
            forall|k: int|
                0 <= k < count ==> lowest(ks, true, count as int) <= #[trigger] coord(ks[k], true)
                    <= highest(ks, true, count as int),
            forall|idx: int|
                0 <= idx < 8 * byte_count ==> (bit_at(bits@, idx) <==> (idx < cells && marked(
                    ks,
                    i as int,
                    min_x as int,
                    min_y as int,
                    width as int,
                    idx,
                ))),
        decreases count - i,
    {
        let (x, y) = keys[i];
        assert(coord(ks[i as int], false) == x);
        assert(coord(ks[i as int], true) == y);
        let gx: usize = (x as i64 - min_x as i64) as usize;
        let gy: usize = (y as i64 - min_y as i64) as usize;
        assert(gx < width && gy < height);
        assert(gy * width + gx < cells) by (nonlinear_arith)
            requires
                gx < width,
                gy < height,
                cells == width * height,
        {
            assert(gy * width <= (height - 1) * width);
        }
        let idx: usize = gy * (width as usize) + gx;
        assert(idx == cell_of(ks[i as int], min_x as int, min_y as int, width as int));
        let byte = idx / 8;
        let shift: u8 = (idx % 8) as u8;
        let ghost old_bits = bits@;
        let updated = bits[byte] | (1u8 << shift);
        bits.set(byte, updated);
        assert forall|j: int| 0 <= j < 8 * byte_count implies (bit_at(bits@, j) <==> (j < cells
            && marked(ks, i + 1, min_x as int, min_y as int, width as int, j))) by {
            let c = (j % 8) as u8;
            let was = bit_at(old_bits, j);
            assert(was <==> (j < cells && marked(ks, i as int, min_x as int, min_y as int, width as int, j)));
            if j / 8 == byte as int {
                lemma_set_bit(old_bits[byte as int], shift, c);
                assert(bits@[j / 8] == old_bits[byte as int] | (1u8 << shift));
                assert((shift == c) <==> (j == idx));
                assert(bit_at(bits@, j) <==> (was || j == idx));
            } else {
                assert(bits@[j / 8] == old_bits[j / 8]);
                assert(j != idx);
                assert(bit_at(bits@, j) <==> was);
            }
            lemma_marked_step(ks, i as int, min_x as int, min_y as int, width as int, j);
        }
        i = i + 1;
    }
    Ok(OccupancyBits { min_x, min_y, width, height, bits })
}

/// The name under which a minimap tile is written: a file named
/// `rader_*.dds` becomes `rader_*.png`; other files have none.
pub open spec fn minimap_output_name(file_path: Seq<char>) -> Option<Seq<char>> {
    match path_file_name(file_path) {
        Some(base) => if has_suffix(base, ".dds"@) && has_prefix(
            base.subrange(0, base.len() - 4),
            "rader_"@,
        ) {
            Some(base.subrange(0, base.len() - 4) + ".png"@)
        } else {
            None
        },
        None => None,
    }
}

/// The output name of a minimap tile taken from the archive.
pub fn output_name_for_entry(entry: &FileEntry) -> (r: Option<String>)
    ensures
        (match r {
            Some(s) => Some(s@),
            None => None,
        }) == minimap_output_name(entry.file_path@),
{
    let base = match file_name_of(entry.file_path.as_str()) {
        Some(b) => b,
        None => return None,
    };
    let name = base.as_str();
    if !ends_with_str(name, ".dds") {
        return None;
    }
    proof {
        reveal_strlit(".dds");
    }
    let stem = name.substring_char(0, name.unicode_len() - 4);
    if !starts_with_str(stem, "rader_") {
        return None;
    }
    let mut out = stem.to_owned();
    out.append(".png");
    Some(out)
}


/// The two parts of `s` around its one `_`, as `str::split('_')` gives
/// them where it gives exactly two; `None` for no `_` or more than one.
pub open spec fn two_parts(s: Seq<char>) -> Option<(Seq<char>, Seq<char>)> {
    match first_char(s, '_') {
        None => None,
        Some(k) => if exists|j: int| k < j < s.len() && s[j] == '_' {
            None
        } else {
            Some((s.subrange(0, k), s.subrange(k + 1, s.len() as int)))
        },
    }
}

fn split_two(s: &str) -> (r: Option<(&str, &str)>)
    ensures
        match two_parts(s@) {
            None => r is None,
            Some((a, b)) => r matches Some((x, y)) && x@ == a && y@ == b,
        },
{
    let n = s.unicode_len();
    let k = match find_char(s, '_') {
        Some(k) => k,
        None => {
            proof {
                assert(!exists|i: int| 0 <= i < s@.len() && s@[i] == '_');
            }
            return None;
        },
    };
    proof {
        crate::text::lemma_first_char(s@, '_', k as int);
    }
    let rest = s.substring_char(k + 1, n);
    match find_char(rest, '_') {
        Some(j) => {
            assert(s@[k + 1 + j] == rest@[j as int]);
            None
        },
        None => {
            assert forall|j: int| k < j < s@.len() implies s@[j] != '_' by {
                assert(rest@[j - k - 1] == s@[j]);
            }
            Some((s.substring_char(0, k), rest))
        },
    }
}

/// The tile coordinates that a stem `x_y` names, as `i32` numbers.
pub open spec fn coord_stem_spec(stem: Seq<char>) -> Option<(i32, i32)> {
    match two_parts(stem) {
        None => None,
        Some((a, b)) => match (parse_i32_spec(ascii_bytes(a)), parse_i32_spec(ascii_bytes(b))) {
            (Some(x), Some(y)) => Some((x, y)),
            _ => None,
        },
    }
}

/// Reads the coordinates of a terrain tile from its file stem `x_y`.
pub fn parse_coord_stem(stem: &str) -> (r: Option<(i32, i32)>)
    ensures
        r == coord_stem_spec(stem@),
{
    let (a, b) = match split_two(stem) {
        Some(p) => p,
        None => return None,
    };
    let x = match parse_i32_str(a) {
        Some(v) => v,
        None => return None,
    };
    let y = match parse_i32_str(b) {
        Some(v) => v,
        None => return None,
    };
    Some((x, y))
}

/// The stem of a file named `*.png`, where it is one.
pub open spec fn png_stem(name: Seq<char>) -> Option<Seq<char>> {
    if has_suffix(name, ".png"@) { Some(name.subrange(0, name.len() - 4)) } else { None }
}

fn strip_png(name: &str) -> (r: Option<&str>)
    ensures
        match png_stem(name@) {
            None => r is None,
            Some(t) => r matches Some(x) && x@ == t,
        },
{
    if !ends_with_str(name, ".png") {
        return None;
    }
    proof {
        reveal_strlit(".png");
    }
    Some(name.substring_char(0, name.unicode_len() - 4))
}

/// The coordinates of a mask tile named `x_y.png`.
pub fn parse_tile_name(name: &str) -> (r: Option<(i32, i32)>)
    ensures
        r == (match png_stem(name@) {
            Some(stem) => coord_stem_spec(stem),
            None => None,
        }),
{
    match strip_png(name) {
        Some(stem) => parse_coord_stem(stem),
        None => None,
    }
}

/// The coordinates of a display tile named `x_y.png`, as unsigned numbers.
pub open spec fn level_tile_spec(name: Seq<char>) -> Option<(u32, u32)> {
    match png_stem(name) {
        None => None,
        Some(stem) => match two_parts(stem) {
            None => None,
            Some((a, b)) => match (parse_u32_spec(ascii_bytes(a)), parse_u32_spec(ascii_bytes(b))) {
                (Some(x), Some(y)) => Some((x, y)),
                _ => None,
            },
        },
    }
}

/// The coordinates of a display tile named `x_y.png`.
pub fn parse_level_tile_name(name: &str) -> (r: Option<(u32, u32)>)
    ensures
        r == level_tile_spec(name@),
{
    let stem = match strip_png(name) {
        Some(s) => s,
        None => return None,
    };
    let (a, b) = match split_two(stem) {
        Some(p) => p,
        None => return None,
    };
    let x = match parse_u32_str(a) {
        Some(v) => v,
        None => return None,
    };
    let y = match parse_u32_str(b) {
        Some(v) => v,
        None => return None,
    };
    Some((x, y))
}


/// The name of mask tile `(x, y)`: `x_y.png`.
pub open spec fn tile_name_spec(x: i32, y: i32) -> Seq<char> {
    signed_decimal(x as int) + "_"@ + signed_decimal(y as int) + ".png"@
}

/// The file name of mask tile `(x, y)`.
pub fn tile_name(x: i32, y: i32) -> (r: String)
    ensures
        r@ == tile_name_spec(x, y),
{
    let mut out = String::new();
    push_signed_decimal(&mut out, x);
    out.append("_");
    push_signed_decimal(&mut out, y);
    out.append(".png");
    proof {
        reveal_strlit("_");
        reveal_strlit(".png");
    }
    out
}

/// A tile's name reads back as the tile: `parse_tile_name` of the name
/// that `tile_name` writes for `(x, y)` is `(x, y)`.
pub proof fn law_tile_name_round_trip(x: i32, y: i32)
    ensures
        (match png_stem(tile_name_spec(x, y)) {
            Some(stem) => coord_stem_spec(stem),
            None => None,
        }) == Some((x, y)),
{
    reveal_strlit("_");
    reveal_strlit(".png");
    let sx = signed_decimal(x as int);
    let sy = signed_decimal(y as int);
    lemma_signed_decimal_parses(x);
    lemma_signed_decimal_parses(y);
    let name = tile_name_spec(x, y);
    let stem = sx + "_"@ + sy;
    assert(name =~= stem + ".png"@);
    assert(name.subrange(name.len() - 4, name.len() as int) =~= ".png"@);
    assert(has_suffix(name, ".png"@));
    assert(name.subrange(0, name.len() - 4) =~= stem);
    let k = sx.len() as int;
    assert(stem[k] == '_');
    assert forall|j: int| 0 <= j < k implies stem[j] != '_' by {
        assert(stem[j] == sx[j]);
    }
    lemma_first_char(stem, '_', k);
    assert forall|j: int| k < j < stem.len() implies stem[j] != '_' by {
        assert(stem[j] == sy[j - k - 1]);
    }
    assert(stem.subrange(0, k) =~= sx);
    assert(stem.subrange(k + 1, stem.len() as int) =~= sy);
}


/// Why a minimap tile name could not be read, with the row it came from.
#[derive(Clone, Copy, Debug, PartialEq, Eq)]
pub enum MinimapTileNameError {
    /// The name is not `rader_<x>_<y>.png`.
    InvalidName(usize),
    /// The x coordinate is no `i32`.
    InvalidX(usize),
    /// The y coordinate is no `i32`.
    InvalidY(usize),
}

/// What reading minimap tile name `name` at row `row` gives: the stem of a
/// `.png` name after `rader_`, cut at its first `_`, both parts `i32`.
pub open spec fn minimap_tile_spec(name: Seq<char>, row: usize) -> Result<(i32, i32), MinimapTileNameError> {
    match png_stem(name) {
        None => Err(MinimapTileNameError::InvalidName(row)),
        Some(stem) => if !has_prefix(stem, "rader_"@) {
            Err(MinimapTileNameError::InvalidName(row))
        } else {
            let rest = stem.subrange(6, stem.len() as int);
            match first_char(rest, '_') {
                None => Err(MinimapTileNameError::InvalidName(row)),
                Some(k) => match parse_i32_spec(ascii_bytes(rest.subrange(0, k))) {
                    None => Err(MinimapTileNameError::InvalidX(row)),
                    Some(x) => match parse_i32_spec(ascii_bytes(rest.subrange(k + 1, rest.len() as int))) {
                        None => Err(MinimapTileNameError::InvalidY(row)),
                        Some(y) => Ok((x, y)),
                    },
                },
            }
        },
    }
}

/// Reads the tile coordinates of a minimap tile name `rader_<x>_<y>.png`
/// given at row `row_number` of a landmark table.
pub fn parse_minimap_tile_name(tile_name: &str, row_number: usize) -> (r: Result<(i32, i32), MinimapTileNameError>)
    ensures
        r == minimap_tile_spec(tile_name@, row_number),
{
    let stem = match strip_png(tile_name) {
        Some(s) => s,
        None => return Err(MinimapTileNameError::InvalidName(row_number)),
    };
    if !starts_with_str(stem, "rader_") {
        return Err(MinimapTileNameError::InvalidName(row_number));
    }
    proof {
        reveal_strlit("rader_");
    }
    let rest = stem.substring_char(6, stem.unicode_len());
    let k = match find_char(rest, '_') {
        Some(k) => k,
        None => {
            proof {
                assert(!exists|i: int| 0 <= i < rest@.len() && rest@[i] == '_');
            }
            return Err(MinimapTileNameError::InvalidName(row_number));
        },
    };
    proof {
        lemma_first_char(rest@, '_', k as int);
    }
    let x = match parse_i32_str(rest.substring_char(0, k)) {
        Some(v) => v,
        None => return Err(MinimapTileNameError::InvalidX(row_number)),
    };
    let y = match parse_i32_str(rest.substring_char(k + 1, rest.unicode_len())) {
        Some(v) => v,
        None => return Err(MinimapTileNameError::InvalidY(row_number)),
    };
    Ok((x, y))
}

} // verus!
