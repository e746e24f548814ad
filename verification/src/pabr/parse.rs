//! Reading RID and BKD files, and what a map's scanlines refer to.
use std::collections::BTreeSet;
use vstd::prelude::*;
use vstd::utf8::encode_utf8;
use crate::bytes::{u16_at, u32_at, u16_le_at, u32_le_at};
use crate::text::{lower_byte, ascii_lower_byte};
use super::{
    Breakpoint, RidFile, BkdFile, PabrMap, PabrInspect, PabrError, RID_FOOTER_LEN, BKD_TRAILER_LEN,
    INDEX_SENTINEL,
};

verus! {

broadcast use vstd::laws_cmp::group_laws_cmp, vstd::std_specs::btree::group_btree_axioms;

/// Whether `b` starts with the bytes `PABR`.
pub open spec fn has_pabr_magic(b: Seq<u8>) -> bool {
    b.len() >= 4 && b[0] == 0x50u8 && b[1] == 0x41u8 && b[2] == 0x42u8 && b[3] == 0x52u8
}

/// The ten bytes that open every RID footer.
pub open spec fn rid_footer_signature() -> Seq<u8> {
    seq![0x00u8, 0x00u8, 0x60u8, 0xFFu8, 0xFFu8, 0xFFu8, 0x78u8, 0x87u8, 0x00u8, 0x00u8]
}

/// What a RID file holds: its region ids, native width and height, and the
/// number of bytes between the dictionary and the footer.
pub open spec fn rid_spec(b: Seq<u8>) -> Result<(Seq<u16>, u32, u32, int), PabrError> {
    if b.len() < 8 + RID_FOOTER_LEN {
        Err(PabrError::RidTooSmall)
    } else if !has_pabr_magic(b) {
        Err(PabrError::RidMissingMagic)
    } else {
        let n = u32_at(b, 4) as int;
        let end = 8 + 2 * n;
        if end > usize::MAX {
            Err(PabrError::RidDictionaryOverflow)
        } else if end + RID_FOOTER_LEN > b.len() {
            Err(PabrError::RidDictionaryExceedsFile)
        } else {
            let f = b.len() - RID_FOOTER_LEN;
            if b.subrange(f, f + 10) != rid_footer_signature() {
                Err(PabrError::RidFooterSignature)
            } else {
                Ok((
                    Seq::new(n as nat, |i: int| u16_at(b, 8 + 2 * i)),
                    u16_at(b, f + 10) as u32,
                    u16_at(b, f + 14) as u32,
                    b.len() - end - RID_FOOTER_LEN,
                ))
            }
        }
    }
}

fn has_magic(bytes: &[u8]) -> (r: bool)
    requires
        bytes@.len() >= 4,
    ensures
        r == has_pabr_magic(bytes@),
{
    bytes[0] == 0x50u8 && bytes[1] == 0x41u8 && bytes[2] == 0x42u8 && bytes[3] == 0x52u8
}

impl RidFile {
    /// Reads a RID file.
    pub fn from_bytes(bytes: &[u8]) -> (r: Result<RidFile, PabrError>)
        ensures
            r is Ok <==> rid_spec(bytes@) is Ok,
            r matches Err(e) ==> rid_spec(bytes@) == Err::<(Seq<u16>, u32, u32, int), PabrError>(e),
            r matches Ok(rid) ==> rid_spec(bytes@) == Ok::<(Seq<u16>, u32, u32, int), PabrError>((
                rid.region_ids@,
                rid.native_width,
                rid.native_height,
                rid.trailer_prefix_len as int,
            )),
    {
        let ghost b = bytes@;
        if bytes.len() < 8 + RID_FOOTER_LEN {
            return Err(PabrError::RidTooSmall);
        }
        if !has_magic(bytes) {
            return Err(PabrError::RidMissingMagic);
        }
        let n = u32_le_at(bytes, 4) as usize;
        let dictionary_bytes = match n.checked_mul(2) {
            Some(v) => v,
            None => return Err(PabrError::RidDictionaryOverflow),
        };
        let dictionary_end = match dictionary_bytes.checked_add(8) {
            Some(v) => v,
            None => return Err(PabrError::RidDictionaryOverflow),
        };
        if dictionary_end > bytes.len() || bytes.len() - dictionary_end < RID_FOOTER_LEN {
            return Err(PabrError::RidDictionaryExceedsFile);
        }
        let f = bytes.len() - RID_FOOTER_LEN;
        let signature: [u8; 10] = [0x00, 0x00, 0x60, 0xFF, 0xFF, 0xFF, 0x78, 0x87, 0x00, 0x00];
        let mut i: usize = 0;
        let len = bytes.len();
        while i < 10
            invariant
                b == bytes@,
                len == b.len(),
                b.len() >= 8 + RID_FOOTER_LEN,
                has_pabr_magic(b),
                dictionary_end == 8 + 2 * u32_at(b, 4),
                dictionary_end + RID_FOOTER_LEN <= b.len(),
                f + RID_FOOTER_LEN == b.len(),
                signature@ == rid_footer_signature(),
                i <= 10,
                forall|j: int| 0 <= j < i ==> b[f + j] == rid_footer_signature()[j],
            decreases 10 - i,
        {
            if bytes[f + i] != signature[i] {
                assert(b.subrange(f as int, f + 10)[i as int] != rid_footer_signature()[i as int]);
                return Err(PabrError::RidFooterSignature);
            }
            i = i + 1;
        }
        assert(b.subrange(f as int, f + 10) =~= rid_footer_signature());
        let mut region_ids: Vec<u16> = Vec::new();
        let mut k: usize = 0;
        while k < n
            invariant
                b == bytes@,
                dictionary_end == 8 + 2 * n,
                dictionary_end <= b.len(),
                k <= n,
                region_ids@ =~= Seq::new(k as nat, |j: int| u16_at(b, 8 + 2 * j)),
            decreases n - k,
        {
            region_ids.push(u16_le_at(bytes, 8 + 2 * k));
            k = k + 1;
        }
        Ok(RidFile {
            region_ids,
            native_width: u16_le_at(bytes, f + 10) as u32,
            native_height: u16_le_at(bytes, f + 14) as u32,
            trailer_prefix_len: bytes.len() - dictionary_end - RID_FOOTER_LEN,
        })
    }
}

/// The `count` breakpoints stored from `start` on.
pub open spec fn bkd_row_spec(b: Seq<u8>, start: int, count: int) -> Seq<Breakpoint> {
    Seq::new(
        count as nat,
        |j: int|
            Breakpoint {
                source_x: u16_at(b, start + 4 * j),
                dictionary_index: u16_at(b, start + 4 * j + 2),
            },
    )
}

/// Whether the breakpoints of a row never go back in `source_x`.
pub open spec fn row_sorted(row: Seq<Breakpoint>) -> bool {
    forall|j: int| 0 < j < row.len() ==> row[j - 1].source_x <= (#[trigger] row[j]).source_x
}

/// Row `row_index`, read at `pos`, and the position after it.
pub open spec fn bkd_row_step(b: Seq<u8>, pos: int, row_index: int) -> Result<(Seq<Breakpoint>, int), PabrError> {
    if pos + 4 > b.len() {
        Err(PabrError::BkdRowHeaderExceedsFile(row_index as usize))
    } else {
        let count = u32_at(b, pos) as int;
        if 4 * count > usize::MAX {
            Err(PabrError::BkdRowLengthOverflow(row_index as usize))
        } else if pos + 4 + 4 * count > b.len() {
            Err(PabrError::BkdRowPayloadExceedsFile(row_index as usize))
        } else {
            let row = bkd_row_spec(b, pos + 4, count);
            if !row_sorted(row) {
                Err(PabrError::BkdRowNotSorted(row_index as usize))
            } else {
                Ok((row, pos + 4 + 4 * count))
            }
        }
    }
}

/// The first `i` rows of a BKD file and the position after them, or the
/// first error on the way.
pub open spec fn bkd_rows_state(b: Seq<u8>, i: nat) -> Result<(Seq<Seq<Breakpoint>>, int), PabrError>
    decreases i,
{
    if i == 0 {
        Ok((Seq::empty(), 8))
    } else {
        match bkd_rows_state(b, (i - 1) as nat) {
            Err(e) => Err(e),
            Ok((rows, pos)) => match bkd_row_step(b, pos, i - 1) {
                Err(e) => Err(e),
                Ok((row, next)) => Ok((rows.push(row), next)),
            },
        }
    }
}

/// The largest `source_x` of a row, 0 for an empty one.
pub open spec fn bp_max(s: Seq<Breakpoint>) -> u16
    decreases s.len(),
{
    if s.len() == 0 {
        0
    } else {
        let m = bp_max(s.drop_last());
        if m < s.last().source_x { s.last().source_x } else { m }
    }
}

/// The largest `source_x` of all rows, 0 where there is none.
pub open spec fn rows_max(rows: Seq<Seq<Breakpoint>>) -> u16
    decreases rows.len(),
{
    if rows.len() == 0 {
        0
    } else {
        let m = rows_max(rows.drop_last());
        let r = bp_max(rows.last());
        if m < r { r } else { m }
    }
}

/// What a BKD file holds: its rows, the three trailer words and the largest
/// `source_x`.
pub open spec fn bkd_spec(b: Seq<u8>) -> Result<(Seq<Seq<Breakpoint>>, Seq<u32>, u16), PabrError> {
    if b.len() < 8 + BKD_TRAILER_LEN {
        Err(PabrError::BkdTooSmall)
    } else if !has_pabr_magic(b) {
        Err(PabrError::BkdMissingMagic)
    } else {
        match bkd_rows_state(b, u32_at(b, 4) as nat) {
            Err(e) => Err(e),
            Ok((rows, pos)) => if pos + BKD_TRAILER_LEN != b.len() {
                Err(PabrError::BkdFooterLengthMismatch(if pos <= b.len() { (b.len() - pos) as usize } else { 0 }))
            } else if u32_at(b, pos + 4) != pos as u32 {
                Err(PabrError::BkdFooterOffsetMismatch(u32_at(b, pos + 4), pos as usize))
            } else {
                Ok((rows, seq![u32_at(b, pos), u32_at(b, pos + 4), u32_at(b, pos + 8)], rows_max(rows)))
            },
        }
    }
}

/// The rows read so far are as many as asked for, each sorted.
proof fn lemma_rows_state_shape(b: Seq<u8>, i: nat)
    ensures
        bkd_rows_state(b, i) matches Ok((rows, _)) ==> rows.len() == i && forall|k: int| 0 <= k < i ==> row_sorted(#[trigger] rows[k]),
    decreases i,
{
    if i > 0 {
        lemma_rows_state_shape(b, (i - 1) as nat);
        if let Ok((rows, pos)) = bkd_rows_state(b, (i - 1) as nat) {
            if let Ok((row, next)) = bkd_row_step(b, pos, i - 1) {
                let all = rows.push(row);
                assert forall|k: int| 0 <= k < i implies row_sorted(#[trigger] all[k]) by {
                    if k < i - 1 {
                        assert(all[k] == rows[k]);
                    }
                }
            }
        }
    }
}

/// The largest `source_x` of a row bounds all of them and is one of them,
/// or 0.
proof fn lemma_bp_max(s: Seq<Breakpoint>)
    ensures
        forall|j: int| 0 <= j < s.len() ==> #[trigger] s[j].source_x <= bp_max(s),
        bp_max(s) == 0 || exists|j: int| 0 <= j < s.len() && #[trigger] s[j].source_x == bp_max(s),
    decreases s.len(),
{
    if s.len() > 0 {
        let t = s.drop_last();
        lemma_bp_max(t);
        assert forall|j: int| 0 <= j < s.len() implies #[trigger] s[j].source_x <= bp_max(s) by {
            if j < s.len() - 1 {
                assert(s[j] == t[j]);
            }
        }
        if bp_max(s) != 0 && bp_max(s) != s.last().source_x {
            let j = choose|j: int| 0 <= j < t.len() && #[trigger] t[j].source_x == bp_max(t);
            assert(s[j] == t[j]);
        }
    }
}

/// The largest `source_x` of all rows bounds all of them and is one of
/// them, or 0.
proof fn lemma_rows_max(rows: Seq<Seq<Breakpoint>>)
    ensures
        forall|i: int, j: int| 0 <= i < rows.len() && 0 <= j < rows[i].len() ==> #[trigger] rows[i][j].source_x <= rows_max(rows),
        rows_max(rows) == 0 || exists|i: int, j: int| 0 <= i < rows.len() && 0 <= j < rows[i].len() && #[trigger] rows[i][j].source_x == rows_max(rows),
    decreases rows.len(),
{
    if rows.len() > 0 {
        let t = rows.drop_last();
        let l = rows.last();
        lemma_rows_max(t);
        lemma_bp_max(l);
        assert forall|i: int, j: int| 0 <= i < rows.len() && 0 <= j < rows[i].len() implies #[trigger] rows[i][j].source_x <= rows_max(rows) by {
            if i < rows.len() - 1 {
                assert(rows[i] == t[i]);
            } else {
                assert(rows[i] == l);
            }
        }
        if rows_max(rows) != 0 {
            if rows_max(rows) == bp_max(l) {
                let j = choose|j: int| 0 <= j < l.len() && #[trigger] l[j].source_x == bp_max(l);
                assert(rows[rows.len() - 1][j].source_x == rows_max(rows));
            } else {
                let (i, j) = choose|i: int, j: int| 0 <= i < t.len() && 0 <= j < t[i].len() && #[trigger] t[i][j].source_x == rows_max(t);
                assert(rows[i] == t[i]);
                assert(rows[i][j].source_x == rows_max(rows));
            }
        }
    }
}

/// What a BKD file that reads holds: as many rows as its header says, each
/// sorted, and their largest `source_x`.
proof fn lemma_bkd_shape(b: Seq<u8>)
    ensures
        bkd_spec(b) matches Ok((rows, _, m)) ==> {
            &&& rows.len() == u32_at(b, 4)
            &&& forall|k: int| 0 <= k < rows.len() ==> row_sorted(#[trigger] rows[k])
            &&& m == rows_max(rows)
        },
{
    lemma_rows_state_shape(b, u32_at(b, 4) as nat);
}

/// The rows of `rows` as sequences.
pub open spec fn rows_view(rows: Seq<Vec<Breakpoint>>) -> Seq<Seq<Breakpoint>> {
    rows.map_values(|r: Vec<Breakpoint>| r@)
}

proof fn lemma_state_err_persists(b: Seq<u8>, i: nat, j: nat, e: PabrError)
    requires
        i <= j,
        bkd_rows_state(b, i) == Err::<(Seq<Seq<Breakpoint>>, int), PabrError>(e),
    ensures
        bkd_rows_state(b, j) == Err::<(Seq<Seq<Breakpoint>>, int), PabrError>(e),
    decreases j - i,
{
    if i < j {
        lemma_state_err_persists(b, i, (j - 1) as nat, e);
    }
}

/// Reads row `row_index` at `pos`; gives the row, the position after it
/// and its largest `source_x`.
fn parse_bkd_row(bytes: &[u8], pos: usize, row_index: usize) -> (r: Result<(Vec<Breakpoint>, usize, u16), PabrError>)
    requires
        pos <= bytes@.len(),
    ensures
        match bkd_row_step(bytes@, pos as int, row_index as int) {
            Ok((row, next)) => r matches Ok((v, nx, m)) && v@ == row && nx == next && m == bp_max(row),
            Err(e) => r == Err::<(Vec<Breakpoint>, usize, u16), PabrError>(e),
        },
{
    let ghost b = bytes@;
    if bytes.len() - pos < 4 {
        return Err(PabrError::BkdRowHeaderExceedsFile(row_index));
    }
    let count = u32_le_at(bytes, pos) as usize;
    let pair_bytes = match count.checked_mul(4) {
        Some(v) => v,
        None => return Err(PabrError::BkdRowLengthOverflow(row_index)),
    };
    let start = pos + 4;
    if bytes.len() - start < pair_bytes {
        return Err(PabrError::BkdRowPayloadExceedsFile(row_index));
    }
    let ghost full = bkd_row_spec(b, start as int, count as int);
    let mut row: Vec<Breakpoint> = Vec::new();
    let mut previous_x: u16 = 0;
    let mut max_x: u16 = 0;
    let mut j: usize = 0;
    let len = bytes.len();
    while j < count
        invariant
            b == bytes@,
            len == b.len(),
            start == pos + 4,
            pos + 4 <= b.len(),
            count == u32_at(b, pos as int),
            pair_bytes == 4 * count,
            start + pair_bytes <= b.len(),
            full == bkd_row_spec(b, start as int, count as int),
            j <= count,
            row@ == full.take(j as int),
            row_sorted(row@),
            max_x == bp_max(row@),
            j > 0 ==> previous_x == row@[j - 1].source_x,
        decreases count - j,
    {
        let offset = start + j * 4;
        let source_x = u16_le_at(bytes, offset);
        let dictionary_index = u16_le_at(bytes, offset + 2);
        assert(full[j as int] == Breakpoint { source_x, dictionary_index });
        if j > 0 && source_x < previous_x {
            assert(full[j - 1] == row@[j - 1]);
            assert(!row_sorted(full));
            return Err(PabrError::BkdRowNotSorted(row_index));
        }
        let bp = Breakpoint { source_x, dictionary_index };
        let ghost before = row@;
        row.push(bp);
        assert(row@.drop_last() =~= before);
        assert(row@ =~= full.take(j + 1));
        previous_x = source_x;
        if max_x < source_x {
            max_x = source_x;
        }
        j = j + 1;
    }
    assert(row@ =~= full);
    Ok((row, start + pair_bytes, max_x))
}

impl BkdFile {
    /// Reads a BKD file.
    pub fn from_bytes(bytes: &[u8]) -> (r: Result<BkdFile, PabrError>)
        ensures
            r is Ok <==> bkd_spec(bytes@) is Ok,
            r matches Err(e) ==> bkd_spec(bytes@) == Err::<(Seq<Seq<Breakpoint>>, Seq<u32>, u16), PabrError>(e),
            r matches Ok(bkd) ==> bkd_spec(bytes@) == Ok::<(Seq<Seq<Breakpoint>>, Seq<u32>, u16), PabrError>((
                rows_view(bkd.rows@),
                bkd.trailer_words@,
                bkd.max_source_x,
            )),
            r matches Ok(bkd) ==> bkd.rows@.len() == u32_at(bytes@, 4),
            r matches Ok(bkd) ==> forall|i: int| 0 <= i < bkd.rows@.len() ==> row_sorted(#[trigger] bkd.rows@[i]@),
            r matches Ok(bkd) ==> forall|i: int, j: int| 0 <= i < bkd.rows@.len() && 0 <= j < bkd.rows@[i]@.len()
                ==> #[trigger] bkd.rows@[i]@[j].source_x <= bkd.max_source_x,
            r matches Ok(bkd) ==> bkd.max_source_x == 0 || exists|i: int, j: int| 0 <= i < bkd.rows@.len() && 0 <= j < bkd.rows@[i]@.len()
                && #[trigger] bkd.rows@[i]@[j].source_x == bkd.max_source_x,
    {
        proof {
            lemma_bkd_shape(bytes@);
            if let Ok((rows, _, _)) = bkd_spec(bytes@) {
                lemma_rows_max(rows);
            }
        }
        let ghost b = bytes@;
        if bytes.len() < 8 + BKD_TRAILER_LEN {
            return Err(PabrError::BkdTooSmall);
        }
        if !has_magic(bytes) {
            return Err(PabrError::BkdMissingMagic);
        }
        let row_count = u32_le_at(bytes, 4) as usize;
        let mut rows: Vec<Vec<Breakpoint>> = Vec::new();
        let mut position: usize = 8;
        let mut max_source_x: u16 = 0;
        let mut row_index: usize = 0;
        assert(rows_view(rows@) =~= Seq::<Seq<Breakpoint>>::empty());
        while row_index < row_count
            invariant
                b == bytes@,
                b.len() >= 8 + BKD_TRAILER_LEN,
                has_pabr_magic(b),
                row_count == u32_at(b, 4),
                row_index <= row_count,
                bkd_rows_state(b, row_index as nat) == Ok::<(Seq<Seq<Breakpoint>>, int), PabrError>((rows_view(rows@), position as int)),
                position <= b.len(),
                max_source_x == rows_max(rows_view(rows@)),
            decreases row_count - row_index,
        {
            match parse_bkd_row(bytes, position, row_index) {
                Err(e) => {
                    proof {
                        lemma_state_err_persists(b, (row_index + 1) as nat, row_count as nat, e);
                    }
                    return Err(e);
                },
                Ok((row, next, row_max)) => {
                    let ghost before = rows@;
                    rows.push(row);
                    assert(rows_view(rows@) =~= rows_view(before).push(row@));
                    assert(rows_view(rows@).drop_last() =~= rows_view(before));
                    position = next;
                    if max_source_x < row_max {
                        max_source_x = row_max;
                    }
                },
            }
            row_index = row_index + 1;
        }
        if bytes.len() - position != BKD_TRAILER_LEN {
            return Err(PabrError::BkdFooterLengthMismatch(bytes.len() - position));
        }
        let w0 = u32_le_at(bytes, position);
        let w1 = u32_le_at(bytes, position + 4);
        let w2 = u32_le_at(bytes, position + 8);
        let position_word: u32 = #[verifier::truncate] (position as u32);
        if w1 != position_word {
            return Err(PabrError::BkdFooterOffsetMismatch(w1, position));
        }
        let trailer_words = [w0, w1, w2];
        assert(trailer_words@ =~= seq![w0, w1, w2]);
        let bkd = BkdFile { rows, trailer_words, max_source_x };
        proof {
            let rv = rows_view(bkd.rows@);
            lemma_rows_max(rv);
            assert forall|i: int| 0 <= i < bkd.rows@.len() implies #[trigger] bkd.rows@[i]@ == rv[i] by {}
            assert forall|i: int, j: int| 0 <= i < bkd.rows@.len() && 0 <= j < bkd.rows@[i]@.len()
                implies #[trigger] bkd.rows@[i]@[j].source_x <= bkd.max_source_x by {
                assert(bkd.rows@[i]@ == rv[i]);
                assert(rv[i][j].source_x <= rows_max(rv));
            }
            if bkd.max_source_x != 0 {
                let (i, j) = choose|i: int, j: int| 0 <= i < rv.len() && 0 <= j < rv[i].len() && #[trigger] rv[i][j].source_x == rows_max(rv);
                assert(bkd.rows@[i]@ == rv[i]);
                assert(bkd.rows@[i]@[j].source_x == bkd.max_source_x);
            }
        }
        Ok(bkd)
    }
}

/// Whether breakpoint `k` of row `r` exists.
pub open spec fn bp_at(rows: Seq<Seq<Breakpoint>>, r: int, k: int) -> bool {
    0 <= r < rows.len() && 0 <= k < rows[r].len()
}

/// Whether position `(r2, k2)` comes before `(r, k)` in scan order.
pub open spec fn scan_before(r2: int, k2: int, r: int, k: int) -> bool {
    r2 < r || (r2 == r && k2 < k)
}

/// Whether a breakpoint is transparent or indexes a dictionary of `n`.
pub open spec fn index_ok(bp: Breakpoint, n: int) -> bool {
    bp.dictionary_index == INDEX_SENTINEL || (bp.dictionary_index as int) < n
}

/// Whether every breakpoint before `(r, k)` is transparent or in range.
pub open spec fn indices_ok_before(rows: Seq<Seq<Breakpoint>>, n: int, r: int, k: int) -> bool {
    forall|r2: int, k2: int|
        #![trigger rows[r2][k2]]
        bp_at(rows, r2, k2) && scan_before(r2, k2, r, k) ==> index_ok(rows[r2][k2], n)
}

/// Whether every breakpoint is transparent or in range.
pub open spec fn indices_ok(rows: Seq<Seq<Breakpoint>>, n: int) -> bool {
    indices_ok_before(rows, n, rows.len() as int, 0)
}

/// Whether `(r, k)` is the first breakpoint, in scan order, whose index is
/// out of range.
pub open spec fn first_bad_index(rows: Seq<Seq<Breakpoint>>, n: int, r: int, k: int) -> bool {
    bp_at(rows, r, k) && !index_ok(rows[r][k], n) && indices_ok_before(rows, n, r, k)
}

/// The dictionary indices used before `(r, k)`.
pub open spec fn used_indices_before(rows: Seq<Seq<Breakpoint>>, r: int, k: int) -> Set<usize> {
    Set::new(
        |i: usize|
            exists|r2: int, k2: int|
                #![trigger rows[r2][k2]]
                bp_at(rows, r2, k2) && scan_before(r2, k2, r, k) && rows[r2][k2].dictionary_index != INDEX_SENTINEL
                    && rows[r2][k2].dictionary_index as usize == i,
    )
}

/// The region ids that the breakpoints before `(r, k)` refer to.
pub open spec fn used_ids_before(rows: Seq<Seq<Breakpoint>>, ids: Seq<u16>, r: int, k: int) -> Set<u16> {
    Set::new(
        |id: u16|
            exists|r2: int, k2: int|
                #![trigger rows[r2][k2]]
                bp_at(rows, r2, k2) && scan_before(r2, k2, r, k) && rows[r2][k2].dictionary_index != INDEX_SENTINEL
                    && ids[rows[r2][k2].dictionary_index as int] == id,
    )
}

/// The dictionary indices that the rows use.
pub open spec fn used_indices(rows: Seq<Seq<Breakpoint>>) -> Set<usize> {
    used_indices_before(rows, rows.len() as int, 0)
}

/// The region ids that the rows refer to.
pub open spec fn used_ids(rows: Seq<Seq<Breakpoint>>, ids: Seq<u16>) -> Set<u16> {
    used_ids_before(rows, ids, rows.len() as int, 0)
}

/// The region ids that rows whose indices are all in range use are finite:
/// each is an entry of the dictionary.
pub proof fn lemma_used_ids_finite(rows: Seq<Seq<Breakpoint>>, ids: Seq<u16>)
    requires
        indices_ok(rows, ids.len() as int),
    ensures
        used_ids(rows, ids).finite(),
        used_ids(rows, ids).subset_of(ids.to_set()),
{
    let u = used_ids(rows, ids);
    assert forall|id: u16| u.contains(id) implies ids.to_set().contains(id) by {
        let (r2, k2) = choose|r2: int, k2: int|
            #![trigger rows[r2][k2]]
            bp_at(rows, r2, k2) && scan_before(r2, k2, rows.len() as int, 0) && rows[r2][k2].dictionary_index != INDEX_SENTINEL
                && ids[rows[r2][k2].dictionary_index as int] == id;
        assert(index_ok(rows[r2][k2], ids.len() as int));
        assert(ids.contains(id));
    }
    vstd::seq_lib::seq_to_set_is_finite(ids);
    vstd::set_lib::lemma_set_subset_finite(ids.to_set(), u);
}

/// The count of used region ids that an inspection reports is the number of
/// ids in the set that `used_region_ids` gives: a set of `u32` that holds
/// exactly the used ids, each widened from `u16`, is as large as they are.
pub proof fn law_inspected_used_count_is_used_set_size(rows: Seq<Seq<Breakpoint>>, ids: Seq<u16>, set: Set<u32>)
    requires
        indices_ok(rows, ids.len() as int),
        forall|v: u32| #[trigger] set.contains(v) <==> (v <= 0xFFFF && used_ids(rows, ids).contains(v as u16)),
    ensures
        set.finite(),
        set.len() == used_ids(rows, ids).len(),
{
    let u = used_ids(rows, ids);
    lemma_used_ids_finite(rows, ids);
    let f = |x: u16| x as u32;
    assert(u.map(f) =~= set) by {
        assert forall|v: u32| set.contains(v) implies u.map(f).contains(v) by {
            let x = v as u16;
            assert(u.contains(x) && f(x) == v);
        }
        assert forall|v: u32| u.map(f).contains(v) implies set.contains(v) by {
            let x = choose|x: u16| u.contains(x) && f(x) == v;
            assert(v <= 0xFFFF && v as u16 == x);
        }
    }
    assert(vstd::relations::injective_on(f, u)) by {
        assert forall|a: u16, b: u16| u.contains(a) && u.contains(b) && #[trigger] f(a) == #[trigger] f(b) implies a == b by {}
    }
    vstd::set_lib::lemma_map_size(u, set, f);
}

/// The number of transparent breakpoints in a row.
pub open spec fn row_sentinels(row: Seq<Breakpoint>) -> nat
    decreases row.len(),
{
    if row.len() == 0 {
        0
    } else {
        row_sentinels(row.drop_last()) + if row.last().dictionary_index == INDEX_SENTINEL { 1nat } else { 0nat }
    }
}

/// The number of transparent breakpoints in all rows.
pub open spec fn rows_sentinels(rows: Seq<Seq<Breakpoint>>) -> nat
    decreases rows.len(),
{
    if rows.len() == 0 {
        0
    } else {
        rows_sentinels(rows.drop_last()) + row_sentinels(rows.last())
    }
}

proof fn lemma_row_sentinels_prefix(row: Seq<Breakpoint>, k: int)
    requires
        0 <= k <= row.len(),
    ensures
        row_sentinels(row.take(k)) <= row_sentinels(row),
    decreases row.len() - k,
{
    if k < row.len() {
        lemma_row_sentinels_prefix(row, k + 1);
        assert(row.take(k + 1).drop_last() =~= row.take(k));
    } else {
        assert(row.take(k) =~= row);
    }
}

proof fn lemma_rows_sentinels_prefix(rows: Seq<Seq<Breakpoint>>, r: int)
    requires
        0 <= r <= rows.len(),
    ensures
        rows_sentinels(rows.take(r)) <= rows_sentinels(rows),
    decreases rows.len() - r,
{
    if r < rows.len() {
        lemma_rows_sentinels_prefix(rows, r + 1);
        assert(rows.take(r + 1).drop_last() =~= rows.take(r));
    } else {
        assert(rows.take(r) =~= rows);
    }
}

/// Whether `text` spells `word` (given in lower case) up to ASCII case.
pub open spec fn is_ascii_word(text: Seq<char>, word: Seq<char>) -> bool {
    encode_utf8(text).map_values(|b: u8| lower_byte(b)) == encode_utf8(word)
}

proof fn lemma_lower_word_fixed(word: Seq<char>)
    requires
        forall|i: int| 0 <= i < word.len() ==> 'a' <= #[trigger] word[i] <= 'z',
    ensures
        encode_utf8(word).map_values(|b: u8| lower_byte(b)) == encode_utf8(word),
{
    assert(vstd::utf8::is_ascii_chars(word));
    vstd::utf8::is_ascii_chars_encode_utf8(word);
    assert forall|i: int| 0 <= i < encode_utf8(word).len() implies lower_byte(#[trigger] encode_utf8(word)[i]) == encode_utf8(word)[i] by {
        assert(word[i] as u8 == encode_utf8(word)[i]);
    }
    assert(encode_utf8(word).map_values(|b: u8| lower_byte(b)) =~= encode_utf8(word));
}

/// Whether `text` equals `word` (a lower-case ASCII literal) up to ASCII case.
fn eq_ignore_ascii_case(text: &str, word: &str) -> (r: bool)
    requires
        encode_utf8(word@).map_values(|b: u8| lower_byte(b)) == encode_utf8(word@),
    ensures
        r == is_ascii_word(text@, word@),
{
    let t = text.as_bytes();
    let w = word.as_bytes();
    if t.len() != w.len() {
        assert(encode_utf8(text@).map_values(|b: u8| lower_byte(b)).len() != encode_utf8(word@).len());
        return false;
    }
    let mut i: usize = 0;
    while i < t.len()
        invariant
            t@ == encode_utf8(text@),
            w@ == encode_utf8(word@),
            t@.len() == w@.len(),
            i <= t@.len(),
            forall|j: int| 0 <= j < i ==> lower_byte(#[trigger] t@[j]) == w@[j],
        decreases t@.len() - i,
    {
        if ascii_lower_byte(t[i]) != w[i] {
            assert(encode_utf8(text@).map_values(|b: u8| lower_byte(b))[i as int] != encode_utf8(word@)[i as int]);
            return false;
        }
        i = i + 1;
    }
    assert(encode_utf8(text@).map_values(|b: u8| lower_byte(b)) =~= encode_utf8(word@));
    true
}

/// The extension that `std::path::Path::extension` finds in `path`, as
/// text; `None` where it finds none.
pub uninterp spec fn path_extension(path: Seq<char>) -> Option<Seq<char>>;

/// The extension of a path, by `std::path::Path::extension`.
#[verifier::external_body]
fn extension_of(path: &str) -> (r: Option<String>)
    ensures
        r matches Some(e) ==> path_extension(path@) == Some(e@),
        r is None ==> path_extension(path@) is None,
{
    match std::path::Path::new(path).extension() {
        Some(ext) => match ext.to_str() {
            Some(text) => Some(text.to_owned()),
            None => None,
        },
        None => None,
    }
}

/// The path that `std::path::Path::with_extension` makes of `path` and `ext`.
pub uninterp spec fn path_with_extension(path: Seq<char>, ext: Seq<char>) -> Seq<char>;

/// A path with its extension replaced, by `std::path::Path::with_extension`,
/// which panics on an extension that holds a path separator.
#[verifier::external_body]
fn with_extension(path: &str, ext: &str) -> (r: String)
    requires
        !ext@.contains('/'),
        !ext@.contains('\\'),
    ensures
        r@ == path_with_extension(path@, ext@),
{
    std::path::Path::new(path).with_extension(ext).to_string_lossy().into_owned()
}

impl PabrMap {
    /// The map's rows as sequences.
    pub open spec fn rows(&self) -> Seq<Seq<Breakpoint>> {
        rows_view(self.bkd.rows@)
    }

    /// The region id of a dictionary entry.
    pub fn region_id_for_dictionary_index(&self, dictionary_index: u16) -> (r: Result<u16, PabrError>)
        ensures
            (dictionary_index as int) < self.rid.region_ids@.len() ==> r == Ok::<u16, PabrError>(self.rid.region_ids@[dictionary_index as int]),
            (dictionary_index as int) >= self.rid.region_ids@.len() ==> r == Err::<u16, PabrError>(
                PabrError::DictionaryIndexOutOfRange(dictionary_index as usize, self.rid.region_ids@.len() as usize)),
    {
        let index = dictionary_index as usize;
        if index < self.rid.region_ids.len() {
            Ok(self.rid.region_ids[index])
        } else {
            Err(PabrError::DictionaryIndexOutOfRange(index, self.rid.region_ids.len()))
        }
    }

    /// How many times the scanlines wrap around the native width.
    pub fn band_count(&self) -> (r: Result<usize, PabrError>)
        ensures
            self.rid.native_width == 0 ==> r == Err::<usize, PabrError>(PabrError::ZeroNativeWidth),
            self.rid.native_width != 0 ==> (r matches Ok(v) && v == self.bkd.max_source_x as int / self.rid.native_width as int + 1),
    {
        if self.rid.native_width == 0 {
            return Err(PabrError::ZeroNativeWidth);
        }
        Ok(((self.bkd.max_source_x as u32) / self.rid.native_width) as usize + 1)
    }

    /// The dictionary indices and region ids that the scanlines use, and the
    /// number of transparent breakpoints; the first index out of range, in
    /// scan order, is an error.
    pub fn used_region_indices_and_ids(&self) -> (r: Result<(BTreeSet<usize>, BTreeSet<u16>, usize), PabrError>)
        requires
            rows_sentinels(self.rows()) <= usize::MAX,
        ensures
            r is Ok <==> indices_ok(self.rows(), self.rid.region_ids@.len() as int),
            r matches Err(e) ==> exists|rr: int, k: int|
                first_bad_index(self.rows(), self.rid.region_ids@.len() as int, rr, k)
                && e == PabrError::DictionaryIndexOutOfRange(
                    #[trigger] self.rows()[rr][k].dictionary_index as usize,
                    self.rid.region_ids@.len() as usize,
                ),
            r matches Ok((indices, ids, transparent)) ==> {
                &&& indices@ == used_indices(self.rows())
                &&& ids@ == used_ids(self.rows(), self.rid.region_ids@)
                &&& transparent == rows_sentinels(self.rows())
            },
    {
        let ghost rows = self.rows();
        let ghost n = self.rid.region_ids@.len() as int;
        let ghost ids_view = self.rid.region_ids@;
        let mut used_dictionary_entries: BTreeSet<usize> = BTreeSet::new();
        let mut used_region_ids: BTreeSet<u16> = BTreeSet::new();
        let mut transparent_breakpoints: usize = 0;
        let mut r: usize = 0;
        assert(used_dictionary_entries@ =~= used_indices_before(rows, 0, 0));
        assert(used_region_ids@ =~= used_ids_before(rows, ids_view, 0, 0));
        assert(rows.take(0) =~= Seq::<Seq<Breakpoint>>::empty());
        while r < self.bkd.rows.len()
            invariant
                rows == self.rows(),
                n == self.rid.region_ids@.len(),
                ids_view == self.rid.region_ids@,
                rows_sentinels(rows) <= usize::MAX,
                r <= rows.len(),
                indices_ok_before(rows, n, r as int, 0),
                used_dictionary_entries@ == used_indices_before(rows, r as int, 0),
                used_region_ids@ == used_ids_before(rows, ids_view, r as int, 0),
                transparent_breakpoints == rows_sentinels(rows.take(r as int)),
            decreases rows.len() - r,
        {
            let row = &self.bkd.rows[r];
            assert(row@ == rows[r as int]);
            let mut k: usize = 0;
            assert(rows[r as int].take(0) =~= Seq::<Breakpoint>::empty());
            assert(used_dictionary_entries@ =~= used_indices_before(rows, r as int, 0));
            while k < row.len()
                invariant
                    rows == self.rows(),
                    n == self.rid.region_ids@.len(),
                    ids_view == self.rid.region_ids@,
                    rows_sentinels(rows) <= usize::MAX,
                    r < rows.len(),
                    row@ == rows[r as int],
                    k <= row@.len(),
                    indices_ok_before(rows, n, r as int, k as int),
                    used_dictionary_entries@ == used_indices_before(rows, r as int, k as int),
                    used_region_ids@ == used_ids_before(rows, ids_view, r as int, k as int),
                    transparent_breakpoints == rows_sentinels(rows.take(r as int)) + row_sentinels(rows[r as int].take(k as int)),
                decreases row@.len() - k,
            {
                let bp = row[k];
                assert(rows[r as int][k as int] == bp);
                assert(rows[r as int].take(k + 1).drop_last() =~= rows[r as int].take(k as int));
                if bp.dictionary_index == INDEX_SENTINEL {
                    proof {
                        lemma_row_sentinels_prefix(rows[r as int], k + 1);
                        lemma_rows_sentinels_prefix(rows, r + 1);
                        assert(rows.take(r + 1).drop_last() =~= rows.take(r as int));
                    }
                    transparent_breakpoints = transparent_breakpoints + 1;
                    assert(used_dictionary_entries@ =~= used_indices_before(rows, r as int, k + 1));
                    assert(used_region_ids@ =~= used_ids_before(rows, ids_view, r as int, k + 1));
                } else {
                    let index = bp.dictionary_index as usize;
                    if index >= self.rid.region_ids.len() {
                        assert(first_bad_index(rows, n, r as int, k as int));
                        return Err(PabrError::DictionaryIndexOutOfRange(index, self.rid.region_ids.len()));
                    }
                    let region_id = self.rid.region_ids[index];
                    used_dictionary_entries.insert(index);
                    used_region_ids.insert(region_id);
                    assert(used_dictionary_entries@ =~= used_indices_before(rows, r as int, k + 1));
                    assert(used_region_ids@ =~= used_ids_before(rows, ids_view, r as int, k + 1));
                }
                k = k + 1;
            }
            assert(rows[r as int].take(row@.len() as int) =~= rows[r as int]);
            assert(rows.take(r + 1).drop_last() =~= rows.take(r as int));
            assert(used_dictionary_entries@ =~= used_indices_before(rows, r + 1, 0));
            assert(used_region_ids@ =~= used_ids_before(rows, ids_view, r + 1, 0));
            r = r + 1;
        }
        assert(rows.take(rows.len() as int) =~= rows);
        Ok((used_dictionary_entries, used_region_ids, transparent_breakpoints))
    }

    /// The counts that describe the map.
    pub fn inspect(&self) -> (r: Result<PabrInspect, PabrError>)
        requires
            rows_sentinels(self.rows()) <= usize::MAX,
        ensures
            !indices_ok(self.rows(), self.rid.region_ids@.len() as int) ==> exists|rr: int, k: int|
                first_bad_index(self.rows(), self.rid.region_ids@.len() as int, rr, k)
                && r == Err::<PabrInspect, PabrError>(PabrError::DictionaryIndexOutOfRange(
                    #[trigger] self.rows()[rr][k].dictionary_index as usize,
                    self.rid.region_ids@.len() as usize,
                )),
            indices_ok(self.rows(), self.rid.region_ids@.len() as int) && self.rid.native_width == 0
                ==> r == Err::<PabrInspect, PabrError>(PabrError::ZeroNativeWidth),
            indices_ok(self.rows(), self.rid.region_ids@.len() as int) && self.rid.native_width != 0 ==> (r matches Ok(ins) && {
                &&& ins.dictionary_entries == self.rid.region_ids@.len()
                &&& ins.scanline_rows == self.bkd.rows@.len()
                &&& ins.native_width == self.rid.native_width
                &&& ins.native_height == self.rid.native_height
                &&& ins.wrapped_bands == self.bkd.max_source_x as int / self.rid.native_width as int + 1
                &&& ins.used_dictionary_entries == used_indices(self.rows()).len()
                &&& ins.used_region_ids == used_ids(self.rows(), self.rid.region_ids@).len()
                &&& ins.transparent_breakpoints == rows_sentinels(self.rows())
                &&& ins.max_source_x == self.bkd.max_source_x
                &&& ins.rid_trailer_prefix_len == self.rid.trailer_prefix_len
                &&& ins.bkd_trailer_words == self.bkd.trailer_words
            }),
    {
        let (used_dictionary_entries, used_region_ids, transparent_breakpoints) = match self.used_region_indices_and_ids() {
            Ok(v) => v,
            Err(e) => return Err(e),
        };
        let wrapped_bands = match self.band_count() {
            Ok(v) => v,
            Err(e) => return Err(e),
        };
        Ok(PabrInspect {
            dictionary_entries: self.rid.region_ids.len(),
            scanline_rows: self.bkd.rows.len(),
            native_width: self.rid.native_width,
            native_height: self.rid.native_height,
            wrapped_bands,
            used_dictionary_entries: used_dictionary_entries.len(),
            used_region_ids: used_region_ids.len(),
            transparent_breakpoints,
            max_source_x: self.bkd.max_source_x,
            rid_trailer_prefix_len: self.rid.trailer_prefix_len,
            bkd_trailer_words: self.bkd.trailer_words,
        })
    }

    /// The region ids that the scanlines refer to; the first index out of
    /// range, in scan order, is an error.
    pub fn used_region_ids(&self) -> (r: Result<BTreeSet<u32>, PabrError>)
        ensures
            r is Ok <==> indices_ok(self.rows(), self.rid.region_ids@.len() as int),
            r matches Err(e) ==> exists|rr: int, k: int|
                first_bad_index(self.rows(), self.rid.region_ids@.len() as int, rr, k)
                && e == PabrError::DictionaryIndexOutOfRange(
                    #[trigger] self.rows()[rr][k].dictionary_index as usize,
                    self.rid.region_ids@.len() as usize,
                ),
            r matches Ok(set) ==> forall|v: u32|
                #![trigger set@.contains(v)]
                set@.contains(v) <==> (v <= 0xFFFF && used_ids(self.rows(), self.rid.region_ids@).contains(v as u16)),
    {
        let ghost rows = self.rows();
        let ghost n = self.rid.region_ids@.len() as int;
        let ghost ids_view = self.rid.region_ids@;
        let mut used: BTreeSet<u32> = BTreeSet::new();
        let mut r: usize = 0;
        while r < self.bkd.rows.len()
            invariant
                rows == self.rows(),
                n == self.rid.region_ids@.len(),
                ids_view == self.rid.region_ids@,
                r <= rows.len(),
                indices_ok_before(rows, n, r as int, 0),
                forall|v: u32| #![trigger used@.contains(v)]
                    used@.contains(v) <==> (v <= 0xFFFF && used_ids_before(rows, ids_view, r as int, 0).contains(v as u16)),
            decreases rows.len() - r,
        {
            let row = &self.bkd.rows[r];
            assert(row@ == rows[r as int]);
            let mut k: usize = 0;
            while k < row.len()
                invariant
                    rows == self.rows(),
                    n == self.rid.region_ids@.len(),
                    ids_view == self.rid.region_ids@,
                    r < rows.len(),
                    row@ == rows[r as int],
                    k <= row@.len(),
                    indices_ok_before(rows, n, r as int, k as int),
                    forall|v: u32| #![trigger used@.contains(v)]
                        used@.contains(v) <==> (v <= 0xFFFF && used_ids_before(rows, ids_view, r as int, k as int).contains(v as u16)),
                decreases row@.len() - k,
            {
                let bp = row[k];
                assert(rows[r as int][k as int] == bp);
                if bp.dictionary_index == INDEX_SENTINEL {
                    assert(used_ids_before(rows, ids_view, r as int, k as int) =~= used_ids_before(rows, ids_view, r as int, k + 1));
                } else {
                    let index = bp.dictionary_index as usize;
                    if index >= self.rid.region_ids.len() {
                        assert(first_bad_index(rows, n, r as int, k as int));
                        return Err(PabrError::DictionaryIndexOutOfRange(index, self.rid.region_ids.len()));
                    }
                    let region_id = self.rid.region_ids[index];
                    used.insert(region_id as u32);
                    assert(used_ids_before(rows, ids_view, r as int, k + 1) =~= used_ids_before(rows, ids_view, r as int, k as int).insert(region_id));
                }
                k = k + 1;
            }
            assert(used_ids_before(rows, ids_view, r as int, row@.len() as int) =~= used_ids_before(rows, ids_view, r + 1, 0));
            r = r + 1;
        }
        Ok(used)
    }

    /// The RID and BKD paths of a map, given either of them.
    pub fn paired_paths(input_path: &str) -> (r: Result<(String, String), PabrError>)
        ensures
            ({
                let ext = match path_extension(input_path@) {
                    Some(e) => e,
                    None => Seq::<char>::empty(),
                };
                &&& is_ascii_word(ext, seq!['r', 'i', 'd']) ==> (r matches Ok((rid, bkd))
                    && rid@ == input_path@ && bkd@ == path_with_extension(input_path@, "bkd"@))
                &&& !is_ascii_word(ext, seq!['r', 'i', 'd']) && is_ascii_word(ext, seq!['b', 'k', 'd']) ==> (r matches Ok((rid, bkd))
                    && rid@ == path_with_extension(input_path@, "rid"@) && bkd@ == input_path@)
                &&& !is_ascii_word(ext, seq!['r', 'i', 'd']) && !is_ascii_word(ext, seq!['b', 'k', 'd'])
                    ==> (r matches Err(PabrError::NotPabrPath(got)) && got@ == ext)
            }),
    {
        let extension = match extension_of(input_path) {
            Some(e) => e,
            None => String::new(),
        };
        proof {
            reveal_strlit("rid");
            reveal_strlit("bkd");
            lemma_lower_word_fixed("rid"@);
            lemma_lower_word_fixed("bkd"@);
            assert("rid"@ =~= seq!['r', 'i', 'd']);
            assert("bkd"@ =~= seq!['b', 'k', 'd']);
            assert(extension@ == match path_extension(input_path@) {
                Some(e) => e,
                None => Seq::<char>::empty(),
            });
        }
        if eq_ignore_ascii_case(extension.as_str(), "rid") {
            let bkd = with_extension(input_path, "bkd");
            Ok((input_path.to_owned(), bkd))
        } else if eq_ignore_ascii_case(extension.as_str(), "bkd") {
            let rid = with_extension(input_path, "rid");
            Ok((rid, input_path.to_owned()))
        } else {
            Err(PabrError::NotPabrPath(extension))
        }
    }

    /// A map read from the bytes of its RID and BKD files.
    pub fn from_paths(rid_path: &str, bkd_path: &str, rid_bytes: &[u8], bkd_bytes: &[u8]) -> (r: Result<PabrMap, PabrError>)
        ensures
            rid_spec(rid_bytes@) matches Err(e) ==> r == Err::<PabrMap, PabrError>(e),
            rid_spec(rid_bytes@) is Ok ==> (bkd_spec(bkd_bytes@) matches Err(e) ==> r == Err::<PabrMap, PabrError>(e)),
            r is Ok <==> rid_spec(rid_bytes@) is Ok && bkd_spec(bkd_bytes@) is Ok,
            r matches Ok(map) ==> {
                &&& map.rid_path@ == rid_path@
                &&& map.bkd_path@ == bkd_path@
                &&& rid_spec(rid_bytes@) == Ok::<(Seq<u16>, u32, u32, int), PabrError>((
                    map.rid.region_ids@,
                    map.rid.native_width,
                    map.rid.native_height,
                    map.rid.trailer_prefix_len as int,
                ))
                &&& bkd_spec(bkd_bytes@) == Ok::<(Seq<Seq<Breakpoint>>, Seq<u32>, u16), PabrError>((
                    map.rows(),
                    map.bkd.trailer_words@,
                    map.bkd.max_source_x,
                ))
            },
    {
        let rid = match RidFile::from_bytes(rid_bytes) {
            Ok(v) => v,
            Err(e) => return Err(e),
        };
        let bkd = match BkdFile::from_bytes(bkd_bytes) {
            Ok(v) => v,
            Err(e) => return Err(e),
        };
        Ok(PabrMap { rid_path: rid_path.to_owned(), bkd_path: bkd_path.to_owned(), rid, bkd })
    }
}

} // verus!
