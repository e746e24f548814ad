//! The string table `stringtable.bss`: after a PABR header, index sections
//! whose rows point at string ids, then the texts themselves in UTF-16.
use vstd::prelude::*;
use crate::bytes::{u16_at, u32_at, u16_le_at, u32_le_at, read_u32_le};
use crate::text::{hex_lower_padded, push_hex_lower_padded};

verus! {

/// Why `stringtable.bss` could not be read.
#[derive(Clone, Debug, PartialEq, Eq)]
pub enum StringtableError {
    /// The file is shorter than its header.
    TooSmall,
    /// The file does not begin with `PABR`.
    MissingMagic,
    /// The header of section `.0` runs past the end.
    SectionHeaderTruncated(usize),
    /// The size of section `.0` does not fit in memory.
    SectionSizeOverflow(usize),
    /// The rows of section `.0` run past the end.
    SectionOutOfBounds(usize),
    /// Row `.1` of section `.0` ends in `.2` where a zero belongs.
    NonZeroRowTrailer(usize, usize, u32),
    /// The count of texts after the sections runs past the end.
    TextCountTruncated,
    /// The tag of text `.0` lies past the end.
    TextTagTruncated(usize),
    /// The byte length of text `.0` runs past the end.
    TextLengthTruncated(usize),
    /// The end of text `.0` does not fit in memory.
    TextSizeOverflow(usize),
    /// The characters of text `.0` run past the end.
    TextOutOfBounds(usize),
    /// Text `.0` has an odd number of bytes.
    OddTextLength(usize),
    /// Text `.0` has an id beyond 32 bits.
    StringIdOverflow(usize),
}

/// The header of one index section.
#[derive(Clone, Debug)]
pub struct StringtableIndexSectionSummary {
    pub section_index: usize,
    pub header_offset: usize,
    pub header_hash_hex: String,
    pub start_id: u32,
    pub row_count: usize,
    pub payload_offset: usize,
    pub payload_end_offset: usize,
}

/// One row of an index section: a hash and the two string ids it names.
#[derive(Clone, Copy, Debug)]
pub struct StringtableIndexRow {
    pub row_index: usize,
    pub row_offset: usize,
    pub hash: u32,
    pub first_id: u32,
    pub second_id: u32,
}

/// An index section: its header and its rows.
#[derive(Clone, Debug)]
pub struct StringtableIndexSection {
    pub summary: StringtableIndexSectionSummary,
    pub rows: Vec<StringtableIndexRow>,
}

/// The number of rows of the section whose header is at `c`.
pub open spec fn section_row_count(b: Seq<u8>, c: int) -> int {
    u32_at(b, c + 8) as int
}

/// Where the section whose header is at `c` ends: a 12-byte header, then
/// 16 bytes per row.
pub open spec fn section_end(b: Seq<u8>, c: int) -> int {
    c + 12 + 16 * section_row_count(b, c)
}

/// Where row `r` of the section whose header is at `c` begins.
pub open spec fn row_offset(c: int, r: int) -> int {
    c + 12 + 16 * r
}

/// The first row from `r` on, among the first `n` of the section at `c`,
/// whose last four bytes are not zero.
pub open spec fn first_bad_trailer(b: Seq<u8>, c: int, r: int, n: int) -> Option<int>
    decreases n - r,
{
    if r < 0 || r >= n {
        None
    } else if u32_at(b, row_offset(c, r) + 12) != 0 {
        Some(r)
    } else {
        first_bad_trailer(b, c, r + 1, n)
    }
}

/// What is wrong with section `index`, whose header is at `c`, if anything.
pub open spec fn section_fault(b: Seq<u8>, index: int, c: int) -> Option<StringtableError> {
    if c + 12 > b.len() {
        Some(StringtableError::SectionHeaderTruncated(index as usize))
    } else if section_end(b, c) > usize::MAX {
        Some(StringtableError::SectionSizeOverflow(index as usize))
    } else if section_end(b, c) > b.len() {
        Some(StringtableError::SectionOutOfBounds(index as usize))
    } else {
        match first_bad_trailer(b, c, 0, section_row_count(b, c)) {
            Some(r) => Some(
                StringtableError::NonZeroRowTrailer(
                    index as usize,
                    r as usize,
                    u32_at(b, row_offset(c, r) + 12),
                ),
            ),
            None => None,
        }
    }
}

/// Where section `i` begins: the first at offset 8, each next where the
/// one before it ends.
pub open spec fn section_start(b: Seq<u8>, i: nat) -> int
    decreases i,
{
    if i == 0 {
        8
    } else {
        section_end(b, section_start(b, (i - 1) as nat))
    }
}

/// The first fault among sections `i` to `count`.
pub open spec fn sections_fault(b: Seq<u8>, i: nat, count: nat) -> Option<StringtableError>
    decreases count - i,
{
    if i >= count {
        None
    } else {
        match section_fault(b, i as int, section_start(b, i)) {
            Some(e) => Some(e),
            None => sections_fault(b, i + 1, count),
        }
    }
}

/// Whether `row` is row `r` of the section whose header is at `c`.
pub open spec fn row_matches(b: Seq<u8>, c: int, r: int, row: StringtableIndexRow) -> bool {
    let off = row_offset(c, r);
    &&& row.row_index == r
    &&& row.row_offset == off
    &&& row.hash == u32_at(b, off)
    &&& row.first_id == u32_at(b, off + 4)
    &&& row.second_id == u32_at(b, off + 8)
}

/// Whether `s` is section `i` of the table `b`.
pub open spec fn section_matches(b: Seq<u8>, i: nat, s: StringtableIndexSection) -> bool {
    let c = section_start(b, i);
    &&& s.summary.section_index == i
    &&& s.summary.header_offset == c
    &&& s.summary.header_hash_hex@ == "0x"@ + hex_lower_padded(u32_at(b, c) as nat, 8)
    &&& s.summary.start_id == u32_at(b, c + 4)
    &&& s.summary.row_count == section_row_count(b, c)
    &&& s.summary.payload_offset == c + 12
    &&& s.summary.payload_end_offset == section_end(b, c)
    &&& section_end(b, c) <= b.len()
    &&& s.rows@.len() == section_row_count(b, c)
    &&& forall|r: int| 0 <= r < s.rows@.len() ==> row_matches(b, c, r, #[trigger] s.rows@[r])
}

/// `0x` and the eight lower-case hexadecimal digits of `v`.
fn hash_hex(v: u32) -> (r: String)
    ensures
        r@ == "0x"@ + hex_lower_padded(v as nat, 8),
{
    let mut s = "0x".to_owned();
    push_hex_lower_padded(&mut s, v, 8);
    s
}

/// Reads `section_count` index sections from offset 8 on: each a hash, a
/// start id and a row count, then rows of a hash, two string ids and a
/// zero. The first section that does not fit, or a row whose last field is
/// not zero, is the error.
pub fn parse_stringtable_index_sections(bytes: &[u8], section_count: usize) -> (r: Result<
    Vec<StringtableIndexSection>,
    StringtableError,
>)
    ensures
        match sections_fault(bytes@, 0, section_count as nat) {
            Some(e) => r == Err::<Vec<StringtableIndexSection>, StringtableError>(e),
            None => r matches Ok(v) && v@.len() == section_count && forall|i: int|
                0 <= i < section_count ==> section_matches(bytes@, i as nat, #[trigger] v@[i]),
        },
{
    let ghost b = bytes@;
    let n = bytes.len();
    let mut cursor: usize = 8;
    let mut sections: Vec<StringtableIndexSection> = Vec::new();
    let mut i: usize = 0;
    while i < section_count
        invariant
            b == bytes@,
            n == b.len(),
            i <= section_count,
            cursor == section_start(b, i as nat),
            sections_fault(b, 0, section_count as nat) == sections_fault(b, i as nat, section_count as nat),
            sections@.len() == i,
            forall|j: int| 0 <= j < i ==> section_matches(b, j as nat, #[trigger] sections@[j]),
        decreases section_count - i,
    {
        if cursor > n || n - cursor < 12 {
            return Err(StringtableError::SectionHeaderTruncated(i));
        }
        let header_hash = u32_le_at(bytes, cursor);
        let start_id = u32_le_at(bytes, cursor + 4);
        let row_count = u32_le_at(bytes, cursor + 8) as usize;
        let payload_offset = cursor + 12;
        if row_count > (usize::MAX - payload_offset) / 16 {
            return Err(StringtableError::SectionSizeOverflow(i));
        }
        let payload_end = payload_offset + row_count * 16;
        if payload_end > n {
            return Err(StringtableError::SectionOutOfBounds(i));
        }
        let mut rows: Vec<StringtableIndexRow> = Vec::new();
        let mut row_cursor = payload_offset;
        let mut row: usize = 0;
        while row < row_count
            invariant
                b == bytes@,
                n == b.len(),
                cursor == section_start(b, i as nat),
                i < section_count,
                sections_fault(b, 0, section_count as nat) == sections_fault(b, i as nat, section_count as nat),
                cursor + 12 <= n,
                row_count == section_row_count(b, cursor as int),
                payload_end == section_end(b, cursor as int),
                payload_end <= n,
                row <= row_count,
                row_cursor == row_offset(cursor as int, row as int),
                first_bad_trailer(b, cursor as int, 0, row_count as int) == first_bad_trailer(
                    b,
                    cursor as int,
                    row as int,
                    row_count as int,
                ),
                rows@.len() == row,
                forall|k: int| 0 <= k < row ==> row_matches(b, cursor as int, k, #[trigger] rows@[k]),
            decreases row_count - row,
        {
            let hash = u32_le_at(bytes, row_cursor);
            let first_id = u32_le_at(bytes, row_cursor + 4);
            let second_id = u32_le_at(bytes, row_cursor + 8);
            let zero = u32_le_at(bytes, row_cursor + 12);
            if zero != 0 {
                return Err(StringtableError::NonZeroRowTrailer(i, row, zero));
            }
            rows.push(StringtableIndexRow { row_index: row, row_offset: row_cursor, hash, first_id, second_id });
            row_cursor = row_cursor + 16;
            row = row + 1;
        }
        let summary = StringtableIndexSectionSummary {
            section_index: i,
            header_offset: cursor,
            header_hash_hex: hash_hex(header_hash),
            start_id,
            row_count,
            payload_offset,
            payload_end_offset: payload_end,
        };
        sections.push(StringtableIndexSection { summary, rows });
        cursor = payload_end;
        i = i + 1;
    }
    Ok(sections)
}


/// Whether `u` is the first half of a UTF-16 surrogate pair.
pub open spec fn is_high_surrogate(u: u16) -> bool {
    0xd800 <= u <= 0xdbff
}

/// Whether `u` is the second half of a UTF-16 surrogate pair.
pub open spec fn is_low_surrogate(u: u16) -> bool {
    0xdc00 <= u <= 0xdfff
}

/// The character that a UTF-16 surrogate pair encodes.
pub open spec fn surrogate_pair_char(hi: u16, lo: u16) -> char {
    (0x10000 + (hi - 0xd800) * 0x400 + (lo - 0xdc00)) as char
}

/// The characters that UTF-16 code units decode to, each surrogate that is
/// not part of a pair as U+FFFD.
pub open spec fn utf16_lossy(units: Seq<u16>) -> Seq<char>
    decreases units.len(),
{
    if units.len() == 0 {
        seq![]
    } else if is_high_surrogate(units[0]) && units.len() >= 2 && is_low_surrogate(units[1]) {
        seq![surrogate_pair_char(units[0], units[1])] + utf16_lossy(
            units.subrange(2, units.len() as int),
        )
    } else if is_high_surrogate(units[0]) || is_low_surrogate(units[0]) {
        seq!['\u{fffd}'] + utf16_lossy(units.drop_first())
    } else {
        seq![units[0] as char] + utf16_lossy(units.drop_first())
    }
}

/// Decodes UTF-16 code units with `std::char::decode_utf16`, which pairs
/// surrogates and reports each unpaired one as an error; each error becomes
/// U+FFFD.
#[verifier::external_body]
fn decode_utf16_lossy(units: &[u16]) -> (s: String)
    ensures
        s@ == utf16_lossy(units@),
{
    std::char::decode_utf16(units.iter().copied()).map(|r| r.unwrap_or(std::char::REPLACEMENT_CHARACTER)).collect()
}

/// One text of the table: its id (its position), where it lies, its tag
/// byte, its length in bytes and its characters.
#[derive(Clone, Debug)]
pub struct StringtableTextEntry {
    pub string_id: u32,
    pub offset: usize,
    pub tag: u8,
    pub byte_len: usize,
    pub text: String,
}

/// A text of the table as an inspection reports it.
#[derive(Clone, Debug)]
pub struct StringtableTextEntrySummary {
    pub string_id: u32,
    pub offset: usize,
    pub tag: u8,
    pub byte_len: usize,
    pub text: String,
}

/// The little-endian 16-bit units of `bytes`, two bytes each.
pub open spec fn le_units(bytes: Seq<u8>) -> Seq<u16> {
    Seq::new(bytes.len() / 2, |k: int| u16_at(bytes, 2 * k))
}

/// The byte length of the text whose entry begins at `c`.
pub open spec fn text_byte_len(b: Seq<u8>, c: int) -> int {
    u32_at(b, c + 1) as int
}

/// Where text `i` begins: the first at `start`, each next just after the
/// one before it (a tag byte, a 4-byte length, then the text).
pub open spec fn text_start(b: Seq<u8>, start: int, i: nat) -> int
    decreases i,
{
    if i == 0 {
        start
    } else {
        let c = text_start(b, start, (i - 1) as nat);
        c + 5 + text_byte_len(b, c)
    }
}

/// What is wrong with text `i`, whose entry begins at `c`, if anything.
pub open spec fn text_fault(b: Seq<u8>, i: int, c: int) -> Option<StringtableError> {
    if c >= b.len() {
        Some(StringtableError::TextTagTruncated(i as usize))
    } else if c + 5 > b.len() {
        Some(StringtableError::TextLengthTruncated(i as usize))
    } else if c + 5 + text_byte_len(b, c) > usize::MAX {
        Some(StringtableError::TextSizeOverflow(i as usize))
    } else if c + 5 + text_byte_len(b, c) > b.len() {
        Some(StringtableError::TextOutOfBounds(i as usize))
    } else if text_byte_len(b, c) % 2 != 0 {
        Some(StringtableError::OddTextLength(i as usize))
    } else if i > u32::MAX {
        Some(StringtableError::StringIdOverflow(i as usize))
    } else {
        None
    }
}

/// The first fault among texts `i` to `count`.
pub open spec fn texts_fault(b: Seq<u8>, start: int, i: nat, count: nat) -> Option<StringtableError>
    decreases count - i,
{
    if i >= count {
        None
    } else {
        match text_fault(b, i as int, text_start(b, start, i)) {
            Some(e) => Some(e),
            None => texts_fault(b, start, i + 1, count),
        }
    }
}

/// Whether `e` is text `i` of the texts that begin at `start`.
pub open spec fn text_matches(b: Seq<u8>, start: int, i: nat, e: StringtableTextEntry) -> bool {
    let c = text_start(b, start, i);
    let len = text_byte_len(b, c);
    &&& e.string_id == i
    &&& e.offset == c
    &&& e.tag == b[c]
    &&& e.byte_len == len
    &&& c + 5 + len <= b.len()
    &&& e.text@ == utf16_lossy(le_units(b.subrange(c + 5, c + 5 + len)))
}

/// The UTF-16 code units of the `len` bytes at `from`.
fn units_at(bytes: &[u8], from: usize, len: usize) -> (r: Vec<u16>)
    requires
        from + len <= bytes@.len(),
        len % 2 == 0,
    ensures
        r@ == le_units(bytes@.subrange(from as int, from + len)),
{
    let ghost slice = bytes@.subrange(from as int, from + len);
    let n = bytes.len();
    let mut units: Vec<u16> = Vec::new();
    let mut k: usize = 0;
    while k < len / 2
        invariant
            from + len <= bytes@.len(),
            n == bytes@.len(),
            len % 2 == 0,
            slice == bytes@.subrange(from as int, from + len),
            k <= len / 2,
            units@.len() == k,
            forall|j: int| 0 <= j < k ==> #[trigger] units@[j] == u16_at(slice, 2 * j),
        decreases len / 2 - k,
    {
        assert(2 * k + 2 <= len);
        let u = u16_le_at(bytes, from + 2 * k);
        assert(u == u16_at(slice, 2 * k));
        units.push(u);
        k = k + 1;
    }
    assert(units@ =~= le_units(slice));
    units
}

/// Reads `entry_count` texts from `start_offset` on: each a tag byte, a
/// little-endian byte length, then that many bytes of UTF-16LE text. The
/// first text that does not fit is the error.
pub fn parse_stringtable_text_entries(bytes: &[u8], start_offset: usize, entry_count: usize) -> (r:
    Result<Vec<StringtableTextEntry>, StringtableError>)
    ensures
        match texts_fault(bytes@, start_offset as int, 0, entry_count as nat) {
            Some(e) => r == Err::<Vec<StringtableTextEntry>, StringtableError>(e),
            None => r matches Ok(v) && v@.len() == entry_count && forall|i: int|
                0 <= i < entry_count ==> text_matches(
                    bytes@,
                    start_offset as int,
                    i as nat,
                    #[trigger] v@[i],
                ),
        },
{
    let ghost b = bytes@;
    let n = bytes.len();
    let mut entries: Vec<StringtableTextEntry> = Vec::new();
    let mut cursor = start_offset;
    let mut i: usize = 0;
    while i < entry_count
        invariant
            b == bytes@,
            n == b.len(),
            i <= entry_count,
            cursor == text_start(b, start_offset as int, i as nat),
            texts_fault(b, start_offset as int, 0, entry_count as nat) == texts_fault(
                b,
                start_offset as int,
                i as nat,
                entry_count as nat,
            ),
            entries@.len() == i,
            forall|j: int|
                0 <= j < i ==> text_matches(b, start_offset as int, j as nat, #[trigger] entries@[j]),
        decreases entry_count - i,
    {
        if cursor >= n {
            return Err(StringtableError::TextTagTruncated(i));
        }
        let tag = bytes[cursor];
        if n - cursor < 5 {
            return Err(StringtableError::TextLengthTruncated(i));
        }
        let byte_len = u32_le_at(bytes, cursor + 1) as usize;
        let text_offset = cursor + 5;
        if byte_len > usize::MAX - text_offset {
            return Err(StringtableError::TextSizeOverflow(i));
        }
        let text_end = text_offset + byte_len;
        if text_end > n {
            return Err(StringtableError::TextOutOfBounds(i));
        }
        if byte_len % 2 != 0 {
            return Err(StringtableError::OddTextLength(i));
        }
        let units = units_at(bytes, text_offset, byte_len);
        let text = decode_utf16_lossy(units.as_slice());
        if i > 0xffff_ffffusize {
            return Err(StringtableError::StringIdOverflow(i));
        }
        entries.push(StringtableTextEntry { string_id: i as u32, offset: cursor, tag, byte_len, text });
        cursor = text_end;
        i = i + 1;
    }
    Ok(entries)
}


/// The report of one text.
pub fn stringtable_text_entry_summary(entry: &StringtableTextEntry) -> (r: StringtableTextEntrySummary)
    ensures
        r.string_id == entry.string_id,
        r.offset == entry.offset,
        r.tag == entry.tag,
        r.byte_len == entry.byte_len,
        r.text@ == entry.text@,
{
    StringtableTextEntrySummary {
        string_id: entry.string_id,
        offset: entry.offset,
        tag: entry.tag,
        byte_len: entry.byte_len,
        text: entry.text.clone(),
    }
}

/// A row of an index section that names a string id, with its section.
#[derive(Clone, Debug)]
pub struct StringtableRowReference {
    pub section_index: usize,
    pub row_index: usize,
    pub row_offset: usize,
    pub hash: u32,
    pub hash_hex: String,
    pub first_id: u32,
    pub second_id: u32,
}

/// The rows of a section, each with the index of the section.
pub open spec fn section_refs(s: StringtableIndexSection) -> Seq<(usize, StringtableIndexRow)> {
    s.rows@.map_values(|row: StringtableIndexRow| (s.summary.section_index, row))
}

/// The rows of all sections, in order.
pub open spec fn all_rows(sections: Seq<StringtableIndexSection>) -> Seq<(usize, StringtableIndexRow)>
    decreases sections.len(),
{
    if sections.len() == 0 {
        seq![]
    } else {
        all_rows(sections.drop_last()) + section_refs(sections.last())
    }
}

/// Whether a row names string `id`, as its first or its second id.
pub open spec fn names_string(id: u32) -> spec_fn((usize, StringtableIndexRow)) -> bool {
    |p: (usize, StringtableIndexRow)| p.1.first_id == id || p.1.second_id == id
}

/// The rows of all sections that name string `id`, in order.
pub open spec fn rows_naming(sections: Seq<StringtableIndexSection>, id: u32) -> Seq<(usize, StringtableIndexRow)> {
    all_rows(sections).filter(names_string(id))
}

/// Whether `r` reports row `p`.
pub open spec fn reference_matches(r: StringtableRowReference, p: (usize, StringtableIndexRow)) -> bool {
    &&& r.section_index == p.0
    &&& r.row_index == p.1.row_index
    &&& r.row_offset == p.1.row_offset
    &&& r.hash == p.1.hash
    &&& r.hash_hex@ == "0x"@ + hex_lower_padded(p.1.hash as nat, 8)
    &&& r.first_id == p.1.first_id
    &&& r.second_id == p.1.second_id
}

/// Whether `refs` reports the rows `rows`, one for one.
pub open spec fn references_match(refs: Seq<StringtableRowReference>, rows: Seq<(usize, StringtableIndexRow)>) -> bool {
    refs.len() == rows.len() && forall|k: int| 0 <= k < refs.len() ==> reference_matches(#[trigger] refs[k], rows[k])
}

proof fn lemma_filter_push(rows: Seq<(usize, StringtableIndexRow)>, x: (usize, StringtableIndexRow), id: u32)
    ensures
        rows.push(x).filter(names_string(id)) == (if names_string(id)(x) {
            rows.filter(names_string(id)).push(x)
        } else {
            rows.filter(names_string(id))
        }),
{
    reveal(Seq::filter);
    assert(rows.push(x).drop_last() =~= rows);
}

/// The rows of `sections` that name string `id`.
pub fn rows_referencing(sections: &Vec<StringtableIndexSection>, id: u32) -> (r: Vec<StringtableRowReference>)
    ensures
        references_match(r@, rows_naming(sections@, id)),
{
    let mut out: Vec<StringtableRowReference> = Vec::new();
    let mut s: usize = 0;
    while s < sections.len()
        invariant
            s <= sections@.len(),
            references_match(out@, all_rows(sections@.subrange(0, s as int)).filter(names_string(id))),
        decreases sections@.len() - s,
    {
        let sec = &sections[s];
        let ghost before = all_rows(sections@.subrange(0, s as int));
        let mut k: usize = 0;
        while k < sec.rows.len()
            invariant
                k <= sec.rows@.len(),
                references_match(
                    out@,
                    (before + section_refs(*sec).subrange(0, k as int)).filter(names_string(id)),
                ),
            decreases sec.rows@.len() - k,
        {
            let row = sec.rows[k];
            let ghost p = (sec.summary.section_index, row);
            assert(section_refs(*sec)[k as int] == p);
            assert(before + section_refs(*sec).subrange(0, k + 1) =~= (before + section_refs(
                *sec,
            ).subrange(0, k as int)).push(p));
            proof {
                lemma_filter_push(before + section_refs(*sec).subrange(0, k as int), p, id);
            }
            if row.first_id == id || row.second_id == id {
                let reference = StringtableRowReference {
                    section_index: sec.summary.section_index,
                    row_index: row.row_index,
                    row_offset: row.row_offset,
                    hash: row.hash,
                    hash_hex: hash_hex(row.hash),
                    first_id: row.first_id,
                    second_id: row.second_id,
                };
                out.push(reference);
            }
            k = k + 1;
        }
        assert(section_refs(*sec).subrange(0, sec.rows@.len() as int) =~= section_refs(*sec));
        assert(sections@.subrange(0, s + 1).drop_last() =~= sections@.subrange(0, s as int));
        s = s + 1;
    }
    assert(sections@.subrange(0, sections@.len() as int) =~= sections@);
    out
}


/// What an inspection of `stringtable.bss` counts.
#[derive(Clone, Debug)]
pub struct StringtableBssInspectSummary {
    pub output_path: Option<String>,
    pub header_section_count: usize,
    pub total_index_row_count: usize,
    pub text_entry_count: usize,
    pub focus_entry_count: usize,
    pub missing_focus_entry_count: usize,
}

/// One string id asked about: its text, where there is one, and the rows
/// that name it.
#[derive(Clone, Debug)]
pub struct StringtableFocusEntry {
    pub string_id: u32,
    pub entry: Option<StringtableTextEntrySummary>,
    pub referenced_by_rows: Vec<StringtableRowReference>,
}

/// Everything an inspection of `stringtable.bss` finds.
#[derive(Clone, Debug)]
pub struct StringtableBssInspection {
    pub summary: StringtableBssInspectSummary,
    pub file_size: usize,
    pub sections: Vec<StringtableIndexSection>,
    pub trailing_text_count_offset: usize,
    pub trailing_text_payload_offset: usize,
    pub trailing_text_entry_count: usize,
    pub trailing_text_end_offset: usize,
    pub focus_entries: Vec<StringtableFocusEntry>,
    pub missing_focus_string_ids: Vec<u32>,
}

/// Whether `b` begins with `PABR`.
pub open spec fn has_pabr_magic(b: Seq<u8>) -> bool {
    b[0] == 0x50u8 && b[1] == 0x41u8 && b[2] == 0x42u8 && b[3] == 0x52u8
}

/// The number of index sections that the header of `b` announces.
pub open spec fn section_count_of(b: Seq<u8>) -> nat {
    u32_at(b, 4) as nat
}

/// Where the count of texts lies: just after the last section.
pub open spec fn text_count_offset(b: Seq<u8>) -> int {
    section_start(b, section_count_of(b))
}

/// The number of texts.
pub open spec fn text_count_of(b: Seq<u8>) -> nat {
    u32_at(b, text_count_offset(b)) as nat
}

/// What is wrong with the table `b`, if anything: its header, then its
/// sections, then the count of texts, then the texts, the first fault
/// found.
pub open spec fn stringtable_fault(b: Seq<u8>) -> Option<StringtableError> {
    if b.len() < 12 {
        Some(StringtableError::TooSmall)
    } else if !has_pabr_magic(b) {
        Some(StringtableError::MissingMagic)
    } else {
        match sections_fault(b, 0, section_count_of(b)) {
            Some(e) => Some(e),
            None => if text_count_offset(b) + 4 > b.len() {
                Some(StringtableError::TextCountTruncated)
            } else {
                texts_fault(b, text_count_offset(b) + 4, 0, text_count_of(b))
            },
        }
    }
}

/// Whether `f` reports string `id` of the table `b`, whose sections are
/// `sections`.
pub open spec fn focus_matches(
    b: Seq<u8>,
    sections: Seq<StringtableIndexSection>,
    id: u32,
    f: StringtableFocusEntry,
) -> bool {
    &&& f.string_id == id
    &&& (id < text_count_of(b) <==> f.entry is Some)
    &&& f.entry matches Some(e) ==> {
        let c = text_start(b, text_count_offset(b) + 4, id as nat);
        let len = text_byte_len(b, c);
        &&& e.string_id == id
        &&& e.offset == c
        &&& e.tag == b[c]
        &&& e.byte_len == len
        &&& e.text@ == utf16_lossy(le_units(b.subrange(c + 5, c + 5 + len)))
    }
    &&& references_match(f.referenced_by_rows@, rows_naming(sections, id))
}

/// The ids among `focus` that name no text of a table of `count` texts.
pub open spec fn missing_ids(focus: Seq<u32>, count: nat) -> Seq<u32> {
    focus.filter(|id: u32| id >= count)
}

proof fn lemma_missing_push(focus: Seq<u32>, x: u32, count: nat)
    ensures
        missing_ids(focus.push(x), count) == (if x >= count {
            missing_ids(focus, count).push(x)
        } else {
            missing_ids(focus, count)
        }),
{
    reveal(Seq::filter);
    assert(focus.push(x).drop_last() =~= focus);
}

/// Inspects `stringtable.bss`: its sections, the texts after them, and for
/// each of `focus_string_ids` its text and the rows that name it.
pub fn inspect_stringtable_bss(bytes: &[u8], focus_string_ids: &[u32], output_path: Option<&str>) -> (r:
    Result<StringtableBssInspection, StringtableError>)
    ensures
        match stringtable_fault(bytes@) {
            Some(e) => r == Err::<StringtableBssInspection, StringtableError>(e),
            None => r matches Ok(ins) && {
                let b = bytes@;
                let count = section_count_of(b);
                let texts = text_count_of(b);
                let missing = missing_ids(focus_string_ids@, texts);
                &&& ins.file_size == b.len()
                &&& ins.sections@.len() == count
                &&& forall|i: int| 0 <= i < count ==> section_matches(b, i as nat, #[trigger] ins.sections@[i])
                &&& ins.trailing_text_count_offset == text_count_offset(b)
                &&& ins.trailing_text_payload_offset == text_count_offset(b) + 4
                &&& ins.trailing_text_entry_count == texts
                &&& ins.trailing_text_end_offset == text_start(b, text_count_offset(b) + 4, texts)
                &&& ins.focus_entries@.len() == focus_string_ids@.len()
                &&& forall|k: int|
                    0 <= k < focus_string_ids@.len() ==> focus_matches(
                        b,
                        ins.sections@,
                        focus_string_ids@[k],
                        #[trigger] ins.focus_entries@[k],
                    )
                &&& ins.missing_focus_string_ids@ == missing
                &&& (match ins.summary.output_path {
                    Some(p) => Some(p@),
                    None => None,
                }) == (match output_path {
                    Some(p) => Some(p@),
                    None => None,
                })
                &&& ins.summary.header_section_count == count
                &&& ins.summary.total_index_row_count == all_rows(ins.sections@).len()
                &&& ins.summary.text_entry_count == texts
                &&& ins.summary.focus_entry_count == focus_string_ids@.len() - missing.len()
                &&& ins.summary.missing_focus_entry_count == missing.len()
            },
        },
{
    if bytes.len() < 12 {
        return Err(StringtableError::TooSmall);
    }
    if !(bytes[0] == 0x50u8 && bytes[1] == 0x41u8 && bytes[2] == 0x42u8 && bytes[3] == 0x52u8) {
        return Err(StringtableError::MissingMagic);
    }
    let ghost b = bytes@;
    let header_section_count = u32_le_at(bytes, 4) as usize;
    let sections = parse_stringtable_index_sections(bytes, header_section_count)?;
    let mut total_index_row_count: usize = 0;
    let mut s: usize = 0;
    while s < sections.len()
        invariant
            b == bytes@,
            sections@.len() == header_section_count,
            header_section_count == section_count_of(b),
            s <= header_section_count,
            forall|i: int| 0 <= i < header_section_count ==> section_matches(b, i as nat, #[trigger] sections@[i]),
            8 + 12 * s + 16 * total_index_row_count == section_start(b, s as nat),
            s > 0 ==> section_start(b, s as nat) <= b.len(),
            total_index_row_count == all_rows(sections@.subrange(0, s as int)).len(),
        decreases header_section_count - s,
    {
        assert(section_matches(b, s as nat, sections@[s as int]));
        assert(section_start(b, (s + 1) as nat) == section_end(b, section_start(b, s as nat)));
        assert(sections@.subrange(0, s + 1).drop_last() =~= sections@.subrange(0, s as int));
        total_index_row_count = total_index_row_count + sections[s].rows.len();
        s = s + 1;
    }
    assert(sections@.subrange(0, sections@.len() as int) =~= sections@);
    let count_offset: usize = if header_section_count == 0 {
        8
    } else {
        sections[header_section_count - 1].summary.payload_end_offset
    };
    assert(count_offset == text_count_offset(b));
    let entry_count = match read_u32_le(bytes, count_offset) {
        Some(v) => v as usize,
        None => return Err(StringtableError::TextCountTruncated),
    };
    let payload_offset = count_offset + 4;
    let entries = parse_stringtable_text_entries(bytes, payload_offset, entry_count)?;
    let end_offset: usize = if entry_count == 0 {
        payload_offset
    } else {
        assert(text_matches(b, payload_offset as int, (entry_count - 1) as nat, entries@[entry_count - 1]));
        entries[entry_count - 1].offset + 5 + entries[entry_count - 1].byte_len
    };
    let mut focus_entries: Vec<StringtableFocusEntry> = Vec::new();
    let mut missing: Vec<u32> = Vec::new();
    let mut k: usize = 0;
    while k < focus_string_ids.len()
        invariant
            b == bytes@,
            entries@.len() == entry_count,
            entry_count == text_count_of(b),
            payload_offset == text_count_offset(b) + 4,
            forall|i: int|
                0 <= i < entry_count ==> text_matches(b, payload_offset as int, i as nat, #[trigger] entries@[i]),
            k <= focus_string_ids@.len(),
            focus_entries@.len() == k,
            forall|j: int|
                0 <= j < k ==> focus_matches(b, sections@, focus_string_ids@[j], #[trigger] focus_entries@[j]),
            missing@ == missing_ids(focus_string_ids@.subrange(0, k as int), entry_count as nat),
        decreases focus_string_ids@.len() - k,
    {
        let id = focus_string_ids[k];
        let entry = if (id as usize) < entry_count {
            assert(text_matches(b, payload_offset as int, id as nat, entries@[id as int]));
            Some(stringtable_text_entry_summary(&entries[id as usize]))
        } else {
            None
        };
        let referenced_by_rows = rows_referencing(&sections, id);
        focus_entries.push(StringtableFocusEntry { string_id: id, entry, referenced_by_rows });
        proof {
            lemma_missing_push(focus_string_ids@.subrange(0, k as int), id, entry_count as nat);
            assert(focus_string_ids@.subrange(0, k + 1) =~= focus_string_ids@.subrange(0, k as int).push(id));
        }
        if (id as usize) >= entry_count {
            missing.push(id);
        }
        k = k + 1;
    }
    assert(focus_string_ids@.subrange(0, focus_string_ids@.len() as int) =~= focus_string_ids@);
    proof {
        focus_string_ids@.filter_lemma(|id: u32| id >= entry_count as nat);
    }
    let missing_count = missing.len();
    let summary = StringtableBssInspectSummary {
        output_path: match output_path {
            Some(p) => Some(p.to_owned()),
            None => None,
        },
        header_section_count,
        total_index_row_count,
        text_entry_count: entry_count,
        focus_entry_count: focus_string_ids.len() - missing_count,
        missing_focus_entry_count: missing_count,
    };
    Ok(StringtableBssInspection {
        summary,
        file_size: bytes.len(),
        sections,
        trailing_text_count_offset: count_offset,
        trailing_text_payload_offset: payload_offset,
        trailing_text_entry_count: entry_count,
        trailing_text_end_offset: end_offset,
        focus_entries,
        missing_focus_string_ids: missing,
    })
}


proof fn lemma_trailers_zero(b: Seq<u8>, c: int, r: int, n: int)
    requires
        first_bad_trailer(b, c, r, n) is None,
        0 <= r,
    ensures
        forall|q: int| r <= q < n ==> #[trigger] u32_at(b, row_offset(c, q) + 12) == 0,
    decreases n - r,
{
    if r < n {
        lemma_trailers_zero(b, c, r + 1, n);
    }
}

proof fn lemma_no_section_fault(b: Seq<u8>, i: nat, count: nat, k: nat)
    requires
        sections_fault(b, i, count) is None,
        i <= k < count,
    ensures
        section_fault(b, k as int, section_start(b, k)) is None,
    decreases k - i,
{
    if i < k {
        lemma_no_section_fault(b, i + 1, count, k);
    }
}

/// The sections of a table that reads follow one another: the first starts
/// after the eight header bytes, each next where the one before ends, the
/// count of texts where the last ends; and every index row ends in four
/// zero bytes.
pub proof fn law_sections_chain(b: Seq<u8>, sections: Seq<StringtableIndexSection>)
    requires
        stringtable_fault(b) is None,
        sections.len() == section_count_of(b),
        forall|i: int| 0 <= i < sections.len() ==> section_matches(b, i as nat, #[trigger] sections[i]),
    ensures
        sections.len() > 0 ==> sections[0].summary.header_offset == 8,
        forall|i: int| 0 <= i < sections.len() - 1 ==> #[trigger] sections[i + 1].summary.header_offset
            == sections[i].summary.payload_end_offset,
        sections.len() > 0 ==> text_count_offset(b) == sections[sections.len() - 1].summary.payload_end_offset,
        forall|i: int, r: int| 0 <= i < sections.len() && 0 <= r < sections[i].rows@.len()
            ==> #[trigger] u32_at(b, sections[i].rows@[r].row_offset + 12) == 0,
{
    assert forall|i: int| 0 <= i < sections.len() - 1 implies #[trigger] sections[i + 1].summary.header_offset
        == sections[i].summary.payload_end_offset by {
        assert(section_matches(b, i as nat, sections[i]));
        assert(section_matches(b, (i + 1) as nat, sections[i + 1]));
    }
    if sections.len() > 0 {
        assert(section_matches(b, 0, sections[0]));
        let l = sections.len() - 1;
        assert(section_matches(b, l as nat, sections[l]));
    }
    assert forall|i: int, r: int| 0 <= i < sections.len() && 0 <= r < sections[i].rows@.len()
        implies #[trigger] u32_at(b, sections[i].rows@[r].row_offset + 12) == 0 by {
        assert(section_matches(b, i as nat, sections[i]));
        let c = section_start(b, i as nat);
        lemma_no_section_fault(b, 0, section_count_of(b), i as nat);
        lemma_trailers_zero(b, c, 0, section_row_count(b, c));
        assert(row_matches(b, c, r, sections[i].rows@[r]));
        assert(u32_at(b, row_offset(c, r) + 12) == 0);
    }
}

} // verus!
