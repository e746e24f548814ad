//! Tables of the client's gamecommondata: PABR-framed `.bss` tables, the
//! region rows of `regioninfo.bss`, and `regionclientdata` XML files.
use std::collections::{BTreeMap, BTreeSet};
use vstd::prelude::*;
use vstd::utf8::encode_utf8;
use vstd::string::StrSliceExecFns;
use crate::bytes::{u16_at, u32_at, u16_le_at, u32_le_at, read_u32_le};
use crate::text::{text_lt, str_lt, lemma_text_lt_total, lemma_text_lt_strict, lemma_text_lt_transitive, parse_u32_bytes, parse_u32_spec, first_char, find_char, lemma_first_char, chars_at, hex_lower_padded, push_hex_lower_padded};
use crate::archive::lossy_utf8;
use crate::waypoint_xml::{insert_sorted, strictly_increasing};

verus! {

broadcast use vstd::laws_cmp::group_laws_cmp, vstd::std_specs::btree::group_btree_axioms;

/// Why a gamecommondata table or file could not be read.
#[derive(Clone, Debug, PartialEq, Eq)]
pub enum GcdataError {
    TooSmall,
    MissingMagic,
    /// A field at this offset runs past the end of the data.
    OutOfBounds(usize),
    /// A `RegionInfo Key` attribute without its closing quote.
    UnterminatedKey,
    /// A `RegionInfo Key` attribute whose text is not a `u32`.
    BadKey(String),
    /// The size of the rows that the header announces does not fit in memory.
    PayloadSizeOverflow,
    /// The rows take `.1` bytes where the header calls for `.0`.
    PayloadLengthMismatch(usize, usize),
}

/// The header of a PABR-framed table.
#[derive(Clone, Debug)]
pub struct PabrTableInspectSummary {
    pub path: String,
    pub entry_count: u32,
    pub file_size: u64,
}

/// Whether `b` starts with the bytes `PABR`.
pub open spec fn starts_with_pabr(b: Seq<u8>) -> bool {
    b.len() >= 4 && b[0] == 0x50u8 && b[1] == 0x41u8 && b[2] == 0x42u8 && b[3] == 0x52u8
}

/// Reads the header of a PABR-framed table: its entry count and size.
pub fn inspect_pabr_table(path: &str, bytes: &[u8]) -> (r: Result<PabrTableInspectSummary, GcdataError>)
    ensures
        bytes@.len() < 8 ==> r == Err::<PabrTableInspectSummary, GcdataError>(GcdataError::TooSmall),
        bytes@.len() >= 8 && !starts_with_pabr(bytes@) ==> r == Err::<PabrTableInspectSummary, GcdataError>(GcdataError::MissingMagic),
        bytes@.len() >= 8 && starts_with_pabr(bytes@) ==> (r matches Ok(s) && s.path@ == path@
            && s.entry_count == u32_at(bytes@, 4) && s.file_size == bytes@.len()),
{
    if bytes.len() < 8 {
        return Err(GcdataError::TooSmall);
    }
    if !(bytes[0] == 0x50u8 && bytes[1] == 0x41u8 && bytes[2] == 0x42u8 && bytes[3] == 0x52u8) {
        return Err(GcdataError::MissingMagic);
    }
    Ok(PabrTableInspectSummary {
        path: path.to_owned(),
        entry_count: u32_le_at(bytes, 4),
        file_size: bytes.len() as u64,
    })
}

/// Reads a little-endian `u32` at any offset.
pub fn read_unaligned_u32(bytes: &[u8], offset: usize) -> (r: Result<u32, GcdataError>)
    ensures
        offset + 4 <= bytes@.len() ==> r == Ok::<u32, GcdataError>(u32_at(bytes@, offset as int)),
        offset + 4 > bytes@.len() ==> r == Err::<u32, GcdataError>(GcdataError::OutOfBounds(offset)),
{
    match read_u32_le(bytes, offset) {
        Some(v) => Ok(v),
        None => Err(GcdataError::OutOfBounds(offset)),
    }
}

/// A field stored shifted up by one byte: none where it is zero or its low
/// byte is set, else the value shifted back down.
pub open spec fn shifted_field(raw: u32) -> Option<u32> {
    if raw == 0 || raw & 0xFF != 0 {
        None
    } else {
        Some(raw >> 8)
    }
}

/// Reads a field stored shifted up by one byte.
pub fn decode_shifted_u32_field(bytes: &[u8], offset: usize) -> (r: Result<Option<u32>, GcdataError>)
    ensures
        offset + 4 <= bytes@.len() ==> r == Ok::<Option<u32>, GcdataError>(shifted_field(u32_at(bytes@, offset as int))),
        offset + 4 > bytes@.len() ==> r == Err::<Option<u32>, GcdataError>(GcdataError::OutOfBounds(offset)),
{
    let raw = match read_unaligned_u32(bytes, offset) {
        Ok(v) => v,
        Err(e) => return Err(e),
    };
    if raw == 0 {
        return Ok(None);
    }
    if raw & 0xFF != 0 {
        return Ok(None);
    }
    Ok(Some(raw >> 8))
}

/// Reads a field where zero stands for none.
pub fn decode_unaligned_u32_field(bytes: &[u8], offset: usize) -> (r: Result<Option<u32>, GcdataError>)
    ensures
        offset + 4 <= bytes@.len() ==> r == Ok::<Option<u32>, GcdataError>(
            if u32_at(bytes@, offset as int) == 0 { None } else { Some(u32_at(bytes@, offset as int)) }),
        offset + 4 > bytes@.len() ==> r == Err::<Option<u32>, GcdataError>(GcdataError::OutOfBounds(offset)),
{
    let raw = match read_unaligned_u32(bytes, offset) {
        Ok(v) => v,
        Err(e) => return Err(e),
    };
    if raw == 0 {
        Ok(None)
    } else {
        Ok(Some(raw))
    }
}

/// The first index at or after `from` where `needle` starts in `b`.
pub open spec fn find_from(b: Seq<u8>, needle: Seq<u8>, from: int) -> Option<int>
    decreases b.len() + 1 - from,
{
    if from < 0 || from + needle.len() > b.len() {
        None
    } else if b.subrange(from, from + needle.len()) == needle {
        Some(from)
    } else {
        find_from(b, needle, from + 1)
    }
}

proof fn lemma_find_from_bounds(b: Seq<u8>, needle: Seq<u8>, from: int)
    ensures
        find_from(b, needle, from) matches Some(k) ==> from <= k && k + needle.len() <= b.len()
            && b.subrange(k, k + needle.len()) == needle,
    decreases b.len() + 1 - from,
{
    if 0 <= from && from + needle.len() <= b.len() && b.subrange(from, from + needle.len()) != needle {
        lemma_find_from_bounds(b, needle, from + 1);
    }
}

/// Finds `needle` in `b` from `from` on.
fn find_bytes(b: &[u8], needle: &[u8], from: usize) -> (r: Option<usize>)
    requires
        from <= b@.len(),
    ensures
        r matches Some(k) ==> find_from(b@, needle@, from as int) == Some(k as int),
        r is None ==> find_from(b@, needle@, from as int) is None,
{
    if needle.len() > b.len() {
        return None;
    }
    let last = b.len() - needle.len();
    if from > last {
        return None;
    }
    let blen = b.len();
    let mut k: usize = from;
    while k <= last
        invariant
            from <= k,
            blen == b@.len(),
            last == b@.len() - needle@.len(),
            k <= last + 1,
            find_from(b@, needle@, from as int) == find_from(b@, needle@, k as int),
        decreases last + 1 - k,
    {
        let mut j: usize = 0;
        let mut same = true;
        while j < needle.len()
            invariant
                blen == b@.len(),
                k + needle@.len() <= b@.len(),
                j <= needle@.len(),
                same == forall|q: int| 0 <= q < j ==> b@[k + q] == needle@[q],
            decreases needle@.len() - j,
        {
            if b[k + j] != needle[j] {
                same = false;
            }
            j = j + 1;
        }
        if same {
            assert(b@.subrange(k as int, k + needle@.len()) =~= needle@);
            return Some(k);
        }
        assert(b@.subrange(k as int, k + needle@.len()) != needle@) by {
            let q = choose|q: int| 0 <= q < needle@.len() && b@[k + q] != needle@[q];
            assert(b@.subrange(k as int, k + needle@.len())[q] != needle@[q]);
        }
        if k == last {
            assert(find_from(b@, needle@, k + 1) is None);
            return None;
        }
        k = k + 1;
    }
    None
}

/// The bytes `<RegionInfo Key="`.
pub open spec fn region_info_needle() -> Seq<u8> {
    seq![60u8, 82u8, 101u8, 103u8, 105u8, 111u8, 110u8, 73u8, 110u8, 102u8, 111u8, 32u8, 75u8, 101u8, 121u8, 61u8, 34u8]
}

/// Why region keys could not be read: a key without its closing quote, or
/// the bytes of a key that is not a `u32`.
pub enum KeyFault {
    Unterminated,
    Bad(Seq<u8>),
}

/// The region keys of a `regionclientdata` XML document, from each
/// `<RegionInfo Key="..."` attribute at or after `from`.
pub open spec fn region_keys_from(b: Seq<u8>, from: int) -> Result<Set<u32>, KeyFault>
    decreases b.len() + 1 - from,
{
    match find_from(b, region_info_needle(), from) {
        None => Ok(Set::empty()),
        Some(k) => {
            let id_start = k + region_info_needle().len();
            match find_from(b, seq![34u8], id_start) {
                None => Err(KeyFault::Unterminated),
                Some(id_end) => {
                    let raw = b.subrange(id_start, id_end);
                    match parse_u32_spec(raw) {
                        None => Err(KeyFault::Bad(raw)),
                        Some(id) => if id_end <= from || id_end > b.len() {
                            Ok(Set::empty())
                        } else {
                            match region_keys_from(b, id_end) {
                                Err(e) => Err(e),
                                Ok(rest) => Ok(rest.insert(id)),
                            }
                        },
                    }
                },
            }
        },
    }
}

/// Whether a parse result is what `region_keys_from` describes.
pub open spec fn keys_result_matches(r: Result<BTreeSet<u32>, GcdataError>, spec: Result<Set<u32>, KeyFault>) -> bool {
    match spec {
        Ok(keys) => r matches Ok(set) && set@ == keys,
        Err(KeyFault::Unterminated) => r == Err::<BTreeSet<u32>, GcdataError>(GcdataError::UnterminatedKey),
        Err(KeyFault::Bad(raw)) => r matches Err(GcdataError::BadKey(text)) && text@ == lossy_utf8(raw),
    }
}

/// The region keys of a `regionclientdata` XML document.
pub fn parse_regionclientdata_region_ids(contents: &str) -> (r: Result<BTreeSet<u32>, GcdataError>)
    ensures
        keys_result_matches(r, region_keys_from(encode_utf8(contents@), 0)),
{
    let b = contents.as_bytes();
    let ghost bs = b@;
    let needle: [u8; 17] = [60, 82, 101, 103, 105, 111, 110, 73, 110, 102, 111, 32, 75, 101, 121, 61, 34];
    let quote: [u8; 1] = [34];
    assert(needle@ =~= region_info_needle());
    assert(quote@ =~= seq![34u8]);
    let mut found: BTreeSet<u32> = BTreeSet::new();
    let mut search_from: usize = 0;
    proof {
        assert forall|rest: Set<u32>| #![trigger rest.union(found@)] rest.union(found@) == rest by {
            assert(rest.union(found@) =~= rest);
        }
    }
    while search_from <= b.len()
        invariant
            bs == b@,
            bs == encode_utf8(contents@),
            needle@ == region_info_needle(),
            quote@ == seq![34u8],
            search_from <= bs.len(),
            forall|rest: Set<u32>| #![trigger rest.union(found@)]
                region_keys_from(bs, search_from as int) == Ok::<Set<u32>, KeyFault>(rest)
                    ==> region_keys_from(bs, 0) == Ok::<Set<u32>, KeyFault>(rest.union(found@)),
            forall|e: KeyFault| region_keys_from(bs, search_from as int) == Err::<Set<u32>, KeyFault>(e)
                ==> region_keys_from(bs, 0) == Err::<Set<u32>, KeyFault>(e),
        decreases bs.len() + 1 - search_from,
    {
        proof {
            lemma_find_from_bounds(bs, region_info_needle(), search_from as int);
        }
        let k = match find_bytes(b, needle.as_slice(), search_from) {
            None => {
                assert(region_keys_from(bs, search_from as int) == Ok::<Set<u32>, KeyFault>(Set::empty()));
                assert(Set::<u32>::empty().union(found@) =~= found@);
                return Ok(found);
            },
            Some(k) => k,
        };
        let id_start = k + 17;
        proof {
            lemma_find_from_bounds(bs, seq![34u8], id_start as int);
        }
        let id_end = match find_bytes(b, quote.as_slice(), id_start) {
            None => {
                return Err(GcdataError::UnterminatedKey);
            },
            Some(e) => e,
        };
        let raw = vstd::slice::slice_subrange(b, id_start, id_end);
        match parse_u32_bytes(raw) {
            None => {
                let text = crate::archive::utf8_lossy(raw);
                assert(raw@ == bs.subrange(id_start as int, id_end as int));
                return Err(GcdataError::BadKey(text));
            },
            Some(id) => {
                assert(raw@ == bs.subrange(id_start as int, id_end as int));
                let ghost before = found@;
                found.insert(id);
                proof {
                    assert forall|rest: Set<u32>| #![trigger rest.union(found@)]
                        region_keys_from(bs, id_end as int) == Ok::<Set<u32>, KeyFault>(rest)
                            implies region_keys_from(bs, 0) == Ok::<Set<u32>, KeyFault>(rest.union(found@)) by {
                        assert(region_keys_from(bs, search_from as int) == Ok::<Set<u32>, KeyFault>(rest.insert(id)));
                        assert(rest.insert(id).union(before) =~= rest.union(found@));
                    }
                }
                search_from = id_end;
            },
        }
    }
    Ok(found)
}


/// The scope and token of a waypoint name written `scope(token)`, each
/// absent where empty; both absent for any other name.
pub open spec fn split_waypoint_name_spec(name: Seq<char>) -> (Option<Seq<char>>, Option<Seq<char>>) {
    match first_char(name, '(') {
        Some(open) => if name.len() > 0 && name.last() == ')' && open + 1 < name.len() {
            let scope = name.subrange(0, open);
            let token = name.subrange(open + 1, name.len() - 1);
            (
                if scope.len() > 0 { Some(scope) } else { None },
                if token.len() > 0 { Some(token) } else { None },
            )
        } else {
            (None, None)
        },
        None => (None, None),
    }
}

/// Splits a waypoint name written `scope(token)`.
pub fn split_waypoint_name(raw_name: &str) -> (r: (Option<String>, Option<String>))
    ensures
        (match r.0 {
            Some(s) => Some(s@),
            None => None,
        }) == split_waypoint_name_spec(raw_name@).0,
        (match r.1 {
            Some(s) => Some(s@),
            None => None,
        }) == split_waypoint_name_spec(raw_name@).1,
{
    let n = raw_name.unicode_len();
    match find_char(raw_name, '(') {
        None => {
            proof {
                assert(!(exists|i: int| 0 <= i < raw_name@.len() && raw_name@[i] == '('));
            }
            (None, None)
        },
        Some(open) => {
            proof {
                lemma_first_char(raw_name@, '(', open as int);
            }
            if n > 0 && raw_name.get_char(n - 1) == ')' && open + 1 < n {
                let scope = raw_name.substring_char(0, open);
                let token = raw_name.substring_char(open + 1, n - 1);
                let scope_out = if open > 0 { Some(scope.to_owned()) } else { None };
                let token_out = if open + 1 < n - 1 { Some(token.to_owned()) } else { None };
                (scope_out, token_out)
            } else {
                (None, None)
            }
        },
    }
}

/// The file name that `std::path::Path::file_name` finds in `path`, as
/// text; `None` where it finds none.
pub uninterp spec fn path_file_name(path: Seq<char>) -> Option<Seq<char>>;

/// The file name of a path, by `std::path::Path::file_name`.
#[verifier::external_body]
pub(crate) fn file_name_of(path: &str) -> (r: Option<String>)
    ensures
        r matches Some(n) ==> path_file_name(path@) == Some(n@),
        r is None ==> path_file_name(path@) is None,
{
    match std::path::Path::new(path).file_name() {
        Some(name) => match name.to_str() {
            Some(text) => Some(text.to_owned()),
            None => None,
        },
        None => None,
    }
}

/// The file stem that `std::path::Path::file_stem` finds in `path`, as
/// text; `None` where it finds none.
pub uninterp spec fn path_file_stem(path: Seq<char>) -> Option<Seq<char>>;

/// The file stem of a path, by `std::path::Path::file_stem`.
#[verifier::external_body]
fn file_stem_of(path: &str) -> (r: Option<String>)
    ensures
        r matches Some(n) ==> path_file_stem(path@) == Some(n@),
        r is None ==> path_file_stem(path@) is None,
{
    match std::path::Path::new(path).file_stem() {
        Some(stem) => match stem.to_str() {
            Some(text) => Some(text.to_owned()),
            None => None,
        },
        None => None,
    }
}

/// The variant name of a `regionclientdata` file: the part between
/// `regionclientdata_` and `_.xml` in its file name, else its file stem,
/// else `unknown`.
pub open spec fn regionclientdata_variant_spec(path: Seq<char>) -> Seq<char> {
    let name = match path_file_name(path) {
        Some(n) => n,
        None => Seq::empty(),
    };
    let prefix = "regionclientdata_"@;
    let suffix = "_.xml"@;
    if name.len() >= prefix.len() && name.subrange(0, prefix.len() as int) == prefix
        && name.len() - prefix.len() >= suffix.len()
        && name.subrange(name.len() - suffix.len(), name.len() as int) == suffix {
        name.subrange(prefix.len() as int, name.len() - suffix.len())
    } else {
        match path_file_stem(path) {
            Some(stem) => stem,
            None => "unknown"@,
        }
    }
}

/// Infers the variant name of a `regionclientdata` file from its path.
pub fn infer_regionclientdata_variant(path: &str) -> (r: String)
    ensures
        r@ == regionclientdata_variant_spec(path@),
{
    let name = match file_name_of(path) {
        Some(n) => n,
        None => String::new(),
    };
    let prefix = "regionclientdata_";
    let suffix = "_.xml";
    let n = name.as_str().unicode_len();
    let p = prefix.unicode_len();
    let q = suffix.unicode_len();
    if n >= p && chars_at(name.as_str(), 0, prefix) && n - p >= q && chars_at(name.as_str(), n - q, suffix) {
        return name.as_str().substring_char(p, n - q).to_owned();
    }
    match file_stem_of(path) {
        Some(stem) => stem,
        None => "unknown".to_owned(),
    }
}


/// One row of `regioninfo.bss` found by its signature.
#[derive(Clone, Debug)]
pub struct DecodedRegionInfoBssRow {
    pub key: u32,
    pub row_start_offset: usize,
    pub tradeoriginregion: u32,
    pub regiongroup: u32,
    pub waypoint: Option<u32>,
    pub ware_house_character_key: Option<u32>,
    pub npc_worker_character_key: Option<u32>,
    pub origin_label: Option<String>,
}

/// The bytes that sit 32 bytes into every decodable `regioninfo.bss` row.
pub open spec fn regioninfo_signature() -> Seq<u8> {
    seq![0x5Au8, 0x55u8, 0x00u8, 0x00u8]
}

/// A field where zero stands for none.
pub open spec fn nonzero_field(raw: u32) -> Option<u32> {
    if raw == 0 { None } else { Some(raw) }
}

/// The row of `regioninfo.bss` that starts at `start`.
pub open spec fn regioninfo_row_spec(b: Seq<u8>, start: int) -> DecodedRegionInfoBssRow {
    DecodedRegionInfoBssRow {
        key: u16_at(b, start) as u32,
        row_start_offset: start as usize,
        tradeoriginregion: u16_at(b, start + 102) as u32,
        regiongroup: u16_at(b, start + 104) as u32,
        waypoint: match shifted_field(u32_at(b, start + 106)) {
            Some(w) => Some(w),
            None => shifted_field(u32_at(b, start + 110)),
        },
        ware_house_character_key: nonzero_field(u32_at(b, start + 185)),
        npc_worker_character_key: nonzero_field(u32_at(b, start + 189)),
        origin_label: None,
    }
}

/// The rows whose signature occurs at or after `from`, keyed by region; of
/// rows with the same key the first one counts. The scan stops at the
/// first signature whose row would run past the end.
pub open spec fn regioninfo_rows_from(b: Seq<u8>, from: int) -> Map<u32, DecodedRegionInfoBssRow>
    decreases b.len() + 1 - from,
{
    match find_from(b, regioninfo_signature(), from) {
        None => Map::empty(),
        Some(sig) => if sig <= from - 1 || sig > b.len() {
            Map::empty()
        } else if sig < 32 {
            regioninfo_rows_from(b, sig + 1)
        } else if sig - 32 + 193 > b.len() {
            Map::empty()
        } else if u16_at(b, sig - 32) == 0 {
            regioninfo_rows_from(b, sig + 1)
        } else {
            regioninfo_rows_from(b, sig + 1).insert(u16_at(b, sig - 32) as u32, regioninfo_row_spec(b, sig - 32))
        },
    }
}

fn regioninfo_row(bytes: &[u8], start: usize) -> (r: DecodedRegionInfoBssRow)
    requires
        start + 193 <= bytes@.len(),
    ensures
        r == regioninfo_row_spec(bytes@, start as int),
{
    let n = bytes.len();
    assert(start + 193 <= n);
    let primary = u32_le_at(bytes, start + 106);
    let secondary = u32_le_at(bytes, start + 110);
    let waypoint = if primary != 0 && primary & 0xFF == 0 {
        Some(primary >> 8)
    } else if secondary != 0 && secondary & 0xFF == 0 {
        Some(secondary >> 8)
    } else {
        None
    };
    let warehouse = u32_le_at(bytes, start + 185);
    let worker = u32_le_at(bytes, start + 189);
    DecodedRegionInfoBssRow {
        key: u16_le_at(bytes, start) as u32,
        row_start_offset: start,
        tradeoriginregion: u16_le_at(bytes, start + 102) as u32,
        regiongroup: u16_le_at(bytes, start + 104) as u32,
        waypoint,
        ware_house_character_key: if warehouse == 0 { None } else { Some(warehouse) },
        npc_worker_character_key: if worker == 0 { None } else { Some(worker) },
        origin_label: None,
    }
}

/// The rows of `regioninfo.bss` found by their signature, keyed by region.
pub fn decode_regioninfo_bss_signature_rows(bytes: &[u8]) -> (r: Result<BTreeMap<u32, DecodedRegionInfoBssRow>, GcdataError>)
    ensures
        bytes@.len() < 8 ==> r matches Err(GcdataError::TooSmall),
        bytes@.len() >= 8 && !starts_with_pabr(bytes@) ==> r matches Err(GcdataError::MissingMagic),
        bytes@.len() >= 8 && starts_with_pabr(bytes@) ==> (r matches Ok(rows) && rows@ == regioninfo_rows_from(bytes@, 0)),
{
    if bytes.len() < 8 {
        return Err(GcdataError::TooSmall);
    }
    if !(bytes[0] == 0x50u8 && bytes[1] == 0x41u8 && bytes[2] == 0x42u8 && bytes[3] == 0x52u8) {
        return Err(GcdataError::MissingMagic);
    }
    let ghost bs = bytes@;
    let signature: [u8; 4] = [0x5A, 0x55, 0x00, 0x00];
    assert(signature@ =~= regioninfo_signature());
    let mut rows: BTreeMap<u32, DecodedRegionInfoBssRow> = BTreeMap::new();
    let mut search_from: usize = 0;
    proof {
        assert forall|rest: Map<u32, DecodedRegionInfoBssRow>| #![trigger rest.union_prefer_right(rows@)]
            rest.union_prefer_right(rows@) == rest by {
            assert(rest.union_prefer_right(rows@) =~= rest);
        }
    }
    while search_from <= bytes.len()
        invariant
            bs == bytes@,
            bs.len() >= 8,
            starts_with_pabr(bs),
            signature@ == regioninfo_signature(),
            search_from <= bs.len(),
            forall|rest: Map<u32, DecodedRegionInfoBssRow>| #![trigger rest.union_prefer_right(rows@)]
                regioninfo_rows_from(bs, search_from as int) == rest
                    ==> regioninfo_rows_from(bs, 0) == rest.union_prefer_right(rows@),
        decreases bs.len() + 1 - search_from,
    {
        proof {
            lemma_find_from_bounds(bs, regioninfo_signature(), search_from as int);
        }
        let sig = match find_bytes(bytes, signature.as_slice(), search_from) {
            None => {
                assert(Map::<u32, DecodedRegionInfoBssRow>::empty().union_prefer_right(rows@) =~= rows@);
                return Ok(rows);
            },
            Some(k) => k,
        };
        if sig < 32 {
            search_from = sig + 1;
        } else {
            let start = sig - 32;
            if bytes.len() - start < 193 {
                assert(Map::<u32, DecodedRegionInfoBssRow>::empty().union_prefer_right(rows@) =~= rows@);
                return Ok(rows);
            }
            let key = u16_le_at(bytes, start);
            if key == 0 {
                search_from = sig + 1;
            } else {
                let row = regioninfo_row(bytes, start);
                let ghost before = rows@;
                let k32 = key as u32;
                if !rows.contains_key(&k32) {
                    rows.insert(k32, row);
                }
                proof {
                    assert forall|rest: Map<u32, DecodedRegionInfoBssRow>| #![trigger rest.union_prefer_right(rows@)]
                        regioninfo_rows_from(bs, sig + 1) == rest
                            implies regioninfo_rows_from(bs, 0) == rest.union_prefer_right(rows@) by {
                        assert(regioninfo_rows_from(bs, search_from as int) == rest.insert(k32, row));
                        assert(rest.insert(k32, row).union_prefer_right(before) =~= rest.union_prefer_right(rows@));
                    }
                }
                search_from = sig + 1;
            }
        }
    }
    Ok(rows)
}


/// One `regionclientdata` file: its variant name, its path and the region
/// ids it holds.
#[derive(Clone, Debug)]
pub struct RegionClientDataVariant {
    pub variant: String,
    pub path: String,
    pub region_ids: BTreeSet<u32>,
}

/// Whether `order` lists the positions of `vs` as a stable sort by variant
/// name puts them: each position once, names never falling, and equal names
/// in their first order.
pub open spec fn stable_variant_order(vs: Seq<RegionClientDataVariant>, order: Seq<int>) -> bool {
    &&& order.len() == vs.len()
    &&& forall|i: int| 0 <= i < order.len() ==> 0 <= #[trigger] order[i] < vs.len()
    &&& forall|i: int, j: int| 0 <= i < order.len() && 0 <= j < order.len() && i != j ==> #[trigger] order[i] != #[trigger] order[j]
    &&& forall|i: int, j: int| 0 <= i < j < order.len() ==> !text_lt(vs[#[trigger] order[j]].variant@, vs[#[trigger] order[i]].variant@)
    &&& forall|i: int, j: int| 0 <= i < j < order.len() && vs[#[trigger] order[i]].variant@ == vs[#[trigger] order[j]].variant@ ==> order[i] < order[j]
}

/// Whether `s` holds the variants `vs` sorted by name, stably.
pub open spec fn sorted_by_variant(vs: Seq<RegionClientDataVariant>, s: Seq<RegionClientDataVariant>) -> bool {
    exists|order: Seq<int>| {
        &&& stable_variant_order(vs, order)
        &&& s.len() == vs.len()
        &&& forall|i: int| 0 <= i < s.len() ==> #[trigger] s[i] == vs[order[i]]
    }
}

/// Sorts `regionclientdata` variants by name, keeping files of one name in
/// the order given.
pub fn sort_regionclientdata_variants(variants: Vec<RegionClientDataVariant>) -> (r: Vec<RegionClientDataVariant>)
    ensures
        sorted_by_variant(variants@, r@),
{
    let ghost orig = variants@;
    let n = variants.len();
    let mut rest = variants;
    let mut out: Vec<RegionClientDataVariant> = Vec::new();
    let ghost mut order: Seq<int> = seq![];
    let mut k: usize = 0;
    while k < n
        invariant
            n == orig.len(),
            k <= n,
            rest@ == orig.subrange(k as int, n as int),
            out@.len() == k,
            order.len() == k,
            forall|i: int| 0 <= i < k ==> 0 <= #[trigger] order[i] < k,
            forall|i: int, j: int| 0 <= i < k && 0 <= j < k && i != j ==> #[trigger] order[i] != #[trigger] order[j],
            forall|i: int| 0 <= i < k ==> #[trigger] out@[i] == orig[order[i]],
            forall|i: int, j: int| 0 <= i < j < k ==> !text_lt(#[trigger] out@[j].variant@, #[trigger] out@[i].variant@),
            forall|i: int, j: int| 0 <= i < j < k && (#[trigger] out@[i]).variant@ == (#[trigger] out@[j]).variant@ ==> order[i] < order[j],
        decreases n - k,
    {
        let x = rest.remove(0);
        assert(x == orig[k as int]);
        assert(rest@ =~= orig.subrange(k + 1, n as int));
        let mut q = out.len();
        while q > 0 && str_lt(x.variant.as_str(), out[q - 1].variant.as_str())
            invariant
                q <= out@.len(),
                forall|j: int| q <= j < out@.len() ==> text_lt(x.variant@, #[trigger] out@[j].variant@),
            decreases q,
        {
            q = q - 1;
        }
        let ghost before = out@;
        let ghost order_before = order;
        proof {
            if q > 0 {
                assert(!text_lt(x.variant@, before[q - 1].variant@));
                assert forall|i: int| 0 <= i < q implies !text_lt(x.variant@, #[trigger] before[i].variant@) by {
                    if i < q - 1 {
                        assert(!text_lt(before[q - 1].variant@, before[i].variant@));
                        lemma_text_lt_total(before[q - 1].variant@, before[i].variant@);
                        lemma_text_lt_total(x.variant@, before[q - 1].variant@);
                        lemma_text_lt_strict(x.variant@, before[i].variant@);
                        lemma_text_lt_strict(before[i].variant@, x.variant@);
                        if text_lt(before[i].variant@, before[q - 1].variant@) && text_lt(before[q - 1].variant@, x.variant@) {
                            lemma_text_lt_transitive(before[i].variant@, before[q - 1].variant@, x.variant@);
                        }
                    }
                }
            }
        }
        out.insert(q, x);
        proof {
            order = order.insert(q as int, k as int);
            assert forall|i: int| 0 <= i < k + 1 implies #[trigger] out@[i] == orig[order[i]] by {
                if i < q {
                    assert(out@[i] == before[i]);
                    assert(order[i] == order_before[i]);
                } else if i > q {
                    assert(out@[i] == before[i - 1]);
                    assert(order[i] == order_before[i - 1]);
                }
            }
            assert forall|i: int| 0 <= i < k + 1 implies 0 <= #[trigger] order[i] < k + 1 by {
                if i < q {
                    assert(order[i] == order_before[i]);
                } else if i > q {
                    assert(order[i] == order_before[i - 1]);
                }
            }
            assert forall|i: int, j: int| 0 <= i < k + 1 && 0 <= j < k + 1 && i != j implies #[trigger] order[i] != #[trigger] order[j] by {
                let oi = if i < q { i } else { i - 1 };
                let oj = if j < q { j } else { j - 1 };
                if i != q {
                    assert(order[i] == order_before[oi]);
                }
                if j != q {
                    assert(order[j] == order_before[oj]);
                }
            }
            assert forall|i: int, j: int| 0 <= i < j < k + 1 implies !text_lt(#[trigger] out@[j].variant@, #[trigger] out@[i].variant@) by {
                if j < q {
                    assert(out@[i] == before[i] && out@[j] == before[j]);
                } else if j == q {
                    assert(out@[i] == before[i]);
                } else if i == q {
                    assert(out@[j] == before[j - 1]);
                    lemma_text_lt_strict(x.variant@, before[j - 1].variant@);
                } else if i < q {
                    assert(out@[i] == before[i] && out@[j] == before[j - 1]);
                } else {
                    assert(out@[i] == before[i - 1] && out@[j] == before[j - 1]);
                }
            }
            assert forall|i: int, j: int| 0 <= i < j < k + 1 && (#[trigger] out@[i]).variant@ == (#[trigger] out@[j]).variant@ implies order[i] < order[j] by {
                if j < q {
                    assert(out@[i] == before[i] && out@[j] == before[j]);
                    assert(order[i] == order_before[i] && order[j] == order_before[j]);
                } else if j == q {
                    assert(order[i] == order_before[i]);
                } else if i == q {
                    assert(out@[j] == before[j - 1]);
                    lemma_text_lt_strict(x.variant@, x.variant@);
                } else if i < q {
                    assert(out@[i] == before[i] && out@[j] == before[j - 1]);
                    assert(order[i] == order_before[i] && order[j] == order_before[j - 1]);
                } else {
                    assert(out@[i] == before[i - 1] && out@[j] == before[j - 1]);
                    assert(order[i] == order_before[i - 1] && order[j] == order_before[j - 1]);
                }
            }
        }
        k = k + 1;
    }
    proof {
        assert(stable_variant_order(orig, order)) by {
            assert forall|i: int, j: int| 0 <= i < j < order.len() implies !text_lt(orig[#[trigger] order[j]].variant@, orig[#[trigger] order[i]].variant@) by {
                assert(out@[i] == orig[order[i]] && out@[j] == orig[order[j]]);
            }
            assert forall|i: int, j: int| 0 <= i < j < order.len() && orig[#[trigger] order[i]].variant@ == orig[#[trigger] order[j]].variant@ implies order[i] < order[j] by {
                assert(out@[i] == orig[order[i]] && out@[j] == orig[order[j]]);
            }
        }
    }
    out
}

proof fn lemma_all_region_ids_member(vs: Seq<RegionClientDataVariant>, x: u32)
    ensures
        all_region_ids(vs).contains(x) <==> exists|i: int| 0 <= i < vs.len() && (#[trigger] vs[i]).region_ids@.contains(x),
    decreases vs.len(),
{
    if vs.len() > 0 {
        let rest = vs.drop_last();
        lemma_all_region_ids_member(rest, x);
        if exists|i: int| 0 <= i < rest.len() && (#[trigger] rest[i]).region_ids@.contains(x) {
            let i = choose|i: int| 0 <= i < rest.len() && (#[trigger] rest[i]).region_ids@.contains(x);
            assert(vs[i] == rest[i]);
        }
        if exists|i: int| 0 <= i < vs.len() && (#[trigger] vs[i]).region_ids@.contains(x) {
            let i = choose|i: int| 0 <= i < vs.len() && (#[trigger] vs[i]).region_ids@.contains(x);
            if i < vs.len() - 1 {
                assert(rest[i] == vs[i]);
            }
        }
    }
}

/// Whether some entry of `order` is `p`.
pub open spec fn order_hits(order: Seq<int>, p: int) -> bool {
    exists|i: int| 0 <= i < order.len() && #[trigger] order[i] == p
}

proof fn lemma_order_onto(n: int, order: Seq<int>)
    requires
        order.len() == n,
        forall|i: int| 0 <= i < order.len() ==> 0 <= #[trigger] order[i] < n,
        forall|i: int, j: int| 0 <= i < order.len() && 0 <= j < order.len() && i != j ==> #[trigger] order[i] != #[trigger] order[j],
    ensures
        forall|p: int| 0 <= p < n ==> #[trigger] order_hits(order, p),
{
    assert(order.no_duplicates());
    order.unique_seq_to_set();
    vstd::set_lib::lemma_int_range(0, n);
    assert(order.to_set().subset_of(vstd::set_lib::set_int_range(0, n)));
    vstd::seq_lib::seq_to_set_is_finite(order);
    vstd::set_lib::lemma_subset_equality(order.to_set(), vstd::set_lib::set_int_range(0, n));
    assert forall|p: int| 0 <= p < n implies #[trigger] order_hits(order, p) by {
        assert(vstd::set_lib::set_int_range(0, n).contains(p));
        assert(order.to_set().contains(p));
    }
}

/// Sorting the variants by name changes neither which region ids they hold
/// together, nor how many: the sorted files are the same files, and their
/// names never fall.
pub proof fn law_sorting_variants_keeps_their_ids(vs: Seq<RegionClientDataVariant>, s: Seq<RegionClientDataVariant>)
    requires
        sorted_by_variant(vs, s),
    ensures
        all_region_ids(s) == all_region_ids(vs),
        s.len() == vs.len(),
        forall|i: int, j: int| 0 <= i < j < s.len() ==> !text_lt((#[trigger] s[j]).variant@, (#[trigger] s[i]).variant@),
{
    let order = choose|order: Seq<int>| {
        &&& stable_variant_order(vs, order)
        &&& s.len() == vs.len()
        &&& forall|i: int| 0 <= i < s.len() ==> #[trigger] s[i] == vs[order[i]]
    };
    lemma_order_onto(vs.len() as int, order);
    assert forall|x: u32| all_region_ids(s).contains(x) == all_region_ids(vs).contains(x) by {
        lemma_all_region_ids_member(s, x);
        lemma_all_region_ids_member(vs, x);
        if exists|i: int| 0 <= i < s.len() && (#[trigger] s[i]).region_ids@.contains(x) {
            let i = choose|i: int| 0 <= i < s.len() && (#[trigger] s[i]).region_ids@.contains(x);
            assert(vs[order[i]] == s[i]);
        }
        if exists|p: int| 0 <= p < vs.len() && (#[trigger] vs[p]).region_ids@.contains(x) {
            let p = choose|p: int| 0 <= p < vs.len() && (#[trigger] vs[p]).region_ids@.contains(x);
            assert(order_hits(order, p));
            let i = choose|i: int| 0 <= i < order.len() && #[trigger] order[i] == p;
            assert(s[i] == vs[p]);
        }
    }
    assert(all_region_ids(s) =~= all_region_ids(vs));
    assert forall|i: int, j: int| 0 <= i < j < s.len() implies !text_lt((#[trigger] s[j]).variant@, (#[trigger] s[i]).variant@) by {
        assert(s[i] == vs[order[i]] && s[j] == vs[order[j]]);
    }
}

/// What an inspection reports of one `regionclientdata` file.
#[derive(Clone, Debug)]
pub struct RegionClientDataVariantReport {
    pub variant: String,
    pub path: String,
    pub region_count: usize,
    pub focus_region_ids: Vec<u32>,
}

/// What an inspection of `regionclientdata` files counts.
#[derive(Clone, Copy, Debug)]
pub struct RegionClientDataInspectSummary {
    pub variant_count: usize,
    pub total_unique_region_ids: usize,
    pub focus_region_count: usize,
}

/// The region ids of all the variants together.
pub open spec fn all_region_ids(vs: Seq<RegionClientDataVariant>) -> Set<u32>
    decreases vs.len(),
{
    if vs.len() == 0 {
        Set::empty()
    } else {
        all_region_ids(vs.drop_last()).union(vs.last().region_ids@)
    }
}

/// Adds every id of `ids` to `all`.
fn add_all(all: &mut BTreeSet<u32>, ids: &BTreeSet<u32>)
    ensures
        final(all)@ == old(all)@.union(ids@),
{
    let ghost start = all@;
    for id in it: ids.iter()
        invariant
            it.seq().unref().to_set() == ids@,
            forall|x: u32|
                #[trigger] all@.contains(x) <==> (start.contains(x) || exists|j: int|
                    0 <= j < it.index() && it.seq().unref()[j] == x),
    {
        let ghost k = it.index();
        let ghost s = it.seq().unref();
        all.insert(*id);
        assert forall|x: u32| #[trigger] all@.contains(x) <==> (start.contains(x) || exists|j: int|
            0 <= j < k + 1 && s[j] == x) by {
            if x == *id {
                assert(s[k] == x);
            }
        }
    }
}

/// The ids of `focus`, each once, rising.
fn sorted_focus(focus: &[u32]) -> (r: Vec<u32>)
    ensures
        strictly_increasing(r@),
        forall|x: u32| r@.contains(x) <==> focus@.contains(x),
{
    let mut out: Vec<u32> = Vec::new();
    let mut k: usize = 0;
    while k < focus.len()
        invariant
            k <= focus@.len(),
            strictly_increasing(out@),
            forall|x: u32| out@.contains(x) <==> focus@.subrange(0, k as int).contains(x),
        decreases focus@.len() - k,
    {
        let ghost prefix = focus@.subrange(0, k as int);
        assert(focus@.subrange(0, k + 1) =~= prefix.push(focus@[k as int]));
        assert forall|x: u32| prefix.push(focus@[k as int]).contains(x) <==> (prefix.contains(x) || x == focus@[k as int]) by {
            if prefix.push(focus@[k as int]).contains(x) {
                let i = choose|i: int| 0 <= i < k + 1 && prefix.push(focus@[k as int])[i] == x;
                if i < k {
                    assert(prefix[i] == x);
                }
            }
            if prefix.contains(x) {
                let i = choose|i: int| 0 <= i < k && prefix[i] == x;
                assert(prefix.push(focus@[k as int])[i] == x);
            }
            if x == focus@[k as int] {
                assert(prefix.push(focus@[k as int])[k as int] == x);
            }
        }
        insert_sorted(&mut out, focus[k]);
        k = k + 1;
    }
    assert(focus@.subrange(0, focus@.len() as int) =~= focus@);
    out
}

/// The ids of the rising list `ids` that `set` holds, rising.
fn ids_in(ids: &Vec<u32>, set: &BTreeSet<u32>) -> (r: Vec<u32>)
    requires
        strictly_increasing(ids@),
    ensures
        strictly_increasing(r@),
        forall|x: u32| r@.contains(x) <==> (ids@.contains(x) && set@.contains(x)),
{
    let mut out: Vec<u32> = Vec::new();
    let mut k: usize = 0;
    while k < ids.len()
        invariant
            k <= ids@.len(),
            strictly_increasing(ids@),
            strictly_increasing(out@),
            forall|j: int| 0 <= j < out@.len() ==> exists|i: int| 0 <= i < k && ids@[i] == #[trigger] out@[j],
            forall|x: u32| out@.contains(x) <==> (ids@.subrange(0, k as int).contains(x) && set@.contains(x)),
        decreases ids@.len() - k,
    {
        let x = ids[k];
        let ghost prefix = ids@.subrange(0, k as int);
        assert(ids@.subrange(0, k + 1) =~= prefix.push(x));
        let ghost before = out@;
        if set.contains(&x) {
            assert forall|j: int| 0 <= j < before.len() implies before[j] < x by {
                let i = choose|i: int| 0 <= i < k && ids@[i] == before[j];
            }
            out.push(x);
            assert(out@ =~= before.push(x));
        }
        assert forall|y: u32| out@.contains(y) <==> (ids@.subrange(0, k + 1).contains(y) && set@.contains(y)) by {
            if out@.contains(y) && y != x {
                let j = choose|j: int| 0 <= j < out@.len() && out@[j] == y;
                assert(before.contains(y)) by {
                    assert(before[j] == y);
                }
                let i = choose|i: int| 0 <= i < k && prefix[i] == y;
                assert(ids@.subrange(0, k + 1)[i] == y);
            }
            if ids@.subrange(0, k + 1).contains(y) && set@.contains(y) && y != x {
                let i = choose|i: int| 0 <= i < k + 1 && #[trigger] ids@.subrange(0, k + 1)[i] == y;
                assert(prefix[i] == y);
                assert(before.contains(y));
                let j = choose|j: int| 0 <= j < before.len() && before[j] == y;
                assert(out@[j] == y);
            }
            if y == x && set@.contains(x) {
                assert(out@[out@.len() - 1] == x);
            }
            if y == x && out@.contains(y) {
                assert(ids@.subrange(0, k + 1)[k as int] == x);
            }
        }
        k = k + 1;
    }
    assert(ids@.subrange(0, ids@.len() as int) =~= ids@);
    out
}

/// The number of ids of the rising list `ids` that `set` holds.
fn count_in(ids: &Vec<u32>, set: &BTreeSet<u32>) -> (r: usize)
    requires
        strictly_increasing(ids@),
    ensures
        r == set@.filter(|x: u32| ids@.contains(x)).len(),
{
    let found = ids_in(ids, set);
    proof {
        let t = set@.filter(|x: u32| ids@.contains(x));
        assert(found@.to_set() =~= t) by {
            assert forall|x: u32| found@.to_set().contains(x) <==> t.contains(x) by {}
        }
        lemma_rising_no_duplicates(found@);
        found@.unique_seq_to_set();
    }
    found.len()
}

proof fn lemma_rising_no_duplicates(s: Seq<u32>)
    requires
        strictly_increasing(s),
    ensures
        s.no_duplicates(),
{
    assert forall|i: int, j: int| 0 <= i < s.len() && 0 <= j < s.len() && i != j implies s[i] != s[j] by {
        if i < j {
            assert(s[i] < s[j]);
        } else {
            assert(s[j] < s[i]);
        }
    }
}

/// Whether `reports` and `summary` are what inspecting `variants`, in that
/// order, with the focus ids `focus` gives.
pub open spec fn variants_inspected(
    variants: Seq<RegionClientDataVariant>,
    focus: Seq<u32>,
    reports: Seq<RegionClientDataVariantReport>,
    summary: RegionClientDataInspectSummary,
) -> bool {
    &&& reports.len() == variants.len()
    &&& forall|k: int|
        0 <= k < variants.len() ==> {
            let rep = #[trigger] reports[k];
            let v = variants[k];
            &&& rep.variant@ == v.variant@
            &&& rep.path@ == v.path@
            &&& rep.region_count == v.region_ids@.len()
            &&& strictly_increasing(rep.focus_region_ids@)
            &&& forall|x: u32| rep.focus_region_ids@.contains(x) <==> (focus.contains(x) && v.region_ids@.contains(x))
        }
    &&& summary.variant_count == variants.len()
    &&& summary.total_unique_region_ids == all_region_ids(variants).len()
    &&& summary.focus_region_count == all_region_ids(variants).filter(|x: u32| focus.contains(x)).len()
}

/// Inspects `regionclientdata` files, sorted by variant name: for each, the
/// number of its region ids and which of the focus ids it holds; across all,
/// the number of distinct region ids and of the focus ids among them.
pub fn inspect_regionclientdata(variants: Vec<RegionClientDataVariant>, focus_region_ids: &[u32]) -> (r: (
    Vec<RegionClientDataVariantReport>,
    RegionClientDataInspectSummary,
))
    ensures
        exists|sorted: Seq<RegionClientDataVariant>| {
            &&& sorted_by_variant(variants@, sorted)
            &&& variants_inspected(sorted, focus_region_ids@, r.0@, r.1)
        },
{
    let sorted = sort_regionclientdata_variants(variants);
    inspect_variants_in_order(sorted.as_slice(), focus_region_ids)
}

/// Inspects `regionclientdata` files in the order given.
pub(crate) fn inspect_variants_in_order(variants: &[RegionClientDataVariant], focus_region_ids: &[u32]) -> (r: (
    Vec<RegionClientDataVariantReport>,
    RegionClientDataInspectSummary,
))
    ensures
        variants_inspected(variants@, focus_region_ids@, r.0@, r.1),
        r.0@.len() == variants@.len(),
        forall|k: int|
            0 <= k < variants@.len() ==> {
                let rep = #[trigger] r.0@[k];
                let v = variants@[k];
                &&& rep.variant@ == v.variant@
                &&& rep.path@ == v.path@
                &&& rep.region_count == v.region_ids@.len()
                &&& strictly_increasing(rep.focus_region_ids@)
                &&& forall|x: u32| rep.focus_region_ids@.contains(x) <==> (focus_region_ids@.contains(x) && v.region_ids@.contains(x))
            },
        r.1.variant_count == variants@.len(),
        r.1.total_unique_region_ids == all_region_ids(variants@).len(),
        r.1.focus_region_count == all_region_ids(variants@).filter(|x: u32| focus_region_ids@.contains(x)).len(),
{
    let focus = sorted_focus(focus_region_ids);
    let mut all: BTreeSet<u32> = BTreeSet::new();
    let mut reports: Vec<RegionClientDataVariantReport> = Vec::new();
    let mut k: usize = 0;
    while k < variants.len()
        invariant
            k <= variants@.len(),
            strictly_increasing(focus@),
            forall|x: u32| focus@.contains(x) <==> focus_region_ids@.contains(x),
            all@ == all_region_ids(variants@.subrange(0, k as int)),
            reports@.len() == k,
            forall|j: int|
                0 <= j < k ==> {
                    let rep = #[trigger] reports@[j];
                    let v = variants@[j];
                    &&& rep.variant@ == v.variant@
                    &&& rep.path@ == v.path@
                    &&& rep.region_count == v.region_ids@.len()
                    &&& strictly_increasing(rep.focus_region_ids@)
                    &&& forall|x: u32| rep.focus_region_ids@.contains(x) <==> (focus_region_ids@.contains(x) && v.region_ids@.contains(x))
                },
        decreases variants@.len() - k,
    {
        let v = &variants[k];
        let focus_region_ids_here = ids_in(&focus, &v.region_ids);
        reports.push(RegionClientDataVariantReport {
            variant: v.variant.clone(),
            path: v.path.clone(),
            region_count: v.region_ids.len(),
            focus_region_ids: focus_region_ids_here,
        });
        add_all(&mut all, &v.region_ids);
        assert(variants@.subrange(0, k + 1).drop_last() =~= variants@.subrange(0, k as int));
        k = k + 1;
    }
    assert(variants@.subrange(0, variants@.len() as int) =~= variants@);
    let focus_count = count_in(&focus, &all);
    assert(all@.filter(|x: u32| focus@.contains(x)) =~= all@.filter(|x: u32| focus_region_ids@.contains(x)));
    let summary = RegionClientDataInspectSummary {
        variant_count: variants.len(),
        total_unique_region_ids: all.len(),
        focus_region_count: focus_count,
    };
    (reports, summary)
}


/// One row of `regiongroupinfo.bss`: its group key, where it lies, its
/// waypoint, the bits of the three `f32` coordinates of its graph position,
/// whether that position is set, and its three flag bytes in hexadecimal.
#[derive(Clone, Debug)]
pub struct DecodedRegionGroupInfoBssRow {
    pub key: u32,
    pub row_index: usize,
    pub row_start_offset: usize,
    pub waypoint: Option<u32>,
    pub graphx_bits: u32,
    pub graphy_bits: u32,
    pub graphz_bits: u32,
    pub has_graph_position: bool,
    pub flag_bytes_hex: String,
}

/// The fields of a decoded group row, its flag text as characters.
pub open spec fn group_row_view(r: DecodedRegionGroupInfoBssRow) -> (u32, usize, usize, Option<u32>, u32, u32, u32, bool, Seq<char>) {
    (r.key, r.row_index, r.row_start_offset, r.waypoint, r.graphx_bits, r.graphy_bits, r.graphz_bits, r.has_graph_position, r.flag_bytes_hex@)
}

/// Whether the `f32` with bits `b` is not zero (neither `+0.0` nor `-0.0`).
pub open spec fn f32_bits_nonzero(b: u32) -> bool {
    b & 0x7fff_ffffu32 != 0
}

/// Row `i` of `regiongroupinfo.bss`, 51 bytes from offset `8 + 51 i`.
pub open spec fn group_row_spec(b: Seq<u8>, i: int) -> (u32, usize, usize, Option<u32>, u32, u32, u32, bool, Seq<char>) {
    let start = 8 + 51 * i;
    let gx = u32_at(b, start + 12);
    let gy = u32_at(b, start + 16);
    let gz = u32_at(b, start + 20);
    (
        u16_at(b, start) as u32,
        i as usize,
        start as usize,
        nonzero_field(u32_at(b, start + 5)),
        gx,
        gy,
        gz,
        f32_bits_nonzero(gx) || f32_bits_nonzero(gy) || f32_bits_nonzero(gz),
        hex_lower_padded(b[start + 9] as nat, 2) + hex_lower_padded(b[start + 10] as nat, 2) + hex_lower_padded(
            b[start + 11] as nat,
            2,
        ),
    )
}

/// The rows among the first `n` whose key is not zero, keyed by group; of
/// rows with the same key the last one counts.
pub open spec fn group_rows_spec(b: Seq<u8>, n: int) -> Map<u32, (u32, usize, usize, Option<u32>, u32, u32, u32, bool, Seq<char>)>
    decreases n,
{
    if n <= 0 {
        Map::empty()
    } else if u16_at(b, 8 + 51 * (n - 1)) == 0 {
        group_rows_spec(b, n - 1)
    } else {
        group_rows_spec(b, n - 1).insert(u16_at(b, 8 + 51 * (n - 1)) as u32, group_row_spec(b, n - 1))
    }
}

/// What is wrong with `b` as `regiongroupinfo.bss`, if anything.
pub open spec fn group_table_fault(b: Seq<u8>) -> Option<GcdataError> {
    if b.len() < 20 {
        Some(GcdataError::TooSmall)
    } else if !starts_with_pabr(b) {
        Some(GcdataError::MissingMagic)
    } else if u32_at(b, 4) * 51 > usize::MAX {
        Some(GcdataError::PayloadSizeOverflow)
    } else if b.len() - 20 != u32_at(b, 4) * 51 {
        Some(GcdataError::PayloadLengthMismatch((u32_at(b, 4) * 51) as usize, (b.len() - 20) as usize))
    } else {
        None
    }
}

/// Row `i` of the table, which lies inside `bytes`.
fn group_row(bytes: &[u8], i: usize) -> (r: DecodedRegionGroupInfoBssRow)
    requires
        8 + 51 * i + 51 <= bytes@.len(),
    ensures
        group_row_view(r) == group_row_spec(bytes@, i as int),
{
    let n = bytes.len();
    assert(8 + 51 * i + 51 <= n);
    let start = 8 + 51 * i;
    let gx = u32_le_at(bytes, start + 12);
    let gy = u32_le_at(bytes, start + 16);
    let gz = u32_le_at(bytes, start + 20);
    let raw_waypoint = u32_le_at(bytes, start + 5);
    let mut flag_bytes_hex = String::new();
    push_hex_lower_padded(&mut flag_bytes_hex, bytes[start + 9] as u32, 2);
    push_hex_lower_padded(&mut flag_bytes_hex, bytes[start + 10] as u32, 2);
    push_hex_lower_padded(&mut flag_bytes_hex, bytes[start + 11] as u32, 2);
    DecodedRegionGroupInfoBssRow {
        key: u16_le_at(bytes, start) as u32,
        row_index: i,
        row_start_offset: start,
        waypoint: if raw_waypoint == 0 { None } else { Some(raw_waypoint) },
        graphx_bits: gx,
        graphy_bits: gy,
        graphz_bits: gz,
        has_graph_position: gx & 0x7fff_ffff != 0 || gy & 0x7fff_ffff != 0 || gz & 0x7fff_ffff != 0,
        flag_bytes_hex,
    }
}

/// Decodes the rows of `regiongroupinfo.bss`: after the PABR header, one
/// 51-byte row per entry and a 12-byte trailer; rows with key zero are
/// blank.
pub fn decode_regiongroupinfo_bss_rows(bytes: &[u8]) -> (r: Result<BTreeMap<u32, DecodedRegionGroupInfoBssRow>, GcdataError>)
    ensures
        match group_table_fault(bytes@) {
            Some(e) => r == Err::<BTreeMap<u32, DecodedRegionGroupInfoBssRow>, GcdataError>(e),
            None => r matches Ok(rows) && rows@.map_values(|row: DecodedRegionGroupInfoBssRow| group_row_view(row))
                == group_rows_spec(bytes@, u32_at(bytes@, 4) as int),
        },
{
    let n = bytes.len();
    if n < 20 {
        return Err(GcdataError::TooSmall);
    }
    if !(bytes[0] == 0x50u8 && bytes[1] == 0x41u8 && bytes[2] == 0x42u8 && bytes[3] == 0x52u8) {
        return Err(GcdataError::MissingMagic);
    }
    let entry_count = u32_le_at(bytes, 4) as usize;
    if entry_count > usize::MAX / 51 {
        return Err(GcdataError::PayloadSizeOverflow);
    }
    let expected = entry_count * 51;
    let payload = n - 20;
    if payload != expected {
        return Err(GcdataError::PayloadLengthMismatch(expected, payload));
    }
    let ghost b = bytes@;
    let mut rows: BTreeMap<u32, DecodedRegionGroupInfoBssRow> = BTreeMap::new();
    let mut i: usize = 0;
    while i < entry_count
        invariant
            b == bytes@,
            n == b.len(),
            n == 20 + entry_count * 51,
            i <= entry_count,
            rows@.map_values(|row: DecodedRegionGroupInfoBssRow| group_row_view(row)) == group_rows_spec(b, i as int),
        decreases entry_count - i,
    {
        let start = 8 + 51 * i;
        let key = u16_le_at(bytes, start) as u32;
        if key != 0 {
            let row = group_row(bytes, i);
            let ghost before = rows@;
            rows.insert(key, row);
            assert(rows@.map_values(|row: DecodedRegionGroupInfoBssRow| group_row_view(row)) =~= before.map_values(
                |row: DecodedRegionGroupInfoBssRow| group_row_view(row),
            ).insert(key, group_row_spec(b, i as int)));
        }
        i = i + 1;
    }
    Ok(rows)
}

/// The keys of `rows`, rising.
pub fn sorted_row_keys<V>(rows: &BTreeMap<u32, V>) -> (r: Vec<u32>)
    ensures
        strictly_increasing(r@),
        forall|x: u32| r@.contains(x) <==> rows@.contains_key(x),
{
    let mut out: Vec<u32> = Vec::new();
    for id in it: rows.keys()
        invariant
            it.seq().unref().to_set() == rows@.dom(),
            strictly_increasing(out@),
            forall|x: u32|
                #[trigger] out@.contains(x) <==> exists|j: int| 0 <= j < it.index() && it.seq().unref()[j] == x,
    {
        let ghost k = it.index();
        let ghost s = it.seq().unref();
        insert_sorted(&mut out, *id);
        assert forall|x: u32| #[trigger] out@.contains(x) <==> exists|j: int| 0 <= j < k + 1 && s[j] == x by {
            if x == *id {
                assert(s[k] == x);
            }
        }
    }
    out
}

/// The rows an inspection shows: every key, rising, where no focus is
/// given; else the focus ids that have a row, in the focus's order. And the
/// focus ids that have none.
pub fn focus_selection<V>(rows: &BTreeMap<u32, V>, focus: &[u32]) -> (r: (Vec<u32>, Vec<u32>))
    ensures
        focus@.len() == 0 ==> strictly_increasing(r.0@) && (forall|x: u32| r.0@.contains(x) <==> rows@.contains_key(x))
            && r.1@.len() == 0,
        focus@.len() > 0 ==> r.0@ == focus@.filter(|x: u32| rows@.contains_key(x)) && r.1@ == focus@.filter(
            |x: u32| !rows@.contains_key(x),
        ),
{
    if focus.len() == 0 {
        return (sorted_row_keys(rows), Vec::new());
    }
    let mut found: Vec<u32> = Vec::new();
    let mut missing: Vec<u32> = Vec::new();
    let mut k: usize = 0;
    while k < focus.len()
        invariant
            k <= focus@.len(),
            found@ == focus@.subrange(0, k as int).filter(|x: u32| rows@.contains_key(x)),
            missing@ == focus@.subrange(0, k as int).filter(|x: u32| !rows@.contains_key(x)),
        decreases focus@.len() - k,
    {
        let x = focus[k];
        proof {
            reveal(Seq::filter);
            assert(focus@.subrange(0, k + 1).drop_last() =~= focus@.subrange(0, k as int));
        }
        if rows.contains_key(&x) {
            found.push(x);
        } else {
            missing.push(x);
        }
        k = k + 1;
    }
    assert(focus@.subrange(0, focus@.len() as int) =~= focus@);
    (found, missing)
}

/// What an inspection of `regioninfo.bss` counts.
#[derive(Clone, Debug)]
pub struct RegionInfoBssInspectSummary {
    pub output_path: Option<String>,
    pub header_entry_count: u32,
    pub decoded_signature_row_count: usize,
    pub focus_row_count: usize,
    pub missing_focus_row_count: usize,
}

/// What an inspection of `regiongroupinfo.bss` counts.
#[derive(Clone, Debug)]
pub struct RegionGroupInfoBssInspectSummary {
    pub output_path: Option<String>,
    pub header_entry_count: u32,
    pub decoded_group_row_count: usize,
    pub blank_placeholder_row_count: usize,
    pub current_group_count: Option<usize>,
    pub original_only_group_count: Option<usize>,
    pub current_only_group_count: Option<usize>,
    pub focus_row_count: usize,
    pub missing_focus_row_count: usize,
}

/// The text of an optional path.
fn copy_path(p: Option<&str>) -> (r: Option<String>)
    ensures
        (match r {
            Some(t) => Some(t@),
            None => None,
        }) == (match p {
            Some(t) => Some(t@),
            None => None,
        }),
{
    match p {
        Some(t) => Some(t.to_owned()),
        None => None,
    }
}

/// Sums up an inspection of `regioninfo.bss` whose header announces
/// `header_entry_count` entries and whose decoded rows are `rows`.
pub fn regioninfo_inspect_summary(
    header_entry_count: u32,
    rows: &BTreeMap<u32, DecodedRegionInfoBssRow>,
    focus: &[u32],
    output_path: Option<&str>,
) -> (r: (RegionInfoBssInspectSummary, Vec<u32>, Vec<u32>))
    ensures
        r.0.header_entry_count == header_entry_count,
        r.0.decoded_signature_row_count == rows@.len(),
        focus@.len() == 0 ==> strictly_increasing(r.1@) && (forall|x: u32| r.1@.contains(x) <==> rows@.contains_key(x))
            && r.2@.len() == 0,
        focus@.len() > 0 ==> r.1@ == focus@.filter(|x: u32| rows@.contains_key(x)) && r.2@ == focus@.filter(
            |x: u32| !rows@.contains_key(x),
        ),
        r.0.focus_row_count == (if focus@.len() == 0 { rows@.len() as int } else { focus@.len() - r.2@.len() }),
        r.0.missing_focus_row_count == r.2@.len(),
        (match r.0.output_path {
            Some(t) => Some(t@),
            None => None,
        }) == (match output_path {
            Some(t) => Some(t@),
            None => None,
        }),
{
    let (requested, missing) = focus_selection(rows, focus);
    proof {
        if focus@.len() > 0 {
            focus@.filter_lemma(|x: u32| !rows@.contains_key(x));
        }
    }
    let summary = RegionInfoBssInspectSummary {
        output_path: copy_path(output_path),
        header_entry_count,
        decoded_signature_row_count: rows.len(),
        focus_row_count: if focus.len() == 0 { rows.len() } else { focus.len() - missing.len() },
        missing_focus_row_count: missing.len(),
    };
    (summary, requested, missing)
}

/// The ids of the rising list `a` that are not in the rising list `b`, rising.
fn list_difference(a: &Vec<u32>, b: &Vec<u32>) -> (r: Vec<u32>)
    requires
        strictly_increasing(a@),
    ensures
        strictly_increasing(r@),
        forall|x: u32| r@.contains(x) <==> (a@.contains(x) && !b@.contains(x)),
{
    let mut out: Vec<u32> = Vec::new();
    let mut k: usize = 0;
    while k < a.len()
        invariant
            k <= a@.len(),
            strictly_increasing(out@),
            forall|x: u32| #[trigger] out@.contains(x) <==> (exists|j: int| 0 <= j < k && a@[j] == x) && !b@.contains(x),
        decreases a@.len() - k,
    {
        let x = a[k];
        let mut in_b = false;
        let mut j: usize = 0;
        while j < b.len()
            invariant
                j <= b@.len(),
                in_b <==> exists|i: int| 0 <= i < j && b@[i] == x,
            decreases b@.len() - j,
        {
            if b[j] == x {
                in_b = true;
            }
            j = j + 1;
        }
        if !in_b {
            insert_sorted(&mut out, x);
        }
        assert forall|y: u32| #[trigger] out@.contains(y) <==> (exists|i: int| 0 <= i < k + 1 && a@[i] == y) && !b@.contains(y) by {
            if y == x {
                assert(a@[k as int] == y);
            }
        }
        k = k + 1;
    }
    out
}

/// Sums up an inspection of `regiongroupinfo.bss` whose header announces
/// `header_entry_count` entries and whose decoded rows are `rows`, against
/// the group ids of the current graph, where given.
pub fn regiongroupinfo_inspect_summary(
    header_entry_count: u32,
    rows: &BTreeMap<u32, DecodedRegionGroupInfoBssRow>,
    current_group_ids: Option<&BTreeSet<u32>>,
    focus: &[u32],
    output_path: Option<&str>,
) -> (r: (RegionGroupInfoBssInspectSummary, Vec<u32>, Vec<u32>, Option<(Vec<u32>, Vec<u32>)>))
    ensures
        r.0.header_entry_count == header_entry_count,
        r.0.decoded_group_row_count == rows@.len(),
        r.0.blank_placeholder_row_count == (if header_entry_count >= rows@.len() { header_entry_count - rows@.len() } else { 0 }),
        focus@.len() == 0 ==> strictly_increasing(r.1@) && (forall|x: u32| r.1@.contains(x) <==> rows@.contains_key(x))
            && r.2@.len() == 0,
        focus@.len() > 0 ==> r.1@ == focus@.filter(|x: u32| rows@.contains_key(x)) && r.2@ == focus@.filter(
            |x: u32| !rows@.contains_key(x),
        ),
        r.0.focus_row_count == (if focus@.len() == 0 { rows@.len() as int } else { focus@.len() - r.2@.len() }),
        r.0.missing_focus_row_count == r.2@.len(),
        match current_group_ids {
            Some(c) => r.3 matches Some((original_only, current_only)) && strictly_increasing(original_only@)
                && (forall|x: u32| original_only@.contains(x) <==> (rows@.contains_key(x) && !c@.contains(x)))
                && strictly_increasing(current_only@) && (forall|x: u32| current_only@.contains(x) <==> (c@.contains(x)
                && !rows@.contains_key(x))) && r.0.current_group_count == Some(c@.len() as usize)
                && r.0.original_only_group_count == Some(original_only@.len() as usize)
                && r.0.current_only_group_count == Some(current_only@.len() as usize),
            None => r.3 is None && r.0.current_group_count is None && r.0.original_only_group_count is None
                && r.0.current_only_group_count is None,
        },
        (match r.0.output_path {
            Some(t) => Some(t@),
            None => None,
        }) == (match output_path {
            Some(t) => Some(t@),
            None => None,
        }),
{
    let (requested, missing) = focus_selection(rows, focus);
    proof {
        if focus@.len() > 0 {
            focus@.filter_lemma(|x: u32| !rows@.contains_key(x));
        }
    }
    let decoded = rows.len();
    let sides = match current_group_ids {
        Some(c) => {
            let original = sorted_row_keys(rows);
            let current = sorted_ids_of(c);
            Some((list_difference(&original, &current), list_difference(&current, &original)))
        },
        None => None,
    };
    let summary = RegionGroupInfoBssInspectSummary {
        output_path: copy_path(output_path),
        header_entry_count,
        decoded_group_row_count: decoded,
        blank_placeholder_row_count: if header_entry_count as usize >= decoded { header_entry_count as usize - decoded } else { 0 },
        current_group_count: match current_group_ids {
            Some(c) => Some(c.len()),
            None => None,
        },
        original_only_group_count: match &sides {
            Some((o, _)) => Some(o.len()),
            None => None,
        },
        current_only_group_count: match &sides {
            Some((_, c)) => Some(c.len()),
            None => None,
        },
        focus_row_count: if focus.len() == 0 { decoded } else { focus.len() - missing.len() },
        missing_focus_row_count: missing.len(),
    };
    (summary, requested, missing, sides)
}

/// The ids of `set`, rising.
fn sorted_ids_of(set: &BTreeSet<u32>) -> (r: Vec<u32>)
    ensures
        strictly_increasing(r@),
        forall|x: u32| r@.contains(x) <==> set@.contains(x),
{
    let mut out: Vec<u32> = Vec::new();
    for id in it: set.iter()
        invariant
            it.seq().unref().to_set() == set@,
            strictly_increasing(out@),
            forall|x: u32|
                #[trigger] out@.contains(x) <==> exists|j: int| 0 <= j < it.index() && it.seq().unref()[j] == x,
    {
        let ghost k = it.index();
        let ghost s = it.seq().unref();
        insert_sorted(&mut out, *id);
        assert forall|x: u32| #[trigger] out@.contains(x) <==> exists|j: int| 0 <= j < k + 1 && s[j] == x by {
            if x == *id {
                assert(s[k] == x);
            }
        }
    }
    out
}

} // verus!
