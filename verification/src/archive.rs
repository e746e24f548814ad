//! The archive index: `.meta` and `.paz` file tables, their NUL-separated
//! name tables, and the decoding of stored payloads.
use std::io::Read;
use vstd::prelude::*;
use vstd::utf8::encode_utf8;
use crate::bytes::{u32_at, read_u32_le};
use crate::compression::{decompress_bdo, decompress_spec, DecompressError};
use crate::ice::{decrypt_spec, key_schedule, IceError, IceKey};
use crate::text::{decimal_padded, push_decimal_padded, parse_u32_bytes, parse_u32_spec};
use crate::wildcard::{wild_match_any, wild_match_spec};

verus! {

/// The key of the client's archive encryption.
pub const BDO_DECRYPTION_KEY: [u8; 8] = [0x51, 0xF3, 0x0F, 0x11, 0x04, 0x24, 0x6A, 0x00];

/// The characters that `String::from_utf8_lossy` makes of `bytes`.
pub uninterp spec fn lossy_utf8(bytes: Seq<u8>) -> Seq<char>;

/// Text of a name-table entry, with invalid UTF-8 replaced, by
/// `String::from_utf8_lossy`; bytes that are valid UTF-8 come out as the
/// text they encode.
#[verifier::external_body]
pub(crate) fn utf8_lossy(bytes: &[u8]) -> (s: String)
    ensures
        s@ == lossy_utf8(bytes@),
        vstd::utf8::valid_utf8(bytes@) ==> s@ == vstd::utf8::decode_utf8(bytes@),
{
    String::from_utf8_lossy(bytes).into_owned()
}

/// What `flate2`'s zlib decoder, read to the end, makes of `data`; `None`
/// where it reports an error.
pub uninterp spec fn zlib_decoded(data: Seq<u8>) -> Option<Seq<u8>>;

/// Inflates a zlib stream with `flate2::read::ZlibDecoder`.
#[verifier::external_body]
fn zlib_decode(data: &[u8]) -> (r: Option<Vec<u8>>)
    ensures
        r matches Some(v) ==> zlib_decoded(data@) == Some(v@),
        r is None ==> zlib_decoded(data@) is None,
{
    let mut decoder = flate2::read::ZlibDecoder::new(data);
    let mut payload = Vec::new();
    match decoder.read_to_end(&mut payload) {
        Ok(_) => Some(payload),
        Err(_) => None,
    }
}

/// One stored file.
#[derive(Clone, Debug)]
pub struct FileEntry {
    pub paz_num: u32,
    pub offset: u32,
    pub compressed_size: u32,
    pub original_size: u32,
    pub file_name: String,
    pub file_path: String,
}

/// How an extraction behaves.
#[derive(Clone, Copy, Debug)]
pub struct ExtractOptions {
    pub quiet: bool,
    pub no_folders: bool,
    pub yes_to_all: bool,
}

/// The table of files of one `.meta` or `.paz` archive.
pub struct ArchiveIndex {
    /// The directory of the archive file, where the `.paz` files are.
    pub archive_path: String,
    pub entries: Vec<FileEntry>,
    /// Mobile archives store their tables unencrypted and payloads as zlib.
    pub mobile: bool,
}

/// Errors while reading an archive.
#[derive(Debug, Clone, PartialEq, Eq)]
pub enum ArchiveError {
    /// A `u32` at this offset reaches past the end of the data.
    Truncated(usize),
    /// A name table entry has no NUL terminator.
    MissingNul,
    /// The `.paz` file name is too short to hold a number.
    PazNameTooShort,
    /// The `.paz` file name does not end in a number.
    BadPazNumber,
    /// An entry names a file name index past the table.
    FileNameIndex(u32),
    /// An entry names a folder name index past the table.
    FolderNameIndex(u32),
    /// An encrypted table is not whole cipher blocks.
    Ice(IceError),
    /// A payload does not decompress.
    Decompress(DecompressError),
    /// The compressed size of a desktop entry is not whole cipher blocks.
    InvalidCompressedSize(u32),
    /// The decoded payload is shorter than the stored original size.
    PayloadTooShort(usize, u32),
    /// The zlib stream of a mobile payload does not inflate.
    Zlib,
    /// The inflated mobile payload has another size than stored.
    ZlibSizeMismatch(usize, u32),
}

/// The position of the first NUL at or after `i`, or the length.
pub open spec fn find_nul(s: Seq<u8>, i: int) -> int
    decreases s.len() - i,
{
    if i >= s.len() {
        s.len() as int
    } else if s[i] == 0 {
        i
    } else {
        find_nul(s, i + 1)
    }
}

proof fn lemma_find_nul_bounds(s: Seq<u8>, i: int)
    requires
        0 <= i,
    ensures
        i <= find_nul(s, i) || i >= s.len(),
        find_nul(s, i) <= s.len(),
        find_nul(s, i) < s.len() ==> s[find_nul(s, i)] == 0,
        forall|k: int| i <= k < find_nul(s, i) ==> s[k] != 0,
    decreases s.len() - i,
{
    if i < s.len() && s[i] != 0 {
        lemma_find_nul_bounds(s, i + 1);
    }
}

/// The NUL-terminated names of a table from `offset` on, or `None` if one
/// lacks its terminator.
pub open spec fn cstring_table(s: Seq<u8>, offset: int) -> Option<Seq<Seq<u8>>>
    decreases s.len() - offset,
{
    if offset < 0 || offset >= s.len() {
        Some(Seq::empty())
    } else {
        let e = find_nul(s, offset);
        if e >= s.len() || e < offset {
            None
        } else {
            match cstring_table(s, e + 1) {
                None => None,
                Some(rest) => Some(seq![s.subrange(offset, e)] + rest),
            }
        }
    }
}

/// The folder names of a `.meta` folder table from `offset` on: each name
/// follows an 8-byte prefix, and the last eight bytes of the table hold no
/// name.
pub open spec fn folder_table(s: Seq<u8>, offset: int) -> Option<Seq<Seq<u8>>>
    decreases s.len() - offset,
{
    if offset < 0 || offset >= s.len() - 8 {
        Some(Seq::empty())
    } else {
        let o = offset + 8;
        let e = find_nul(s, o);
        if e >= s.len() || e < o {
            None
        } else {
            match folder_table(s, e + 1) {
                None => None,
                Some(rest) => Some(seq![s.subrange(o, e)] + rest),
            }
        }
    }
}

/// Whether `names` holds, in order, the text of each raw name of `raw`.
pub open spec fn names_match(names: Seq<String>, raw: Seq<Seq<u8>>) -> bool {
    names.len() == raw.len() && forall|i: int| 0 <= i < raw.len() ==> #[trigger] names[i]@ == lossy_utf8(raw[i])
}

/// Reads a little-endian `u32` at `offset`.
fn le_u32(buffer: &[u8], offset: usize) -> (r: Result<u32, ArchiveError>)
    ensures
        r is Ok <==> offset + 4 <= buffer@.len(),
        r matches Ok(v) ==> v == u32_at(buffer@, offset as int),
        r is Err ==> r == Err::<u32, ArchiveError>(ArchiveError::Truncated(offset)),
{
    match read_u32_le(buffer, offset) {
        Some(v) => Ok(v),
        None => Err(ArchiveError::Truncated(offset)),
    }
}

/// Reads the NUL-terminated name at `offset`; returns it and the position
/// after its terminator.
fn read_cstring(buffer: &[u8], offset: usize) -> (r: Result<(String, usize), ArchiveError>)
    requires
        offset <= buffer@.len(),
    ensures
        r is Ok <==> find_nul(buffer@, offset as int) < buffer@.len(),
        r matches Ok((name, next)) ==> {
            &&& next == find_nul(buffer@, offset as int) + 1
            &&& name@ == lossy_utf8(buffer@.subrange(offset as int, next - 1))
        },
        r is Err ==> r == Err::<(String, usize), ArchiveError>(ArchiveError::MissingNul),
{
    proof {
        lemma_find_nul_bounds(buffer@, offset as int);
    }
    let mut end = offset;
    while end < buffer.len() && buffer[end] != 0
        invariant
            offset <= end <= buffer@.len(),
            find_nul(buffer@, offset as int) == find_nul(buffer@, end as int),
        decreases buffer@.len() - end,
    {
        end = end + 1;
    }
    if end >= buffer.len() {
        return Err(ArchiveError::MissingNul);
    }
    let name = utf8_lossy(vstd::slice::slice_subrange(buffer, offset, end));
    Ok((name, end + 1))
}

/// Splits a name table at its NUL terminators.
fn parse_cstring_table(buffer: &[u8]) -> (r: Result<Vec<String>, ArchiveError>)
    ensures
        r is Ok <==> cstring_table(buffer@, 0) is Some,
        r matches Ok(names) ==> names_match(names@, cstring_table(buffer@, 0)->0),
{
    let mut offset: usize = 0;
    let mut names: Vec<String> = Vec::new();
    let ghost mut done: Seq<Seq<u8>> = Seq::empty();
    while offset < buffer.len()
        invariant
            offset <= buffer@.len(),
            names_match(names@, done),
            cstring_table(buffer@, 0) == match cstring_table(buffer@, offset as int) {
                None => None,
                Some(rest) => Some(done + rest),
            },
        decreases buffer@.len() - offset,
    {
        let ghost old_offset = offset as int;
        let (name, next) = read_cstring(buffer, offset)?;
        proof {
            lemma_find_nul_bounds(buffer@, old_offset);
            let piece = buffer@.subrange(old_offset, next - 1);
            assert(done + (seq![piece] + cstring_table(buffer@, next as int)->0) =~= (done.push(piece)
                + cstring_table(buffer@, next as int)->0)) by {
                if cstring_table(buffer@, next as int) is Some {
                    assert(done + (seq![piece] + cstring_table(buffer@, next as int)->0) =~= (done.push(
                        piece,
                    ) + cstring_table(buffer@, next as int)->0));
                }
            }
            done = done.push(piece);
        }
        names.push(name);
        assert(names_match(names@, done));
        offset = next;
    }
    assert(done + Seq::<Seq<u8>>::empty() =~= done);
    Ok(names)
}

/// Splits a `.meta` folder table into its folder names.
fn parse_meta_folder_names(buffer: &[u8]) -> (r: Result<Vec<String>, ArchiveError>)
    ensures
        r is Ok <==> folder_table(buffer@, 0) is Some,
        r matches Ok(names) ==> names_match(names@, folder_table(buffer@, 0)->0),
{
    let mut offset: usize = 0;
    let mut names: Vec<String> = Vec::new();
    let n = buffer.len();
    let end: usize = if n >= 8 {
        n - 8
    } else {
        0
    };
    let ghost mut done: Seq<Seq<u8>> = Seq::empty();
    while offset < end
        invariant
            n == buffer@.len(),
            end == if n >= 8 { n - 8 } else { 0 },
            names_match(names@, done),
            folder_table(buffer@, 0) == match folder_table(buffer@, offset as int) {
                None => None,
                Some(rest) => Some(done + rest),
            },
        decreases buffer@.len() - offset,
    {
        let ghost old_offset = offset as int;
        assert(offset + 8 < buffer@.len());
        offset = offset + 8;
        let (name, next) = read_cstring(buffer, offset)?;
        proof {
            lemma_find_nul_bounds(buffer@, offset as int);
            let piece = buffer@.subrange(offset as int, next - 1);
            assert(folder_table(buffer@, old_offset) == match folder_table(buffer@, next as int) {
                None => None,
                Some(rest) => Some(seq![piece] + rest),
            });
            if folder_table(buffer@, next as int) is Some {
                assert(done + (seq![piece] + folder_table(buffer@, next as int)->0) =~= (done.push(
                    piece,
                ) + folder_table(buffer@, next as int)->0));
            }
            done = done.push(piece);
        }
        names.push(name);
        assert(names_match(names@, done));
        offset = next;
    }
    assert(done + Seq::<Seq<u8>>::empty() =~= done);
    Ok(names)
}

/// Whether a decrypted payload starts with a compression header whose
/// declared size is `original_size`.
pub open spec fn has_bdo_header_spec(buffer: Seq<u8>, original_size: u32) -> bool {
    buffer.len() > 9 && (buffer[0] == 0x6E || buffer[0] == 0x6F) && u32_at(buffer, 5)
        == original_size
}

fn has_valid_bdo_header(buffer: &[u8], original_size: u32) -> (r: bool)
    ensures
        r == has_bdo_header_spec(buffer@, original_size),
{
    if buffer.len() <= 9 {
        return false;
    }
    if buffer[0] != 0x6E && buffer[0] != 0x6F {
        return false;
    }
    match read_u32_le(buffer, 5) {
        Some(size) => size == original_size,
        None => false,
    }
}

/// The file name of archive `paz_num`: `pad` and five or more digits.
pub open spec fn paz_name_spec(paz_num: u32) -> Seq<char> {
    seq!['p', 'a', 'd'] + decimal_padded(paz_num as nat, 5) + seq!['.', 'p', 'a', 'z']
}

/// The file name of the `.paz` archive numbered `paz_num`.
pub fn paz_name(paz_num: u32) -> (r: String)
    ensures
        r@ == paz_name_spec(paz_num),
{
    let mut s = String::from_str("pad");
    push_decimal_padded(&mut s, paz_num, 5);
    s.append(".paz");
    proof {
        reveal_strlit("pad");
        reveal_strlit(".paz");
    }
    assert(s@ =~= paz_name_spec(paz_num));
    s
}

/// The archive number in the stem of a `.paz` file name (`pad00001` is 1).
pub fn parse_paz_number(stem: &str) -> (r: Result<u32, ArchiveError>)
    ensures
        encode_utf8(stem@).len() < 4 ==> r == Err::<u32, ArchiveError>(ArchiveError::PazNameTooShort),
        encode_utf8(stem@).len() >= 4 ==> match parse_u32_spec(encode_utf8(stem@).subrange(3, encode_utf8(stem@).len() as int)) {
            Some(v) => r == Ok::<u32, ArchiveError>(v),
            None => r == Err::<u32, ArchiveError>(ArchiveError::BadPazNumber),
        },
{
    let bytes = stem.as_bytes();
    if bytes.len() < 4 {
        return Err(ArchiveError::PazNameTooShort);
    }
    match parse_u32_bytes(vstd::slice::slice_subrange(bytes, 3, bytes.len())) {
        Some(v) => Ok(v),
        None => Err(ArchiveError::BadPazNumber),
    }
}

/// The stored name or folder table bytes `raw` as they read after
/// decryption: mobile tables are stored in the clear.
pub open spec fn table_plain(raw: Seq<u8>, mobile: bool) -> Option<Seq<u8>> {
    if mobile {
        Some(raw)
    } else if raw.len() % 8 != 0 {
        None
    } else {
        Some(decrypt_spec(key_schedule(BDO_DECRYPTION_KEY@), raw))
    }
}

/// A file entry as the index holds it: archive number, offset, stored and
/// original size, file name and path.
pub type EntrySpec = (u32, u32, u32, u32, Seq<char>, Seq<char>);

/// Whether `entry` is `spec`.
pub open spec fn entry_is(entry: FileEntry, spec: EntrySpec) -> bool {
    &&& entry.paz_num == spec.0
    &&& entry.offset == spec.1
    &&& entry.compressed_size == spec.2
    &&& entry.original_size == spec.3
    &&& entry.file_name@ == spec.4
    &&& entry.file_path@ == spec.5
}

/// The entry described by a table record at `base` of `data`: the folder
/// and file name indices at `base + 4` and `base + 8`, then `fields` on,
/// the offset, stored size and original size; `paz` is the archive number
/// (for `.meta` records, the word at `base + 12`). `None` if an index is
/// outside its table.
pub open spec fn entry_spec(
    data: Seq<u8>,
    base: int,
    fields: int,
    paz: u32,
    folders: Seq<Seq<u8>>,
    names: Seq<Seq<u8>>,
) -> Option<EntrySpec> {
    let folder_num = u32_at(data, base + 4);
    let file_num = u32_at(data, base + 8);
    if file_num >= names.len() || folder_num >= folders.len() {
        None
    } else {
        let file_name = lossy_utf8(names[file_num as int]);
        Some(
            (
                paz,
                u32_at(data, base + fields),
                u32_at(data, base + fields + 4),
                u32_at(data, base + fields + 8),
                file_name,
                lossy_utf8(folders[folder_num as int]) + file_name,
            ),
        )
    }
}

/// The layout of a `.meta` index: the number of files, where their 28-byte
/// records start, the folder table and the file name table (both as stored),
/// or `None` where the data ends early.
pub open spec fn meta_layout(data: Seq<u8>) -> Option<(u32, int, Seq<u8>, Seq<u8>)> {
    if data.len() < 8 {
        None
    } else {
        let fc_off = 8 + 12 * (u32_at(data, 4) as int);
        if fc_off + 4 > data.len() {
            None
        } else {
            let fc = u32_at(data, fc_off);
            let fi = fc_off + 4;
            let fl_off = fi + 28 * (fc as int);
            if fl_off + 4 > data.len() {
                None
            } else {
                let fl = u32_at(data, fl_off) as int;
                let nl_off = fl_off + 4 + fl;
                if nl_off + 4 > data.len() {
                    None
                } else {
                    let nl = u32_at(data, nl_off) as int;
                    if nl_off + 4 + nl > data.len() {
                        None
                    } else {
                        Some((fc, fi, data.subrange(fl_off + 4, nl_off), data.subrange(nl_off + 4, nl_off + 4 + nl)))
                    }
                }
            }
        }
    }
}

/// Whether a `.meta` folder table is stored in the clear.
pub open spec fn meta_is_mobile(folders_raw: Seq<u8>) -> bool {
    folders_raw.len() >= 11 && folders_raw[8] == 114 && folders_raw[9] == 101 && folders_raw[10] == 115
}

/// The decoded tables of a `.meta` index, or `None`.
pub open spec fn meta_tables(data: Seq<u8>) -> Option<(Seq<Seq<u8>>, Seq<Seq<u8>>)> {
    match meta_layout(data) {
        None => None,
        Some(l) => {
            let mobile = meta_is_mobile(l.2);
            match (table_plain(l.2, mobile), table_plain(l.3, mobile)) {
                (Some(f), Some(n)) => match (folder_table(f, 0), cstring_table(n, 0)) {
                    (Some(folders), Some(names)) => Some((folders, names)),
                    _ => None,
                },
                _ => None,
            }
        }
    }
}

/// Entry `i` of a `.meta` index whose layout and tables decode.
pub open spec fn meta_entry(data: Seq<u8>, i: int) -> Option<EntrySpec> {
    let l = meta_layout(data)->0;
    let t = meta_tables(data)->0;
    entry_spec(data, l.1 + 28 * i, 16, u32_at(data, l.1 + 28 * i + 12), t.0, t.1)
}

/// Whether a `.meta` index reads: its layout and tables decode and every
/// record names a folder and a file in them.
pub open spec fn meta_ok(data: Seq<u8>) -> bool {
    &&& meta_tables(data) is Some
    &&& forall|i: int| 0 <= i < (meta_layout(data)->0).0 ==> (#[trigger] meta_entry(data, i)) is Some
}

/// A `.meta` file record is 28 bytes: after the hash, folder and file name
/// indices come the archive number at byte 12, the offset at byte 16, the
/// stored size at byte 20 and the original size at byte 24, each a
/// little-endian word; the entry read for record `i` carries exactly these.
pub proof fn law_meta_record_fields(data: Seq<u8>, i: int)
    requires
        meta_ok(data),
        0 <= i < (meta_layout(data)->0).0,
    ensures
        ({
            let rec = (meta_layout(data)->0).1 + 28 * i;
            let e = meta_entry(data, i)->0;
            &&& meta_entry(data, i) is Some
            &&& e.0 == u32_at(data, rec + 12)
            &&& e.1 == u32_at(data, rec + 16)
            &&& e.2 == u32_at(data, rec + 20)
            &&& e.3 == u32_at(data, rec + 24)
        }),
{
    assert(meta_entry(data, i) is Some);
}

/// Counts reported while reading a `.meta` index.
#[derive(Clone, Copy, Debug)]
pub struct MetaSummary {
    pub client_version: u32,
    pub files_count: u32,
    pub folder_name_count: usize,
    pub file_name_count: usize,
}

/// Counts reported while reading a `.paz` index.
#[derive(Clone, Copy, Debug)]
pub struct PazSummary {
    pub paz_hash: u32,
    pub files_count: u32,
}

/// `len` bytes of `data` from `pos`.
fn take(data: &[u8], pos: usize, len: usize) -> (r: Result<&[u8], ArchiveError>)
    ensures
        r is Ok <==> pos + len <= data@.len(),
        r matches Ok(s) ==> s@ == data@.subrange(pos as int, pos + len),
{
    if pos > data.len() || data.len() - pos < len {
        return Err(ArchiveError::Truncated(pos));
    }
    Ok(vstd::slice::slice_subrange(data, pos, pos + len))
}

/// Decrypts a stored table unless the archive is a mobile one.
fn plain_table(raw: &[u8], mobile: bool) -> (r: Result<Vec<u8>, ArchiveError>)
    ensures
        r is Ok <==> table_plain(raw@, mobile) is Some,
        r matches Ok(v) ==> Some(v@) == table_plain(raw@, mobile),
{
    if mobile {
        Ok(vstd::slice::slice_to_vec(raw))
    } else {
        match IceKey::thin(BDO_DECRYPTION_KEY).decrypt_buffer(raw) {
            Ok(v) => Ok(v),
            Err(e) => Err(ArchiveError::Ice(e)),
        }
    }
}

/// Builds the entry for the record at `base`.
fn build_entry(
    data: &[u8],
    base: usize,
    fields: usize,
    paz: u32,
    folders: &Vec<String>,
    names: &Vec<String>,
    Ghost(folders_raw): Ghost<Seq<Seq<u8>>>,
    Ghost(names_raw): Ghost<Seq<Seq<u8>>>,
) -> (r: Result<FileEntry, ArchiveError>)
    requires
        base + fields + 12 <= data@.len(),
        fields >= 12,
        names_match(folders@, folders_raw),
        names_match(names@, names_raw),
    ensures
        r is Ok <==> entry_spec(data@, base as int, fields as int, paz, folders_raw, names_raw) is Some,
        r matches Ok(e) ==> entry_is(e, entry_spec(data@, base as int, fields as int, paz, folders_raw, names_raw)->0),
{
    let n = data.len();
    assert(base + fields + 12 <= n);
    let folder_num = le_u32(data, base + 4)?;
    let file_num = le_u32(data, base + 8)?;
    if file_num as usize >= names.len() {
        return Err(ArchiveError::FileNameIndex(file_num));
    }
    if folder_num as usize >= folders.len() {
        return Err(ArchiveError::FolderNameIndex(folder_num));
    }
    let file_name = names[file_num as usize].clone();
    let mut file_path = folders[folder_num as usize].clone();
    file_path.append(file_name.as_str());
    Ok(FileEntry {
        paz_num: paz,
        offset: le_u32(data, base + fields)?,
        compressed_size: le_u32(data, base + fields + 4)?,
        original_size: le_u32(data, base + fields + 8)?,
        file_name,
        file_path,
    })
}

/// Locates the parts of a `.meta` index.
fn parse_meta_layout(data: &[u8]) -> (r: Result<(u32, usize, &[u8], &[u8]), ArchiveError>)
    ensures
        r is Ok <==> meta_layout(data@) is Some,
        r matches Ok((fc, fi, f, n)) ==> meta_layout(data@) == Some((fc, fi as int, f@, n@)) && fi
            + 28 * fc + 4 <= data@.len(),
{
    let len = data.len();
    let paz_count = le_u32(data, 4)?;
    let fc_off = match (paz_count as usize).checked_mul(12) {
        Some(v) => match v.checked_add(8) {
            Some(w) => w,
            None => return Err(ArchiveError::Truncated(8)),
        },
        None => return Err(ArchiveError::Truncated(8)),
    };
    let files_count = le_u32(data, fc_off)?;
    let fi = fc_off + 4;
    let files_len = match (files_count as usize).checked_mul(28) {
        Some(v) => v,
        None => return Err(ArchiveError::Truncated(fi)),
    };
    if len - fi < files_len {
        return Err(ArchiveError::Truncated(fi));
    }
    let fl_off = fi + files_len;
    let folder_len = le_u32(data, fl_off)? as usize;
    let folders_raw = take(data, fl_off + 4, folder_len)?;
    let nl_off = fl_off + 4 + folder_len;
    let names_len = le_u32(data, nl_off)? as usize;
    let names_raw = take(data, nl_off + 4, names_len)?;
    Ok((files_count, fi, folders_raw, names_raw))
}

impl ArchiveIndex {
    /// Reads the index of a whole `.meta` file whose directory is
    /// `archive_path`.
    #[verifier::rlimit(50)]
    pub fn from_meta_bytes(data: &[u8], archive_path: String) -> (r: Result<(ArchiveIndex, MetaSummary), ArchiveError>)
        ensures
            r is Ok <==> meta_ok(data@),
            r matches Ok((index, summary)) ==> {
                let l = meta_layout(data@)->0;
                let t = meta_tables(data@)->0;
                &&& index.archive_path == archive_path
                &&& index.mobile == meta_is_mobile(l.2)
                &&& summary.client_version == u32_at(data@, 0)
                &&& summary.files_count == l.0
                &&& summary.folder_name_count == t.0.len()
                &&& summary.file_name_count == t.1.len()
                &&& index.entries@.len() == l.0
                &&& forall|i: int| 0 <= i < l.0 ==> entry_is(#[trigger] index.entries@[i], meta_entry(data@, i)->0)
                &&& forall|i: int| 0 <= i < l.0 ==> {
                    let e = #[trigger] index.entries@[i];
                    &&& e.paz_num == u32_at(data@, l.1 + 28 * i + 12)
                    &&& e.offset == u32_at(data@, l.1 + 28 * i + 16)
                    &&& e.compressed_size == u32_at(data@, l.1 + 28 * i + 20)
                    &&& e.original_size == u32_at(data@, l.1 + 28 * i + 24)
                }
            },
    {
        let n = data.len();
        let (files_count, fi, folders_raw, names_raw) = parse_meta_layout(data)?;
        let client_version = le_u32(data, 0)?;
        let mobile = folders_raw.len() >= 11 && folders_raw[8] == 114u8 && folders_raw[9] == 101u8
            && folders_raw[10] == 115u8;
        let folders_plain = plain_table(folders_raw, mobile)?;
        let folders = parse_meta_folder_names(folders_plain.as_slice())?;
        let names_plain = plain_table(names_raw, mobile)?;
        let names = parse_cstring_table(names_plain.as_slice())?;
        let ghost l = meta_layout(data@)->0;
        let ghost t = meta_tables(data@)->0;
        let mut entries: Vec<FileEntry> = Vec::new();
        let mut i: usize = 0;
        let mut base = fi;
        while i < files_count as usize
            invariant
                n == data@.len(),
                meta_tables(data@) is Some,
                t == meta_tables(data@)->0,
                l == meta_layout(data@)->0,
                l.0 == files_count,
                l.1 == fi,
                fi + 28 * files_count + 4 <= n,
                names_match(folders@, t.0),
                names_match(names@, t.1),
                i <= files_count,
                base == fi + 28 * i,
                entries@.len() == i,
                forall|q: int| 0 <= q < i ==> (#[trigger] meta_entry(data@, q)) is Some,
                forall|q: int| 0 <= q < i ==> entry_is(#[trigger] entries@[q], meta_entry(data@, q)->0),
            decreases files_count - i,
        {
            let paz = le_u32(data, base + 12)?;
            let entry = build_entry(data, base, 16, paz, &folders, &names, Ghost(t.0), Ghost(t.1));
            assert(meta_entry(data@, i as int) == entry_spec(data@, base as int, 16, paz, t.0, t.1));
            match entry {
                Ok(e) => entries.push(e),
                Err(err) => {
                    assert(!meta_ok(data@)) by {
                        assert(meta_entry(data@, i as int) is None);
                    }
                    return Err(err);
                },
            }
            i = i + 1;
            base = base + 28;
        }
        let summary = MetaSummary {
            client_version,
            files_count,
            folder_name_count: folders.len(),
            file_name_count: names.len(),
        };
        assert forall|q: int| 0 <= q < l.0 implies {
            let e = #[trigger] entries@[q];
            &&& e.paz_num == u32_at(data@, l.1 + 28 * q + 12)
            &&& e.offset == u32_at(data@, l.1 + 28 * q + 16)
            &&& e.compressed_size == u32_at(data@, l.1 + 28 * q + 20)
            &&& e.original_size == u32_at(data@, l.1 + 28 * q + 24)
        } by {
            law_meta_record_fields(data@, q);
        }
        Ok((ArchiveIndex { archive_path, entries, mobile }, summary))
    }
}

/// The layout of a `.paz` index: the number of files and the stored name
/// table, or `None` where the data ends early.
pub open spec fn paz_layout(data: Seq<u8>) -> Option<(u32, Seq<u8>)> {
    if data.len() < 12 {
        None
    } else {
        let fc = u32_at(data, 4);
        let nl = u32_at(data, 8) as int;
        let n_off = 12 + 24 * (fc as int);
        if n_off + nl > data.len() {
            None
        } else {
            Some((fc, data.subrange(n_off, n_off + nl)))
        }
    }
}

/// Whether a `.paz` name table is stored in the clear.
pub open spec fn paz_is_mobile(names_raw: Seq<u8>) -> bool {
    names_raw.len() >= 3 && names_raw[0] == 114 && names_raw[1] == 101 && names_raw[2] == 115
}

/// The decoded name table of a `.paz` index, or `None`.
pub open spec fn paz_names(data: Seq<u8>) -> Option<Seq<Seq<u8>>> {
    match paz_layout(data) {
        None => None,
        Some(l) => match table_plain(l.1, paz_is_mobile(l.1)) {
            None => None,
            Some(plain) => cstring_table(plain, 0),
        },
    }
}

/// Entry `i` of a `.paz` index of archive `paz_num`; folders and files are
/// both named in its one table.
pub open spec fn paz_entry(data: Seq<u8>, paz_num: u32, i: int) -> Option<EntrySpec> {
    let names = paz_names(data)->0;
    entry_spec(data, 12 + 24 * i, 12, paz_num, names, names)
}

/// Whether a `.paz` index reads.
pub open spec fn paz_ok(data: Seq<u8>, paz_num: u32) -> bool {
    &&& paz_names(data) is Some
    &&& forall|i: int| 0 <= i < (paz_layout(data)->0).0 ==> (#[trigger] paz_entry(data, paz_num, i)) is Some
}

/// A `.paz` file record is 24 bytes from byte 12 on: after the hash,
/// folder and file name indices come the offset at byte 12, the stored size
/// at byte 16 and the original size at byte 20, each a little-endian word;
/// the entry read for record `i` carries exactly these, and the archive
/// number it was read as.
pub proof fn law_paz_record_fields(data: Seq<u8>, paz_num: u32, i: int)
    requires
        paz_ok(data, paz_num),
        0 <= i < (paz_layout(data)->0).0,
    ensures
        ({
            let rec = 12 + 24 * i;
            let e = paz_entry(data, paz_num, i)->0;
            &&& paz_entry(data, paz_num, i) is Some
            &&& e.0 == paz_num
            &&& e.1 == u32_at(data, rec + 12)
            &&& e.2 == u32_at(data, rec + 16)
            &&& e.3 == u32_at(data, rec + 20)
        }),
{
    assert(paz_entry(data, paz_num, i) is Some);
}

impl ArchiveIndex {
    /// Reads the index of a whole `.paz` file numbered `paz_num` whose
    /// directory is `archive_path`.
    #[verifier::rlimit(50)]
    pub fn from_paz_bytes(data: &[u8], paz_num: u32, archive_path: String) -> (r: Result<(ArchiveIndex, PazSummary), ArchiveError>)
        ensures
            r is Ok <==> paz_ok(data@, paz_num),
            r matches Ok((index, summary)) ==> {
                let l = paz_layout(data@)->0;
                &&& index.archive_path == archive_path
                &&& index.mobile == paz_is_mobile(l.1)
                &&& summary.paz_hash == u32_at(data@, 0)
                &&& summary.files_count == l.0
                &&& index.entries@.len() == l.0
                &&& forall|i: int| 0 <= i < l.0 ==> entry_is(#[trigger] index.entries@[i], paz_entry(data@, paz_num, i)->0)
                &&& forall|i: int| 0 <= i < l.0 ==> {
                    let e = #[trigger] index.entries@[i];
                    &&& e.paz_num == paz_num
                    &&& e.offset == u32_at(data@, 12 + 24 * i + 12)
                    &&& e.compressed_size == u32_at(data@, 12 + 24 * i + 16)
                    &&& e.original_size == u32_at(data@, 12 + 24 * i + 20)
                }
            },
    {
        let n = data.len();
        let paz_hash = le_u32(data, 0)?;
        let files_count = le_u32(data, 4)?;
        let names_len = le_u32(data, 8)? as usize;
        let files_len = match (files_count as usize).checked_mul(24) {
            Some(v) => v,
            None => return Err(ArchiveError::Truncated(12)),
        };
        let _files_info = take(data, 12, files_len)?;
        let names_raw = take(data, 12 + files_len, names_len)?;
        let mobile = names_raw.len() >= 3 && names_raw[0] == 114u8 && names_raw[1] == 101u8
            && names_raw[2] == 115u8;
        assert(paz_layout(data@) == Some((files_count, names_raw@)));
        let names_plain = plain_table(names_raw, mobile)?;
        let names = parse_cstring_table(names_plain.as_slice())?;
        let ghost t = paz_names(data@)->0;
        let mut entries: Vec<FileEntry> = Vec::new();
        let mut i: usize = 0;
        let mut base: usize = 12;
        while i < files_count as usize
            invariant
                n == data@.len(),
                paz_names(data@) is Some,
                t == paz_names(data@)->0,
                (paz_layout(data@)->0).0 == files_count,
                12 + 24 * files_count <= n,
                names_match(names@, t),
                i <= files_count,
                base == 12 + 24 * i,
                entries@.len() == i,
                forall|q: int| 0 <= q < i ==> (#[trigger] paz_entry(data@, paz_num, q)) is Some,
                forall|q: int| 0 <= q < i ==> entry_is(#[trigger] entries@[q], paz_entry(data@, paz_num, q)->0),
            decreases files_count - i,
        {
            let entry = build_entry(data, base, 12, paz_num, &names, &names, Ghost(t), Ghost(t));
            match entry {
                Ok(e) => entries.push(e),
                Err(err) => {
                    assert(!paz_ok(data@, paz_num)) by {
                        assert(paz_entry(data@, paz_num, i as int) is None);
                    }
                    return Err(err);
                },
            }
            i = i + 1;
            base = base + 24;
        }
        assert forall|q: int| 0 <= q < files_count implies {
            let e = #[trigger] entries@[q];
            &&& e.paz_num == paz_num
            &&& e.offset == u32_at(data@, 12 + 24 * q + 12)
            &&& e.compressed_size == u32_at(data@, 12 + 24 * q + 16)
            &&& e.original_size == u32_at(data@, 12 + 24 * q + 20)
        } by {
            law_paz_record_fields(data@, paz_num, q);
        }
        Ok((ArchiveIndex { archive_path, entries, mobile }, PazSummary { paz_hash, files_count }))
    }

    /// The positions, in order, of the entries whose path passes one of
    /// the filter masks (all of them when there are no masks).
    pub fn select_entries(&self, masks: &[String]) -> (r: Vec<usize>)
        ensures
            r@ == selected(self.entries@, masks@, self.entries@.len() as int),
    {
        let mut out: Vec<usize> = Vec::new();
        let mut i: usize = 0;
        while i < self.entries.len()
            invariant
                i <= self.entries@.len(),
                out@ == selected(self.entries@, masks@, i as int),
            decreases self.entries@.len() - i,
        {
            if wild_match_any(masks, self.entries[i].file_path.as_str()) {
                out.push(i);
            }
            i = i + 1;
        }
        out
    }
}

/// The positions below `n` of the entries that pass the masks, in order.
pub open spec fn selected(entries: Seq<FileEntry>, masks: Seq<String>, n: int) -> Seq<usize>
    decreases n,
{
    if n <= 0 {
        Seq::empty()
    } else if wild_masks_pass(masks, entries[n - 1].file_path@) {
        selected(entries, masks, n - 1).push((n - 1) as usize)
    } else {
        selected(entries, masks, n - 1)
    }
}

/// Whether a path passes a list of filter masks.
pub open spec fn wild_masks_pass(masks: Seq<String>, path: Seq<char>) -> bool {
    masks.len() == 0 || exists|i: int| 0 <= i < masks.len() && wild_match_spec(#[trigger] masks[i]@, path)
}

/// What a mobile entry's stored bytes decode to: stored as they are when
/// both sizes agree, else zlib-compressed.
pub open spec fn mobile_payload_spec(original_size: u32, compressed_size: u32, raw: Seq<u8>) -> Option<Seq<u8>> {
    if original_size == compressed_size {
        Some(raw)
    } else {
        match zlib_decoded(raw) {
            None => None,
            Some(p) => if p.len() != original_size { None } else { Some(p) },
        }
    }
}

/// What a desktop entry's stored bytes decode to: decrypted, decompressed
/// when a compression header declares the original size, and cut to that
/// size.
pub open spec fn desktop_payload_spec(original_size: u32, raw: Seq<u8>) -> Option<Seq<u8>> {
    if raw.len() % 8 != 0 {
        None
    } else {
        let dec = decrypt_spec(key_schedule(BDO_DECRYPTION_KEY@), raw);
        let payload = if has_bdo_header_spec(dec, original_size) { decompress_spec(dec) } else { Some(dec) };
        match payload {
            None => None,
            Some(p) => if p.len() < original_size { None } else { Some(p.subrange(0, original_size as int)) },
        }
    }
}

impl ArchiveIndex {
    /// How many stored bytes of `entry` must be read: none for an empty
    /// entry; an error for a desktop entry whose stored size is not whole
    /// cipher blocks.
    pub fn payload_read_len(&self, entry: &FileEntry) -> (r: Result<usize, ArchiveError>)
        ensures
            entry.compressed_size == 0 ==> r == Ok::<usize, ArchiveError>(0),
            entry.compressed_size != 0 && !self.mobile && entry.compressed_size % 8 != 0 ==> r
                == Err::<usize, ArchiveError>(ArchiveError::InvalidCompressedSize(entry.compressed_size)),
            entry.compressed_size != 0 && (self.mobile || entry.compressed_size % 8 == 0) ==> r
                == Ok::<usize, ArchiveError>(entry.compressed_size as usize),
    {
        if entry.compressed_size == 0 {
            return Ok(0);
        }
        if !self.mobile && entry.compressed_size % 8 != 0 {
            return Err(ArchiveError::InvalidCompressedSize(entry.compressed_size));
        }
        Ok(entry.compressed_size as usize)
    }

    /// Decodes the stored bytes `raw` of `entry` into the file's contents.
    pub fn decode_payload(&self, entry: &FileEntry, raw: &[u8]) -> (r: Result<Vec<u8>, ArchiveError>)
        requires
            raw@.len() < usize::MAX - 16,
        ensures
            entry.compressed_size == 0 ==> (r matches Ok(v) && v@.len() == 0),
            entry.compressed_size != 0 && !self.mobile && entry.compressed_size % 8 != 0 ==> r is Err,
            entry.compressed_size != 0 && self.mobile ==> match mobile_payload_spec(entry.original_size, entry.compressed_size, raw@) {
                None => r is Err,
                Some(p) => r matches Ok(v) && v@ == p,
            },
            entry.compressed_size != 0 && !self.mobile && entry.compressed_size % 8 == 0 ==> match desktop_payload_spec(entry.original_size, raw@) {
                None => r is Err,
                Some(p) => r matches Ok(v) && v@ == p,
            },
    {
        if entry.compressed_size == 0 {
            return Ok(Vec::new());
        }
        if !self.mobile && entry.compressed_size % 8 != 0 {
            return Err(ArchiveError::InvalidCompressedSize(entry.compressed_size));
        }
        if self.mobile {
            return read_mobile_payload(entry, raw);
        }
        let decrypted = match IceKey::thin(BDO_DECRYPTION_KEY).decrypt_buffer(raw) {
            Ok(v) => v,
            Err(e) => return Err(ArchiveError::Ice(e)),
        };
        let mut payload = if has_valid_bdo_header(decrypted.as_slice(), entry.original_size) {
            assert(decrypted@.len() == raw@.len());
            match decompress_bdo(decrypted.as_slice()) {
                Ok(p) => p,
                Err(e) => return Err(ArchiveError::Decompress(e)),
            }
        } else {
            decrypted
        };
        if payload.len() < entry.original_size as usize {
            return Err(ArchiveError::PayloadTooShort(payload.len(), entry.original_size));
        }
        payload.truncate(entry.original_size as usize);
        Ok(payload)
    }
}

/// Decodes the stored bytes of a mobile entry.
fn read_mobile_payload(entry: &FileEntry, raw: &[u8]) -> (r: Result<Vec<u8>, ArchiveError>)
    ensures
        match mobile_payload_spec(entry.original_size, entry.compressed_size, raw@) {
            None => r is Err,
            Some(p) => r matches Ok(v) && v@ == p,
        },
{
    if entry.original_size == entry.compressed_size {
        return Ok(vstd::slice::slice_to_vec(raw));
    }
    let payload = match zlib_decode(raw) {
        Some(p) => p,
        None => return Err(ArchiveError::Zlib),
    };
    if payload.len() != entry.original_size as usize {
        return Err(ArchiveError::ZlibSizeMismatch(payload.len(), entry.original_size));
    }
    Ok(payload)
}

} // verus!
