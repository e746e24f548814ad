//! Fish ranking exports: their timestamps, and the id that one caught fish
//! keeps however often its row is imported.
use vstd::prelude::*;
use chrono::{NaiveDateTime, TimeZone, Utc};
use sha2::{Digest, Sha256};
use crate::text::{hex_lower_padded, push_hex_lower_padded};

verus! {

/// The seconds since the Unix epoch of `value` read in `fmt` as a UTC date
/// and time, where it reads.
pub uninterp spec fn utc_timestamp_parsed(value: Seq<char>, fmt: Seq<char>) -> Option<i64>;

/// Reads `value` in format `fmt` with `chrono::NaiveDateTime::parse_from_str`
/// and, where that succeeds, gives the seconds since the Unix epoch of that
/// date and time taken as UTC (`Utc.from_utc_datetime(..).timestamp()`).
/// The result is named, not stated: `chrono` parses by the format.
#[verifier::external_body]
fn parse_utc_timestamp(value: &str, fmt: &str) -> (r: Option<i64>)
    ensures
        r == utc_timestamp_parsed(value@, fmt@),
{
    NaiveDateTime::parse_from_str(value, fmt).ok().map(|dt| Utc.from_utc_datetime(&dt).timestamp())
}

/// The formats that ranking timestamps are read in, tried in this order.
pub open spec fn datetime_formats() -> Seq<Seq<char>> {
    seq!["%d.%m.%Y %H:%M"@, "%Y-%m-%d %I:%M:%S %p"@, "%Y-%m-%d %H:%M:%S"@, "%Y-%m-%d %H:%M"@]
}

/// The timestamp that the first of the formats from `k` on reads in
/// `value`, if any does.
pub open spec fn first_timestamp(value: Seq<char>, k: int) -> Option<i64>
    decreases 4 - k,
{
    if k < 0 || k >= 4 {
        None
    } else {
        match utc_timestamp_parsed(value, datetime_formats()[k]) {
            Some(t) => Some(t),
            None => first_timestamp(value, k + 1),
        }
    }
}

/// A ranking timestamp in none of the supported formats.
#[derive(Clone, Debug, PartialEq, Eq)]
pub struct UnsupportedDatetime {
    pub value: String,
}

/// Reads a ranking timestamp as seconds since the Unix epoch, trying the
/// formats `DD.MM.YYYY HH:MM`, `YYYY-MM-DD HH:MM:SS AM/PM`,
/// `YYYY-MM-DD HH:MM:SS` and `YYYY-MM-DD HH:MM` in turn.
pub fn parse_datetime_utc(value: &str) -> (r: Result<i64, UnsupportedDatetime>)
    ensures
        match first_timestamp(value@, 0) {
            Some(t) => r == Ok::<i64, UnsupportedDatetime>(t),
            None => r matches Err(e) && e.value@ == value@,
        },
{
    let formats: [&str; 4] = ["%d.%m.%Y %H:%M", "%Y-%m-%d %I:%M:%S %p", "%Y-%m-%d %H:%M:%S", "%Y-%m-%d %H:%M"];
    proof {
        reveal_strlit("%d.%m.%Y %H:%M");
        reveal_strlit("%Y-%m-%d %I:%M:%S %p");
        reveal_strlit("%Y-%m-%d %H:%M:%S");
        reveal_strlit("%Y-%m-%d %H:%M");
        assert(formats@.map_values(|f: &str| f@) =~= datetime_formats());
    }
    let mut k: usize = 0;
    while k < 4
        invariant
            k <= 4,
            formats@.map_values(|f: &str| f@) == datetime_formats(),
            first_timestamp(value@, 0) == first_timestamp(value@, k as int),
        decreases 4 - k,
    {
        assert(formats@[k as int]@ == datetime_formats()[k as int]);
        match parse_utc_timestamp(value, formats[k]) {
            Some(t) => {
                return Ok(t);
            },
            None => {},
        }
        k = k + 1;
    }
    Err(UnsupportedDatetime { value: value.to_owned() })
}

/// The UTC date and time `ts` seconds after the Unix epoch written in
/// format `fmt`, where `chrono` can hold that instant.
pub uninterp spec fn utc_text(ts: i64, fmt: Seq<char>) -> Option<Seq<char>>;

/// Takes `ts` seconds after the Unix epoch as a UTC instant with
/// `Utc.timestamp_opt(ts, 0).single()` and, where there is one, writes it
/// in format `fmt` with `DateTime::format`. The text is named, not stated.
/// Writing with a format that chrono cannot parse fails inside `to_string`,
/// so `fmt` is held to the one format this library writes.
#[verifier::external_body]
fn format_utc(ts: i64, fmt: &str) -> (r: Option<String>)
    requires
        fmt@ == mysql_datetime_format(),
    ensures
        match r {
            Some(s) => utc_text(ts, fmt@) == Some(s@),
            None => utc_text(ts, fmt@) is None,
        },
{
    Utc.timestamp_opt(ts, 0).single().map(|dt| dt.format(fmt).to_string())
}

/// A timestamp that is no UTC instant.
#[derive(Clone, Copy, Debug, PartialEq, Eq)]
pub struct InvalidTimestamp {
    pub ts_utc: i64,
}

/// The format of MySQL `DATETIME(6)` values.
pub open spec fn mysql_datetime_format() -> Seq<char> {
    "%Y-%m-%d %H:%M:%S%.6f"@
}

/// Writes a timestamp as a MySQL `DATETIME(6)` value in UTC.
pub fn epoch_to_mysql_datetime(ts_utc: i64) -> (r: Result<String, InvalidTimestamp>)
    ensures
        match utc_text(ts_utc, mysql_datetime_format()) {
            Some(t) => r matches Ok(s) && s@ == t,
            None => r == Err::<String, InvalidTimestamp>(InvalidTimestamp { ts_utc }),
        },
{
    proof {
        reveal_strlit("%Y-%m-%d %H:%M:%S%.6f");
    }
    match format_utc(ts_utc, "%Y-%m-%d %H:%M:%S%.6f") {
        Some(s) => Ok(s),
        None => Err(InvalidTimestamp { ts_utc }),
    }
}

/// The SHA-256 digest of `data`.
pub uninterp spec fn sha256(data: Seq<u8>) -> Seq<u8>;

/// Hashes `data` with `sha2::Sha256::digest`, which feeds all of `data` to
/// a fresh hasher and finishes it: the 32-byte SHA-256 digest, named, not
/// stated.
#[verifier::external_body]
fn sha256_digest(data: &[u8]) -> (r: Vec<u8>)
    ensures
        r@ == sha256(data@),
        r@.len() == 32,
{
    Sha256::digest(data).to_vec()
}

/// The `n` least significant bytes of `v`, least significant first.
pub open spec fn le_bytes(v: nat, n: nat) -> Seq<u8>
    decreases n,
{
    if n == 0 {
        seq![]
    } else {
        seq![(v % 256) as u8] + le_bytes(v / 256, (n - 1) as nat)
    }
}

/// Appends the `n` least significant bytes of `v`, least significant first.
fn push_le_bytes(out: &mut Vec<u8>, v: u64, n: usize)
    requires
        n <= 8,
    ensures
        final(out)@ == old(out)@ + le_bytes(v as nat, n as nat),
    decreases n,
{
    if n > 0 {
        out.push((v % 256) as u8);
        push_le_bytes(out, v / 256, n - 1);
        assert(le_bytes(v as nat, n as nat) =~= seq![(v % 256) as u8] + le_bytes((v / 256) as nat, (n - 1) as nat));
    }
}

/// Bytes as lower-case hexadecimal, two digits each.
pub open spec fn hex_text(bytes: Seq<u8>) -> Seq<char>
    decreases bytes.len(),
{
    if bytes.len() == 0 {
        seq![]
    } else {
        hex_text(bytes.drop_last()) + hex_lower_padded(bytes.last() as nat, 2)
    }
}

/// Writes bytes as lower-case hexadecimal, two digits each.
pub fn to_hex(bytes: &[u8]) -> (r: String)
    ensures
        r@ == hex_text(bytes@),
{
    let mut out = String::new();
    let mut k: usize = 0;
    while k < bytes.len()
        invariant
            k <= bytes@.len(),
            out@ == hex_text(bytes@.take(k as int)),
        decreases bytes@.len() - k,
    {
        push_hex_lower_padded(&mut out, bytes[k] as u32, 2);
        assert(bytes@.take(k + 1).drop_last() =~= bytes@.take(k as int));
        k = k + 1;
    }
    assert(bytes@.take(bytes@.len() as int) =~= bytes@);
    out
}

/// The bytes a ranking event's id is hashed from: the timestamp, fish,
/// length in millimetres and world position, each little-endian.
pub open spec fn event_uid_message(ts_utc_epoch: i64, fish_id: i32, length_milli: i32, world_x: i32, world_y: i32, world_z: i32) -> Seq<u8> {
    le_bytes((ts_utc_epoch as u64) as nat, 8) + le_bytes((fish_id as u32) as nat, 4) + le_bytes(
        (length_milli as u32) as nat,
        4,
    ) + le_bytes((world_x as u32) as nat, 4) + le_bytes((world_y as u32) as nat, 4) + le_bytes((world_z as u32) as nat, 4)
}

/// The id of a ranking event: the first 16 bytes of the SHA-256 digest of
/// its timestamp, fish, length and position, in hexadecimal; equivalent rows
/// get the same id.
pub fn ranking_event_uid(
    ts_utc_epoch: i64,
    fish_id: i32,
    length_milli: i32,
    world_x: i32,
    world_y: i32,
    world_z: i32,
) -> (r: String)
    ensures
        r@ == hex_text(sha256(event_uid_message(ts_utc_epoch, fish_id, length_milli, world_x, world_y, world_z)).take(16)),
{
    let mut message: Vec<u8> = Vec::new();
    push_le_bytes(&mut message, ts_utc_epoch as u64, 8);
    push_le_bytes(&mut message, (fish_id as u32) as u64, 4);
    push_le_bytes(&mut message, (length_milli as u32) as u64, 4);
    push_le_bytes(&mut message, (world_x as u32) as u64, 4);
    push_le_bytes(&mut message, (world_y as u32) as u64, 4);
    push_le_bytes(&mut message, (world_z as u32) as u64, 4);
    assert(message@ =~= event_uid_message(ts_utc_epoch, fish_id, length_milli, world_x, world_y, world_z));
    let digest = sha256_digest(message.as_slice());
    let head = slice_head(&digest, 16);
    to_hex(head.as_slice())
}

fn slice_head(v: &Vec<u8>, n: usize) -> (r: Vec<u8>)
    requires
        n <= v@.len(),
    ensures
        r@ == v@.take(n as int),
{
    let mut out: Vec<u8> = Vec::new();
    let mut k: usize = 0;
    while k < n
        invariant
            k <= n,
            n <= v@.len(),
            out@ == v@.take(k as int),
        decreases n - k,
    {
        out.push(v[k]);
        assert(out@ =~= v@.take(k + 1));
        k = k + 1;
    }
    out
}

} // verus!
