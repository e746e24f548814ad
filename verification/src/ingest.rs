//! Small rules of the data import: zone labels, item ids in icon paths,
//! loot conditions, XML attributes and import counts.
use vstd::prelude::*;
use vstd::string::StrSliceExecFns;
use crate::text::{
    hex_upper_padded, push_hex_upper_padded, trim_spec, trim_str, first_char, find_char,
    lemma_first_char, chars_at, has_suffix, ends_with_str, ascii_bytes, parse_u32_str,
    parse_u32_spec, decimal, push_decimal_padded, has_prefix, starts_with_str, next_char_from,
    find_char_from, lemma_next_char_from,
};

verus! {

/// `a - b`, or 0 where `b` is larger.
pub open spec fn saturating_minus(a: int, b: int) -> int {
    if a >= b {
        a - b
    } else {
        0
    }
}

/// The rows of a ranking import that were already stored: those seen,
/// less those skipped and those inserted (never below zero).
pub fn ranking_rows_deduped(rows_seen: u64, rows_inserted: u64, rows_skipped: u64) -> (r: u64)
    ensures
        r == saturating_minus(saturating_minus(rows_seen as int, rows_skipped as int), rows_inserted as int),
{
    let after_skipped = if rows_seen >= rows_skipped { rows_seen - rows_skipped } else { 0 };
    if after_skipped >= rows_inserted {
        after_skipped - rows_inserted
    } else {
        0
    }
}

/// The label of a zone: its name where it has one, else its color in six
/// upper-case hexadecimal digits.
pub open spec fn zone_display_name_spec(rgb_u32: u32, name: Option<Seq<char>>) -> Seq<char> {
    match name {
        Some(n) => n,
        None => "Unknown Zone 0x"@ + hex_upper_padded(rgb_u32 as nat, 6),
    }
}

/// The label of a zone, by name or by color.
pub fn zone_display_name(rgb_u32: u32, name: Option<&str>) -> (r: String)
    ensures
        r@ == zone_display_name_spec(
            rgb_u32,
            match name {
                Some(n) => Some(n@),
                None => None,
            },
        ),
{
    match name {
        Some(n) => n.to_owned(),
        None => {
            let mut label = "Unknown Zone 0x".to_owned();
            push_hex_upper_padded(&mut label, rgb_u32, 6);
            label
        },
    }
}

/// The index of the first occurrence of `t` at or after `i` in `s`, as
/// `str::find` reports it.
pub open spec fn find_seq_from(s: Seq<char>, t: Seq<char>, i: int) -> Option<int>
    decreases s.len() + 1 - i,
{
    if i < 0 || i + t.len() > s.len() {
        None
    } else if s.subrange(i, i + t.len()) == t {
        Some(i)
    } else {
        find_seq_from(s, t, i + 1)
    }
}

/// Finds `t` at or after `i` in `s`.
pub(crate) fn find_str_from(s: &str, t: &str, i: usize) -> (r: Option<usize>)
    ensures
        r matches Some(k) ==> find_seq_from(s@, t@, i as int) == Some(k as int) && k + t@.len()
            <= s@.len(),
        r is None ==> find_seq_from(s@, t@, i as int) is None,
{
    let n = s.unicode_len();
    let m = t.unicode_len();
    if m == 0 {
        if i <= n {
            assert(s@.subrange(i as int, i as int) =~= t@);
            return Some(i);
        }
        return None;
    }
    let mut k: usize = i;
    while k <= n && m <= n - k
        invariant
            n == s@.len(),
            m == t@.len(),
            m > 0,
            i <= k,
            find_seq_from(s@, t@, k as int) == find_seq_from(s@, t@, i as int),
        decreases n + 1 - k,
    {
        if chars_at(s, k, t) {
            return Some(k);
        }
        k = k + 1;
    }
    None
}

/// The value of attribute `name` in an XML line: the text between the
/// first `name="` and the next `"`.
pub open spec fn xml_attr_spec(line: Seq<char>, name: Seq<char>) -> Option<Seq<char>> {
    let needle = name + "=\""@;
    match find_seq_from(line, needle, 0) {
        Some(at) => {
            let rest = line.subrange(at + needle.len(), line.len() as int);
            match first_char(rest, '"') {
                Some(end) => Some(rest.subrange(0, end)),
                None => None,
            }
        },
        None => None,
    }
}

/// Reads attribute `name` from an XML line.
pub fn xml_attr<'a>(line: &'a str, name: &str) -> (r: Option<&'a str>)
    ensures
        (match r {
            Some(v) => Some(v@),
            None => None,
        }) == xml_attr_spec(line@, name@),
{
    let mut needle = name.to_owned();
    needle.append("=\"");
    let found = find_str_from(line, needle.as_str(), 0);
    match found {
        None => None,
        Some(at) => {
            let n = line.unicode_len();
            let start = at + needle.as_str().unicode_len();
            let rest = line.substring_char(start, n);
            match find_char(rest, '"') {
                None => {
                    assert(!(exists|i: int| 0 <= i < rest@.len() && rest@[i] == '"'));
                    None
                },
                Some(end) => {
                    proof {
                        lemma_first_char(rest@, '"', end as int);
                    }
                    Some(rest.substring_char(0, end))
                },
            }
        },
    }
}

/// The index at which the part of `s` before the first `?` or `#` ends,
/// searching from `i`.
pub open spec fn query_end(s: Seq<char>, i: int) -> int
    decreases s.len() - i,
{
    if 0 <= i < s.len() && s[i] != '?' && s[i] != '#' {
        query_end(s, i + 1)
    } else {
        i
    }
}

/// The index just after the last `/` before `j` in `s`, or 0.
pub open spec fn after_last_slash(s: Seq<char>, j: int) -> int
    decreases j,
{
    if 0 < j && s[j - 1] != '/' {
        after_last_slash(s, j - 1)
    } else {
        j
    }
}

/// Whether `c` is an ASCII digit.
pub open spec fn is_digit_char(c: char) -> bool {
    '0' <= c <= '9'
}

/// The index at which the run of ASCII digits that ends at `j` begins.
pub open spec fn digits_start(s: Seq<char>, j: int) -> int
    decreases j,
{
    if 0 < j && is_digit_char(s[j - 1]) {
        digits_start(s, j - 1)
    } else {
        j
    }
}

/// The file name of an icon path: the trimmed path, cut at its first `?`
/// or `#`, after its last `/`.
pub open spec fn icon_file_name(icon: Seq<char>) -> Seq<char> {
    let t = trim_spec(icon);
    let head = t.subrange(0, query_end(t, 0));
    head.subrange(after_last_slash(head, head.len() as int), head.len() as int)
}

/// An icon's file name without its image extension (`.dds`, `.DDS`, `.webp`
/// or `.WEBP`, the first that fits).
pub open spec fn icon_stem(file: Seq<char>) -> Seq<char> {
    if has_suffix(file, ".dds"@) {
        file.subrange(0, file.len() - 4)
    } else if has_suffix(file, ".DDS"@) {
        file.subrange(0, file.len() - 4)
    } else if has_suffix(file, ".webp"@) {
        file.subrange(0, file.len() - 5)
    } else if has_suffix(file, ".WEBP"@) {
        file.subrange(0, file.len() - 5)
    } else {
        file
    }
}

/// The item id that an icon path ends in: the decimal digits at the end of
/// its stem, where there are some and their value fits in 32 bits.
pub open spec fn item_id_from_icon_spec(icon: Seq<char>) -> Option<u32> {
    let stem = icon_stem(icon_file_name(icon));
    let digits = stem.subrange(digits_start(stem, stem.len() as int), stem.len() as int);
    if digits.len() == 0 {
        None
    } else {
        parse_u32_spec(ascii_bytes(digits))
    }
}

proof fn lemma_after_last_slash(s: Seq<char>, j: int)
    requires
        0 <= j <= s.len(),
    ensures
        0 <= after_last_slash(s, j) <= j,
    decreases j,
{
    if 0 < j && s[j - 1] != '/' {
        lemma_after_last_slash(s, j - 1);
    }
}

proof fn lemma_digits_start(s: Seq<char>, j: int)
    requires
        0 <= j <= s.len(),
    ensures
        0 <= digits_start(s, j) <= j,
    decreases j,
{
    if 0 < j && is_digit_char(s[j - 1]) {
        lemma_digits_start(s, j - 1);
    }
}

/// The item id at the end of an icon path.
pub fn item_id_from_icon_image(icon_image: &str) -> (r: Option<u32>)
    ensures
        r == item_id_from_icon_spec(icon_image@),
{
    let t = trim_str(icon_image);
    let n = t.unicode_len();
    let mut q: usize = 0;
    while q < n && t.get_char(q) != '?' && t.get_char(q) != '#'
        invariant
            n == t@.len(),
            q <= n,
            query_end(t@, q as int) == query_end(t@, 0),
        decreases n - q,
    {
        q = q + 1;
    }
    let head = t.substring_char(0, q);
    let mut a: usize = q;
    while 0 < a && head.get_char(a - 1) != '/'
        invariant
            head@.len() == q,
            a <= q,
            after_last_slash(head@, a as int) == after_last_slash(head@, q as int),
        decreases a,
    {
        a = a - 1;
    }
    let file = head.substring_char(a, q);
    let m = file.unicode_len();
    let stem_len: usize = if ends_with_str(file, ".dds") || ends_with_str(file, ".DDS") {
        proof {
            reveal_strlit(".dds");
            reveal_strlit(".DDS");
        }
        m - 4
    } else if ends_with_str(file, ".webp") || ends_with_str(file, ".WEBP") {
        proof {
            reveal_strlit(".webp");
            reveal_strlit(".WEBP");
        }
        m - 5
    } else {
        m
    };
    let stem = file.substring_char(0, stem_len);
    assert(stem@ == icon_stem(file@));
    let mut d: usize = stem_len;
    while 0 < d && '0' <= stem.get_char(d - 1) && stem.get_char(d - 1) <= '9'
        invariant
            stem@.len() == stem_len,
            d <= stem_len,
            digits_start(stem@, d as int) == digits_start(stem@, stem_len as int),
        decreases d,
    {
        d = d - 1;
    }
    if d == stem_len {
        return None;
    }
    let digits = stem.substring_char(d, stem_len);
    parse_u32_str(digits)
}


/// The name and number of a fishing level: ten levels each of Beginner,
/// Apprentice, Skilled, Professional and Artisan, thirty of Master, then
/// Guru without end (a level below 1 counts as 1).
pub open spec fn lifeskill_level_label_spec(level: u32) -> Seq<char> {
    let r: int = if level < 1 { 1 } else { level as int };
    if r <= 10 {
        "Beginner "@ + decimal(r as nat)
    } else if r <= 20 {
        "Apprentice "@ + decimal((r - 10) as nat)
    } else if r <= 30 {
        "Skilled "@ + decimal((r - 20) as nat)
    } else if r <= 40 {
        "Professional "@ + decimal((r - 30) as nat)
    } else if r <= 50 {
        "Artisan "@ + decimal((r - 40) as nat)
    } else if r <= 80 {
        "Master "@ + decimal((r - 50) as nat)
    } else {
        "Guru "@ + decimal((r - 80) as nat)
    }
}

/// Names a fishing level.
pub fn lifeskill_level_label(level: u32) -> (r: String)
    ensures
        r@ == lifeskill_level_label_spec(level),
{
    let r: u32 = if level < 1 { 1 } else { level };
    let (mut label, n) = if r <= 10 {
        ("Beginner ".to_owned(), r)
    } else if r <= 20 {
        ("Apprentice ".to_owned(), r - 10)
    } else if r <= 30 {
        ("Skilled ".to_owned(), r - 20)
    } else if r <= 40 {
        ("Professional ".to_owned(), r - 30)
    } else if r <= 50 {
        ("Artisan ".to_owned(), r - 40)
    } else if r <= 80 {
        ("Master ".to_owned(), r - 50)
    } else {
        ("Guru ".to_owned(), r - 80)
    };
    push_decimal_padded(&mut label, n, 1);
    label
}

/// `v + 1`, staying at the largest `u32`.
pub open spec fn plus_one_saturating(v: u32) -> u32 {
    if v == u32::MAX {
        v
    } else {
        (v + 1) as u32
    }
}

/// The threshold that a predicate `prefix` followed by a number names: one
/// more than the number.
pub open spec fn threshold_after(p: Seq<char>, prefix: Seq<char>) -> Option<u32> {
    if has_prefix(p, prefix) {
        match parse_u32_spec(ascii_bytes(p.subrange(prefix.len() as int, p.len() as int))) {
            Some(v) => Some(plus_one_saturating(v)),
            None => None,
        }
    } else {
        None
    }
}

/// The contents group that a predicate `prefix` followed by a group and a
/// closing `)` names.
pub open spec fn group_after(p: Seq<char>, prefix: Seq<char>) -> Option<Seq<char>> {
    if has_prefix(p, prefix) && p.len() > prefix.len() && p.last() == ')' {
        Some(p.subrange(prefix.len() as int, p.len() - 1))
    } else {
        None
    }
}

/// The label of one predicate of a loot condition: fishing level and
/// mastery thresholds and contents groups in words, anything else as it
/// is written.
pub open spec fn humanize_source_condition_spec(p: Seq<char>) -> Seq<char> {
    match threshold_after(p, "getLifeLevel(1)>"@) {
        Some(t) => "Fishing Level "@ + lifeskill_level_label_spec(t) + "+"@,
        None => match threshold_after(p, "lifestat(1,1)>"@) {
            Some(t) => "Fishing Mastery "@ + decimal(t as nat) + "+"@,
            None => match group_after(p, "isContentsGroupOpen(0,"@) {
                Some(g) => "Contents Group "@ + g + " Open"@,
                None => match group_after(p, "!isContentsGroupOpen(0,"@) {
                    Some(g) => "Contents Group "@ + g + " Closed"@,
                    None => p,
                },
            },
        },
    }
}

/// The number after `prefix` in `p`, plus one, where `p` is `prefix`
/// followed by a number.
fn threshold_of(p: &str, prefix: &str) -> (r: Option<u32>)
    ensures
        r == threshold_after(p@, prefix@),
{
    if !starts_with_str(p, prefix) {
        return None;
    }
    let rest = p.substring_char(prefix.unicode_len(), p.unicode_len());
    match parse_u32_str(rest) {
        Some(v) => Some(if v == u32::MAX { v } else { v + 1 }),
        None => None,
    }
}

/// The group between `prefix` and a closing `)` in `p`.
fn group_of<'a>(p: &'a str, prefix: &str) -> (r: Option<&'a str>)
    ensures
        (match r {
            Some(g) => Some(g@),
            None => None,
        }) == group_after(p@, prefix@),
{
    let n = p.unicode_len();
    let k = prefix.unicode_len();
    if starts_with_str(p, prefix) && n > k && p.get_char(n - 1) == ')' {
        Some(p.substring_char(k, n - 1))
    } else {
        None
    }
}

/// Labels one predicate of a loot condition.
pub fn humanize_source_condition(predicate: &str) -> (r: String)
    ensures
        r@ == humanize_source_condition_spec(predicate@),
{
    if let Some(t) = threshold_of(predicate, "getLifeLevel(1)>") {
        let mut label = "Fishing Level ".to_owned();
        let level = lifeskill_level_label(t);
        label.append(level.as_str());
        label.append("+");
        return label;
    }
    if let Some(t) = threshold_of(predicate, "lifestat(1,1)>") {
        let mut label = "Fishing Mastery ".to_owned();
        push_decimal_padded(&mut label, t, 1);
        label.append("+");
        return label;
    }
    if let Some(g) = group_of(predicate, "isContentsGroupOpen(0,") {
        let mut label = "Contents Group ".to_owned();
        label.append(g);
        label.append(" Open");
        return label;
    }
    if let Some(g) = group_of(predicate, "!isContentsGroupOpen(0,") {
        let mut label = "Contents Group ".to_owned();
        label.append(g);
        label.append(" Closed");
        return label;
    }
    predicate.to_owned()
}

/// The pieces of `s` from `i` on, cut at each `c`, as `str::split` gives
/// them (an empty piece where two `c` meet or `c` ends `s`).
pub open spec fn pieces_from(s: Seq<char>, c: char, i: int) -> Seq<Seq<char>>
    decreases s.len() + 1 - i,
{
    if i < 0 || i > s.len() {
        seq![]
    } else {
        let k = next_char_from(s, c, i);
        proof {
            lemma_next_char_from(s, c, i);
        }
        if k >= s.len() {
            seq![s.subrange(i, s.len() as int)]
        } else {
            seq![s.subrange(i, k)] + pieces_from(s, c, k + 1)
        }
    }
}

/// The labels of the predicates of a loot condition: each piece trimmed,
/// empty pieces and empty labels left out.
pub open spec fn condition_labels(pieces: Seq<Seq<char>>) -> Seq<Seq<char>>
    decreases pieces.len(),
{
    if pieces.len() == 0 {
        seq![]
    } else {
        let rest = condition_labels(pieces.drop_last());
        let p = trim_spec(pieces.last());
        if p.len() > 0 && humanize_source_condition_spec(p).len() > 0 {
            rest.push(humanize_source_condition_spec(p))
        } else {
            rest
        }
    }
}

/// `parts` joined with `sep` between each two.
pub open spec fn join_spec(parts: Seq<Seq<char>>, sep: Seq<char>) -> Seq<char>
    decreases parts.len(),
{
    if parts.len() == 0 {
        seq![]
    } else if parts.len() == 1 {
        parts[0]
    } else {
        join_spec(parts.drop_last(), sep) + sep + parts.last()
    }
}

/// The separator between the labels of a loot condition.
pub open spec fn label_separator() -> Seq<char> {
    " \u{b7} "@
}

/// How a hotspot's loot condition is shown: a key, the text and a tooltip.
#[derive(Clone, Debug)]
pub struct HotspotConditionFields {
    pub key: String,
    pub text: String,
    pub tooltip: String,
}

/// The condition that a raw loot condition holds, trimmed (empty where
/// there is none).
pub open spec fn trimmed_condition(raw: Option<Seq<char>>) -> Seq<char> {
    match raw {
        Some(s) => trim_spec(s),
        None => trim_spec(seq![]),
    }
}

/// Shows a loot condition: an empty one as `default` / `Default`, any other
/// keyed and explained by itself, its text the labels of its predicates.
pub fn source_condition_fields(condition_raw: Option<&str>) -> (r: HotspotConditionFields)
    ensures
        ({
            let raw = match condition_raw {
                Some(s) => Some(s@),
                None => None,
            };
            let c = trimmed_condition(raw);
            if c.len() == 0 {
                r.key@ == "default"@ && r.text@ == "Default"@ && r.tooltip@ == "Default"@
            } else {
                r.key@ == c && r.tooltip@ == c && r.text@ == join_spec(
                    condition_labels(pieces_from(c, ';', 0)),
                    label_separator(),
                )
            }
        }),
{
    let raw = match condition_raw {
        Some(s) => s,
        None => "",
    };
    proof {
        reveal_strlit("");
    }
    let condition = trim_str(raw);
    let n = condition.unicode_len();
    if n == 0 {
        return HotspotConditionFields {
            key: "default".to_owned(),
            text: "Default".to_owned(),
            tooltip: "Default".to_owned(),
        };
    }
    let sep = " \u{b7} ";
    let mut text = String::new();
    let mut first = true;
    let ghost mut done: Seq<Seq<char>> = seq![];
    let mut i: usize = 0;
    loop
        invariant_except_break
            i <= n,
            done + pieces_from(condition@, ';', i as int) == pieces_from(condition@, ';', 0),
        invariant
            n == condition@.len(),
            sep@ == label_separator(),
            text@ == join_spec(condition_labels(done), label_separator()),
            first == (condition_labels(done).len() == 0),
        ensures
            done == pieces_from(condition@, ';', 0),
        decreases n + 1 - i,
    {
        let k = find_char_from(condition, ';', i);
        proof {
            lemma_next_char_from(condition@, ';', i as int);
        }
        let piece = condition.substring_char(i, k);
        let p = trim_str(piece);
        let ghost before = done;
        proof {
            done = done.push(piece@);
            assert(done.drop_last() =~= before);
        }
        let ghost labels_before = condition_labels(before);
        assert(done.last() == piece@);
        if p.unicode_len() > 0 {
            let label = humanize_source_condition(p);
            if label.as_str().unicode_len() > 0 {
                assert(condition_labels(done) == labels_before.push(label@));
                assert(labels_before.push(label@).drop_last() =~= labels_before);
                if !first {
                    text.append(sep);
                }
                text.append(label.as_str());
                first = false;
            } else {
                assert(condition_labels(done) == labels_before);
            }
        } else {
            assert(condition_labels(done) == labels_before);
        }
        if k >= n {
            assert(done =~= before + pieces_from(condition@, ';', i as int));
            break;
        }
        assert(before + pieces_from(condition@, ';', i as int) =~= done + pieces_from(
            condition@,
            ';',
            k + 1,
        ));
        i = k + 1;
    }
    HotspotConditionFields {
        key: condition.to_owned(),
        text,
        tooltip: condition.to_owned(),
    }
}

} // verus!
