//! The waypoint graph of `waypoint.xml`: one `<Waypoint .../>` line per
//! waypoint and one `<Link .../>` line per link between two of them.
use vstd::prelude::*;
use vstd::string::StrSliceExecFns;
use crate::archive::{lossy_utf8, utf8_lossy};
use crate::text::{float_literal, is_float_literal, 
    trim_spec, trim_str, has_prefix, starts_with_str, parse_u32_str, parse_u32_spec, ascii_bytes,
    first_char, find_char, lemma_first_char, next_char_from, find_char_from, lemma_next_char_from,
};
use crate::ingest::{find_seq_from, find_str_from, pieces_from};
use crate::gcdata::{split_waypoint_name, split_waypoint_name_spec};

verus! {

/// What is wrong with an attribute of a line.
#[derive(Clone, Copy, Debug, PartialEq, Eq)]
pub enum AttributeFault {
    /// The line has no such attribute.
    Missing,
    /// The attribute's value has no closing quote.
    Unterminated,
    /// The value is not an unsigned 32-bit number.
    NotANumber,
    /// The value is neither `True` nor `False`.
    NotABool,
    /// The value is no number that `f64` reads.
    NotAFloat,
}

/// The attributes that the waypoint lines and link lines are read for.
#[derive(Clone, Copy, Debug, PartialEq, Eq)]
pub enum WaypointAttribute {
    Key,
    Name,
    PosX,
    PosY,
    PosZ,
    Property,
    IsSubWaypoint,
    IsEscape,
    SourceWaypoint,
    TargetWaypoint,
}

/// Why `waypoint.xml` could not be read: the line (counted from 1), the
/// attribute and what is wrong with it.
#[derive(Clone, Copy, Debug, PartialEq, Eq)]
pub struct WaypointXmlError {
    pub line_number: usize,
    pub attribute: WaypointAttribute,
    pub fault: AttributeFault,
}

/// The value of attribute `attr` in `line`: the text between the first
/// `attr="` and the next `"`.
pub open spec fn attr_spec(line: Seq<char>, attr: Seq<char>) -> Result<Seq<char>, AttributeFault> {
    let needle = attr + "=\""@;
    match find_seq_from(line, needle, 0) {
        None => Err(AttributeFault::Missing),
        Some(at) => {
            let rest = line.subrange(at + needle.len(), line.len() as int);
            match first_char(rest, '"') {
                Some(end) => Ok(rest.subrange(0, end)),
                None => Err(AttributeFault::Unterminated),
            }
        },
    }
}

/// The value of attribute `attr` in `line` as a number.
pub open spec fn attr_u32_spec(line: Seq<char>, attr: Seq<char>) -> Result<u32, AttributeFault> {
    match attr_spec(line, attr) {
        Err(f) => Err(f),
        Ok(v) => match parse_u32_spec(ascii_bytes(v)) {
            Some(n) => Ok(n),
            None => Err(AttributeFault::NotANumber),
        },
    }
}

/// The value of attribute `attr` in `line` as a truth value, written
/// `True` or `False`.
pub open spec fn attr_bool_spec(line: Seq<char>, attr: Seq<char>) -> Result<bool, AttributeFault> {
    match attr_spec(line, attr) {
        Err(f) => Err(f),
        Ok(v) => if v == "True"@ {
            Ok(true)
        } else if v == "False"@ {
            Ok(false)
        } else {
            Err(AttributeFault::NotABool)
        },
    }
}

/// Reads attribute `attr` of `line`.
pub fn parse_attr<'a>(line: &'a str, attr: &str) -> (r: Result<&'a str, AttributeFault>)
    ensures
        (match r {
            Ok(v) => Ok(v@),
            Err(f) => Err(f),
        }) == attr_spec(line@, attr@),
{
    let mut needle = attr.to_owned();
    needle.append("=\"");
    match find_str_from(line, needle.as_str(), 0) {
        None => Err(AttributeFault::Missing),
        Some(at) => {
            let n = line.unicode_len();
            let start = at + needle.as_str().unicode_len();
            let rest = line.substring_char(start, n);
            match find_char(rest, '"') {
                None => {
                    assert(!(exists|i: int| 0 <= i < rest@.len() && rest@[i] == '"'));
                    Err(AttributeFault::Unterminated)
                },
                Some(end) => {
                    proof {
                        lemma_first_char(rest@, '"', end as int);
                    }
                    Ok(rest.substring_char(0, end))
                },
            }
        },
    }
}

/// Reads attribute `attr` of `line` as a number.
pub fn parse_attr_u32(line: &str, attr: &str) -> (r: Result<u32, AttributeFault>)
    ensures
        r == attr_u32_spec(line@, attr@),
{
    let raw = parse_attr(line, attr)?;
    match parse_u32_str(raw) {
        Some(v) => Ok(v),
        None => Err(AttributeFault::NotANumber),
    }
}

/// Reads attribute `attr` of `line` as `True` or `False`.
pub fn parse_attr_bool(line: &str, attr: &str) -> (r: Result<bool, AttributeFault>)
    ensures
        r == attr_bool_spec(line@, attr@),
{
    let raw = parse_attr(line, attr)?;
    proof {
        reveal_strlit("True");
        reveal_strlit("False");
    }
    if raw.unicode_len() == 4 && starts_with_str(raw, "True") {
        assert(raw@ =~= "True"@);
        Ok(true)
    } else if raw.unicode_len() == 5 && starts_with_str(raw, "False") {
        assert(raw@ =~= "False"@);
        Ok(false)
    } else {
        assert(raw@ != "True"@ && raw@ != "False"@) by {
            if raw@ == "True"@ {
                assert(raw@.subrange(0, 4) =~= raw@);
            }
            if raw@ == "False"@ {
                assert(raw@.subrange(0, 5) =~= raw@);
            }
        }
        Err(AttributeFault::NotABool)
    }
}

/// Reads attribute `attr` of `line` as text.
pub fn parse_attr_string(line: &str, attr: &str) -> (r: Result<String, AttributeFault>)
    ensures
        (match r {
            Ok(v) => Ok(v@),
            Err(f) => Err(f),
        }) == attr_spec(line@, attr@),
{
    let raw = parse_attr(line, attr)?;
    Ok(raw.to_owned())
}


/// One waypoint as an inspection reports it, its position as written.
#[derive(Clone, Debug)]
pub struct WaypointXmlWaypointSummary {
    pub key: u32,
    pub line_number: usize,
    pub raw_name: String,
    pub name_scope: Option<String>,
    pub name_token: Option<String>,
    pub pos_x: String,
    pub pos_y: String,
    pub pos_z: String,
    pub property: String,
    pub is_sub_waypoint: bool,
    pub is_escape: bool,
}

/// The text of an optional string.
pub open spec fn opt_text(o: Option<String>) -> Option<Seq<char>> {
    match o {
        Some(s) => Some(s@),
        None => None,
    }
}

/// An error at line `number`.
pub open spec fn error_at(number: int, attribute: WaypointAttribute, fault: AttributeFault) -> WaypointXmlError {
    WaypointXmlError { line_number: number as usize, attribute, fault }
}

/// The value of an attribute that is known to read.
pub open spec fn attr_value(line: Seq<char>, attr: Seq<char>) -> Seq<char> {
    match attr_spec(line, attr) {
        Ok(v) => v,
        Err(_) => seq![],
    }
}

/// What is wrong with the fields after the key of waypoint line `line`,
/// number `number`, if anything: the first of name, position, property and
/// the two flags that does not read.
pub open spec fn waypoint_fields_fault(line: Seq<char>, number: int) -> Option<WaypointXmlError> {
    if attr_spec(line, "Name"@) is Err {
        Some(error_at(number, WaypointAttribute::Name, attr_spec(line, "Name"@)->Err_0))
    } else if attr_spec(line, "PosX"@) is Err {
        Some(error_at(number, WaypointAttribute::PosX, attr_spec(line, "PosX"@)->Err_0))
    } else if !float_literal(attr_value(line, "PosX"@)) {
        Some(error_at(number, WaypointAttribute::PosX, AttributeFault::NotAFloat))
    } else if attr_spec(line, "PosY"@) is Err {
        Some(error_at(number, WaypointAttribute::PosY, attr_spec(line, "PosY"@)->Err_0))
    } else if !float_literal(attr_value(line, "PosY"@)) {
        Some(error_at(number, WaypointAttribute::PosY, AttributeFault::NotAFloat))
    } else if attr_spec(line, "PosZ"@) is Err {
        Some(error_at(number, WaypointAttribute::PosZ, attr_spec(line, "PosZ"@)->Err_0))
    } else if !float_literal(attr_value(line, "PosZ"@)) {
        Some(error_at(number, WaypointAttribute::PosZ, AttributeFault::NotAFloat))
    } else if attr_spec(line, "Property"@) is Err {
        Some(error_at(number, WaypointAttribute::Property, attr_spec(line, "Property"@)->Err_0))
    } else if attr_bool_spec(line, "IsSubWaypoint"@) is Err {
        Some(error_at(number, WaypointAttribute::IsSubWaypoint, attr_bool_spec(line, "IsSubWaypoint"@)->Err_0))
    } else if attr_bool_spec(line, "IsEscape"@) is Err {
        Some(error_at(number, WaypointAttribute::IsEscape, attr_bool_spec(line, "IsEscape"@)->Err_0))
    } else {
        None
    }
}

/// Whether `r` is the waypoint that line `line`, number `number`, with key
/// `key`, describes.
#[verifier::opaque]
pub open spec fn record_matches(r: WaypointXmlWaypointSummary, line: Seq<char>, number: int, key: u32) -> bool {
    let name = attr_value(line, "Name"@);
    &&& r.key == key
    &&& r.line_number == number
    &&& r.raw_name@ == name
    &&& (opt_text(r.name_scope), opt_text(r.name_token)) == split_waypoint_name_spec(name)
    &&& r.pos_x@ == attr_value(line, "PosX"@)
    &&& r.pos_y@ == attr_value(line, "PosY"@)
    &&& r.pos_z@ == attr_value(line, "PosZ"@)
    &&& r.property@ == attr_value(line, "Property"@)
    &&& attr_bool_spec(line, "IsSubWaypoint"@) == Ok::<bool, AttributeFault>(r.is_sub_waypoint)
    &&& attr_bool_spec(line, "IsEscape"@) == Ok::<bool, AttributeFault>(r.is_escape)
}

/// Reads the fields of a waypoint line whose key is `key`.
fn read_waypoint(line: &str, number: usize, key: u32) -> (r: Result<WaypointXmlWaypointSummary, WaypointXmlError>)
    ensures
        match waypoint_fields_fault(line@, number as int) {
            Some(e) => r == Err::<WaypointXmlWaypointSummary, WaypointXmlError>(e),
            None => r matches Ok(w) && record_matches(w, line@, number as int, key),
        },
{
    let raw_name = match parse_attr_string(line, "Name") {
        Ok(v) => v,
        Err(fault) => return Err(WaypointXmlError { line_number: number, attribute: WaypointAttribute::Name, fault }),
    };
    let pos_x = match parse_attr_string(line, "PosX") {
        Ok(v) => v,
        Err(fault) => return Err(WaypointXmlError { line_number: number, attribute: WaypointAttribute::PosX, fault }),
    };
    if !is_float_literal(pos_x.as_str()) {
        return Err(
            WaypointXmlError { line_number: number, attribute: WaypointAttribute::PosX, fault: AttributeFault::NotAFloat },
        );
    }
    let pos_y = match parse_attr_string(line, "PosY") {
        Ok(v) => v,
        Err(fault) => return Err(WaypointXmlError { line_number: number, attribute: WaypointAttribute::PosY, fault }),
    };
    if !is_float_literal(pos_y.as_str()) {
        return Err(
            WaypointXmlError { line_number: number, attribute: WaypointAttribute::PosY, fault: AttributeFault::NotAFloat },
        );
    }
    let pos_z = match parse_attr_string(line, "PosZ") {
        Ok(v) => v,
        Err(fault) => return Err(WaypointXmlError { line_number: number, attribute: WaypointAttribute::PosZ, fault }),
    };
    if !is_float_literal(pos_z.as_str()) {
        return Err(
            WaypointXmlError { line_number: number, attribute: WaypointAttribute::PosZ, fault: AttributeFault::NotAFloat },
        );
    }
    let property = match parse_attr_string(line, "Property") {
        Ok(v) => v,
        Err(fault) => return Err(
            WaypointXmlError { line_number: number, attribute: WaypointAttribute::Property, fault },
        ),
    };
    let is_sub_waypoint = match parse_attr_bool(line, "IsSubWaypoint") {
        Ok(v) => v,
        Err(fault) => return Err(
            WaypointXmlError { line_number: number, attribute: WaypointAttribute::IsSubWaypoint, fault },
        ),
    };
    let is_escape = match parse_attr_bool(line, "IsEscape") {
        Ok(v) => v,
        Err(fault) => return Err(
            WaypointXmlError { line_number: number, attribute: WaypointAttribute::IsEscape, fault },
        ),
    };
    let (name_scope, name_token) = split_waypoint_name(raw_name.as_str());
    proof {
        reveal(record_matches);
    }
    Ok(
        WaypointXmlWaypointSummary {
            key,
            line_number: number,
            raw_name,
            name_scope,
            name_token,
            pos_x,
            pos_y,
            pos_z,
            property,
            is_sub_waypoint,
            is_escape,
        },
    )
}

/// A copy of a waypoint.
fn copy_waypoint(w: &WaypointXmlWaypointSummary) -> (r: WaypointXmlWaypointSummary)
    ensures
        r.key == w.key && r.line_number == w.line_number && r.raw_name@ == w.raw_name@ && opt_text(r.name_scope)
            == opt_text(w.name_scope) && opt_text(r.name_token) == opt_text(w.name_token) && r.pos_x@ == w.pos_x@
            && r.pos_y@ == w.pos_y@ && r.pos_z@ == w.pos_z@ && r.property@ == w.property@ && r.is_sub_waypoint
            == w.is_sub_waypoint && r.is_escape == w.is_escape,
{
    WaypointXmlWaypointSummary {
        key: w.key,
        line_number: w.line_number,
        raw_name: w.raw_name.clone(),
        name_scope: match &w.name_scope {
            Some(s) => Some(s.clone()),
            None => None,
        },
        name_token: match &w.name_token {
            Some(s) => Some(s.clone()),
            None => None,
        },
        pos_x: w.pos_x.clone(),
        pos_y: w.pos_y.clone(),
        pos_z: w.pos_z.clone(),
        property: w.property.clone(),
        is_sub_waypoint: w.is_sub_waypoint,
        is_escape: w.is_escape,
    }
}


/// Whether a line of the file, trimmed, begins a waypoint.
#[verifier::opaque]
pub open spec fn is_waypoint_line(raw: Seq<char>) -> bool {
    has_prefix(trim_spec(raw), "<Waypoint "@)
}

/// Whether a line of the file, trimmed, begins a link (and no waypoint).
#[verifier::opaque]
pub open spec fn is_link_line(raw: Seq<char>) -> bool {
    !is_waypoint_line(raw) && has_prefix(trim_spec(raw), "<Link "@)
}

/// The key of a waypoint line.
#[verifier::opaque]
pub open spec fn line_key(raw: Seq<char>) -> Result<u32, AttributeFault> {
    attr_u32_spec(trim_spec(raw), "Key"@)
}

/// Whether the inspection looks at the waypoint `key`: every waypoint
/// where no focus is given, else those of the focus.
pub open spec fn selected(focus: Seq<u32>, key: u32) -> bool {
    focus.len() == 0 || focus.contains(key)
}

/// What is wrong with line `raw`, number `number`, if anything: the key of
/// a waypoint line, the other fields of a selected one, and, where a focus
/// is given, the two ends of a link line.
#[verifier::opaque]
pub open spec fn line_fault(raw: Seq<char>, number: int, focus: Seq<u32>) -> Option<WaypointXmlError> {
    let line = trim_spec(raw);
    if is_waypoint_line(raw) {
        match line_key(raw) {
            Err(f) => Some(error_at(number, WaypointAttribute::Key, f)),
            Ok(key) => if selected(focus, key) {
                waypoint_fields_fault(line, number)
            } else {
                None
            },
        }
    } else if is_link_line(raw) && focus.len() > 0 {
        match attr_u32_spec(line, "SourceWaypoint"@) {
            Err(f) => Some(error_at(number, WaypointAttribute::SourceWaypoint, f)),
            Ok(_) => match attr_u32_spec(line, "TargetWaypoint"@) {
                Err(f) => Some(error_at(number, WaypointAttribute::TargetWaypoint, f)),
                Ok(_) => None,
            },
        }
    } else {
        None
    }
}

/// The two ends of a link line whose ends both read.
#[verifier::opaque]
pub open spec fn link_of(raw: Seq<char>) -> Option<(u32, u32)> {
    let line = trim_spec(raw);
    if is_link_line(raw) && attr_u32_spec(line, "SourceWaypoint"@) is Ok && attr_u32_spec(line, "TargetWaypoint"@) is Ok {
        Some((attr_u32_spec(line, "SourceWaypoint"@)->Ok_0, attr_u32_spec(line, "TargetWaypoint"@)->Ok_0))
    } else {
        None
    }
}

/// The first fault among the first `i` lines.
pub open spec fn lines_fault(lines: Seq<Seq<char>>, focus: Seq<u32>, i: int) -> Option<WaypointXmlError>
    decreases i,
{
    if i <= 0 {
        None
    } else {
        match lines_fault(lines, focus, i - 1) {
            Some(e) => Some(e),
            None => line_fault(lines[i - 1], i, focus),
        }
    }
}

/// The number of waypoint lines among the first `i` lines.
pub open spec fn waypoint_lines(lines: Seq<Seq<char>>, i: int) -> nat
    decreases i,
{
    if i <= 0 {
        0
    } else {
        waypoint_lines(lines, i - 1) + if is_waypoint_line(lines[i - 1]) { 1nat } else { 0nat }
    }
}

/// The number of link lines among the first `i` lines.
pub open spec fn link_lines(lines: Seq<Seq<char>>, i: int) -> nat
    decreases i,
{
    if i <= 0 {
        0
    } else {
        link_lines(lines, i - 1) + if is_link_line(lines[i - 1]) { 1nat } else { 0nat }
    }
}

/// The index of the last of the first `i` lines that describes the
/// selected waypoint `key`.
pub open spec fn last_record(lines: Seq<Seq<char>>, focus: Seq<u32>, key: u32, i: int) -> Option<int>
    decreases i,
{
    if i <= 0 {
        None
    } else if is_waypoint_line(lines[i - 1]) && line_key(lines[i - 1]) == Ok::<u32, AttributeFault>(key) && selected(focus, key) {
        Some(i - 1)
    } else {
        last_record(lines, focus, key, i - 1)
    }
}

/// The links of the first `i` lines, in order.
pub open spec fn link_pairs(lines: Seq<Seq<char>>, i: int) -> Seq<(u32, u32)>
    decreases i,
{
    if i <= 0 {
        seq![]
    } else {
        match link_of(lines[i - 1]) {
            Some(p) => link_pairs(lines, i - 1).push(p),
            None => link_pairs(lines, i - 1),
        }
    }
}

/// Whether `f` holds the last description of waypoint `key` among `lines`,
/// if there is one.
pub open spec fn found_matches(f: Option<WaypointXmlWaypointSummary>, lines: Seq<Seq<char>>, focus: Seq<u32>, key: u32) -> bool {
    match last_record(lines, focus, key, lines.len() as int) {
        Some(j) => f matches Some(w) && record_matches(w, trim_spec(lines[j]), j + 1, key),
        None => f is None,
    }
}

/// Whether `x` is one of `ids`.
fn contains_id(ids: &[u32], x: u32) -> (r: bool)
    ensures
        r == ids@.contains(x),
{
    let mut i: usize = 0;
    while i < ids.len()
        invariant
            i <= ids@.len(),
            forall|j: int| 0 <= j < i ==> ids@[j] != x,
        decreases ids@.len() - i,
    {
        if ids[i] == x {
            assert(ids@[i as int] == x);
            return true;
        }
        i = i + 1;
    }
    false
}

proof fn lemma_fault_prefix(lines: Seq<Seq<char>>, x: Seq<char>, focus: Seq<u32>, i: int)
    requires
        0 <= i <= lines.len(),
    ensures
        lines_fault(lines.push(x), focus, i) == lines_fault(lines, focus, i),
    decreases i,
{
    if i > 0 {
        lemma_fault_prefix(lines, x, focus, i - 1);
        assert(lines.push(x)[i - 1] == lines[i - 1]);
    }
}

proof fn lemma_counts_prefix(lines: Seq<Seq<char>>, x: Seq<char>, i: int)
    requires
        0 <= i <= lines.len(),
    ensures
        waypoint_lines(lines.push(x), i) == waypoint_lines(lines, i),
        link_lines(lines.push(x), i) == link_lines(lines, i),
        link_pairs(lines.push(x), i) == link_pairs(lines, i),
    decreases i,
{
    if i > 0 {
        lemma_counts_prefix(lines, x, i - 1);
        assert(lines.push(x)[i - 1] == lines[i - 1]);
    }
}

proof fn lemma_record_prefix(lines: Seq<Seq<char>>, x: Seq<char>, focus: Seq<u32>, key: u32, i: int)
    requires
        0 <= i <= lines.len(),
    ensures
        last_record(lines.push(x), focus, key, i) == last_record(lines, focus, key, i),
        last_record(lines, focus, key, i) matches Some(j) ==> 0 <= j < i,
    decreases i,
{
    if i > 0 {
        lemma_record_prefix(lines, x, focus, key, i - 1);
        assert(lines.push(x)[i - 1] == lines[i - 1]);
    }
}

proof fn lemma_fault_extends(lines: Seq<Seq<char>>, ext: Seq<Seq<char>>, focus: Seq<u32>)
    requires
        lines_fault(lines, focus, lines.len() as int) is Some,
    ensures
        lines_fault(lines + ext, focus, (lines + ext).len() as int) == lines_fault(lines, focus, lines.len() as int),
    decreases ext.len(),
{
    if ext.len() == 0 {
        assert(lines + ext =~= lines);
    } else {
        let shorter = lines + ext.drop_last();
        lemma_fault_extends(lines, ext.drop_last(), focus);
        assert(lines + ext =~= shorter.push(ext.last()));
        lemma_fault_prefix(shorter, ext.last(), focus, shorter.len() as int);
    }
}

/// Whether `c` carries the same fields as `w`.
pub open spec fn same_waypoint(c: WaypointXmlWaypointSummary, w: WaypointXmlWaypointSummary) -> bool {
    c.key == w.key && c.line_number == w.line_number && c.raw_name@ == w.raw_name@ && opt_text(c.name_scope)
        == opt_text(w.name_scope) && opt_text(c.name_token) == opt_text(w.name_token) && c.pos_x@ == w.pos_x@
        && c.pos_y@ == w.pos_y@ && c.pos_z@ == w.pos_z@ && c.property@ == w.property@ && c.is_sub_waypoint
        == w.is_sub_waypoint && c.is_escape == w.is_escape
}

/// Puts a copy of `w` in each place of `found` whose focus id is `key`.
fn update_found(found: &mut Vec<Option<WaypointXmlWaypointSummary>>, focus: &[u32], key: u32, w: &WaypointXmlWaypointSummary)
    requires
        old(found)@.len() == focus@.len(),
    ensures
        final(found)@.len() == focus@.len(),
        forall|q: int| 0 <= q < focus@.len() && focus@[q] == key ==> (#[trigger] final(found)@[q] matches Some(c) && same_waypoint(c, *w)),
        forall|q: int| 0 <= q < focus@.len() && focus@[q] != key ==> #[trigger] final(found)@[q] == old(found)@[q],
{
    let ghost start = found@;
    let mut j: usize = 0;
    while j < focus.len()
        invariant
            found@.len() == focus@.len(),
            start.len() == focus@.len(),
            j <= focus@.len(),
            forall|q: int| 0 <= q < j && focus@[q] == key ==> (#[trigger] found@[q] matches Some(c) && same_waypoint(c, *w)),
            forall|q: int| 0 <= q < j && focus@[q] != key ==> #[trigger] found@[q] == start[q],
            forall|q: int| j <= q < focus@.len() ==> #[trigger] found@[q] == start[q],
        decreases focus@.len() - j,
    {
        if focus[j] == key {
            found.set(j, Some(copy_waypoint(w)));
        }
        j = j + 1;
    }
}

/// What one line of `waypoint.xml` is: a waypoint (its key, and its
/// description where it is selected), a link (its ends, where a focus is
/// given), or anything else.
pub enum LineOutcome {
    Waypoint(u32, Option<WaypointXmlWaypointSummary>),
    Link(Option<(u32, u32)>),
    Other,
}

/// Whether `o` is what line `raw`, number `number`, is.
pub open spec fn outcome_matches(o: LineOutcome, raw: Seq<char>, number: int, focus: Seq<u32>) -> bool {
    match o {
        LineOutcome::Waypoint(key, rec) => {
            &&& is_waypoint_line(raw)
            &&& !is_link_line(raw)
            &&& link_of(raw) is None
            &&& line_key(raw) == Ok::<u32, AttributeFault>(key)
            &&& (rec is Some <==> selected(focus, key))
            &&& (rec matches Some(w) ==> record_matches(w, trim_spec(raw), number, key))
        },
        LineOutcome::Link(pair) => is_link_line(raw) && !is_waypoint_line(raw) && (focus.len() > 0 ==> pair == link_of(raw)) && (focus.len()
            == 0 ==> pair is None),
        LineOutcome::Other => !is_waypoint_line(raw) && !is_link_line(raw) && link_of(raw) is None,
    }
}

/// Reads one line of `waypoint.xml`.
fn scan_line(raw: &str, number: usize, focus: &[u32]) -> (r: Result<LineOutcome, WaypointXmlError>)
    ensures
        match line_fault(raw@, number as int, focus@) {
            Some(e) => r == Err::<LineOutcome, WaypointXmlError>(e),
            None => r matches Ok(o) && outcome_matches(o, raw@, number as int, focus@),
        },
{
    proof {
        reveal(line_fault);
        reveal(is_waypoint_line);
        reveal(is_link_line);
        reveal(line_key);
        reveal(link_of);
    }
    let line = trim_str(raw);
    if starts_with_str(line, "<Waypoint ") {
        let key = match parse_attr_u32(line, "Key") {
            Ok(v) => v,
            Err(fault) => return Err(WaypointXmlError { line_number: number, attribute: WaypointAttribute::Key, fault }),
        };
        if focus.len() == 0 || contains_id(focus, key) {
            let w = read_waypoint(line, number, key)?;
            Ok(LineOutcome::Waypoint(key, Some(w)))
        } else {
            Ok(LineOutcome::Waypoint(key, None))
        }
    } else if starts_with_str(line, "<Link ") {
        if focus.len() > 0 {
            let source = match parse_attr_u32(line, "SourceWaypoint") {
                Ok(v) => v,
                Err(fault) => return Err(
                    WaypointXmlError { line_number: number, attribute: WaypointAttribute::SourceWaypoint, fault },
                ),
            };
            let target = match parse_attr_u32(line, "TargetWaypoint") {
                Ok(v) => v,
                Err(fault) => return Err(
                    WaypointXmlError { line_number: number, attribute: WaypointAttribute::TargetWaypoint, fault },
                ),
            };
            Ok(LineOutcome::Link(Some((source, target))))
        } else {
            Ok(LineOutcome::Link(None))
        }
    } else {
        Ok(LineOutcome::Other)
    }
}

proof fn lemma_empty_line(focus: Seq<u32>, number: int)
    ensures
        !is_waypoint_line(seq![]),
        !is_link_line(seq![]),
        line_fault(seq![], number, focus) is None,
        link_of(seq![]) is None,
{
    reveal(line_fault);
    reveal(is_waypoint_line);
    reveal(is_link_line);
    reveal(link_of);
    reveal_strlit("<Waypoint ");
    reveal_strlit("<Link ");
    assert(trim_spec(seq![]) =~= seq![]);
}

/// What a scan of the lines of `waypoint.xml` gathers.
pub struct WaypointScan {
    pub waypoint_count: usize,
    pub link_count: usize,
    pub found: Vec<Option<WaypointXmlWaypointSummary>>,
    pub links: Vec<(u32, u32)>,
}

/// Scans the lines of `text` (cut at each line feed, each trimmed):
/// counts the waypoint and link lines, keeps the last description of each
/// focus waypoint and, where a focus is given, every link.
pub fn scan_waypoint_lines(text: &str, focus: &[u32]) -> (r: Result<WaypointScan, WaypointXmlError>)
    ensures
        ({
            let lines = pieces_from(text@, '\n', 0);
            let l = lines.len() as int;
            match lines_fault(lines, focus@, l) {
                Some(e) => r == Err::<WaypointScan, WaypointXmlError>(e),
                None => r matches Ok(sc) && {
                    &&& sc.waypoint_count == waypoint_lines(lines, l)
                    &&& sc.link_count == link_lines(lines, l)
                    &&& sc.found@.len() == focus@.len()
                    &&& forall|k: int| 0 <= k < focus@.len() ==> found_matches(#[trigger] sc.found@[k], lines, focus@, focus@[k])
                    &&& focus@.len() > 0 ==> sc.links@ == link_pairs(lines, l)
                },
            }
        }),
{
    let n = text.unicode_len();
    let ghost all = pieces_from(text@, '\n', 0);
    let mut found: Vec<Option<WaypointXmlWaypointSummary>> = Vec::new();
    while found.len() < focus.len()
        invariant
            found@.len() <= focus@.len(),
            forall|k: int| 0 <= k < found@.len() ==> (#[trigger] found@[k]) is None,
        decreases focus@.len() - found@.len(),
    {
        found.push(None);
    }
    let mut waypoint_count: usize = 0;
    let mut link_count: usize = 0;
    let mut links: Vec<(u32, u32)> = Vec::new();
    let ghost mut done: Seq<Seq<char>> = seq![];
    let mut line_count: usize = 0;
    let mut i: usize = 0;
    loop
        invariant_except_break
            i <= n,
            done + pieces_from(text@, '\n', i as int) == all,
            done.len() <= i,
            line_count == done.len(),
        invariant
            n == text@.len(),
            all == pieces_from(text@, '\n', 0),
            lines_fault(done, focus@, done.len() as int) is None,
            waypoint_count == waypoint_lines(done, done.len() as int),
            waypoint_count <= done.len(),
            link_count == link_lines(done, done.len() as int),
            link_count <= done.len(),
            found@.len() == focus@.len(),
            forall|k: int| 0 <= k < focus@.len() ==> found_matches(#[trigger] found@[k], done, focus@, focus@[k]),
            focus@.len() > 0 ==> links@ == link_pairs(done, done.len() as int),
        ensures
            done == all,
        decreases n + 1 - i,
    {
        let k = find_char_from(text, '\n', i);
        proof {
            lemma_next_char_from(text@, '\n', i as int);
        }
        let piece = text.substring_char(i, k);
        let ghost before = done;
        proof {
            done = done.push(piece@);
            assert(done.drop_last() =~= before);
            assert(done[before.len() as int] == piece@);
            lemma_fault_prefix(before, piece@, focus@, before.len() as int);
            lemma_counts_prefix(before, piece@, before.len() as int);
        }
        let ghost rest = if k < n { pieces_from(text@, '\n', k + 1) } else { seq![] };
        assert(done + rest =~= all);
        let outcome = if k > i {
            match scan_line(piece, line_count + 1, focus) {
                Ok(o) => o,
                Err(e) => {
                    proof {
                        lemma_fault_extends(done, rest, focus@);
                    }
                    return Err(e);
                },
            }
        } else {
            proof {
                assert(piece@ =~= seq![]);
                lemma_empty_line(focus@, before.len() as int + 1);
            }
            LineOutcome::Other
        };
        let ghost old_found = found@;
        match outcome {
            LineOutcome::Waypoint(key, rec) => {
                if let Some(w) = rec {
                    update_found(&mut found, focus, key, &w);
                }
                waypoint_count = waypoint_count + 1;
            },
            LineOutcome::Link(pair) => {
                if let Some(p) = pair {
                    links.push(p);
                }
                link_count = link_count + 1;
            },
            LineOutcome::Other => {},
        }
        proof {
            assert forall|q: int| 0 <= q < focus@.len() implies found_matches(#[trigger] found@[q], done, focus@, focus@[q]) by {
                let key_q = focus@[q];
                assert(found_matches(old_found[q], before, focus@, key_q));
                lemma_record_prefix(before, piece@, focus@, key_q, before.len() as int);
                match last_record(before, focus@, key_q, before.len() as int) {
                    Some(j) => {
                        assert(done[j] == before[j]);
                    },
                    None => {},
                }
                reveal(record_matches);
            }
        }
        if k >= n {
            assert(done =~= before + pieces_from(text@, '\n', i as int));
            break;
        }
        assert(before + pieces_from(text@, '\n', i as int) =~= done + pieces_from(text@, '\n', k + 1));
        line_count = line_count + 1;
        i = k + 1;
    }
    Ok(WaypointScan { waypoint_count, link_count, found, links })
}


/// Whether `s` rises strictly.
pub open spec fn strictly_increasing(s: Seq<u32>) -> bool {
    forall|i: int, j: int| 0 <= i < j < s.len() ==> s[i] < s[j]
}

/// Adds `x` to the rising list `v`, where it is not there yet.
pub(crate) fn insert_sorted(v: &mut Vec<u32>, x: u32)
    requires
        strictly_increasing(old(v)@),
    ensures
        strictly_increasing(final(v)@),
        forall|y: u32| final(v)@.contains(y) <==> (old(v)@.contains(y) || y == x),
{
    let mut p: usize = 0;
    while p < v.len() && v[p] < x
        invariant
            p <= v@.len(),
            forall|i: int| 0 <= i < p ==> v@[i] < x,
        decreases v@.len() - p,
    {
        p = p + 1;
    }
    if p < v.len() && v[p] == x {
        assert(v@.contains(x)) by {
            assert(v@[p as int] == x);
        }
        return;
    }
    let ghost before = v@;
    assert(before == old(v)@);
    v.insert(p, x);
    assert(v@ =~= before.insert(p as int, x));
    assert forall|y: u32| #[trigger] v@.contains(y) <==> (before.contains(y) || y == x) by {
        if v@.contains(y) {
            let i = choose|i: int| 0 <= i < v@.len() && v@[i] == y;
            if i < p {
                assert(before[i] == y);
            } else if i > p {
                assert(before[i - 1] == y);
            }
        }
        if before.contains(y) {
            let i = choose|i: int| 0 <= i < before.len() && before[i] == y;
            if i < p {
                assert(v@[i] == y);
            } else {
                assert(v@[i + 1] == y);
            }
        }
        if y == x {
            assert(v@[p as int] == y);
        }
    }
    assert forall|i: int, j: int| 0 <= i < j < v@.len() implies v@[i] < v@[j] by {
        if j < p {
            assert(v@[i] == before[i] && v@[j] == before[j]);
        } else if j == p {
            assert(v@[i] == before[i]);
        } else if i < p {
            assert(v@[i] == before[i] && v@[j] == before[j - 1]);
            assert(before[j - 1] >= x) by {
                if j - 1 >= p && p < before.len() {
                    assert(before[p as int] > x);
                    if j - 1 > p {
                        assert(before[p as int] < before[j - 1]);
                    }
                }
            }
        } else if i == p {
            assert(v@[j] == before[j - 1]);
            assert(before[p as int] > x);
            if j - 1 > p {
                assert(before[p as int] < before[j - 1]);
            }
        } else {
            assert(v@[i] == before[i - 1] && v@[j] == before[j - 1]);
        }
    }
    assert(forall|y: u32| #[trigger] v@.contains(y) <==> (old(v)@.contains(y) || y == x));
}

/// The other ends of the links of `links` that leave `id` (`outgoing`) or
/// reach it, each once, rising.
fn link_ends(links: &Vec<(u32, u32)>, id: u32, outgoing: bool) -> (r: Vec<u32>)
    ensures
        strictly_increasing(r@),
        forall|x: u32|
            r@.contains(x) <==> (if outgoing {
                links@.contains((id, x))
            } else {
                links@.contains((x, id))
            }),
{
    let mut ends: Vec<u32> = Vec::new();
    let mut k: usize = 0;
    while k < links.len()
        invariant
            k <= links@.len(),
            strictly_increasing(ends@),
            forall|x: u32|
                ends@.contains(x) <==> (if outgoing {
                    links@.subrange(0, k as int).contains((id, x))
                } else {
                    links@.subrange(0, k as int).contains((x, id))
                }),
        decreases links@.len() - k,
    {
        let (a, b) = links[k];
        let ghost prefix = links@.subrange(0, k as int);
        let ghost next = links@.subrange(0, k + 1);
        assert(next =~= prefix.push((a, b)));
        assert forall|p: (u32, u32)| next.contains(p) <==> (prefix.contains(p) || p == (a, b)) by {
            if next.contains(p) {
                let i = choose|i: int| 0 <= i < next.len() && next[i] == p;
                if i < k {
                    assert(prefix[i] == p);
                }
            }
            if prefix.contains(p) {
                let i = choose|i: int| 0 <= i < prefix.len() && prefix[i] == p;
                assert(next[i] == p);
            }
            if p == (a, b) {
                assert(next[k as int] == p);
            }
        }
        if outgoing && a == id {
            insert_sorted(&mut ends, b);
        } else if !outgoing && b == id {
            insert_sorted(&mut ends, a);
        }
        k = k + 1;
    }
    assert(links@.subrange(0, links@.len() as int) =~= links@);
    ends
}

/// One focus waypoint as an inspection reports it: its description and the
/// waypoints its links lead to and come from.
#[derive(Clone, Debug)]
pub struct WaypointXmlFocusWaypointReport {
    pub waypoint: WaypointXmlWaypointSummary,
    pub outgoing_links: Vec<u32>,
    pub incoming_links: Vec<u32>,
}

/// What an inspection of `waypoint.xml` counts.
#[derive(Clone, Debug)]
pub struct WaypointXmlInspectSummary {
    pub output_path: Option<String>,
    pub waypoint_count: usize,
    pub link_count: usize,
    pub focus_waypoint_count: usize,
    pub missing_focus_waypoint_count: usize,
}

/// Everything an inspection of `waypoint.xml` finds.
#[derive(Clone, Debug)]
pub struct WaypointXmlInspection {
    pub summary: WaypointXmlInspectSummary,
    pub file_size: usize,
    pub focus_waypoints: Vec<WaypointXmlFocusWaypointReport>,
    pub missing_focus_waypoint_ids: Vec<u32>,
}

/// The lines of the file `bytes`, its text read as UTF-8 with invalid
/// bytes replaced, cut at each line feed.
pub open spec fn xml_lines(bytes: Seq<u8>) -> Seq<Seq<char>> {
    pieces_from(lossy_utf8(bytes), '\n', 0)
}

/// Whether waypoint `id` is described among `lines`.
pub open spec fn is_described(lines: Seq<Seq<char>>, focus: Seq<u32>) -> spec_fn(u32) -> bool {
    |id: u32| last_record(lines, focus, id, lines.len() as int) is Some
}

/// Whether waypoint `id` is not described among `lines`.
pub open spec fn is_undescribed(lines: Seq<Seq<char>>, focus: Seq<u32>) -> spec_fn(u32) -> bool {
    |id: u32| last_record(lines, focus, id, lines.len() as int) is None
}

/// Whether `r` reports the focus waypoint `id` of `lines`.
pub open spec fn report_matches(r: WaypointXmlFocusWaypointReport, lines: Seq<Seq<char>>, focus: Seq<u32>, id: u32) -> bool {
    let l = lines.len() as int;
    let links = link_pairs(lines, l);
    &&& found_matches(Some(r.waypoint), lines, focus, id)
    &&& last_record(lines, focus, id, l) is Some
    &&& strictly_increasing(r.outgoing_links@)
    &&& forall|x: u32| r.outgoing_links@.contains(x) <==> links.contains((id, x))
    &&& strictly_increasing(r.incoming_links@)
    &&& forall|x: u32| r.incoming_links@.contains(x) <==> links.contains((x, id))
}

proof fn lemma_filter_push_u32(s: Seq<u32>, x: u32, pred: spec_fn(u32) -> bool)
    ensures
        s.push(x).filter(pred) == (if pred(x) { s.filter(pred).push(x) } else { s.filter(pred) }),
{
    reveal(Seq::filter);
    assert(s.push(x).drop_last() =~= s);
}

/// Inspects `waypoint.xml`: counts its waypoint and link lines and, for
/// each focus id, reports the last description of that waypoint and the
/// waypoints its links lead to and come from; focus ids with no
/// description are listed apart. The first line that does not read is the
/// error.
pub fn inspect_waypoint_xml(bytes: &[u8], focus_waypoint_ids: &[u32], output_path: Option<&str>) -> (r: Result<
    WaypointXmlInspection,
    WaypointXmlError,
>)
    ensures
        ({
            let lines = xml_lines(bytes@);
            let l = lines.len() as int;
            let focus = focus_waypoint_ids@;
            let described = focus.filter(is_described(lines, focus));
            let missing = focus.filter(is_undescribed(lines, focus));
            match lines_fault(lines, focus, l) {
                Some(e) => r == Err::<WaypointXmlInspection, WaypointXmlError>(e),
                None => r matches Ok(ins) && {
                    &&& ins.file_size == bytes@.len()
                    &&& ins.summary.waypoint_count == waypoint_lines(lines, l)
                    &&& ins.summary.link_count == link_lines(lines, l)
                    &&& ins.focus_waypoints@.len() == described.len()
                    &&& forall|k: int|
                        0 <= k < described.len() ==> report_matches(#[trigger] ins.focus_waypoints@[k], lines, focus, described[k])
                    &&& ins.missing_focus_waypoint_ids@ == missing
                    &&& ins.summary.focus_waypoint_count == focus.len() - missing.len()
                    &&& ins.summary.missing_focus_waypoint_count == missing.len()
                    &&& opt_text(ins.summary.output_path) == (match output_path {
                        Some(p) => Some(p@),
                        None => None,
                    })
                },
            }
        }),
{
    let contents = utf8_lossy(bytes);
    let scan = scan_waypoint_lines(contents.as_str(), focus_waypoint_ids)?;
    let ghost lines = xml_lines(bytes@);
    let ghost focus = focus_waypoint_ids@;
    let mut reports: Vec<WaypointXmlFocusWaypointReport> = Vec::new();
    let mut missing: Vec<u32> = Vec::new();
    let mut k: usize = 0;
    while k < focus_waypoint_ids.len()
        invariant
            lines == xml_lines(bytes@),
            focus == focus_waypoint_ids@,
            scan.found@.len() == focus.len(),
            forall|q: int| 0 <= q < focus.len() ==> found_matches(#[trigger] scan.found@[q], lines, focus, focus[q]),
            focus.len() > 0 ==> scan.links@ == link_pairs(lines, lines.len() as int),
            k <= focus.len(),
            reports@.len() == focus.subrange(0, k as int).filter(is_described(lines, focus)).len(),
            forall|j: int|
                0 <= j < reports@.len() ==> report_matches(
                    #[trigger] reports@[j],
                    lines,
                    focus,
                    focus.subrange(0, k as int).filter(is_described(lines, focus))[j],
                ),
            missing@ == focus.subrange(0, k as int).filter(is_undescribed(lines, focus)),
        decreases focus.len() - k,
    {
        let id = focus_waypoint_ids[k];
        let ghost prefix = focus.subrange(0, k as int);
        assert(focus.subrange(0, k + 1) =~= prefix.push(id));
        proof {
            lemma_filter_push_u32(prefix, id, is_described(lines, focus));
            lemma_filter_push_u32(prefix, id, is_undescribed(lines, focus));
        }
        assert(found_matches(scan.found@[k as int], lines, focus, id));
        match &scan.found[k] {
            Some(w) => {
                let outgoing_links = link_ends(&scan.links, id, true);
                let incoming_links = link_ends(&scan.links, id, false);
                let waypoint = copy_waypoint(w);
                proof {
                    reveal(record_matches);
                }
                let report = WaypointXmlFocusWaypointReport { waypoint, outgoing_links, incoming_links };
                let ghost old_reports = reports@;
                reports.push(report);
                assert forall|j: int| 0 <= j < reports@.len() implies report_matches(
                    #[trigger] reports@[j],
                    lines,
                    focus,
                    focus.subrange(0, k + 1).filter(is_described(lines, focus))[j],
                ) by {
                    if j < old_reports.len() {
                        assert(reports@[j] == old_reports[j]);
                    }
                }
            },
            None => {
                missing.push(id);
            },
        }
        k = k + 1;
    }
    assert(focus.subrange(0, focus.len() as int) =~= focus);
    proof {
        focus.filter_lemma(is_undescribed(lines, focus));
    }
    let missing_count = missing.len();
    let summary = WaypointXmlInspectSummary {
        output_path: match output_path {
            Some(p) => Some(p.to_owned()),
            None => None,
        },
        waypoint_count: scan.waypoint_count,
        link_count: scan.link_count,
        focus_waypoint_count: focus_waypoint_ids.len() - missing_count,
        missing_focus_waypoint_count: missing_count,
    };
    Ok(WaypointXmlInspection { summary, file_size: bytes.len(), focus_waypoints: reports, missing_focus_waypoint_ids: missing })
}

} // verus!
