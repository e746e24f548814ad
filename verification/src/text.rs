//! Small text helpers: decimal and hexadecimal digits, ASCII case,
//! white space and searching for characters.
use vstd::prelude::*;
use vstd::string::StrSliceExecFns;

verus! {

/// The character of decimal digit `d`.
pub open spec fn digit_char(d: int) -> char {
    if d == 0 {
        '0'
    } else if d == 1 {
        '1'
    } else if d == 2 {
        '2'
    } else if d == 3 {
        '3'
    } else if d == 4 {
        '4'
    } else if d == 5 {
        '5'
    } else if d == 6 {
        '6'
    } else if d == 7 {
        '7'
    } else if d == 8 {
        '8'
    } else {
        '9'
    }
}

/// The decimal digits of `n`, without leading zeros, at least `width` of
/// them (padded with `0` on the left).
pub open spec fn decimal_padded(n: nat, width: nat) -> Seq<char>
    decreases n, width,
{
    if n < 10 && width <= 1 {
        seq![digit_char(n as int)]
    } else {
        decimal_padded(n / 10, if width > 0 { (width - 1) as nat } else { 0 }).push(
            digit_char((n % 10) as int),
        )
    }
}

/// The decimal digits of `n`, without leading zeros.
pub open spec fn decimal(n: nat) -> Seq<char> {
    decimal_padded(n, 1)
}

/// The one-character string of decimal digit `d`.
fn digit_str(d: u32) -> (r: &'static str)
    requires
        d < 10,
    ensures
        r@ == seq![digit_char(d as int)],
{
    proof {
        reveal_strlit("0");
        reveal_strlit("1");
        reveal_strlit("2");
        reveal_strlit("3");
        reveal_strlit("4");
        reveal_strlit("5");
        reveal_strlit("6");
        reveal_strlit("7");
        reveal_strlit("8");
        reveal_strlit("9");
    }
    if d == 0 {
        "0"
    } else if d == 1 {
        "1"
    } else if d == 2 {
        "2"
    } else if d == 3 {
        "3"
    } else if d == 4 {
        "4"
    } else if d == 5 {
        "5"
    } else if d == 6 {
        "6"
    } else if d == 7 {
        "7"
    } else if d == 8 {
        "8"
    } else {
        "9"
    }
}

/// Appends the decimal digits of `n`, padded with zeros to `width`.
pub fn push_decimal_padded(out: &mut String, n: u32, width: u32)
    ensures
        final(out)@ == old(out)@ + decimal_padded(n as nat, width as nat),
    decreases n, width,
{
    if n < 10 && width <= 1 {
        out.append(digit_str(n));
    } else {
        push_decimal_padded(out, n / 10, if width > 0 { width - 1 } else { 0 });
        out.append(digit_str(n % 10));
    }
}

/// Appends the decimal digits of `n`.
pub fn push_decimal_u64(out: &mut String, n: u64)
    ensures
        final(out)@ == old(out)@ + decimal(n as nat),
    decreases n,
{
    if n < 10 {
        out.append(digit_str(n as u32));
    } else {
        push_decimal_u64(out, n / 10);
        out.append(digit_str((n % 10) as u32));
        assert(decimal_padded((n / 10) as nat, 0) == decimal_padded((n / 10) as nat, 1));
    }
}

/// The decimal digits of `n`.
pub fn decimal_string(n: u32) -> (r: String)
    ensures
        r@ == decimal(n as nat),
{
    let mut s = String::new();
    push_decimal_padded(&mut s, n, 1);
    s
}

/// ASCII lower-casing of one byte.
pub open spec fn lower_byte(c: u8) -> u8 {
    if 65 <= c <= 90 {
        (c + 32) as u8
    } else {
        c
    }
}

/// ASCII lower-casing of one byte.
pub fn ascii_lower_byte(c: u8) -> (r: u8)
    ensures
        r == lower_byte(c),
{
    if 65 <= c && c <= 90 {
        c + 32
    } else {
        c
    }
}

/// The decimal value of a run of ASCII digits.
pub open spec fn digits_value(s: Seq<u8>) -> nat
    decreases s.len(),
{
    if s.len() == 0 {
        0
    } else {
        digits_value(s.drop_last()) * 10 + (s.last() - 48) as nat
    }
}

/// Whether every byte is an ASCII digit.
pub open spec fn all_digits(s: Seq<u8>) -> bool {
    forall|i: int| 0 <= i < s.len() ==> 48 <= #[trigger] s[i] <= 57
}

/// The value that `str::parse::<u32>` gives for the bytes `s`: an optional
/// `+`, then one or more ASCII digits whose value fits in 32 bits.
pub open spec fn parse_u32_spec(s: Seq<u8>) -> Option<u32> {
    let digits = if s.len() > 0 && s[0] == 43 { s.drop_first() } else { s };
    if digits.len() == 0 || !all_digits(digits) || digits_value(digits) > u32::MAX {
        None
    } else {
        Some(digits_value(digits) as u32)
    }
}

/// Parses an unsigned decimal number as `str::parse::<u32>` does.
pub fn parse_u32_bytes(s: &[u8]) -> (r: Option<u32>)
    ensures
        r == parse_u32_spec(s@),
{
    let mut i: usize = 0;
    if s.len() > 0 && s[0] == 43u8 {
        i = 1;
    }
    let ghost digits = s@.subrange(i as int, s@.len() as int);
    assert(digits =~= (if s@.len() > 0 && s@[0] == 43 { s@.drop_first() } else { s@ }));
    if i >= s.len() {
        return None;
    }
    let start = i;
    let mut value: u64 = 0;
    while i < s.len()
        invariant
            start <= i <= s@.len(),
            digits == s@.subrange(start as int, s@.len() as int),
            digits =~= (if s@.len() > 0 && s@[0] == 43 { s@.drop_first() } else { s@ }),
            all_digits(s@.subrange(start as int, i as int)),
            value == digits_value(s@.subrange(start as int, i as int)),
            value <= u32::MAX,
        decreases s@.len() - i,
    {
        let c = s[i];
        if c < 48u8 || c > 57u8 {
            assert(!all_digits(digits)) by {
                assert(digits[i - start] == c);
            }
            return None;
        }
        let next = value * 10 + (c - 48u8) as u64;
        assert(s@.subrange(start as int, i + 1).drop_last() =~= s@.subrange(start as int, i as int));
        if next > 0xffff_ffffu64 {
            proof {
                let k = (i + 1 - start) as nat;
                assert(digits.subrange(0, k as int) =~= s@.subrange(start as int, i + 1));
                assert(all_digits(s@.subrange(start as int, i + 1)));
                lemma_digits_value_prefix_monotone(digits, k);
            }
            return None;
        }
        value = next;
        i = i + 1;
    }
    assert(s@.subrange(start as int, i as int) =~= digits);
    Some(value as u32)
}

proof fn lemma_digits_value_prefix_monotone(s: Seq<u8>, k: nat)
    requires
        k <= s.len(),
        all_digits(s.subrange(0, k as int)) ,
    ensures
        all_digits(s) ==> digits_value(s.subrange(0, k as int)) <= digits_value(s),
    decreases s.len() - k,
{
    if k < s.len() && all_digits(s) {
        lemma_digits_value_prefix_monotone(s, k + 1);
        assert(s.subrange(0, (k + 1) as int).drop_last() =~= s.subrange(0, k as int));
    }
    if k == s.len() {
        assert(s.subrange(0, k as int) =~= s);
    }
}

/// The index of the first `c` in `s`, if any.
pub open spec fn first_char(s: Seq<char>, c: char) -> Option<int> {
    if exists|i: int| 0 <= i < s.len() && s[i] == c {
        Some(choose|i: int| 0 <= i < s.len() && s[i] == c && forall|j: int| 0 <= j < i ==> s[j] != c)
    } else {
        None
    }
}

/// Finds the first `c` in `s`.
pub fn find_char(s: &str, c: char) -> (r: Option<usize>)
    ensures
        r matches Some(i) ==> i < s@.len() && s@[i as int] == c && forall|j: int| 0 <= j < i ==> s@[j] != c,
        r is None ==> forall|j: int| 0 <= j < s@.len() ==> s@[j] != c,
{
    let n = s.unicode_len();
    let mut i: usize = 0;
    while i < n
        invariant
            n == s@.len(),
            i <= n,
            forall|j: int| 0 <= j < i ==> s@[j] != c,
        decreases n - i,
    {
        if s.get_char(i) == c {
            return Some(i);
        }
        i = i + 1;
    }
    None
}

pub proof fn lemma_first_char(s: Seq<char>, c: char, i: int)
    requires
        0 <= i < s.len(),
        s[i] == c,
        forall|j: int| 0 <= j < i ==> s[j] != c,
    ensures
        first_char(s, c) == Some(i),
{
    let k = choose|k: int| 0 <= k < s.len() && s[k] == c && forall|j: int| 0 <= j < k ==> s[j] != c;
    assert(k == i) by {
        if k < i {
            assert(s[k] != c);
        }
        if i < k {
            assert(s[i] != c);
        }
    }
}

/// Whether `s` holds `part` from `at` on.
pub fn chars_at(s: &str, at: usize, part: &str) -> (r: bool)
    requires
        at + part@.len() <= s@.len(),
    ensures
        r == (s@.subrange(at as int, at + part@.len()) == part@),
{
    let n = part.unicode_len();
    let m = s.unicode_len();
    let mut i: usize = 0;
    while i < n
        invariant
            n == part@.len(),
            m == s@.len(),
            at + n <= s@.len(),
            i <= n,
            forall|j: int| 0 <= j < i ==> s@[at + j] == part@[j],
        decreases n - i,
    {
        if s.get_char(at + i) != part.get_char(i) {
            assert(s@.subrange(at as int, at + part@.len())[i as int] != part@[i as int]);
            return false;
        }
        i = i + 1;
    }
    assert(s@.subrange(at as int, at + part@.len()) =~= part@);
    true
}


/// The character of hexadecimal digit `d`, in upper case.
pub open spec fn hex_digit_char(d: int) -> char {
    if d < 10 {
        digit_char(d)
    } else if d == 10 {
        'A'
    } else if d == 11 {
        'B'
    } else if d == 12 {
        'C'
    } else if d == 13 {
        'D'
    } else if d == 14 {
        'E'
    } else {
        'F'
    }
}

/// The upper-case hexadecimal digits of `n`, at least `width` of them
/// (padded with `0` on the left).
pub open spec fn hex_upper_padded(n: nat, width: nat) -> Seq<char>
    decreases n, width,
{
    if n < 16 && width <= 1 {
        seq![hex_digit_char(n as int)]
    } else {
        hex_upper_padded(n / 16, if width > 0 { (width - 1) as nat } else { 0 }).push(
            hex_digit_char((n % 16) as int),
        )
    }
}

/// The one-character string of hexadecimal digit `d`.
fn hex_digit_str(d: u32) -> (r: &'static str)
    requires
        d < 16,
    ensures
        r@ == seq![hex_digit_char(d as int)],
{
    proof {
        reveal_strlit("A");
        reveal_strlit("B");
        reveal_strlit("C");
        reveal_strlit("D");
        reveal_strlit("E");
        reveal_strlit("F");
    }
    if d < 10 {
        digit_str(d)
    } else if d == 10 {
        "A"
    } else if d == 11 {
        "B"
    } else if d == 12 {
        "C"
    } else if d == 13 {
        "D"
    } else if d == 14 {
        "E"
    } else {
        "F"
    }
}

/// Appends the upper-case hexadecimal digits of `n`, padded with zeros to
/// `width`.
pub fn push_hex_upper_padded(out: &mut String, n: u32, width: u32)
    ensures
        final(out)@ == old(out)@ + hex_upper_padded(n as nat, width as nat),
    decreases n, width,
{
    if n < 16 && width <= 1 {
        out.append(hex_digit_str(n));
    } else {
        push_hex_upper_padded(out, n / 16, if width > 0 { width - 1 } else { 0 });
        out.append(hex_digit_str(n % 16));
    }
}

/// Whether `c` has the Unicode property `White_Space`, the white space that
/// `str::trim` removes.
pub open spec fn is_white_space(c: char) -> bool {
    let u = c as u32;
    (9 <= u <= 13) || u == 32 || u == 0x85 || u == 0xa0 || u == 0x1680 || (0x2000 <= u <= 0x200a)
        || u == 0x2028 || u == 0x2029 || u == 0x202f || u == 0x205f || u == 0x3000
}

/// Whether `c` is white space.
pub fn white_space(c: char) -> (r: bool)
    ensures
        r == is_white_space(c),
{
    let u = c as u32;
    (9 <= u && u <= 13) || u == 32 || u == 0x85 || u == 0xa0 || u == 0x1680 || (0x2000 <= u
        && u <= 0x200a) || u == 0x2028 || u == 0x2029 || u == 0x202f || u == 0x205f || u == 0x3000
}

/// The index of the first character at or after `i` that is not white space.
pub open spec fn skip_space(s: Seq<char>, i: int) -> int
    decreases s.len() - i,
{
    if 0 <= i < s.len() && is_white_space(s[i]) {
        skip_space(s, i + 1)
    } else {
        i
    }
}

/// The end of `s[lo..j]` once the white space at its end is dropped.
pub open spec fn back_space(s: Seq<char>, lo: int, j: int) -> int
    decreases j - lo,
{
    if lo < j && is_white_space(s[j - 1]) {
        back_space(s, lo, j - 1)
    } else {
        j
    }
}

/// What `str::trim` leaves of `s`: `s` without the white space at its start
/// and at its end.
pub open spec fn trim_spec(s: Seq<char>) -> Seq<char> {
    let a = skip_space(s, 0);
    s.subrange(a, back_space(s, a, s.len() as int))
}

/// `s` without the white space at its start and at its end.
pub fn trim_str<'a>(s: &'a str) -> (r: &'a str)
    ensures
        r@ == trim_spec(s@),
{
    let n = s.unicode_len();
    let mut a: usize = 0;
    while a < n && white_space(s.get_char(a))
        invariant
            n == s@.len(),
            a <= n,
            skip_space(s@, a as int) == skip_space(s@, 0),
        decreases n - a,
    {
        a = a + 1;
    }
    let mut b: usize = n;
    while a < b && white_space(s.get_char(b - 1))
        invariant
            n == s@.len(),
            a <= b <= n,
            back_space(s@, a as int, b as int) == back_space(s@, a as int, n as int),
        decreases b - a,
    {
        b = b - 1;
    }
    s.substring_char(a, b)
}

/// The index of the first `c` at or after `i` in `s`, or the length of `s`
/// where there is none.
pub open spec fn next_char_from(s: Seq<char>, c: char, i: int) -> int
    decreases s.len() - i,
{
    if 0 <= i < s.len() && s[i] != c {
        next_char_from(s, c, i + 1)
    } else {
        i
    }
}

pub proof fn lemma_next_char_from(s: Seq<char>, c: char, i: int)
    requires
        0 <= i <= s.len(),
    ensures
        i <= next_char_from(s, c, i) <= s.len(),
        next_char_from(s, c, i) < s.len() ==> s[next_char_from(s, c, i)] == c,
        forall|j: int| i <= j < next_char_from(s, c, i) ==> s[j] != c,
    decreases s.len() - i,
{
    if i < s.len() && s[i] != c {
        lemma_next_char_from(s, c, i + 1);
    }
}

/// Finds the first `c` at or after `i` in `s`; the length of `s` where there
/// is none.
pub fn find_char_from(s: &str, c: char, i: usize) -> (r: usize)
    requires
        i <= s@.len(),
    ensures
        r == next_char_from(s@, c, i as int),
{
    let n = s.unicode_len();
    let mut k: usize = i;
    while k < n && s.get_char(k) != c
        invariant
            n == s@.len(),
            i <= k <= n,
            next_char_from(s@, c, k as int) == next_char_from(s@, c, i as int),
        decreases n - k,
    {
        k = k + 1;
    }
    k
}

/// Whether `s` begins with `t`.
pub open spec fn has_prefix(s: Seq<char>, t: Seq<char>) -> bool {
    t.len() <= s.len() && s.subrange(0, t.len() as int) == t
}

/// Whether `s` ends with `t`.
pub open spec fn has_suffix(s: Seq<char>, t: Seq<char>) -> bool {
    t.len() <= s.len() && s.subrange(s.len() - t.len(), s.len() as int) == t
}

/// Whether `s` begins with `t`.
pub fn starts_with_str(s: &str, t: &str) -> (r: bool)
    ensures
        r == has_prefix(s@, t@),
{
    t.unicode_len() <= s.unicode_len() && chars_at(s, 0, t)
}

/// Whether `s` ends with `t`.
pub fn ends_with_str(s: &str, t: &str) -> (r: bool)
    ensures
        r == has_suffix(s@, t@),
{
    let n = s.unicode_len();
    let m = t.unicode_len();
    m <= n && chars_at(s, n - m, t)
}

/// The bytes of the ASCII characters of `s`; any other character stands as
/// the byte 0, which no number holds.
pub open spec fn ascii_bytes(s: Seq<char>) -> Seq<u8> {
    s.map_values(|c: char| if (c as u32) < 128 { (c as u32) as u8 } else { 0u8 })
}

/// Parses an unsigned decimal number as `str::parse::<u32>` does: an
/// optional `+`, then one or more ASCII digits whose value fits in 32 bits.
pub fn parse_u32_str(s: &str) -> (r: Option<u32>)
    ensures
        r == parse_u32_spec(ascii_bytes(s@)),
{
    let n = s.unicode_len();
    let mut bytes: Vec<u8> = Vec::new();
    let mut i: usize = 0;
    while i < n
        invariant
            n == s@.len(),
            i <= n,
            bytes@ == ascii_bytes(s@).subrange(0, i as int),
        decreases n - i,
    {
        let u = s.get_char(i) as u32;
        let b: u8 = if u < 128 { u as u8 } else { 0 };
        bytes.push(b);
        assert(bytes@ =~= ascii_bytes(s@).subrange(0, i + 1));
        i = i + 1;
    }
    assert(bytes@ =~= ascii_bytes(s@));
    parse_u32_bytes(bytes.as_slice())
}


/// The character of hexadecimal digit `d`, in lower case.
pub open spec fn hex_lower_digit_char(d: int) -> char {
    if d < 10 {
        digit_char(d)
    } else if d == 10 {
        'a'
    } else if d == 11 {
        'b'
    } else if d == 12 {
        'c'
    } else if d == 13 {
        'd'
    } else if d == 14 {
        'e'
    } else {
        'f'
    }
}

/// The lower-case hexadecimal digits of `n`, at least `width` of them
/// (padded with `0` on the left).
pub open spec fn hex_lower_padded(n: nat, width: nat) -> Seq<char>
    decreases n, width,
{
    if n < 16 && width <= 1 {
        seq![hex_lower_digit_char(n as int)]
    } else {
        hex_lower_padded(n / 16, if width > 0 { (width - 1) as nat } else { 0 }).push(
            hex_lower_digit_char((n % 16) as int),
        )
    }
}

/// The one-character string of hexadecimal digit `d`, in lower case.
fn hex_lower_digit_str(d: u32) -> (r: &'static str)
    requires
        d < 16,
    ensures
        r@ == seq![hex_lower_digit_char(d as int)],
{
    proof {
        reveal_strlit("a");
        reveal_strlit("b");
        reveal_strlit("c");
        reveal_strlit("d");
        reveal_strlit("e");
        reveal_strlit("f");
    }
    if d < 10 {
        digit_str(d)
    } else if d == 10 {
        "a"
    } else if d == 11 {
        "b"
    } else if d == 12 {
        "c"
    } else if d == 13 {
        "d"
    } else if d == 14 {
        "e"
    } else {
        "f"
    }
}

/// Appends the lower-case hexadecimal digits of `n`, padded with zeros to
/// `width`.
pub fn push_hex_lower_padded(out: &mut String, n: u32, width: u32)
    ensures
        final(out)@ == old(out)@ + hex_lower_padded(n as nat, width as nat),
    decreases n, width,
{
    if n < 16 && width <= 1 {
        out.append(hex_lower_digit_str(n));
    } else {
        push_hex_lower_padded(out, n / 16, if width > 0 { width - 1 } else { 0 });
        out.append(hex_lower_digit_str(n % 16));
    }
}


/// Whether `a` comes before `b` in the order of `str`'s `Ord`: character by
/// character by code point, a proper prefix first (UTF-8 keeps code-point
/// order, so this is the byte order that `String` compares by).
pub open spec fn text_lt(a: Seq<char>, b: Seq<char>) -> bool
    decreases a.len(),
{
    if a.len() == 0 {
        b.len() > 0
    } else if b.len() == 0 {
        false
    } else if a[0] != b[0] {
        (a[0] as int) < (b[0] as int)
    } else {
        text_lt(a.drop_first(), b.drop_first())
    }
}

/// The order of texts is strict: no text comes before itself, and of two
/// texts at most one comes first.
pub proof fn lemma_text_lt_strict(a: Seq<char>, b: Seq<char>)
    ensures
        !text_lt(a, a),
        text_lt(a, b) ==> !text_lt(b, a),
    decreases a.len(),
{
    if a.len() > 0 {
        lemma_text_lt_strict(a.drop_first(), if b.len() > 0 { b.drop_first() } else { b });
    }
}

/// Of two different texts, one comes first.
pub proof fn lemma_text_lt_total(a: Seq<char>, b: Seq<char>)
    ensures
        a != b ==> text_lt(a, b) || text_lt(b, a),
    decreases a.len(),
{
    if a.len() > 0 && b.len() > 0 && a[0] != b[0] {
        assert((a[0] as int) != (b[0] as int));
    }
    if a.len() > 0 && b.len() > 0 && a[0] == b[0] {
        lemma_text_lt_total(a.drop_first(), b.drop_first());
        if a.drop_first() == b.drop_first() {
            assert(a =~= seq![a[0]] + a.drop_first());
            assert(b =~= seq![b[0]] + b.drop_first());
        }
    }
    if a.len() == 0 && b.len() == 0 {
        assert(a =~= b);
    }
}

/// The order of texts is transitive.
pub proof fn lemma_text_lt_transitive(a: Seq<char>, b: Seq<char>, c: Seq<char>)
    requires
        text_lt(a, b),
        text_lt(b, c),
    ensures
        text_lt(a, c),
    decreases a.len(),
{
    if a.len() > 0 && b.len() > 0 && c.len() > 0 && a[0] == b[0] && b[0] == c[0] {
        lemma_text_lt_transitive(a.drop_first(), b.drop_first(), c.drop_first());
    }
}

/// Texts that share their first `i` characters compare as what follows.
proof fn lemma_text_lt_skip(a: Seq<char>, b: Seq<char>, i: int)
    requires
        0 <= i <= a.len(),
        i <= b.len(),
        a.subrange(0, i) == b.subrange(0, i),
    ensures
        text_lt(a, b) == text_lt(a.skip(i), b.skip(i)),
    decreases i,
{
    if i > 0 {
        assert(a[0] == a.subrange(0, i)[0]);
        assert(b[0] == b.subrange(0, i)[0]);
        assert(a.drop_first().subrange(0, i - 1) =~= a.subrange(0, i).drop_first());
        assert(b.drop_first().subrange(0, i - 1) =~= b.subrange(0, i).drop_first());
        lemma_text_lt_skip(a.drop_first(), b.drop_first(), i - 1);
        assert(a.drop_first().skip(i - 1) =~= a.skip(i));
        assert(b.drop_first().skip(i - 1) =~= b.skip(i));
    } else {
        assert(a.skip(0) =~= a);
        assert(b.skip(0) =~= b);
    }
}

/// Whether `a` comes before `b`, as `<` on `str` orders them.
pub fn str_lt(a: &str, b: &str) -> (r: bool)
    ensures
        r == text_lt(a@, b@),
{
    let n = a.unicode_len();
    let m = b.unicode_len();
    let mut i: usize = 0;
    while i < n && i < m
        invariant
            n == a@.len(),
            m == b@.len(),
            i <= n,
            i <= m,
            a@.subrange(0, i as int) == b@.subrange(0, i as int),
        decreases n - i,
    {
        let ca = a.get_char(i);
        let cb = b.get_char(i);
        if ca != cb {
            proof {
                lemma_text_lt_skip(a@, b@, i as int);
                assert(a@.skip(i as int)[0] == ca);
                assert(b@.skip(i as int)[0] == cb);
            }
            return (ca as u32) < (cb as u32);
        }
        assert(a@.subrange(0, i + 1) =~= a@.subrange(0, i as int).push(ca));
        assert(b@.subrange(0, i + 1) =~= b@.subrange(0, i as int).push(cb));
        i = i + 1;
    }
    proof {
        lemma_text_lt_skip(a@, b@, i as int);
    }
    i < m && i == n
}


/// Whether `c` is an ASCII decimal digit.
pub open spec fn digit_spec(c: char) -> bool {
    '0' <= c <= '9'
}

/// Whether `s` is `lower` with each letter in either case, given as
/// `lower` and `upper`.
pub open spec fn word_any_case(s: Seq<char>, lower: Seq<char>, upper: Seq<char>) -> bool {
    &&& s.len() == lower.len()
    &&& forall|i: int| 0 <= i < s.len() ==> #[trigger] s[i] == lower[i] || s[i] == upper[i]
}

/// Whether `m` is the digits of a decimal number with at most one point:
/// digits and `.` only, one `.` at most, one digit at least.
pub open spec fn mantissa_spec(m: Seq<char>) -> bool {
    &&& forall|i: int| 0 <= i < m.len() ==> digit_spec(#[trigger] m[i]) || m[i] == '.'
    &&& forall|i: int, j: int| 0 <= i < m.len() && 0 <= j < m.len() && #[trigger] m[i] == '.' && #[trigger] m[j] == '.' ==> i == j
    &&& exists|i: int| 0 <= i < m.len() && digit_spec(#[trigger] m[i])
}

/// `s` without the sign in front of it, if it has one.
pub open spec fn unsigned_part(s: Seq<char>) -> Seq<char> {
    if s.len() > 0 && (s[0] == '+' || s[0] == '-') { s.drop_first() } else { s }
}

/// Whether `d` is one ASCII digit or more.
pub open spec fn digits_only(d: Seq<char>) -> bool {
    d.len() > 0 && forall|i: int| 0 <= i < d.len() ==> digit_spec(#[trigger] d[i])
}

/// Whether `x` is an exponent: an optional sign and one digit or more.
pub open spec fn exponent_spec(x: Seq<char>) -> bool {
    digits_only(unsigned_part(x))
}

/// Whether `b` is a decimal number, an `e` or `E`, and an exponent.
pub open spec fn with_exponent(b: Seq<char>) -> bool {
    exists|k: int| 0 <= k < b.len() && (#[trigger] b[k] == 'e' || b[k] == 'E') && mantissa_spec(b.subrange(0, k))
        && exponent_spec(b.subrange(k + 1, b.len() as int))
}

/// Whether `s` is what `str::parse::<f64>` accepts: an optional sign, then
/// `inf`, `infinity` or `nan` in any case, or a decimal number with an
/// optional exponent after `e` or `E`.
pub open spec fn float_literal(s: Seq<char>) -> bool {
    ||| word_any_case(unsigned_part(s), "inf"@, "INF"@)
    ||| word_any_case(unsigned_part(s), "infinity"@, "INFINITY"@)
    ||| word_any_case(unsigned_part(s), "nan"@, "NAN"@)
    ||| mantissa_spec(unsigned_part(s))
    ||| with_exponent(unsigned_part(s))
}

fn word_any_case_str(s: &str, lower: &str, upper: &str) -> (r: bool)
    requires
        lower@.len() == upper@.len(),
    ensures
        r == word_any_case(s@, lower@, upper@),
{
    let n = s.unicode_len();
    if n != lower.unicode_len() {
        return false;
    }
    let mut i: usize = 0;
    while i < n
        invariant
            n == s@.len(),
            n == lower@.len(),
            n == upper@.len(),
            i <= n,
            forall|j: int| 0 <= j < i ==> #[trigger] s@[j] == lower@[j] || s@[j] == upper@[j],
        decreases n - i,
    {
        let c = s.get_char(i);
        if c != lower.get_char(i) && c != upper.get_char(i) {
            return false;
        }
        i = i + 1;
    }
    true
}

fn mantissa_str(m: &str) -> (r: bool)
    ensures
        r == mantissa_spec(m@),
{
    let n = m.unicode_len();
    let mut dot: Option<usize> = None;
    let mut digit = false;
    let mut i: usize = 0;
    while i < n
        invariant
            n == m@.len(),
            i <= n,
            forall|j: int| 0 <= j < i ==> digit_spec(#[trigger] m@[j]) || m@[j] == '.',
            match dot {
                None => forall|j: int| 0 <= j < i ==> #[trigger] m@[j] != '.',
                Some(d) => d < i && m@[d as int] == '.' && forall|j: int| 0 <= j < i && j != d ==> #[trigger] m@[j] != '.',
            },
            digit == exists|j: int| 0 <= j < i && digit_spec(#[trigger] m@[j]),
        decreases n - i,
    {
        let c = m.get_char(i);
        if '0' <= c && c <= '9' {
            digit = true;
        } else if c == '.' {
            if dot.is_some() {
                proof {
                    let d = dot->Some_0 as int;
                    assert(m@[d] == '.' && m@[i as int] == '.');
                }
                return false;
            }
            dot = Some(i);
        } else {
            return false;
        }
        i = i + 1;
    }
    digit
}

fn exponent_str(x: &str) -> (r: bool)
    ensures
        r == exponent_spec(x@),
{
    let n = x.unicode_len();
    let mut i: usize = 0;
    if n > 0 {
        let c = x.get_char(0);
        if c == '+' || c == '-' {
            i = 1;
        }
    }
    let start = i;
    let ghost d = x@.subrange(start as int, n as int);
    assert(d =~= unsigned_part(x@));
    if i >= n {
        return false;
    }
    while i < n
        invariant
            n == x@.len(),
            start <= i <= n,
            d == x@.subrange(start as int, n as int),
            d == unsigned_part(x@),
            forall|j: int| start <= j < i ==> digit_spec(#[trigger] x@[j]),
        decreases n - i,
    {
        let c = x.get_char(i);
        if !('0' <= c && c <= '9') {
            assert(d[i - start] == c);
            assert(!digit_spec(d[i - start]));
            assert(!(forall|j: int| 0 <= j < d.len() ==> digit_spec(#[trigger] d[j])));
            return false;
        }
        i = i + 1;
    }
    assert forall|j: int| 0 <= j < d.len() implies digit_spec(#[trigger] d[j]) by {
        assert(d[j] == x@[j + start]);
    }
    true
}

/// Whether `s` is a number that `str::parse::<f64>` accepts.
pub fn is_float_literal(s: &str) -> (r: bool)
    ensures
        r == float_literal(s@),
{
    let n = s.unicode_len();
    let mut start: usize = 0;
    if n > 0 {
        let c = s.get_char(0);
        if c == '+' || c == '-' {
            start = 1;
        }
    }
    let b = s.substring_char(start, n);
    assert(b@ =~= unsigned_part(s@));
    proof {
        reveal_strlit("inf");
        reveal_strlit("INF");
        reveal_strlit("infinity");
        reveal_strlit("INFINITY");
        reveal_strlit("nan");
        reveal_strlit("NAN");
    }
    if word_any_case_str(b, "inf", "INF") || word_any_case_str(b, "infinity", "INFINITY") || word_any_case_str(b, "nan", "NAN") {
        return true;
    }
    let m = b.unicode_len();
    let mut k: usize = 0;
    while k < m && b.get_char(k) != 'e' && b.get_char(k) != 'E'
        invariant
            m == b@.len(),
            k <= m,
            forall|j: int| 0 <= j < k ==> #[trigger] b@[j] != 'e' && b@[j] != 'E',
        decreases m - k,
    {
        k = k + 1;
    }
    if k == m {
        assert(!with_exponent(b@));
        return mantissa_str(b);
    }
    let head = b.substring_char(0, k);
    let tail = b.substring_char(k + 1, m);
    let r = mantissa_str(head) && exponent_str(tail);
    proof {
        assert(head@ =~= b@.subrange(0, k as int));
        assert(tail@ =~= b@.subrange(k + 1, m as int));
        assert(b@[k as int] == 'e' || b@[k as int] == 'E');
        assert(!mantissa_spec(b@)) by {
            assert(!(digit_spec(b@[k as int]) || b@[k as int] == '.'));
        }
        assert forall|k2: int| 0 <= k2 < b@.len() && (#[trigger] b@[k2] == 'e' || b@[k2] == 'E') && mantissa_spec(b@.subrange(0, k2))
            implies k2 == k by {
            if k2 > k {
                let h = b@.subrange(0, k2);
                assert(h[k as int] == b@[k as int]);
                assert(!(digit_spec(h[k as int]) || h[k as int] == '.'));
            }
        }
        if r {
            assert(with_exponent(b@));
        }
        assert(with_exponent(b@) == r);
    }
    r
}


/// The value that `str::parse::<i32>` gives for the bytes `s`: an optional
/// sign, then one or more ASCII digits whose value fits in 32 signed bits.
pub open spec fn parse_i32_spec(s: Seq<u8>) -> Option<i32> {
    let signed = s.len() > 0 && (s[0] == 43 || s[0] == 45);
    let negative = s.len() > 0 && s[0] == 45;
    let digits = if signed { s.drop_first() } else { s };
    if digits.len() == 0 || !all_digits(digits) {
        None
    } else if negative {
        if digits_value(digits) > 0x8000_0000 { None } else { Some((0 - digits_value(digits)) as i32) }
    } else {
        if digits_value(digits) > 0x7fff_ffff { None } else { Some(digits_value(digits) as i32) }
    }
}

/// Parses a signed decimal number as `str::parse::<i32>` does.
pub fn parse_i32_str(s: &str) -> (r: Option<i32>)
    ensures
        r == parse_i32_spec(ascii_bytes(s@)),
{
    let n = s.unicode_len();
    let mut bytes: Vec<u8> = Vec::new();
    let mut i: usize = 0;
    while i < n
        invariant
            n == s@.len(),
            i <= n,
            bytes@ == ascii_bytes(s@).subrange(0, i as int),
        decreases n - i,
    {
        let u = s.get_char(i) as u32;
        let b: u8 = if u < 128 { u as u8 } else { 0 };
        bytes.push(b);
        assert(bytes@ =~= ascii_bytes(s@).subrange(0, i + 1));
        i = i + 1;
    }
    assert(bytes@ =~= ascii_bytes(s@));
    let b = bytes.as_slice();
    let ghost sb = b@;
    let mut start: usize = 0;
    let mut negative = false;
    if b.len() > 0 && (b[0] == 43u8 || b[0] == 45u8) {
        start = 1;
        negative = b[0] == 45u8;
    }
    let ghost digits = sb.subrange(start as int, sb.len() as int);
    assert(digits =~= (if sb.len() > 0 && (sb[0] == 43 || sb[0] == 45) { sb.drop_first() } else { sb }));
    if start >= b.len() {
        return None;
    }
    let limit: u64 = if negative { 0x8000_0000 } else { 0x7fff_ffff };
    let mut value: u64 = 0;
    let mut k: usize = start;
    while k < b.len()
        invariant
            start <= k <= sb.len(),
            b@ == sb,
            digits == sb.subrange(start as int, sb.len() as int),
            digits =~= (if sb.len() > 0 && (sb[0] == 43 || sb[0] == 45) { sb.drop_first() } else { sb }),
            sb == ascii_bytes(s@),
            negative == (sb.len() > 0 && sb[0] == 45),
            limit == (if negative { 0x8000_0000u64 } else { 0x7fff_ffffu64 }),
            limit <= 0x8000_0000,
            all_digits(sb.subrange(start as int, k as int)),
            value == digits_value(sb.subrange(start as int, k as int)),
            value <= limit,
        decreases sb.len() - k,
    {
        let c = b[k];
        if c < 48u8 || c > 57u8 {
            assert(!all_digits(digits)) by {
                assert(digits[k - start] == c);
            }
            return None;
        }
        let next = value * 10 + (c - 48u8) as u64;
        assert(sb.subrange(start as int, k + 1).drop_last() =~= sb.subrange(start as int, k as int));
        if next > limit {
            proof {
                let m = (k + 1 - start) as nat;
                assert(digits.subrange(0, m as int) =~= sb.subrange(start as int, k + 1));
                assert(all_digits(sb.subrange(start as int, k + 1)));
                lemma_digits_value_prefix_monotone(digits, m);
            }
            return None;
        }
        value = next;
        k = k + 1;
    }
    assert(sb.subrange(start as int, k as int) =~= digits);
    if negative {
        Some((0 - (value as i64)) as i32)
    } else {
        Some(value as i32)
    }
}



/// The decimal digits of `n`, with `-` in front where it is negative.
pub open spec fn signed_decimal(n: int) -> Seq<char> {
    if n < 0 { "-"@ + decimal((0 - n) as nat) } else { decimal(n as nat) }
}

/// Appends the decimal digits of `n`, with `-` in front where it is
/// negative.
pub fn push_signed_decimal(out: &mut String, n: i32)
    ensures
        final(out)@ == old(out)@ + signed_decimal(n as int),
{
    let ghost start = out@;
    if n < 0 {
        out.append("-");
        proof {
            reveal_strlit("-");
        }
        let m: u64 = (0 - (n as i64)) as u64;
        push_decimal_u64(out, m);
        assert(out@ =~= start + signed_decimal(n as int));
    } else {
        push_decimal_u64(out, n as u64);
    }
}

/// The digits of a number read back: the text of `decimal(n)`, taken as
/// bytes, is one or more digits whose value is `n`.
pub proof fn lemma_decimal_digits(n: nat, width: nat)
    requires
        width <= 1,
    ensures
        decimal_padded(n, width).len() > 0,
        all_digits(ascii_bytes(decimal_padded(n, width))),
        digits_value(ascii_bytes(decimal_padded(n, width))) == n,
        forall|i: int| 0 <= i < decimal_padded(n, width).len() ==> '0' <= #[trigger] decimal_padded(n, width)[i] <= '9',
    decreases n,
{
    let d = decimal_padded(n, width);
    if n < 10 {
        assert(d == seq![digit_char(n as int)]);
        assert(ascii_bytes(d) =~= seq![(48 + n) as u8]);
        assert(ascii_bytes(d).drop_last() =~= Seq::<u8>::empty());
        assert(ascii_bytes(d).last() == (48 + n) as u8);
        assert(digits_value(ascii_bytes(d)) == digits_value(ascii_bytes(d).drop_last()) * 10 + (ascii_bytes(d).last() - 48) as nat);
    } else {
        let q = decimal_padded(n / 10, 0);
        lemma_decimal_digits(n / 10, 0);
        let c = digit_char((n % 10) as int);
        assert(d == q.push(c));
        assert(ascii_bytes(d) =~= ascii_bytes(q).push((48 + n % 10) as u8));
        assert(ascii_bytes(d).drop_last() =~= ascii_bytes(q));
        assert forall|i: int| 0 <= i < d.len() implies '0' <= #[trigger] d[i] <= '9' by {
            if i < q.len() {
                assert(d[i] == q[i]);
            }
        }
        assert(n == (n / 10) * 10 + n % 10);
        assert(ascii_bytes(d).last() == (48 + n % 10) as u8);
        assert(digits_value(ascii_bytes(d)) == digits_value(ascii_bytes(q)) * 10 + (ascii_bytes(d).last() - 48) as nat);
    }
}

/// Signed decimal text reads back as the number: `str::parse::<i32>` of
/// the text of `n` gives `n`.
pub proof fn lemma_signed_decimal_parses(n: i32)
    ensures
        parse_i32_spec(ascii_bytes(signed_decimal(n as int))) == Some(n),
        forall|i: int| 0 <= i < signed_decimal(n as int).len() ==> #[trigger] signed_decimal(n as int)[i] != '_',
        forall|i: int| 0 <= i < signed_decimal(n as int).len() ==> #[trigger] signed_decimal(n as int)[i] != '.',
{
    reveal_strlit("-");
    let m: nat = if n < 0 { (0 - n) as nat } else { n as nat };
    lemma_decimal_digits(m, 1);
    let d = decimal(m);
    let t = signed_decimal(n as int);
    if n < 0 {
        assert(t == seq!['-'] + d);
        assert(ascii_bytes(t) =~= seq![45u8] + ascii_bytes(d));
        assert(ascii_bytes(t).drop_first() =~= ascii_bytes(d));
        assert(ascii_bytes(d)[0] != 43 && ascii_bytes(d)[0] != 45);
        assert forall|i: int| 0 <= i < t.len() implies #[trigger] t[i] != '_' && t[i] != '.' by {
            if i > 0 {
                assert(t[i] == d[i - 1]);
            }
        }
    } else {
        assert(t == d);
        assert(ascii_bytes(d)[0] == (d[0] as u32) as u8);
        assert('0' <= d[0] <= '9');
        assert(ascii_bytes(t)[0] != 43 && ascii_bytes(t)[0] != 45);
    }
}

} // verus!
