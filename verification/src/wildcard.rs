//! Filter masks for archive paths: `*` spans any run of bytes, `?` one byte
//! other than `.`, and letters compare without regard to ASCII case.
use vstd::prelude::*;
use vstd::utf8::encode_utf8;

verus! {

/// ASCII lower-casing of one byte.
pub open spec fn lower(c: u8) -> u8 {
    if 65 <= c <= 90 {
        (c + 32) as u8
    } else {
        c
    }
}

/// Whether a pattern byte that is not taken as a star consumes a text byte.
pub open spec fn byte_matches(pc: u8, tc: u8) -> bool {
    (pc == 63 && tc != 46) || lower(pc) == lower(tc)
}

/// After the text is used up, the rest of the pattern must be stars.
pub open spec fn only_stars_from(p: Seq<u8>, pi: int) -> bool {
    forall|k: int| pi <= k < p.len() ==> p[k] == 42
}

/// The matcher's scan over pattern `p` and text `t`: `pi` and `ti` are the
/// positions reached, `star` the pattern position of the last star taken
/// (or -1), and `lsm` the text position at which that star's span ends.
/// A pattern byte is first compared with the text byte; failing that a star
/// is taken; failing that the last star's span grows by one byte.
pub open spec fn scan(p: Seq<u8>, t: Seq<u8>, pi: int, ti: int, star: int, lsm: int) -> bool
    decreases t.len() - lsm, t.len() - ti, p.len() - pi,
{
    if !(0 <= lsm <= ti <= t.len() && 0 <= pi <= p.len() && -1 <= star < pi) {
        false
    } else if ti == t.len() {
        only_stars_from(p, pi)
    } else if pi < p.len() && byte_matches(p[pi], t[ti]) {
        scan(p, t, pi + 1, ti + 1, star, lsm)
    } else if pi < p.len() && p[pi] == 42 {
        scan(p, t, pi + 1, ti, pi, ti)
    } else if star >= 0 {
        scan(p, t, star + 1, lsm + 1, star, lsm + 1)
    } else {
        false
    }
}

/// The result of matching the bytes of pattern `p` against the bytes of text
/// `t`: an empty pattern matches everything, an empty text only an empty
/// pattern.
pub open spec fn wild_match_bytes(p: Seq<u8>, t: Seq<u8>) -> bool {
    if p.len() == 0 {
        true
    } else if t.len() == 0 {
        false
    } else {
        scan(p, t, 0, 0, -1, 0)
    }
}

/// [`wild_match_bytes`] on the UTF-8 encodings of two strings.
pub open spec fn wild_match_spec(pattern: Seq<char>, text: Seq<char>) -> bool {
    wild_match_bytes(encode_utf8(pattern), encode_utf8(text))
}

fn ascii_lower(c: u8) -> (r: u8)
    ensures
        r == lower(c),
{
    if 65 <= c && c <= 90 {
        c + 32
    } else {
        c
    }
}

/// Matches `text` against the filter mask `pattern`.
pub fn wild_match(pattern: &str, text: &str) -> (r: bool)
    ensures
        r == wild_match_spec(pattern@, text@),
{
    let p = pattern.as_bytes();
    let t = text.as_bytes();
    if p.len() == 0 {
        return true;
    }
    if t.len() == 0 {
        return false;
    }
    let ghost pp = p@;
    let ghost tt = t@;
    let mut pi: usize = 0;
    let mut ti: usize = 0;
    let mut has_star: bool = false;
    let mut star: usize = 0;
    let mut lsm: usize = 0;

    while ti < t.len()
        invariant
            pp == p@,
            tt == t@,
            pp == encode_utf8(pattern@),
            tt == encode_utf8(text@),
            p@.len() > 0,
            t@.len() > 0,
            lsm <= ti <= t@.len(),
            pi <= p@.len(),
            has_star ==> star < pi,
            scan(pp, tt, 0, 0, -1, 0) == scan(
                pp,
                tt,
                pi as int,
                ti as int,
                if has_star { star as int } else { -1 },
                lsm as int,
            ),
        decreases t@.len() - lsm, t@.len() - ti, p@.len() - pi,
    {
        if pi < p.len() && ((p[pi] == 63u8 && t[ti] != 46u8) || ascii_lower(p[pi]) == ascii_lower(
            t[ti],
        )) {
            pi = pi + 1;
            ti = ti + 1;
        } else if pi < p.len() && p[pi] == 42u8 {
            has_star = true;
            star = pi;
            pi = pi + 1;
            lsm = ti;
        } else if has_star {
            pi = star + 1;
            lsm = lsm + 1;
            ti = lsm;
        } else {
            assert(!scan(pp, tt, pi as int, ti as int, -1, lsm as int));
            return false;
        }
    }

    while pi < p.len() && p[pi] == 42u8
        invariant
            pp == p@,
            tt == t@,
            ti == t@.len(),
            lsm <= ti,
            pi <= p@.len(),
            has_star ==> star < pi,
            scan(pp, tt, 0, 0, -1, 0) == scan(
                pp,
                tt,
                pi as int,
                ti as int,
                if has_star { star as int } else { -1 },
                lsm as int,
            ),
        decreases p@.len() - pi,
    {
        pi = pi + 1;
    }
    pi == p.len()
}

/// Whether `text` passes any of the masks; an empty list passes everything.
pub fn wild_match_any(patterns: &[String], text: &str) -> (r: bool)
    ensures
        r == (patterns@.len() == 0 || exists|i: int|
            0 <= i < patterns@.len() && wild_match_spec(#[trigger] patterns@[i]@, text@)),
{
    if patterns.len() == 0 {
        return true;
    }
    let mut i: usize = 0;
    while i < patterns.len()
        invariant
            i <= patterns@.len(),
            forall|j: int| 0 <= j < i ==> !wild_match_spec(#[trigger] patterns@[j]@, text@),
        decreases patterns@.len() - i,
    {
        if wild_match(patterns[i].as_str(), text) {
            return true;
        }
        i = i + 1;
    }
    false
}


/// Whether two byte strings agree up to ASCII case.
pub open spec fn same_up_to_case(a: Seq<u8>, b: Seq<u8>) -> bool {
    a.len() == b.len() && forall|i: int| 0 <= i < a.len() ==> lower(#[trigger] a[i]) == lower(b[i])
}

proof fn lemma_scan_case(p: Seq<u8>, t1: Seq<u8>, t2: Seq<u8>, pi: int, ti: int, star: int, lsm: int)
    requires
        same_up_to_case(t1, t2),
    ensures
        scan(p, t1, pi, ti, star, lsm) == scan(p, t2, pi, ti, star, lsm),
    decreases t1.len() - lsm, t1.len() - ti, p.len() - pi,
{
    if !(0 <= lsm <= ti <= t1.len() && 0 <= pi <= p.len() && -1 <= star < pi) {
    } else if ti == t1.len() {
    } else {
        assert(lower(t1[ti]) == lower(t2[ti]));
        assert((t1[ti] == 46) == (t2[ti] == 46));
        if pi < p.len() && byte_matches(p[pi], t1[ti]) {
            lemma_scan_case(p, t1, t2, pi + 1, ti + 1, star, lsm);
        } else if pi < p.len() && p[pi] == 42 {
            lemma_scan_case(p, t1, t2, pi + 1, ti, pi, ti);
        } else if star >= 0 {
            lemma_scan_case(p, t1, t2, star + 1, lsm + 1, star, lsm + 1);
        }
    }
}

/// Matching ignores ASCII case: texts that agree up to ASCII case match the
/// same patterns.
pub proof fn lemma_match_ignores_case(pattern: Seq<u8>, t1: Seq<u8>, t2: Seq<u8>)
    requires
        same_up_to_case(t1, t2),
    ensures
        wild_match_bytes(pattern, t1) == wild_match_bytes(pattern, t2),
{
    lemma_scan_case(pattern, t1, t2, 0, 0, -1, 0);
}

/// The empty pattern matches every text.
pub proof fn lemma_empty_pattern_matches(text: Seq<char>)
    ensures
        wild_match_spec(Seq::empty(), text),
{
    vstd::utf8::is_ascii_chars_encode_utf8(Seq::<char>::empty());
    assert(vstd::utf8::is_ascii_chars(Seq::<char>::empty()));
}


/// What a mask means, position by position: `p[i..]` matches `t[j..]`
/// where both are used up; a `*` matches any run of bytes, and any other
/// byte one text byte that it matches (see `byte_matches`).
pub open spec fn glob(p: Seq<u8>, t: Seq<u8>, i: int, j: int) -> bool
    decreases p.len() - i + t.len() - j,
{
    if !(0 <= i <= p.len() && 0 <= j <= t.len()) {
        false
    } else if i == p.len() {
        j == t.len()
    } else if p[i] == 42 {
        glob(p, t, i + 1, j) || (j < t.len() && glob(p, t, i, j + 1))
    } else {
        j < t.len() && byte_matches(p[i], t[j]) && glob(p, t, i + 1, j + 1)
    }
}

/// Whether the pattern bytes `p[s + 1..pi]` hold no star and match the text
/// bytes from `lsm` on, one for one.
pub open spec fn segment_matches(p: Seq<u8>, t: Seq<u8>, s: int, pi: int, lsm: int) -> bool {
    &&& pi - s - 1 >= 0
    &&& lsm + (pi - s - 1) <= t.len()
    &&& pi <= p.len()
    &&& forall|q: int| s + 1 <= q < pi ==> #[trigger] p[q] != 42 && byte_matches(p[q], t[lsm + (q - s - 1)])
}

proof fn lemma_glob_segment(p: Seq<u8>, t: Seq<u8>, s: int, pi: int, lsm: int)
    requires
        -1 <= s,
        0 <= lsm,
        segment_matches(p, t, s, pi, lsm),
    ensures
        glob(p, t, s + 1, lsm) == glob(p, t, pi, lsm + (pi - s - 1)),
    decreases pi - s,
{
    if pi - s - 1 > 0 {
        assert(p[s + 1] != 42 && byte_matches(p[s + 1], t[lsm + ((s + 1) - s - 1)]));
        assert forall|q: int| s + 2 <= q < pi implies #[trigger] p[q] != 42 && byte_matches(p[q], t[(lsm + 1) + (q - (s + 1) - 1)]) by {
            assert(p[q] != 42 && byte_matches(p[q], t[lsm + (q - s - 1)]));
            assert(lsm + (q - s - 1) == (lsm + 1) + (q - (s + 1) - 1));
        }
        lemma_glob_segment(p, t, s + 1, pi, lsm + 1);
    }
}

proof fn lemma_glob_segment_later(p: Seq<u8>, t: Seq<u8>, i: int, pi: int, k: int)
    requires
        0 <= i <= pi <= p.len(),
        0 <= k,
        forall|m: int| i <= m < pi ==> #[trigger] p[m] != 42,
        glob(p, t, i, k),
    ensures
        k + (pi - i) <= t.len(),
        glob(p, t, pi, k + (pi - i)),
    decreases pi - i,
{
    if i < pi {
        lemma_glob_segment_later(p, t, i + 1, pi, k + 1);
    }
}

proof fn lemma_glob_star_absorbs(p: Seq<u8>, t: Seq<u8>, i: int, j: int, j2: int)
    requires
        0 <= i < p.len(),
        p[i] == 42,
        0 <= j <= j2,
        glob(p, t, i, j2),
    ensures
        glob(p, t, i, j),
    decreases j2 - j,
{
    if j < j2 {
        lemma_glob_star_absorbs(p, t, i, j + 1, j2);
    }
}

proof fn lemma_glob_star_split(p: Seq<u8>, t: Seq<u8>, s: int, j: int)
    requires
        0 <= s < p.len(),
        p[s] == 42,
        0 <= j <= t.len(),
        glob(p, t, s, j),
    ensures
        exists|k: int| j <= k <= t.len() && #[trigger] glob(p, t, s + 1, k),
    decreases t.len() - j,
{
    if !glob(p, t, s + 1, j) {
        lemma_glob_star_split(p, t, s, j + 1);
    }
}

proof fn lemma_glob_end(p: Seq<u8>, t: Seq<u8>, i: int)
    requires
        0 <= i <= p.len(),
    ensures
        glob(p, t, i, t.len() as int) == only_stars_from(p, i),
    decreases p.len() - i,
{
    if i < p.len() {
        lemma_glob_end(p, t, i + 1);
    }
}

/// The scan agrees with the meaning of the mask, on texts without `*`.
proof fn lemma_scan_is_glob(p: Seq<u8>, t: Seq<u8>, pi: int, ti: int, star: int, lsm: int)
    requires
        !t.contains(42),
        0 <= lsm <= ti <= t.len(),
        0 <= pi <= p.len(),
        -1 <= star < pi,
        star == -1 ==> lsm == ti,
        star >= 0 ==> p[star] == 42 && segment_matches(p, t, star, pi, lsm) && ti == lsm + (pi - star - 1),
    ensures
        scan(p, t, pi, ti, star, lsm) == if star == -1 { glob(p, t, pi, ti) } else { glob(p, t, star, lsm) },
    decreases t.len() - lsm, t.len() - ti, p.len() - pi,
{
    if star >= 0 {
        lemma_glob_segment(p, t, star, pi, lsm);
    }
    if ti == t.len() {
        lemma_glob_end(p, t, pi);
        if star >= 0 && glob(p, t, star, lsm) {
            lemma_glob_star_split(p, t, star, lsm);
            let k = choose|k: int| lsm <= k <= t.len() && #[trigger] glob(p, t, star + 1, k);
            lemma_glob_segment_later(p, t, star + 1, pi, k);
        }
    } else {
        assert(t[ti] != 42) by {
            if t[ti] == 42 {
                assert(t.contains(42));
            }
        }
        if pi < p.len() && byte_matches(p[pi], t[ti]) {
            assert(p[pi] != 42);
            if star >= 0 {
                assert forall|q: int| star + 1 <= q < pi + 1 implies #[trigger] p[q] != 42 && byte_matches(p[q], t[lsm + (q - star - 1)]) by {
                    if q == pi {
                        assert(lsm + (q - star - 1) == ti);
                    }
                }
                lemma_scan_is_glob(p, t, pi + 1, ti + 1, star, lsm);
            } else {
                lemma_scan_is_glob(p, t, pi + 1, ti + 1, -1, ti + 1);
                assert(scan(p, t, pi + 1, ti + 1, -1, lsm) == scan(p, t, pi + 1, ti + 1, -1, ti + 1)) by {
                    lemma_scan_lsm_free(p, t, pi + 1, ti + 1, lsm, ti + 1);
                }
            }
        } else if pi < p.len() && p[pi] == 42 {
            lemma_scan_is_glob(p, t, pi + 1, ti, pi, ti);
            if star >= 0 {
                if glob(p, t, star, lsm) {
                    lemma_glob_star_split(p, t, star, lsm);
                    let k = choose|k: int| lsm <= k <= t.len() && #[trigger] glob(p, t, star + 1, k);
                    lemma_glob_segment_later(p, t, star + 1, pi, k);
                    lemma_glob_star_absorbs(p, t, pi, ti, k + (pi - star - 1));
                }
            }
        } else if star >= 0 {
            lemma_scan_is_glob(p, t, star + 1, lsm + 1, star, lsm + 1);
        }
    }
}

/// Where no star has been taken, the scan does not depend on `lsm`.
proof fn lemma_scan_lsm_free(p: Seq<u8>, t: Seq<u8>, pi: int, ti: int, a: int, b: int)
    requires
        0 <= a <= ti,
        0 <= b <= ti,
    ensures
        scan(p, t, pi, ti, -1, a) == scan(p, t, pi, ti, -1, b),
    decreases t.len() - ti, p.len() - pi,
{
    if 0 <= ti <= t.len() && 0 <= pi <= p.len() && ti < t.len() {
        if pi < p.len() && byte_matches(p[pi], t[ti]) {
            lemma_scan_lsm_free(p, t, pi + 1, ti + 1, a, b);
        }
    }
}

/// A mask matches a text without `*` exactly where it means to: where
/// `glob` matches the whole pattern against the whole text. The two
/// exceptions that `wild_match` makes are an empty pattern, which matches
/// everything, and an empty text, which only the empty pattern matches.
pub proof fn law_mask_matches_its_meaning(p: Seq<u8>, t: Seq<u8>)
    requires
        p.len() > 0,
        t.len() > 0,
        !t.contains(42),
    ensures
        wild_match_bytes(p, t) == glob(p, t, 0, 0),
{
    lemma_scan_is_glob(p, t, 0, 0, -1, 0);
}


/// What a mask means, written on the remaining bytes: an empty pattern
/// matches only the empty text; a `*` matches the empty run before the rest
/// of the pattern, or one more byte of the text; any other byte matches one
/// text byte.
pub open spec fn mask_matches(p: Seq<u8>, t: Seq<u8>) -> bool
    decreases p.len(), t.len(),
{
    if p.len() == 0 {
        t.len() == 0
    } else if p[0] == 42 {
        mask_matches(p.drop_first(), t) || (t.len() > 0 && mask_matches(p, t.drop_first()))
    } else {
        t.len() > 0 && byte_matches(p[0], t[0]) && mask_matches(p.drop_first(), t.drop_first())
    }
}

proof fn lemma_glob_is_mask(p: Seq<u8>, t: Seq<u8>, i: int, j: int)
    requires
        0 <= i <= p.len(),
        0 <= j <= t.len(),
    ensures
        glob(p, t, i, j) == mask_matches(p.skip(i), t.skip(j)),
    decreases p.len() - i + t.len() - j,
{
    let ps = p.skip(i);
    let ts = t.skip(j);
    if i < p.len() {
        assert(ps[0] == p[i]);
        assert(ps.drop_first() =~= p.skip(i + 1));
        lemma_glob_is_mask(p, t, i + 1, j);
        if j < t.len() {
            assert(ts[0] == t[j]);
            assert(ts.drop_first() =~= t.skip(j + 1));
            lemma_glob_is_mask(p, t, i + 1, j + 1);
            lemma_glob_is_mask(p, t, i, j + 1);
        }
    }
}

/// The mask law written on remaining bytes: for a nonempty pattern and a
/// nonempty text without `*`, a mask matches exactly where `mask_matches`
/// says.
pub proof fn law_mask_matches_recursive_meaning(p: Seq<u8>, t: Seq<u8>)
    requires
        p.len() > 0,
        t.len() > 0,
        !t.contains(42),
    ensures
        wild_match_bytes(p, t) == mask_matches(p, t),
{
    law_mask_matches_its_meaning(p, t);
    lemma_glob_is_mask(p, t, 0, 0);
    assert(p.skip(0) =~= p);
    assert(t.skip(0) =~= t);
}

/// The edge cases of masks: the empty pattern matches every text, and no
/// other pattern matches the empty text, not even `*`.
pub proof fn law_mask_edge_cases(p: Seq<u8>, t: Seq<u8>)
    ensures
        wild_match_bytes(seq![], t),
        p.len() > 0 ==> !wild_match_bytes(p, seq![]),
{
}

} // verus!
