//! The ICE block cipher ("thin" variant: eight rounds, 64-bit key), as used
//! to encrypt the name tables and payloads of the client's archives.
use vstd::prelude::*;

verus! {

/// Per-row moduli of the S-box construction.
pub const ICE_SMOD: [[u32; 4]; 4] = [
    [333, 313, 505, 369],
    [379, 375, 319, 391],
    [361, 445, 451, 397],
    [397, 425, 395, 505],
];

/// Per-row XOR masks of the S-box construction.
pub const ICE_SXOR: [[u32; 4]; 4] = [
    [0x83, 0x85, 0x9B, 0xCD],
    [0xCC, 0xA7, 0xAD, 0x41],
    [0x4B, 0x2E, 0xD4, 0x33],
    [0xEA, 0xCB, 0x2E, 0x04],
];

/// The P-box: the output bit that each input bit is moved to.
pub const ICE_PBOX: [u32; 32] = [
    0x00000001, 0x00000080, 0x00000400, 0x00002000, 0x00080000, 0x00200000, 0x01000000, 0x40000000,
    0x00000008, 0x00000020, 0x00000100, 0x00004000, 0x00010000, 0x00800000, 0x04000000, 0x20000000,
    0x00000004, 0x00000010, 0x00000200, 0x00008000, 0x00020000, 0x00400000, 0x08000000, 0x10000000,
    0x00000002, 0x00000040, 0x00000800, 0x00001000, 0x00040000, 0x00100000, 0x02000000, 0x80000000,
];

/// Key rotation used by the key schedule.
pub const ICE_KEYROT: [usize; 16] = [0, 1, 2, 3, 2, 1, 3, 0, 1, 3, 2, 0, 3, 1, 0, 2];

/// Multiplication of `a` by `b` in GF(2^8) modulo the polynomial `m`,
/// bit by bit from the low end of `b`.
pub open spec fn gf_mult_spec(a: u32, b: u32, m: u32) -> u32
    decreases b,
{
    if b == 0 {
        0
    } else {
        let shifted = (a << 1u32) as u32;
        let next_a = if shifted >= 256 { shifted ^ m } else { shifted };
        let term: u32 = if b & 1 != 0 { a } else { 0 };
        proof {
            lemma_shr1_decreases(b);
        }
        term ^ gf_mult_spec(next_a, b >> 1u32, m)
    }
}

/// `b` to the seventh power in GF(2^8) modulo `m`.
pub open spec fn gf_exp7_spec(b: u32, m: u32) -> u32 {
    if b == 0 {
        0
    } else {
        let x = gf_mult_spec(b, b, m);
        let x = gf_mult_spec(b, x, m);
        let x = gf_mult_spec(x, x, m);
        gf_mult_spec(b, x, m)
    }
}

/// The P-box applied to the bits of `x`, bit `index` of the original word
/// being the lowest bit of `x`.
pub open spec fn perm_from(x: u32, index: int) -> u32
    decreases x,
{
    if x == 0 {
        0
    } else {
        let term: u32 = if x & 1 != 0 && 0 <= index < 32 { ICE_PBOX[index] } else { 0 };
        proof {
            lemma_shr1_decreases(x);
        }
        term | perm_from(x >> 1u32, index + 1)
    }
}

/// The 32-bit permutation of the cipher.
pub open spec fn perm32_spec(x: u32) -> u32 {
    perm_from(x, 0)
}

/// Entry `i` (below 1024) of S-box `s` (below 4).
pub open spec fn sbox_spec(s: int, i: int) -> u32 {
    let col = ((i as u32 >> 1u32) & 0xff) as u32;
    let row = ((i as u32 & 1) | ((i as u32 & 0x200) >> 8u32)) as int;
    let shift: u32 = if s == 0 { 24 } else if s == 1 { 16 } else if s == 2 { 8 } else { 0 };
    perm32_spec((gf_exp7_spec(col ^ ICE_SXOR[s][row], ICE_SMOD[s][row]) << shift) as u32)
}

/// Entry `i` of the flattened table of the four S-boxes.
pub open spec fn sbox_table_spec(i: int) -> u32 {
    sbox_spec(i / 1024, i % 1024)
}

/// The round function on half-block `p` with the subkey `sk`.
pub open spec fn ice_f_spec(p: u32, sk: Seq<u32>) -> u32 {
    let tl = ((p >> 16u32) & 0x3ff) | (((p >> 14u32) | (p << 18u32)) & 0xffc00);
    let tr = (p & 0x3ff) | ((p << 2u32) & 0xffc00);
    let al0 = sk[2] & (tl ^ tr);
    let ar0 = al0 ^ tr;
    let al1 = al0 ^ tl;
    let al = al1 ^ sk[0];
    let ar = ar0 ^ sk[1];
    sbox_table_spec((al >> 10u32) as int) | sbox_table_spec(1024 + (al & 0x3ff) as int)
        | sbox_table_spec(2048 + (ar >> 10u32) as int) | sbox_table_spec(3072 + (ar & 0x3ff) as int)
}

pub proof fn lemma_shr1_decreases(b: u32)
    requires
        b != 0,
    ensures
        (b >> 1u32) < b,
{
    assert(b != 0 ==> (b >> 1u32) < b) by (bit_vector);
}

proof fn lemma_xor_assoc(x: u32, y: u32, z: u32)
    ensures
        (x ^ y) ^ z == x ^ (y ^ z),
        x ^ 0 == x,
{
    assert((x ^ y) ^ z == x ^ (y ^ z)) by (bit_vector);
    assert(x ^ 0 == x) by (bit_vector);
}

proof fn lemma_xor_zero_left(x: u32)
    ensures
        0u32 ^ x == x,
{
    assert(0u32 ^ x == x) by (bit_vector);
}

proof fn lemma_or_zero_left(x: u32)
    ensures
        0u32 | x == x,
{
    assert(0u32 | x == x) by (bit_vector);
}

proof fn lemma_or_assoc(x: u32, y: u32, z: u32)
    ensures
        (x | y) | z == x | (y | z),
        x | 0 == x,
{
    assert((x | y) | z == x | (y | z)) by (bit_vector);
    assert(x | 0 == x) by (bit_vector);
}

/// GF(2^8) multiplication.
fn gf_mult(a: u32, b: u32, m: u32) -> (r: u32)
    ensures
        r == gf_mult_spec(a, b, m),
{
    let mut a = a;
    let mut b = b;
    let mut res: u32 = 0;
    let ghost a0 = a;
    let ghost b0 = b;
    proof {
        lemma_xor_zero_left(gf_mult_spec(a, b, m));
    }
    while b != 0
        invariant
            res ^ gf_mult_spec(a, b, m) == gf_mult_spec(a0, b0, m),
        decreases b,
    {
        let ghost old_res = res;
        let ghost old_a = a;
        let ghost old_b = b;
        if b & 1 != 0 {
            res = res ^ a;
        }
        a = a << 1u32;
        b = b >> 1u32;
        if a >= 256 {
            a = a ^ m;
        }
        proof {
            lemma_shr1_decreases(old_b);
            let term: u32 = if old_b & 1 != 0 { old_a } else { 0 };
            assert(gf_mult_spec(old_a, old_b, m) == term ^ gf_mult_spec(a, b, m));
            lemma_xor_assoc(old_res, term, gf_mult_spec(a, b, m));
            lemma_xor_assoc(old_res, 0, 0);
        }
    }
    proof {
        lemma_xor_assoc(res, 0, 0);
    }
    res
}

/// Seventh power in GF(2^8).
fn gf_exp7(b: u32, m: u32) -> (r: u32)
    ensures
        r == gf_exp7_spec(b, m),
{
    if b == 0 {
        return 0;
    }
    let x = gf_mult(b, b, m);
    let x = gf_mult(b, x, m);
    let x = gf_mult(x, x, m);
    gf_mult(b, x, m)
}

proof fn lemma_perm_step(x: u32, i: u32)
    requires
        x != 0,
        i <= 32,
        x <= (0xffff_ffffu32 >> i),
    ensures
        i < 32,
        (x >> 1u32) <= (0xffff_ffffu32 >> ((i + 1) as u32)),
{
    assert(x != 0 && i <= 32 && x <= (0xffff_ffffu32 >> i) ==> i < 32) by (bit_vector);
    assert(i < 32 && x <= (0xffff_ffffu32 >> i) ==> (x >> 1u32) <= (0xffff_ffffu32 >> ((i
        + 1) as u32))) by (bit_vector);
}

/// The cipher's 32-bit bit permutation.
fn ice_perm32(x: u32) -> (r: u32)
    ensures
        r == perm32_spec(x),
{
    let mut x = x;
    let mut res: u32 = 0;
    let mut index: usize = 0;
    let ghost x0 = x;
    proof {
        assert(x <= (0xffff_ffffu32 >> 0u32)) by (bit_vector);
        lemma_or_zero_left(perm_from(x, 0));
    }
    while x != 0
        invariant
            index <= 32,
            x <= (0xffff_ffffu32 >> (index as u32)),
            res | perm_from(x, index as int) == perm_from(x0, 0),
        decreases x,
    {
        proof {
            lemma_perm_step(x, index as u32);
        }
        let ghost old_res = res;
        let ghost old_x = x;
        if x & 1 != 0 {
            res = res | ICE_PBOX[index];
        }
        index = index + 1;
        x = x >> 1u32;
        proof {
            lemma_shr1_decreases(old_x);
            let term: u32 = if old_x & 1 != 0 { ICE_PBOX[index - 1] } else { 0 };
            assert(perm_from(old_x, index - 1) == term | perm_from(x, index as int));
            lemma_or_assoc(old_res, term, perm_from(x, index as int));
            lemma_or_assoc(old_res, 0, 0);
        }
    }
    proof {
        lemma_or_assoc(res, 0, 0);
    }
    res
}

/// Builds the four S-boxes of 1024 entries each, flattened: entry `i` of
/// box `s` stands at `s * 1024 + i`.
fn ice_sboxes() -> (r: Vec<u32>)
    ensures
        r@.len() == 4096,
        forall|k: int| 0 <= k < 4096 ==> r@[k] == sbox_table_spec(k),
{
    let mut table: Vec<u32> = Vec::new();
    let mut s: usize = 0;
    while s < 4
        invariant
            s <= 4,
            table@.len() == s * 1024,
            forall|k: int| 0 <= k < table@.len() ==> table@[k] == sbox_table_spec(k),
        decreases 4 - s,
    {
        let shift: u32 = if s == 0 {
            24
        } else if s == 1 {
            16
        } else if s == 2 {
            8
        } else {
            0
        };
        let mut i: usize = 0;
        while i < 1024
            invariant
                s < 4,
                i <= 1024,
                shift == (if s == 0 { 24u32 } else if s == 1 { 16u32 } else if s == 2 { 8u32 } else { 0u32 }),
                table@.len() == s * 1024 + i,
                forall|k: int| 0 <= k < table@.len() ==> table@[k] == sbox_table_spec(k),
            decreases 1024 - i,
        {
            let iu = i as u32;
            let col: u32 = (iu >> 1u32) & 0xff;
            let row: usize = ((iu & 1) | ((iu & 0x200) >> 8u32)) as usize;
            proof {
                assert(((iu & 1) | ((iu & 0x200) >> 8u32)) < 4) by (bit_vector);
            }
            let x = gf_exp7(col ^ ICE_SXOR[s][row], ICE_SMOD[s][row]) << shift;
            let v = ice_perm32(x);
            proof {
                let k = (s * 1024 + i) as int;
                assert(k / 1024 == s as int && k % 1024 == i as int);
                assert(v == sbox_spec(s as int, i as int));
            }
            table.push(v);
            i = i + 1;
        }
        s = s + 1;
    }
    table
}


/// Whether every word of a subkey fits in 20 bits.
pub open spec fn subkey_in_range(sk: Seq<u32>) -> bool {
    sk.len() == 3 && forall|x: int| 0 <= x < 3 ==> #[trigger] sk[x] < 0x10_0000
}

proof fn lemma_f_indices(al: u32, ar: u32, tl: u32, tr: u32, s0: u32, s1: u32, s2: u32)
    requires
        s0 < 0x10_0000,
        s1 < 0x10_0000,
        s2 < 0x10_0000,
        tl == tl & 0xfffff,
        tr == tr & 0xfffff,
        al == ((s2 & (tl ^ tr)) ^ tl) ^ s0,
        ar == ((s2 & (tl ^ tr)) ^ tr) ^ s1,
    ensures
        (al >> 10u32) < 1024,
        (ar >> 10u32) < 1024,
        (al & 0x3ff) < 1024,
        (ar & 0x3ff) < 1024,
{
    assert(s0 < 0x10_0000 && s1 < 0x10_0000 && s2 < 0x10_0000 && tl == tl & 0xfffff && tr == tr
        & 0xfffff && al == ((s2 & (tl ^ tr)) ^ tl) ^ s0 && ar == ((s2 & (tl ^ tr)) ^ tr) ^ s1
        ==> (al >> 10u32) < 1024 && (ar >> 10u32) < 1024 && (al & 0x3ff) < 1024 && (ar & 0x3ff)
        < 1024) by (bit_vector);
}

/// The round function.
fn ice_f(p: u32, sk: &[u32; 3], sboxes: &Vec<u32>) -> (r: u32)
    requires
        subkey_in_range(sk@),
        sboxes@.len() == 4096,
        forall|k: int| 0 <= k < 4096 ==> sboxes@[k] == sbox_table_spec(k),
    ensures
        r == ice_f_spec(p, sk@),
{
    let tl = ((p >> 16u32) & 0x3ff) | (((p >> 14u32) | (p << 18u32)) & 0xffc00);
    let tr = (p & 0x3ff) | ((p << 2u32) & 0xffc00);
    let mut al = sk[2] & (tl ^ tr);
    let mut ar = al ^ tr;
    al = al ^ tl;
    al = al ^ sk[0];
    ar = ar ^ sk[1];
    proof {
        assert(tl == tl & 0xfffff) by (bit_vector)
            requires
                tl == ((p >> 16u32) & 0x3ff) | (((p >> 14u32) | (p << 18u32)) & 0xffc00),
        ;
        assert(tr == tr & 0xfffff) by (bit_vector)
            requires
                tr == (p & 0x3ff) | ((p << 2u32) & 0xffc00),
        ;
        assert(sk@[0] < 0x10_0000 && sk@[1] < 0x10_0000 && sk@[2] < 0x10_0000);
        lemma_f_indices(al, ar, tl, tr, sk@[0], sk@[1], sk@[2]);
    }
    sboxes[(al >> 10u32) as usize] | sboxes[1024 + (al & 0x3ff) as usize] | sboxes[2048 + (ar
        >> 10u32) as usize] | sboxes[3072 + (ar & 0x3ff) as usize]
}

/// One step of the key schedule: bit `t` (of sixty) of a subkey built with
/// rotation `kr` moves the low bit of key word `(kr + t % 4) % 4` into
/// subkey word `(t / 4) % 3`, and rotates that key word right with the
/// bit inverted into the top.
pub open spec fn schedule_step(kb: Seq<u16>, val: Seq<u32>, kr: int, t: int) -> (Seq<u16>, Seq<
    u32,
>) {
    let idx = (kr + t % 4) % 4;
    let vi = (t / 4) % 3;
    let bit = kb[idx] & 1;
    let new_val = ((val[vi] << 1u32) | (bit as u32)) as u32;
    let new_kb = ((kb[idx] >> 1u16) | ((bit ^ 1u16) << 15u16)) as u16;
    (kb.update(idx, new_kb), val.update(vi, new_val))
}

/// The first `n` steps of building one subkey.
pub open spec fn schedule_steps(kb: Seq<u16>, val: Seq<u32>, kr: int, n: nat) -> (Seq<u16>, Seq<
    u32,
>)
    decreases n,
{
    if n == 0 {
        (kb, val)
    } else {
        let prev = schedule_steps(kb, val, kr, (n - 1) as nat);
        schedule_step(prev.0, prev.1, kr, n - 1)
    }
}

/// The key words left after building the first `i` subkeys, and those
/// subkeys.
pub open spec fn schedule_spec(kb: Seq<u16>, i: nat) -> (Seq<u16>, Seq<Seq<u32>>)
    decreases i,
{
    if i == 0 {
        (kb, Seq::empty())
    } else {
        let prev = schedule_spec(kb, (i - 1) as nat);
        let built = schedule_steps(prev.0, seq![0u32, 0u32, 0u32], ICE_KEYROT[i - 1] as int, 60);
        (built.0, prev.1.push(built.1))
    }
}

/// The four 16-bit key words of a 64-bit key, last word first.
pub open spec fn key_words(key: Seq<u8>) -> Seq<u16> {
    seq![key_word(key, 3), key_word(key, 2), key_word(key, 1), key_word(key, 0)]
}

/// Key word `i`: bytes `2i` and `2i + 1` of the key, big-endian.
pub open spec fn key_word(key: Seq<u8>, i: int) -> u16 {
    (((key[2 * i] as u16) << 8u16) | (key[2 * i + 1] as u16)) as u16
}

proof fn lemma_schedule_len(kb: Seq<u16>, i: nat)
    ensures
        schedule_spec(kb, i).1.len() == i,
    decreases i,
{
    if i > 0 {
        lemma_schedule_len(kb, (i - 1) as nat);
    }
}

/// The eight subkeys of the thin cipher for a 64-bit key.
pub open spec fn key_schedule(key: Seq<u8>) -> Seq<Seq<u32>> {
    schedule_spec(key_words(key), 8).1
}

/// Bits shifted into subkey word `x` after `j` whole groups of four steps
/// and `k` more.
spec fn bit_count(x: int, j: int, k: int) -> int {
    4 * ((j + 2 - x) / 3) + if j % 3 == x { k } else { 0 }
}

proof fn lemma_bit_count_next(x: int, j: int)
    requires
        0 <= x < 3,
        0 <= j,
    ensures
        bit_count(x, j + 1, 0) == bit_count(x, j, 4),
        bit_count(x, 15, 0) == 20,
        bit_count(x, 0, 0) == 0,
        bit_count(x, j, 0) <= 4 * ((j + 2) / 3),
{
    assert((j + 1 + 2 - x) / 3 == (j + 2 - x) / 3 + if j % 3 == x { 1int } else { 0int });
}

proof fn lemma_shift_in_bit(v: u32, b: u32, c: u32)
    requires
        c < 20,
        (v >> c) == 0,
        b <= 1,
    ensures
        (((v << 1u32) | b) >> ((c + 1) as u32)) == 0,
{
    assert(c < 20 && (v >> c) == 0 && b <= 1 ==> (((v << 1u32) | b) >> ((c + 1) as u32)) == 0)
        by (bit_vector);
}

proof fn lemma_fits_20(v: u32)
    requires
        (v >> 20u32) == 0,
    ensures
        v < 0x10_0000,
{
    assert((v >> 20u32) == 0 ==> v < 0x10_0000) by (bit_vector);
}

/// Builds the eight subkeys from the key words `kb`.
fn schedule_build(kb: &mut Vec<u16>) -> (keysched: Vec<[u32; 3]>)
    requires
        old(kb)@.len() == 4,
    ensures
        keysched@.len() == 8,
        forall|i: int| 0 <= i < 8 ==> #[trigger] keysched@[i]@ == schedule_spec(old(kb)@, 8).1[i],
        forall|i: int| 0 <= i < 8 ==> subkey_in_range(#[trigger] keysched@[i]@),
{
    let ghost kb0 = kb@;
    let mut keysched: Vec<[u32; 3]> = Vec::new();
    let mut i: usize = 0;
    while i < 8
        invariant
            i <= 8,
            kb@.len() == 4,
            keysched@.len() == i,
            kb@ == schedule_spec(kb0, i as nat).0,
            forall|q: int| 0 <= q < i ==> #[trigger] keysched@[q]@ == schedule_spec(kb0, i as nat).1[q],
            schedule_spec(kb0, i as nat).1.len() == i,
            forall|q: int| 0 <= q < i ==> subkey_in_range(#[trigger] keysched@[q]@),
        decreases 8 - i,
    {
        let kr = ICE_KEYROT[i];
        let ghost kb_start = kb@;
        let mut val: Vec<u32> = vec![0u32, 0u32, 0u32];
        let mut j: usize = 0;
        proof {
            assert forall|x: int| 0 <= x < 3 implies (#[trigger] val@[x] >> (bit_count(x, 0, 0) as u32)) == 0 && bit_count(x, 0, 0) <= 20 by {
                lemma_bit_count_next(x, 0);
                assert(val@[x] == 0);
                assert((0u32 >> 0u32) == 0) by (bit_vector);
            }
        }
        while j < 15
            invariant
                j <= 15,
                kr < 4,
                kr == ICE_KEYROT[i as int],
                kb@.len() == 4,
                val@.len() == 3,
                (kb@, val@) == schedule_steps(kb_start, seq![0u32, 0u32, 0u32], kr as int, (4 * j) as nat),
                forall|x: int| 0 <= x < 3 ==> (#[trigger] val@[x] >> (bit_count(x, j as int, 0) as u32)) == 0,
                forall|x: int| 0 <= x < 3 ==> bit_count(x, j as int, 0) <= 20,
            decreases 15 - j,
        {
            let vi = j % 3;
            let mut k: usize = 0;
            while k < 4
                invariant
                    j < 15,
                    k <= 4,
                    vi == j % 3,
                    kr < 4,
                    kb@.len() == 4,
                    val@.len() == 3,
                    (kb@, val@) == schedule_steps(kb_start, seq![0u32, 0u32, 0u32], kr as int, (4 * j + k) as nat),
                    forall|x: int| 0 <= x < 3 ==> (#[trigger] val@[x] >> (bit_count(x, j as int, k as int) as u32)) == 0,
                    forall|x: int| 0 <= x < 3 ==> bit_count(x, j as int, k as int) <= 20,
                decreases 4 - k,
            {
                let sum: usize = kr + k;
                let idx = sum & 3;
                proof {
                    assert(sum & 3 == sum % 4) by (bit_vector);
                }
                let ghost old_kb = kb@;
                let ghost old_val = val@;
                let word: u16 = kb[idx];
                let bit: u16 = word & 1;
                proof {
                    assert(bit <= 1) by (bit_vector) requires bit == word & 1;
                    let t = (4 * j + k) as int;
                    assert(t % 4 == k as int && t / 4 == j as int);
                    let c = bit_count(vi as int, j as int, k as int);
                    assert(c < 20) by {
                        lemma_bit_count_next(vi as int, j as int);
                    }
                    lemma_shift_in_bit(old_val[vi as int], bit as u32, c as u32);
                }
                let nv = (val[vi] << 1u32) | (bit as u32);
                val.set(vi, nv);
                let nk = (kb[idx] >> 1u16) | ((bit ^ 1u16) << 15u16);
                kb.set(idx, nk);
                k = k + 1;
                proof {
                    let t = (4 * j + k - 1) as int;
                    assert(schedule_steps(kb_start, seq![0u32, 0u32, 0u32], kr as int, (t + 1) as nat)
                        == schedule_step(old_kb, old_val, kr as int, t));
                    assert(kb@ == schedule_step(old_kb, old_val, kr as int, t).0);
                    assert(val@ == schedule_step(old_kb, old_val, kr as int, t).1);
                    assert forall|x: int| 0 <= x < 3 implies (#[trigger] val@[x] >> (bit_count(x, j as int, k as int) as u32)) == 0 by {
                        if x != vi as int {
                            assert(val@[x] == old_val[x]);
                        }
                    }
                }
            }
            j = j + 1;
            proof {
                assert forall|x: int| 0 <= x < 3 implies (#[trigger] val@[x] >> (bit_count(x, j as int, 0) as u32)) == 0 && bit_count(x, j as int, 0) <= 20 by {
                    lemma_bit_count_next(x, j - 1);
                    lemma_bit_count_next(x, j as int);
                }
            }
        }
        proof {
            assert forall|x: int| 0 <= x < 3 implies #[trigger] val@[x] < 0x10_0000 by {
                lemma_bit_count_next(x, 15);
                lemma_fits_20(val@[x]);
            }
        }
        let sub: [u32; 3] = [val[0], val[1], val[2]];
        assert(sub@ =~= val@);
        keysched.push(sub);
        i = i + 1;
        proof {
            assert(forall|q: int| 0 <= q < i - 1 ==> schedule_spec(kb0, i as nat).1[q] == schedule_spec(kb0, (i - 1) as nat).1[q]);
        }
    }
    keysched
}

/// The decryption rounds from round `i` down, two at a time: the left half
/// takes the round function of the right under subkey `i`, then the right
/// half that of the new left under subkey `i - 1`.
pub open spec fn decrypt_rounds(ks: Seq<Seq<u32>>, l: u32, r: u32, i: int) -> (u32, u32)
    decreases i + 1,
{
    if i < 1 {
        (l, r)
    } else {
        let l2 = l ^ ice_f_spec(r, ks[i]);
        let r2 = r ^ ice_f_spec(l2, ks[i - 1]);
        decrypt_rounds(ks, l2, r2, i - 2)
    }
}

/// The big-endian `u32` at `offset` of `s`.
pub open spec fn be_u32_at(s: Seq<u8>, offset: int) -> u32 {
    (((s[offset] as u32) << 24u32) | ((s[offset + 1] as u32) << 16u32) | ((s[offset + 2] as u32)
        << 8u32) | (s[offset + 3] as u32)) as u32
}

/// The four big-endian bytes of `v`.
pub open spec fn be_bytes(v: u32) -> Seq<u8> {
    seq![(v >> 24u32) as u8, (v >> 16u32) as u8, (v >> 8u32) as u8, v as u8]
}

/// One decrypted 8-byte block under subkeys `ks`.
pub open spec fn decrypt_block_spec(ks: Seq<Seq<u32>>, block: Seq<u8>) -> Seq<u8> {
    let lr = decrypt_rounds(ks, be_u32_at(block, 0), be_u32_at(block, 4), 7);
    be_bytes(lr.1) + be_bytes(lr.0)
}

/// A buffer of whole blocks decrypted block by block.
pub open spec fn decrypt_spec(ks: Seq<Seq<u32>>, data: Seq<u8>) -> Seq<u8> {
    Seq::new(
        data.len(),
        |k: int| decrypt_block_spec(ks, data.subrange(k / 8 * 8, k / 8 * 8 + 8))[k % 8],
    )
}

/// Errors of the cipher.
#[derive(Debug, Clone, Copy, PartialEq, Eq)]
pub enum IceError {
    /// The input is not a whole number of 8-byte blocks.
    NotBlockAligned,
}

/// A keyed thin-ICE cipher.
pub struct IceKey {
    rounds: usize,
    keysched: Vec<[u32; 3]>,
    sboxes: Vec<u32>,
}

impl IceKey {
    #[verifier::type_invariant]
    spec fn well_formed(self) -> bool {
        &&& self.rounds == 8
        &&& self.keysched@.len() == 8
        &&& forall|i: int| 0 <= i < 8 ==> subkey_in_range(#[trigger] self.keysched@[i]@)
        &&& self.sboxes@.len() == 4096
        &&& forall|k: int| 0 <= k < 4096 ==> #[trigger] self.sboxes@[k] == sbox_table_spec(k)
    }

    /// The eight subkeys in use.
    pub closed spec fn schedule(self) -> Seq<Seq<u32>> {
        Seq::new(8, |i: int| self.keysched@[i]@)
    }

    /// A cipher keyed with the 8-byte key `key`.
    pub fn thin(key: [u8; 8]) -> (r: Self)
        ensures
            r.schedule() == key_schedule(key@),
    {
        let keysched = Self::set(&key);
        let sboxes = ice_sboxes();
        let r = IceKey { rounds: 8, keysched, sboxes };
        proof {
            lemma_schedule_len(key_words(key@), 8);
        }
        assert(r.schedule() =~= key_schedule(key@));
        r
    }

    /// The key schedule for `key`.
    fn set(key: &[u8; 8]) -> (keysched: Vec<[u32; 3]>)
        ensures
            keysched@.len() == 8,
            forall|i: int| 0 <= i < 8 ==> #[trigger] keysched@[i]@ == key_schedule(key@)[i],
            forall|i: int| 0 <= i < 8 ==> subkey_in_range(#[trigger] keysched@[i]@),
    {
        let mut kb: Vec<u16> = vec![0u16, 0u16, 0u16, 0u16];
        let mut i: usize = 0;
        while i < 4
            invariant
                i <= 4,
                kb@.len() == 4,
                forall|q: int|
                    0 <= q < i ==> kb@[3 - q] == #[trigger] key_word(key@, q),
            decreases 4 - i,
        {
            let w: u16 = ((key[i * 2] as u16) << 8u16) | (key[i * 2 + 1] as u16);
            kb.set(3 - i, w);
            i = i + 1;
        }
        assert(kb@[3] == key_word(key@, 0) && kb@[2] == key_word(key@, 1) && kb@[1] == key_word(key@, 2) && kb@[0] == key_word(key@, 3));
        assert(kb@ =~= key_words(key@));
        schedule_build(&mut kb)
    }

    /// Decrypts one 8-byte block.
    fn decrypt_block(&self, ciphertext: [u8; 8]) -> (out: [u8; 8])
        ensures
            out@ == decrypt_block_spec(self.schedule(), ciphertext@),
    {
        proof {
            use_type_invariant(self);
        }
        let mut l: u32 = ((ciphertext[0] as u32) << 24u32) | ((ciphertext[1] as u32) << 16u32) | ((
        ciphertext[2] as u32) << 8u32) | (ciphertext[3] as u32);
        let mut r: u32 = ((ciphertext[4] as u32) << 24u32) | ((ciphertext[5] as u32) << 16u32) | ((
        ciphertext[6] as u32) << 8u32) | (ciphertext[7] as u32);
        let ghost ks = self.schedule();
        let mut i: usize = 8;
        while i > 0
            invariant
                self.rounds == 8,
                i <= 8,
                i % 2 == 0,
                self.keysched@.len() == 8,
                forall|q: int| 0 <= q < 8 ==> subkey_in_range(#[trigger] self.keysched@[q]@),
                self.sboxes@.len() == 4096,
                forall|k: int| 0 <= k < 4096 ==> #[trigger] self.sboxes@[k] == sbox_table_spec(k),
                ks == self.schedule(),
                decrypt_rounds(ks, l, r, i - 1) == decrypt_rounds(
                    ks,
                    be_u32_at(ciphertext@, 0),
                    be_u32_at(ciphertext@, 4),
                    7,
                ),
            decreases i,
        {
            l = l ^ ice_f(r, &self.keysched[i - 1], &self.sboxes);
            r = r ^ ice_f(l, &self.keysched[i - 2], &self.sboxes);
            i = i - 2;
        }
        let ghost lr = decrypt_rounds(ks, be_u32_at(ciphertext@, 0), be_u32_at(ciphertext@, 4), 7);
        assert(lr == (l, r));
        let out: [u8; 8] = [
            (r >> 24u32) as u8,
            (r >> 16u32) as u8,
            (r >> 8u32) as u8,
            r as u8,
            (l >> 24u32) as u8,
            (l >> 16u32) as u8,
            (l >> 8u32) as u8,
            l as u8,
        ];
        assert(out@ =~= be_bytes(r) + be_bytes(l));
        out
    }

    /// Decrypts a buffer of whole 8-byte blocks.
    pub fn decrypt_buffer(&self, encrypted: &[u8]) -> (r: Result<Vec<u8>, IceError>)
        ensures
            r is Ok <==> encrypted@.len() % 8 == 0,
            r matches Ok(out) ==> out@ == decrypt_spec(self.schedule(), encrypted@),
    {
        if encrypted.len() % 8 != 0 {
            return Err(IceError::NotBlockAligned);
        }
        let mut decrypted: Vec<u8> = Vec::new();
        let mut b: usize = 0;
        let mut o: usize = 0;
        let n = encrypted.len() / 8;
        while b < n
            invariant
                n * 8 == encrypted@.len(),
                b <= n,
                o == b * 8,
                decrypted@.len() == b * 8,
                forall|k: int|
                    0 <= k < decrypted@.len() ==> #[trigger] decrypted@[k] == decrypt_spec(
                        self.schedule(),
                        encrypted@,
                    )[k],
            decreases n - b,
        {
            let block: [u8; 8] = [
                encrypted[o],
                encrypted[o + 1],
                encrypted[o + 2],
                encrypted[o + 3],
                encrypted[o + 4],
                encrypted[o + 5],
                encrypted[o + 6],
                encrypted[o + 7],
            ];
            let out = self.decrypt_block(block);
            proof {
                assert(block@ =~= encrypted@.subrange(o as int, o + 8));
            }
            let mut q: usize = 0;
            while q < 8
                invariant
                    n * 8 == encrypted@.len(),
                    b < n,
                    o == b * 8,
                    q <= 8,
                    block@ =~= encrypted@.subrange(o as int, o + 8),
                    out@ == decrypt_block_spec(self.schedule(), block@),
                    decrypted@.len() == o + q,
                    forall|k: int|
                        0 <= k < decrypted@.len() ==> #[trigger] decrypted@[k] == decrypt_spec(
                            self.schedule(),
                            encrypted@,
                        )[k],
                decreases 8 - q,
            {
                proof {
                    let k = (o + q) as int;
                    assert(k / 8 == b as int && k % 8 == q as int);
                }
                decrypted.push(out[q]);
                q = q + 1;
            }
            b = b + 1;
            o = o + 8;
        }
        assert(decrypted@ =~= decrypt_spec(self.schedule(), encrypted@));
        Ok(decrypted)
    }
}


/// The thin-ICE encryption state after the first `j` rounds of a block
/// whose halves are `l` and `r`: each pair of rounds, from subkey 0 up, puts
/// the round function of the right half into the left under subkey `j - 2`,
/// then that of the new left into the right under subkey `j - 1`.
pub open spec fn encrypt_state(ks: Seq<Seq<u32>>, l: u32, r: u32, j: int) -> (u32, u32)
    decreases j,
{
    if j < 2 {
        (l, r)
    } else {
        let prev = encrypt_state(ks, l, r, j - 2);
        let l2 = prev.0 ^ ice_f_spec(prev.1, ks[j - 2]);
        (l2, prev.1 ^ ice_f_spec(l2, ks[j - 1]))
    }
}

/// The number whose base-256 digits, most significant first, are the four
/// bytes of `s` from `offset`.
pub open spec fn word_from_digits(s: Seq<u8>, offset: int) -> u32 {
    (s[offset] * 16777216 + s[offset + 1] * 65536 + s[offset + 2] * 256 + s[offset + 3]) as u32
}

/// The four base-256 digits of `v`, most significant first.
pub open spec fn digits_of_word(v: u32) -> Seq<u8> {
    seq![(v / 16777216) as u8, (v / 65536 % 256) as u8, (v / 256 % 256) as u8, (v % 256) as u8]
}

/// The thin-ICE encryption of an 8-byte block under subkeys `ks`: the
/// block read as two big-endian halves, eight rounds from subkey 0, and the
/// halves written back big-endian, right half first.
pub open spec fn encrypt_block_spec(ks: Seq<Seq<u32>>, block: Seq<u8>) -> Seq<u8> {
    let lr = encrypt_state(ks, word_from_digits(block, 0), word_from_digits(block, 4), 8);
    digits_of_word(lr.1) + digits_of_word(lr.0)
}

/// Reading four bytes big-endian is taking them as base-256 digits.
proof fn lemma_be_is_digits(s: Seq<u8>, offset: int)
    requires
        0 <= offset,
        offset + 4 <= s.len(),
    ensures
        be_u32_at(s, offset) == word_from_digits(s, offset),
{
    let (b0, b1, b2, b3) = (s[offset], s[offset + 1], s[offset + 2], s[offset + 3]);
    assert((((b0 as u32) << 24u32) | ((b1 as u32) << 16u32) | ((b2 as u32) << 8u32) | (b3 as u32))
        == b0 * 16777216 + b1 * 65536 + b2 * 256 + b3) by (bit_vector);
}

/// Writing a word big-endian is writing its base-256 digits.
proof fn lemma_digits_are_be(v: u32)
    ensures
        digits_of_word(v) == be_bytes(v),
{
    assert((v >> 24u32) as u8 == (v / 16777216) as u8 && (v >> 16u32) as u8 == (v / 65536 % 256) as u8
        && (v >> 8u32) as u8 == (v / 256 % 256) as u8 && v as u8 == (v % 256) as u8) by (bit_vector);
    assert(digits_of_word(v) =~= be_bytes(v));
}

/// A buffer of whole blocks encrypted block by block.
pub open spec fn encrypt_spec(ks: Seq<Seq<u32>>, data: Seq<u8>) -> Seq<u8> {
    Seq::new(
        data.len(),
        |k: int| encrypt_block_spec(ks, data.subrange(k / 8 * 8, k / 8 * 8 + 8))[k % 8],
    )
}

proof fn lemma_xor_cancel(a: u32, b: u32)
    ensures
        (a ^ b) ^ b == a,
{
    assert((a ^ b) ^ b == a) by (bit_vector);
}

proof fn lemma_be_round_trip(x: u32, y: u32)
    ensures
        be_u32_at(be_bytes(x) + be_bytes(y), 0) == x,
        be_u32_at(be_bytes(x) + be_bytes(y), 4) == y,
{
    let s = be_bytes(x) + be_bytes(y);
    assert(s[0] == (x >> 24u32) as u8 && s[1] == (x >> 16u32) as u8 && s[2] == (x >> 8u32) as u8 && s[3] == x as u8);
    assert(s[4] == (y >> 24u32) as u8 && s[5] == (y >> 16u32) as u8 && s[6] == (y >> 8u32) as u8 && s[7] == y as u8);
    assert(((((x >> 24u32) as u8 as u32) << 24u32) | (((x >> 16u32) as u8 as u32) << 16u32) | (((x >> 8u32) as u8 as u32)
        << 8u32) | ((x as u8) as u32)) == x) by (bit_vector);
    assert(((((y >> 24u32) as u8 as u32) << 24u32) | (((y >> 16u32) as u8 as u32) << 16u32) | (((y >> 8u32) as u8 as u32)
        << 8u32) | ((y as u8) as u32)) == y) by (bit_vector);
}

proof fn lemma_bytes_round_trip(b: Seq<u8>)
    requires
        b.len() == 8,
    ensures
        be_bytes(be_u32_at(b, 0)) + be_bytes(be_u32_at(b, 4)) == b,
{
    let (b0, b1, b2, b3) = (b[0], b[1], b[2], b[3]);
    let (b4, b5, b6, b7) = (b[4], b[5], b[6], b[7]);
    let v0 = be_u32_at(b, 0);
    let v4 = be_u32_at(b, 4);
    assert((v0 >> 24u32) as u8 == b0 && (v0 >> 16u32) as u8 == b1 && (v0 >> 8u32) as u8 == b2
        && v0 as u8 == b3) by (bit_vector)
        requires
            v0 == (((b0 as u32) << 24u32) | ((b1 as u32) << 16u32) | ((b2 as u32) << 8u32) | (
            b3 as u32)) as u32,
    ;
    assert((v4 >> 24u32) as u8 == b4 && (v4 >> 16u32) as u8 == b5 && (v4 >> 8u32) as u8 == b6
        && v4 as u8 == b7) by (bit_vector)
        requires
            v4 == (((b4 as u32) << 24u32) | ((b5 as u32) << 16u32) | ((b6 as u32) << 8u32) | (
            b7 as u32)) as u32,
    ;
    assert(be_bytes(v0) + be_bytes(v4) =~= b);
}

/// Decrypting an encryption state undoes its rounds, pair by pair.
proof fn lemma_decrypt_undoes_rounds(ks: Seq<Seq<u32>>, l: u32, r: u32, j: int)
    requires
        0 <= j,
        j % 2 == 0,
    ensures
        decrypt_rounds(ks, encrypt_state(ks, l, r, j).1, encrypt_state(ks, l, r, j).0, j - 1) == (r, l),
    decreases j,
{
    if j > 0 {
        let prev = encrypt_state(ks, l, r, j - 2);
        let cur = encrypt_state(ks, l, r, j);
        let f1 = ice_f_spec(prev.1, ks[j - 2]);
        let l2 = prev.0 ^ f1;
        let f2 = ice_f_spec(l2, ks[j - 1]);
        assert(cur == (l2, prev.1 ^ f2));
        lemma_xor_cancel(prev.1, f2);
        lemma_xor_cancel(prev.0, f1);
        assert(cur.1 ^ ice_f_spec(cur.0, ks[j - 1]) == prev.1);
        assert(cur.0 ^ ice_f_spec(prev.1, ks[j - 2]) == prev.0);
        lemma_decrypt_undoes_rounds(ks, l, r, j - 2);
    }
}

/// Decryption undoes thin-ICE encryption: a block encrypted under any
/// subkeys decrypts back to itself.
pub proof fn law_decrypt_block_inverts_encrypt(ks: Seq<Seq<u32>>, block: Seq<u8>)
    requires
        block.len() == 8,
    ensures
        decrypt_block_spec(ks, encrypt_block_spec(ks, block)) == block,
{
    lemma_be_is_digits(block, 0);
    lemma_be_is_digits(block, 4);
    let l = be_u32_at(block, 0);
    let r = be_u32_at(block, 4);
    let e = encrypt_state(ks, l, r, 8);
    lemma_digits_are_be(e.0);
    lemma_digits_are_be(e.1);
    lemma_be_round_trip(e.1, e.0);
    lemma_decrypt_undoes_rounds(ks, l, r, 8);
    lemma_bytes_round_trip(block);
}

/// The block of an encrypted buffer at a multiple `s` of 8 is the
/// encryption of the block of the buffer there.
proof fn lemma_encrypted_block(ks: Seq<Seq<u32>>, data: Seq<u8>, s: int)
    requires
        0 <= s,
        s % 8 == 0,
        s + 8 <= data.len(),
    ensures
        encrypt_spec(ks, data).subrange(s, s + 8) == encrypt_block_spec(ks, data.subrange(s, s + 8)),
{
    let e = encrypt_spec(ks, data);
    let blk = data.subrange(s, s + 8);
    assert forall|q: int| 0 <= q < 8 implies e.subrange(s, s + 8)[q] == encrypt_block_spec(ks, blk)[q] by {
        assert((s + q) / 8 * 8 == s && (s + q) % 8 == q) by (nonlinear_arith)
            requires
                s % 8 == 0,
                0 <= q < 8,
                0 <= s,
        ;
        assert(e[s + q] == encrypt_block_spec(ks, blk)[q]);
    }
    assert(e.subrange(s, s + 8) =~= encrypt_block_spec(ks, blk));
}

/// The byte at `k` of a decrypted encrypted buffer is the byte at `k` of
/// the buffer.
#[verifier::rlimit(60)]
#[verifier::spinoff_prover]
proof fn lemma_decrypt_encrypted_at(ks: Seq<Seq<u32>>, data: Seq<u8>, k: int)
    requires
        data.len() % 8 == 0,
        0 <= k < data.len(),
    ensures
        decrypt_spec(ks, encrypt_spec(ks, data))[k] == data[k],
{
    let e = encrypt_spec(ks, data);
    let s = k / 8 * 8;
    assert(s + 8 <= data.len() && s % 8 == 0 && 0 <= s && k % 8 == k - s) by (nonlinear_arith)
        requires
            0 <= k < data.len(),
            data.len() % 8 == 0,
            s == k / 8 * 8,
    ;
    let blk = data.subrange(s, s + 8);
    let eb = e.subrange(s, s + 8);
    lemma_encrypted_block(ks, data, s);
    law_decrypt_block_inverts_encrypt(ks, blk);
    assert(decrypt_block_spec(ks, eb) == blk);
    assert(decrypt_spec(ks, e)[k] == decrypt_block_spec(ks, eb)[k % 8]);
}

/// Decrypting a buffer of whole blocks undoes its thin-ICE encryption:
/// `decrypt_buffer` of `encrypt_spec(k.schedule(), data)` gives `data` back.
pub proof fn law_decrypt_inverts_encrypt(ks: Seq<Seq<u32>>, data: Seq<u8>)
    requires
        data.len() % 8 == 0,
    ensures
        decrypt_spec(ks, encrypt_spec(ks, data)) == data,
{
    let d = decrypt_spec(ks, encrypt_spec(ks, data));
    assert forall|k: int| 0 <= k < data.len() implies #[trigger] d[k] == data[k] by {
        lemma_decrypt_encrypted_at(ks, data, k);
    }
    assert(d =~= data);
}

/// Decryption works block by block: decrypting two whole-block buffers one
/// after the other gives the decryption of the two joined.
#[verifier::rlimit(40)]
pub proof fn lemma_decrypt_concat(ks: Seq<Seq<u32>>, a: Seq<u8>, b: Seq<u8>)
    requires
        a.len() % 8 == 0,
        b.len() % 8 == 0,
    ensures
        decrypt_spec(ks, a + b) == decrypt_spec(ks, a) + decrypt_spec(ks, b),
{
    let ab = a + b;
    assert forall|k: int| 0 <= k < ab.len() implies #[trigger] decrypt_spec(ks, ab)[k] == (decrypt_spec(ks, a) + decrypt_spec(ks, b))[k] by {
        let s = k / 8 * 8;
        if k < a.len() {
            assert(s + 8 <= a.len()) by (nonlinear_arith)
                requires
                    0 <= k < a.len(),
                    a.len() % 8 == 0,
                    s == k / 8 * 8,
            ;
            assert(ab.subrange(s, s + 8) =~= a.subrange(s, s + 8));
        } else {
            let j = k - a.len();
            let sj = j / 8 * 8;
            assert(s == a.len() + sj && k % 8 == j % 8) by (nonlinear_arith)
                requires
                    k >= a.len(),
                    a.len() % 8 == 0,
                    s == k / 8 * 8,
                    j == k - a.len(),
                    sj == j / 8 * 8,
                    j >= 0,
            ;
            assert(sj + 8 <= b.len()) by (nonlinear_arith)
                requires
                    0 <= j < b.len(),
                    b.len() % 8 == 0,
                    sj == j / 8 * 8,
            ;
            assert(ab.subrange(s, s + 8) =~= b.subrange(sj, sj + 8));
        }
    }
    assert(decrypt_spec(ks, ab) =~= decrypt_spec(ks, a) + decrypt_spec(ks, b));
}

} // verus!
