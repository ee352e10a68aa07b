//! The two nucleotide alphabets, their 2-bit codes and the integer key of a seed.

use vstd::arithmetic::div_mod::{lemma_div_denominator, lemma_fundamental_div_mod_converse};
use vstd::arithmetic::power2::{lemma2_to64, lemma_pow2_adds, pow2};
use vstd::bits::lemma_u64_shr_is_div;
use vstd::prelude::*;

verus! {

/// Number of symbols in a seed.
pub const K: usize = 18;

/// Number of distinct seed keys: 4 to the power `K`.
pub const KEY_SPACE: u64 = 0x10_0000_0000;

/// One of the four unambiguous DNA bases.
#[derive(Clone, Copy, Debug, PartialEq, Eq, Structural)]
pub enum Nucleotide {
    A,
    T,
    C,
    G,
}

/// A DNA symbol that may also be a degenerate (IUPAC) code.
#[derive(Clone, Copy, Debug, PartialEq, Eq, Structural)]
pub enum NucleotideAmbiguous {
    A,
    C,
    G,
    T,
    M,
    R,
    W,
    S,
    Y,
    K,
    V,
    H,
    D,
    B,
    N,
}

/// The 2-bit code of a base: A=00, T=01, C=10, G=11.
pub open spec fn code_of(n: Nucleotide) -> nat {
    match n {
        Nucleotide::A => 0,
        Nucleotide::T => 1,
        Nucleotide::C => 2,
        Nucleotide::G => 3,
    }
}

/// The base whose code is `c` (only the low two bits of `c` count).
pub open spec fn base_of(c: nat) -> Nucleotide {
    if c % 4 == 0 {
        Nucleotide::A
    } else if c % 4 == 1 {
        Nucleotide::T
    } else if c % 4 == 2 {
        Nucleotide::C
    } else {
        Nucleotide::G
    }
}

/// The Watson-Crick partner of a base.
pub open spec fn complement_of(n: Nucleotide) -> Nucleotide {
    match n {
        Nucleotide::A => Nucleotide::T,
        Nucleotide::T => Nucleotide::A,
        Nucleotide::C => Nucleotide::G,
        Nucleotide::G => Nucleotide::C,
    }
}

/// 4 to the power `n`.
pub open spec fn pow4(n: nat) -> nat
    decreases n,
{
    if n == 0 {
        1
    } else {
        4 * pow4((n - 1) as nat)
    }
}

/// The key of a sequence of bases: its codes read as a base-4 number, first
/// symbol most significant.
pub open spec fn key_of(s: Seq<Nucleotide>) -> nat
    decreases s.len(),
{
    if s.len() == 0 {
        0
    } else {
        key_of(s.drop_last()) * 4 + code_of(s.last())
    }
}

/// What one roll step computes: drop the oldest symbol of `prev`, append `n`.
pub open spec fn roll_of(prev: u64, n: Nucleotide) -> nat {
    (prev as nat % pow4((K - 1) as nat)) * 4 + code_of(n)
}

pub fn nucleotide_code(n: Nucleotide) -> (r: u64)
    ensures
        r == code_of(n),
{
    match n {
        Nucleotide::A => 0b00,
        Nucleotide::T => 0b01,
        Nucleotide::C => 0b10,
        Nucleotide::G => 0b11,
    }
}

pub fn nucleotide_from_code(c: u64) -> (r: Nucleotide)
    ensures
        r == base_of(c as nat),
{
    match c % 4 {
        0 => Nucleotide::A,
        1 => Nucleotide::T,
        2 => Nucleotide::C,
        _ => Nucleotide::G,
    }
}

pub fn complement(n: Nucleotide) -> (r: Nucleotide)
    ensures
        r == complement_of(n),
{
    match n {
        Nucleotide::A => Nucleotide::T,
        Nucleotide::T => Nucleotide::A,
        Nucleotide::C => Nucleotide::G,
        Nucleotide::G => Nucleotide::C,
    }
}

/// Decoding the code of a base gives the base back.
pub proof fn lemma_code_round_trip(n: Nucleotide)
    ensures
        base_of(code_of(n)) == n,
        code_of(n) < 4,
{
}

pub proof fn lemma_pow4_18()
    ensures
        pow4(K as nat) == KEY_SPACE,
        pow4((K - 1) as nat) * 4 == KEY_SPACE,
{
    reveal_with_fuel(pow4, 19);
}

/// A key is below 4 to the power of the sequence's length.
pub proof fn lemma_key_bound(s: Seq<Nucleotide>)
    ensures
        key_of(s) < pow4(s.len()),
    decreases s.len(),
{
    if s.len() > 0 {
        lemma_key_bound(s.drop_last());
        let a = key_of(s.drop_last());
        let p = pow4((s.len() - 1) as nat);
        let c = code_of(s.last());
        assert(a * 4 + c < 4 * p) by (nonlinear_arith)
            requires
                a < p,
                c < 4,
        ;
    }
}

/// The first symbol contributes its code times 4 to the power of the rest's length.
pub proof fn lemma_key_first(s: Seq<Nucleotide>)
    requires
        s.len() > 0,
    ensures
        key_of(s) == code_of(s[0]) * pow4((s.len() - 1) as nat) + key_of(s.drop_first()),
    decreases s.len(),
{
    if s.len() > 1 {
        let t = s.drop_last();
        lemma_key_first(t);
        assert(t.drop_first() =~= s.drop_first().drop_last());
        assert(s.drop_first().last() == s.last());
        assert(t[0] == s[0]);
        assert(key_of(s) == key_of(t) * 4 + code_of(s.last()));
        assert(key_of(s.drop_first()) == key_of(t.drop_first()) * 4 + code_of(s.last()));
        let c0 = code_of(s[0]);
        let n = (s.len() - 2) as nat;
        assert(pow4((s.len() - 1) as nat) == 4 * pow4(n));
        assert(key_of(t) == c0 * pow4(n) + key_of(t.drop_first()));
        assert((c0 * pow4(n) + key_of(t.drop_first())) * 4 + code_of(s.last())
            == c0 * (4 * pow4(n)) + (key_of(t.drop_first()) * 4 + code_of(s.last())))
            by (nonlinear_arith);
        assert(key_of(s) == c0 * pow4((s.len() - 1) as nat) + key_of(s.drop_first()));
    } else {
        assert(s.drop_last().len() == 0);
        assert(s.drop_first().len() == 0);
        assert(s.last() == s[0]);
        assert(pow4(0) == 1);
        assert(key_of(s.drop_last()) == 0);
        assert(key_of(s.drop_first()) == 0);
        assert(key_of(s) == code_of(s[0]));
        assert(code_of(s[0]) * pow4(0) == code_of(s[0]));
    }
}

/// Two sequences of one length with the same key are equal.
pub proof fn lemma_key_injective(s1: Seq<Nucleotide>, s2: Seq<Nucleotide>)
    requires
        s1.len() == s2.len(),
        key_of(s1) == key_of(s2),
    ensures
        s1 == s2,
    decreases s1.len(),
{
    if s1.len() > 0 {
        let a = key_of(s1.drop_last());
        let b = key_of(s2.drop_last());
        let c = code_of(s1.last());
        let d = code_of(s2.last());
        assert(a == b && c == d) by (nonlinear_arith)
            requires
                a * 4 + c == b * 4 + d,
                c < 4,
                d < 4,
        ;
        lemma_code_round_trip(s1.last());
        lemma_code_round_trip(s2.last());
        lemma_key_injective(s1.drop_last(), s2.drop_last());
        assert(s1 =~= s1.drop_last().push(s1.last()));
        assert(s2 =~= s2.drop_last().push(s2.last()));
    } else {
        assert(s1 =~= s2);
    }
}

/// Distinct seeds of length `K` have distinct keys, each below 4 to the power `K`.
pub proof fn lemma_seed_keys_distinct(s1: Seq<Nucleotide>, s2: Seq<Nucleotide>)
    requires
        s1.len() == K,
        s2.len() == K,
        s1 != s2,
    ensures
        key_of(s1) != key_of(s2),
        key_of(s1) < KEY_SPACE,
        key_of(s2) < KEY_SPACE,
{
    if key_of(s1) == key_of(s2) {
        lemma_key_injective(s1, s2);
    }
    lemma_key_bound(s1);
    lemma_key_bound(s2);
    lemma_pow4_18();
}

/// Rolling the key of `s[0..K]` with `s[K]` gives the key of `s[1..K+1]`.
pub proof fn lemma_roll_equivalence(s: Seq<Nucleotide>)
    requires
        s.len() == K + 1,
    ensures
        key_of(s.subrange(0, K as int)) < KEY_SPACE,
        roll_of(key_of(s.subrange(0, K as int)) as u64, s[K as int]) == key_of(
            s.subrange(1, K as int + 1),
        ),
{
    let head = s.subrange(0, K as int);
    let tail = s.subrange(1, K as int);
    lemma_key_bound(head);
    lemma_key_bound(tail);
    lemma_pow4_18();
    lemma_key_first(head);
    assert(head.drop_first() =~= tail);
    let p = pow4((K - 1) as nat);
    let c0 = code_of(head[0]);
    let t = key_of(tail);
    assert((c0 * p + t) % p == t) by (nonlinear_arith)
        requires
            t < p,
    ;
    let next = s.subrange(1, K as int + 1);
    assert(next.drop_last() =~= tail);
    assert(next.last() == s[K as int]);
}

proof fn lemma_pow4_is_pow2(m: nat)
    ensures
        pow4(m) == pow2(2 * m),
    decreases m,
{
    lemma2_to64();
    if m > 0 {
        lemma_pow4_is_pow2((m - 1) as nat);
        lemma_pow2_adds((2 * (m - 1)) as nat, 2);
        assert((2 * (m - 1)) as nat + 2 == 2 * m);
    }
}

/// Digit `i` in base 4 of a key, counted from the most significant, is the
/// code of symbol `i`.
pub proof fn lemma_key_digit(s: Seq<Nucleotide>, i: int)
    requires
        0 <= i < s.len(),
    ensures
        (key_of(s) / pow4((s.len() - 1 - i) as nat)) % 4 == code_of(s[i]),
    decreases s.len(),
{
    let t = s.drop_last();
    let k = key_of(t);
    let c = code_of(s.last());
    assert(key_of(s) == k * 4 + c);
    lemma_fundamental_div_mod_converse(key_of(s) as int, 4, k as int, c as int);
    if i == s.len() - 1 {
        assert(pow4(0) == 1);
        assert(key_of(s) / 1 == key_of(s));
        assert(s[i] == s.last());
    } else {
        let p = pow4((s.len() - 2 - i) as nat);
        assert(pow4((s.len() - 1 - i) as nat) == 4 * p);
        lemma_pow4_mono(0, (s.len() - 2 - i) as nat);
        lemma_div_denominator(key_of(s) as int, 4, p as int);
        lemma_key_digit(t, i);
        assert(t[i] == s[i]);
        assert(key_of(s) / 4 == k);
        assert((key_of(s) / 4) / p == key_of(s) / (4 * p));
        assert(key_of(s) / pow4((s.len() - 1 - i) as nat) == k / p);
        assert((t.len() - 1 - i) as nat == (s.len() - 2 - i) as nat);
    }
}

/// Shifting right by two bits per place and masking two bits reads one
/// base-4 digit.
proof fn lemma_shift_mask_digit(r: u64, m: nat)
    requires
        m < 32,
    ensures
        ((r >> ((2 * m) as u64)) & 3u64) as nat == (r as nat / pow4(m)) % 4,
{
    lemma_u64_shr_is_div(r, (2 * m) as u64);
    lemma_pow4_is_pow2(m);
    let x = r >> ((2 * m) as u64);
    assert(x & 3u64 == x % 4) by (bit_vector);
}

/// Key of the `K` symbols of `w` starting at `start`.
pub(crate) fn key_at(w: &[Nucleotide], start: usize) -> (r: u64)
    requires
        start + K <= w@.len(),
    ensures
        r == key_of(w@.subrange(start as int, start + K)),
        r < KEY_SPACE,
{
    let mut u: u64 = 0;
    let mut i: usize = 0;
    proof {
        lemma_pow4_18();
    }
    while i < K
        invariant
            i <= K,
            start + K <= w@.len(),
            u == key_of(w@.subrange(start as int, start + i)),
            pow4(K as nat) == KEY_SPACE,
        decreases K - i,
    {
        proof {
            let s = w@.subrange(start as int, start + i);
            lemma_key_bound(s);
            lemma_pow4_mono(i as nat, (K - 1) as nat);
            assert(w@.subrange(start as int, start + i + 1).drop_last() =~= s);
            lemma_pow4_18();
        }
        assert(start + i < w@.len() && w@.len() == w.len());
        let c = nucleotide_code(w[start + i]);
        u = u * 4 + c;
        i = i + 1;
    }
    proof {
        lemma_key_bound(w@.subrange(start as int, start + K));
    }
    u
}

proof fn lemma_pow4_mono(a: nat, b: nat)
    requires
        a <= b,
    ensures
        pow4(a) <= pow4(b),
    decreases b,
{
    if a < b {
        lemma_pow4_mono(a, (b - 1) as nat);
    }
}

/// The key of an 18-symbol seed.
pub fn wmer_to_u64(kmer: &[Nucleotide; 18]) -> (r: u64)
    ensures
        r == key_of(kmer@),
        r < KEY_SPACE,
        forall|i: int|
            0 <= i < K ==> base_of(((r >> ((2 * (K - 1 - i)) as u64)) & 3u64) as nat)
                == #[trigger] kmer@[i],
{
    let s = kmer.as_slice();
    assert(s@.subrange(0, K as int) =~= kmer@);
    let r = key_at(s, 0);
    assert forall|i: int| 0 <= i < K implies base_of(
        ((r >> ((2 * (K - 1 - i)) as u64)) & 3u64) as nat,
    ) == #[trigger] kmer@[i] by {
        lemma_key_digit(kmer@, i);
        lemma_shift_mask_digit(r, (K - 1 - i) as nat);
        lemma_code_round_trip(kmer@[i]);
    }
    r
}

/// Shift `next_n` onto the key `prev`, keeping the last `K` symbols.
pub fn update_wmer_u64(prev: u64, next_n: Nucleotide) -> (r: u64)
    ensures
        r == roll_of(prev, next_n),
        r < KEY_SPACE,
{
    proof {
        lemma_pow4_18();
    }
    let low: u64 = prev % 0x4_0000_0000;
    let r = low * 4 + nucleotide_code(next_n);
    r
}

} // verus!
