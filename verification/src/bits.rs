//! Bit-level vocabulary shared by the hypervector code: single bits of a
//! word, bits of a packed word sequence, and population counts.

use vstd::prelude::*;

verus! {

/// Bit `b` (0 = least significant) of the word `w`.
pub open spec fn bit_of(w: u64, b: u64) -> bool {
    (w >> b) & 1u64 == 1u64
}

/// Bit `i` of a little-endian packed bit string (bit `i % 64` of word `i / 64`).
pub open spec fn bit_at(words: Seq<u64>, i: int) -> bool {
    bit_of(words[i / 64], (i % 64) as u64)
}

/// Number of words needed to hold `dim` bits.
pub open spec fn words_for(dim: nat) -> nat {
    (dim + 63) / 64
}

/// Number of set bits among bits `0..k` of `w`.
pub open spec fn ones_below(w: u64, k: nat) -> nat
    decreases k,
{
    if k == 0 {
        0
    } else {
        ones_below(w, (k - 1) as nat) + if bit_of(w, (k - 1) as u64) { 1nat } else { 0nat }
    }
}

/// Number of set bits of `w`.
pub open spec fn popcount(w: u64) -> nat {
    ones_below(w, 64)
}

/// Sum of the population counts of all words of `s`.
pub open spec fn total_ones(s: Seq<u64>) -> nat
    decreases s.len(),
{
    if s.len() == 0 {
        0
    } else {
        total_ones(s.drop_last()) + popcount(s.last())
    }
}

/// The number of set bits of `w`.
pub fn count_ones_of(w: u64) -> (r: u32)
    ensures
        r == popcount(w),
{
    let mut n: u32 = 0;
    let mut k: u64 = 0;
    while k < 64
        invariant
            k <= 64,
            n == ones_below(w, k as nat),
            n <= k,
        decreases 64 - k,
    {
        if (w >> k) & 1u64 == 1u64 {
            n = n + 1;
        }
        k = k + 1;
    }
    n
}

pub proof fn lemma_ones_below_bound(w: u64, k: nat)
    ensures
        ones_below(w, k) <= k,
    decreases k,
{
    if k > 0 {
        lemma_ones_below_bound(w, (k - 1) as nat);
    }
}

pub proof fn lemma_popcount_bound(w: u64)
    ensures
        popcount(w) <= 64,
{
    lemma_ones_below_bound(w, 64);
}

pub proof fn lemma_total_ones_bound(s: Seq<u64>)
    ensures
        total_ones(s) <= 64 * s.len(),
    decreases s.len(),
{
    if s.len() > 0 {
        lemma_total_ones_bound(s.drop_last());
        lemma_popcount_bound(s.last());
    }
}

pub proof fn lemma_total_ones_push(s: Seq<u64>, w: u64)
    ensures
        total_ones(s.push(w)) == total_ones(s) + popcount(w),
{
    assert(s.push(w).drop_last() =~= s);
}

pub proof fn lemma_xor_bit(a: u64, c: u64, b: u64)
    requires
        b < 64,
    ensures
        bit_of(a ^ c, b) == (bit_of(a, b) != bit_of(c, b)),
{
    assert(((a ^ c) >> b) & 1u64 == 1u64 <==> (((a >> b) & 1u64 == 1u64) != ((c >> b) & 1u64
        == 1u64))) by (bit_vector)
        requires
            b < 64,
    ;
}

pub proof fn lemma_or_single_bit(w: u64, b: u64, j: u64)
    requires
        b < 64,
        j < 64,
    ensures
        bit_of(w | (1u64 << b), j) == (j == b || bit_of(w, j)),
{
    assert((((w | (1u64 << b)) >> j) & 1u64 == 1u64) <==> (j == b || ((w >> j) & 1u64 == 1u64)))
        by (bit_vector)
        requires
            b < 64,
            j < 64,
    ;
}

pub proof fn lemma_zero_bit(b: u64)
    requires
        b < 64,
    ensures
        !bit_of(0u64, b),
{
    assert((0u64 >> b) & 1u64 == 0u64) by (bit_vector);
}

pub proof fn lemma_low_mask_bit(w: u64, rem: u64, j: u64)
    requires
        0 < rem < 64,
        j < 64,
    ensures
        bit_of(w & (((1u64 << rem) - 1u64) as u64), j) == (j < rem && bit_of(w, j)),
{
    assert(((((w & (((1u64 << rem) - 1u64) as u64)) >> j) & 1u64) == 1u64) <==> (j < rem && ((w
        >> j) & 1u64) == 1u64)) by (bit_vector)
        requires
            0 < rem < 64,
            j < 64,
    ;
}

/// A word whose bits `k..64` are all clear is zero above `k`.
proof fn lemma_high_bits_clear(x: u64, k: u64)
    requires
        k <= 64,
        forall|j: u64| k <= j < 64 ==> !bit_of(x, j),
    ensures
        x >> k == 0u64,
    decreases 64 - k,
{
    if k == 64 {
        assert(x >> 64u64 == 0u64) by (bit_vector);
    } else {
        lemma_high_bits_clear(x, (k + 1) as u64);
        assert(!bit_of(x, k));
        assert((x >> ((k + 1) as u64) == 0u64 && (x >> k) & 1u64 != 1u64) ==> x >> k == 0u64)
            by (bit_vector)
            requires
                k < 64,
        ;
    }
}

/// Two words with the same 64 bits are equal.
pub proof fn lemma_bits_eq(a: u64, c: u64)
    requires
        forall|j: u64| j < 64 ==> bit_of(a, j) == bit_of(c, j),
    ensures
        a == c,
{
    let x = a ^ c;
    assert forall|j: u64| 0 <= j < 64 implies !bit_of(x, j) by {
        lemma_xor_bit(a, c, j);
    }
    lemma_high_bits_clear(x, 0);
    assert(x >> 0u64 == 0u64 ==> a == c) by (bit_vector)
        requires
            x == a ^ c,
    ;
}

/// Number of positions `j < n` whose bit differs from `t`; with `t == false`
/// this is the number of set bits among the first `n`.
pub open spec fn count_ne(words: Seq<u64>, t: bool, n: nat) -> nat
    decreases n,
{
    if n == 0 {
        0
    } else {
        count_ne(words, t, (n - 1) as nat) + if bit_at(words, n - 1) != t { 1nat } else { 0nat }
    }
}

pub proof fn lemma_single_bit(b: u64, j: u64)
    requires
        b < 64,
        j < 64,
    ensures
        bit_of(1u64 << b, j) == (j == b),
{
    assert((((1u64 << b) >> j) & 1u64 == 1u64) <==> (j == b)) by (bit_vector)
        requires
            b < 64,
            j < 64,
    ;
}

pub proof fn lemma_flip_bit(w: u64, b: u64, j: u64)
    requires
        b < 64,
        j < 64,
    ensures
        bit_of(w ^ (1u64 << b), j) == (bit_of(w, j) != (j == b)),
{
    lemma_xor_bit(w, 1u64 << b, j);
    lemma_single_bit(b, j);
}

pub proof fn lemma_count_ne_monotone(words: Seq<u64>, t: bool, k: nat, n: nat)
    requires
        k <= n,
    ensures
        count_ne(words, t, k) <= count_ne(words, t, n),
    decreases n - k,
{
    if k < n {
        lemma_count_ne_monotone(words, t, k, (n - 1) as nat);
    }
}

pub proof fn lemma_count_ne_complement(words: Seq<u64>, n: nat)
    ensures
        count_ne(words, true, n) + count_ne(words, false, n) == n,
    decreases n,
{
    if n > 0 {
        lemma_count_ne_complement(words, (n - 1) as nat);
    }
}

/// Counts over a prefix depend only on the bits of that prefix.
pub proof fn lemma_count_ne_same_bits(a: Seq<u64>, b: Seq<u64>, t: bool, n: nat)
    requires
        forall|j: int| 0 <= j < n ==> #[trigger] bit_at(a, j) == bit_at(b, j),
    ensures
        count_ne(a, t, n) == count_ne(b, t, n),
    decreases n,
{
    if n > 0 {
        lemma_count_ne_same_bits(a, b, t, (n - 1) as nat);
        assert(bit_at(a, n - 1) == bit_at(b, n - 1));
    }
}

/// With no position in `k..n` differing from `t`, the count does not grow.
pub proof fn lemma_count_ne_flat(words: Seq<u64>, t: bool, k: nat, n: nat)
    requires
        k <= n,
        forall|j: int| k <= j < n ==> #[trigger] bit_at(words, j) == t,
    ensures
        count_ne(words, t, n) == count_ne(words, t, k),
    decreases n - k,
{
    if k < n {
        lemma_count_ne_flat(words, t, k, (n - 1) as nat);
        assert(bit_at(words, n - 1) == t);
    }
}

proof fn lemma_div_mod_64(q: int, r: int)
    requires
        0 <= q,
        0 <= r < 64,
    ensures
        (64 * q + r) / 64 == q,
        (64 * q + r) % 64 == r,
{
    assert((64 * q + r) / 64 == q && (64 * q + r) % 64 == r) by (nonlinear_arith)
        requires
            0 <= q,
            0 <= r < 64,
    ;
}

/// Within the last word, the set-bit count grows by the ones of that word.
proof fn lemma_count_last_word(s: Seq<u64>, m: nat)
    requires
        s.len() > 0,
        m <= 64,
    ensures
        count_ne(s, false, (64 * (s.len() - 1) + m) as nat) == count_ne(
            s,
            false,
            (64 * (s.len() - 1)) as nat,
        ) + ones_below(s.last(), m),
    decreases m,
{
    if m > 0 {
        lemma_count_last_word(s, (m - 1) as nat);
        let q = s.len() - 1;
        lemma_div_mod_64(q, m - 1);
        assert(bit_at(s, 64 * q + m - 1) == bit_of(s.last(), (m - 1) as u64));
    }
}

/// The word-wise total of ones equals the number of set bits over all words.
pub proof fn lemma_total_ones_is_bit_count(s: Seq<u64>)
    ensures
        total_ones(s) == count_ne(s, false, (64 * s.len()) as nat),
    decreases s.len(),
{
    if s.len() > 0 {
        let p = s.drop_last();
        lemma_total_ones_is_bit_count(p);
        assert forall|j: int| 0 <= j < 64 * p.len() implies #[trigger] bit_at(s, j) == bit_at(
            p,
            j,
        ) by {
            assert(j / 64 < p.len()) by (nonlinear_arith)
                requires
                    0 <= j < 64 * p.len(),
            ;
        }
        lemma_count_ne_same_bits(s, p, false, (64 * p.len()) as nat);
        lemma_count_last_word(s, 64);
    }
}

} // verus!
