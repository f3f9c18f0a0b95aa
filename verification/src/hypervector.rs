//! Binary hypervectors: `dim` bits packed little-endian into 64-bit words.

use vstd::prelude::*;
use crate::bits::{
    count_ones_of,
    lemma_bits_eq, ones_below, bit_at, bit_of, count_ne, lemma_count_ne_complement, lemma_count_ne_flat,
    lemma_count_ne_monotone, lemma_flip_bit, lemma_total_ones_is_bit_count, lemma_low_mask_bit, lemma_or_single_bit, lemma_total_ones_bound,
    lemma_total_ones_push, lemma_xor_bit, lemma_zero_bit, popcount, total_ones, words_for,
};
use vstd::bytes::{spec_u64_to_le_bytes, u64_to_le_bytes};
use vstd::arithmetic::div_mod::{lemma_fundamental_div_mod, lemma_fundamental_div_mod_converse};
use crate::entropy::{next_random_word, thread_rng_handle};

verus! {

/// `ws` with the bits of its last word past `dim` cleared.
pub open spec fn masked(ws: Seq<u64>, dim: nat) -> Seq<u64> {
    if dim % 64 == 0 {
        ws
    } else {
        ws.update(ws.len() - 1, ws.last() & (((1u64 << ((dim % 64) as u64)) - 1u64) as u64))
    }
}

#[derive(Debug)]
pub struct Hypervector {
    pub dim: usize,
    pub words: Vec<u64>,
}

/// The `+1 / -1` rendering of the first `dim` bits of `h`.
pub open spec fn i8_bits_of(h: Hypervector) -> Seq<i8> {
    Seq::new(h.dim as nat, |i: int| if h.bit(i) { 1i8 } else { -1i8 })
}

/// `hv` packs `bits` into `dim` bits: bit `i` is set iff `i < dim` and `bits[i] == 1`.
pub open spec fn decodes_i8(hv: Hypervector, dim: nat, bits: Seq<i8>) -> bool {
    &&& hv.dim == dim
    &&& hv.words@.len() == words_for(dim)
    &&& forall|i: int|
        0 <= i < words_for(dim) * 64 ==> #[trigger] hv.bit(i) == (i < dim && i < bits.len()
            && bits[i] == 1i8)
}

/// Word-wise XOR of the first `n` words of `a` and `b`.
pub open spec fn xor_words(a: Seq<u64>, b: Seq<u64>, n: nat) -> Seq<u64> {
    Seq::new(n, |i: int| a[i] ^ b[i])
}

/// Where bit `i` of a `dim`-bit vector lives past the last used bit: in the
/// last word, at or above `dim % 64`.
pub proof fn lemma_padding_position(dim: nat, i: int)
    requires
        dim <= i < words_for(dim) * 64,
    ensures
        dim % 64 != 0,
        i / 64 == words_for(dim) - 1,
        i % 64 >= dim % 64,
{
    assert(dim % 64 != 0 && i / 64 == words_for(dim) - 1 && i % 64 >= dim % 64)
        by (nonlinear_arith)
        requires
            dim <= i < ((dim + 63) / 64) * 64,
            words_for(dim) == (dim + 63) / 64,
    ;
}

/// Bit `i` sits in word `i / 64`, which is below `words_for(dim)` when `i < dim`.
pub proof fn lemma_word_in_range(dim: nat, i: int)
    requires
        0 <= i < dim,
    ensures
        0 <= i / 64 < words_for(dim),
{
    assert(0 <= i / 64 < (dim + 63) / 64) by (nonlinear_arith)
        requires
            0 <= i < dim,
    ;
}

/// Two positions with the same word index and the same bit offset are equal.
pub proof fn lemma_same_position(i: int, j: int)
    requires
        0 <= i,
        0 <= j,
        i / 64 == j / 64,
        i % 64 == j % 64,
    ensures
        i == j,
{
    assert(i == j) by (nonlinear_arith)
        requires
            0 <= i,
            0 <= j,
            i / 64 == j / 64,
            i % 64 == j % 64,
    ;
}

impl Hypervector {
    /// Bit `i` of the vector.
    pub open spec fn bit(&self, i: int) -> bool {
        bit_at(self.words@, i)
    }

    /// Every bit stored past position `dim` is clear.
    pub open spec fn clean_padding(&self) -> bool {
        forall|i: int| self.dim <= i < self.words@.len() * 64 ==> !#[trigger] self.bit(i)
    }

    /// The vector holds exactly the words its dimension needs, with clear padding.
    pub open spec fn wf(&self) -> bool {
        &&& self.words@.len() == words_for(self.dim as nat)
        &&& self.clean_padding()
    }

    /// The all-zero vector of dimension `dim`.
    pub fn new(dim: usize) -> (hv: Hypervector)
        requires
            dim <= usize::MAX - 63,
        ensures
            hv.dim == dim,
            hv.words@ == Seq::new(words_for(dim as nat), |i: int| 0u64),
            hv.wf(),
    {
        let wc = (dim + 63) / 64;
        let hv = Hypervector { dim, words: vec![0u64; wc] };
        assert(hv.words@ =~= Seq::new(words_for(dim as nat), |i: int| 0u64));
        assert forall|i: int| hv.dim <= i < hv.words@.len() * 64 implies !#[trigger] hv.bit(i) by {
            lemma_padding_position(dim as nat, i);
            lemma_zero_bit((i % 64) as u64);
        }
        hv
    }

    /// A vector of dimension `dim` whose used bits come from the thread-local
    /// random generator; the padding past `dim` is cleared.
    pub fn random(dim: usize) -> (hv: Hypervector)
        requires
            dim <= usize::MAX - 63,
        ensures
            hv.dim == dim,
            hv.wf(),
            exists|drawn: Seq<u64>| drawn.len() == words_for(dim as nat) && hv.words@ == masked(drawn, dim as nat),
    {
        let word_count = (dim + 63) / 64;
        let mut words = vec![0u64; word_count];
        let mut rng = thread_rng_handle();
        let mut k: usize = 0;
        while k < word_count
            invariant
                k <= word_count,
                words@.len() == word_count,
            decreases word_count - k,
        {
            let w = next_random_word(&mut rng);
            words.set(k, w);
            k = k + 1;
        }
        let ghost drawn = words@;
        let hv = Hypervector::from_drawn_words(dim, words);
        assert(drawn.len() == words_for(dim as nat) && hv.words@ == masked(drawn, dim as nat));
        hv
    }

    /// The vector of dimension `dim` with the drawn `words`, the padding past
    /// `dim` cleared.
    pub fn from_drawn_words(dim: usize, words: Vec<u64>) -> (hv: Hypervector)
        requires
            dim <= usize::MAX - 63,
            words@.len() == words_for(dim as nat),
        ensures
            hv.dim == dim,
            hv.wf(),
            hv.words@ == masked(words@, dim as nat),
    {
        let mut words = words;
        let word_count = (dim + 63) / 64;
        let rem = dim % 64;
        if rem != 0 {
            let r64 = rem as u64;
            assert(1u64 << r64 >= 1u64) by (bit_vector)
                requires
                    r64 < 64,
            ;
            let last = words[word_count - 1] & ((1u64 << r64) - 1);
            let ghost before = words@;
            words.set(word_count - 1, last);
            let hv = Hypervector { dim, words };
            assert(hv.words@[word_count - 1] == last);
            assert forall|i: int| hv.dim <= i < hv.words@.len() * 64 implies !#[trigger] hv.bit(
                i,
            ) by {
                lemma_padding_position(dim as nat, i);
                assert(i / 64 == word_count - 1);
                lemma_low_mask_bit(before[word_count - 1], rem as u64, (i % 64) as u64);
            }
            assert(hv.words@ =~= masked(before, dim as nat));
            hv
        } else {
            let hv = Hypervector { dim, words };
            assert forall|i: int| hv.dim <= i < hv.words@.len() * 64 implies !#[trigger] hv.bit(
                i,
            ) by {
                lemma_padding_position(dim as nat, i);
            }
            hv
        }
    }

    /// Packs a `+1 / -1` bit list: bit `i` is set iff `i < dim` and `bits[i] == 1`.
    pub fn from_i8_bits(dim: usize, bits: &[i8]) -> (hv: Hypervector)
        requires
            dim <= usize::MAX - 63,
        ensures
            decodes_i8(hv, dim as nat, bits@),
            hv.wf(),
    {
        let word_count = (dim + 63) / 64;
        let mut words = vec![0u64; word_count];
        let n = if bits.len() < dim { bits.len() } else { dim };
        assert forall|j: int| 0 <= j < word_count * 64 implies #[trigger] bit_at(words@, j) == (j
            < 0 && bits@[j] == 1i8) by {
            lemma_word_in_range(word_count as nat * 64, j);
            assert(j / 64 < word_count) by (nonlinear_arith)
                requires
                    0 <= j < word_count * 64,
            ;
            lemma_zero_bit((j % 64) as u64);
        }
        let mut i: usize = 0;
        while i < n
            invariant
                n <= dim,
                n <= bits@.len(),
                i <= n,
                word_count == words_for(dim as nat),
                words@.len() == word_count,
                forall|j: int|
                    0 <= j < word_count * 64 ==> #[trigger] bit_at(words@, j) == (j < i
                        && bits@[j] == 1i8),
            decreases n - i,
        {
            if bits[i] == 1 {
                proof {
                    lemma_word_in_range(dim as nat, i as int);
                }
                let wi = i / 64;
                let b = (i % 64) as u64;
                let old_words = Ghost(words@);
                let nw = words[wi] | (1u64 << b);
                words.set(wi, nw);
                assert forall|j: int| 0 <= j < word_count * 64 implies #[trigger] bit_at(words@, j)
                    == (j < i + 1 && bits@[j] == 1i8) by {
                    assert(bit_at(old_words@, j) == (j < i && bits@[j] == 1i8));
                    if j / 64 == wi as int {
                        assert(words@[wi as int] == nw);
                        lemma_or_single_bit(old_words@[wi as int], b, (j % 64) as u64);
                        if j % 64 == i % 64 {
                            lemma_same_position(i as int, j);
                        }
                        if j == i {
                            assert(j % 64 == b);
                        }
                    } else {
                        assert(j != i);
                        assert(words@[j / 64] == old_words@[j / 64]);
                    }
                }
            } else {
                assert forall|j: int| 0 <= j < word_count * 64 implies #[trigger] bit_at(words@, j)
                    == (j < i + 1 && bits@[j] == 1i8) by {
                    assert(j == i ==> bits@[j] != 1i8);
                }
            }
            i = i + 1;
        }
        let hv = Hypervector { dim, words };
        assert forall|i: int| hv.dim <= i < hv.words@.len() * 64 implies !#[trigger] hv.bit(i) by {
        }
        hv
    }

    /// Number of words a vector of this dimension uses.
    fn word_count(&self) -> (wc: usize)
        requires
            self.dim <= usize::MAX - 63,
        ensures
            wc == words_for(self.dim as nat),
    {
        (self.dim + 63) / 64
    }

    /// Binding: the word-wise XOR of the two vectors over this vector's words.
    pub fn bind(&self, other: &Hypervector) -> (r: Hypervector)
        requires
            self.dim <= usize::MAX - 63,
            self.words@.len() >= words_for(self.dim as nat),
            other.words@.len() >= words_for(self.dim as nat),
        ensures
            r.dim == self.dim,
            r.words@ == xor_words(self.words@, other.words@, words_for(self.dim as nat)),
    {
        let wc = self.word_count();
        let mut words = vec![0u64; wc];
        let mut i: usize = 0;
        while i < wc
            invariant
                i <= wc,
                wc == words_for(self.dim as nat),
                self.words@.len() >= wc,
                other.words@.len() >= wc,
                words@.len() == wc,
                forall|j: int| 0 <= j < i ==> words@[j] == self.words@[j] ^ other.words@[j],
            decreases wc - i,
        {
            words.set(i, self.words[i] ^ other.words[i]);
            i = i + 1;
        }
        assert(words@ =~= xor_words(self.words@, other.words@, wc as nat));
        Hypervector { dim: self.dim, words }
    }

    /// Unbinding is binding again: XOR is its own inverse.
    pub fn unbind(&self, other: &Hypervector) -> (r: Hypervector)
        requires
            self.dim <= usize::MAX - 63,
            self.words@.len() >= words_for(self.dim as nat),
            other.words@.len() >= words_for(self.dim as nat),
        ensures
            r.dim == self.dim,
            r.words@ == xor_words(self.words@, other.words@, words_for(self.dim as nat)),
    {
        self.bind(other)
    }

    /// The bits as a `+1 / -1` list of length `dim`.
    pub fn to_i8_bits(&self) -> (bits: Vec<i8>)
        requires
            self.words@.len() >= words_for(self.dim as nat),
        ensures
            bits@ == i8_bits_of(*self),
    {
        let mut bits = vec![1i8; self.dim];
        let mut i: usize = 0;
        while i < self.dim
            invariant
                i <= self.dim,
                self.words@.len() >= words_for(self.dim as nat),
                bits@.len() == self.dim,
                forall|j: int| 0 <= j < i ==> #[trigger] bits@[j] == if self.bit(j) {
                    1i8
                } else {
                    -1i8
                },
                forall|j: int| i <= j < self.dim ==> #[trigger] bits@[j] == 1i8,
            decreases self.dim - i,
        {
            proof {
                lemma_word_in_range(self.dim as nat, i as int);
            }
            let w = self.words[i / 64];
            let sh = (i % 64) as u64;
            proof {
                assert((w >> sh) & 1u64 == 0u64 <==> !((w >> sh) & 1u64 == 1u64)) by (bit_vector);
            }
            if (w >> sh) & 1 == 0 {
                bits.set(i, -1);
            }
            i = i + 1;
        }
        assert(bits@ =~= i8_bits_of(*self));
        bits
    }

    /// A vector built from the given dimension and words, unchanged.
    pub fn from_raw(dim: usize, words: Vec<u64>) -> (hv: Hypervector)
        ensures
            hv.dim == dim,
            hv.words == words,
    {
        Hypervector { dim, words }
    }
}

/// Position that lands on `j` when every bit moves `s` places up (mod `dim`).
pub open spec fn rotate_source(j: int, s: int, dim: int) -> int {
    (j + dim - s) % dim
}

/// `r` holds the bits of `h` rotated up by `shift % h.dim` places, with clear
/// padding; a rotation by a multiple of `dim` gives back `h` unchanged.
pub open spec fn is_rotation_of(r: Hypervector, h: Hypervector, shift: nat) -> bool {
    let s = (shift % (h.dim as nat)) as int;
    &&& r.dim == h.dim
    &&& if s == 0 {
        r.words@ == h.words@
    } else {
        &&& r.words@.len() == words_for(h.dim as nat)
        &&& forall|j: int|
            0 <= j < words_for(h.dim as nat) * 64 ==> #[trigger] r.bit(j) == (j < h.dim && h.bit(
                rotate_source(j, s, h.dim as int),
            ))
    }
}

proof fn lemma_rotate_inverse(i: int, s: int, dim: int)
    requires
        0 <= i < dim,
        0 < s < dim,
    ensures
        0 <= (i + s) % dim < dim,
        rotate_source((i + s) % dim, s, dim) == i,
{
    if i + s < dim {
        assert((i + s) % dim == i + s) by (nonlinear_arith)
            requires
                0 <= i + s < dim,
        ;
        assert((i + s + dim - s) % dim == i) by (nonlinear_arith)
            requires
                0 <= i < dim,
        ;
    } else {
        assert((i + s) % dim == i + s - dim) by (nonlinear_arith)
            requires
                dim <= i + s < 2 * dim,
        ;
        assert((i + s - dim + dim - s) % dim == i) by (nonlinear_arith)
            requires
                0 <= i < dim,
        ;
    }
}

proof fn lemma_rotate_source_range(j: int, s: int, dim: int)
    requires
        0 <= j < dim,
        0 < s < dim,
    ensures
        0 <= rotate_source(j, s, dim) < dim,
        (rotate_source(j, s, dim) + s) % dim == j,
{
    let src = rotate_source(j, s, dim);
    if j >= s {
        assert(src == j - s) by (nonlinear_arith)
            requires
                src == (j + dim - s) % dim,
                0 <= j - s < dim,
                dim > 0,
        ;
        assert((j - s + s) % dim == j) by (nonlinear_arith)
            requires
                0 <= j < dim,
        ;
    } else {
        assert(src == j + dim - s) by (nonlinear_arith)
            requires
                src == (j + dim - s) % dim,
                0 <= j + dim - s < dim,
        ;
        assert((j + dim - s + s) % dim == j) by (nonlinear_arith)
            requires
                0 <= j < dim,
        ;
    }
}

impl Hypervector {
    /// Rotates every bit up by `shift % dim` places, wrapping around at `dim`.
    pub fn permute(&self, shift: usize) -> (r: Hypervector)
        requires
            0 < self.dim <= usize::MAX / 2,
            self.words@.len() >= words_for(self.dim as nat),
        ensures
            is_rotation_of(r, *self, shift as nat),
    {
        let s = shift % self.dim;
        if s == 0 {
            return self.clone();
        }
        let wc = self.word_count();
        let mut result = vec![0u64; wc];
        assert forall|j: int| 0 <= j < wc * 64 implies !#[trigger] bit_at(result@, j) by {
            assert(j / 64 < wc) by (nonlinear_arith)
                requires
                    0 <= j < wc * 64,
            ;
            lemma_zero_bit((j % 64) as u64);
        }
        let mut i: usize = 0;
        while i < self.dim
            invariant
                0 < s < self.dim,
                self.dim <= usize::MAX / 2,
                i <= self.dim,
                wc == words_for(self.dim as nat),
                self.words@.len() >= wc,
                result@.len() == wc,
                forall|j: int|
                    0 <= j < wc * 64 ==> #[trigger] bit_at(result@, j) == (j < self.dim
                        && rotate_source(j, s as int, self.dim as int) < i && self.bit(
                        rotate_source(j, s as int, self.dim as int),
                    )),
            decreases self.dim - i,
        {
            proof {
                lemma_word_in_range(self.dim as nat, i as int);
                lemma_rotate_inverse(i as int, s as int, self.dim as int);
            }
            let src_w = i / 64;
            let src_b = (i % 64) as u64;
            let w = self.words[src_w];
            proof {
                assert((w >> src_b) & 1u64 != 1u64 ==> (w >> src_b) & 1u64 == 0u64) by (bit_vector);
            }
            let dst = (i + s) % self.dim;
            if (w >> src_b) & 1 == 1 {
                proof {
                    lemma_word_in_range(self.dim as nat, dst as int);
                }
                let dst_w = dst / 64;
                let dst_b = (dst % 64) as u64;
                let ghost old_res = result@;
                let nw = result[dst_w] | (1u64 << dst_b);
                result.set(dst_w, nw);
                assert forall|j: int| 0 <= j < wc * 64 implies #[trigger] bit_at(result@, j) == (j
                    < self.dim && rotate_source(j, s as int, self.dim as int) < i + 1 && self.bit(
                    rotate_source(j, s as int, self.dim as int),
                )) by {
                    assert(bit_at(old_res, j) == (j < self.dim && rotate_source(
                        j,
                        s as int,
                        self.dim as int,
                    ) < i && self.bit(rotate_source(j, s as int, self.dim as int))));
                    if j < self.dim {
                        lemma_rotate_source_range(j, s as int, self.dim as int);
                    }
                    if j / 64 == dst_w as int {
                        assert(result@[dst_w as int] == nw);
                        lemma_or_single_bit(old_res[dst_w as int], dst_b, (j % 64) as u64);
                        if j % 64 == dst as int % 64 {
                            lemma_same_position(dst as int, j);
                        }
                    } else {
                        assert(result@[j / 64] == old_res[j / 64]);
                        assert(j != dst);
                    }
                }
            } else {
                assert forall|j: int| 0 <= j < wc * 64 implies #[trigger] bit_at(result@, j) == (j
                    < self.dim && rotate_source(j, s as int, self.dim as int) < i + 1 && self.bit(
                    rotate_source(j, s as int, self.dim as int),
                )) by {
                    if j < self.dim {
                        lemma_rotate_source_range(j, s as int, self.dim as int);
                    }
                }
            }
            i = i + 1;
        }
        let r = Hypervector { dim: self.dim, words: result };
        assert forall|j: int| 0 <= j < words_for(self.dim as nat) * 64 implies #[trigger] r.bit(j)
            == (j < self.dim && self.bit(rotate_source(j, s as int, self.dim as int))) by {
            if j < self.dim {
                lemma_rotate_source_range(j, s as int, self.dim as int);
            }
        }
        r
    }
}

/// How many of the first `k` vectors of `others` have bit `b` of word `w` set
/// (a vector too short to have word `w` counts as a clear bit).
pub open spec fn votes(others: Seq<&Hypervector>, w: int, b: u64, k: int) -> nat
    decreases k,
{
    if k <= 0 {
        0
    } else {
        votes(others, w, b, k - 1) + if w < others[k - 1].words@.len() && bit_of(
            others[k - 1].words@[w],
            b,
        ) {
            1nat
        } else {
            0nat
        }
    }
}

/// Votes for bit `b` of word `w` in a bundle of `h` with `others`.
pub open spec fn bundle_count(h: Hypervector, others: Seq<&Hypervector>, w: int, b: u64) -> nat {
    (if bit_of(h.words@[w], b) { 1nat } else { 0nat }) + votes(others, w, b, others.len() as int)
}

/// The majority threshold of a bundle of `1 + n` vectors, as the bundling code
/// computes it (`u32` total halved, compared in `u16`).
pub open spec fn bundle_threshold(n: nat) -> u16 {
    ((((1 + n) as u32) / 2) as u16) as u16
}

/// A bit collects at most one vote per vector.
pub proof fn lemma_votes_bound(others: Seq<&Hypervector>, w: int, b: u64, k: int)
    requires
        0 <= k,
    ensures
        votes(others, w, b, k) <= k,
    decreases k,
{
    if k > 0 {
        lemma_votes_bound(others, w, b, k - 1);
    }
}

proof fn lemma_votes_monotone(others: Seq<&Hypervector>, w: int, b: u64, k: int, m: int)
    requires
        0 <= k <= m,
    ensures
        votes(others, w, b, k) <= votes(others, w, b, m),
    decreases m - k,
{
    if k < m {
        lemma_votes_monotone(others, w, b, k, m - 1);
    }
}

/// No vector votes for a bit that all of them leave clear.
proof fn lemma_votes_zero(others: Seq<&Hypervector>, w: int, b: u64, k: int)
    requires
        0 <= k <= others.len(),
        forall|j: int| 0 <= j < k && w < others[j].words@.len() ==> !bit_of(#[trigger] others[j].words@[w], b),
    ensures
        votes(others, w, b, k) == 0,
    decreases k,
{
    if k > 0 {
        lemma_votes_zero(others, w, b, k - 1);
    }
}

/// The bundle of well-formed vectors of one dimension is well formed: no
/// vector votes for a padding bit.
pub proof fn lemma_bundle_wf(r: Hypervector, h: Hypervector, others: Seq<&Hypervector>)
    requires
        is_bundle_of(r, h, others),
        h.wf(),
        forall|k: int| 0 <= k < others.len() ==> (#[trigger] others[k]).dim == h.dim && others[k].wf(),
    ensures
        r.wf(),
{
    assert forall|i: int| r.dim <= i < r.words@.len() * 64 implies !#[trigger] r.bit(i) by {
        let w = i / 64;
        let b = (i % 64) as u64;
        assert(0 <= w < words_for(h.dim as nat)) by (nonlinear_arith)
            requires
                0 <= i < r.words@.len() * 64,
                r.words@.len() == words_for(h.dim as nat),
                w == i / 64,
        ;
        assert(!h.bit(i));
        assert forall|j: int| 0 <= j < others.len() && w < others[j].words@.len() implies !bit_of(
            #[trigger] others[j].words@[w],
            b,
        ) by {
            assert(!others[j].bit(i));
        }
        lemma_votes_zero(others, w, b, others.len() as int);
        assert(bundle_count(h, others, w, b) == 0);
        assert(bit_of(r.words@[w], b) == (bundle_count(h, others, w, b) > bundle_threshold(others.len())));
    }
}

proof fn lemma_votes_views(a: Seq<&Hypervector>, b: Seq<&Hypervector>, w: int, bit: u64, k: int)
    requires
        0 <= k <= a.len(),
        a.len() == b.len(),
        forall|j: int| 0 <= j < a.len() ==> (#[trigger] a[j])@ == b[j]@,
    ensures
        votes(a, w, bit, k) == votes(b, w, bit, k),
    decreases k,
{
    if k > 0 {
        lemma_votes_views(a, b, w, bit, k - 1);
        assert(a[k - 1].words@ == b[k - 1].words@);
    }
}

/// Being a bundle depends only on the views of the vectors bundled.
pub proof fn lemma_bundle_views(
    r: Hypervector,
    h: Hypervector,
    others: Seq<&Hypervector>,
    h2: Hypervector,
    others2: Seq<&Hypervector>,
)
    requires
        is_bundle_of(r, h, others),
        h2@ == h@,
        others.len() == others2.len(),
        forall|j: int| 0 <= j < others.len() ==> (#[trigger] others[j])@ == others2[j]@,
    ensures
        is_bundle_of(r, h2, others2),
{
    assert forall|w: int, b: u64| 0 <= w < words_for(h2.dim as nat) && b < 64 implies #[trigger] bit_of(
        r.words@[w],
        b,
    ) == (bundle_count(h2, others2, w, b) > bundle_threshold(others2.len())) by {
        lemma_votes_views(others, others2, w, b, others.len() as int);
        assert(bundle_count(h, others, w, b) == bundle_count(h2, others2, w, b));
    }
}

/// `r` is the bit-wise majority bundle of `h` with `others`.
pub open spec fn is_bundle_of(r: Hypervector, h: Hypervector, others: Seq<&Hypervector>) -> bool {
    &&& r.dim == h.dim
    &&& r.words@.len() == words_for(h.dim as nat)
    &&& forall|w: int, b: u64|
        0 <= w < words_for(h.dim as nat) && b < 64 ==> #[trigger] bit_of(r.words@[w], b) == (
        bundle_count(h, others, w, b) > bundle_threshold(others.len()))
}

/// The words of each vector.
pub open spec fn words_of(vs: Seq<Hypervector>) -> Seq<Seq<u64>> {
    vs.map_values(|h: Hypervector| h.words@)
}

/// Votes for bit `b` of word `w` among the first `k` word lists of `cs`.
pub open spec fn word_votes(cs: Seq<Seq<u64>>, w: int, b: u64, k: int) -> nat
    decreases k,
{
    if k <= 0 {
        0
    } else {
        word_votes(cs, w, b, k - 1) + if w < cs[k - 1].len() && bit_of(cs[k - 1][w], b) {
            1nat
        } else {
            0nat
        }
    }
}

/// `r` is the `dim`-bit majority bundle of the word lists `cs`, the first
/// of them leading: a bit is set iff more than half of the lists have it.
pub open spec fn bundles_words(r: Seq<u64>, cs: Seq<Seq<u64>>, dim: nat) -> bool {
    &&& r.len() == words_for(dim)
    &&& forall|w: int, b: u64|
        0 <= w < words_for(dim) && b < 64 ==> #[trigger] bit_of(r[w], b) == (word_votes(
            cs,
            w,
            b,
            cs.len() as int,
        ) > bundle_threshold((cs.len() - 1) as nat))
}

/// The words of any well-formed `dim`-bit vector: the right length, and no
/// bit set past `dim`.
pub open spec fn any_vector_words(dim: nat, w: Seq<u64>) -> bool {
    &&& w.len() == words_for(dim)
    &&& forall|i: int| dim <= i < w.len() * 64 ==> !#[trigger] bit_at(w, i)
}

/// The majority bundle of the word lists `cs` (see `bundles_words`).
pub open spec fn bundle_of_words(cs: Seq<Seq<u64>>, dim: nat) -> Seq<u64> {
    choose|r: Seq<u64>| bundles_words(r, cs, dim)
}

/// The bundle of word lists is unique, so any bundle is `bundle_of_words`.
pub proof fn lemma_bundle_of_words(r: Seq<u64>, cs: Seq<Seq<u64>>, dim: nat)
    requires
        bundles_words(r, cs, dim),
    ensures
        bundle_of_words(cs, dim) == r,
{
    let c = bundle_of_words(cs, dim);
    assert(bundles_words(c, cs, dim));
    assert forall|w: int| 0 <= w < r.len() implies c[w] == r[w] by {
        assert forall|j: u64| j < 64 implies bit_of(c[w], j) == bit_of(r[w], j) by {
            assert(bit_of(c[w], j) == (word_votes(cs, w, j, cs.len() as int) > bundle_threshold((cs.len() - 1) as nat)));
            assert(bit_of(r[w], j) == (word_votes(cs, w, j, cs.len() as int) > bundle_threshold((cs.len() - 1) as nat)));
        }
        lemma_bits_eq(c[w], r[w]);
    }
    assert(c =~= r);
}

/// Vectors with the same view have the same dimension and are equally well formed.
pub proof fn lemma_same_view_wf(a: Hypervector, b: Hypervector)
    requires
        a@ == b@,
        a.wf(),
    ensures
        b.dim == a.dim,
        b.wf(),
{
    assert(a.words@ == b.words@);
    assert forall|i: int| b.dim <= i < b.words@.len() * 64 implies !#[trigger] b.bit(i) by {
        assert(!a.bit(i));
    }
}

/// A well-formed vector's words are the words of some well-formed vector.
pub proof fn lemma_wf_any_words(h: Hypervector)
    requires
        h.wf(),
    ensures
        any_vector_words(h.dim as nat, h.words@),
{
    assert forall|i: int| h.dim <= i < h.words@.len() * 64 implies !#[trigger] bit_at(h.words@, i) by {
        assert(!h.bit(i));
    }
}

proof fn lemma_word_votes_split(h: Hypervector, others: Seq<&Hypervector>, cs: Seq<Seq<u64>>, w: int, b: u64, k: int)
    requires
        0 <= w < h.words@.len(),
        0 <= k <= others.len(),
        cs.len() == others.len() + 1,
        cs[0] == h.words@,
        forall|j: int| 0 <= j < others.len() ==> cs[j + 1] == (#[trigger] others[j]).words@,
    ensures
        word_votes(cs, w, b, k + 1) == (if bit_of(h.words@[w], b) { 1nat } else { 0nat }) + votes(
            others,
            w,
            b,
            k,
        ),
    decreases k,
{
    if k > 0 {
        lemma_word_votes_split(h, others, cs, w, b, k - 1);
        assert(cs[k] == others[k - 1].words@);
        assert(word_votes(cs, w, b, k + 1) == word_votes(cs, w, b, k) + if w < cs[k].len() && bit_of(cs[k][w], b) {
            1nat
        } else {
            0nat
        });
        assert(votes(others, w, b, k) == votes(others, w, b, k - 1) + if w < others[k - 1].words@.len() && bit_of(
            others[k - 1].words@[w],
            b,
        ) {
            1nat
        } else {
            0nat
        });
    } else {
        assert(word_votes(cs, w, b, 0) == 0);
        assert(votes(others, w, b, 0) == 0);
        assert(word_votes(cs, w, b, 1) == word_votes(cs, w, b, 0) + if w < cs[0].len() && bit_of(cs[0][w], b) {
            1nat
        } else {
            0nat
        });
    }
}

/// A bundle of a vector with others, read as word lists.
pub proof fn lemma_bundle_words(r: Hypervector, h: Hypervector, others: Seq<&Hypervector>, cs: Seq<Seq<u64>>)
    requires
        is_bundle_of(r, h, others),
        h.words@.len() >= words_for(h.dim as nat),
        cs.len() == others.len() + 1,
        cs[0] == h.words@,
        forall|j: int| 0 <= j < others.len() ==> cs[j + 1] == (#[trigger] others[j]).words@,
    ensures
        bundles_words(r.words@, cs, h.dim as nat),
{
    assert forall|w: int, b: u64| 0 <= w < words_for(h.dim as nat) && b < 64 implies #[trigger] bit_of(
        r.words@[w],
        b,
    ) == (word_votes(cs, w, b, cs.len() as int) > bundle_threshold((cs.len() - 1) as nat)) by {
        lemma_word_votes_split(h, others, cs, w, b, others.len() as int);
        assert(bit_of(r.words@[w], b) == (bundle_count(h, others, w, b) > bundle_threshold(others.len())));
    }
}

impl Hypervector {
    /// Bit-wise majority of this vector and `others`: a bit is set iff more
    /// than half of the `1 + others.len()` vectors have it set.
    pub fn bundle(&self, others: &[&Hypervector]) -> (r: Hypervector)
        requires
            self.dim <= usize::MAX - 63,
            self.words@.len() >= words_for(self.dim as nat),
            others@.len() < usize::MAX,
            forall|w: int, b: u64|
                0 <= w < words_for(self.dim as nat) && b < 64 ==> #[trigger] bundle_count(
                    *self,
                    others@,
                    w,
                    b,
                ) <= u16::MAX,
        ensures
            is_bundle_of(r, *self, others@),
    {
        let total = (1 + others.len()) as u32;
        let threshold = total / 2;
        let thr16 = threshold as u16;
        let wc = self.word_count();
        let mut result = vec![0u64; wc];
        let mut w: usize = 0;
        while w < wc
            invariant
                w <= wc,
                wc == words_for(self.dim as nat),
                self.words@.len() >= wc,
                result@.len() == wc,
                thr16 == bundle_threshold(others@.len()),
                forall|w2: int, b: u64|
                    0 <= w2 < wc && b < 64 ==> #[trigger] bundle_count(*self, others@, w2, b)
                        <= u16::MAX,
                forall|w2: int, b: u64|
                    0 <= w2 < w && b < 64 ==> #[trigger] bit_of(result@[w2], b) == (bundle_count(
                        *self,
                        others@,
                        w2,
                        b,
                    ) > thr16),
            decreases wc - w,
        {
            let self_word = self.words[w];
            let mut rw: u64 = 0;
            let mut b: u64 = 0;
            assert forall|b2: u64| b2 < 64 implies !bit_of(rw, b2) by {
                lemma_zero_bit(b2);
            }
            while b < 64
                invariant
                    b <= 64,
                    w < wc,
                    self_word == self.words@[w as int],
                    thr16 == bundle_threshold(others@.len()),
                    forall|b2: u64| b2 < 64 ==> #[trigger] bundle_count(*self, others@, w as int, b2)
                        <= u16::MAX,
                    forall|b2: u64|
                        b2 < 64 ==> #[trigger] bit_of(rw, b2) == (b2 < b && bundle_count(
                            *self,
                            others@,
                            w as int,
                            b2,
                        ) > thr16),
                decreases 64 - b,
            {
                proof {
                    assert((self_word >> b) & 1u64 != 1u64 ==> (self_word >> b) & 1u64 == 0u64)
                        by (bit_vector);
                }
                let mut count: u16 = ((self_word >> b) & 1) as u16;
                let mut k: usize = 0;
                assert(bundle_count(*self, others@, w as int, b) <= u16::MAX);
                while k < others.len()
                    invariant
                        k <= others@.len(),
                        w < wc,
                        b < 64,
                        self_word == self.words@[w as int],
                        bundle_count(*self, others@, w as int, b) <= u16::MAX,
                        count == (if bit_of(self_word, b) { 1nat } else { 0nat }) + votes(
                            others@,
                            w as int,
                            b,
                            k as int,
                        ),
                    decreases others@.len() - k,
                {
                    proof {
                        lemma_votes_monotone(others@, w as int, b, k as int + 1, others@.len() as int);
                    }
                    let other = others[k];
                    if w < other.words.len() {
                        let ow = other.words[w];
                        proof {
                            assert((ow >> b) & 1u64 != 1u64 ==> (ow >> b) & 1u64 == 0u64) by (bit_vector);
                        }
                        count = count + ((ow >> b) & 1) as u16;
                    }
                    k = k + 1;
                }
                if count > thr16 {
                    let ghost old_rw = rw;
                    rw = rw | (1u64 << b);
                    assert forall|b2: u64| b2 < 64 implies #[trigger] bit_of(rw, b2) == (b2 < b + 1
                        && bundle_count(*self, others@, w as int, b2) > thr16) by {
                        lemma_or_single_bit(old_rw, b, b2);
                    }
                }
                b = b + 1;
            }
            let ghost old_result = result@;
            result.set(w, rw);
            assert forall|w2: int, b2: u64|
                0 <= w2 < w + 1 && b2 < 64 implies #[trigger] bit_of(result@[w2], b2) == (
            bundle_count(*self, others@, w2, b2) > thr16) by {
                if w2 < w {
                    assert(result@[w2] == old_result[w2]);
                }
            }
            w = w + 1;
        }
        Hypervector { dim: self.dim, words: result }
    }
}

/// Little-endian bytes of each word in turn.
pub open spec fn words_le_bytes(s: Seq<u64>) -> Seq<u8>
    decreases s.len(),
{
    if s.len() == 0 {
        Seq::empty()
    } else {
        words_le_bytes(s.drop_last()) + spec_u64_to_le_bytes(s.last())
    }
}

/// The number of leading word pairs that a pairwise count looks at.
pub open spec fn pair_limit(a_len: nat, b_len: nat, n: nat) -> nat {
    let m = if a_len < b_len { a_len } else { b_len };
    if m < n { m } else { n }
}

/// Total number of set bits over all words.
pub fn popcount_chunks(words: &[u64]) -> (total: u64)
    requires
        words@.len() * 64 <= u64::MAX,
    ensures
        total == total_ones(words@),
{
    let mut total: u64 = 0;
    let mut i: usize = 0;
    while i < words.len()
        invariant
            i <= words@.len(),
            words@.len() * 64 <= u64::MAX,
            total == total_ones(words@.take(i as int)),
        decreases words@.len() - i,
    {
        proof {
            assert(words@.take(i as int + 1) =~= words@.take(i as int).push(words@[i as int]));
            lemma_total_ones_push(words@.take(i as int), words@[i as int]);
            lemma_total_ones_bound(words@.take(i as int + 1));
            assert((i as int + 1) * 64 <= words@.len() * 64) by (nonlinear_arith)
                requires
                    i < words@.len(),
            ;
        }
        total = total + count_ones_of(words[i]) as u64;
        i = i + 1;
    }
    assert(words@.take(words@.len() as int) =~= words@);
    total
}

/// Number of differing bits over the first `min(a.len(), b.len(), n)` word pairs.
pub fn popcount_xor_pair(a: &[u64], b: &[u64], n: usize) -> (total: u64)
    requires
        pair_limit(a@.len(), b@.len(), n as nat) * 64 <= u64::MAX,
    ensures
        total == total_ones(xor_words(a@, b@, pair_limit(a@.len(), b@.len(), n as nat))),
{
    let m = if a.len() < b.len() { a.len() } else { b.len() };
    let limit = if m < n { m } else { n };
    let mut total: u64 = 0;
    let mut i: usize = 0;
    while i < limit
        invariant
            limit == pair_limit(a@.len(), b@.len(), n as nat),
            limit <= a@.len(),
            limit <= b@.len(),
            i <= limit,
            limit * 64 <= u64::MAX,
            total == total_ones(xor_words(a@, b@, i as nat)),
        decreases limit - i,
    {
        proof {
            assert(xor_words(a@, b@, i as nat + 1) =~= xor_words(a@, b@, i as nat).push(
                a@[i as int] ^ b@[i as int],
            ));
            lemma_total_ones_push(xor_words(a@, b@, i as nat), a@[i as int] ^ b@[i as int]);
            lemma_total_ones_bound(xor_words(a@, b@, i as nat + 1));
            assert((i as int + 1) * 64 <= limit * 64) by (nonlinear_arith)
                requires
                    i < limit,
            ;
        }
        total = total + count_ones_of(a[i] ^ b[i]) as u64;
        i = i + 1;
    }
    total
}

impl Hypervector {
    /// The words as bytes, each word little-endian, in word order.
    pub fn to_bytes(&self) -> (bytes: Vec<u8>)
        ensures
            bytes@ == words_le_bytes(self.words@),
    {
        let mut bytes: Vec<u8> = Vec::with_capacity(self.dim / 8);
        let mut i: usize = 0;
        while i < self.words.len()
            invariant
                i <= self.words@.len(),
                bytes@ == words_le_bytes(self.words@.take(i as int)),
            decreases self.words@.len() - i,
        {
            let le = u64_to_le_bytes(self.words[i]);
            let ghost before = bytes@;
            let mut k: usize = 0;
            while k < 8
                invariant
                    k <= 8,
                    le@.len() == 8,
                    bytes@ == before + le@.take(k as int),
                decreases 8 - k,
            {
                bytes.push(le[k]);
                assert(le@.take(k as int + 1) =~= le@.take(k as int).push(le@[k as int]));
                k = k + 1;
            }
            assert(le@.take(8) =~= le@);
            assert(self.words@.take(i as int + 1).drop_last() =~= self.words@.take(i as int));
            i = i + 1;
        }
        assert(self.words@.take(self.words@.len() as int) =~= self.words@);
        bytes
    }
}

/// Bit `j` after balancing `h` towards `t`: the first `needed` positions below
/// `dim` whose bit differs from `t` are set to `t`; all others keep their bit.
pub open spec fn balanced_bit(h: Hypervector, t: bool, needed: nat, j: int) -> bool {
    if 0 <= j < h.dim && h.bit(j) != t && count_ne(h.words@, t, j as nat) < needed {
        t
    } else {
        h.bit(j)
    }
}

/// `r` is `h` with its number of ones moved to `h.dim / 2` by flipping the
/// lowest bits that disagree with the direction of the move.
pub open spec fn is_balance_of(r: Hypervector, h: Hypervector) -> bool {
    let ones = total_ones(h.words@);
    let half = (h.dim / 2) as nat;
    &&& r.dim == h.dim
    &&& r.words@.len() == h.words@.len()
    &&& if ones == half {
        r.words@ == h.words@
    } else {
        let t = ones < half;
        let needed = if t { (half - ones) as nat } else { (ones - half) as nat };
        forall|j: int|
            0 <= j < h.words@.len() * 64 ==> #[trigger] r.bit(j) == balanced_bit(h, t, needed, j)
    }
}

pub open spec fn min_nat(a: nat, b: nat) -> nat {
    if a < b { a } else { b }
}

/// Counting set bits of a balanced vector: each flip moves the count by one.
proof fn lemma_balanced_count(r: Hypervector, h: Hypervector, t: bool, needed: nat, n: nat)
    requires
        n <= h.dim,
        forall|j: int| 0 <= j < h.dim ==> #[trigger] r.bit(j) == balanced_bit(h, t, needed, j),
    ensures
        count_ne(r.words@, false, n) as int == count_ne(h.words@, false, n) as int + if t {
            min_nat(count_ne(h.words@, t, n), needed) as int
        } else {
            -(min_nat(count_ne(h.words@, t, n), needed) as int)
        },
    decreases n,
{
    if n > 0 {
        lemma_balanced_count(r, h, t, needed, (n - 1) as nat);
        assert(r.bit(n - 1) == balanced_bit(h, t, needed, n - 1));
    }
}

impl Hypervector {
    /// Moves the number of ones to exactly `dim / 2` by flipping the lowest
    /// bits that disagree with the needed direction.
    pub fn balance_density(&self) -> (r: Hypervector)
        requires
            self.words@.len() >= words_for(self.dim as nat),
            self.words@.len() * 64 <= usize::MAX,
        ensures
            is_balance_of(r, *self),
            self.wf() ==> r.wf() && total_ones(r.words@) == self.dim / 2,
    {
        proof {
            assert(self.words@.len() * 64 <= u64::MAX);
            lemma_total_ones_bound(self.words@);
        }
        let ones = popcount_chunks(self.words.as_slice()) as usize;
        let half = self.dim / 2;
        if ones == half {
            let r = self.clone();
            proof {
                assert(ones == total_ones(self.words@));
                assert(total_ones(r.words@) == total_ones(self.words@));
                if self.wf() {
                    assert forall|j: int| r.dim <= j < r.words@.len() * 64 implies !#[trigger] r.bit(
                        j,
                    ) by {
                        assert(!self.bit(j));
                    }
                }
            }
            return r;
        }
        let need_ones = ones < half;
        let needed = if need_ones { half - ones } else { ones - half };
        let mut result = self.clone();
        let mut remaining = needed;
        let mut bit: usize = 0;
        let ghost h = *self;
        while bit < self.dim && remaining != 0
            invariant
                h == *self,
                result.dim == self.dim,
                result.words@.len() == self.words@.len(),
                self.words@.len() >= words_for(self.dim as nat),
                bit <= self.dim,
                remaining as nat + min_nat(count_ne(self.words@, need_ones, bit as nat), needed as nat)
                    == needed,
                forall|j: int|
                    0 <= j < self.words@.len() * 64 ==> #[trigger] result.bit(j) == if j < bit {
                        balanced_bit(h, need_ones, needed as nat, j)
                    } else {
                        self.bit(j)
                    },
            decreases self.dim - bit,
        {
            proof {
                lemma_word_in_range(self.dim as nat, bit as int);
            }
            let wi = bit / 64;
            let bi = (bit % 64) as u64;
            let w = result.words[wi];
            proof {
                assert((w >> bi) & 1u64 != 1u64 ==> (w >> bi) & 1u64 == 0u64) by (bit_vector);
                assert(result.bit(bit as int) == self.bit(bit as int));
            }
            let current = (w >> bi) & 1;
            if (need_ones && current == 1) || (!need_ones && current == 0) {
                assert forall|j: int| 0 <= j < self.words@.len() * 64 implies #[trigger] result.bit(
                    j,
                ) == if j < bit + 1 {
                    balanced_bit(h, need_ones, needed as nat, j)
                } else {
                    self.bit(j)
                } by {}
            } else {
                let ghost old_words = result.words@;
                let ghost old_res = result;
                let nw = w ^ (1u64 << bi);
                result.words.set(wi, nw);
                remaining = remaining - 1;
                assert forall|j: int| 0 <= j < self.words@.len() * 64 implies #[trigger] result.bit(
                    j,
                ) == if j < bit + 1 {
                    balanced_bit(h, need_ones, needed as nat, j)
                } else {
                    self.bit(j)
                } by {
                    assert(old_res.bit(j) == if j < bit {
                        balanced_bit(h, need_ones, needed as nat, j)
                    } else {
                        self.bit(j)
                    });
                    if j / 64 == wi as int {
                        assert(result.words@[wi as int] == nw);
                        lemma_flip_bit(w, bi, (j % 64) as u64);
                        if j % 64 == bit as int % 64 {
                            lemma_same_position(bit as int, j);
                        }
                    } else {
                        assert(result.words@[j / 64] == old_words[j / 64]);
                        assert(j != bit);
                    }
                }
            }
            bit = bit + 1;
        }
        proof {
            assert forall|j: int| 0 <= j < self.words@.len() * 64 implies #[trigger] result.bit(j)
                == balanced_bit(h, need_ones, needed as nat, j) by {
                if j >= bit && j < self.dim {
                    if remaining == 0 {
                        lemma_count_ne_monotone(self.words@, need_ones, bit as nat, j as nat);
                    }
                }
            }
            if self.wf() {
                let n = self.dim as nat;
                let full = (64 * self.words@.len()) as nat;
                lemma_total_ones_is_bit_count(self.words@);
                lemma_total_ones_is_bit_count(result.words@);
                assert(words_for(n) * 64 == full);
                assert forall|j: int| n <= j < full implies #[trigger] bit_at(self.words@, j)
                    == false by {
                    assert(!self.bit(j));
                }
                lemma_count_ne_flat(self.words@, false, n, full);
                assert forall|j: int| n <= j < full implies #[trigger] bit_at(result.words@, j)
                    == false by {
                    assert(result.bit(j) == balanced_bit(h, need_ones, needed as nat, j));
                    assert(!self.bit(j));
                }
                lemma_count_ne_flat(result.words@, false, n, full);
                lemma_balanced_count(result, h, need_ones, needed as nat, n);
                lemma_count_ne_complement(self.words@, n);
                assert forall|j: int| result.dim <= j < result.words@.len() * 64 implies !#[trigger] result.bit(
                    j,
                ) by {
                    assert(result.bit(j) == balanced_bit(h, need_ones, needed as nat, j));
                    assert(!self.bit(j));
                }
            }
        }
        result
    }
}

/// Number of differing bits between `a` and `b` over the words both dimensions use.
pub open spec fn mismatch_count(a: Hypervector, b: Hypervector) -> nat {
    let wa = words_for(a.dim as nat);
    let wb = words_for(b.dim as nat);
    let wc = if wa < wb { wa } else { wb };
    total_ones(xor_words(a.words@, b.words@, pair_limit(a.words@.len(), b.words@.len(), wc)))
}

impl Hypervector {
    /// The number of differing bits that the Hamming distance divides by `dim`:
    /// compared over the words that both dimensions use.
    pub fn hamming_mismatches(&self, other: &Hypervector) -> (m: u64)
        requires
            self.dim <= usize::MAX - 63,
            other.dim <= usize::MAX - 63,
        ensures
            m == mismatch_count(*self, *other),
    {
        let wa = self.word_count();
        let wb = other.word_count();
        let wc = if wa < wb { wa } else { wb };
        proof {
            assert(wc * 64 <= self.dim + 63) by (nonlinear_arith)
                requires
                    wc <= wa,
                    wa == (self.dim + 63) / 64,
            ;
        }
        popcount_xor_pair(self.words.as_slice(), other.words.as_slice(), wc)
    }
}

impl View for Hypervector {
    type V = (usize, Seq<u64>);

    /// The dimension and the packed words.
    open spec fn view(&self) -> (usize, Seq<u64>) {
        (self.dim, self.words@)
    }
}

impl Clone for Hypervector {
    fn clone(&self) -> (res: Self)
        ensures
            res@ == self@,
    {
        Hypervector { dim: self.dim, words: self.words.clone() }
    }
}

/// Binding twice with the same vector gives back the original words.
pub proof fn law_bind_self_inverse(a: Seq<u64>, b: Seq<u64>, n: nat)
    requires
        n <= a.len(),
        n <= b.len(),
    ensures
        xor_words(xor_words(a, b, n), b, n) == a.take(n as int),
{
    assert forall|i: int| 0 <= i < n implies #[trigger] xor_words(xor_words(a, b, n), b, n)[i]
        == a.take(n as int)[i] by {
        let x = a[i];
        let y = b[i];
        assert((x ^ y) ^ y == x) by (bit_vector);
    }
    assert(xor_words(xor_words(a, b, n), b, n) =~= a.take(n as int));
}

/// Binding is commutative.
pub proof fn law_bind_commutative(a: Seq<u64>, b: Seq<u64>, n: nat)
    ensures
        xor_words(a, b, n) == xor_words(b, a, n),
{
    assert forall|i: int| 0 <= i < n implies #[trigger] xor_words(a, b, n)[i] == xor_words(
        b,
        a,
        n,
    )[i] by {
        let x = a[i];
        let y = b[i];
        assert(x ^ y == y ^ x) by (bit_vector);
    }
    assert(xor_words(a, b, n) =~= xor_words(b, a, n));
}

/// Binding two well-formed vectors of one dimension gives a well-formed vector.
pub proof fn law_bind_keeps_wf(a: Hypervector, b: Hypervector, r: Hypervector)
    requires
        a.wf(),
        b.wf(),
        a.dim == b.dim,
        r.dim == a.dim,
        r.words@ == xor_words(a.words@, b.words@, words_for(a.dim as nat)),
    ensures
        r.wf(),
{
    assert forall|i: int| r.dim <= i < r.words@.len() * 64 implies !#[trigger] r.bit(i) by {
        lemma_padding_position(a.dim as nat, i);
        assert(!a.bit(i));
        assert(!b.bit(i));
        lemma_xor_bit(a.words@[i / 64], b.words@[i / 64], (i % 64) as u64);
    }
}

/// The distance of a vector to itself is zero: XOR with itself has no ones.
pub proof fn law_self_distance_zero(a: Seq<u64>, n: nat)
    requires
        n <= a.len(),
    ensures
        total_ones(xor_words(a, a, n)) == 0,
    decreases n,
{
    if n > 0 {
        law_self_distance_zero(a, (n - 1) as nat);
        assert(xor_words(a, a, n).drop_last() =~= xor_words(a, a, (n - 1) as nat));
        let x = a[n - 1];
        assert(x ^ x == 0u64) by (bit_vector);
        lemma_ones_below_zero(64);
    }
}

proof fn lemma_ones_below_zero(k: nat)
    requires
        k <= 64,
    ensures
        ones_below(0u64, k) == 0,
    decreases k,
{
    if k > 0 {
        lemma_ones_below_zero((k - 1) as nat);
        lemma_zero_bit((k - 1) as u64);
    }
}

/// Two vectors of one dimension with the same words-length and the same bits
/// everywhere have the same words.
pub proof fn lemma_same_bits_same_words(a: Seq<u64>, b: Seq<u64>)
    requires
        a.len() == b.len(),
        forall|j: int| 0 <= j < a.len() * 64 ==> #[trigger] bit_at(a, j) == bit_at(b, j),
    ensures
        a == b,
{
    assert forall|k: int| 0 <= k < a.len() implies a[k] == b[k] by {
        assert forall|bb: u64| bb < 64 implies bit_of(a[k], bb) == bit_of(b[k], bb) by {
            let j = 64 * k + bb;
            assert(j / 64 == k && j % 64 == bb) by (nonlinear_arith)
                requires
                    j == 64 * k + bb,
                    0 <= k,
                    bb < 64,
            ;
            assert(j < a.len() * 64) by (nonlinear_arith)
                requires
                    j == 64 * k + bb,
                    k < a.len(),
                    bb < 64,
            ;
            assert(bit_at(a, j) == bit_at(b, j));
        }
        lemma_bits_eq(a[k], b[k]);
    }
    assert(a =~= b);
}

/// Rotating by `s` and then by a shift that completes a full turn gives the
/// original vector back.
pub proof fn law_permute_reversible(h: Hypervector, r1: Hypervector, r2: Hypervector, s: nat, m: nat)
    requires
        h.wf(),
        h.dim > 0,
        is_rotation_of(r1, h, s),
        is_rotation_of(r2, r1, m),
        (s + m) % (h.dim as nat) == 0,
    ensures
        r2.words@ == h.words@,
        r2.dim == h.dim,
{
    let d = h.dim as int;
    let s1 = (s % (h.dim as nat)) as int;
    let m1 = (m % (h.dim as nat)) as int;
    let si = s as int;
    let mi = m as int;
    assert(s1 == si % d && m1 == mi % d && (si + mi) % d == 0);
    lemma_fundamental_div_mod(si, d);
    lemma_fundamental_div_mod(mi, d);
    let q = si / d + mi / d;
    assert(si + mi == q * d + (s1 + m1)) by (nonlinear_arith)
        requires
            si == d * (si / d) + s1,
            mi == d * (mi / d) + m1,
            q == si / d + mi / d,
    ;
    if 0 < s1 + m1 < d {
        lemma_fundamental_div_mod_converse(si + mi, d, q, s1 + m1);
    }
    if s1 + m1 > d {
        assert(si + mi == (q + 1) * d + (s1 + m1 - d)) by (nonlinear_arith)
            requires
                si + mi == q * d + (s1 + m1),
        ;
        lemma_fundamental_div_mod_converse(si + mi, d, q + 1, s1 + m1 - d);
    }
    assert(s1 + m1 == 0 || s1 + m1 == d);
    if s1 != 0 {
        assert forall|j: int| 0 <= j < h.words@.len() * 64 implies #[trigger] bit_at(
            r2.words@,
            j,
        ) == bit_at(h.words@, j) by {
            assert(r2.bit(j) == (j < d && r1.bit(rotate_source(j, m1, d))));
            if j < d {
                let k = rotate_source(j, m1, d);
                lemma_rotate_source_range(j, m1, d);
                assert(0 <= k < d);
                assert(k < words_for(d as nat) * 64);
                assert(r1.bit(k) == h.bit(rotate_source(k, s1, d)));
                if j >= m1 {
                    lemma_fundamental_div_mod_converse(j + d - m1, d, 1, j - m1);
                    lemma_fundamental_div_mod_converse(k + d - s1, d, 0, j);
                } else {
                    lemma_fundamental_div_mod_converse(j + d - m1, d, 0, j + d - m1);
                    lemma_fundamental_div_mod_converse(k + d - s1, d, 1, j);
                }
            } else {
                assert(!h.bit(j));
            }
        }
        lemma_same_bits_same_words(r2.words@, h.words@);
    }
}

/// Packing the `+1 / -1` rendering of a well-formed vector gives back its words.
pub proof fn law_i8_roundtrip(h: Hypervector, r: Hypervector)
    requires
        h.wf(),
        decodes_i8(r, h.dim as nat, i8_bits_of(h)),
    ensures
        r.words@ == h.words@,
        r.dim == h.dim,
{
    assert forall|j: int| 0 <= j < h.words@.len() * 64 implies #[trigger] bit_at(r.words@, j)
        == bit_at(h.words@, j) by {
        assert(r.bit(j) == (j < h.dim && j < i8_bits_of(h).len() && i8_bits_of(h)[j] == 1i8));
        if j >= h.dim {
            assert(!h.bit(j));
        }
    }
    lemma_same_bits_same_words(r.words@, h.words@);
}

/// Bundling a vector with one other keeps exactly the bits set in both.
pub proof fn law_bundle_pair_is_and(h: Hypervector, o: &Hypervector, w: int, b: u64)
    requires
        0 <= w < h.words@.len(),
        w < o.words@.len(),
        b < 64,
    ensures
        (bundle_count(h, seq![o], w, b) > bundle_threshold(1)) == (bit_of(h.words@[w], b)
            && bit_of(o.words@[w], b)),
{
    assert((((1 + 1nat) as u32) / 2) as u16 == 1u16);
    reveal_with_fuel(votes, 2);
}

} // verus!
