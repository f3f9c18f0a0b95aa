//! The information triangle: three vertex hypervectors (syntax, semantics,
//! chaos) that absorb incoming patterns, and a running accumulator.

use vstd::prelude::*;
use crate::bits::{bit_at, bit_of, lemma_or_single_bit, lemma_zero_bit, words_for};
use crate::hypervector::{bundle_count, is_bundle_of, lemma_votes_bound, mismatch_count, Hypervector};

verus! {

pub struct InformationTriangle {
    pub dim: usize,
    pub vertex_syntax: Hypervector,
    pub vertex_semantics: Hypervector,
    pub vertex_chaos: Hypervector,
    pub accumulator: Hypervector,
    pub accumulator_count: u64,
}

/// Similarity of `a` to `p` is at least that of `b` to `p`, where similarity
/// is `1 - mismatches / dim` and a vertex of dimension 0 has no similarity
/// (every comparison with it is false).
pub open spec fn similarity_ge(a: Hypervector, b: Hypervector, p: Hypervector) -> bool {
    a.dim > 0 && b.dim > 0 && mismatch_count(a, p) * b.dim <= mismatch_count(b, p) * a.dim
}

/// Which vertex takes the pattern: 0 syntax, 1 semantics, 2 chaos. Ties go
/// to syntax first, then semantics.
pub open spec fn chosen_vertex(t: InformationTriangle, p: Hypervector) -> int {
    if similarity_ge(t.vertex_syntax, t.vertex_semantics, p) && similarity_ge(
        t.vertex_syntax,
        t.vertex_chaos,
        p,
    ) {
        0
    } else if similarity_ge(t.vertex_semantics, t.vertex_chaos, p) {
        1
    } else {
        2
    }
}

/// The vertex that takes a pattern is the one with the fewest mismatches
/// against it: syntax when it has no more than either other, semantics when
/// it has fewer than syntax and no more than chaos, chaos when it has fewer
/// than both.
pub proof fn law_chosen_vertex_is_most_similar(t: InformationTriangle, p: Hypervector)
    requires
        t.vertex_syntax.dim > 0,
        t.vertex_semantics.dim == t.vertex_syntax.dim,
        t.vertex_chaos.dim == t.vertex_syntax.dim,
    ensures
        0 <= chosen_vertex(t, p) <= 2,
        chosen_vertex(t, p) == 0 <==> (mismatch_count(t.vertex_syntax, p) <= mismatch_count(t.vertex_semantics, p)
            && mismatch_count(t.vertex_syntax, p) <= mismatch_count(t.vertex_chaos, p)),
        chosen_vertex(t, p) == 1 <==> (mismatch_count(t.vertex_semantics, p) < mismatch_count(t.vertex_syntax, p)
            && mismatch_count(t.vertex_semantics, p) <= mismatch_count(t.vertex_chaos, p)),
        chosen_vertex(t, p) == 2 <==> (mismatch_count(t.vertex_chaos, p) < mismatch_count(t.vertex_syntax, p)
            && mismatch_count(t.vertex_chaos, p) < mismatch_count(t.vertex_semantics, p)),
{
    let d = t.vertex_syntax.dim as int;
    let a = mismatch_count(t.vertex_syntax, p) as int;
    let b = mismatch_count(t.vertex_semantics, p) as int;
    let c = mismatch_count(t.vertex_chaos, p) as int;
    assert(a * d <= b * d <==> a <= b) by (nonlinear_arith) requires d > 0;
    assert(a * d <= c * d <==> a <= c) by (nonlinear_arith) requires d > 0;
    assert(b * d <= c * d <==> b <= c) by (nonlinear_arith) requires d > 0;
}

/// Accumulator bit after merging pattern bit `p` into accumulator bit `a`
/// with `c` patterns already absorbed: the sign of `c * (±1) + (±1)`, with
/// zero counting as set.
pub open spec fn merged_bit(c: u64, a: bool, p: bool) -> bool {
    if c == 0 {
        p
    } else if c == 1 {
        a || p
    } else {
        a
    }
}

/// The vertices can be compared with the pattern and bundled with it, and the
/// accumulator and pattern cover `dim` bits.
pub open spec fn can_ingest(t: InformationTriangle, p: Hypervector) -> bool {
    &&& t.dim <= usize::MAX - 63
    &&& p.dim <= usize::MAX - 63
    &&& t.vertex_syntax.dim <= usize::MAX - 63
    &&& t.vertex_semantics.dim <= usize::MAX - 63
    &&& t.vertex_chaos.dim <= usize::MAX - 63
    &&& t.vertex_syntax.words@.len() >= words_for(t.vertex_syntax.dim as nat)
    &&& t.vertex_semantics.words@.len() >= words_for(t.vertex_semantics.dim as nat)
    &&& t.vertex_chaos.words@.len() >= words_for(t.vertex_chaos.dim as nat)
    &&& t.accumulator.words@.len() >= words_for(t.dim as nat)
    &&& p.words@.len() >= words_for(t.dim as nat)
    &&& t.accumulator_count < u64::MAX
}

/// Compares `a` and `b` as `similarity_ge` does, on mismatch counts.
fn similarity_at_least(a: &Hypervector, b: &Hypervector, p: &Hypervector) -> (r: bool)
    requires
        a.dim <= usize::MAX - 63,
        b.dim <= usize::MAX - 63,
        p.dim <= usize::MAX - 63,
    ensures
        r == similarity_ge(*a, *b, *p),
{
    if a.dim == 0 || b.dim == 0 {
        return false;
    }
    let ma = a.hamming_mismatches(p) as u128;
    let mb = b.hamming_mismatches(p) as u128;
    let da = a.dim as u128;
    let db = b.dim as u128;
    proof {
        assert(ma * db <= u128::MAX) by (nonlinear_arith)
            requires
                ma <= u64::MAX,
                db <= u64::MAX,
        ;
        assert(mb * da <= u128::MAX) by (nonlinear_arith)
            requires
                mb <= u64::MAX,
                da <= u64::MAX,
        ;
    }
    ma * db <= mb * da
}

/// `after` is `before` having ingested `pattern`: the pattern is bundled
/// into the vertex it is most similar to (the others stay), merged into the
/// accumulator, and counted.
pub open spec fn ingested(before: InformationTriangle, pattern: Hypervector, after: InformationTriangle) -> bool {
    &&& after.dim == before.dim
    &&& chosen_vertex(before, pattern) == 0 ==> is_bundle_of(after.vertex_syntax, before.vertex_syntax, seq![&pattern])
    &&& chosen_vertex(before, pattern) != 0 ==> after.vertex_syntax == before.vertex_syntax
    &&& chosen_vertex(before, pattern) == 1 ==> is_bundle_of(after.vertex_semantics, before.vertex_semantics, seq![&pattern])
    &&& chosen_vertex(before, pattern) != 1 ==> after.vertex_semantics == before.vertex_semantics
    &&& chosen_vertex(before, pattern) == 2 ==> is_bundle_of(after.vertex_chaos, before.vertex_chaos, seq![&pattern])
    &&& chosen_vertex(before, pattern) != 2 ==> after.vertex_chaos == before.vertex_chaos
    &&& after.accumulator.dim == before.dim
    &&& after.accumulator.wf()
    &&& forall|i: int| 0 <= i < before.dim ==> #[trigger] after.accumulator.bit(i) == merged_bit(before.accumulator_count, before.accumulator.bit(i), pattern.bit(i))
    &&& after.accumulator_count == before.accumulator_count + 1
}

impl InformationTriangle {
    /// A triangle of dimension `dim` with random vertices and accumulator,
    /// having absorbed one pattern.
    pub fn new(dim: usize) -> (t: Self)
        requires
            dim <= usize::MAX - 63,
        ensures
            t.dim == dim,
            t.vertex_syntax.dim == dim && t.vertex_syntax.wf(),
            t.vertex_semantics.dim == dim && t.vertex_semantics.wf(),
            t.vertex_chaos.dim == dim && t.vertex_chaos.wf(),
            t.accumulator.dim == dim && t.accumulator.wf(),
            t.accumulator_count == 1,
    {
        InformationTriangle {
            dim,
            vertex_syntax: Hypervector::random(dim),
            vertex_semantics: Hypervector::random(dim),
            vertex_chaos: Hypervector::random(dim),
            accumulator: Hypervector::random(dim),
            accumulator_count: 1,
        }
    }

    /// Bundles the pattern into the vertex it is most similar to and merges it
    /// into the accumulator.
    pub fn ingest_pattern(&mut self, pattern: &Hypervector)
        requires
            can_ingest(*old(self), *pattern),
        ensures
            final(self).dim == old(self).dim,
            chosen_vertex(*old(self), *pattern) == 0 ==> is_bundle_of(
                final(self).vertex_syntax,
                old(self).vertex_syntax,
                seq![pattern],
            ),
            chosen_vertex(*old(self), *pattern) != 0 ==> final(self).vertex_syntax
                == old(self).vertex_syntax,
            chosen_vertex(*old(self), *pattern) == 1 ==> is_bundle_of(
                final(self).vertex_semantics,
                old(self).vertex_semantics,
                seq![pattern],
            ),
            chosen_vertex(*old(self), *pattern) != 1 ==> final(self).vertex_semantics
                == old(self).vertex_semantics,
            chosen_vertex(*old(self), *pattern) == 2 ==> is_bundle_of(
                final(self).vertex_chaos,
                old(self).vertex_chaos,
                seq![pattern],
            ),
            chosen_vertex(*old(self), *pattern) != 2 ==> final(self).vertex_chaos
                == old(self).vertex_chaos,
            final(self).accumulator.dim == old(self).dim,
            final(self).accumulator.wf(),
            forall|i: int|
                0 <= i < old(self).dim ==> #[trigger] final(self).accumulator.bit(i) == merged_bit(
                    old(self).accumulator_count,
                    old(self).accumulator.bit(i),
                    pattern.bit(i),
                ),
            final(self).accumulator_count == old(self).accumulator_count + 1,
            ingested(*old(self), *pattern, *final(self)),
    {
        let ghost choice = chosen_vertex(*self, *pattern);
        let syn_ge_sem = similarity_at_least(&self.vertex_syntax, &self.vertex_semantics, pattern);
        let syn_ge_chaos = similarity_at_least(&self.vertex_syntax, &self.vertex_chaos, pattern);
        let sem_ge_chaos = similarity_at_least(&self.vertex_semantics, &self.vertex_chaos, pattern);
        let others: [&Hypervector; 1] = [pattern];
        assert(others@ =~= seq![pattern]);
        assert forall|h: Hypervector, w: int, b: u64| #[trigger] bundle_count(h, others@, w, b)
            <= u16::MAX by {
            lemma_votes_bound(others@, w, b, 1);
        }
        if syn_ge_sem && syn_ge_chaos {
            self.vertex_syntax = self.vertex_syntax.bundle(others.as_slice());
        } else if sem_ge_chaos {
            self.vertex_semantics = self.vertex_semantics.bundle(others.as_slice());
        } else {
            self.vertex_chaos = self.vertex_chaos.bundle(others.as_slice());
        }
        let count = self.accumulator_count;
        let total = count + 1;
        let dim = self.dim;
        let wc = (dim + 63) / 64;
        let mut words = vec![0u64; wc];
        assert forall|j: int| 0 <= j < wc * 64 implies !#[trigger] bit_at(words@, j) by {
            assert(j / 64 < wc) by (nonlinear_arith)
                requires
                    0 <= j < wc * 64,
            ;
            lemma_zero_bit((j % 64) as u64);
        }
        let mut i: usize = 0;
        while i < dim
            invariant
                i <= dim,
                dim == self.dim,
                wc == words_for(dim as nat),
                words@.len() == wc,
                self.accumulator.words@.len() >= wc,
                pattern.words@.len() >= wc,
                forall|j: int|
                    0 <= j < wc * 64 ==> #[trigger] bit_at(words@, j) == (j < i && merged_bit(
                        count,
                        self.accumulator.bit(j),
                        pattern.bit(j),
                    )),
            decreases dim - i,
        {
            proof {
                assert(i / 64 < wc) by (nonlinear_arith)
                    requires
                        i < dim,
                        wc == (dim + 63) / 64,
                ;
            }
            let wi = i / 64;
            let b = (i % 64) as u64;
            let acc_word = self.accumulator.words[wi];
            let pat_word = pattern.words[wi];
            let acc_bit = (acc_word >> b) & 1 == 1;
            let pat_bit = (pat_word >> b) & 1 == 1;
            let keep = if count == 0 {
                pat_bit
            } else if count == 1 {
                acc_bit || pat_bit
            } else {
                acc_bit
            };
            if keep {
                let ghost old_words = words@;
                let nw = words[wi] | (1u64 << b);
                words.set(wi, nw);
                assert forall|j: int| 0 <= j < wc * 64 implies #[trigger] bit_at(words@, j) == (j
                    < i + 1 && merged_bit(count, self.accumulator.bit(j), pattern.bit(j))) by {
                    assert(bit_at(old_words, j) == (j < i && merged_bit(
                        count,
                        self.accumulator.bit(j),
                        pattern.bit(j),
                    )));
                    if j / 64 == wi as int {
                        assert(words@[wi as int] == nw);
                        lemma_or_single_bit(old_words[wi as int], b, (j % 64) as u64);
                        if j % 64 == i % 64 {
                            assert(j == i) by (nonlinear_arith)
                                requires
                                    0 <= j,
                                    j / 64 == i / 64,
                                    j % 64 == i % 64,
                            ;
                        }
                    } else {
                        assert(words@[j / 64] == old_words[j / 64]);
                        assert(j != i);
                    }
                }
            }
            i = i + 1;
        }
        self.accumulator = Hypervector { dim, words };
        self.accumulator_count = total;
        assert forall|j: int| dim <= j < wc * 64 implies !#[trigger] self.accumulator.bit(j) by {}
    }

    /// The three vertices, in the order syntax, semantics, chaos.
    pub fn emit_to_cube(&self) -> (v: (&Hypervector, &Hypervector, &Hypervector))
        ensures
            *v.0 == self.vertex_syntax,
            *v.1 == self.vertex_semantics,
            *v.2 == self.vertex_chaos,
    {
        (&self.vertex_syntax, &self.vertex_semantics, &self.vertex_chaos)
    }
}

} // verus!
