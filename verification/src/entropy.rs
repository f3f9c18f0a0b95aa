//! Sources of pseudo-random words: the thread-local generator of `rand`, of
//! whose words nothing is promised, and `rand`'s seeded standard generator
//! fed with std's default string hash, whose words are named by their seed.

use vstd::prelude::*;
use rand::rngs::{StdRng, ThreadRng};
use vstd::std_specs::hash::DefaultHasherAdditionalSpecFns;
use std::collections::hash_map::DefaultHasher;
use std::hash::Hasher;
use crate::bits::words_for;
use crate::hypervector::{masked, Hypervector};

verus! {

#[verifier::external_type_specification]
#[verifier::external_body]
pub struct ExThreadRng(ThreadRng);

/// Calls `rand::thread_rng`, a handle to the lazily seeded thread-local
/// generator. The contract claims nothing of its state.
#[verifier::external_body]
pub(crate) fn thread_rng_handle() -> (rng: ThreadRng) {
    rand::thread_rng()
}

/// Calls `RngCore::next_u64` on the thread-local generator. Any word may come
/// back; the contract claims nothing of it.
#[verifier::external_body]
pub(crate) fn next_random_word(rng: &mut ThreadRng) -> (w: u64) {
    rand::RngCore::next_u64(rng)
}

/// The writes that `<str as Hash>::hash` makes into a default hasher whose
/// writes so far are `state`, when it hashes the text `s`.
pub uninterp spec fn str_hash_writes(state: Seq<Seq<u8>>, s: Seq<char>) -> Seq<Seq<u8>>;

/// Calls `<str as Hash>::hash`, feeding `s` into the hasher. The contract
/// names the hasher's new state: a function of its former writes and of `s`
/// alone (std's `Hash` for `str` writes the text and a terminator; the exact
/// writes are left to the name).
#[verifier::external_body]
fn hash_str_into(s: &str, h: &mut DefaultHasher)
    ensures
        final(h)@ == str_hash_writes(old(h)@, s@),
{
    std::hash::Hash::hash(s, h)
}

/// The first `count` words of `rand`'s standard generator seeded with `seed`.
pub uninterp spec fn std_rng_words(seed: u64, count: nat) -> Seq<u64>;

/// Seeds `rand`'s standard generator with `seed` (`SeedableRng::seed_from_u64`)
/// and fills `words` from it (`Rng::fill`, which takes the generator's words in
/// order). The contract names the result: a function of the seed and the
/// number of words alone, as rand documents the seeded generator to be
/// deterministic.
#[verifier::external_body]
fn fill_from_seed(seed: u64, words: &mut Vec<u64>)
    ensures
        final(words)@.len() == old(words)@.len(),
        final(words)@ == std_rng_words(seed, old(words)@.len()),
{
    let mut rng: StdRng = rand::SeedableRng::seed_from_u64(seed);
    rand::Rng::fill(&mut rng, words.as_mut_slice())
}

/// The seed that a text gives the standard generator: its default hash.
pub open spec fn text_seed(s: Seq<char>) -> u64 {
    DefaultHasher::spec_finish(str_hash_writes(Seq::empty(), s))
}

/// The words of the seeded vector of dimension `dim` for the text `seed`.
pub open spec fn seeded_vector_words(dim: nat, seed: Seq<char>) -> Seq<u64> {
    masked(std_rng_words(text_seed(seed), words_for(dim)), dim)
}

/// A pseudo-random well-formed vector of dimension `dim` derived from
/// `seed`: the seed's default hash seeds the standard generator, whose words
/// fill the vector; the padding past `dim` is cleared. Equal arguments give
/// equal vectors.
pub fn deterministic_vector(dim: usize, seed: &str) -> (hv: Hypervector)
    requires
        dim <= usize::MAX - 63,
    ensures
        hv.dim == dim,
        hv.wf(),
        hv.words@ == seeded_vector_words(dim as nat, seed@),
{
    let mut hasher = DefaultHasher::new();
    hash_str_into(seed, &mut hasher);
    let s = hasher.finish();
    let word_count = (dim + 63) / 64;
    let mut words = vec![0u64; word_count];
    fill_from_seed(s, &mut words);
    Hypervector::from_drawn_words(dim, words)
}

} // verus!
