//! Tokenizer bridge: a deterministic n-gram encoder from bytes to sparse
//! hypervectors, and a dictionary of encoded tokens.
//!
//! Every n-gram (by default 1 to 3 bytes) is hashed with 64-bit FNV-1a; the
//! 48 smallest distinct hashes are kept, and each kept hash (optionally folded
//! with the start of its first occurrence) selects a sparse basis vector of at
//! most 16 ones. The encoding is the XOR of those basis vectors.

use vstd::prelude::*;
use vstd::string::StringSliceAdditionalSpecFns;
use vstd::utf8::encode_utf8;
use crate::bits::{bit_at, count_ones_of, bit_of, lemma_or_single_bit, lemma_total_ones_bound, lemma_total_ones_push, lemma_xor_bit, lemma_zero_bit, total_ones, words_for};
use crate::hypervector::{lemma_padding_position, lemma_same_position, lemma_word_in_range, popcount_chunks, Hypervector};

verus! {

/// Number of ones placed by each basis vector.
pub const BASIS_ONES: u32 = 16;

/// Longest n-gram, in bytes.
pub const NGRAM_MAX: usize = 3;

/// Number of distinct n-gram hashes kept per encoding.
pub const MAX_GRAMS: usize = 48;

/// 64-bit FNV-1a of `s`.
pub open spec fn fnv1a_spec(s: Seq<u8>) -> u64
    decreases s.len(),
{
    if s.len() == 0 {
        0xcbf29ce484222325u64
    } else {
        (fnv1a_spec(s.drop_last()) ^ (s.last() as u64)).wrapping_mul(0x100000001b3u64)
    }
}

/// 64-bit FNV-1a hash of a byte string.
pub fn fnv1a(bytes: &[u8]) -> (h: u64)
    ensures
        h == fnv1a_spec(bytes@),
{
    let mut h: u64 = 0xcbf29ce484222325u64;
    let mut i: usize = 0;
    while i < bytes.len()
        invariant
            i <= bytes@.len(),
            h == fnv1a_spec(bytes@.take(i as int)),
        decreases bytes@.len() - i,
    {
        assert(bytes@.take(i as int + 1).drop_last() =~= bytes@.take(i as int));
        h = (h ^ (bytes[i] as u64)).wrapping_mul(0x100000001b3u64);
        i = i + 1;
    }
    assert(bytes@.take(bytes@.len() as int) =~= bytes@);
    h
}

/// The generator state of the basis for hash `h` after `k` steps.
pub open spec fn basis_state(h: u64, k: nat) -> u64
    decreases k,
{
    if k == 0 {
        (h ^ 0x9E3779B97F4A7C15u64).wrapping_mul(0x5851F42D4C957F2Du64)
    } else {
        basis_state(h, (k - 1) as nat).wrapping_mul(0x5851F42D4C957F2Du64).wrapping_add(
            0x14057B7EF767814Fu64,
        )
    }
}

/// Whether one of the first `k` positions of the basis for `h` is bit `i`.
pub open spec fn basis_hits(h: u64, dim: nat, i: int, k: nat) -> bool
    decreases k,
{
    if k == 0 {
        false
    } else {
        basis_hits(h, dim, i, (k - 1) as nat) || (basis_state(h, k) % (dim as u64)) as int == i
    }
}

/// The sparse basis vector of hash `h`: the bits `state_k % dim` for the
/// first 16 generator states after the seed.
fn hash_basis(h: u64, dim: usize) -> (hv: Hypervector)
    requires
        0 < dim <= usize::MAX - 63,
    ensures
        hv.dim == dim,
        hv.wf(),
        forall|i: int|
            0 <= i < words_for(dim as nat) * 64 ==> #[trigger] hv.bit(i) == (i < dim && basis_hits(
                h,
                dim as nat,
                i,
                16,
            )),
{
    let mut hv = Hypervector::new(dim);
    let wc = (dim + 63) / 64;
    assert forall|i: int| 0 <= i < wc * 64 implies !#[trigger] hv.bit(i) by {
        assert(i / 64 < wc) by (nonlinear_arith)
            requires
                0 <= i < wc * 64,
        ;
        lemma_zero_bit((i % 64) as u64);
    }
    let mut x: u64 = (h ^ 0x9E3779B97F4A7C15u64).wrapping_mul(0x5851F42D4C957F2Du64);
    let mut placed: u32 = 0;
    while placed < BASIS_ONES
        invariant
            placed <= 16,
            hv.dim == dim,
            0 < dim,
            wc == words_for(dim as nat),
            hv.words@.len() == wc,
            x == basis_state(h, placed as nat),
            forall|i: int|
                0 <= i < wc * 64 ==> #[trigger] hv.bit(i) == (i < dim && basis_hits(
                    h,
                    dim as nat,
                    i,
                    placed as nat,
                )),
        decreases 16 - placed,
    {
        x = x.wrapping_mul(0x5851F42D4C957F2Du64).wrapping_add(0x14057B7EF767814Fu64);
        let bit = (x % (dim as u64)) as usize;
        proof {
            lemma_word_in_range(dim as nat, bit as int);
        }
        let wi = bit / 64;
        let b = (bit % 64) as u64;
        let ghost old_hv = hv;
        let nw = hv.words[wi] | (1u64 << b);
        hv.words.set(wi, nw);
        assert forall|i: int| 0 <= i < wc * 64 implies #[trigger] hv.bit(i) == (i < dim && basis_hits(
            h,
            dim as nat,
            i,
            (placed + 1) as nat,
        )) by {
            assert(old_hv.bit(i) == (i < dim && basis_hits(h, dim as nat, i, placed as nat)));
            if i / 64 == wi as int {
                assert(hv.words@[wi as int] == nw);
                lemma_or_single_bit(old_hv.words@[wi as int], b, (i % 64) as u64);
                if i % 64 == bit as int % 64 {
                    lemma_same_position(bit as int, i);
                }
                if i == bit as int {
                    assert(i < dim);
                }
            } else {
                assert(hv.words@[i / 64] == old_hv.words@[i / 64]);
                assert(i != bit);
            }
        }
        placed = placed + 1;
    }
    assert forall|i: int| hv.dim <= i < hv.words@.len() * 64 implies !#[trigger] hv.bit(i) by {}
    hv
}

/// The n-grams of widths `mg..=3` that start at `j`, as (content hash, start).
pub open spec fn grams_at(b: Seq<u8>, mg: nat, j: int) -> Seq<(u64, usize)> {
    let maxw: int = if b.len() - j < 3 { b.len() - j } else { 3 };
    let count: int = if maxw >= mg { maxw - mg + 1 } else { 0 };
    Seq::new(count as nat, |k: int| (fnv1a_spec(b.subrange(j, j + mg + k)), j as usize))
}

/// All n-grams starting before `i`, in order of start and then width.
pub open spec fn grams_upto(b: Seq<u8>, mg: nat, i: int) -> Seq<(u64, usize)>
    decreases i,
{
    if i <= 0 {
        Seq::empty()
    } else {
        grams_upto(b, mg, i - 1) + grams_at(b, mg, i - 1)
    }
}

/// The smallest hash in `g` above `lo`.
pub open spec fn min_hash_above(g: Seq<(u64, usize)>, lo: int) -> Option<u64>
    decreases g.len(),
{
    if g.len() == 0 {
        None
    } else {
        let rest = min_hash_above(g.drop_last(), lo);
        let h = g.last().0;
        if h as int > lo {
            match rest {
                Some(r) => Some(if h < r { h } else { r }),
                None => Some(h),
            }
        } else {
            rest
        }
    }
}

/// The start of the first gram of `g` whose hash is `h`.
pub open spec fn first_start(g: Seq<(u64, usize)>, h: u64) -> usize
    decreases g.len(),
{
    if g.len() == 0 {
        0
    } else if g[0].0 == h {
        g[0].1
    } else {
        first_start(g.drop_first(), h)
    }
}

/// The `k` smallest distinct hashes of `g` in ascending order (fewer when `g`
/// has fewer distinct hashes).
pub open spec fn selected(g: Seq<(u64, usize)>, k: nat) -> Seq<u64>
    decreases k,
{
    if k == 0 {
        Seq::empty()
    } else {
        let s = selected(g, (k - 1) as nat);
        let lo: int = if s.len() == 0 { -1 } else { s.last() as int };
        match min_hash_above(g, lo) {
            Some(h) => s.push(h),
            None => s,
        }
    }
}

/// The basis seed of a kept hash: with `positional`, the start of its first
/// occurrence is folded in.
pub open spec fn seed_of(h: u64, s: usize, positional: bool) -> u64 {
    if positional {
        h ^ (s as u64).wrapping_mul(0x9E3779B97F4A7C15u64)
    } else {
        h
    }
}

/// Bit `i` of the XOR of the basis vectors of the first `k` kept hashes.
pub open spec fn xor_of_bases(
    g: Seq<(u64, usize)>,
    sel: Seq<u64>,
    positional: bool,
    dim: nat,
    i: int,
    k: int,
) -> bool
    decreases k,
{
    if k <= 0 {
        false
    } else {
        xor_of_bases(g, sel, positional, dim, i, k - 1) != basis_hits(
            seed_of(sel[k - 1], first_start(g, sel[k - 1]), positional),
            dim,
            i,
            16,
        )
    }
}

/// Bit `i` of the encoding of `b` with n-gram widths `mg..=3`.
pub open spec fn encoding_bit(b: Seq<u8>, dim: nat, mg: nat, positional: bool, i: int) -> bool {
    let g = grams_upto(b, mg, b.len() as int);
    let sel = selected(g, MAX_GRAMS as nat);
    xor_of_bases(g, sel, positional, dim, i, sel.len() as int)
}

/// `hv` is the `dim`-bit encoding of `b` with n-gram widths `mg..=3`.
pub open spec fn is_encoding_of(hv: Hypervector, b: Seq<u8>, dim: nat, mg: nat, positional: bool) -> bool {
    &&& hv.dim == dim
    &&& hv.wf()
    &&& forall|i: int| 0 <= i < dim ==> #[trigger] hv.bit(i) == encoding_bit(b, dim, mg, positional, i)
}

/// Encoding is possible: the dimension fits, and it is positive unless no
/// n-gram exists.
pub open spec fn can_encode(b: Seq<u8>, dim: nat, mg: nat) -> bool {
    &&& dim <= usize::MAX - 63
    &&& (dim > 0 || grams_upto(b, mg, b.len() as int).len() == 0)
}

proof fn lemma_min_hash_above(g: Seq<(u64, usize)>, lo: int)
    ensures
        match min_hash_above(g, lo) {
            Some(h) => h as int > lo && (exists|j: int| 0 <= j < g.len() && #[trigger] g[j].0 == h)
                && (forall|j: int| 0 <= j < g.len() && g[j].0 as int > lo ==> h <= #[trigger] g[j].0),
            None => forall|j: int| 0 <= j < g.len() ==> #[trigger] g[j].0 as int <= lo,
        },
    decreases g.len(),
{
    if g.len() > 0 {
        let p = g.drop_last();
        let last = g.last();
        lemma_min_hash_above(p, lo);
        assert forall|j: int| 0 <= j < p.len() implies #[trigger] p[j] == g[j] by {}
        assert(g[g.len() - 1] == last);
        match min_hash_above(g, lo) {
            Some(h) => {
                if h == last.0 {
                    assert(g[g.len() - 1].0 == h);
                } else {
                    let r = min_hash_above(p, lo)->0;
                    let j0 = choose|j: int| 0 <= j < p.len() && #[trigger] p[j].0 == r;
                    assert(g[j0].0 == h);
                }
                assert forall|j: int| 0 <= j < g.len() && g[j].0 as int > lo implies h <= #[trigger] g[j].0 by {
                    if j < p.len() {
                        assert(g[j] == p[j]);
                    }
                }
            },
            None => {
                assert forall|j: int| 0 <= j < g.len() implies #[trigger] g[j].0 as int <= lo by {
                    if j < p.len() {
                        assert(g[j] == p[j]);
                    }
                }
            },
        }
    }
}

proof fn lemma_first_start_push(p: Seq<(u64, usize)>, x: (u64, usize), h: u64)
    ensures
        (exists|j: int| 0 <= j < p.len() && #[trigger] p[j].0 == h) ==> first_start(p.push(x), h)
            == first_start(p, h),
        (forall|j: int| 0 <= j < p.len() ==> #[trigger] p[j].0 != h) && x.0 == h ==> first_start(
            p.push(x),
            h,
        ) == x.1,
    decreases p.len(),
{
    if p.len() > 0 {
        assert(p.push(x).drop_first() =~= p.drop_first().push(x));
        lemma_first_start_push(p.drop_first(), x, h);
        if p[0].0 != h {
            assert forall|j: int| 0 <= j < p.drop_first().len() && #[trigger] p.drop_first()[j].0
                == h implies exists|j2: int| 0 <= j2 < p.len() && #[trigger] p[j2].0 == h by {
                assert(p[j + 1].0 == h);
            }
            if exists|j: int| 0 <= j < p.len() && #[trigger] p[j].0 == h {
                let j = choose|j: int| 0 <= j < p.len() && #[trigger] p[j].0 == h;
                assert(j > 0);
                assert(p.drop_first()[j - 1].0 == h);
            }
        }
    } else {
        assert(p.push(x)[0] == x);
    }
}

proof fn lemma_selected_len(g: Seq<(u64, usize)>, k: nat)
    ensures
        selected(g, k).len() <= k,
    decreases k,
{
    if k > 0 {
        lemma_selected_len(g, (k - 1) as nat);
    }
}

proof fn lemma_selected_stops(g: Seq<(u64, usize)>, k: nat, m: nat)
    requires
        k <= m,
        selected(g, k).len() < k || {
            let s = selected(g, k);
            let lo: int = if s.len() == 0 { -1 } else { s.last() as int };
            min_hash_above(g, lo) is None
        },
    ensures
        selected(g, m) == selected(g, k),
    decreases m - k,
{
    if k < m {
        lemma_selected_stops(g, k, (m - 1) as nat);
        if selected(g, k).len() < k && k > 0 {
            lemma_selected_stopped_before(g, k);
        }
    }
}

/// Once the selection has come up short, its last step found nothing new.
proof fn lemma_selected_stopped_before(g: Seq<(u64, usize)>, k: nat)
    requires
        k > 0,
        selected(g, k).len() < k,
    ensures
        ({
            let s = selected(g, k);
            let lo: int = if s.len() == 0 { -1 } else { s.last() as int };
            min_hash_above(g, lo) is None
        }),
    decreases k,
{
    let s1 = selected(g, (k - 1) as nat);
    lemma_selected_len(g, (k - 1) as nat);
    if s1.len() < k - 1 {
        lemma_selected_stopped_before(g, (k - 1) as nat);
    }
}

proof fn lemma_xor_of_bases_prefix(
    g: Seq<(u64, usize)>,
    a: Seq<u64>,
    b: Seq<u64>,
    positional: bool,
    dim: nat,
    i: int,
    k: int,
)
    requires
        0 <= k <= a.len(),
        k <= b.len(),
        forall|j: int| 0 <= j < k ==> a[j] == b[j],
    ensures
        xor_of_bases(g, a, positional, dim, i, k) == xor_of_bases(g, b, positional, dim, i, k),
    decreases k,
{
    if k > 0 {
        lemma_xor_of_bases_prefix(g, a, b, positional, dim, i, k - 1);
    }
}

/// Encodes the n-grams of widths `mg..=3` of `bytes`.
fn encode_grams(bytes: &[u8], dim: usize, mg: usize, positional: bool) -> (hv: Hypervector)
    requires
        can_encode(bytes@, dim as nat, mg as nat),
    ensures
        is_encoding_of(hv, bytes@, dim as nat, mg as nat, positional),
{
    let mut acc = Hypervector::new(dim);
    let ghost b = bytes@;
    let wc = (dim + 63) / 64;
    assert forall|i: int| 0 <= i < wc * 64 implies !#[trigger] acc.bit(i) by {
        assert(i / 64 < wc) by (nonlinear_arith)
            requires
                0 <= i < wc * 64,
        ;
        lemma_zero_bit((i % 64) as u64);
    }
    if bytes.len() == 0 {
        let ghost g = grams_upto(b, mg as nat, 0);
        assert(g =~= Seq::<(u64, usize)>::empty());
        assert(selected(g, 48).len() == 0) by {
            lemma_selected_len(g, 0);
            assert(min_hash_above(g, -1) is None);
            lemma_selected_stops(g, 0, 48);
        }
        return acc;
    }
    let n = bytes.len();
    let mut grams: Vec<(u64, usize)> = Vec::new();
    let mut i: usize = 0;
    while i < n
        invariant
            i <= n,
            n == b.len(),
            b == bytes@,
            grams@ == grams_upto(b, mg as nat, i as int),
        decreases n - i,
    {
        let ghost before = grams@;
        let mut w = mg;
        while w <= NGRAM_MAX && w <= n - i
            invariant
                mg <= w,
                w <= 4 || w == mg,
                i < n,
                n == b.len(),
                b == bytes@,
                grams@ == before + grams_at(b, mg as nat, i as int).take((w - mg) as int),
                w - mg <= grams_at(b, mg as nat, i as int).len(),
            decreases 4 + mg - w,
        {
            let h = fnv1a(&bytes[i..i + w]);
            grams.push((h, i));
            assert(grams_at(b, mg as nat, i as int).take((w + 1 - mg) as int) =~= grams_at(
                b,
                mg as nat,
                i as int,
            ).take((w - mg) as int).push((h, i)));
            w = w + 1;
        }
        assert(grams_at(b, mg as nat, i as int).take((w - mg) as int) =~= grams_at(
            b,
            mg as nat,
            i as int,
        ));
        i = i + 1;
    }
    let ghost g = grams@;
    let mut taken: usize = 0;
    let mut lo: u64 = 0;
    let mut has_lo = false;
    while taken < MAX_GRAMS
        invariant
            taken <= 48,
            g == grams@,
            g == grams_upto(b, mg as nat, b.len() as int),
            b == bytes@,
            can_encode(b, dim as nat, mg as nat),
            g.len() > 0 || !has_lo,
            acc.dim == dim,
            acc.words@.len() == wc,
            wc == words_for(dim as nat),
            selected(g, taken as nat).len() == taken,
            has_lo == (taken > 0),
            has_lo ==> lo == selected(g, taken as nat).last(),
            forall|i: int|
                0 <= i < wc * 64 ==> #[trigger] acc.bit(i) == (i < dim && xor_of_bases(
                    g,
                    selected(g, taken as nat),
                    positional,
                    dim as nat,
                    i,
                    taken as int,
                )),
        ensures
            selected(g, 48) == selected(g, taken as nat),
            acc.dim == dim,
            acc.words@.len() == wc,
            forall|i: int|
                0 <= i < wc * 64 ==> #[trigger] acc.bit(i) == (i < dim && xor_of_bases(
                    g,
                    selected(g, taken as nat),
                    positional,
                    dim as nat,
                    i,
                    taken as int,
                )),
        decreases 48 - taken,
    {
        let ghost lo_int: int = if has_lo { lo as int } else { -1 };
        let mut found = false;
        let mut best: u64 = 0;
        let mut best_start: usize = 0;
        let mut j: usize = 0;
        while j < grams.len()
            invariant
                j <= grams@.len(),
                g == grams@,
                lo_int == if has_lo { lo as int } else { -1 },
                (if found { Some(best) } else { None }) == min_hash_above(g.take(j as int), lo_int),
                found ==> best_start == first_start(g.take(j as int), best),
                found ==> exists|k: int| 0 <= k < j && #[trigger] g[k].0 == best,
            decreases grams@.len() - j,
        {
            let (h, s) = grams[j];
            let ghost p = g.take(j as int);
            assert(g.take(j as int + 1) =~= p.push((h, s)));
            assert(g.take(j as int + 1).drop_last() =~= p);
            proof {
                lemma_min_hash_above(p, lo_int);
                lemma_first_start_push(p, (h, s), h);
                if found {
                    lemma_first_start_push(p, (h, s), best);
                    let k0 = choose|k: int| 0 <= k < j && #[trigger] g[k].0 == best;
                    assert(p[k0].0 == best);
                }
            }
            if (!has_lo || h > lo) && (!found || h < best) {
                proof {
                    assert forall|k: int| 0 <= k < p.len() implies #[trigger] p[k].0 != h by {
                        if p[k].0 == h {
                            assert(p[k].0 as int > lo_int);
                        }
                    }
                }
                found = true;
                best = h;
                best_start = s;
            }
            j = j + 1;
        }
        assert(g.take(grams@.len() as int) =~= g);
        let ghost sel = selected(g, taken as nat);
        if !found {
            proof {
                lemma_selected_stops(g, taken as nat, 48);
            }
            break;
        }
        let ghost sel2 = selected(g, (taken + 1) as nat);
        assert(sel2 == sel.push(best));
        proof {
            lemma_min_hash_above(g, lo_int);
        }
        let seed = if positional {
            best ^ (best_start as u64).wrapping_mul(0x9E3779B97F4A7C15u64)
        } else {
            best
        };
        assert(seed == seed_of(sel2[taken as int], first_start(g, sel2[taken as int]), positional));
        let basis = hash_basis(seed, dim);
        let ghost old_acc = acc;
        acc = acc.bind(&basis);
        assert forall|i: int| 0 <= i < wc * 64 implies #[trigger] acc.bit(i) == (i < dim
            && xor_of_bases(g, sel2, positional, dim as nat, i, taken + 1)) by {
            assert(old_acc.bit(i) == (i < dim && xor_of_bases(
                g,
                sel,
                positional,
                dim as nat,
                i,
                taken as int,
            )));
            assert(basis.bit(i) == (i < dim && basis_hits(seed, dim as nat, i, 16)));
            assert(i / 64 < wc) by (nonlinear_arith)
                requires
                    0 <= i < wc * 64,
            ;
            lemma_xor_bit(old_acc.words@[i / 64], basis.words@[i / 64], (i % 64) as u64);
            lemma_xor_of_bases_prefix(g, sel, sel2, positional, dim as nat, i, taken as int);
        }
        lo = best;
        has_lo = true;
        taken = taken + 1;
    }
    proof {
        let g = grams@;
        assert(selected(g, 48) == selected(g, taken as nat));
        assert forall|i: int| acc.dim <= i < acc.words@.len() * 64 implies !#[trigger] acc.bit(i) by {}
    }
    acc
}

/// Positional n-gram encoding (1- to 3-byte grams; the start of each kept
/// gram is folded into its basis seed, so order matters).
pub fn encode_bytes(bytes: &[u8], dim: usize) -> (hv: Hypervector)
    requires
        can_encode(bytes@, dim as nat, 1),
    ensures
        is_encoding_of(hv, bytes@, dim as nat, 1, true),
{
    encode_bytes_impl(bytes, dim, true)
}

/// Position-invariant n-gram encoding: the same gram always selects the same
/// basis wherever it occurs.
pub fn encode_bytes_nopos(bytes: &[u8], dim: usize) -> (hv: Hypervector)
    requires
        can_encode(bytes@, dim as nat, 1),
    ensures
        is_encoding_of(hv, bytes@, dim as nat, 1, false),
{
    encode_bytes_impl(bytes, dim, false)
}

/// Position-invariant encoding of the grams of exactly 3 bytes.
pub fn encode_bytes_nopos_min3(bytes: &[u8], dim: usize) -> (hv: Hypervector)
    requires
        can_encode(bytes@, dim as nat, 3),
    ensures
        is_encoding_of(hv, bytes@, dim as nat, 3, false),
{
    encode_bytes_impl_min(bytes, dim, 3)
}

fn encode_bytes_impl_min(bytes: &[u8], dim: usize, min_gram: usize) -> (hv: Hypervector)
    requires
        can_encode(bytes@, dim as nat, min_gram as nat),
    ensures
        is_encoding_of(hv, bytes@, dim as nat, min_gram as nat, false),
{
    encode_grams(bytes, dim, min_gram, false)
}

fn encode_bytes_impl(bytes: &[u8], dim: usize, positional: bool) -> (hv: Hypervector)
    requires
        can_encode(bytes@, dim as nat, 1),
    ensures
        is_encoding_of(hv, bytes@, dim as nat, 1, positional),
{
    encode_grams(bytes, dim, 1, positional)
}

/// Positional encoding of the UTF-8 bytes of `text`.
pub fn encode_str(text: &str, dim: usize) -> (hv: Hypervector)
    requires
        can_encode(text.spec_bytes(), dim as nat, 1),
    ensures
        is_encoding_of(hv, text.spec_bytes(), dim as nat, 1, true),
{
    encode_bytes(text.as_bytes(), dim)
}

/// A dictionary of tokens with their encodings, derived on construction.
pub struct TokenBridge {
    pub dim: usize,
    pub tokens: Vec<String>,
    pub hvs: Vec<Hypervector>,
}

impl TokenBridge {
    /// Encodes every token with `encode_str`.
    pub fn new(tokens: Vec<String>, dim: usize) -> (tb: Self)
        requires
            forall|k: int|
                0 <= k < tokens@.len() ==> can_encode(
                    #[trigger] encode_utf8(tokens@[k]@),
                    dim as nat,
                    1,
                ),
        ensures
            tb.dim == dim,
            tb.tokens@ == tokens@,
            tb.hvs@.len() == tokens@.len(),
            forall|k: int|
                0 <= k < tokens@.len() ==> is_encoding_of(
                    #[trigger] tb.hvs@[k],
                    encode_utf8(tokens@[k]@),
                    dim as nat,
                    1,
                    true,
                ),
    {
        let mut hvs: Vec<Hypervector> = Vec::with_capacity(tokens.len());
        let mut k: usize = 0;
        while k < tokens.len()
            invariant
                k <= tokens@.len(),
                hvs@.len() == k,
                forall|j: int|
                    0 <= j < tokens@.len() ==> can_encode(
                        #[trigger] encode_utf8(tokens@[j]@),
                        dim as nat,
                        1,
                    ),
                forall|j: int|
                    0 <= j < k ==> is_encoding_of(
                        #[trigger] hvs@[j],
                        encode_utf8(tokens@[j]@),
                        dim as nat,
                        1,
                        true,
                    ),
            decreases tokens@.len() - k,
        {
            let hv = encode_str(tokens[k].as_str(), dim);
            hvs.push(hv);
            k = k + 1;
        }
        TokenBridge { dim, tokens, hvs }
    }
}

/// The words where both `q` and `h` have bits set, over the first `n` words.
pub open spec fn and_words(q: Seq<u64>, h: Seq<u64>, n: nat) -> Seq<u64> {
    Seq::new(n, |w: int| q[w] & h[w])
}

/// What the nearest-token scan counts for token `i`: the bits shared with
/// the query over the query's words, and the token's own set bits.
pub open spec fn token_counts(tb: TokenBridge, q: Seq<u64>, i: int) -> (usize, nat, nat) {
    (i as usize, total_ones(and_words(q, tb.hvs@[i].words@, q.len())), total_ones(tb.hvs@[i].words@))
}

/// Positions of the tokens of at least two bytes, in order.
pub open spec fn scanned_tokens(tokens: Seq<String>) -> Seq<int>
    decreases tokens.len(),
{
    if tokens.len() == 0 {
        Seq::empty()
    } else {
        scanned_tokens(tokens.drop_last()) + if encode_utf8(tokens.last()@).len() >= 2 {
            seq![tokens.len() - 1]
        } else {
            Seq::empty()
        }
    }
}

impl TokenBridge {
    /// The integer part of the nearest-token scan: for each token of at least
    /// two bytes, in order, its position, the number of bits it shares with
    /// `query` over the query's words, and its number of set bits. The score
    /// of a token is `shared / sqrt(query ones * token ones)`.
    pub fn nearest_counts(&self, query: &Hypervector) -> (r: Vec<(usize, u32, u32)>)
        requires
            self.hvs@.len() == self.tokens@.len(),
            forall|i: int| 0 <= i < self.hvs@.len() ==> (#[trigger] self.hvs@[i]).words@.len() >= query.words@.len(),
            forall|i: int| 0 <= i < self.hvs@.len() ==> (#[trigger] self.hvs@[i]).words@.len() * 64 <= u32::MAX,
        ensures
            r@.len() == scanned_tokens(self.tokens@).len(),
            forall|k: int| 0 <= k < r@.len() ==> {
                let c = token_counts(*self, query.words@, scanned_tokens(self.tokens@)[k]);
                &&& (#[trigger] r@[k]).0 == c.0
                &&& r@[k].1 == c.1
                &&& r@[k].2 == c.2
            },
    {
        let mut r: Vec<(usize, u32, u32)> = Vec::new();
        let mut i: usize = 0;
        while i < self.tokens.len()
            invariant
                i <= self.tokens@.len(),
                self.hvs@.len() == self.tokens@.len(),
                forall|j: int| 0 <= j < self.hvs@.len() ==> (#[trigger] self.hvs@[j]).words@.len() >= query.words@.len(),
                forall|j: int| 0 <= j < self.hvs@.len() ==> (#[trigger] self.hvs@[j]).words@.len() * 64 <= u32::MAX,
                r@.len() == scanned_tokens(self.tokens@.take(i as int)).len(),
                forall|k: int| 0 <= k < r@.len() ==> {
                    let c = token_counts(*self, query.words@, scanned_tokens(self.tokens@.take(i as int))[k]);
                    &&& (#[trigger] r@[k]).0 == c.0
                    &&& r@[k].1 == c.1
                    &&& r@[k].2 == c.2
                },
            decreases self.tokens@.len() - i,
        {
            let ghost pre = self.tokens@.take(i as int);
            let ghost post = self.tokens@.take(i + 1);
            assert(post.drop_last() =~= pre);
            assert(post.last() == self.tokens@[i as int]);
            let tok: &str = self.tokens[i].as_str();
            let long = tok.as_bytes().len() >= 2;
            assert(tok@ == self.tokens@[i as int]@);
            assert(long == (encode_utf8(self.tokens@[i as int]@).len() >= 2));
            if long {
                let hv = &self.hvs[i];
                let qw = query.words.len();
                let mut overlap: u32 = 0;
                let mut w: usize = 0;
                while w < qw
                    invariant
                        w <= qw,
                        qw == query.words@.len(),
                        hv.words@.len() >= qw,
                        hv.words@.len() * 64 <= u32::MAX,
                        overlap == total_ones(and_words(query.words@, hv.words@, w as nat)),
                    decreases qw - w,
                {
                    proof {
                        assert(and_words(query.words@, hv.words@, (w + 1) as nat) =~= and_words(
                            query.words@,
                            hv.words@,
                            w as nat,
                        ).push(query.words@[w as int] & hv.words@[w as int]));
                        lemma_total_ones_push(and_words(query.words@, hv.words@, w as nat), query.words@[w as int] & hv.words@[w as int]);
                        lemma_total_ones_bound(and_words(query.words@, hv.words@, (w + 1) as nat));
                        assert((w + 1) * 64 <= hv.words@.len() * 64) by (nonlinear_arith)
                            requires
                                w < hv.words@.len(),
                        ;
                    }
                    overlap = overlap + count_ones_of(query.words[w] & hv.words[w]);
                    w = w + 1;
                }
                let ones = popcount_chunks(hv.words.as_slice());
                proof {
                    lemma_total_ones_bound(hv.words@);
                }
                r.push((i, overlap, ones as u32));
            }
            proof {
                assert(scanned_tokens(post) == scanned_tokens(pre) + if encode_utf8(self.tokens@[i as int]@).len() >= 2 {
                    seq![i as int]
                } else {
                    Seq::<int>::empty()
                });
            }
            i = i + 1;
        }
        assert(self.tokens@.take(self.tokens@.len() as int) =~= self.tokens@);
        r
    }
}

/// Whether some label's encoding has bit `i` set.
pub open spec fn some_label_bit(labels: Seq<&str>, dim: nat, i: int) -> bool {
    exists|k: int| 0 <= k < labels.len() && encoding_bit(#[trigger] labels[k].spec_bytes(), dim, 1, true, i)
}

/// The bit-wise OR of the encodings of all labels.
pub fn aggregate_labels(labels: &[&str], dim: usize) -> (hv: Hypervector)
    requires
        forall|k: int| 0 <= k < labels@.len() ==> can_encode(#[trigger] labels@[k].spec_bytes(), dim as nat, 1),
        dim <= usize::MAX - 63,
    ensures
        hv.dim == dim,
        hv.wf(),
        forall|i: int| 0 <= i < dim ==> #[trigger] hv.bit(i) == some_label_bit(labels@, dim as nat, i),
{
    let mut acc = Hypervector::new(dim);
    let wc = (dim + 63) / 64;
    assert forall|i: int| 0 <= i < wc * 64 implies !#[trigger] acc.bit(i) by {
        assert(i / 64 < wc) by (nonlinear_arith)
            requires
                0 <= i < wc * 64,
        ;
        lemma_zero_bit((i % 64) as u64);
    }
    let mut k: usize = 0;
    while k < labels.len()
        invariant
            k <= labels@.len(),
            acc.dim == dim,
            acc.words@.len() == wc,
            wc == words_for(dim as nat),
            forall|j: int| 0 <= j < labels@.len() ==> can_encode(#[trigger] labels@[j].spec_bytes(), dim as nat, 1),
            forall|i: int|
                0 <= i < wc * 64 ==> #[trigger] acc.bit(i) == (i < dim && some_label_bit(
                    labels@.take(k as int),
                    dim as nat,
                    i,
                )),
        decreases labels@.len() - k,
    {
        let hv = encode_str(labels[k], dim);
        let ghost before = acc;
        let mut w: usize = 0;
        while w < hv.words.len()
            invariant
                w <= wc,
                hv.words@.len() == wc,
                acc.dim == dim,
                acc.words@.len() == wc,
                forall|v: int| 0 <= v < w ==> #[trigger] acc.words@[v] == before.words@[v] | hv.words@[v],
                forall|v: int| w <= v < wc ==> #[trigger] acc.words@[v] == before.words@[v],
            decreases wc - w,
        {
            let nw = acc.words[w] | hv.words[w];
            acc.words.set(w, nw);
            w = w + 1;
        }
        assert forall|i: int| 0 <= i < wc * 64 implies #[trigger] acc.bit(i) == (i < dim && some_label_bit(
            labels@.take(k as int + 1),
            dim as nat,
            i,
        )) by {
            assert(i / 64 < wc) by (nonlinear_arith)
                requires
                    0 <= i < wc * 64,
            ;
            let v = i / 64;
            let x = before.words@[v];
            let y = hv.words@[v];
            let sh = (i % 64) as u64;
            assert(((x | y) >> sh) & 1u64 == 1u64 <==> ((x >> sh) & 1u64 == 1u64 || (y >> sh) & 1u64
                == 1u64)) by (bit_vector)
                requires
                    sh < 64,
            ;
            assert(before.bit(i) == (i < dim && some_label_bit(labels@.take(k as int), dim as nat, i)));
            let lk = labels@.take(k as int + 1);
            let lp = labels@.take(k as int);
            if i < dim {
                assert(hv.bit(i) == encoding_bit(labels@[k as int].spec_bytes(), dim as nat, 1, true, i));
                assert(lk[k as int] == labels@[k as int]);
                if some_label_bit(lp, dim as nat, i) {
                    let j = choose|j: int| 0 <= j < lp.len() && encoding_bit(#[trigger] lp[j].spec_bytes(), dim as nat, 1, true, i);
                    assert(lk[j] == lp[j]);
                }
                if some_label_bit(lk, dim as nat, i) && !hv.bit(i) {
                    let j = choose|j: int| 0 <= j < lk.len() && encoding_bit(#[trigger] lk[j].spec_bytes(), dim as nat, 1, true, i);
                    assert(j < k);
                    assert(lp[j] == lk[j]);
                }
            } else {
                assert(!hv.bit(i));
            }
        }
        k = k + 1;
    }
    assert(labels@.take(labels@.len() as int) =~= labels@);
    assert forall|i: int| acc.dim <= i < acc.words@.len() * 64 implies !#[trigger] acc.bit(i) by {}
    acc
}

/// Encoding is deterministic: two encodings of the same bytes with the same
/// parameters have the same words.
pub proof fn law_encoding_deterministic(
    a: Hypervector,
    c: Hypervector,
    b: Seq<u8>,
    dim: nat,
    mg: nat,
    positional: bool,
)
    requires
        is_encoding_of(a, b, dim, mg, positional),
        is_encoding_of(c, b, dim, mg, positional),
    ensures
        a.words@ == c.words@,
{
    assert forall|j: int| 0 <= j < a.words@.len() * 64 implies #[trigger] bit_at(a.words@, j) == bit_at(
        c.words@,
        j,
    ) by {
        if j < dim {
            assert(a.bit(j) == c.bit(j));
        } else {
            assert(!a.bit(j));
            assert(!c.bit(j));
        }
    }
    crate::hypervector::lemma_same_bits_same_words(a.words@, c.words@);
}

/// The hashes of the n-grams of `b` with widths `mg..=3`, wherever they occur.
pub open spec fn gram_hashes(b: Seq<u8>, mg: nat) -> Set<u64> {
    Set::new(|h: u64| has_hash(grams_upto(b, mg, b.len() as int), h))
}

/// Some gram of `g` has hash `h`.
pub open spec fn has_hash(g: Seq<(u64, usize)>, h: u64) -> bool {
    exists|j: int| 0 <= j < g.len() && #[trigger] g[j].0 == h
}

proof fn lemma_min_same(g1: Seq<(u64, usize)>, g2: Seq<(u64, usize)>, lo: int)
    requires
        forall|h: u64| #[trigger] has_hash(g1, h) == has_hash(g2, h),
    ensures
        min_hash_above(g1, lo) == min_hash_above(g2, lo),
{
    lemma_min_hash_above(g1, lo);
    lemma_min_hash_above(g2, lo);
    match min_hash_above(g1, lo) {
        Some(h1) => {
            assert(has_hash(g1, h1));
            assert(has_hash(g2, h1));
            let j2 = choose|j: int| 0 <= j < g2.len() && #[trigger] g2[j].0 == h1;
            assert(g2[j2].0 as int > lo);
            match min_hash_above(g2, lo) {
                Some(h2) => {
                    assert(has_hash(g2, h2));
                    assert(has_hash(g1, h2));
                    let k1 = choose|j: int| 0 <= j < g1.len() && #[trigger] g1[j].0 == h2;
                    assert(h1 <= g1[k1].0);
                    assert(h2 <= g2[j2].0);
                },
                None => {},
            }
        },
        None => {
            match min_hash_above(g2, lo) {
                Some(h2) => {
                    assert(has_hash(g2, h2));
                    assert(has_hash(g1, h2));
                    let k1 = choose|j: int| 0 <= j < g1.len() && #[trigger] g1[j].0 == h2;
                    assert(g1[k1].0 as int <= lo);
                },
                None => {},
            }
        },
    }
}

proof fn lemma_selected_same(g1: Seq<(u64, usize)>, g2: Seq<(u64, usize)>, k: nat)
    requires
        forall|h: u64| #[trigger] has_hash(g1, h) == has_hash(g2, h),
    ensures
        selected(g1, k) == selected(g2, k),
    decreases k,
{
    if k > 0 {
        lemma_selected_same(g1, g2, (k - 1) as nat);
        let s = selected(g1, (k - 1) as nat);
        let lo: int = if s.len() == 0 { -1 } else { s.last() as int };
        lemma_min_same(g1, g2, lo);
    }
}

proof fn lemma_xor_unpositioned(
    g1: Seq<(u64, usize)>,
    g2: Seq<(u64, usize)>,
    sel: Seq<u64>,
    dim: nat,
    i: int,
    k: int,
)
    ensures
        xor_of_bases(g1, sel, false, dim, i, k) == xor_of_bases(g2, sel, false, dim, i, k),
    decreases k,
{
    if k > 0 {
        lemma_xor_unpositioned(g1, g2, sel, dim, i, k - 1);
    }
}

/// Where a gram occurs does not matter to the position-invariant encoding:
/// byte strings with the same set of n-gram hashes encode alike, so
/// `abab` and `ababab` have the same encoding.
pub proof fn law_unpositioned_encoding_reads_gram_set(a: Seq<u8>, b: Seq<u8>, dim: nat, mg: nat, i: int)
    requires
        gram_hashes(a, mg) == gram_hashes(b, mg),
    ensures
        encoding_bit(a, dim, mg, false, i) == encoding_bit(b, dim, mg, false, i),
{
    let g1 = grams_upto(a, mg, a.len() as int);
    let g2 = grams_upto(b, mg, b.len() as int);
    assert forall|h: u64| #[trigger] has_hash(g1, h) == has_hash(g2, h) by {
        assert(gram_hashes(a, mg).contains(h) == gram_hashes(b, mg).contains(h));
        assert(gram_hashes(a, mg).contains(h) == has_hash(g1, h));
        assert(gram_hashes(b, mg).contains(h) == has_hash(g2, h));
    }
    lemma_selected_same(g1, g2, MAX_GRAMS as nat);
    let sel = selected(g1, MAX_GRAMS as nat);
    lemma_xor_unpositioned(g1, g2, sel, dim, i, sel.len() as int);
}

/// The distinct byte windows of `b` whose width is from `mg` to 3.
pub open spec fn gram_windows(b: Seq<u8>, mg: nat) -> Set<Seq<u8>> {
    Set::new(
        |w: Seq<u8>|
            mg <= w.len() <= 3 && exists|j: int| 0 <= j <= b.len() - w.len() && #[trigger] b.subrange(j, j + w.len()) == w,
    )
}

/// Some window of `b` starting before `i`, of width `mg` to 3, hashes to `h`.
pub open spec fn window_hash_before(b: Seq<u8>, mg: nat, i: int, h: u64) -> bool {
    exists|j: int, w: int|
        0 <= j < i && mg <= w <= 3 && j + w <= b.len() && #[trigger] fnv1a_spec(b.subrange(j, j + w)) == h
}

proof fn lemma_window_hashes(b: Seq<u8>, mg: nat, i: int, h: u64)
    requires
        1 <= mg,
        0 <= i <= b.len(),
    ensures
        has_hash(grams_upto(b, mg, i), h) == window_hash_before(b, mg, i, h),
    decreases i,
{
    if i > 0 {
        lemma_window_hashes(b, mg, i - 1, h);
        let g0 = grams_upto(b, mg, i - 1);
        let g1 = grams_at(b, mg, i - 1);
        let g = grams_upto(b, mg, i);
        assert(g == g0 + g1);
        if has_hash(g, h) {
            let k = choose|k: int| 0 <= k < g.len() && #[trigger] g[k].0 == h;
            if k < g0.len() {
                assert(g0[k] == g[k]);
                assert(has_hash(g0, h));
                let (j, w) = choose|j: int, w: int|
                    0 <= j < i - 1 && mg <= w <= 3 && j + w <= b.len() && #[trigger] fnv1a_spec(b.subrange(j, j + w)) == h;
                assert(fnv1a_spec(b.subrange(j, j + w)) == h);
            } else {
                let kk = k - g0.len();
                assert(g1[kk] == g[k]);
                let w = mg + kk;
                assert(fnv1a_spec(b.subrange(i - 1, i - 1 + w)) == h);
            }
        }
        if window_hash_before(b, mg, i, h) {
            let (j, w) = choose|j: int, w: int|
                0 <= j < i && mg <= w <= 3 && j + w <= b.len() && #[trigger] fnv1a_spec(b.subrange(j, j + w)) == h;
            if j < i - 1 {
                assert(window_hash_before(b, mg, i - 1, h));
                let k = choose|k: int| 0 <= k < g0.len() && #[trigger] g0[k].0 == h;
                assert(g[k] == g0[k]);
            } else {
                let kk = w - mg;
                assert(g1[kk].0 == fnv1a_spec(b.subrange(i - 1, i - 1 + mg + kk)));
                assert(g[g0.len() + kk] == g1[kk]);
            }
        }
    }
}

proof fn lemma_windows_hash_alike(a: Seq<u8>, b: Seq<u8>, mg: nat)
    requires
        1 <= mg,
        gram_windows(a, mg) == gram_windows(b, mg),
    ensures
        gram_hashes(a, mg) == gram_hashes(b, mg),
{
    assert forall|h: u64| gram_hashes(a, mg).contains(h) implies gram_hashes(b, mg).contains(h) by {
        lemma_window_hashes(a, mg, a.len() as int, h);
        lemma_window_hashes(b, mg, b.len() as int, h);
        let (j, w) = choose|j: int, w: int|
            0 <= j < a.len() && mg <= w <= 3 && j + w <= a.len() && #[trigger] fnv1a_spec(a.subrange(j, j + w)) == h;
        let win = a.subrange(j, j + w);
        assert(gram_windows(a, mg).contains(win));
        assert(gram_windows(b, mg).contains(win));
        let j2 = choose|j2: int| 0 <= j2 <= b.len() - win.len() && #[trigger] b.subrange(j2, j2 + win.len()) == win;
        assert(fnv1a_spec(b.subrange(j2, j2 + w)) == h);
    }
    assert forall|h: u64| gram_hashes(b, mg).contains(h) implies gram_hashes(a, mg).contains(h) by {
        lemma_window_hashes(a, mg, a.len() as int, h);
        lemma_window_hashes(b, mg, b.len() as int, h);
        let (j, w) = choose|j: int, w: int|
            0 <= j < b.len() && mg <= w <= 3 && j + w <= b.len() && #[trigger] fnv1a_spec(b.subrange(j, j + w)) == h;
        let win = b.subrange(j, j + w);
        assert(gram_windows(b, mg).contains(win));
        assert(gram_windows(a, mg).contains(win));
        let j2 = choose|j2: int| 0 <= j2 <= a.len() - win.len() && #[trigger] a.subrange(j2, j2 + win.len()) == win;
        assert(fnv1a_spec(a.subrange(j2, j2 + w)) == h);
    }
    assert(gram_hashes(a, mg) =~= gram_hashes(b, mg));
}

/// Where a gram occurs does not matter to the position-invariant encoding:
/// byte strings with the same distinct windows of one to three bytes encode
/// alike, so `abab` and `ababab` have the same encoding.
pub proof fn law_unpositioned_encoding_reads_windows(a: Seq<u8>, b: Seq<u8>, dim: nat, i: int)
    requires
        gram_windows(a, 1) == gram_windows(b, 1),
    ensures
        encoding_bit(a, dim, 1, false, i) == encoding_bit(b, dim, 1, false, i),
{
    lemma_windows_hash_alike(a, b, 1);
    law_unpositioned_encoding_reads_gram_set(a, b, dim, 1, i);
}

/// The aggregate of labels reads only which labels occur: their order and
/// repeats do not matter.
pub proof fn law_aggregate_reads_label_set(a: Seq<&str>, b: Seq<&str>, dim: nat, i: int)
    requires
        forall|k: int| 0 <= k < a.len() ==> exists|m: int| 0 <= m < b.len() && (#[trigger] b[m].spec_bytes())
            == (#[trigger] a[k].spec_bytes()),
        forall|m: int| 0 <= m < b.len() ==> exists|k: int| 0 <= k < a.len() && (#[trigger] a[k].spec_bytes())
            == (#[trigger] b[m].spec_bytes()),
    ensures
        some_label_bit(a, dim, i) == some_label_bit(b, dim, i),
{
    if some_label_bit(a, dim, i) {
        let k = choose|k: int| 0 <= k < a.len() && encoding_bit(#[trigger] a[k].spec_bytes(), dim, 1, true, i);
        let m = choose|m: int| 0 <= m < b.len() && (#[trigger] b[m].spec_bytes()) == a[k].spec_bytes();
        assert(encoding_bit(b[m].spec_bytes(), dim, 1, true, i));
    }
    if some_label_bit(b, dim, i) {
        let m = choose|m: int| 0 <= m < b.len() && encoding_bit(#[trigger] b[m].spec_bytes(), dim, 1, true, i);
        let k = choose|k: int| 0 <= k < a.len() && (#[trigger] a[k].spec_bytes()) == b[m].spec_bytes();
        assert(encoding_bit(a[k].spec_bytes(), dim, 1, true, i));
    }
}

} // verus!
