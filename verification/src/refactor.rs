//! Rule-based source rewrites: a refactoring hint is applied to a source
//! text by its keywords, and Hamming-distance code is rewritten to call
//! popcount helpers. All positions are in characters; every delimiter the
//! rules search for is ASCII.

use vstd::prelude::*;
use crate::corpus::{is_white, lines_of, lines_vec, trimmed, trimmed_chars, white};
use crate::text::{chars_of, has_infix, joined, lowercase_of, push_char, to_lowercase, contains_str};

verus! {

/// The first position at or after `i` where `n` occurs in `h`.
pub open spec fn first_match(h: Seq<char>, n: Seq<char>, i: int) -> Option<int>
    decreases h.len() + 1 - i,
{
    if i < 0 || i + n.len() > h.len() {
        None
    } else if h.subrange(i, i + n.len()) == n {
        Some(i)
    } else {
        first_match(h, n, i + 1)
    }
}

/// The last position at or before `i` where `n` occurs in `h`.
pub open spec fn last_match(h: Seq<char>, n: Seq<char>, i: int) -> Option<int>
    decreases i + 1,
{
    if i < 0 {
        None
    } else if i + n.len() <= h.len() && h.subrange(i, i + n.len()) == n {
        Some(i)
    } else {
        last_match(h, n, i - 1)
    }
}

fn matches_at(h: &Vec<char>, n: &Vec<char>, i: usize) -> (r: bool)
    requires
        i + n@.len() <= h@.len(),
    ensures
        r == (h@.subrange(i as int, i + n@.len()) == n@),
{
    let hl = h.len();
    let mut k: usize = 0;
    while k < n.len()
        invariant
            k <= n@.len(),
            hl == h@.len(),
            i + n@.len() <= h@.len(),
            forall|q: int| 0 <= q < k ==> h@[i + q] == n@[q],
        decreases n@.len() - k,
    {
        if h[i + k] != n[k] {
            assert(h@.subrange(i as int, i + n@.len())[k as int] != n@[k as int]);
            return false;
        }
        k = k + 1;
    }
    assert(h@.subrange(i as int, i + n@.len()) =~= n@);
    true
}

/// The first occurrence of `n` in `h` at or after `from`.
pub fn find_from(h: &Vec<char>, n: &Vec<char>, from: usize) -> (r: Option<usize>)
    ensures
        first_match(h@, n@, from as int) == match r {
            Some(p) => Some(p as int),
            None => None,
        },
        r matches Some(p) ==> p + n@.len() <= h@.len(),
{
    let hl = h.len();
    if n.len() > hl {
        return None;
    }
    let last = hl - n.len();
    let mut i = from;
    while i <= last
        invariant
            last + n@.len() == h@.len(),
            from <= i,
            first_match(h@, n@, from as int) == first_match(h@, n@, i as int),
        decreases last + 1 - i,
    {
        if matches_at(h, n, i) {
            return Some(i);
        }
        if i == last {
            assert(first_match(h@, n@, i + 1) is None);
            return None;
        }
        i = i + 1;
    }
    None
}

/// The last occurrence of `n` in `h`.
pub fn rfind(h: &Vec<char>, n: &Vec<char>) -> (r: Option<usize>)
    ensures
        last_match(h@, n@, h@.len() as int) == match r {
            Some(p) => Some(p as int),
            None => None,
        },
        r matches Some(p) ==> p + n@.len() <= h@.len(),
{
    let hl = h.len();
    if n.len() > hl {
        proof {
            lemma_last_none(h@, n@, hl as int);
        }
        return None;
    }
    let mut i: usize = hl - n.len();
    proof {
        lemma_last_skip(h@, n@, hl as int, i as int);
    }
    loop
        invariant
            i + n@.len() <= h@.len(),
            last_match(h@, n@, h@.len() as int) == last_match(h@, n@, i as int),
        decreases i,
    {
        if matches_at(h, n, i) {
            return Some(i);
        }
        if i == 0 {
            assert(last_match(h@, n@, -1) is None);
            return None;
        }
        i = i - 1;
    }
}

proof fn lemma_last_none(h: Seq<char>, n: Seq<char>, i: int)
    requires
        n.len() > h.len(),
    ensures
        last_match(h, n, i) is None,
    decreases i + 1,
{
    if i >= 0 {
        lemma_last_none(h, n, i - 1);
    }
}

proof fn lemma_last_skip(h: Seq<char>, n: Seq<char>, i: int, j: int)
    requires
        j <= i,
        j + n.len() == h.len(),
    ensures
        last_match(h, n, i) == last_match(h, n, j),
    decreases i - j,
{
    if i > j {
        assert(i + n.len() > h.len());
        lemma_last_skip(h, n, i - 1, j);
    }
}

/// Where the block whose body starts at `j`, `depth` braces deep, closes:
/// each `{` opens one level and each `}` closes one; `None` when the text
/// ends first.
pub open spec fn close_at(cs: Seq<char>, j: int, depth: nat) -> Option<int>
    decreases cs.len() - j,
{
    if j < 0 || j >= cs.len() {
        None
    } else {
        let d = if cs[j] == '{' { depth + 1 } else if cs[j] == '}' { (depth - 1) as nat } else { depth };
        if d == 0 { Some(j) } else { close_at(cs, j + 1, d) }
    }
}

/// `r` with the body of the first function whose signature is `sig`
/// replaced by `body`: from the first `{` after the signature to its
/// matching `}`, which becomes a newline, the body, a newline and
/// `    }` with a newline. `None` when the signature, its brace or the
/// matching brace is missing.
pub open spec fn replaced_fn(r: Seq<char>, sig: Seq<char>, body: Seq<char>) -> Option<Seq<char>> {
    match first_match(r, sig, 0) {
        None => None,
        Some(p) => match first_match(r, seq!['{'], p) {
            None => None,
            Some(b) => match close_at(r, b + 1, 1) {
                None => None,
                Some(j) => Some(r.take(b + 1) + seq!['\n'] + body + seq!['\n'] + "    }\n"@ + r.skip(j + 1)),
            },
        },
    }
}

fn push_str_chars(out: &mut Vec<char>, s: &str)
    ensures
        final(out)@ == old(out)@ + s@,
{
    let cs = chars_of(s);
    push_chars(out, &cs, 0, cs.len());
    assert(cs@.subrange(0, cs@.len() as int) =~= cs@);
}

fn push_chars(out: &mut Vec<char>, src: &Vec<char>, a: usize, b: usize)
    requires
        a <= b <= src@.len(),
    ensures
        final(out)@ == old(out)@ + src@.subrange(a as int, b as int),
{
    let mut k = a;
    while k < b
        invariant
            a <= k <= b <= src@.len(),
            out@ == old(out)@ + src@.subrange(a as int, k as int),
        decreases b - k,
    {
        assert(src@.subrange(a as int, k + 1) =~= src@.subrange(a as int, k as int).push(src@[k as int]));
        out.push(src[k]);
        k = k + 1;
    }
}

fn matching_close(cs: &Vec<char>, start: usize) -> (r: Option<usize>)
    requires
        start >= 1,
    ensures
        close_at(cs@, start as int, 1) == match r {
            Some(j) => Some(j as int),
            None => None,
        },
        r matches Some(j) ==> start <= j < cs@.len(),
{
    let mut depth: usize = 1;
    let mut j = start;
    assert(cs.len() == cs@.len());
    while j < cs.len()
        invariant
            start >= 1,
            cs.len() == cs@.len(),
            depth >= 1,
            depth <= j - start + 1 || j < start,
            j >= start,
            close_at(cs@, start as int, 1) == close_at(cs@, j as int, depth as nat),
        decreases cs@.len() - j,
    {
        let c = cs[j];
        if c == '{' {
            depth = depth + 1;
        }
        if c == '}' {
            depth = depth - 1;
        }
        if depth == 0 {
            return Some(j);
        }
        j = j + 1;
    }
    None
}

/// Replaces the body of the first function with signature `sig` in `r` by
/// `body`; whether it did.
pub fn replace_fn(r: &mut Vec<char>, sig: &str, body: &str) -> (done: bool)
    ensures
        match replaced_fn(old(r)@, sig@, body@) {
            Some(t) => done && final(r)@ == t,
            None => !done && final(r)@ == old(r)@,
        },
        final(r)@.len() <= old(r)@.len() + body@.len() + 8,
{
    let sig_cs = chars_of(sig);
    let p = match find_from(r, &sig_cs, 0) {
        Some(p) => p,
        None => return false,
    };
    let brace: Vec<char> = vec!['{'];
    assert(brace@ =~= seq!['{']);
    let b = match find_from(r, &brace, p) {
        Some(b) => b,
        None => return false,
    };
    assert(r.len() == r@.len());
    let start = b + 1;
    let end = match matching_close(r, start) {
        Some(j) => j + 1,
        None => return false,
    };
    proof {
        reveal_strlit("    }\n");
    }
    let mut out: Vec<char> = Vec::new();
    push_chars(&mut out, r, 0, start);
    out.push('\n');
    push_str_chars(&mut out, body);
    out.push('\n');
    push_str_chars(&mut out, "    }\n");
    push_chars(&mut out, r, end, r.len());
    proof {
        assert(r@.subrange(0, start as int) =~= r@.take(start as int));
        assert(r@.subrange(end as int, r@.len() as int) =~= r@.skip(end as int));
        assert(out@ =~= r@.take(start as int) + seq!['\n'] + body@ + seq!['\n'] + "    }\n"@ + r@.skip(end as int));
    }
    *r = out;
    true
}

/// The popcount helpers inserted after a rewrite.
pub const SIMD_HELPERS: &'static str = "\n// SIMD-optimized popcount helpers — unrolled 4-wide for cache locality
pub fn popcount_chunks(words: &[u64]) -> u64 {
    let mut total: u64 = 0;
    let chunks = words.chunks_exact(4);
    let remainder = chunks.remainder();
    for chunk in chunks {
        total += chunk[0].count_ones() as u64
               + chunk[1].count_ones() as u64
               + chunk[2].count_ones() as u64
               + chunk[3].count_ones() as u64;
    }
    for &w in remainder {
        total += w.count_ones() as u64;
    }
    total
}

pub fn popcount_xor_pair(a: &[u64], b: &[u64], n: usize) -> u64 {
    let limit = a.len().min(b.len()).min(n);
    let (a_main, a_rem) = a[..limit].split_at(limit / 4 * 4);
    let (b_main, b_rem) = b[..limit].split_at(limit / 4 * 4);
    let mut total: u64 = 0;
    for i in (0..a_main.len()).step_by(4) {
        total += (a_main[i] ^ b_main[i]).count_ones() as u64
               + (a_main[i+1] ^ b_main[i+1]).count_ones() as u64
               + (a_main[i+2] ^ b_main[i+2]).count_ones() as u64
               + (a_main[i+3] ^ b_main[i+3]).count_ones() as u64;
    }
    for i in 0..a_rem.len() {
        total += (a_rem[i] ^ b_rem[i]).count_ones() as u64;
    }
    total
}
";

/// The signature of `Hypervector::hamming_distance`.
pub const SIG_HAMMING: &'static str = "pub fn hamming_distance(&self, other: &Hypervector) -> f64";

/// The popcount-based body that replaces it.
pub const BODY_HAMMING: &'static str = "        let wc = self.word_count().min(other.word_count());\n         let mismatches = popcount_xor_pair(&self.words, &other.words, wc);\n         mismatches as f64 / self.dim as f64";

/// The signature of `Hypervector::partial_hamming_distance`.
pub const SIG_PARTIAL_HAMMING: &'static str = "pub fn partial_hamming_distance(&self, other: &Hypervector, n_words: usize)";

/// The popcount-based body that replaces it.
pub const BODY_PARTIAL_HAMMING: &'static str = "        let wc = self.word_count().min(other.word_count()).min(n_words);\n         if wc == 0 { return 0.5; }\n         let mismatches = popcount_xor_pair(&self.words, &other.words, wc);\n         mismatches as f64 / (wc * 64) as f64";

/// The signature of `Hypervector::entropy`.
pub const SIG_ENTROPY: &'static str = "pub fn entropy(&self)";

/// The popcount-based body that replaces it.
pub const BODY_ENTROPY: &'static str = "        let ones = popcount_chunks(&self.words);\n         ones as f64 / self.dim as f64";

/// The signature of `WaveCube::global_entropy`.
pub const SIG_GLOBAL_ENTROPY: &'static str = "pub fn global_entropy(&self) -> f64";

/// The popcount-based body that replaces it.
pub const BODY_GLOBAL_ENTROPY: &'static str = "        let total_bits = Self::TOTAL_CELLS * self.dim;\n        let ones: u64 = self.cube.iter().map(|hv| hv.entropy() * hv.dim as f64).sum::<f64>() as u64;\n        ones as f64 / total_bits as f64";

/// The signature of `WaveCube::coherence`.
pub const SIG_COHERENCE: &'static str = "pub fn coherence(&self) -> f64";

/// The popcount-based body that replaces it.
pub const BODY_COHERENCE: &'static str = "        if N < 3 { return 0.0; }\n        let mut sum = 0.0;\n        let mut count = 0;\n        let mut i = 0;\n        while i < S {\n            let a = self.cell(i, i, i);\n            let b = self.cell(S - 1 - i, S - 1 - i, S - 1 - i);\n            sum += a.similarity(&b);\n            count += 1;\n            i += 1;\n        }\n        sum / count as f64";

/// `s` starts with `p`.
pub open spec fn starts_with(s: Seq<char>, p: Seq<char>) -> bool {
    s.len() >= p.len() && s.take(p.len() as int) == p
}

/// One rewrite: the body of the function with signature `sig` is replaced
/// when it is found, and the flag records that some rewrite happened.
pub open spec fn rewrite_step(acc: (Seq<char>, bool), sig: Seq<char>, body: Seq<char>) -> (Seq<char>, bool) {
    match replaced_fn(acc.0, sig, body) {
        Some(t) => (t, true),
        None => acc,
    }
}

/// The five rewrites, in order: Hamming distance, partial Hamming distance,
/// entropy, global entropy and coherence.
pub open spec fn simd_rewritten(src: Seq<char>) -> (Seq<char>, bool) {
    let s1 = rewrite_step((src, false), SIG_HAMMING@, BODY_HAMMING@);
    let s2 = rewrite_step(s1, SIG_PARTIAL_HAMMING@, BODY_PARTIAL_HAMMING@);
    let s3 = rewrite_step(s2, SIG_ENTROPY@, BODY_ENTROPY@);
    let s4 = rewrite_step(s3, SIG_GLOBAL_ENTROPY@, BODY_GLOBAL_ENTROPY@);
    rewrite_step(s4, SIG_COHERENCE@, BODY_COHERENCE@)
}

/// Every character is whitespace.
pub open spec fn all_white(s: Seq<char>) -> bool {
    forall|i: int| 0 <= i < s.len() ==> is_white(#[trigger] s[i])
}

/// `r` with the helpers inserted: before a test module that directly
/// follows a closing brace, else after the last closing brace when only
/// whitespace follows it, else nowhere.
pub open spec fn with_helpers(r: Seq<char>) -> Seq<char> {
    match first_match(r, "\n}\n\n#[cfg(test)]"@, 0) {
        Some(e) => r.take(e + 2) + SIMD_HELPERS@ + r.skip(e + 2),
        None => match last_match(r, "}\n\n"@, r.len() as int) {
            Some(e) => if all_white(r.skip(e + 2)) {
                r.take(e + 2) + SIMD_HELPERS@ + r.skip(e + 2)
            } else {
                r
            },
            None => r,
        },
    }
}

/// The lines kept from a context: those whose trimmed text starts neither
/// with `/*` nor with `*`.
pub open spec fn kept_context(ls: Seq<Seq<char>>) -> Seq<Seq<char>>
    decreases ls.len(),
{
    if ls.len() == 0 {
        Seq::empty()
    } else {
        kept_context(ls.drop_last()) + if !starts_with(trimmed(ls.last()), "/*"@) && !starts_with(
            trimmed(ls.last()),
            "*"@,
        ) {
            seq![ls.last()]
        } else {
            Seq::empty()
        }
    }
}

/// The context without comment lines, joined with newlines.
pub open spec fn sanitized(ctx: Seq<char>) -> Seq<char> {
    joined(kept_context(lines_of(ctx)), "\n"@)
}

/// The result of the popcount rewrite of `source` for hint `desc`: when a
/// rewrite happened, or the code counts ones without the helpers, the
/// rewritten source with the helpers under a refactor line; otherwise the
/// sanitized context and the source under a refactor line.
pub open spec fn optimized(source: Seq<char>, desc: Seq<char>, ctx: Seq<char>) -> Seq<char> {
    let (r, rep) = simd_rewritten(source);
    if rep || (has_infix(r, ".count_ones()"@) && !has_infix(r, "popcount_chunks"@)) {
        "// refactor: "@ + desc + " — SIMD-unrolled popcount (MoE+rule)\n"@ + with_helpers(r)
    } else {
        "// refactor: "@ + desc + "\n// MoE patterns (sanitized):\n"@ + sanitized(ctx) + "\n\n"@ + source
    }
}

pub(crate) fn starts_with_str(s: &Vec<char>, p: &str) -> (r: bool)
    ensures
        r == starts_with(s@, p@),
{
    let pc = chars_of(p);
    if pc.len() > s.len() {
        return false;
    }
    let mut k: usize = 0;
    while k < pc.len()
        invariant
            k <= pc@.len() <= s@.len(),
            pc@ == p@,
            forall|q: int| 0 <= q < k ==> s@[q] == pc@[q],
        decreases pc@.len() - k,
    {
        if s[k] != pc[k] {
            assert(s@.take(pc@.len() as int)[k as int] != pc@[k as int]);
            return false;
        }
        k = k + 1;
    }
    assert(s@.take(pc@.len() as int) =~= pc@);
    true
}

fn join_lines(ls: &Vec<Vec<char>>) -> (r: Vec<char>)
    ensures
        r@ == joined(ls@.map_values(|l: Vec<char>| l@), "\n"@),
{
    proof {
        reveal_strlit("\n");
    }
    let mut r: Vec<char> = Vec::new();
    let mut i: usize = 0;
    while i < ls.len()
        invariant
            i <= ls@.len(),
            "\n"@ == seq!['\n'],
            r@ == joined(ls@.take(i as int).map_values(|l: Vec<char>| l@), "\n"@),
        decreases ls@.len() - i,
    {
        let ghost pre = ls@.take(i as int).map_values(|l: Vec<char>| l@);
        let ghost post = ls@.take(i + 1).map_values(|l: Vec<char>| l@);
        assert(post.drop_last() =~= pre);
        assert(post.last() == ls@[i as int]@);
        if i > 0 {
            r.push('\n');
        }
        push_chars(&mut r, &ls[i], 0, ls[i].len());
        assert(ls@[i as int]@.subrange(0, ls@[i as int]@.len() as int) =~= ls@[i as int]@);
        proof {
            if i == 0 {
                assert(post.len() == 1);
                assert(r@ =~= post[0]);
            } else {
                assert(r@ =~= joined(pre, "\n"@) + "\n"@ + post.last());
            }
        }
        i = i + 1;
    }
    assert(ls@.take(ls@.len() as int) =~= ls@);
    r
}

fn sanitize(ctx: &str) -> (r: Vec<char>)
    ensures
        r@ == sanitized(ctx@),
{
    let cs = chars_of(ctx);
    let ls = lines_vec(&cs);
    let mut kept: Vec<Vec<char>> = Vec::new();
    let ghost all = lines_of(cs@);
    let mut i: usize = 0;
    while i < ls.len()
        invariant
            i <= ls@.len(),
            all == lines_of(cs@),
            ls@.len() == all.len(),
            forall|k: int| 0 <= k < ls@.len() ==> (#[trigger] ls@[k])@ == all[k],
            kept@.map_values(|l: Vec<char>| l@) == kept_context(all.take(i as int)),
        decreases ls@.len() - i,
    {
        assert(all.take(i + 1).drop_last() =~= all.take(i as int));
        assert(all.take(i + 1).last() == ls@[i as int]@);
        let t = trimmed_chars(&ls[i]);
        let keep = !starts_with_str(&t, "/*") && !starts_with_str(&t, "*");
        let ghost before = kept@.map_values(|l: Vec<char>| l@);
        if keep {
            let mut line: Vec<char> = Vec::new();
            push_chars(&mut line, &ls[i], 0, ls[i].len());
            assert(ls@[i as int]@.subrange(0, ls@[i as int]@.len() as int) =~= ls@[i as int]@);
            kept.push(line);
            assert(kept@.map_values(|l: Vec<char>| l@) =~= before + seq![all[i as int]]);
        } else {
            assert(kept_context(all.take(i + 1)) =~= kept_context(all.take(i as int)));
        }
        i = i + 1;
    }
    assert(all.take(all.len() as int) =~= all);
    join_lines(&kept)
}

fn all_white_from(r: &Vec<char>, from: usize) -> (b: bool)
    requires
        from <= r@.len(),
    ensures
        b == all_white(r@.skip(from as int)),
{
    let mut k = from;
    while k < r.len()
        invariant
            from <= k <= r@.len(),
            forall|q: int| from <= q < k ==> is_white(#[trigger] r@[q]),
        decreases r@.len() - k,
    {
        if !white(r[k]) {
            assert(!is_white(r@.skip(from as int)[k - from]));
            return false;
        }
        k = k + 1;
    }
    assert forall|q: int| 0 <= q < r@.skip(from as int).len() implies is_white(#[trigger] r@.skip(from as int)[q]) by {
        assert(r@.skip(from as int)[q] == r@[from + q]);
    }
    true
}

fn insert_helpers(r: &Vec<char>, at: usize) -> (out: Vec<char>)
    requires
        at <= r@.len(),
    ensures
        out@ == r@.take(at as int) + SIMD_HELPERS@ + r@.skip(at as int),
{
    let mut out: Vec<char> = Vec::new();
    push_chars(&mut out, r, 0, at);
    push_str_chars(&mut out, SIMD_HELPERS);
    push_chars(&mut out, r, at, r.len());
    assert(r@.subrange(0, at as int) =~= r@.take(at as int));
    assert(r@.subrange(at as int, r@.len() as int) =~= r@.skip(at as int));
    out
}

fn helpers_placed(r: &Vec<char>) -> (out: Vec<char>)
    ensures
        out@ == with_helpers(r@),
{
    proof {
        reveal_strlit("\n}\n\n#[cfg(test)]");
        reveal_strlit("}\n\n");
    }
    let rl = r.len();
    assert(rl == r@.len());
    let test_mod = chars_of("\n}\n\n#[cfg(test)]");
    match find_from(r, &test_mod, 0) {
        Some(e) => insert_helpers(r, e + 2),
        None => {
            let close = chars_of("}\n\n");
            match rfind(r, &close) {
                Some(e) => {
                    if all_white_from(r, e + 2) {
                        insert_helpers(r, e + 2)
                    } else {
                        let mut same: Vec<char> = Vec::new();
                        push_chars(&mut same, r, 0, r.len());
                        assert(r@.subrange(0, r@.len() as int) =~= r@);
                        same
                    }
                },
                None => {
                    let mut same: Vec<char> = Vec::new();
                    push_chars(&mut same, r, 0, r.len());
                    assert(r@.subrange(0, r@.len() as int) =~= r@);
                    same
                },
            }
        },
    }
}

fn copy_chars(r: &Vec<char>) -> (out: Vec<char>)
    ensures
        out@ == r@,
{
    let mut out: Vec<char> = Vec::new();
    push_chars(&mut out, r, 0, r.len());
    assert(r@.subrange(0, r@.len() as int) =~= r@);
    out
}

/// Rewrites the Hamming-distance, entropy and coherence code of `source` to
/// use popcount helpers, as `optimized` describes.
pub fn optimize_hamming_simd(source: &str, desc: &str, ctx: &str) -> (out: String)
    ensures
        out@ == optimized(source@, desc@, ctx@),
{
    let mut result = chars_of(source);
    let ghost s1 = rewrite_step((source@, false), SIG_HAMMING@, BODY_HAMMING@);
    let d1 = replace_fn(&mut result, SIG_HAMMING, BODY_HAMMING);
    assert(result@ == s1.0 && d1 == s1.1);
    let ghost s2 = rewrite_step(s1, SIG_PARTIAL_HAMMING@, BODY_PARTIAL_HAMMING@);
    let d2 = replace_fn(&mut result, SIG_PARTIAL_HAMMING, BODY_PARTIAL_HAMMING);
    assert(result@ == s2.0 && (d1 || d2) == s2.1);
    let ghost s3 = rewrite_step(s2, SIG_ENTROPY@, BODY_ENTROPY@);
    let d3 = replace_fn(&mut result, SIG_ENTROPY, BODY_ENTROPY);
    assert(result@ == s3.0 && (d1 || d2 || d3) == s3.1);
    let ghost s4 = rewrite_step(s3, SIG_GLOBAL_ENTROPY@, BODY_GLOBAL_ENTROPY@);
    let d4 = replace_fn(&mut result, SIG_GLOBAL_ENTROPY, BODY_GLOBAL_ENTROPY);
    assert(result@ == s4.0 && (d1 || d2 || d3 || d4) == s4.1);
    let ghost s5 = rewrite_step(s4, SIG_COHERENCE@, BODY_COHERENCE@);
    let d5 = replace_fn(&mut result, SIG_COHERENCE, BODY_COHERENCE);
    assert(result@ == s5.0 && (d1 || d2 || d3 || d4 || d5) == s5.1);
    let mut replaced = d1 || d2 || d3 || d4 || d5;
    if contains_str(&result, ".count_ones()") && !contains_str(&result, "popcount_chunks") {
        replaced = true;
    }
    let mut out = String::from_str("// refactor: ");
    out.append(desc);
    if replaced {
        out.append(" — SIMD-unrolled popcount (MoE+rule)\n");
        let placed = helpers_placed(&result);
        let placed_text = string_of_chars(&placed);
        out.append(placed_text.as_str());
    } else {
        out.append("\n// MoE patterns (sanitized):\n");
        let safe = sanitize(ctx);
        let safe_text = string_of_chars(&safe);
        out.append(safe_text.as_str());
        out.append("\n\n");
        out.append(source);
    }
    out
}

fn string_of_chars(cs: &Vec<char>) -> (s: String)
    ensures
        s@ == cs@,
{
    crate::text::string_of(cs)
}

/// A source line kept by a removal hint: its trimmed text neither starts
/// with `// TODO` nor mentions `unused`.
pub open spec fn keep_line(l: Seq<char>) -> bool {
    !starts_with(trimmed(l), "// TODO"@) && !has_infix(trimmed(l), "unused"@)
}

/// The lines kept by a removal hint.
pub open spec fn kept_lines(ls: Seq<Seq<char>>) -> Seq<Seq<char>>
    decreases ls.len(),
{
    if ls.len() == 0 {
        Seq::empty()
    } else {
        kept_lines(ls.drop_last()) + if keep_line(ls.last()) { seq![ls.last()] } else { Seq::empty() }
    }
}

/// The hint asks for the popcount rewrite.
pub open spec fn simd_hint(low: Seq<char>) -> bool {
    has_infix(low, "hamming"@) || has_infix(low, "popcount"@) || has_infix(low, "simd"@) || (has_infix(
        low,
        "cache"@,
    ) && has_infix(low, "locality"@))
}

/// What applying hint `desc` with context `ctx` makes of `current`, by the
/// keywords of the lowercased hint: the popcount rewrite; the context
/// injected above the source for `add`, `impl` or `fix` when there is one; a
/// TODO line for `comment` or `doc`; the lines without TODOs or `unused`
/// for `remove` or `delete`; otherwise a refactor note above the source.
pub open spec fn refactored(current: Seq<char>, desc: Seq<char>, ctx: Seq<char>) -> Seq<char> {
    let low = lowercase_of(desc);
    if simd_hint(low) {
        optimized(current, desc, ctx)
    } else if ctx.len() > 0 && (has_infix(low, "add"@) || has_infix(low, "impl"@) || has_infix(low, "fix"@)) {
        "// refactor: "@ + desc + "\n// pattern from MoE:\n"@ + ctx + "\n\n"@ + current
    } else if has_infix(low, "comment"@) || has_infix(low, "doc"@) {
        "// TODO("@ + desc + "): "@ + desc + "\n"@ + current
    } else if has_infix(low, "remove"@) || has_infix(low, "delete"@) {
        joined(kept_lines(lines_of(current)), "\n"@)
    } else {
        "// refactor: "@ + desc + "\n// generated by Fuga agent\n"@ + current
    }
}

fn without_removed(current: &str) -> (r: Vec<char>)
    ensures
        r@ == joined(kept_lines(lines_of(current@)), "\n"@),
{
    let cs = chars_of(current);
    let ls = lines_vec(&cs);
    let mut kept: Vec<Vec<char>> = Vec::new();
    let ghost all = lines_of(cs@);
    let mut i: usize = 0;
    while i < ls.len()
        invariant
            i <= ls@.len(),
            all == lines_of(cs@),
            ls@.len() == all.len(),
            forall|k: int| 0 <= k < ls@.len() ==> (#[trigger] ls@[k])@ == all[k],
            kept@.map_values(|l: Vec<char>| l@) == kept_lines(all.take(i as int)),
        decreases ls@.len() - i,
    {
        assert(all.take(i + 1).drop_last() =~= all.take(i as int));
        assert(all.take(i + 1).last() == ls@[i as int]@);
        let t = trimmed_chars(&ls[i]);
        let keep = !starts_with_str(&t, "// TODO") && !contains_str(&t, "unused");
        let ghost before = kept@.map_values(|l: Vec<char>| l@);
        if keep {
            let line = copy_chars(&ls[i]);
            kept.push(line);
            assert(kept@.map_values(|l: Vec<char>| l@) =~= before + seq![all[i as int]]);
        } else {
            assert(kept_lines(all.take(i + 1)) =~= kept_lines(all.take(i as int)));
        }
        i = i + 1;
    }
    assert(all.take(all.len() as int) =~= all);
    join_lines(&kept)
}

/// Applies refactoring hint `desc` to `current`, with `ctx` the patterns
/// found for it, as `refactored` describes.
pub fn apply_refactor_hint(current: &str, desc: &str, ctx: &str) -> (out: String)
    ensures
        out@ == refactored(current@, desc@, ctx@),
{
    let lower = to_lowercase(desc);
    let low = chars_of(lower.as_str());
    if contains_str(&low, "hamming") || contains_str(&low, "popcount") || contains_str(&low, "simd") || (
    contains_str(&low, "cache") && contains_str(&low, "locality")) {
        return optimize_hamming_simd(current, desc, ctx);
    }
    if !ctx.is_empty() && (contains_str(&low, "add") || contains_str(&low, "impl") || contains_str(&low, "fix")) {
        let mut out = String::from_str("// refactor: ");
        out.append(desc);
        out.append("\n// pattern from MoE:\n");
        out.append(ctx);
        out.append("\n\n");
        out.append(current);
        out
    } else if contains_str(&low, "comment") || contains_str(&low, "doc") {
        let mut out = String::from_str("// TODO(");
        out.append(desc);
        out.append("): ");
        out.append(desc);
        out.append("\n");
        out.append(current);
        out
    } else if contains_str(&low, "remove") || contains_str(&low, "delete") {
        let kept = without_removed(current);
        string_of_chars(&kept)
    } else {
        let mut out = String::from_str("// refactor: ");
        out.append(desc);
        out.append("\n// generated by Fuga agent\n");
        out.append(current);
        out
    }
}

} // verus!
