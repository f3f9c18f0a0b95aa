//! Vocabulary lists: tokens ordered as strings order, by their UTF-8 bytes.

use vstd::prelude::*;
use vstd::seq_lib::{to_multiset_build, to_multiset_insert};
use vstd::utf8::{encode_utf8, encode_utf8_decode_utf8};
use crate::corpus::{lines_of, lines_vec, trimmed, trimmed_chars};
use crate::text::{chars_of, string_of};

verus! {

/// `a` sorts strictly before `b`: byte strings compared lexicographically,
/// a proper prefix first.
pub open spec fn bytes_before(a: Seq<u8>, b: Seq<u8>) -> bool
    decreases a.len(),
{
    if a.len() == 0 {
        b.len() > 0
    } else if b.len() == 0 {
        false
    } else if a[0] != b[0] {
        a[0] < b[0]
    } else {
        bytes_before(a.drop_first(), b.drop_first())
    }
}

/// `a` sorts strictly before `b` in the order of strings: by their UTF-8 bytes.
pub open spec fn text_before(a: Seq<char>, b: Seq<char>) -> bool {
    bytes_before(encode_utf8(a), encode_utf8(b))
}

/// `a` sorts no later than `b`.
pub open spec fn text_le(a: Seq<char>, b: Seq<char>) -> bool {
    !text_before(b, a)
}

proof fn lemma_bytes_irreflexive(a: Seq<u8>)
    ensures
        !bytes_before(a, a),
    decreases a.len(),
{
    if a.len() > 0 {
        lemma_bytes_irreflexive(a.drop_first());
    }
}

proof fn lemma_bytes_transitive(a: Seq<u8>, b: Seq<u8>, c: Seq<u8>)
    requires
        bytes_before(a, b),
        bytes_before(b, c),
    ensures
        bytes_before(a, c),
    decreases a.len(),
{
    if a.len() > 0 && b.len() > 0 && c.len() > 0 && a[0] == b[0] && b[0] == c[0] {
        lemma_bytes_transitive(a.drop_first(), b.drop_first(), c.drop_first());
    }
}

proof fn lemma_bytes_total(a: Seq<u8>, b: Seq<u8>)
    ensures
        a == b || bytes_before(a, b) || bytes_before(b, a),
        !(bytes_before(a, b) && bytes_before(b, a)),
    decreases a.len(),
{
    if a.len() == 0 || b.len() == 0 {
        if a.len() == 0 && b.len() == 0 {
            assert(a =~= b);
        }
    } else if a[0] == b[0] {
        let a1 = a.drop_first();
        let b1 = b.drop_first();
        lemma_bytes_total(a1, b1);
        if a1 == b1 {
            assert forall|i: int| 0 <= i < a.len() implies a[i] == b[i] by {
                if i > 0 {
                    assert(a[i] == a1[i - 1] && b[i] == b1[i - 1]);
                }
            }
            assert(a =~= b);
        }
    }
}

/// Strings with the same bytes are the same string.
proof fn lemma_text_bytes_injective(a: Seq<char>, b: Seq<char>)
    requires
        encode_utf8(a) == encode_utf8(b),
    ensures
        a == b,
{
    encode_utf8_decode_utf8(a);
    encode_utf8_decode_utf8(b);
}

/// The order on strings is a strict total order.
proof fn lemma_text_order(a: Seq<char>, b: Seq<char>, c: Seq<char>)
    ensures
        !text_before(a, a),
        a == b || text_before(a, b) || text_before(b, a),
        !(text_before(a, b) && text_before(b, a)),
        text_before(a, b) && text_before(b, c) ==> text_before(a, c),
{
    lemma_bytes_irreflexive(encode_utf8(a));
    lemma_bytes_total(encode_utf8(a), encode_utf8(b));
    if encode_utf8(a) == encode_utf8(b) {
        lemma_text_bytes_injective(a, b);
    }
    if text_before(a, b) && text_before(b, c) {
        lemma_bytes_transitive(encode_utf8(a), encode_utf8(b), encode_utf8(c));
    }
}

/// Whether byte string `a` sorts strictly before `b`.
fn bytes_lt(a: &[u8], b: &[u8]) -> (r: bool)
    ensures
        r == bytes_before(a@, b@),
{
    let mut i: usize = 0;
    assert(a@.skip(0) =~= a@ && b@.skip(0) =~= b@);
    while i < a.len() && i < b.len() && a[i] == b[i]
        invariant
            i <= a@.len(),
            i <= b@.len(),
            bytes_before(a@, b@) == bytes_before(a@.skip(i as int), b@.skip(i as int)),
        decreases a@.len() - i,
    {
        assert(a@.skip(i as int).drop_first() =~= a@.skip(i + 1));
        assert(b@.skip(i as int).drop_first() =~= b@.skip(i + 1));
        i = i + 1;
    }
    if i < a.len() && i < b.len() {
        a[i] < b[i]
    } else {
        i == a.len() && i < b.len()
    }
}

/// Whether `a` sorts strictly before `b` as strings.
fn text_lt(a: &String, b: &String) -> (r: bool)
    ensures
        r == text_before(a@, b@),
{
    bytes_lt(a.as_str().as_bytes(), b.as_str().as_bytes())
}

/// The texts of `v`.
pub open spec fn texts(v: Seq<String>) -> Seq<Seq<char>> {
    v.map_values(|s: String| s@)
}

/// `s` is in string order.
pub open spec fn text_sorted(s: Seq<Seq<char>>) -> bool {
    forall|i: int, j: int| 0 <= i < j < s.len() ==> text_le(#[trigger] s[i], #[trigger] s[j])
}

/// `s` is in strict string order: sorted, and no text occurs twice.
pub open spec fn text_strictly_sorted(s: Seq<Seq<char>>) -> bool {
    forall|i: int, j: int| 0 <= i < j < s.len() ==> text_before(#[trigger] s[i], #[trigger] s[j])
}

/// The position after the last string of `r` that sorts no later than `t`.
fn upper_position(r: &Vec<String>, t: &String) -> (p: usize)
    requires
        text_sorted(texts(r@)),
    ensures
        p <= r@.len(),
        forall|k: int| 0 <= k < p ==> text_le(#[trigger] r@[k]@, t@),
        forall|k: int| p <= k < r@.len() ==> text_before(t@, #[trigger] r@[k]@),
{
    let mut p: usize = 0;
    while p < r.len() && !text_lt(t, &r[p])
        invariant
            p <= r@.len(),
            forall|k: int| 0 <= k < p ==> text_le(#[trigger] r@[k]@, t@),
        decreases r@.len() - p,
    {
        p = p + 1;
    }
    assert forall|k: int| p <= k < r@.len() implies text_before(t@, #[trigger] r@[k]@) by {
        lemma_text_order(t@, r@[p as int]@, r@[k]@);
        if k > p {
            assert(texts(r@)[p as int] == r@[p as int]@);
            assert(texts(r@)[k] == r@[k]@);
            assert(text_le(texts(r@)[p as int], texts(r@)[k]));
            lemma_text_order(r@[k]@, t@, r@[p as int]@);
        }
    }
    p
}

/// The tokens in string order, each kept as often as it occurs.
pub fn sort_tokens(tokens: &Vec<String>) -> (r: Vec<String>)
    ensures
        text_sorted(texts(r@)),
        texts(r@).to_multiset() == texts(tokens@).to_multiset(),
{
    let mut r: Vec<String> = Vec::new();
    let mut i: usize = 0;
    assert(texts(r@) =~= texts(tokens@.take(0)));
    while i < tokens.len()
        invariant
            i <= tokens@.len(),
            text_sorted(texts(r@)),
            texts(r@).to_multiset() == texts(tokens@.take(i as int)).to_multiset(),
        decreases tokens@.len() - i,
    {
        let t = tokens[i].clone();
        let p = upper_position(&r, &t);
        let ghost before = r@;
        r.insert(p, t);
        proof {
            assert(texts(r@) =~= texts(before).insert(p as int, t@));
            to_multiset_insert(texts(before), p as int, t@);
            assert(texts(tokens@.take(i + 1)) =~= texts(tokens@.take(i as int)).push(t@));
            to_multiset_build(texts(tokens@.take(i as int)), t@);
            assert forall|a: int, b: int| 0 <= a < b < texts(r@).len() implies text_le(
                #[trigger] texts(r@)[a],
                #[trigger] texts(r@)[b],
            ) by {
                let ra = texts(r@)[a];
                let rb = texts(r@)[b];
                if b < p {
                    assert(ra == texts(before)[a] && rb == texts(before)[b]);
                } else if b == p {
                    assert(ra == before[a]@);
                } else if a < p {
                    assert(ra == before[a]@ && rb == before[b - 1]@);
                    lemma_text_order(rb, t@, ra);
                    lemma_text_order(t@, rb, ra);
                } else if a == p {
                    assert(rb == before[b - 1]@);
                    lemma_text_order(t@, rb, t@);
                } else {
                    assert(ra == texts(before)[a - 1] && rb == texts(before)[b - 1]);
                }
            }
        }
        i = i + 1;
    }
    assert(tokens@.take(tokens@.len() as int) =~= tokens@);
    r
}

/// `w` is the trimmed text of one of the first `n` lines, and not empty.
pub open spec fn line_token(lines: Seq<Seq<char>>, n: int, w: Seq<char>) -> bool {
    w.len() > 0 && exists|k: int| 0 <= k < n && trimmed(#[trigger] lines[k]) == w
}

proof fn lemma_strict_is_sorted(s: Seq<Seq<char>>)
    requires
        text_strictly_sorted(s),
    ensures
        text_sorted(s),
{
    assert forall|i: int, j: int| 0 <= i < j < s.len() implies text_le(#[trigger] s[i], #[trigger] s[j]) by {
        lemma_text_order(s[i], s[j], s[i]);
    }
}

/// Adds `t` to the strictly sorted `r` unless `r` holds it already.
fn insert_unique(r: &mut Vec<String>, t: String)
    requires
        text_strictly_sorted(texts(old(r)@)),
    ensures
        text_strictly_sorted(texts(final(r)@)),
        forall|w: Seq<char>| texts(final(r)@).contains(w) <==> (texts(old(r)@).contains(w) || w == t@),
{
    proof {
        lemma_strict_is_sorted(texts(r@));
    }
    let p = upper_position(r, &t);
    if p > 0 && r[p - 1] == t {
        proof {
            assert(texts(r@)[p - 1] == t@);
            assert(texts(r@).contains(t@));
        }
        return;
    }
    let ghost before = r@;
    proof {
        if p > 0 {
            assert(text_le(before[p - 1]@, t@));
            lemma_text_order(before[p - 1]@, t@, t@);
        }
    }
    r.insert(p, t);
    proof {
        let tb = texts(before);
        assert(texts(r@) =~= tb.insert(p as int, t@));
        assert forall|a: int, b: int| 0 <= a < b < texts(r@).len() implies text_before(
            #[trigger] texts(r@)[a],
            #[trigger] texts(r@)[b],
        ) by {
            let ra = texts(r@)[a];
            let rb = texts(r@)[b];
            if b < p {
                assert(ra == tb[a] && rb == tb[b]);
            } else if b == p {
                assert(ra == tb[a]);
                if a < p - 1 {
                    assert(tb[p - 1] == before[p - 1]@);
                    lemma_text_order(ra, tb[p - 1], t@);
                }
            } else if a < p {
                assert(ra == tb[a] && rb == before[b - 1]@);
                if a < p - 1 {
                    assert(tb[p - 1] == before[p - 1]@);
                    lemma_text_order(ra, tb[p - 1], t@);
                }
                lemma_text_order(ra, t@, rb);
            } else if a == p {
                assert(rb == before[b - 1]@);
            } else {
                assert(ra == tb[a - 1] && rb == tb[b - 1]);
            }
        }
        assert(tb == texts(old(r)@));
        assert forall|w: Seq<char>| texts(r@).contains(w) <==> (texts(old(r)@).contains(w) || w == t@) by {
            if texts(r@).contains(w) {
                let k = choose|k: int| 0 <= k < texts(r@).len() && texts(r@)[k] == w;
                if k < p {
                    assert(tb[k] == w);
                } else if k > p {
                    assert(tb[k - 1] == w);
                }
            }
            if tb.contains(w) {
                let k = choose|k: int| 0 <= k < tb.len() && tb[k] == w;
                if k < p {
                    assert(texts(r@)[k] == w);
                } else {
                    assert(texts(r@)[k + 1] == w);
                }
            }
            if w == t@ {
                assert(texts(r@)[p as int] == w);
            }
        }
    }
}

/// The tokens of a text with one token per line: each line trimmed, empty
/// lines left out, in strict string order, so each token once.
pub fn vocab_from_text(text: &str) -> (r: Vec<String>)
    ensures
        text_strictly_sorted(texts(r@)),
        forall|w: Seq<char>|
            texts(r@).contains(w) <==> line_token(lines_of(text@), lines_of(text@).len() as int, w),
{
    let cs = chars_of(text);
    let ls = lines_vec(&cs);
    let ghost lines = lines_of(text@);
    let mut r: Vec<String> = Vec::new();
    let mut i: usize = 0;
    while i < ls.len()
        invariant
            i <= ls@.len(),
            lines == lines_of(text@),
            ls@.len() == lines.len(),
            forall|k: int| 0 <= k < ls@.len() ==> (#[trigger] ls@[k])@ == lines[k],
            text_strictly_sorted(texts(r@)),
            forall|w: Seq<char>| texts(r@).contains(w) <==> line_token(lines, i as int, w),
        decreases ls@.len() - i,
    {
        let tr = trimmed_chars(&ls[i]);
        let ghost before = r@;
        if tr.len() > 0 {
            let t = string_of(&tr);
            insert_unique(&mut r, t);
        }
        proof {
            assert(ls@[i as int]@ == lines[i as int]);
            assert forall|w: Seq<char>| texts(r@).contains(w) <==> line_token(lines, i + 1, w) by {
                if line_token(lines, i + 1, w) {
                    let k = choose|k: int| 0 <= k < i + 1 && trimmed(#[trigger] lines[k]) == w;
                    if k < i {
                        assert(line_token(lines, i as int, w));
                    }
                }
                if line_token(lines, i as int, w) {
                    let k = choose|k: int| 0 <= k < i && trimmed(#[trigger] lines[k]) == w;
                    assert(0 <= k < i + 1 && trimmed(lines[k]) == w);
                }
                if tr@.len() > 0 && w == tr@ {
                    assert(0 <= i < i + 1 && trimmed(lines[i as int]) == w);
                }
            }
        }
        i = i + 1;
    }
    r
}

/// What parsing `data` as JSON gives at the JSON pointer `pointer`: the
/// parse error's text; or `None` when nothing is there; or `Some(None)` for a
/// value that is no object; or `Some(Some(keys))` for an object's keys in the
/// order the parsed map holds them.
pub uninterp spec fn json_keys_at(data: Seq<char>, pointer: Seq<char>) -> Result<Option<Option<Seq<Seq<char>>>>, Seq<char>>;

/// Parses `data` with `serde_json::from_str` into a JSON value, looks up
/// `pointer` in it (`Value::pointer`) and, when the value found is an object
/// (`as_object`), takes its keys (`keys`); a parse error comes back as its
/// text. The contract names the outcome: a function of `data` and `pointer`.
#[verifier::external_body]
fn json_keys_of(data: &str, pointer: &str) -> (r: Result<Option<Option<Vec<String>>>, String>)
    ensures
        match r {
            Ok(Some(Some(keys))) => json_keys_at(data@, pointer@) == Ok::<Option<Option<Seq<Seq<char>>>>, Seq<char>>(
                Some(Some(texts(keys@))),
            ),
            Ok(Some(None)) => json_keys_at(data@, pointer@) == Ok::<Option<Option<Seq<Seq<char>>>>, Seq<char>>(
                Some(None),
            ),
            Ok(None) => json_keys_at(data@, pointer@) == Ok::<Option<Option<Seq<Seq<char>>>>, Seq<char>>(None),
            Err(e) => json_keys_at(data@, pointer@) == Err::<Option<Option<Seq<Seq<char>>>>, Seq<char>>(e@),
        },
{
    let v: serde_json::Value = match serde_json::from_str(data) {
        Ok(v) => v,
        Err(e) => return Err(e.to_string()),
    };
    Ok(v.pointer(pointer).map(|x| x.as_object().map(|o| o.keys().cloned().collect())))
}

/// Where a tokenizer file keeps its vocabulary.
pub open spec fn vocab_pointer() -> Seq<char> {
    "/model/vocab"@
}

/// The tokens of the tokenizer file `path` whose text is `data`: the keys of
/// its `model.vocab` object in string order. When the text is no JSON the
/// error is `parse <path>: <parse error>`; when it has no object there,
/// `<path>: no model.vocab map`.
pub fn vocab_from_tokenizer_json(path: &str, data: &str) -> (r: Result<Vec<String>, String>)
    ensures
        match json_keys_at(data@, vocab_pointer()) {
            Err(e) => r matches Err(m) && m@ == "parse "@ + path@ + ": "@ + e,
            Ok(Some(Some(keys))) => r matches Ok(v) && text_sorted(texts(v@)) && texts(v@).to_multiset()
                == keys.to_multiset(),
            Ok(_) => r matches Err(m) && m@ == path@ + ": no model.vocab map"@,
        },
{
    match json_keys_of(data, "/model/vocab") {
        Err(e) => {
            let mut m = String::from_str("parse ");
            m.append(path);
            m.append(": ");
            m.append(e.as_str());
            Err(m)
        },
        Ok(Some(Some(keys))) => Ok(sort_tokens(&keys)),
        Ok(_) => {
            let mut m = String::from_str(path);
            m.append(": no model.vocab map");
            Err(m)
        },
    }
}

} // verus!
