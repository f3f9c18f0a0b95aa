//! Corpus records and the word tokenizer that maps words to vocabulary ids,
//! with a hashed id range for words the vocabulary lacks.

use vstd::prelude::*;
use vstd::string::StringSliceAdditionalSpecFns;
use vstd::utf8::encode_utf8;
use crate::text::{chars_of, push_char, str_eq, string_of};

verus! {

/// One document of a corpus: optional metadata and its chapters.
#[derive(Clone)]
pub struct CorpusDoc {
    pub title: Option<String>,
    pub author: Option<String>,
    pub language: Option<String>,
    pub chapters: Vec<CorpusChapter>,
}

/// One chapter: optional heading and number, and its paragraphs.
#[derive(Clone)]
pub struct CorpusChapter {
    pub heading: Option<String>,
    pub paragraphs: Vec<String>,
    pub number: Option<u64>,
}

/// A word and the id it was given.
#[derive(Debug, Clone)]
pub struct TokenInfo {
    pub id: u32,
    pub text: String,
}

/// Unicode `White_Space`, as `char::is_whitespace` decides it.
pub open spec fn is_white(c: char) -> bool {
    let u = c as u32;
    (9 <= u <= 13) || u == 32 || u == 0x85 || u == 0xa0 || u == 0x1680 || (0x2000 <= u <= 0x200a)
        || u == 0x2028 || u == 0x2029 || u == 0x202f || u == 0x205f || u == 0x3000
}

pub(crate) fn white(c: char) -> (r: bool)
    ensures
        r == is_white(c),
{
    let u = c as u32;
    (9 <= u && u <= 13) || u == 32 || u == 0x85 || u == 0xa0 || u == 0x1680 || (0x2000 <= u && u
        <= 0x200a) || u == 0x2028 || u == 0x2029 || u == 0x202f || u == 0x205f || u == 0x3000
}

/// The words of `cs` from position `i` on, `cur` being the part of a word
/// already read: maximal runs of non-whitespace, as `str::split_whitespace` yields them.
pub open spec fn words_from(cs: Seq<char>, i: int, cur: Seq<char>) -> Seq<Seq<char>>
    decreases cs.len() - i,
{
    if i >= cs.len() {
        if cur.len() > 0 { seq![cur] } else { Seq::empty() }
    } else if is_white(cs[i]) {
        (if cur.len() > 0 { seq![cur] } else { Seq::empty() }) + words_from(cs, i + 1, Seq::empty())
    } else {
        words_from(cs, i + 1, cur.push(cs[i]))
    }
}

/// The whitespace-separated words of `text`.
pub open spec fn words_of(text: Seq<char>) -> Seq<Seq<char>> {
    words_from(text, 0, Seq::empty())
}

/// The id of the last vocabulary entry whose text is `w`, if any.
pub open spec fn vocab_id(vocab: Seq<(u32, String)>, w: Seq<char>) -> Option<u32>
    decreases vocab.len(),
{
    if vocab.len() == 0 {
        None
    } else if vocab.last().1@ == w {
        Some(vocab.last().0)
    } else {
        vocab_id(vocab.drop_last(), w)
    }
}

/// The 31-multiplier rolling hash of `bytes`, wrapping in 32 bits.
pub open spec fn word_hash(bytes: Seq<u8>) -> u32
    decreases bytes.len(),
{
    if bytes.len() == 0 {
        0
    } else {
        word_hash(bytes.drop_last()).wrapping_mul(31).wrapping_add(bytes.last() as u32)
    }
}

/// The id of word `w`: its vocabulary id, or `100000 + hash % 90000` for a
/// word the vocabulary lacks.
pub open spec fn token_id(vocab: Seq<(u32, String)>, w: Seq<char>) -> u32 {
    match vocab_id(vocab, w) {
        Some(id) => id,
        None => (100000 + word_hash(encode_utf8(w)) % 90000) as u32,
    }
}

fn lookup(vocab: &[(u32, String)], w: &str) -> (r: Option<u32>)
    ensures
        r == vocab_id(vocab@, w@),
{
    let mut k: usize = vocab.len();
    assert(vocab@.take(k as int) =~= vocab@);
    while k > 0
        invariant
            k <= vocab@.len(),
            vocab_id(vocab@, w@) == vocab_id(vocab@.take(k as int), w@),
        decreases k,
    {
        let ghost pre = vocab@.take(k as int);
        assert(pre.drop_last() =~= vocab@.take(k - 1));
        assert(pre.last() == vocab@[k - 1]);
        if str_eq(vocab[k - 1].1.as_str(), w) {
            return Some(vocab[k - 1].0);
        }
        k = k - 1;
    }
    assert(vocab@.take(0) =~= Seq::<(u32, String)>::empty());
    None
}

fn hash_word(w: &str) -> (h: u32)
    ensures
        h == word_hash(w.spec_bytes()),
{
    let bytes = w.as_bytes();
    let mut h: u32 = 0;
    let mut i: usize = 0;
    while i < bytes.len()
        invariant
            i <= bytes@.len(),
            bytes@ == w.spec_bytes(),
            h == word_hash(bytes@.take(i as int)),
        decreases bytes@.len() - i,
    {
        assert(bytes@.take(i + 1).drop_last() =~= bytes@.take(i as int));
        h = h.wrapping_mul(31).wrapping_add(bytes[i] as u32);
        i = i + 1;
    }
    assert(bytes@.take(bytes@.len() as int) =~= bytes@);
    h
}

fn word_token(w: String, vocab: &[(u32, String)]) -> (t: TokenInfo)
    ensures
        t.text@ == w@,
        t.id == token_id(vocab@, w@),
{
    let id = match lookup(vocab, w.as_str()) {
        Some(id) => id,
        None => 100000 + hash_word(w.as_str()) % 90000,
    };
    TokenInfo { id, text: w }
}

/// Splits `text` into whitespace-separated words and gives each its id: the
/// id of the last vocabulary entry with that text, else a hashed id in
/// `100000..190000`.
pub fn tokenize_corpus_text(text: &str, vocab: &[(u32, String)]) -> (toks: Vec<TokenInfo>)
    ensures
        toks@.len() == words_of(text@).len(),
        forall|k: int| 0 <= k < toks@.len() ==> (#[trigger] toks@[k]).text@ == words_of(text@)[k]
            && toks@[k].id == token_id(vocab@, words_of(text@)[k]),
{
    let cs = chars_of(text);
    let mut toks: Vec<TokenInfo> = Vec::new();
    let mut cur: Vec<char> = Vec::new();
    let mut i: usize = 0;
    let ghost all = words_of(text@);
    while i < cs.len()
        invariant
            i <= cs@.len(),
            cs@ == text@,
            all == words_of(text@),
            all == toks@.map_values(|t: TokenInfo| t.text@) + words_from(cs@, i as int, cur@),
            forall|k: int| 0 <= k < toks@.len() ==> (#[trigger] toks@[k]).id == token_id(vocab@, toks@[k].text@),
        decreases cs@.len() - i,
    {
        let c = cs[i];
        if white(c) {
            if cur.len() > 0 {
                let w = string_of(&cur);
                let t = word_token(w, vocab);
                let ghost before = toks@;
                toks.push(t);
                assert(toks@.map_values(|t: TokenInfo| t.text@) =~= before.map_values(|t: TokenInfo| t.text@)
                    + seq![cur@]);
            }
            cur = Vec::new();
        } else {
            cur.push(c);
        }
        i = i + 1;
    }
    if cur.len() > 0 {
        let w = string_of(&cur);
        let t = word_token(w, vocab);
        let ghost before = toks@;
        toks.push(t);
        assert(toks@.map_values(|t: TokenInfo| t.text@) =~= before.map_values(|t: TokenInfo| t.text@)
            + seq![cur@]);
    }
    assert(all =~= toks@.map_values(|t: TokenInfo| t.text@));
    assert forall|k: int| 0 <= k < toks@.len() implies (#[trigger] toks@[k]).text@ == all[k] by {
        assert(toks@.map_values(|t: TokenInfo| t.text@)[k] == toks@[k].text@);
    }
    toks
}

/// The lines of `cs` from `i` on, `cur` being the part of a line already
/// read, as `str::lines` yields them: split at `\n`, the `\r` of a `\r\n`
/// dropped, a final line kept as it is, and no empty line after a final `\n`.
pub open spec fn lines_from(cs: Seq<char>, i: int, cur: Seq<char>) -> Seq<Seq<char>>
    decreases cs.len() - i,
{
    if i >= cs.len() {
        if cur.len() > 0 { seq![cur] } else { Seq::empty() }
    } else if cs[i] == '\n' {
        seq![strip_cr(cur)] + lines_from(cs, i + 1, Seq::empty())
    } else {
        lines_from(cs, i + 1, cur.push(cs[i]))
    }
}

/// `line` without one trailing carriage return.
pub open spec fn strip_cr(line: Seq<char>) -> Seq<char> {
    if line.len() > 0 && line.last() == '\r' { line.drop_last() } else { line }
}

/// The lines of `text`.
pub open spec fn lines_of(text: Seq<char>) -> Seq<Seq<char>> {
    lines_from(text, 0, Seq::empty())
}

/// `line` without leading and trailing whitespace, as `str::trim` gives it.
pub open spec fn trimmed(line: Seq<char>) -> Seq<char>
    decreases line.len(),
{
    if line.len() > 0 && is_white(line[0]) {
        trimmed(line.drop_first())
    } else if line.len() > 0 && is_white(line.last()) {
        trimmed(line.drop_last())
    } else {
        line
    }
}

/// The evaluation note of a goals text: the rest of the first line that
/// starts with `eval:`, trimmed.
pub open spec fn eval_note(text: Seq<char>) -> Option<Seq<char>> {
    let ls = lines_of(text);
    if exists|k: int| 0 <= k < ls.len() && #[trigger] ls[k].take(5) == "eval:"@ && ls[k].len() >= 5 {
        let k = choose|k: int|
            0 <= k < ls.len() && ls[k].take(5) == "eval:"@ && ls[k].len() >= 5 && forall|j: int|
                0 <= j < k ==> !(ls[j].take(5) == "eval:"@ && ls[j].len() >= 5);
        Some(trimmed(ls[k].skip(5)))
    } else {
        None
    }
}

fn trim_chars(line: &Vec<char>, from: usize) -> (r: String)
    requires
        from <= line@.len(),
    ensures
        r@ == trimmed(line@.skip(from as int)),
{
    let mut a = from;
    let mut b = line.len();
    while a < b && white(line[a])
        invariant
            from <= a <= b <= line@.len(),
            b == line@.len(),
            trimmed(line@.skip(from as int)) == trimmed(line@.subrange(a as int, b as int)),
        decreases b - a,
    {
        assert(line@.subrange(a as int, b as int).drop_first() =~= line@.subrange(a + 1, b as int));
        a = a + 1;
    }
    while a < b && white(line[b - 1])
        invariant
            from <= a <= b <= line@.len(),
            a < b ==> !is_white(line@[a as int]),
            trimmed(line@.skip(from as int)) == trimmed(line@.subrange(a as int, b as int)),
        decreases b - a,
    {
        assert(line@.subrange(a as int, b as int).drop_last() =~= line@.subrange(a as int, b - 1));
        b = b - 1;
    }
    let mut out = String::new();
    let mut k = a;
    while k < b
        invariant
            a <= k <= b <= line@.len(),
            out@ == line@.subrange(a as int, k as int),
        decreases b - k,
    {
        assert(line@.subrange(a as int, k + 1) =~= line@.subrange(a as int, k as int).push(line@[k as int]));
        push_char(&mut out, line[k]);
        k = k + 1;
    }
    out
}

pub(crate) fn without_cr(cur: &Vec<char>) -> (line: Vec<char>)
    ensures
        line@ == strip_cr(cur@),
{
    let n = cur.len();
    let end = if n > 0 && cur[n - 1] == '\r' { n - 1 } else { n };
    assert(strip_cr(cur@) =~= cur@.take(end as int));
    let mut line: Vec<char> = Vec::new();
    let mut k: usize = 0;
    while k < end
        invariant
            k <= end <= cur@.len(),
            line@ == cur@.take(k as int),
        decreases end - k,
    {
        assert(cur@.take(k + 1) =~= cur@.take(k as int).push(cur@[k as int]));
        line.push(cur[k]);
        k = k + 1;
    }
    line
}

fn is_eval_line(line: &Vec<char>) -> (r: bool)
    ensures
        r == (line@.len() >= 5 && line@.take(5) == "eval:"@),
{
    proof {
        reveal_strlit("eval:");
    }
    if line.len() < 5 {
        return false;
    }
    let r = line[0] == 'e' && line[1] == 'v' && line[2] == 'a' && line[3] == 'l' && line[4] == ':';
    let ghost t = line@.take(5);
    if r {
        assert(t =~= "eval:"@);
    } else {
        assert(t != "eval:"@) by {
            if t == "eval:"@ {
                assert(t[0] == 'e' && t[1] == 'v' && t[2] == 'a' && t[3] == 'l' && t[4] == ':');
            }
        }
    }
    r
}

/// The evaluation note of a goals text: the rest of the first line that
/// starts with `eval:`, trimmed; `None` when no line does.
pub fn eval_line(text: &str) -> (r: Option<String>)
    ensures
        match eval_note(text@) {
            Some(n) => r matches Some(s) && s@ == n,
            None => r is None,
        },
{
    let cs = chars_of(text);
    let ghost all = lines_of(text@);
    let mut cur: Vec<char> = Vec::new();
    let ghost mut done: Seq<Seq<char>> = Seq::empty();
    let mut i: usize = 0;
    while i < cs.len()
        invariant
            i <= cs@.len(),
            cs@ == text@,
            all == lines_of(text@),
            all == done + lines_from(cs@, i as int, cur@),
            forall|j: int| 0 <= j < done.len() ==> !(#[trigger] done[j].take(5) == "eval:"@ && done[j].len() >= 5),
        decreases cs@.len() - i,
    {
        if cs[i] == '\n' {
            let line = without_cr(&cur);
            let ghost rest = lines_from(cs@, i + 1, Seq::empty());
            assert(lines_from(cs@, i as int, cur@) == seq![line@] + rest);
            assert(all =~= done + seq![line@] + rest);
            if is_eval_line(&line) {
                proof {
                    lemma_first_eval(all, done, line@, rest);
                }
                return Some(trim_chars(&line, 5));
            }
            proof {
                done = done.push(line@);
                assert(all =~= done + lines_from(cs@, i + 1, Seq::empty()));
            }
            cur = Vec::new();
        } else {
            cur.push(cs[i]);
        }
        i = i + 1;
    }
    if cur.len() > 0 {
        let line = cur;
        assert(lines_from(cs@, i as int, line@) == seq![line@]);
        assert(all =~= done + seq![line@] + Seq::<Seq<char>>::empty());
        if is_eval_line(&line) {
            proof {
                lemma_first_eval(all, done, line@, Seq::empty());
            }
            return Some(trim_chars(&line, 5));
        }
        proof {
            done = done.push(line@);
            assert(all =~= done);
        }
    } else {
        assert(lines_from(cs@, i as int, cur@) =~= Seq::<Seq<char>>::empty());
        assert(all =~= done);
    }
    assert forall|k: int| 0 <= k < all.len() implies !(#[trigger] all[k].take(5) == "eval:"@ && all[k].len() >= 5) by {
        assert(all[k] == done[k]);
    }
    None
}

proof fn lemma_first_eval(all: Seq<Seq<char>>, done: Seq<Seq<char>>, line: Seq<char>, rest: Seq<Seq<char>>)
    requires
        all == done + seq![line] + rest,
        forall|j: int| 0 <= j < done.len() ==> !(#[trigger] done[j].take(5) == "eval:"@ && done[j].len() >= 5),
        line.take(5) == "eval:"@,
        line.len() >= 5,
    ensures
        ({
            let k = choose|k: int|
                0 <= k < all.len() && all[k].take(5) == "eval:"@ && all[k].len() >= 5 && forall|j: int|
                    0 <= j < k ==> !(all[j].take(5) == "eval:"@ && all[j].len() >= 5);
            k == done.len()
        }),
        exists|k: int| 0 <= k < all.len() && #[trigger] all[k].take(5) == "eval:"@ && all[k].len() >= 5,
{
    let d = done.len() as int;
    assert(all[d] == line);
    assert forall|j: int| 0 <= j < d implies !(all[j].take(5) == "eval:"@ && all[j].len() >= 5) by {
        assert(all[j] == done[j]);
    }
    let k = choose|k: int|
        0 <= k < all.len() && all[k].take(5) == "eval:"@ && all[k].len() >= 5 && forall|j: int|
            0 <= j < k ==> !(all[j].take(5) == "eval:"@ && all[j].len() >= 5);
    assert(0 <= k < all.len() && all[k].take(5) == "eval:"@ && all[k].len() >= 5);
    if k < d {
        assert(all[k] == done[k]);
    } else if k > d {
        assert(!(all[d].take(5) == "eval:"@ && all[d].len() >= 5));
    }
}

/// The lines of `cs`, as `str::lines` yields them.
pub fn lines_vec(cs: &Vec<char>) -> (ls: Vec<Vec<char>>)
    ensures
        ls@.len() == lines_of(cs@).len(),
        forall|k: int| 0 <= k < ls@.len() ==> (#[trigger] ls@[k])@ == lines_of(cs@)[k],
{
    let ghost all = lines_of(cs@);
    let mut ls: Vec<Vec<char>> = Vec::new();
    let mut cur: Vec<char> = Vec::new();
    let mut i: usize = 0;
    while i < cs.len()
        invariant
            i <= cs@.len(),
            all == lines_of(cs@),
            all == ls@.map_values(|l: Vec<char>| l@) + lines_from(cs@, i as int, cur@),
        decreases cs@.len() - i,
    {
        if cs[i] == '\n' {
            let line = without_cr(&cur);
            let ghost before = ls@.map_values(|l: Vec<char>| l@);
            assert(lines_from(cs@, i as int, cur@) == seq![line@] + lines_from(cs@, i + 1, Seq::empty()));
            ls.push(line);
            assert(ls@.map_values(|l: Vec<char>| l@) =~= before + seq![strip_cr(cur@)]);
            cur = Vec::new();
        } else {
            cur.push(cs[i]);
        }
        i = i + 1;
    }
    if cur.len() > 0 {
        let ghost before = ls@.map_values(|l: Vec<char>| l@);
        let ghost last = cur@;
        ls.push(cur);
        assert(ls@.map_values(|l: Vec<char>| l@) =~= before + seq![last]);
    }
    assert(all =~= ls@.map_values(|l: Vec<char>| l@));
    assert forall|k: int| 0 <= k < ls@.len() implies (#[trigger] ls@[k])@ == all[k] by {
        assert(ls@.map_values(|l: Vec<char>| l@)[k] == ls@[k]@);
    }
    ls
}

/// `line` without leading and trailing whitespace.
pub fn trimmed_chars(line: &Vec<char>) -> (r: Vec<char>)
    ensures
        r@ == trimmed(line@),
{
    let mut a: usize = 0;
    let mut b = line.len();
    assert(line@.subrange(0, line@.len() as int) =~= line@);
    while a < b && white(line[a])
        invariant
            a <= b <= line@.len(),
            b == line@.len(),
            trimmed(line@) == trimmed(line@.subrange(a as int, b as int)),
        decreases b - a,
    {
        assert(line@.subrange(a as int, b as int).drop_first() =~= line@.subrange(a + 1, b as int));
        a = a + 1;
    }
    while a < b && white(line[b - 1])
        invariant
            a <= b <= line@.len(),
            a < b ==> !is_white(line@[a as int]),
            trimmed(line@) == trimmed(line@.subrange(a as int, b as int)),
        decreases b - a,
    {
        assert(line@.subrange(a as int, b as int).drop_last() =~= line@.subrange(a as int, b - 1));
        b = b - 1;
    }
    let mut out: Vec<char> = Vec::new();
    let mut k = a;
    while k < b
        invariant
            a <= k <= b <= line@.len(),
            out@ == line@.subrange(a as int, k as int),
        decreases b - k,
    {
        assert(line@.subrange(a as int, k + 1) =~= line@.subrange(a as int, k as int).push(line@[k as int]));
        out.push(line[k]);
        k = k + 1;
    }
    out
}

/// A word missing from the vocabulary gets an id in `100000..190000`.
pub proof fn law_unknown_word_ids(vocab: Seq<(u32, String)>, w: Seq<char>)
    requires
        vocab_id(vocab, w) is None,
    ensures
        100000 <= token_id(vocab, w) < 190000,
{
}

/// Every word the tokenizer yields is non-empty and holds no whitespace.
pub proof fn law_words_are_runs(text: Seq<char>, k: int)
    requires
        0 <= k < words_of(text).len(),
    ensures
        words_of(text)[k].len() > 0,
        forall|j: int| 0 <= j < words_of(text)[k].len() ==> !is_white(#[trigger] words_of(text)[k][j]),
{
    lemma_words_from_runs(text, 0, Seq::empty());
}

proof fn lemma_words_from_runs(cs: Seq<char>, i: int, cur: Seq<char>)
    requires
        forall|j: int| 0 <= j < cur.len() ==> !is_white(#[trigger] cur[j]),
    ensures
        forall|k: int| 0 <= k < words_from(cs, i, cur).len() ==> (#[trigger] words_from(cs, i, cur)[k]).len() > 0
            && forall|j: int| 0 <= j < words_from(cs, i, cur)[k].len() ==> !is_white(#[trigger] words_from(cs, i, cur)[k][j]),
    decreases cs.len() - i,
{
    if i >= cs.len() {
        if cur.len() > 0 {
            assert(words_from(cs, i, cur) == seq![cur]);
        } else {
            assert(words_from(cs, i, cur) == Seq::<Seq<char>>::empty());
        }
    } else if is_white(cs[i]) {
        lemma_words_from_runs(cs, i + 1, Seq::empty());
        let head: Seq<Seq<char>> = if cur.len() > 0 { seq![cur] } else { Seq::empty() };
        let rest = words_from(cs, i + 1, Seq::empty());
        assert(words_from(cs, i, cur) == head + rest);
        assert forall|k: int| 0 <= k < words_from(cs, i, cur).len() implies (#[trigger] words_from(cs, i, cur)[k]).len() > 0
            && forall|j: int| 0 <= j < words_from(cs, i, cur)[k].len() ==> !is_white(#[trigger] words_from(cs, i, cur)[k][j]) by {
            if k < head.len() {
                assert(words_from(cs, i, cur)[k] == cur);
            } else {
                assert(words_from(cs, i, cur)[k] == rest[k - head.len()]);
            }
        }
    } else {
        let next = cur.push(cs[i]);
        assert forall|j: int| 0 <= j < next.len() implies !is_white(#[trigger] next[j]) by {
            if j < cur.len() {
                assert(next[j] == cur[j]);
            }
        }
        lemma_words_from_runs(cs, i + 1, next);
        assert(words_from(cs, i, cur) == words_from(cs, i + 1, next));
    }
}

} // verus!
