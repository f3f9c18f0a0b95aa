//! A small Rust lexer: identifiers, keywords, numbers, literals (kept with
//! their quotes), two-character operators and single symbols become tokens;
//! whitespace, comments and non-ASCII characters are skipped.

use vstd::prelude::*;
use crate::text::{chars_of, push_char};

verus! {

/// Whitespace as `u8::is_ascii_whitespace` knows it.
pub open spec fn is_ascii_ws(c: char) -> bool {
    c == ' ' || c == '\t' || c == '\n' || c == '\x0C' || c == '\r'
}

pub open spec fn is_ascii_alpha(c: char) -> bool {
    ('a' <= c && c <= 'z') || ('A' <= c && c <= 'Z')
}

pub open spec fn is_ascii_digit(c: char) -> bool {
    '0' <= c && c <= '9'
}

pub open spec fn is_ident_char(c: char) -> bool {
    is_ascii_alpha(c) || is_ascii_digit(c) || c == '_'
}

pub open spec fn is_number_char(c: char) -> bool {
    is_ascii_alpha(c) || is_ascii_digit(c) || c == '.' || c == '_'
}

pub open spec fn is_ascii(c: char) -> bool {
    (c as u32) < 128
}

/// The two-character operators the lexer keeps whole.
pub open spec fn is_op2(a: char, b: char) -> bool {
    (a == '-' && b == '>') || (a == '=' && b == '>') || (a == '=' && b == '=') || (a == '!' && b == '=')
        || (a == '<' && b == '=') || (a == '>' && b == '=') || (a == '&' && b == '&') || (a == '|' && b
        == '|') || (a == '<' && b == '<') || (a == '>' && b == '>') || (a == ':' && b == ':') || (a
        == '.' && b == '.') || (a == '+' && b == '=') || (a == '-' && b == '=')
}

/// The operators the lexer keeps as one token: `->`, `=>`, `==`, `!=`,
/// `<=`, `>=`, `&&`, `||`, `<<`, `>>`, `::`, `..`, `+=` and `-=`.
pub open spec fn two_char_operators() -> Seq<(char, char)> {
    seq![
        ('-', '>'),
        ('=', '>'),
        ('=', '='),
        ('!', '='),
        ('<', '='),
        ('>', '='),
        ('&', '&'),
        ('|', '|'),
        ('<', '<'),
        ('>', '>'),
        (':', ':'),
        ('.', '.'),
        ('+', '='),
        ('-', '='),
    ]
}

/// End of a line comment begun at or before `i`: the next newline, or the end.
pub open spec fn line_end(cs: Seq<char>, i: int) -> int
    decreases cs.len() - i,
{
    if 0 <= i < cs.len() && cs[i] != '\n' {
        line_end(cs, i + 1)
    } else {
        i
    }
}

/// Where the scan of a block comment's body, begun at `i`, stops: at the
/// `*` of the closing `*/`, or at the last character.
pub open spec fn block_end(cs: Seq<char>, i: int) -> int
    decreases cs.len() - i,
{
    if 0 <= i && i + 1 < cs.len() && !(cs[i] == '*' && cs[i + 1] == '/') {
        block_end(cs, i + 1)
    } else {
        i
    }
}

/// End of a quoted literal whose body starts at `i`: past the closing
/// `q`, a backslash skipping the next character. It lies past the end of
/// the text when the text ends in a backslash inside the literal.
pub open spec fn quoted_end(cs: Seq<char>, i: int, q: char) -> int
    decreases cs.len() + 2 - i,
{
    if 0 <= i < cs.len() {
        if cs[i] == '\\' {
            quoted_end(cs, i + 2, q)
        } else if cs[i] == q {
            i + 1
        } else {
            quoted_end(cs, i + 1, q)
        }
    } else {
        i
    }
}

/// End of a run of identifier characters starting at `i`.
pub open spec fn ident_end(cs: Seq<char>, i: int) -> int
    decreases cs.len() - i,
{
    if 0 <= i < cs.len() && is_ident_char(cs[i]) {
        ident_end(cs, i + 1)
    } else {
        i
    }
}

/// End of a run of number characters starting at `i`.
pub open spec fn number_end(cs: Seq<char>, i: int) -> int
    decreases cs.len() - i,
{
    if 0 <= i < cs.len() && is_number_char(cs[i]) {
        number_end(cs, i + 1)
    } else {
        i
    }
}

/// Every scan ends at or after where it starts.
pub proof fn lemma_scans_advance(cs: Seq<char>, i: int)
    requires
        0 <= i,
    ensures
        line_end(cs, i) >= i,
        block_end(cs, i) >= i,
        quoted_end(cs, i, '"') >= i,
        quoted_end(cs, i, '\'') >= i,
        ident_end(cs, i) >= i,
        number_end(cs, i) >= i,
    decreases cs.len() + 2 - i,
{
    if i < cs.len() + 2 {
        lemma_scans_advance(cs, i + 1);
        if i + 2 < cs.len() + 2 {
            lemma_scans_advance(cs, i + 2);
        }
    }
}

/// One step of the lexer at `i < cs.len()`: where the next step starts,
/// and the span of the token read, if one was.
pub open spec fn lex_step(cs: Seq<char>, i: int) -> (int, Option<(int, int)>) {
    let n = cs.len() as int;
    let c = cs[i];
    if is_ascii_ws(c) {
        (i + 1, None)
    } else if c == '/' && i + 1 < n && cs[i + 1] == '/' {
        (line_end(cs, i), None)
    } else if c == '/' && i + 1 < n && cs[i + 1] == '*' {
        (block_end(cs, i + 2) + 2, None)
    } else if c == '"' {
        (quoted_end(cs, i + 1, '"'), Some((i, quoted_end(cs, i + 1, '"'))))
    } else if c == '\'' {
        (quoted_end(cs, i + 1, '\''), Some((i, quoted_end(cs, i + 1, '\''))))
    } else if is_ascii_alpha(c) || c == '_' {
        (ident_end(cs, i), Some((i, ident_end(cs, i))))
    } else if is_ascii_digit(c) {
        (number_end(cs, i), Some((i, number_end(cs, i))))
    } else if !is_ascii(c) {
        (i + 1, None)
    } else if i + 1 < n && is_ascii(cs[i + 1]) && is_op2(c, cs[i + 1]) {
        (i + 2, Some((i, i + 2)))
    } else {
        (i + 1, Some((i, i + 1)))
    }
}

/// The token spans read from position `i` on.
pub open spec fn spans_from(cs: Seq<char>, i: int) -> Seq<(int, int)>
    decreases cs.len() - i,
{
    if i < 0 || i >= cs.len() {
        Seq::empty()
    } else {
        let (j, t) = lex_step(cs, i);
        let here = match t {
            Some(sp) => seq![sp],
            None => Seq::empty(),
        };
        proof {
            lemma_scans_advance(cs, i);
            lemma_scans_advance(cs, i + 1);
            lemma_scans_advance(cs, i + 2);
        }
        if j < cs.len() {
            here + spans_from(cs, j)
        } else {
            here
        }
    }
}

/// The text lexes without running a literal past its end.
pub open spec fn lexable(cs: Seq<char>) -> bool {
    forall|k: int| 0 <= k < spans_from(cs, 0).len() ==> (#[trigger] spans_from(cs, 0)[k]).1 <= cs.len()
}

/// The tokens of `cs`: the text of each span.
pub open spec fn lexed(cs: Seq<char>) -> Seq<Seq<char>> {
    spans_from(cs, 0).map_values(|sp: (int, int)| cs.subrange(sp.0, sp.1))
}

fn string_of_range(cs: &Vec<char>, a: usize, b: usize) -> (s: String)
    requires
        a <= b <= cs@.len(),
    ensures
        s@ == cs@.subrange(a as int, b as int),
{
    let mut s = String::new();
    let mut k: usize = a;
    while k < b
        invariant
            a <= k <= b,
            b <= cs@.len(),
            s@ == cs@.subrange(a as int, k as int),
        decreases b - k,
    {
        assert(cs@.subrange(a as int, k + 1) =~= cs@.subrange(a as int, k as int).push(cs@[k as int]));
        push_char(&mut s, cs[k]);
        k = k + 1;
    }
    s
}

fn ws(c: char) -> (r: bool)
    ensures
        r == is_ascii_ws(c),
{
    c == ' ' || c == '\t' || c == '\n' || c == '\x0C' || c == '\r'
}

fn alpha(c: char) -> (r: bool)
    ensures
        r == is_ascii_alpha(c),
{
    ('a' <= c && c <= 'z') || ('A' <= c && c <= 'Z')
}

fn digit(c: char) -> (r: bool)
    ensures
        r == is_ascii_digit(c),
{
    '0' <= c && c <= '9'
}

fn ascii(c: char) -> (r: bool)
    ensures
        r == is_ascii(c),
{
    (c as u32) < 128
}

fn op2(a: char, b: char) -> (r: bool)
    ensures
        r == is_op2(a, b),
{
    (a == '-' && b == '>') || (a == '=' && b == '>') || (a == '=' && b == '=') || (a == '!' && b == '=')
        || (a == '<' && b == '=') || (a == '>' && b == '=') || (a == '&' && b == '&') || (a == '|' && b
        == '|') || (a == '<' && b == '<') || (a == '>' && b == '>') || (a == ':' && b == ':') || (a
        == '.' && b == '.') || (a == '+' && b == '=') || (a == '-' && b == '=')
}

fn scan_line(cs: &Vec<char>, i: usize) -> (j: usize)
    requires
        i <= cs@.len(),
    ensures
        j == line_end(cs@, i as int),
        i <= j <= cs@.len(),
{
    let mut k = i;
    while k < cs.len() && cs[k] != '\n'
        invariant
            i <= k <= cs@.len(),
            line_end(cs@, k as int) == line_end(cs@, i as int),
        decreases cs@.len() - k,
    {
        k = k + 1;
    }
    k
}

fn scan_block(cs: &Vec<char>, i: usize) -> (j: usize)
    requires
        i <= cs@.len() + 1,
        cs@.len() + 4 <= usize::MAX,
    ensures
        j == block_end(cs@, i as int),
        j <= cs@.len() + 1,
{
    let mut k = i;
    while k + 1 < cs.len() && !(cs[k] == '*' && cs[k + 1] == '/')
        invariant
            i <= k <= cs@.len() + 1,
            cs@.len() + 4 <= usize::MAX,
            block_end(cs@, k as int) == block_end(cs@, i as int),
        decreases cs@.len() + 1 - k,
    {
        k = k + 1;
    }
    k
}

fn scan_quoted(cs: &Vec<char>, i: usize, q: char) -> (j: usize)
    requires
        i <= cs@.len(),
        cs@.len() + 4 <= usize::MAX,
    ensures
        j == quoted_end(cs@, i as int, q),
        j <= cs@.len() + 1,
{
    let mut k = i;
    while k < cs.len()
        invariant
            i <= k <= cs@.len() + 1,
            cs@.len() + 4 <= usize::MAX,
            quoted_end(cs@, k as int, q) == quoted_end(cs@, i as int, q),
        decreases cs@.len() + 2 - k,
    {
        if cs[k] == '\\' {
            k = k + 2;
        } else if cs[k] == q {
            return k + 1;
        } else {
            k = k + 1;
        }
    }
    k
}

fn scan_ident(cs: &Vec<char>, i: usize) -> (j: usize)
    requires
        i <= cs@.len(),
    ensures
        j == ident_end(cs@, i as int),
        j <= cs@.len(),
{
    let mut k = i;
    while k < cs.len() && (alpha(cs[k]) || digit(cs[k]) || cs[k] == '_')
        invariant
            i <= k <= cs@.len(),
            ident_end(cs@, k as int) == ident_end(cs@, i as int),
        decreases cs@.len() - k,
    {
        k = k + 1;
    }
    k
}

fn scan_number(cs: &Vec<char>, i: usize) -> (j: usize)
    requires
        i <= cs@.len(),
    ensures
        j == number_end(cs@, i as int),
        j <= cs@.len(),
{
    let mut k = i;
    while k < cs.len() && (alpha(cs[k]) || digit(cs[k]) || cs[k] == '.' || cs[k] == '_')
        invariant
            i <= k <= cs@.len(),
            number_end(cs@, k as int) == number_end(cs@, i as int),
        decreases cs@.len() - k,
    {
        k = k + 1;
    }
    k
}

/// The spec view of an executable span.
pub open spec fn span_view(t: Option<(usize, usize)>) -> Option<(int, int)> {
    match t {
        Some((a, b)) => Some((a as int, b as int)),
        None => None,
    }
}

fn step(cs: &Vec<char>, i: usize) -> (r: (usize, Option<(usize, usize)>))
    requires
        i < cs@.len(),
        cs@.len() + 4 <= usize::MAX,
    ensures
        (r.0 as int, span_view(r.1)) == lex_step(cs@, i as int),
        i < r.0 <= cs@.len() + 3,
{
    proof {
        lemma_scans_advance(cs@, i + 1);
        lemma_scans_advance(cs@, i + 2);
    }
    let n = cs.len();
    let c = cs[i];
    if ws(c) {
        (i + 1, None)
    } else if c == '/' && i + 1 < n && cs[i + 1] == '/' {
        let e = scan_line(cs, i);
        assert(line_end(cs@, i as int) == line_end(cs@, i + 1));
        (e, None)
    } else if c == '/' && i + 1 < n && cs[i + 1] == '*' {
        (scan_block(cs, i + 2) + 2, None)
    } else if c == '"' {
        let e = scan_quoted(cs, i + 1, '"');
        (e, Some((i, e)))
    } else if c == '\'' {
        let e = scan_quoted(cs, i + 1, '\'');
        (e, Some((i, e)))
    } else if alpha(c) || c == '_' {
        let e = scan_ident(cs, i);
        assert(ident_end(cs@, i as int) == ident_end(cs@, i + 1));
        (e, Some((i, e)))
    } else if digit(c) {
        let e = scan_number(cs, i);
        assert(number_end(cs@, i as int) == number_end(cs@, i + 1));
        (e, Some((i, e)))
    } else if !ascii(c) {
        (i + 1, None)
    } else if i + 1 < n && ascii(cs[i + 1]) && op2(c, cs[i + 1]) {
        (i + 2, Some((i, i + 2)))
    } else {
        (i + 1, Some((i, i + 1)))
    }
}

/// Splits Rust source into tokens: identifiers and keywords, numbers (with
/// `.` and `_`), string and char literals with their quotes, the
/// two-character operators `-> => == != <= >= && || << >> :: .. += -=`, and
/// every other ASCII character alone. Whitespace, `//` and `/* */` comments
/// and non-ASCII characters are skipped.
pub fn lex_rust_code(code: &str) -> (toks: Vec<String>)
    requires
        lexable(code@),
        code@.len() + 4 <= usize::MAX,
    ensures
        toks@.map_values(|t: String| t@) == lexed(code@),
{
    let cs = chars_of(code);
    let n = cs.len();
    let mut toks: Vec<String> = Vec::new();
    let ghost all = spans_from(cs@, 0);
    let ghost mut done: Seq<(int, int)> = Seq::empty();
    let mut i: usize = 0;
    while i < n
        invariant
            cs@ == code@,
            n == cs@.len(),
            n + 4 <= usize::MAX,
            i <= n + 3,
            lexable(cs@),
            all == spans_from(cs@, 0),
            all == done + spans_from(cs@, i as int),
            toks@.len() == done.len(),
            forall|k: int| 0 <= k < done.len() ==> (#[trigger] toks@[k])@ == cs@.subrange(done[k].0, done[k].1),
        decreases n + 3 - i,
    {
        let (j, t) = step(&cs, i);
        proof {
            lemma_scans_advance(cs@, i as int);
            lemma_scans_advance(cs@, i + 1);
            lemma_scans_advance(cs@, i + 2);
        }
        let ghost rest = spans_from(cs@, j as int);
        assert(j >= cs@.len() ==> rest =~= Seq::<(int, int)>::empty());
        match t {
            Some((a, b)) => {
                assert(spans_from(cs@, i as int) =~= seq![(a as int, b as int)] + rest);
                assert(all[done.len() as int] == (a as int, b as int));
                assert(b <= n);
                let tok = string_of_range(&cs, a, b);
                toks.push(tok);
                proof {
                    done = done.push((a as int, b as int));
                    assert(all =~= done + rest);
                }
            },
            None => {
                assert(spans_from(cs@, i as int) =~= rest);
            },
        }
        i = j;
    }
    assert(spans_from(cs@, i as int) =~= Seq::<(int, int)>::empty());
    assert(all =~= done);
    assert(toks@.map_values(|t: String| t@) =~= lexed(code@));
    toks
}

/// Wherever the lexer reaches one of the two-character operators, the
/// operator is read as one token and lexing goes on after it.
pub proof fn law_two_char_operator_is_one_token(cs: Seq<char>, i: int, k: int)
    requires
        0 <= i,
        i + 1 < cs.len(),
        0 <= k < two_char_operators().len(),
        cs[i] == two_char_operators()[k].0,
        cs[i + 1] == two_char_operators()[k].1,
    ensures
        lex_step(cs, i) == (i + 2, Some((i, i + 2))),
        spans_from(cs, i).len() >= 1 && spans_from(cs, i)[0] == (i, i + 2),
{
    assert(lex_step(cs, i) == (i + 2, Some((i, i + 2))));
}

} // verus!
