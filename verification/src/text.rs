//! Small verified helpers on text: equality of string slices, decimal
//! parsing and printing of unsigned integers, substring search and the
//! character sequence of a string slice.

use vstd::prelude::*;
use vstd::string::StringSliceAdditionalSpecFns;

verus! {

broadcast use vstd::utf8::encode_utf8_decode_utf8;

/// A UTF-8 encoding has at least one byte per character.
pub proof fn lemma_encode_len(chars: Seq<char>)
    ensures
        vstd::utf8::encode_utf8(chars).len() >= chars.len(),
    decreases chars.len(),
{
    if chars.len() > 0 {
        lemma_encode_len(chars.drop_first());
    }
}

/// Two string slices are equal exactly when their characters are.
pub fn str_eq(a: &str, b: &str) -> (r: bool)
    ensures
        r == (a@ == b@),
{
    let ab = a.as_bytes();
    let bb = b.as_bytes();
    if ab.len() != bb.len() {
        return false;
    }
    let mut i: usize = 0;
    while i < ab.len()
        invariant
            i <= ab@.len(),
            ab@.len() == bb@.len(),
            ab@ == a.spec_bytes(),
            bb@ == b.spec_bytes(),
            forall|j: int| 0 <= j < i ==> ab@[j] == bb@[j],
        decreases ab@.len() - i,
    {
        if ab[i] != bb[i] {
            return false;
        }
        i = i + 1;
    }
    assert(ab@ =~= bb@);
    assert(vstd::utf8::decode_utf8(vstd::utf8::encode_utf8(a@)) == a@);
    assert(vstd::utf8::decode_utf8(vstd::utf8::encode_utf8(b@)) == b@);
    true
}

/// Value of a string of ASCII decimal digits.
pub open spec fn decimal_value(digits: Seq<u8>) -> nat
    decreases digits.len(),
{
    if digits.len() == 0 {
        0
    } else {
        decimal_value(digits.drop_last()) * 10 + (digits.last() - 48) as nat
    }
}

pub open spec fn is_digit(b: u8) -> bool {
    48 <= b <= 57
}

/// The bytes after an optional leading `+`.
pub open spec fn digits_of(s: Seq<u8>) -> Seq<u8> {
    if s.len() > 0 && s[0] == 43 { s.skip(1) } else { s }
}

pub open spec fn all_digits(d: Seq<u8>) -> bool {
    forall|i: int| 0 <= i < d.len() ==> is_digit(#[trigger] d[i])
}

/// What `str::parse::<usize>` gives for the bytes `s`: an optional leading
/// `+` followed by at least one ASCII digit, and a value that fits.
pub open spec fn parsed_usize(s: Seq<u8>) -> Option<usize> {
    let digits = digits_of(s);
    if digits.len() == 0 || !all_digits(digits) {
        None
    } else if decimal_value(digits) > usize::MAX {
        None
    } else {
        Some(decimal_value(digits) as usize)
    }
}

proof fn lemma_decimal_monotone(d: Seq<u8>, k: int)
    requires
        0 <= k <= d.len(),
        forall|i: int| 0 <= i < d.len() ==> is_digit(#[trigger] d[i]),
    ensures
        decimal_value(d.take(k)) <= decimal_value(d),
    decreases d.len() - k,
{
    if k < d.len() {
        let d1 = d.drop_last();
        assert(d.take(k) =~= d1.take(k));
        lemma_decimal_monotone(d1, k);
    } else {
        assert(d.take(k) =~= d);
    }
}

/// Parses an unsigned decimal as `str::parse::<usize>` does.
pub fn parse_usize(s: &str) -> (r: Option<usize>)
    ensures
        r == parsed_usize(s.spec_bytes()),
{
    let bytes = s.as_bytes();
    let ghost sb = bytes@;
    let start: usize = if bytes.len() > 0 && bytes[0] == 43u8 { 1 } else { 0 };
    let ghost digits = digits_of(sb);
    assert(digits =~= sb.skip(start as int));
    if bytes.len() == start {
        return None;
    }
    let mut i: usize = start;
    while i < bytes.len()
        invariant
            start <= i <= bytes@.len(),
            bytes@ == sb,
            sb == s.spec_bytes(),
            digits == sb.skip(start as int),
            digits == digits_of(sb),
            forall|j: int| start <= j < i ==> is_digit(#[trigger] sb[j]),
        decreases bytes@.len() - i,
    {
        if bytes[i] < 48u8 || bytes[i] > 57u8 {
            assert(digits[i - start] == sb[i as int]);
            assert(!is_digit(digits[i - start]));
            assert(digits.len() > 0);
            assert(!all_digits(digits));
            return None;
        }
        i = i + 1;
    }
    assert forall|j: int| 0 <= j < digits.len() implies is_digit(#[trigger] digits[j]) by {
        assert(digits[j] == sb[j + start]);
    }
    let mut value: usize = 0;
    let mut k: usize = start;
    while k < bytes.len()
        invariant
            start <= k <= bytes@.len(),
            bytes@ == sb,
            sb == s.spec_bytes(),
            digits == sb.skip(start as int),
            digits == digits_of(sb),
            forall|j: int| 0 <= j < digits.len() ==> is_digit(#[trigger] digits[j]),
            value == decimal_value(digits.take(k - start)),
        decreases bytes@.len() - k,
    {
        assert(digits[k - start] == sb[k as int]);
        assert(is_digit(digits[k - start]));
        let d = (bytes[k] - 48u8) as usize;
        assert(digits.take(k - start + 1).drop_last() =~= digits.take(k - start));
        assert(digits.take(k - start + 1).last() == digits[k - start]);
        assert(decimal_value(digits.take(k - start + 1)) == value * 10 + d);
        match value.checked_mul(10) {
            Some(v10) => match v10.checked_add(d) {
                Some(v) => {
                    value = v;
                },
                None => {
                    proof {
                        lemma_decimal_monotone(digits, k - start + 1);
                    }
                    return None;
                },
            },
            None => {
                proof {
                    lemma_decimal_monotone(digits, k - start + 1);
                }
                return None;
            },
        }
        k = k + 1;
    }
    assert(digits.take(digits.len() as int) =~= digits);
    Some(value)
}

/// The characters of `s`, in order.
pub fn chars_of(s: &str) -> (cs: Vec<char>)
    ensures
        cs@ == s@,
{
    let mut cs: Vec<char> = Vec::new();
    for c in it: s.chars()
        invariant
            it.seq() == s@,
            cs@ == s@.take(it.index()),
    {
        assert(s@.take(it.index() + 1) =~= s@.take(it.index()).push(c));
        cs.push(c);
    }
    assert(s@.take(s@.len() as int) =~= s@);
    cs
}

/// Calls `String::push`, which appends one character.
#[verifier::external_body]
pub(crate) fn push_char(s: &mut String, c: char)
    ensures
        final(s)@ == old(s)@.push(c),
{
    s.push(c)
}

/// The string made of the characters `cs`.
pub fn string_of(cs: &Vec<char>) -> (s: String)
    ensures
        s@ == cs@,
{
    let mut s = String::new();
    let mut i: usize = 0;
    while i < cs.len()
        invariant
            i <= cs@.len(),
            s@ == cs@.take(i as int),
        decreases cs@.len() - i,
    {
        assert(cs@.take(i + 1) =~= cs@.take(i as int).push(cs@[i as int]));
        push_char(&mut s, cs[i]);
        i = i + 1;
    }
    assert(cs@.take(cs@.len() as int) =~= cs@);
    s
}

/// The decimal digit character of `d < 10`.
pub open spec fn digit_char(d: nat) -> char {
    (48 + d) as char
}

/// The decimal rendering of `n`, as `Display` prints an unsigned integer.
pub open spec fn decimal_chars(n: nat) -> Seq<char>
    decreases n,
{
    if n < 10 {
        seq![digit_char(n)]
    } else {
        decimal_chars(n / 10).push(digit_char(n % 10))
    }
}

/// The decimal rendering of `n`.
pub fn decimal_string(n: usize) -> (s: String)
    ensures
        s@ == decimal_chars(n as nat),
{
    // Digits are produced least significant first, then emitted in reverse.
    let mut rev: Vec<char> = Vec::new();
    let mut m: usize = n;
    let ghost mut stack: Seq<nat> = seq![];
    let mut done = false;
    while !done
        invariant
            m <= n,
            rev@.len() == stack.len(),
            !done ==> (stack.len() > 0 ==> m == stack.last() / 10 && m > 0),
            stack.len() == 0 ==> m == n && !done,
            stack.len() > 0 ==> stack[0] == n,
            done ==> stack.len() > 0 && stack.last() < 10,
            forall|k: int| 0 <= k < stack.len() ==> #[trigger] rev@[k] == digit_char(stack[k] % 10),
            forall|k: int| 0 < k < stack.len() ==> #[trigger] stack[k] == stack[k - 1] / 10,
            forall|k: int| 0 <= k < stack.len() - 1 ==> #[trigger] stack[k] >= 10,
        decreases m, (if done { 0int } else { 1int }),
    {
        let d = m % 10;
        let c: char = char_of_digit(d);
        rev.push(c);
        proof {
            stack = stack.push(m as nat);
        }
        m = m / 10;
        if m == 0 {
            done = true;
        }
    }
    let ghost top = stack.len() - 1;
    assert(stack[top] < 10);
    let mut s = String::new();
    let mut i: usize = rev.len();
    while i > 0
        invariant
            i <= rev@.len(),
            rev@.len() == stack.len(),
            stack.len() > 0,
            stack[0] == n,
            stack[stack.len() - 1] < 10,
            forall|k: int| 0 <= k < stack.len() ==> #[trigger] rev@[k] == digit_char(stack[k] % 10),
            forall|k: int| 0 < k < stack.len() ==> #[trigger] stack[k] == stack[k - 1] / 10,
            forall|k: int| 0 <= k < stack.len() - 1 ==> #[trigger] stack[k] >= 10,
            i < rev@.len() ==> s@ == decimal_chars(stack[i as int]),
            i == rev@.len() ==> s@.len() == 0,
        decreases i,
    {
        i = i - 1;
        proof {
            if i + 1 < rev@.len() {
                assert(stack[i + 1] == stack[i as int] / 10);
                assert(stack[i as int] >= 10);
            } else {
                assert(stack[i as int] < 10);
            }
        }
        push_char(&mut s, rev[i]);
    }
    s
}

/// The character of a decimal digit.
fn char_of_digit(d: usize) -> (c: char)
    requires
        d < 10,
    ensures
        c == digit_char(d as nat),
{
    if d == 0 { '0' } else if d == 1 { '1' } else if d == 2 { '2' } else if d == 3 { '3' }
    else if d == 4 { '4' } else if d == 5 { '5' } else if d == 6 { '6' } else if d == 7 { '7' }
    else if d == 8 { '8' } else { '9' }
}

/// `needle` occurs in `hay` as a contiguous run of characters.
pub open spec fn has_infix(hay: Seq<char>, needle: Seq<char>) -> bool {
    exists|i: int| 0 <= i <= hay.len() - needle.len() && #[trigger] hay.subrange(i, i + needle.len()) == needle
}

/// Whether `needle` occurs in `hay`, as `str::contains` with a string pattern decides it.
pub fn contains_str(hay: &Vec<char>, needle: &str) -> (r: bool)
    ensures
        r == has_infix(hay@, needle@),
{
    let nd = chars_of(needle);
    if nd.len() > hay.len() {
        return false;
    }
    let last = hay.len() - nd.len();
    let mut i: usize = 0;
    while i <= last
        invariant
            last == hay@.len() - nd@.len(),
            nd@.len() <= hay@.len(),
            hay@.len() <= usize::MAX,
            nd@ == needle@,
            forall|k: int| 0 <= k < i ==> #[trigger] hay@.subrange(k, k + nd@.len()) != nd@,
        decreases last + 1 - i,
    {
        let mut j: usize = 0;
        let mut same = true;
        while j < nd.len()
            invariant
                j <= nd@.len(),
                i <= last,
                last == hay@.len() - nd@.len(),
                nd@.len() <= hay@.len(),
                hay@.len() <= usize::MAX,
                same == forall|q: int| 0 <= q < j ==> hay@[i + q] == nd@[q],
            decreases nd@.len() - j,
        {
            let at: usize = i + j;
            if hay[at] != nd[j] {
                same = false;
            }
            j = j + 1;
        }
        if same {
            assert(hay@.subrange(i as int, i + nd@.len()) =~= nd@);
            return true;
        }
        proof {
            assert(exists|q: int| 0 <= q < nd@.len() && hay@[i + q] != nd@[q]);
            let q = choose|q: int| 0 <= q < nd@.len() && hay@[i + q] != nd@[q];
            assert(hay@.subrange(i as int, i + nd@.len())[q] != nd@[q]);
        }
        if i == last {
            return false;
        }
        i = i + 1;
    }
    false
}

/// What `str::to_lowercase` returns for the characters `s`.
pub uninterp spec fn lowercase_of(s: Seq<char>) -> Seq<char>;

/// Calls `str::to_lowercase`: the Unicode lowercase mapping of `s`, as the
/// standard library's tables define it (a final capital sigma maps by its
/// context). The contract only names the result.
#[verifier::external_body]
pub(crate) fn to_lowercase(s: &str) -> (r: String)
    ensures
        r@ == lowercase_of(s@),
{
    s.to_lowercase()
}

/// The parts joined with `sep` between neighbours, as `[String]::join` does.
pub open spec fn joined(parts: Seq<Seq<char>>, sep: Seq<char>) -> Seq<char>
    decreases parts.len(),
{
    if parts.len() == 0 {
        Seq::empty()
    } else if parts.len() == 1 {
        parts[0]
    } else {
        joined(parts.drop_last(), sep) + sep + parts.last()
    }
}

/// The characters of each string.
pub open spec fn string_views(parts: Seq<String>) -> Seq<Seq<char>> {
    parts.map_values(|p: String| p@)
}

/// Joins `parts` with `sep` between neighbours.
pub fn join_with(parts: &Vec<String>, sep: &str) -> (s: String)
    ensures
        s@ == joined(string_views(parts@), sep@),
{
    let mut s = String::new();
    let mut i: usize = 0;
    while i < parts.len()
        invariant
            i <= parts@.len(),
            s@ == joined(string_views(parts@.take(i as int)), sep@),
        decreases parts@.len() - i,
    {
        let ghost before = string_views(parts@.take(i as int));
        let ghost after = string_views(parts@.take(i + 1));
        assert(after.drop_last() =~= before);
        assert(after.last() == parts@[i as int]@);
        if i > 0 {
            s.append(sep);
        }
        s.append(parts[i].as_str());
        i = i + 1;
    }
    assert(parts@.take(parts@.len() as int) =~= parts@);
    s
}

} // verus!
