//! Command-line flag lookup: pure functions over the argument list.

use vstd::prelude::*;
use vstd::utf8::encode_utf8;
use crate::text::{parse_usize, parsed_usize, str_eq};

verus! {

/// The characters of each argument.
pub open spec fn arg_views(args: Seq<String>) -> Seq<Seq<char>> {
    args.map_values(|a: String| a@)
}

/// The characters of each flag name.
pub open spec fn flag_views(flags: Seq<&str>) -> Seq<Seq<char>> {
    flags.map_values(|f: &str| f@)
}

/// The first position at or after `start` that holds one of `flags` and is
/// followed by a value.
pub open spec fn first_flag(args: Seq<Seq<char>>, start: int, flags: Seq<Seq<char>>) -> Option<int>
    decreases args.len() - start,
{
    if start < 0 || start >= args.len() {
        None
    } else if flags.contains(args[start]) && start + 1 < args.len() {
        Some(start)
    } else {
        first_flag(args, start + 1, flags)
    }
}

/// The value that follows the first flag found, as the flag lookup returns it.
pub open spec fn flag_value(args: Seq<String>, start: int, flags: Seq<Seq<char>>) -> Option<
    Seq<char>,
> {
    match first_flag(arg_views(args), start, flags) {
        Some(i) => Some(args[i + 1]@),
        None => None,
    }
}

/// The value after the first flag found, parsed as `str::parse::<usize>` does.
pub open spec fn flag_usize(args: Seq<String>, start: int, flags: Seq<Seq<char>>) -> Option<usize> {
    match first_flag(arg_views(args), start, flags) {
        Some(i) => parsed_usize(encode_utf8(args[i + 1]@)),
        None => None,
    }
}

proof fn lemma_first_flag_found(args: Seq<Seq<char>>, start: int, flags: Seq<Seq<char>>, i: int)
    requires
        0 <= start <= i < args.len(),
        first_flag(args, start, flags) == first_flag(args, i, flags),
        !(flags.contains(args[i]) && i + 1 < args.len()),
    ensures
        first_flag(args, start, flags) == first_flag(args, i + 1, flags),
{
}

/// Whether `s` equals one of `flags`.
fn is_one_of(s: &str, flags: &[&str]) -> (r: bool)
    ensures
        r == flag_views(flags@).contains(s@),
{
    let mut k: usize = 0;
    while k < flags.len()
        invariant
            k <= flags@.len(),
            forall|j: int| 0 <= j < k ==> flags@[j]@ != s@,
        decreases flags@.len() - k,
    {
        if str_eq(flags[k], s) {
            assert(flag_views(flags@)[k as int] == s@);
            return true;
        }
        k = k + 1;
    }
    assert forall|j: int| 0 <= j < flag_views(flags@).len() implies flag_views(flags@)[j] != s@ by {
        assert(flags@[j]@ != s@);
    }
    false
}

/// The value after the first of `flags` found at or after `start`.
fn parse_flag_value_in<'a>(args: &'a [String], start: usize, flags: &[&str]) -> (r: Option<
    &'a str,
>)
    ensures
        match flag_value(args@, start as int, flag_views(flags@)) {
            Some(v) => r is Some && r->0@ == v,
            None => r is None,
        },
{
    let ghost av = arg_views(args@);
    let ghost fv = flag_views(flags@);
    let mut i = start;
    while i < args.len()
        invariant
            start <= i,
            av == arg_views(args@),
            fv == flag_views(flags@),
            first_flag(av, start as int, fv) == first_flag(av, i as int, fv),
        decreases args@.len() - i,
    {
        assert(av[i as int] == args@[i as int]@);
        if is_one_of(args[i].as_str(), flags) && i + 1 < args.len() {
            return Some(args[i + 1].as_str());
        }
        proof {
            lemma_first_flag_found(av, start as int, fv, i as int);
        }
        i = i + 1;
    }
    None
}

/// `--dim` / `-d` at or after `start`, as an unsigned integer.
pub fn parse_dim(args: &[String], start: usize) -> (r: Option<usize>)
    ensures
        r == flag_usize(args@, start as int, seq!["--dim"@, "-d"@]),
{
    let flags: [&str; 2] = ["--dim", "-d"];
    assert(flag_views(flags@) =~= seq!["--dim"@, "-d"@]);
    match parse_flag_value_in(args, start, flags.as_slice()) {
        Some(s) => parse_usize(s),
        None => None,
    }
}

/// `--window` / `-w` at or after `start`, as an unsigned integer.
pub fn parse_window(args: &[String], start: usize) -> (r: Option<usize>)
    ensures
        r == flag_usize(args@, start as int, seq!["--window"@, "-w"@]),
{
    let flags: [&str; 2] = ["--window", "-w"];
    assert(flag_views(flags@) =~= seq!["--window"@, "-w"@]);
    match parse_flag_value_in(args, start, flags.as_slice()) {
        Some(s) => parse_usize(s),
        None => None,
    }
}

/// The value after the first `flag` (anywhere), as an unsigned integer.
pub fn parse_int(args: &[String], flag: &str) -> (r: Option<usize>)
    ensures
        r == flag_usize(args@, 0, seq![flag@]),
{
    let flags: [&str; 1] = [flag];
    assert(flag_views(flags@) =~= seq![flag@]);
    match parse_flag_value_in(args, 0, flags.as_slice()) {
        Some(s) => parse_usize(s),
        None => None,
    }
}

/// `--output` / `-o` at or after `start`.
pub fn parse_output(args: &[String], start: usize) -> (r: Option<String>)
    ensures
        match flag_value(args@, start as int, seq!["--output"@, "-o"@]) {
            Some(v) => r is Some && r->0@ == v,
            None => r is None,
        },
{
    let flags: [&str; 2] = ["--output", "-o"];
    assert(flag_views(flags@) =~= seq!["--output"@, "-o"@]);
    match parse_flag_value_in(args, start, flags.as_slice()) {
        Some(s) => Some(s.to_owned()),
        None => None,
    }
}

/// `--to` (translation target) at or after `start`.
pub fn parse_translate_target(args: &[String], start: usize) -> (r: Option<&str>)
    ensures
        match flag_value(args@, start as int, seq!["--to"@]) {
            Some(v) => r is Some && r->0@ == v,
            None => r is None,
        },
{
    let flags: [&str; 1] = ["--to"];
    assert(flag_views(flags@) =~= seq!["--to"@]);
    parse_flag_value_in(args, start, flags.as_slice())
}

/// Whether `flag` is one of the arguments.
pub fn has_flag(args: &[String], flag: &str) -> (r: bool)
    ensures
        r == arg_views(args@).contains(flag@),
{
    let mut i: usize = 0;
    while i < args.len()
        invariant
            i <= args@.len(),
            forall|j: int| 0 <= j < i ==> args@[j]@ != flag@,
        decreases args@.len() - i,
    {
        if str_eq(args[i].as_str(), flag) {
            assert(arg_views(args@)[i as int] == flag@);
            return true;
        }
        i = i + 1;
    }
    assert forall|j: int| 0 <= j < arg_views(args@).len() implies arg_views(args@)[j] != flag@ by {
        assert(args@[j]@ != flag@);
    }
    false
}

/// The value after the first `flag`, looking from the second argument on
/// (the first is the program name).
pub fn parse_flag_value<'a>(args: &'a [String], _start: usize, flag: &str) -> (r: Option<&'a str>)
    ensures
        match flag_value(args@, 1, seq![flag@]) {
            Some(v) => r is Some && r->0@ == v,
            None => r is None,
        },
{
    let flags: [&str; 1] = [flag];
    assert(flag_views(flags@) =~= seq![flag@]);
    parse_flag_value_in(args, 1, flags.as_slice())
}

/// Positions of the values that follow `flag` at positions `1..hi`.
pub open spec fn value_positions(args: Seq<Seq<char>>, flag: Seq<char>, hi: int) -> Seq<int>
    decreases hi,
{
    if hi <= 1 {
        Seq::empty()
    } else {
        let prev = value_positions(args, flag, hi - 1);
        if hi - 1 + 1 < args.len() && args[hi - 1] == flag {
            prev.push(hi)
        } else {
            prev
        }
    }
}

/// Every value of a repeated flag (`--jsonl a --jsonl b`), looking from the
/// second argument on.
pub fn parse_flag_values<'a>(args: &'a [String], flag: &str) -> (r: Vec<&'a str>)
    ensures
        r@.len() == value_positions(arg_views(args@), flag@, args@.len() as int).len(),
        forall|k: int|
            0 <= k < r@.len() ==> (#[trigger] r@[k])@ == args@[value_positions(
                arg_views(args@),
                flag@,
                args@.len() as int,
            )[k]]@,
{
    let ghost av = arg_views(args@);
    let mut values: Vec<&'a str> = Vec::new();
    let end = if args.len() >= 1 { args.len() - 1 } else { 0 };
    let mut i: usize = 1;
    proof {
        assert(value_positions(av, flag@, 1) =~= Seq::<int>::empty());
    }
    while i < end
        invariant
            1 <= i,
            end + 1 == args@.len() || (end == 0 && args@.len() == 0),
            i <= end || i == 1,
            av == arg_views(args@),
            values@.len() == value_positions(av, flag@, i as int).len(),
            forall|k: int|
                0 <= k < values@.len() ==> (#[trigger] values@[k])@ == args@[value_positions(
                    av,
                    flag@,
                    i as int,
                )[k]]@,
            forall|k: int|
                0 <= k < value_positions(av, flag@, i as int).len() ==> 1 < #[trigger] value_positions(
                    av,
                    flag@,
                    i as int,
                )[k] < args@.len(),
        decreases end - i,
    {
        assert(av[i as int] == args@[i as int]@);
        if str_eq(args[i].as_str(), flag) {
            values.push(args[i + 1].as_str());
        }
        i = i + 1;
    }
    proof {
        if args@.len() >= 2 {
            assert(i == end);
            assert(value_positions(av, flag@, args@.len() as int) == value_positions(
                av,
                flag@,
                i as int,
            ));
        } else {
            assert(value_positions(av, flag@, args@.len() as int) =~= Seq::<int>::empty());
        }
    }
    values
}

/// The first position holding exactly `name`.
pub open spec fn first_position(args: Seq<Seq<char>>, name: Seq<char>) -> Option<int> {
    if exists|i: int| 0 <= i < args.len() && args[i] == name {
        Some(choose|i: int| 0 <= i < args.len() && args[i] == name && forall|j: int| 0 <= j < i ==> args[j] != name)
    } else {
        None
    }
}

/// The argument right after the first occurrence of `name`, if there is one.
pub open spec fn arg_text(args: Seq<String>, name: Seq<char>) -> Option<Seq<char>> {
    match first_position(arg_views(args), name) {
        Some(i) => if i + 1 < args.len() { Some(args[i + 1]@) } else { None },
        None => None,
    }
}

/// The unsigned integer given after `name`, or `def` when `name` is absent,
/// is last, or is followed by something that does not parse.
pub fn arg(args: &[String], name: &str, def: usize) -> (r: usize)
    ensures
        r == match arg_text(args@, name@) {
            Some(t) => match parsed_usize(encode_utf8(t)) {
                Some(v) => v,
                None => def,
            },
            None => def,
        },
{
    let mut i: usize = 0;
    while i < args.len()
        invariant
            i <= args@.len(),
            forall|j: int| 0 <= j < i ==> args@[j]@ != name@,
        decreases args@.len() - i,
    {
        if str_eq(args[i].as_str(), name) {
            proof {
                let v = arg_views(args@);
                assert(v[i as int] == name@);
                assert(forall|j: int| 0 <= j < i ==> v[j] != name@);
                let k = choose|k: int| 0 <= k < v.len() && v[k] == name@ && forall|j: int| 0 <= j < k ==> v[j] != name@;
                if k < i {
                    assert(v[k] == args@[k]@);
                } else if k > i {
                    assert(v[i as int] != name@);
                }
                assert(first_position(v, name@) == Some(i as int));
            }
            if i + 1 < args.len() {
                return match parse_usize(args[i + 1].as_str()) {
                    Some(v) => v,
                    None => def,
                };
            }
            return def;
        }
        i = i + 1;
    }
    proof {
        let v = arg_views(args@);
        assert forall|j: int| 0 <= j < v.len() implies v[j] != name@ by {
            assert(v[j] == args@[j]@);
        }
    }
    def
}

} // verus!
