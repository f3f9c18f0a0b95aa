//! Agent run records: the `TASK:`, `SCRIPT:`, `OUTPUT:`, `STATUS:` and
//! `ERROR:` lines of a record, and the corpus entry that a record becomes;
//! and the error summary and search query of a refactoring round.

use vstd::prelude::*;
use crate::corpus::{lines_of, lines_vec, trimmed, trimmed_chars};
use crate::refactor::{starts_with, starts_with_str};
use crate::text::{
    chars_of, contains_str, decimal_chars, decimal_string, has_infix, join_with, joined, string_of, string_views,
};
use vstd::utf8::{encode_utf8, is_char_boundary};

verus! {

/// The fields of one agent run record; a field whose line is missing is empty.
pub struct AgentRecord {
    pub task: String,
    pub script: String,
    pub output: String,
    pub status: String,
    pub error: String,
}

/// The rest of the last of `lines` that starts with `prefix`; empty when
/// none does.
pub open spec fn last_field(lines: Seq<Seq<char>>, prefix: Seq<char>) -> Seq<char>
    decreases lines.len(),
{
    if lines.len() == 0 {
        Seq::empty()
    } else if starts_with(lines.last(), prefix) {
        lines.last().skip(prefix.len() as int)
    } else {
        last_field(lines.drop_last(), prefix)
    }
}

/// The field of `prefix` read from the lines seen so far: `cur` when the
/// line at hand starts with `prefix`, else the field before.
fn take_field(line: &Vec<char>, prefix: &str, cur: String, Ghost(seen): Ghost<Seq<Seq<char>>>) -> (r: String)
    requires
        cur@ == last_field(seen, prefix@),
    ensures
        r@ == last_field(seen.push(line@), prefix@),
{
    assert(seen.push(line@).drop_last() =~= seen);
    if starts_with_str(line, prefix) {
        let pc = chars_of(prefix);
        let mut rest: Vec<char> = Vec::new();
        let mut k = pc.len();
        while k < line.len()
            invariant
                pc@.len() <= k <= line@.len(),
                rest@ == line@.subrange(pc@.len() as int, k as int),
            decreases line@.len() - k,
        {
            assert(line@.subrange(pc@.len() as int, k + 1) =~= rest@.push(line@[k as int]));
            rest.push(line[k]);
            k = k + 1;
        }
        assert(rest@ =~= line@.skip(prefix@.len() as int));
        string_of(&rest)
    } else {
        cur
    }
}

/// Reads a record: each field is the rest of the last line that starts with
/// its tag (`TASK: `, `SCRIPT: `, `OUTPUT: `, `STATUS: `, `ERROR: `).
pub fn parse_agent_record(content: &str) -> (r: AgentRecord)
    ensures
        r.task@ == last_field(lines_of(content@), "TASK: "@),
        r.script@ == last_field(lines_of(content@), "SCRIPT: "@),
        r.output@ == last_field(lines_of(content@), "OUTPUT: "@),
        r.status@ == last_field(lines_of(content@), "STATUS: "@),
        r.error@ == last_field(lines_of(content@), "ERROR: "@),
{
    let cs = chars_of(content);
    let ls = lines_vec(&cs);
    let ghost all = lines_of(content@);
    let mut task = String::new();
    let mut script = String::new();
    let mut output = String::new();
    let mut status = String::new();
    let mut error = String::new();
    let mut i: usize = 0;
    while i < ls.len()
        invariant
            i <= ls@.len(),
            all == lines_of(content@),
            ls@.len() == all.len(),
            forall|k: int| 0 <= k < ls@.len() ==> (#[trigger] ls@[k])@ == all[k],
            task@ == last_field(all.take(i as int), "TASK: "@),
            script@ == last_field(all.take(i as int), "SCRIPT: "@),
            output@ == last_field(all.take(i as int), "OUTPUT: "@),
            status@ == last_field(all.take(i as int), "STATUS: "@),
            error@ == last_field(all.take(i as int), "ERROR: "@),
        decreases ls@.len() - i,
    {
        let ghost seen = all.take(i as int);
        assert(all.take(i + 1) =~= seen.push(ls@[i as int]@));
        task = take_field(&ls[i], "TASK: ", task, Ghost(seen));
        script = take_field(&ls[i], "SCRIPT: ", script, Ghost(seen));
        output = take_field(&ls[i], "OUTPUT: ", output, Ghost(seen));
        status = take_field(&ls[i], "STATUS: ", status, Ghost(seen));
        error = take_field(&ls[i], "ERROR: ", error, Ghost(seen));
        i = i + 1;
    }
    assert(all.take(all.len() as int) =~= all);
    AgentRecord { task, script, output, status, error }
}

/// The corpus entry of a record: none without a task; a failure entry when
/// the status is `failed` and an error is given; a success entry otherwise.
pub open spec fn agent_entry(r: AgentRecord) -> Option<Seq<char>> {
    if r.task@.len() == 0 {
        None
    } else if r.status@ == "failed"@ && r.error@.len() > 0 {
        Some("// AGENT FAILURE\n// TASK: "@ + r.task@ + "\n// ERROR: "@ + r.error@ + "\n"@ + r.script@)
    } else {
        Some("// AGENT SUCCESS\n// TASK: "@ + r.task@ + "\n// OUTPUT: "@ + r.output@ + "\n"@ + r.script@)
    }
}

/// The corpus entry of a record (see `agent_entry`).
pub fn agent_entry_text(r: &AgentRecord) -> (t: Option<String>)
    ensures
        match agent_entry(*r) {
            Some(e) => t matches Some(s) && s@ == e,
            None => t is None,
        },
{
    if r.task.as_str().is_empty() {
        return None;
    }
    let failed_word = String::from_str("failed");
    let failed = r.status == failed_word;
    if failed && !r.error.as_str().is_empty() {
        let mut s = String::from_str("// AGENT FAILURE\n// TASK: ");
        s.append(r.task.as_str());
        s.append("\n// ERROR: ");
        s.append(r.error.as_str());
        s.append("\n");
        s.append(r.script.as_str());
        Some(s)
    } else {
        let mut s = String::from_str("// AGENT SUCCESS\n// TASK: ");
        s.append(r.task.as_str());
        s.append("\n// OUTPUT: ");
        s.append(r.output.as_str());
        s.append("\n");
        s.append(r.script.as_str());
        Some(s)
    }
}

/// `line` holds one of `markers`.
pub open spec fn marked(line: Seq<char>, markers: Seq<&str>) -> bool {
    exists|j: int| 0 <= j < markers.len() && has_infix(line, #[trigger] markers[j]@)
}

/// The first `n` of `lines` that hold one of `markers`, in order.
pub open spec fn marked_lines(lines: Seq<Seq<char>>, markers: Seq<&str>, n: nat) -> Seq<Seq<char>>
    decreases lines.len(),
{
    if lines.len() == 0 || n == 0 {
        Seq::empty()
    } else if marked(lines[0], markers) {
        seq![lines[0]] + marked_lines(lines.drop_first(), markers, (n - 1) as nat)
    } else {
        marked_lines(lines.drop_first(), markers, n)
    }
}

/// The error summary of a checker's output: its first ten lines that hold
/// one of `markers`, joined with newlines.
pub open spec fn error_summary(output: Seq<char>, markers: Seq<&str>) -> Seq<char> {
    joined(marked_lines(lines_of(output), markers, 10), "\n"@)
}

fn is_marked(line: &Vec<char>, markers: &[&str]) -> (r: bool)
    ensures
        r == marked(line@, markers@),
{
    let mut j: usize = 0;
    while j < markers.len()
        invariant
            j <= markers@.len(),
            forall|k: int| 0 <= k < j ==> !has_infix(line@, #[trigger] markers@[k]@),
        decreases markers@.len() - j,
    {
        if contains_str(line, markers[j]) {
            return true;
        }
        j = j + 1;
    }
    false
}

proof fn lemma_marked_len(lines: Seq<Seq<char>>, markers: Seq<&str>, n: nat)
    ensures
        marked_lines(lines, markers, n).len() <= n,
    decreases lines.len(),
{
    if lines.len() > 0 && n > 0 {
        if marked(lines[0], markers) {
            lemma_marked_len(lines.drop_first(), markers, (n - 1) as nat);
        } else {
            lemma_marked_len(lines.drop_first(), markers, n);
        }
    }
}

proof fn lemma_marked_lines_split(lines: Seq<Seq<char>>, markers: Seq<&str>, n: nat, i: int)
    requires
        0 <= i <= lines.len(),
    ensures
        marked_lines(lines, markers, n) == marked_lines(lines.take(i), markers, n) + marked_lines(
            lines.skip(i),
            markers,
            (n - marked_lines(lines.take(i), markers, n).len()) as nat,
        ),
    decreases i,
{
    lemma_marked_len(lines.take(i), markers, n);
    if i > 0 && n > 0 {
        let rest = lines.drop_first();
        assert(lines.take(i).drop_first() =~= rest.take(i - 1));
        assert(lines.skip(i) =~= rest.skip(i - 1));
        if marked(lines[0], markers) {
            assert(lines.take(i)[0] == lines[0]);
            lemma_marked_lines_split(rest, markers, (n - 1) as nat, i - 1);
        } else {
            assert(lines.take(i)[0] == lines[0]);
            lemma_marked_lines_split(rest, markers, n, i - 1);
        }
    } else if i == 0 {
        assert(lines.take(0) =~= Seq::<Seq<char>>::empty());
        assert(lines.skip(0) =~= lines);
    }
}

/// The error summary of `output` for the given markers (see `error_summary`).
pub fn summarize_errors(output: &str, markers: &[&str]) -> (s: String)
    ensures
        s@ == error_summary(output@, markers@),
{
    let cs = chars_of(output);
    let ls = lines_vec(&cs);
    let ghost all = lines_of(output@);
    let mut kept: Vec<Vec<char>> = Vec::new();
    let mut i: usize = 0;
    while i < ls.len() && kept.len() < 10
        invariant
            i <= ls@.len(),
            all == lines_of(output@),
            ls@.len() == all.len(),
            forall|k: int| 0 <= k < ls@.len() ==> (#[trigger] ls@[k])@ == all[k],
            kept@.map_values(|l: Vec<char>| l@) == marked_lines(all.take(i as int), markers@, 10),
            kept@.len() <= 10,
        decreases ls@.len() - i,
    {
        let ghost before = marked_lines(all.take(i as int), markers@, 10);
        assert(kept@.map_values(|l: Vec<char>| l@).len() == kept@.len());
        proof {
            lemma_marked_lines_split(all.take(i + 1), markers@, 10, i as int);
            assert(all.take(i + 1).take(i as int) =~= all.take(i as int));
            assert(all.take(i + 1).skip(i as int) =~= seq![all[i as int]]);
            assert(seq![all[i as int]].drop_first() =~= Seq::<Seq<char>>::empty());
            let m = (10 - before.len()) as nat;
            let e = Seq::<Seq<char>>::empty();
            assert(marked_lines(e, markers@, (m - 1) as nat) == e);
            assert(marked_lines(e, markers@, m) == e);
            assert(ls@[i as int]@ == all[i as int]);
            if marked(all[i as int], markers@) {
                assert(marked_lines(seq![all[i as int]], markers@, m) == seq![all[i as int]] + e);
            } else {
                assert(marked_lines(seq![all[i as int]], markers@, m) == e);
            }
        }
        if is_marked(&ls[i], markers) {
            let l = ls[i].clone();
            kept.push(l);
            assert(kept@.map_values(|l: Vec<char>| l@) =~= before.push(all[i as int]));
        } else {
            assert(kept@.map_values(|l: Vec<char>| l@) =~= before);
        }
        i = i + 1;
    }
    proof {
        if i < ls@.len() {
            lemma_marked_lines_split(all, markers@, 10, i as int);
        } else {
            assert(all.take(i as int) =~= all);
        }
    }
    let mut out: Vec<char> = Vec::new();
    let mut k: usize = 0;
    proof {
        reveal_strlit("\n");
    }
    while k < kept.len()
        invariant
            k <= kept@.len(),
            "\n"@ == seq!['\n'],
            out@ == joined(kept@.map_values(|l: Vec<char>| l@).take(k as int), "\n"@),
        decreases kept@.len() - k,
    {
        let ghost before = kept@.map_values(|l: Vec<char>| l@).take(k as int);
        assert(kept@.map_values(|l: Vec<char>| l@).take(k + 1).drop_last() =~= before);
        if k > 0 {
            out.push('\n');
        }
        let mut m: usize = 0;
        let ghost o0 = out@;
        while m < kept[k].len()
            invariant
                k < kept@.len(),
                m <= kept@[k as int]@.len(),
                out@ == o0 + kept@[k as int]@.take(m as int),
            decreases kept@[k as int]@.len() - m,
        {
            assert(kept@[k as int]@.take(m + 1) =~= kept@[k as int]@.take(m as int).push(kept@[k as int]@[m as int]));
            out.push(kept[k][m]);
            m = m + 1;
        }
        assert(kept@[k as int]@.take(m as int) =~= kept@[k as int]@);
        let ghost after = kept@.map_values(|l: Vec<char>| l@).take(k + 1);
        assert(after.last() == kept@[k as int]@);
        assert(after.len() == k + 1);
        k = k + 1;
    }
    assert(kept@.map_values(|l: Vec<char>| l@).take(kept@.len() as int) =~= kept@.map_values(|l: Vec<char>| l@));
    string_of(&out)
}

/// The search query of a refactoring round: the task, followed when the
/// last check failed by ` ERROR: ` and the first three lines of its errors
/// joined with spaces.
pub open spec fn refactor_query(desc: Seq<char>, errors: Seq<char>) -> Seq<char> {
    if errors.len() == 0 {
        desc
    } else {
        let ls = lines_of(errors);
        desc + " ERROR: "@ + joined(ls.take(if ls.len() < 3 { ls.len() as int } else { 3 }), " "@)
    }
}

/// The search query of a refactoring round (see `refactor_query`).
pub fn refactor_search_query(desc: &str, errors: &str) -> (q: String)
    ensures
        q@ == refactor_query(desc@, errors@),
{
    if errors.is_empty() {
        return String::from_str(desc);
    }
    let cs = chars_of(errors);
    let ls = lines_vec(&cs);
    let ghost all = lines_of(errors@);
    let n: usize = if ls.len() < 3 { ls.len() } else { 3 };
    let ghost parts = all.take(n as int);
    let mut out = chars_of(desc);
    let ghost o0 = out@;
    proof {
        reveal_strlit(" ERROR: ");
        reveal_strlit(" ");
    }
    let tag = chars_of(" ERROR: ");
    let mut j: usize = 0;
    while j < tag.len()
        invariant
            j <= tag@.len(),
            tag@ == " ERROR: "@,
            out@ == o0 + tag@.take(j as int),
        decreases tag@.len() - j,
    {
        assert(tag@.take(j + 1) =~= tag@.take(j as int).push(tag@[j as int]));
        out.push(tag[j]);
        j = j + 1;
    }
    assert(tag@.take(tag@.len() as int) =~= tag@);
    let ghost o1 = out@;
    let mut k: usize = 0;
    while k < n
        invariant
            k <= n <= ls@.len(),
            n == (if all.len() < 3 { all.len() as int } else { 3 }),
            ls@.len() == all.len(),
            forall|x: int| 0 <= x < ls@.len() ==> (#[trigger] ls@[x])@ == all[x],
            " "@ == seq![' '],
            out@ == o1 + joined(all.take(k as int), " "@),
        decreases n - k,
    {
        assert(all.take(k + 1).drop_last() =~= all.take(k as int));
        assert(all.take(k + 1).last() == all[k as int]);
        let ghost before = out@;
        if k > 0 {
            out.push(' ');
        }
        let mut m: usize = 0;
        let ghost p0 = out@;
        while m < ls[k].len()
            invariant
                k < ls@.len(),
                m <= ls@[k as int]@.len(),
                out@ == p0 + ls@[k as int]@.take(m as int),
            decreases ls@[k as int]@.len() - m,
        {
            assert(ls@[k as int]@.take(m + 1) =~= ls@[k as int]@.take(m as int).push(ls@[k as int]@[m as int]));
            out.push(ls[k][m]);
            m = m + 1;
        }
        assert(ls@[k as int]@.take(m as int) =~= ls@[k as int]@);
        assert(out@ =~= o1 + joined(all.take(k + 1), " "@));
        k = k + 1;
    }
    assert(out@ =~= desc@ + " ERROR: "@ + joined(all.take(n as int), " "@));
    string_of(&out)
}

/// How a refactoring round ended: the check failed, the check passed but the
/// tests failed, or both passed.
#[derive(Clone, Copy, PartialEq, Eq, Structural)]
pub enum RoundOutcome {
    CheckFailed,
    TestsFailed,
    Passed,
}

/// What the refactoring loop does after a round: finish; restore the
/// original file and run the next round; or restore it and stop, the
/// rounds used up.
#[derive(Clone, Copy, PartialEq, Eq, Structural)]
pub enum RefactorStep {
    Finish,
    RestoreAndRetry,
    RestoreAndStop,
}

/// The decision after round `iter` (counted from 1) of at most `max_iter`.
pub fn refactor_step(iter: usize, max_iter: usize, outcome: RoundOutcome) -> (s: RefactorStep)
    ensures
        outcome == RoundOutcome::Passed ==> s == RefactorStep::Finish,
        outcome != RoundOutcome::Passed && iter < max_iter ==> s == RefactorStep::RestoreAndRetry,
        outcome != RoundOutcome::Passed && iter >= max_iter ==> s == RefactorStep::RestoreAndStop,
{
    match outcome {
        RoundOutcome::Passed => RefactorStep::Finish,
        _ => if iter < max_iter { RefactorStep::RestoreAndRetry } else { RefactorStep::RestoreAndStop },
    }
}

/// The agent record of a refactoring that passed.
pub open spec fn refactor_success_entry(file: Seq<char>, desc: Seq<char>, modified: Seq<char>) -> Seq<char> {
    "TASK: refactor "@ + file + " — "@ + desc + "\nFILE: "@ + file + "\nDIFF:\n"@ + modified + "\nSTATUS: success\n"@
}

/// The agent record of a refactoring round whose check failed.
pub open spec fn refactor_failure_entry(file: Seq<char>, desc: Seq<char>, iter: nat, errors: Seq<char>) -> Seq<char> {
    "TASK: refactor "@ + file + " — "@ + desc + " (iter "@ + decimal_chars(iter) + ")\nFILE: "@ + file
        + "\nERROR:\n"@ + errors + "\nSTATUS: failed\n"@
}

/// The agent record of a refactoring that passed (see `refactor_success_entry`).
pub fn refactor_success_text(file: &str, desc: &str, modified: &str) -> (s: String)
    ensures
        s@ == refactor_success_entry(file@, desc@, modified@),
{
    let mut s = String::from_str("TASK: refactor ");
    s.append(file);
    s.append(" — ");
    s.append(desc);
    s.append("\nFILE: ");
    s.append(file);
    s.append("\nDIFF:\n");
    s.append(modified);
    s.append("\nSTATUS: success\n");
    s
}

/// The agent record of a failed refactoring round (see `refactor_failure_entry`).
pub fn refactor_failure_text(file: &str, desc: &str, iter: usize, errors: &str) -> (s: String)
    ensures
        s@ == refactor_failure_entry(file@, desc@, iter as nat, errors@),
{
    let n = decimal_string(iter);
    let mut s = String::from_str("TASK: refactor ");
    s.append(file);
    s.append(" — ");
    s.append(desc);
    s.append(" (iter ");
    s.append(n.as_str());
    s.append(")\nFILE: ");
    s.append(file);
    s.append("\nERROR:\n");
    s.append(errors);
    s.append("\nSTATUS: failed\n");
    s
}

/// What `serde_json::to_string` makes of a string: its JSON string literal,
/// or `None` where serialisation fails.
pub uninterp spec fn json_string_of(s: Seq<char>) -> Option<Seq<char>>;

/// Calls `serde_json::to_string` on `s`. The contract names the outcome, a
/// function of `s` alone; what the literal looks like is not stated here.
#[verifier::external_body]
fn json_quote(s: &str) -> (r: Option<String>)
    ensures
        match r {
            Some(j) => json_string_of(s@) == Some(j@),
            None => json_string_of(s@) == None::<Seq<char>>,
        },
{
    serde_json::to_string(s).ok()
}

/// The task as the agent script quotes it: its JSON literal, or the task
/// between plain double quotes where serialisation fails.
pub open spec fn task_literal_of(task: Seq<char>) -> Seq<char> {
    match json_string_of(task) {
        Some(j) => j,
        None => "\""@ + task + "\""@,
    }
}

/// The task quoted for the agent script (see `task_literal_of`).
pub fn task_literal(task: &str) -> (r: String)
    ensures
        r@ == task_literal_of(task@),
{
    match json_quote(task) {
        Some(j) => j,
        None => {
            let mut s = String::from_str("\"");
            s.append(task);
            s.append("\"");
            s
        },
    }
}

/// The key by which snippets count as the same: their first 80 UTF-8 bytes
/// (all of them when there are fewer).
pub open spec fn snippet_key(s: Seq<char>) -> Seq<u8> {
    byte_key(encode_utf8(s))
}

/// The first 80 bytes of `b`, or all of them when there are fewer.
pub open spec fn byte_key(b: Seq<u8>) -> Seq<u8> {
    if b.len() <= 80 { b } else { b.take(80) }
}

/// No snippet before the one at `i` has its key.
pub open spec fn first_with_key(texts: Seq<Seq<char>>, i: int) -> bool {
    forall|j: int| 0 <= j < i ==> snippet_key(#[trigger] texts[j]) != snippet_key(texts[i])
}

/// The first `n` snippets, each kept only where no earlier one has its key.
pub open spec fn unique_prefix(texts: Seq<Seq<char>>, n: nat) -> Seq<Seq<char>>
    decreases n,
{
    if n == 0 {
        Seq::empty()
    } else {
        unique_prefix(texts, (n - 1) as nat) + if first_with_key(texts, n - 1) {
            seq![texts[n - 1]]
        } else {
            Seq::empty()
        }
    }
}

/// Every snippet's 80-byte cut falls on a character boundary, as slicing its
/// text there needs.
pub open spec fn keys_on_boundaries(texts: Seq<String>) -> bool {
    forall|i: int|
        0 <= i < texts.len() && encode_utf8((#[trigger] texts[i])@).len() > 80 ==> is_char_boundary(
            encode_utf8(texts[i]@),
            80,
        )
}

/// Whether the keys of `a` and `b` (see `snippet_key`) are equal.
fn same_key(a: &[u8], b: &[u8]) -> (r: bool)
    ensures
        r == (byte_key(a@) == byte_key(b@)),
{
    let la = if a.len() <= 80 { a.len() } else { 80 };
    let lb = if b.len() <= 80 { b.len() } else { 80 };
    let ghost ka = byte_key(a@);
    let ghost kb = byte_key(b@);
    if la != lb {
        assert(ka.len() != kb.len());
        assert(ka != kb);
        return false;
    }
    let mut i: usize = 0;
    while i < la
        invariant
            ka == byte_key(a@),
            kb == byte_key(b@),
            la == lb,
            la == ka.len(),
            lb == kb.len(),
            i <= la,
            la <= a@.len(),
            la <= b@.len(),
            forall|k: int| 0 <= k < ka.len() ==> ka[k] == a@[k],
            forall|k: int| 0 <= k < kb.len() ==> kb[k] == b@[k],
            forall|k: int| 0 <= k < i ==> ka[k] == kb[k],
        decreases la - i,
    {
        if a[i] != b[i] {
            assert(ka[i as int] != kb[i as int]);
            assert(ka != kb);
            return false;
        }
        i = i + 1;
    }
    assert(ka =~= kb);
    true
}

/// The snippets with duplicates dropped: a snippet stays where no earlier
/// one shares its first 80 bytes; order is kept.
pub fn unique_snippets(texts: &Vec<String>) -> (r: Vec<String>)
    requires
        keys_on_boundaries(texts@),
    ensures
        string_views(r@) == unique_prefix(string_views(texts@), texts@.len()),
{
    let ghost all = string_views(texts@);
    let mut r: Vec<String> = Vec::new();
    let mut i: usize = 0;
    while i < texts.len()
        invariant
            i <= texts@.len(),
            all == string_views(texts@),
            string_views(r@) == unique_prefix(all, i as nat),
        decreases texts@.len() - i,
    {
        let bi = texts[i].as_str().as_bytes();
        let mut fresh = true;
        let mut j: usize = 0;
        while j < i
            invariant
                j <= i,
                i < texts@.len(),
                all == string_views(texts@),
                bi@ == encode_utf8(all[i as int]),
                fresh == (forall|k: int| 0 <= k < j ==> snippet_key(#[trigger] all[k]) != snippet_key(all[i as int])),
            decreases i - j,
        {
            let bj = texts[j].as_str().as_bytes();
            assert(all[j as int] == texts@[j as int]@);
            if same_key(bj, bi) {
                fresh = false;
            }
            j = j + 1;
        }
        let ghost before = string_views(r@);
        if fresh {
            r.push(texts[i].clone());
        }
        assert(string_views(r@) =~= before + if first_with_key(all, i as int) {
            seq![all[i as int]]
        } else {
            Seq::<Seq<char>>::empty()
        });
        i = i + 1;
    }
    r
}

/// The non-empty trimmed lines among the first `n` of `ls`.
pub open spec fn signature_parts(ls: Seq<Seq<char>>, n: nat) -> Seq<Seq<char>>
    decreases n,
{
    if n == 0 {
        Seq::empty()
    } else {
        let t = trimmed(ls[n - 1]);
        signature_parts(ls, (n - 1) as nat) + if t.len() > 0 {
            seq![t]
        } else {
            Seq::empty()
        }
    }
}

/// A snippet's signature: its first three lines, trimmed, the empty ones
/// dropped, joined with `"; "`.
pub open spec fn snippet_signature_of(s: Seq<char>) -> Seq<char> {
    let ls = lines_of(s);
    joined(signature_parts(ls, if ls.len() < 3 { ls.len() } else { 3 }), "; "@)
}

/// A snippet's signature (see `snippet_signature_of`).
pub fn snippet_signature(s: &str) -> (r: String)
    ensures
        r@ == snippet_signature_of(s@),
{
    let cs = chars_of(s);
    let ls = lines_vec(&cs);
    let ghost all = lines_of(s@);
    let n = if ls.len() < 3 { ls.len() } else { 3 };
    let mut parts: Vec<String> = Vec::new();
    let mut k: usize = 0;
    while k < n
        invariant
            k <= n,
            n <= ls@.len(),
            all == lines_of(s@),
            ls@.len() == all.len(),
            forall|j: int| 0 <= j < ls@.len() ==> (#[trigger] ls@[j])@ == all[j],
            string_views(parts@) == signature_parts(all, k as nat),
        decreases n - k,
    {
        let t = trimmed_chars(&ls[k]);
        let ghost before = string_views(parts@);
        if t.len() > 0 {
            parts.push(string_of(&t));
        }
        assert(string_views(parts@) =~= signature_parts(all, (k + 1) as nat));
        k = k + 1;
    }
    join_with(&parts, "; ")
}

/// The comment lines that list the first `n` snippets: `// [i] ` and the
/// signature of snippet `i`, one line each.
pub open spec fn pattern_lines(snippets: Seq<Seq<char>>, n: nat) -> Seq<char>
    decreases n,
{
    if n == 0 {
        Seq::empty()
    } else {
        pattern_lines(snippets, (n - 1) as nat) + "// ["@ + decimal_chars((n - 1) as nat) + "] "@
            + snippet_signature_of(snippets[n - 1]) + "\n"@
    }
}

/// The agent's zx script for `task` with the learned `snippets`: the header,
/// the preamble that runs the quoted task, and the snippets' signatures
/// between the scan markers.
pub open spec fn agent_script_of(task: Seq<char>, snippets: Seq<Seq<char>>) -> Seq<char> {
    "#!/usr/bin/env zx\n\n// Task: "@ + task + "\n"@
        + "import { execSync } from 'child_process';\n\ntry {\n  console.log('\u{25b8} Fuga Agent executing...');\n  console.log('Patterns: "@
        + decimal_chars(snippets.len()) + "');\n  let task = "@ + task_literal_of(task)
        + ";\n  console.log('Task:', task);\n  let result = execSync(task, { encoding: 'utf8', shell: true });\n  console.log('stdout:', result.trimEnd());\n  console.log('\u{2713} Done');\n} catch (e) {\n  console.error('\u{2717} Error:', e);\n  process.exit(1);\n}\n"@
        + "\n// \u{2500}\u{2500} SECURITY_SCAN_START \u{2500}\u{2500}\n// Learned patterns (context):\n"@
        + pattern_lines(snippets, snippets.len()) + "\n// \u{2500}\u{2500} SECURITY_SCAN_END \u{2500}\u{2500}\n"@
}

/// The agent's script (see `agent_script_of`).
pub fn agent_script(task: &str, snippets: &Vec<String>) -> (s: String)
    ensures
        s@ == agent_script_of(task@, string_views(snippets@)),
{
    let ghost sv = string_views(snippets@);
    let lit = task_literal(task);
    let count = decimal_string(snippets.len());
    let mut s = String::from_str("#!/usr/bin/env zx\n\n// Task: ");
    s.append(task);
    s.append("\n");
    s.append("import { execSync } from 'child_process';\n\ntry {\n  console.log('\u{25b8} Fuga Agent executing...');\n  console.log('Patterns: ");
    s.append(count.as_str());
    s.append("');\n  let task = ");
    s.append(lit.as_str());
    s.append(";\n  console.log('Task:', task);\n  let result = execSync(task, { encoding: 'utf8', shell: true });\n  console.log('stdout:', result.trimEnd());\n  console.log('\u{2713} Done');\n} catch (e) {\n  console.error('\u{2717} Error:', e);\n  process.exit(1);\n}\n");
    s.append("\n// \u{2500}\u{2500} SECURITY_SCAN_START \u{2500}\u{2500}\n// Learned patterns (context):\n");
    let ghost head = s@;
    let mut i: usize = 0;
    while i < snippets.len()
        invariant
            i <= snippets@.len(),
            sv == string_views(snippets@),
            s@ == head + pattern_lines(sv, i as nat),
        decreases snippets@.len() - i,
    {
        let sig = snippet_signature(snippets[i].as_str());
        let idx = decimal_string(i);
        s.append("// [");
        s.append(idx.as_str());
        s.append("] ");
        s.append(sig.as_str());
        s.append("\n");
        assert(sv[i as int] == snippets@[i as int]@);
        i = i + 1;
    }
    s.append("\n// \u{2500}\u{2500} SECURITY_SCAN_END \u{2500}\u{2500}\n");
    s
}

/// The patterns the security scan looks for, in the order it reports them.
pub open spec fn danger_patterns() -> Seq<Seq<char>> {
    seq![
        "exec("@,
        "child_process"@,
        "require('fs')"@,
        "require('net')"@,
        "require('http')"@,
        "process.binding"@,
        "globalThis.constructor"@,
        "__proto__"@,
        "prototype"@,
        "constructor."@,
    ]
}

/// The scan's pattern number `k`.
pub fn danger_pattern(k: usize) -> (p: &'static str)
    requires
        k < 10,
    ensures
        p@ == danger_patterns()[k as int],
{
    if k == 0 {
        "exec("
    } else if k == 1 {
        "child_process"
    } else if k == 2 {
        "require('fs')"
    } else if k == 3 {
        "require('net')"
    } else if k == 4 {
        "require('http')"
    } else if k == 5 {
        "process.binding"
    } else if k == 6 {
        "globalThis.constructor"
    } else if k == 7 {
        "__proto__"
    } else if k == 8 {
        "prototype"
    } else {
        "constructor."
    }
}

/// The hits on one line, numbered `n`: a pair of `n` and the pattern's number
/// for each pattern from number `k` on that occurs in the line.
pub open spec fn line_hits(line: Seq<char>, n: int, k: nat) -> Seq<(int, int)>
    decreases 10 - k,
{
    if k >= 10 {
        Seq::empty()
    } else {
        (if has_infix(line, danger_patterns()[k as int]) {
            seq![(n, k as int)]
        } else {
            Seq::empty()
        }) + line_hits(line, n, k + 1)
    }
}

/// The scan's findings from line `i` (counted from 0) on, `zone` telling
/// whether the scan zone has begun: a line with the start marker opens it, one
/// with the end marker ends the scan, and inside the zone each line gives its
/// hits, numbered from 1.
pub open spec fn scan_hits(lines: Seq<Seq<char>>, i: int, zone: bool) -> Seq<(int, int)>
    decreases lines.len() - i,
{
    if i < 0 || i >= lines.len() {
        Seq::empty()
    } else if has_infix(lines[i], "SECURITY_SCAN_START"@) {
        scan_hits(lines, i + 1, true)
    } else if has_infix(lines[i], "SECURITY_SCAN_END"@) {
        Seq::empty()
    } else if !zone {
        scan_hits(lines, i + 1, zone)
    } else {
        line_hits(lines[i], i + 1, 0) + scan_hits(lines, i + 1, zone)
    }
}

/// The findings as pairs of integers.
pub open spec fn issue_view(v: Seq<(usize, usize)>) -> Seq<(int, int)> {
    v.map_values(|p: (usize, usize)| (p.0 as int, p.1 as int))
}

/// The security scan's findings on `script`: for each line inside the scan
/// zone, its number (from 1) and the number of each dangerous pattern it
/// holds (see `scan_hits`).
pub fn security_issues(script: &str) -> (v: Vec<(usize, usize)>)
    ensures
        issue_view(v@) == scan_hits(lines_of(script@), 0, false),
{
    let cs = chars_of(script);
    let ls = lines_vec(&cs);
    let ghost all = lines_of(script@);
    let mut v: Vec<(usize, usize)> = Vec::new();
    let mut zone = false;
    let mut i: usize = 0;
    while i < ls.len()
        invariant_except_break
            i <= ls@.len(),
            all == lines_of(script@),
            ls@.len() == all.len(),
            forall|j: int| 0 <= j < ls@.len() ==> (#[trigger] ls@[j])@ == all[j],
            issue_view(v@) + scan_hits(all, i as int, zone) == scan_hits(all, 0, false),
        ensures
            issue_view(v@) == scan_hits(all, 0, false),
        decreases ls@.len() - i,
    {
        let line = &ls[i];
        if contains_str(line, "SECURITY_SCAN_START") {
            zone = true;
            i = i + 1;
            continue;
        }
        if contains_str(line, "SECURITY_SCAN_END") {
            assert(issue_view(v@) + Seq::<(int, int)>::empty() =~= issue_view(v@));
            break;
        }
        if !zone {
            i = i + 1;
            continue;
        }
        let ghost v0 = issue_view(v@);
        let mut k: usize = 0;
        while k < 10
            invariant
                k <= 10,
                i < ls.len(),
                ls@.len() == all.len(),
                line@ == all[i as int],
                issue_view(v@) + line_hits(all[i as int], i + 1, k as nat) == v0 + line_hits(all[i as int], i + 1, 0),
            decreases 10 - k,
        {
            let ghost before = issue_view(v@);
            let ghost rest = line_hits(all[i as int], i + 1, (k + 1) as nat);
            assert(line_hits(all[i as int], i + 1, k as nat) == (if has_infix(all[i as int], danger_patterns()[k as int]) {
                seq![(i + 1, k as int)]
            } else {
                Seq::<(int, int)>::empty()
            }) + rest);
            if contains_str(line, danger_pattern(k)) {
                v.push((i + 1, k));
                assert(issue_view(v@) =~= before.push((i + 1, k as int)));
            }
            assert(issue_view(v@) + line_hits(all[i as int], i + 1, (k + 1) as nat) =~= before
                + line_hits(all[i as int], i + 1, k as nat));
            k = k + 1;
        }
        assert(issue_view(v@) + line_hits(all[i as int], i + 1, 10) =~= issue_view(v@));
        assert(issue_view(v@) + scan_hits(all, i + 1, zone) =~= v0 + scan_hits(all, i as int, zone));
        i = i + 1;
    }
    v
}

/// Whether the agent may go on: no finding, or the scan overridden.
pub fn scan_allows(n_issues: usize, force: bool) -> (ok: bool)
    ensures
        ok == (n_issues == 0 || force),
{
    n_issues == 0 || force
}

/// What the agent does between finding snippets for `task` and running the
/// script: drops repeated snippets, writes the script, scans it, and decides
/// whether it may run. Returns the script, the findings, and the decision.
pub fn agent_run_plan(task: &str, texts: &Vec<String>, force: bool) -> (r: (String, Vec<(usize, usize)>, bool))
    requires
        keys_on_boundaries(texts@),
    ensures
        r.0@ == agent_script_of(task@, unique_prefix(string_views(texts@), texts@.len())),
        issue_view(r.1@) == scan_hits(lines_of(r.0@), 0, false),
        r.2 == (r.1@.len() == 0 || force),
{
    let snippets = unique_snippets(texts);
    let script = agent_script(task, &snippets);
    let issues = security_issues(script.as_str());
    let ok = scan_allows(issues.len(), force);
    (script, issues, ok)
}

} // verus!
