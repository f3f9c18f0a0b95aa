//! Plain records shared by the analysis engine: source statistics, engine
//! errors and flattened violation items.

use vstd::prelude::*;
use crate::text::lemma_encode_len;
use crate::layers::syntax_layer::{severity_label, violation_kind_label, SyntaxViolation};

verus! {

/// Number of lines `str::lines` yields for `text`: one per newline, plus one
/// for a last line without a trailing newline.
pub open spec fn line_count(text: Seq<char>) -> nat
    decreases text.len(),
{
    if text.len() == 0 {
        0
    } else {
        newline_count(text.drop_last()) + 1
    }
}

/// Number of `'\n'` characters in `text`.
pub open spec fn newline_count(text: Seq<char>) -> nat
    decreases text.len(),
{
    if text.len() == 0 {
        0
    } else {
        newline_count(text.drop_last()) + if text.last() == '\n' { 1nat } else { 0nat }
    }
}

proof fn lemma_newlines_bound(text: Seq<char>)
    ensures
        newline_count(text) <= text.len(),
    decreases text.len(),
{
    if text.len() > 0 {
        lemma_newlines_bound(text.drop_last());
    }
}

pub struct SourceStats {
    pub lines: usize,
    pub chars: usize,
    pub functions: usize,
}

impl SourceStats {
    /// Line and character counts of `source`, with the given function count.
    pub fn from_source(source: &str, functions: usize) -> (st: Self)
        ensures
            st.lines == line_count(source@),
            st.chars == source@.len(),
            st.functions == functions,
    {
        let bytes = source.as_bytes();
        proof {
            lemma_encode_len(source@);
            assert(bytes@.len() == bytes.len());
        }
        let mut newlines: usize = 0;
        let mut chars: usize = 0;
        let mut last_newline = false;
        for c in it: source.chars()
            invariant
                chars == it.index(),
                it.seq() == source@,
                newlines == newline_count(source@.take(it.index() as int)),
                chars > 0 ==> last_newline == (source@[chars - 1] == '\n'),
                source@.len() <= usize::MAX,
                newlines <= chars,
        {
            assert(source@.take(chars + 1).drop_last() =~= source@.take(chars as int));
            proof {
                lemma_newlines_bound(source@.take(chars as int));
            }
            if c == '\n' {
                newlines = newlines + 1;
                last_newline = true;
            } else {
                last_newline = false;
            }
            chars = chars + 1;
        }
        assert(source@.take(chars as int) =~= source@);
        proof {
            if chars > 0 {
                lemma_newlines_bound(source@.drop_last());
            }
        }
        let lines = if chars > 0 && !last_newline {
            newlines + 1
        } else {
            newlines
        };
        SourceStats { lines, chars, functions }
    }
}

/// Why an analysis did not complete.
pub enum FugaError {
    ParseError(String),
    LayerError(String),
    IoError(String),
}

/// The text of an engine error, as it is displayed.
pub open spec fn error_text(e: FugaError) -> Seq<char> {
    match e {
        FugaError::ParseError(m) => "Parse error: "@ + m@,
        FugaError::LayerError(m) => "Layer error: "@ + m@,
        FugaError::IoError(m) => "IO error: "@ + m@,
    }
}

impl FugaError {
    /// The error as text: a prefix naming the stage, then the detail.
    pub fn message(&self) -> (t: String)
        ensures
            t@ == error_text(*self),
    {
        match self {
            FugaError::ParseError(m) => {
                let mut t = String::from_str("Parse error: ");
                t.append(m.as_str());
                t
            },
            FugaError::LayerError(m) => {
                let mut t = String::from_str("Layer error: ");
                t.append(m.as_str());
                t
            },
            FugaError::IoError(m) => {
                let mut t = String::from_str("IO error: ");
                t.append(m.as_str());
                t
            },
        }
    }
}

/// A syntax violation flattened to text.
pub struct ViolationItem {
    pub severity: String,
    pub kind: String,
    pub message: String,
}

/// `item` is `v` flattened: the severity's and the kind's names, and the message.
pub open spec fn flattens(item: ViolationItem, v: SyntaxViolation) -> bool {
    &&& item.severity@ == severity_label(v.severity)
    &&& item.kind@ == violation_kind_label(v.kind)
    &&& item.message@ == v.message@
}

/// The violations of a syntax walk flattened to text, in order.
pub fn violation_items(violations: &Vec<SyntaxViolation>) -> (items: Vec<ViolationItem>)
    ensures
        items@.len() == violations@.len(),
        forall|i: int| 0 <= i < items@.len() ==> flattens(#[trigger] items@[i], violations@[i]),
{
    let mut items: Vec<ViolationItem> = Vec::new();
    let mut i: usize = 0;
    while i < violations.len()
        invariant
            i <= violations@.len(),
            items@.len() == i,
            forall|j: int| 0 <= j < i ==> flattens(#[trigger] items@[j], violations@[j]),
        decreases violations@.len() - i,
    {
        let v = &violations[i];
        items.push(ViolationItem {
            severity: String::from_str(v.severity.label()),
            kind: String::from_str(v.kind.label()),
            message: v.message.clone(),
        });
        i = i + 1;
    }
    items
}

} // verus!
