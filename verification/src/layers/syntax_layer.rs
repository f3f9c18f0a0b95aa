//! Layer one, the syntax controller: a fixed vector per kind of violation,
//! and a visitor that counts constructs and records violations as a syntax
//! walk reports them, one event per node.

use vstd::prelude::*;
use crate::bits::words_for;
use crate::entropy::{deterministic_vector, seeded_vector_words};
use crate::hypervector::{is_bundle_of, lemma_bundle_wf, lemma_votes_bound, bundle_count, Hypervector};
use crate::layers::syntax_tree::{nodes_count, nodes_walk, parse_syntax_tree, rust_syntax_tree, start_state, walk_file, walk_state};
use crate::text::{chars_of, contains_str, decimal_chars, decimal_string, has_infix, lowercase_of, str_eq, to_lowercase};

verus! {

/// The kinds of rule a piece of code can break.
#[derive(Debug, Clone, Copy, PartialEq, Eq, Hash, Structural)]
pub enum ViolationKind {
    UnsafeBlock,
    UnwrapExpect,
    IntegerOverflow,
    ArrayIndexOutOfBounds,
    RecursionDepth,
    InfiniteLoop,
    DivisionByZero,
    NullPointerDeref,
    DataRace,
    BufferOverflow,
    FormatString,
    CommandInjection,
    SqlInjection,
    WeakRandom,
    HardcodedSecret,
    PanicInDrop,
    NonExhaustiveMatch,
    UnusedMustUse,
}

/// How serious a violation is.
#[derive(Debug, Clone, Copy, PartialEq, Eq, Structural)]
pub enum Severity {
    Critical,
    High,
    Medium,
    Low,
    Info,
}

/// Number of violation kinds.
pub const VIOLATION_KINDS: usize = 18;

/// Position of a kind in declaration order.
pub open spec fn violation_kind_index(k: ViolationKind) -> nat {
    match k {
        ViolationKind::UnsafeBlock => 0,
        ViolationKind::UnwrapExpect => 1,
        ViolationKind::IntegerOverflow => 2,
        ViolationKind::ArrayIndexOutOfBounds => 3,
        ViolationKind::RecursionDepth => 4,
        ViolationKind::InfiniteLoop => 5,
        ViolationKind::DivisionByZero => 6,
        ViolationKind::NullPointerDeref => 7,
        ViolationKind::DataRace => 8,
        ViolationKind::BufferOverflow => 9,
        ViolationKind::FormatString => 10,
        ViolationKind::CommandInjection => 11,
        ViolationKind::SqlInjection => 12,
        ViolationKind::WeakRandom => 13,
        ViolationKind::HardcodedSecret => 14,
        ViolationKind::PanicInDrop => 15,
        ViolationKind::NonExhaustiveMatch => 16,
        ViolationKind::UnusedMustUse => 17,
    }
}

/// The kind at a position in declaration order.
pub open spec fn violation_kind_at(i: int) -> ViolationKind {
    if i == 0 { ViolationKind::UnsafeBlock }
    else if i == 1 { ViolationKind::UnwrapExpect }
    else if i == 2 { ViolationKind::IntegerOverflow }
    else if i == 3 { ViolationKind::ArrayIndexOutOfBounds }
    else if i == 4 { ViolationKind::RecursionDepth }
    else if i == 5 { ViolationKind::InfiniteLoop }
    else if i == 6 { ViolationKind::DivisionByZero }
    else if i == 7 { ViolationKind::NullPointerDeref }
    else if i == 8 { ViolationKind::DataRace }
    else if i == 9 { ViolationKind::BufferOverflow }
    else if i == 10 { ViolationKind::FormatString }
    else if i == 11 { ViolationKind::CommandInjection }
    else if i == 12 { ViolationKind::SqlInjection }
    else if i == 13 { ViolationKind::WeakRandom }
    else if i == 14 { ViolationKind::HardcodedSecret }
    else if i == 15 { ViolationKind::PanicInDrop }
    else if i == 16 { ViolationKind::NonExhaustiveMatch }
    else { ViolationKind::UnusedMustUse }
}

/// The name of a kind, as `Debug` prints it.
pub open spec fn violation_kind_label(k: ViolationKind) -> Seq<char> {
    match k {
        ViolationKind::UnsafeBlock => "UnsafeBlock"@,
        ViolationKind::UnwrapExpect => "UnwrapExpect"@,
        ViolationKind::IntegerOverflow => "IntegerOverflow"@,
        ViolationKind::ArrayIndexOutOfBounds => "ArrayIndexOutOfBounds"@,
        ViolationKind::RecursionDepth => "RecursionDepth"@,
        ViolationKind::InfiniteLoop => "InfiniteLoop"@,
        ViolationKind::DivisionByZero => "DivisionByZero"@,
        ViolationKind::NullPointerDeref => "NullPointerDeref"@,
        ViolationKind::DataRace => "DataRace"@,
        ViolationKind::BufferOverflow => "BufferOverflow"@,
        ViolationKind::FormatString => "FormatString"@,
        ViolationKind::CommandInjection => "CommandInjection"@,
        ViolationKind::SqlInjection => "SqlInjection"@,
        ViolationKind::WeakRandom => "WeakRandom"@,
        ViolationKind::HardcodedSecret => "HardcodedSecret"@,
        ViolationKind::PanicInDrop => "PanicInDrop"@,
        ViolationKind::NonExhaustiveMatch => "NonExhaustiveMatch"@,
        ViolationKind::UnusedMustUse => "UnusedMustUse"@,
    }
}

/// The name of a severity, as `Debug` prints it.
pub open spec fn severity_label(s: Severity) -> Seq<char> {
    match s {
        Severity::Critical => "Critical"@,
        Severity::High => "High"@,
        Severity::Medium => "Medium"@,
        Severity::Low => "Low"@,
        Severity::Info => "Info"@,
    }
}

impl ViolationKind {
    /// Position of this kind in declaration order.
    pub fn index(&self) -> (i: usize)
        ensures
            i == violation_kind_index(*self),
            i < VIOLATION_KINDS,
    {
        match self {
            ViolationKind::UnsafeBlock => 0,
            ViolationKind::UnwrapExpect => 1,
            ViolationKind::IntegerOverflow => 2,
            ViolationKind::ArrayIndexOutOfBounds => 3,
            ViolationKind::RecursionDepth => 4,
            ViolationKind::InfiniteLoop => 5,
            ViolationKind::DivisionByZero => 6,
            ViolationKind::NullPointerDeref => 7,
            ViolationKind::DataRace => 8,
            ViolationKind::BufferOverflow => 9,
            ViolationKind::FormatString => 10,
            ViolationKind::CommandInjection => 11,
            ViolationKind::SqlInjection => 12,
            ViolationKind::WeakRandom => 13,
            ViolationKind::HardcodedSecret => 14,
            ViolationKind::PanicInDrop => 15,
            ViolationKind::NonExhaustiveMatch => 16,
            ViolationKind::UnusedMustUse => 17,
        }
    }

    /// The kind at position `i` in declaration order.
    pub fn from_index(i: usize) -> (k: ViolationKind)
        requires
            i < VIOLATION_KINDS,
        ensures
            k == violation_kind_at(i as int),
            violation_kind_index(k) == i,
    {
        if i == 0 { ViolationKind::UnsafeBlock }
        else if i == 1 { ViolationKind::UnwrapExpect }
        else if i == 2 { ViolationKind::IntegerOverflow }
        else if i == 3 { ViolationKind::ArrayIndexOutOfBounds }
        else if i == 4 { ViolationKind::RecursionDepth }
        else if i == 5 { ViolationKind::InfiniteLoop }
        else if i == 6 { ViolationKind::DivisionByZero }
        else if i == 7 { ViolationKind::NullPointerDeref }
        else if i == 8 { ViolationKind::DataRace }
        else if i == 9 { ViolationKind::BufferOverflow }
        else if i == 10 { ViolationKind::FormatString }
        else if i == 11 { ViolationKind::CommandInjection }
        else if i == 12 { ViolationKind::SqlInjection }
        else if i == 13 { ViolationKind::WeakRandom }
        else if i == 14 { ViolationKind::HardcodedSecret }
        else if i == 15 { ViolationKind::PanicInDrop }
        else if i == 16 { ViolationKind::NonExhaustiveMatch }
        else { ViolationKind::UnusedMustUse }
    }

    /// The name of this kind, as `Debug` prints it.
    pub fn label(&self) -> (s: &'static str)
        ensures
            s@ == violation_kind_label(*self),
    {
        match self {
            ViolationKind::UnsafeBlock => "UnsafeBlock",
            ViolationKind::UnwrapExpect => "UnwrapExpect",
            ViolationKind::IntegerOverflow => "IntegerOverflow",
            ViolationKind::ArrayIndexOutOfBounds => "ArrayIndexOutOfBounds",
            ViolationKind::RecursionDepth => "RecursionDepth",
            ViolationKind::InfiniteLoop => "InfiniteLoop",
            ViolationKind::DivisionByZero => "DivisionByZero",
            ViolationKind::NullPointerDeref => "NullPointerDeref",
            ViolationKind::DataRace => "DataRace",
            ViolationKind::BufferOverflow => "BufferOverflow",
            ViolationKind::FormatString => "FormatString",
            ViolationKind::CommandInjection => "CommandInjection",
            ViolationKind::SqlInjection => "SqlInjection",
            ViolationKind::WeakRandom => "WeakRandom",
            ViolationKind::HardcodedSecret => "HardcodedSecret",
            ViolationKind::PanicInDrop => "PanicInDrop",
            ViolationKind::NonExhaustiveMatch => "NonExhaustiveMatch",
            ViolationKind::UnusedMustUse => "UnusedMustUse",
        }
    }
}

impl Severity {
    /// The name of this severity, as `Debug` prints it.
    pub fn label(&self) -> (s: &'static str)
        ensures
            s@ == severity_label(*self),
    {
        match self {
            Severity::Critical => "Critical",
            Severity::High => "High",
            Severity::Medium => "Medium",
            Severity::Low => "Low",
            Severity::Info => "Info",
        }
    }
}

/// One broken rule: what, where (the enclosing function, or `top-level`),
/// how serious, and a message.
#[derive(Debug, Clone)]
pub struct SyntaxViolation {
    pub kind: ViolationKind,
    pub location: String,
    pub severity: Severity,
    pub message: String,
}

/// Counts of constructs met during a walk.
#[derive(Debug, Clone)]
pub struct CodeStats {
    pub functions: usize,
    pub unsafe_blocks: usize,
    pub unwrap_calls: usize,
    pub loops: usize,
    pub match_expressions: usize,
    pub async_functions: usize,
    pub generic_functions: usize,
    pub public_functions: usize,
}

impl CodeStats {
    /// All counts zero.
    pub open spec fn is_zero(&self) -> bool {
        &&& self.functions == 0
        &&& self.unsafe_blocks == 0
        &&& self.unwrap_calls == 0
        &&& self.loops == 0
        &&& self.match_expressions == 0
        &&& self.async_functions == 0
        &&& self.generic_functions == 0
        &&& self.public_functions == 0
    }
}

impl Default for CodeStats {
    fn default() -> (s: Self)
        ensures
            s.is_zero(),
    {
        CodeStats {
            functions: 0,
            unsafe_blocks: 0,
            unwrap_calls: 0,
            loops: 0,
            match_expressions: 0,
            async_functions: 0,
            generic_functions: 0,
            public_functions: 0,
        }
    }
}

/// `vs` holds, field by field, the records `expected`: kind, severity,
/// location and message.
pub open spec fn records_match(
    vs: Seq<SyntaxViolation>,
    expected: Seq<(ViolationKind, Severity, Seq<char>, Seq<char>)>,
) -> bool {
    &&& vs.len() == expected.len()
    &&& forall|i: int|
        0 <= i < vs.len() ==> {
            &&& (#[trigger] vs[i]).kind == expected[i].0
            &&& vs[i].severity == expected[i].1
            &&& vs[i].location@ == expected[i].2
            &&& vs[i].message@ == expected[i].3
        }
}

/// `after` is `before` followed by violations matching `added`.
pub open spec fn appended(
    before: Seq<SyntaxViolation>,
    after: Seq<SyntaxViolation>,
    added: Seq<(ViolationKind, Severity, Seq<char>, Seq<char>)>,
) -> bool {
    &&& after.len() == before.len() + added.len()
    &&& after.take(before.len() as int) == before
    &&& records_match(after.skip(before.len() as int), added)
}

/// Where a violation is reported: the enclosing function, or `top-level`.
pub open spec fn location_of(current: Option<String>) -> Seq<char> {
    match current {
        Some(f) => f@,
        None => "top-level"@,
    }
}

/// Number of violations of severity `s`.
pub open spec fn severity_count(vs: Seq<SyntaxViolation>, s: Severity) -> nat
    decreases vs.len(),
{
    if vs.len() == 0 {
        0
    } else {
        severity_count(vs.drop_last(), s) + if vs.last().severity == s { 1nat } else { 0nat }
    }
}

/// Layer one: one fixed vector per violation kind, in declaration order.
pub struct SyntaxInvariantLayer {
    pub dim: usize,
    pub violation_vectors: Vec<Hypervector>,
}

/// `vs` holds one well-formed vector of dimension `dim` per violation kind.
pub open spec fn kind_vectors_ok(vs: Seq<Hypervector>, dim: usize) -> bool {
    &&& vs.len() == VIOLATION_KINDS
    &&& forall|i: int| 0 <= i < vs.len() ==> (#[trigger] vs[i]).dim == dim && vs[i].wf()
}

/// Different kinds have different positions.
proof fn lemma_violation_index_injective(a: ViolationKind, b: ViolationKind)
    requires
        violation_kind_index(a) == violation_kind_index(b),
    ensures
        a == b,
{
}

impl SyntaxInvariantLayer {
    /// Builds the layer: the vector of each kind is the seeded vector of the
    /// kind's name, so equal dimensions give equal layers.
    pub fn new(dim: usize) -> (layer: Self)
        requires
            dim <= usize::MAX - 63,
        ensures
            layer.dim == dim,
            kind_vectors_ok(layer.violation_vectors@, dim),
            forall|k: ViolationKind|
                (#[trigger] layer.violation_vectors@[violation_kind_index(k) as int]).words@
                    == seeded_vector_words(dim as nat, violation_kind_label(k)),
    {
        let mut violation_vectors: Vec<Hypervector> = Vec::new();
        let mut i: usize = 0;
        while i < VIOLATION_KINDS
            invariant
                i <= VIOLATION_KINDS,
                dim <= usize::MAX - 63,
                violation_vectors@.len() == i,
                forall|j: int| 0 <= j < i ==> (#[trigger] violation_vectors@[j]).dim == dim
                    && violation_vectors@[j].wf(),
                forall|k: ViolationKind|
                    violation_kind_index(k) < i ==> (#[trigger] violation_vectors@[violation_kind_index(k) as int]).words@
                        == seeded_vector_words(dim as nat, violation_kind_label(k)),
            decreases VIOLATION_KINDS - i,
        {
            let kind = ViolationKind::from_index(i);
            let hv = deterministic_vector(dim, kind.label());
            violation_vectors.push(hv);
            proof {
                assert forall|k: ViolationKind|
                    violation_kind_index(k) < i + 1 implies (#[trigger] violation_vectors@[violation_kind_index(k) as int]).words@
                        == seeded_vector_words(dim as nat, violation_kind_label(k)) by {
                    if violation_kind_index(k) == i {
                        lemma_violation_index_injective(k, kind);
                    }
                }
            }
            i = i + 1;
        }
        proof {
            assert forall|k: ViolationKind| violation_kind_index(k) < VIOLATION_KINDS by {
            }
        }
        SyntaxInvariantLayer { dim, violation_vectors }
    }

    /// Parses `source` and walks its items with a fresh visitor (see
    /// `nodes_walk`). A parse error comes back as its text; `Ok(None)` when
    /// the file has more nodes than a count can hold.
    pub fn analyze(&self, source: &str) -> (r: Result<Option<SyntaxVisitor>, String>)
        requires
            kind_vectors_ok(self.violation_vectors@, self.dim),
            self.dim <= usize::MAX - 63,
        ensures
            match rust_syntax_tree(source@) {
                Err(e) => r matches Err(m) && m@ == e,
                Ok(ns) => r matches Ok(o) && (o is Some <==> nodes_count(ns) <= usize::MAX) && (o matches Some(v) ==> {
                    &&& v.wf()
                    &&& v.dim == self.dim
                    &&& v.violation_vectors@.len() == self.violation_vectors@.len()
                    &&& forall|i: int| 0 <= i < v.violation_vectors@.len() ==> (#[trigger] v.violation_vectors@[i])@
                        == self.violation_vectors@[i]@
                    &&& walk_state(v) == nodes_walk(start_state(), ns)
                }),
            },
    {
        match parse_syntax_tree(source) {
            Err(e) => Err(e),
            Ok(ns) => {
                let mut v = self.visitor();
                if walk_file(&mut v, &ns) {
                    Ok(Some(v))
                } else {
                    Ok(None)
                }
            },
        }
    }

    /// A fresh visitor for one walk over a file.
    pub fn visitor(&self) -> (v: SyntaxVisitor)
        requires
            kind_vectors_ok(self.violation_vectors@, self.dim),
            self.dim <= usize::MAX - 63,
        ensures
            v.wf(),
            v.dim == self.dim,
            v.is_fresh(),
            v.violation_vectors@.len() == self.violation_vectors@.len(),
            forall|i: int| 0 <= i < v.violation_vectors@.len() ==> (#[trigger] v.violation_vectors@[i])@
                == self.violation_vectors@[i]@,
    {
        let v = SyntaxVisitor::new(self.dim, &self.violation_vectors);
        assert forall|i: int| 0 <= i < v.violation_vectors@.len() implies (#[trigger] v.violation_vectors@[i]).dim
            == self.dim && v.violation_vectors@[i].wf() by {
            let a = v.violation_vectors@[i];
            let b = self.violation_vectors@[i];
            assert(a@ == b@);
            assert(a.words@ == b.words@);
            assert(forall|j: int| a.bit(j) == b.bit(j));
        }
        v
    }
}

/// The state of one walk: counts, violations so far, the enclosing function
/// and the depth of nested `unsafe` blocks.
pub struct SyntaxVisitor {
    pub dim: usize,
    pub violation_vectors: Vec<Hypervector>,
    pub violations: Vec<SyntaxViolation>,
    pub stats: CodeStats,
    pub current_function: Option<String>,
    pub unsafe_depth: usize,
}

impl SyntaxVisitor {
    /// The kind vectors are well formed and the dimension leaves room for its words.
    pub open spec fn wf(&self) -> bool {
        &&& kind_vectors_ok(self.violation_vectors@, self.dim)
        &&& self.dim <= usize::MAX - 63
    }

    /// Nothing has been visited yet.
    pub open spec fn is_fresh(&self) -> bool {
        &&& self.violations@.len() == 0
        &&& self.stats.is_zero()
        &&& self.current_function is None
        &&& self.unsafe_depth == 0
    }

    /// Everything but the violations and the counts is unchanged.
    pub open spec fn same_walk(&self, other: &SyntaxVisitor) -> bool {
        &&& self.dim == other.dim
        &&& self.violation_vectors == other.violation_vectors
        &&& self.current_function == other.current_function
        &&& self.unsafe_depth == other.unsafe_depth
    }

    /// The vector of the kind of violation `i`.
    pub open spec fn vector_of(&self, i: int) -> Hypervector {
        self.violation_vectors@[violation_kind_index(self.violations@[i].kind) as int]
    }

    /// A visitor that starts a walk with copies of `violation_vectors`.
    pub fn new(dim: usize, violation_vectors: &Vec<Hypervector>) -> (v: Self)
        ensures
            v.dim == dim,
            v.is_fresh(),
            v.violation_vectors@.len() == violation_vectors@.len(),
            forall|i: int| 0 <= i < v.violation_vectors@.len() ==> (#[trigger] v.violation_vectors@[i])@
                == violation_vectors@[i]@,
    {
        let mut copies: Vec<Hypervector> = Vec::new();
        let mut i: usize = 0;
        while i < violation_vectors.len()
            invariant
                i <= violation_vectors@.len(),
                copies@.len() == i,
                forall|j: int| 0 <= j < i ==> (#[trigger] copies@[j])@ == violation_vectors@[j]@,
            decreases violation_vectors@.len() - i,
        {
            copies.push(violation_vectors[i].clone());
            i = i + 1;
        }
        SyntaxVisitor {
            dim,
            violation_vectors: copies,
            violations: Vec::new(),
            stats: CodeStats::default(),
            current_function: None,
            unsafe_depth: 0,
        }
    }

    /// Records a violation at the current location.
    pub fn add_violation(&mut self, kind: ViolationKind, severity: Severity, msg: &str)
        ensures
            final(self).same_walk(old(self)),
            final(self).stats == old(self).stats,
            appended(
                old(self).violations@,
                final(self).violations@,
                seq![(kind, severity, location_of(old(self).current_function), msg@)],
            ),
    {
        let loc = match &self.current_function {
            Some(f) => f.clone(),
            None => String::from_str("top-level"),
        };
        proof {
            reveal_strlit("top-level");
        }
        let message = String::from_str(msg);
        self.violations.push(SyntaxViolation { kind, location: loc, severity, message });
        proof {
            let before = old(self).violations@;
            let after = self.violations@;
            assert(after.take(before.len() as int) =~= before);
            assert(after.skip(before.len() as int) =~= seq![after.last()]);
        }
    }

    /// Entering a function item: counts it, and by kind (async, generic,
    /// public), makes it the current location and returns the previous one.
    pub fn enter_item_fn(&mut self, name: String, is_async: bool, is_generic: bool, is_public: bool) -> (prev: Option<String>)
        requires
            old(self).stats.functions < usize::MAX,
            old(self).stats.async_functions < usize::MAX,
            old(self).stats.generic_functions < usize::MAX,
            old(self).stats.public_functions < usize::MAX,
        ensures
            prev == old(self).current_function,
            final(self).current_function == Some(name),
            final(self).dim == old(self).dim,
            final(self).violation_vectors == old(self).violation_vectors,
            final(self).unsafe_depth == old(self).unsafe_depth,
            final(self).violations == old(self).violations,
            final(self).stats == (CodeStats {
                functions: (old(self).stats.functions + 1) as usize,
                async_functions: (old(self).stats.async_functions + if is_async { 1usize } else { 0usize }) as usize,
                generic_functions: (old(self).stats.generic_functions + if is_generic { 1usize } else { 0usize }) as usize,
                public_functions: (old(self).stats.public_functions + if is_public { 1usize } else { 0usize }) as usize,
                ..old(self).stats
            }),
    {
        self.stats.functions = self.stats.functions + 1;
        if is_async {
            self.stats.async_functions = self.stats.async_functions + 1;
        }
        if is_generic {
            self.stats.generic_functions = self.stats.generic_functions + 1;
        }
        if is_public {
            self.stats.public_functions = self.stats.public_functions + 1;
        }
        let prev = self.current_function.take();
        self.current_function = Some(name);
        prev
    }

    /// Leaving a function item: the previous location is current again.
    pub fn leave_item_fn(&mut self, prev: Option<String>)
        ensures
            final(self).current_function == prev,
            final(self).dim == old(self).dim,
            final(self).violation_vectors == old(self).violation_vectors,
            final(self).unsafe_depth == old(self).unsafe_depth,
            final(self).violations == old(self).violations,
            final(self).stats == old(self).stats,
    {
        self.current_function = prev;
    }

    /// Entering an `unsafe` block: counted, one level deeper, and reported as
    /// critical with the new depth in the message.
    pub fn enter_expr_unsafe(&mut self)
        requires
            old(self).stats.unsafe_blocks < usize::MAX,
            old(self).unsafe_depth < usize::MAX,
        ensures
            final(self).dim == old(self).dim,
            final(self).violation_vectors == old(self).violation_vectors,
            final(self).current_function == old(self).current_function,
            final(self).unsafe_depth == old(self).unsafe_depth + 1,
            final(self).stats == (CodeStats { unsafe_blocks: (old(self).stats.unsafe_blocks + 1) as usize, ..old(self).stats }),
            appended(
                old(self).violations@,
                final(self).violations@,
                seq![(
                    ViolationKind::UnsafeBlock,
                    Severity::Critical,
                    location_of(old(self).current_function),
                    "Unsafe block (depth "@ + decimal_chars((old(self).unsafe_depth + 1) as nat) + ")"@,
                )],
            ),
    {
        self.stats.unsafe_blocks = self.stats.unsafe_blocks + 1;
        self.unsafe_depth = self.unsafe_depth + 1;
        let mut msg = String::from_str("Unsafe block (depth ");
        let depth = decimal_string(self.unsafe_depth);
        msg.append(depth.as_str());
        msg.append(")");
        self.add_violation(ViolationKind::UnsafeBlock, Severity::Critical, msg.as_str());
    }

    /// Leaving an `unsafe` block: one level shallower.
    pub fn leave_expr_unsafe(&mut self)
        requires
            old(self).unsafe_depth > 0,
        ensures
            final(self).unsafe_depth == old(self).unsafe_depth - 1,
            final(self).dim == old(self).dim,
            final(self).violation_vectors == old(self).violation_vectors,
            final(self).current_function == old(self).current_function,
            final(self).violations == old(self).violations,
            final(self).stats == old(self).stats,
    {
        self.unsafe_depth = self.unsafe_depth - 1;
    }

    /// A call to `unwrap` or `expect` is counted and reported as high.
    fn note_panicking_call(&mut self, name: &str)
        requires
            old(self).stats.unwrap_calls < usize::MAX,
        ensures
            final(self).same_walk(old(self)),
            panicking_name(name@) ==> final(self).stats == (CodeStats {
                unwrap_calls: (old(self).stats.unwrap_calls + 1) as usize,
                ..old(self).stats
            }),
            panicking_name(name@) ==> appended(
                old(self).violations@,
                final(self).violations@,
                seq![(
                    ViolationKind::UnwrapExpect,
                    Severity::High,
                    location_of(old(self).current_function),
                    "Use of "@ + name@ + "() can panic"@,
                )],
            ),
            !panicking_name(name@) ==> final(self).stats == old(self).stats && final(self).violations
                == old(self).violations,
    {
        if str_eq(name, "unwrap") || str_eq(name, "expect") {
            self.stats.unwrap_calls = self.stats.unwrap_calls + 1;
            let mut msg = String::from_str("Use of ");
            msg.append(name);
            msg.append("() can panic");
            self.add_violation(ViolationKind::UnwrapExpect, Severity::High, msg.as_str());
        }
    }

    /// A call expression; `callee` is the last segment of the callee's path
    /// when the callee is a path.
    pub fn visit_expr_call(&mut self, callee: Option<&str>)
        requires
            old(self).stats.unwrap_calls < usize::MAX,
        ensures
            final(self).same_walk(old(self)),
            callee_panics(callee) ==> final(self).stats == (CodeStats {
                unwrap_calls: (old(self).stats.unwrap_calls + 1) as usize,
                ..old(self).stats
            }),
            callee_panics(callee) ==> appended(
                old(self).violations@,
                final(self).violations@,
                seq![(
                    ViolationKind::UnwrapExpect,
                    Severity::High,
                    location_of(old(self).current_function),
                    "Use of "@ + callee_chars(callee) + "() can panic"@,
                )],
            ),
            !callee_panics(callee) ==> final(self).stats == old(self).stats && final(self).violations
                == old(self).violations,
    {
        match callee {
            Some(name) => self.note_panicking_call(name),
            None => {},
        }
    }

    /// A method call named `method`.
    pub fn visit_expr_method_call(&mut self, method: &str)
        requires
            old(self).stats.unwrap_calls < usize::MAX,
        ensures
            final(self).same_walk(old(self)),
            panicking_name(method@) ==> final(self).stats == (CodeStats {
                unwrap_calls: (old(self).stats.unwrap_calls + 1) as usize,
                ..old(self).stats
            }),
            panicking_name(method@) ==> appended(
                old(self).violations@,
                final(self).violations@,
                seq![(
                    ViolationKind::UnwrapExpect,
                    Severity::High,
                    location_of(old(self).current_function),
                    "Use of "@ + method@ + "() can panic"@,
                )],
            ),
            !panicking_name(method@) ==> final(self).stats == old(self).stats && final(self).violations
                == old(self).violations,
    {
        self.note_panicking_call(method)
    }

    /// An unconditional `loop`: counted and reported as medium.
    pub fn visit_expr_loop(&mut self)
        requires
            old(self).stats.loops < usize::MAX,
        ensures
            final(self).same_walk(old(self)),
            final(self).stats == (CodeStats { loops: (old(self).stats.loops + 1) as usize, ..old(self).stats }),
            appended(
                old(self).violations@,
                final(self).violations@,
                seq![(
                    ViolationKind::InfiniteLoop,
                    Severity::Medium,
                    location_of(old(self).current_function),
                    "Unconditional loop"@,
                )],
            ),
    {
        self.stats.loops = self.stats.loops + 1;
        self.add_violation(ViolationKind::InfiniteLoop, Severity::Medium, "Unconditional loop");
    }

    /// A `while` loop: counted.
    pub fn visit_expr_while(&mut self)
        requires
            old(self).stats.loops < usize::MAX,
        ensures
            final(self).same_walk(old(self)),
            final(self).stats == (CodeStats { loops: (old(self).stats.loops + 1) as usize, ..old(self).stats }),
            final(self).violations == old(self).violations,
    {
        self.stats.loops = self.stats.loops + 1;
    }

    /// A `for` loop: counted.
    pub fn visit_expr_for_loop(&mut self)
        requires
            old(self).stats.loops < usize::MAX,
        ensures
            final(self).same_walk(old(self)),
            final(self).stats == (CodeStats { loops: (old(self).stats.loops + 1) as usize, ..old(self).stats }),
            final(self).violations == old(self).violations,
    {
        self.stats.loops = self.stats.loops + 1;
    }

    /// A `match` expression: counted.
    pub fn visit_expr_match(&mut self)
        requires
            old(self).stats.match_expressions < usize::MAX,
        ensures
            final(self).same_walk(old(self)),
            final(self).stats == (CodeStats {
                match_expressions: (old(self).stats.match_expressions + 1) as usize,
                ..old(self).stats
            }),
            final(self).violations == old(self).violations,
    {
        self.stats.match_expressions = self.stats.match_expressions + 1;
    }

    /// A binary expression: a division or remainder whose right operand is
    /// the integer literal `0` is reported as critical. `right_int_digits`
    /// holds the base-10 digits of the right operand when it is an integer literal.
    pub fn visit_expr_binary(&mut self, div_or_rem: bool, right_int_digits: Option<&str>)
        ensures
            final(self).same_walk(old(self)),
            final(self).stats == old(self).stats,
            zero_divisor(div_or_rem, right_int_digits) ==> appended(
                old(self).violations@,
                final(self).violations@,
                seq![(
                    ViolationKind::DivisionByZero,
                    Severity::Critical,
                    location_of(old(self).current_function),
                    "Division by zero literal"@,
                )],
            ),
            !zero_divisor(div_or_rem, right_int_digits) ==> final(self).violations
                == old(self).violations,
    {
        if div_or_rem {
            match right_int_digits {
                Some(d) => {
                    if str_eq(d, "0") {
                        self.add_violation(ViolationKind::DivisionByZero, Severity::Critical, "Division by zero literal");
                    }
                },
                None => {},
            }
        }
    }

    /// An index expression: reported as medium.
    pub fn visit_expr_index(&mut self)
        ensures
            final(self).same_walk(old(self)),
            final(self).stats == old(self).stats,
            appended(
                old(self).violations@,
                final(self).violations@,
                seq![(
                    ViolationKind::ArrayIndexOutOfBounds,
                    Severity::Medium,
                    location_of(old(self).current_function),
                    "Array indexing — bounds not statically verified"@,
                )],
            ),
    {
        self.add_violation(
            ViolationKind::ArrayIndexOutOfBounds,
            Severity::Medium,
            "Array indexing — bounds not statically verified",
        );
    }

    /// A macro invocation, given as its token text. The lowercased text is
    /// searched: `sql` or `query` reports SQL injection, `command`, `exec` or
    /// `spawn` reports command injection (both high), and `format` reports a
    /// format-string use (low), in that order.
    pub fn visit_macro(&mut self, tokens: &str)
        ensures
            final(self).same_walk(old(self)),
            final(self).stats == old(self).stats,
            appended(
                old(self).violations@,
                final(self).violations@,
                macro_findings(lowercase_of(tokens@), location_of(old(self).current_function)),
            ),
    {
        let lower = to_lowercase(tokens);
        let cs = chars_of(lower.as_str());
        let ghost loc = location_of(self.current_function);
        let ghost before = self.violations@;
        let ghost low = lowercase_of(tokens@);
        if contains_str(&cs, "sql") || contains_str(&cs, "query") {
            self.add_violation(ViolationKind::SqlInjection, Severity::High, "Possible SQL injection vector");
        }
        let ghost mid1 = self.violations@;
        proof {
            lemma_appended_nothing(before);
        }
        assert(appended(before, mid1, sql_finding(low, loc)));
        if contains_str(&cs, "command") || contains_str(&cs, "exec") || contains_str(&cs, "spawn") {
            self.add_violation(ViolationKind::CommandInjection, Severity::High, "Possible command injection");
        }
        let ghost mid2 = self.violations@;
        proof {
            lemma_appended_nothing(mid1);
        }
        assert(appended(mid1, mid2, command_finding(low, loc)));
        if contains_str(&cs, "format") {
            self.add_violation(ViolationKind::FormatString, Severity::Low, "Format macro usage");
        }
        proof {
            let after = self.violations@;
            lemma_appended_nothing(mid2);
            assert(appended(mid2, after, format_finding(low, loc)));
            lemma_appended_trans(before, mid1, mid2, sql_finding(low, loc), command_finding(low, loc));
            lemma_appended_trans(
                before,
                mid2,
                after,
                sql_finding(low, loc) + command_finding(low, loc),
                format_finding(low, loc),
            );
        }
    }

    /// A struct item: reported as low when one of its attributes is the
    /// single identifier `non_exhaustive`. `attr_idents` holds, per attribute
    /// whose path is one identifier, that identifier.
    pub fn visit_item_struct(&mut self, attr_idents: &Vec<String>)
        ensures
            final(self).same_walk(old(self)),
            final(self).stats == old(self).stats,
            has_non_exhaustive(attr_idents@) ==> appended(
                old(self).violations@,
                final(self).violations@,
                seq![(
                    ViolationKind::NonExhaustiveMatch,
                    Severity::Low,
                    location_of(old(self).current_function),
                    "Non-exhaustive struct"@,
                )],
            ),
            !has_non_exhaustive(attr_idents@) ==> final(self).violations == old(self).violations,
    {
        if any_non_exhaustive(attr_idents) {
            self.add_violation(ViolationKind::NonExhaustiveMatch, Severity::Low, "Non-exhaustive struct");
        }
    }

    /// An enum item: as for a struct, with its own message.
    pub fn visit_item_enum(&mut self, attr_idents: &Vec<String>)
        ensures
            final(self).same_walk(old(self)),
            final(self).stats == old(self).stats,
            has_non_exhaustive(attr_idents@) ==> appended(
                old(self).violations@,
                final(self).violations@,
                seq![(
                    ViolationKind::NonExhaustiveMatch,
                    Severity::Low,
                    location_of(old(self).current_function),
                    "Non-exhaustive enum"@,
                )],
            ),
            !has_non_exhaustive(attr_idents@) ==> final(self).violations == old(self).violations,
    {
        if any_non_exhaustive(attr_idents) {
            self.add_violation(ViolationKind::NonExhaustiveMatch, Severity::Low, "Non-exhaustive enum");
        }
    }

    /// Number of violations recorded with severity `s`.
    pub fn count_severity(&self, s: Severity) -> (n: usize)
        ensures
            n == severity_count(self.violations@, s),
    {
        let mut n: usize = 0;
        let mut i: usize = 0;
        while i < self.violations.len()
            invariant
                i <= self.violations@.len(),
                n == severity_count(self.violations@.take(i as int), s),
                n <= i,
            decreases self.violations@.len() - i,
        {
            assert(self.violations@.take(i + 1).drop_last() =~= self.violations@.take(i as int));
            if self.violations[i].severity == s {
                n = n + 1;
            }
            i = i + 1;
        }
        assert(self.violations@.take(self.violations@.len() as int) =~= self.violations@);
        n
    }

    /// The vector the walk reports: the majority bundle of the kind vectors
    /// of all recorded violations, the first taken as the base; a random
    /// vector when there is none.
    pub fn build_violation_vector(&self) -> (r: Hypervector)
        requires
            self.wf(),
            self.violations@.len() <= u16::MAX,
        ensures
            r.dim == self.dim,
            r.wf(),
            self.violations@.len() > 0 ==> is_bundle_of(
                r,
                self.vector_of(0),
                Seq::new((self.violations@.len() - 1) as nat, |i: int| &self.vector_of(i + 1)),
            ),
    {
        if self.violations.len() == 0 {
            return Hypervector::random(self.dim);
        }
        let n = self.violations.len();
        let ghost want = Seq::new((n - 1) as nat, |i: int| &self.vector_of(i + 1));
        let mut others: Vec<&Hypervector> = Vec::new();
        let mut i: usize = 1;
        while i < n
            invariant
                1 <= i <= n,
                n == self.violations@.len(),
                self.wf(),
                others@.len() == i - 1,
                forall|j: int| 0 <= j < i - 1 ==> #[trigger] others@[j] == want[j],
                want == Seq::new((n - 1) as nat, |i: int| &self.vector_of(i + 1)),
            decreases n - i,
        {
            let k = self.violations[i].kind.index();
            others.push(&self.violation_vectors[k]);
            i = i + 1;
        }
        assert(others@ =~= want);
        let first = &self.violation_vectors[self.violations[0].kind.index()];
        proof {
            assert forall|w: int, b: u64| 0 <= w < words_for(first.dim as nat) && b < 64 implies #[trigger] bundle_count(
                *first,
                others@,
                w,
                b,
            ) <= u16::MAX by {
                lemma_votes_bound(others@, w, b, others@.len() as int);
            }
        }
        let r = first.bundle(others.as_slice());
        proof {
            assert forall|k: int| 0 <= k < others@.len() implies (#[trigger] others@[k]).dim == first.dim
                && others@[k].wf() by {
                assert(others@[k] == want[k]);
            }
            lemma_bundle_wf(r, *first, others@);
        }
        r
    }
}

/// One of `idents` is `non_exhaustive`.
pub open spec fn has_non_exhaustive(idents: Seq<String>) -> bool {
    exists|i: int| 0 <= i < idents.len() && (#[trigger] idents[i])@ == "non_exhaustive"@
}

fn any_non_exhaustive(idents: &Vec<String>) -> (r: bool)
    ensures
        r == has_non_exhaustive(idents@),
{
    let mut i: usize = 0;
    while i < idents.len()
        invariant
            i <= idents@.len(),
            forall|j: int| 0 <= j < i ==> (#[trigger] idents@[j])@ != "non_exhaustive"@,
        decreases idents@.len() - i,
    {
        if str_eq(idents[i].as_str(), "non_exhaustive") {
            return true;
        }
        i = i + 1;
    }
    false
}

/// The SQL finding of a macro whose lowercased text is `low`, if any.
pub open spec fn sql_finding(low: Seq<char>, loc: Seq<char>) -> Seq<(ViolationKind, Severity, Seq<char>, Seq<char>)> {
    if has_infix(low, "sql"@) || has_infix(low, "query"@) {
        seq![(ViolationKind::SqlInjection, Severity::High, loc, "Possible SQL injection vector"@)]
    } else {
        Seq::empty()
    }
}

/// The command finding of a macro whose lowercased text is `low`, if any.
pub open spec fn command_finding(low: Seq<char>, loc: Seq<char>) -> Seq<(ViolationKind, Severity, Seq<char>, Seq<char>)> {
    if has_infix(low, "command"@) || has_infix(low, "exec"@) || has_infix(low, "spawn"@) {
        seq![(ViolationKind::CommandInjection, Severity::High, loc, "Possible command injection"@)]
    } else {
        Seq::empty()
    }
}

/// The format finding of a macro whose lowercased text is `low`, if any.
pub open spec fn format_finding(low: Seq<char>, loc: Seq<char>) -> Seq<(ViolationKind, Severity, Seq<char>, Seq<char>)> {
    if has_infix(low, "format"@) {
        seq![(ViolationKind::FormatString, Severity::Low, loc, "Format macro usage"@)]
    } else {
        Seq::empty()
    }
}

/// All findings of a macro whose lowercased text is `low`, in report order.
pub open spec fn macro_findings(low: Seq<char>, loc: Seq<char>) -> Seq<(ViolationKind, Severity, Seq<char>, Seq<char>)> {
    sql_finding(low, loc) + command_finding(low, loc) + format_finding(low, loc)
}

/// A macro whose lowercased text holds `sql` or `query` is first reported
/// as a possible SQL injection (high); one holding `command`, `exec` or
/// `spawn` is reported as a possible command injection (high); one holding
/// `format` ends with a format-string use (low); a macro holding none of
/// these words is not reported.
pub proof fn law_macro_findings(low: Seq<char>, loc: Seq<char>)
    ensures
        (has_infix(low, "sql"@) || has_infix(low, "query"@)) ==> macro_findings(low, loc).len() >= 1
            && macro_findings(low, loc)[0] == (
            ViolationKind::SqlInjection,
            Severity::High,
            loc,
            "Possible SQL injection vector"@,
        ),
        (has_infix(low, "command"@) || has_infix(low, "exec"@) || has_infix(low, "spawn"@)) ==> exists|k: int|
            0 <= k < macro_findings(low, loc).len() && #[trigger] macro_findings(low, loc)[k] == (
                ViolationKind::CommandInjection,
                Severity::High,
                loc,
                "Possible command injection"@,
            ),
        has_infix(low, "format"@) ==> macro_findings(low, loc).len() >= 1 && macro_findings(low, loc).last() == (
            ViolationKind::FormatString,
            Severity::Low,
            loc,
            "Format macro usage"@,
        ),
        !has_infix(low, "sql"@) && !has_infix(low, "query"@) && !has_infix(low, "command"@) && !has_infix(
            low,
            "exec"@,
        ) && !has_infix(low, "spawn"@) && !has_infix(low, "format"@) ==> macro_findings(low, loc).len() == 0,
{
    let a = sql_finding(low, loc);
    let b = command_finding(low, loc);
    let c = format_finding(low, loc);
    assert(macro_findings(low, loc) == a + b + c);
    if b.len() > 0 {
        assert((a + b + c)[a.len() as int] == b[0]);
    }
}

proof fn lemma_appended_nothing(a: Seq<SyntaxViolation>)
    ensures
        appended(a, a, Seq::empty()),
{
    assert(a.take(a.len() as int) =~= a);
    assert(a.skip(a.len() as int) =~= Seq::<SyntaxViolation>::empty());
}

proof fn lemma_appended_trans(
    a: Seq<SyntaxViolation>,
    b: Seq<SyntaxViolation>,
    c: Seq<SyntaxViolation>,
    x: Seq<(ViolationKind, Severity, Seq<char>, Seq<char>)>,
    y: Seq<(ViolationKind, Severity, Seq<char>, Seq<char>)>,
)
    requires
        appended(a, b, x),
        appended(b, c, y),
    ensures
        appended(a, c, x + y),
{
    assert(c.take(a.len() as int) =~= a) by {
        assert(c.take(b.len() as int) == b);
        assert forall|i: int| 0 <= i < a.len() implies c[i] == a[i] by {
            assert(c.take(b.len() as int)[i] == b[i]);
            assert(b.take(a.len() as int)[i] == a[i]);
        }
    }
    let s = c.skip(a.len() as int);
    assert forall|i: int| 0 <= i < s.len() implies {
        &&& (#[trigger] s[i]).kind == (x + y)[i].0
        &&& s[i].severity == (x + y)[i].1
        &&& s[i].location@ == (x + y)[i].2
        &&& s[i].message@ == (x + y)[i].3
    } by {
        if i < x.len() {
            assert(s[i] == c[a.len() + i]);
            assert(c.take(b.len() as int)[a.len() + i] == b[a.len() + i]);
            assert(b.skip(a.len() as int)[i] == b[a.len() + i]);
        } else {
            assert(s[i] == c[a.len() + i]);
            assert(c.skip(b.len() as int)[i - x.len()] == c[b.len() + i - x.len()]);
        }
    }
}

/// `unwrap` and `expect` are the calls that can panic.
pub open spec fn panicking_name(name: Seq<char>) -> bool {
    name == "unwrap"@ || name == "expect"@
}

/// The callee is a path ending in `unwrap` or `expect`.
pub open spec fn callee_panics(callee: Option<&str>) -> bool {
    match callee {
        Some(name) => panicking_name(name@),
        None => false,
    }
}

/// The characters of the callee's last path segment, if any.
pub open spec fn callee_chars(callee: Option<&str>) -> Seq<char> {
    match callee {
        Some(name) => name@,
        None => Seq::empty(),
    }
}

/// A division or remainder by the integer literal `0`.
pub open spec fn zero_divisor(div_or_rem: bool, right_int_digits: Option<&str>) -> bool {
    div_or_rem && match right_int_digits {
        Some(d) => d@ == "0"@,
        None => false,
    }
}

} // verus!
