//! Layer two, the semantic controller: each top-level function is encoded as
//! a vector built from its name, signature, generics, attributes and body,
//! and functions with too many parameters are flagged. Functions arrive as
//! shapes: the parts of a syntax tree this encoding reads.

use vstd::prelude::*;
use crate::bits::words_for;
use crate::entropy::{deterministic_vector, seeded_vector_words};
use crate::hypervector::{
    bundle_count, bundle_of_words, bundles_words, is_bundle_of, lemma_bundle_of_words, lemma_bundle_views, lemma_bundle_wf, lemma_bundle_words,
    lemma_votes_bound, law_bind_keeps_wf, words_of, xor_words, Hypervector,
};
use crate::text::{decimal_chars, decimal_string, join_with, joined, string_views};

verus! {

/// Kinds of semantic anomaly.
#[derive(Debug, Clone, Copy, PartialEq, Structural)]
pub enum AnomalyKind {
    SignatureMismatch,
    UnusedParameter,
    MissingBaseCase,
    HighComplexity,
    TypeInvariantViolation,
}

/// What the encoding reads of a type.
#[derive(Debug)]
pub enum TypeShape {
    /// A path type, by the identifiers of its segments.
    Path(Vec<String>),
    Reference(Box<TypeShape>),
    Tuple(Vec<TypeShape>),
    Array(Box<TypeShape>),
    Slice(Box<TypeShape>),
    Other,
}

/// What the encoding reads of an expression: its kind, and a method call's name.
#[derive(Debug)]
pub enum ExprKind {
    Call,
    MethodCall(String),
    Binary,
    If,
    Match,
    Loop,
    While,
    ForLoop,
    Return,
    Await,
    Async,
    Other,
}

/// A statement: an expression, a `let` with an optional initializer, or anything else.
#[derive(Debug)]
pub enum SemStmt {
    Expr(ExprKind),
    Local(Option<ExprKind>),
    Other,
}

/// A top-level function as the encoding reads it. `inputs` has one entry per
/// parameter, the receiver included: the parameter's type, or `None` for the
/// receiver. `attrs` has one entry per attribute: its path when that path is
/// a single identifier.
#[derive(Debug)]
pub struct FnItem {
    pub name: String,
    pub inputs: Vec<Option<TypeShape>>,
    pub output: Option<TypeShape>,
    pub generics: Vec<String>,
    pub attrs: Vec<Option<String>>,
    pub body: Vec<SemStmt>,
}

/// An anomaly found in a function. Its severity is `0.5 + min(parameters / 20, 0.5)`.
#[derive(Debug, Clone)]
pub struct SemanticAnomaly {
    pub kind: AnomalyKind,
    pub location: String,
    pub description: String,
    pub parameters: usize,
}

/// The vectors of one file: per function, and the bundle of all of them.
#[derive(Debug)]
pub struct SemanticAnalysis {
    pub semantic_vector: Hypervector,
    pub function_vectors: Vec<(String, Hypervector)>,
    pub anomalies: Vec<SemanticAnomaly>,
}

/// Most vectors one bundle may take: its vote counters are 16 bits wide.
pub open spec fn bundle_limit() -> nat {
    65535
}

/// Every tuple in the type is small enough to bundle.
pub open spec fn type_fits(t: TypeShape) -> bool
    decreases t,
{
    match t {
        TypeShape::Reference(e) => type_fits(*e),
        TypeShape::Array(e) => type_fits(*e),
        TypeShape::Slice(e) => type_fits(*e),
        TypeShape::Tuple(es) => es@.len() <= bundle_limit() && forall|i: int|
            0 <= i < es@.len() ==> type_fits(#[trigger] es@[i]),
        _ => true,
    }
}

/// The function's parts are small enough to bundle.
pub open spec fn fn_fits(f: FnItem) -> bool {
    &&& f.inputs@.len() < bundle_limit()
    &&& f.body@.len() <= bundle_limit()
    &&& forall|i: int| 0 <= i < f.inputs@.len() ==> (#[trigger] f.inputs@[i] matches Some(t) ==> type_fits(t))
    &&& f.output matches Some(t) ==> type_fits(t)
}

/// Positions of the functions with more than eight parameters, in order.
pub open spec fn complex_fns(fns: Seq<FnItem>) -> Seq<int>
    decreases fns.len(),
{
    if fns.len() == 0 {
        Seq::empty()
    } else {
        complex_fns(fns.drop_last()) + if fns.last().inputs@.len() > 8 {
            seq![fns.len() - 1]
        } else {
            Seq::empty()
        }
    }
}

/// The description of a function with `n` parameters.
pub open spec fn complexity_text(n: nat) -> Seq<char> {
    "Function has "@ + decimal_chars(n) + " parameters, consider refactoring"@
}

fn type_fits_check(t: &TypeShape) -> (b: bool)
    ensures
        b == type_fits(*t),
    decreases t,
{
    match t {
        TypeShape::Reference(e) => type_fits_check(e),
        TypeShape::Array(e) => type_fits_check(e),
        TypeShape::Slice(e) => type_fits_check(e),
        TypeShape::Tuple(es) => es.len() <= 65535 && types_fit_check(es),
        _ => true,
    }
}

fn types_fit_check(es: &Vec<TypeShape>) -> (b: bool)
    ensures
        b == forall|j: int| 0 <= j < es@.len() ==> type_fits(#[trigger] es@[j]),
    decreases es,
{
    let mut i: usize = 0;
    while i < es.len()
        invariant
            i <= es@.len(),
            forall|j: int| 0 <= j < i ==> type_fits(#[trigger] es@[j]),
        decreases es@.len() - i,
    {
        if !type_fits_check(&es[i]) {
            assert(!type_fits(es@[i as int]));
            return false;
        }
        i = i + 1;
    }
    true
}

fn fn_fits_check(f: &FnItem) -> (b: bool)
    ensures
        b == fn_fits(*f),
{
    if f.inputs.len() >= 65535 || f.body.len() > 65535 {
        return false;
    }
    let mut i: usize = 0;
    while i < f.inputs.len()
        invariant
            i <= f.inputs@.len(),
            forall|j: int| 0 <= j < i ==> (#[trigger] f.inputs@[j] matches Some(t) ==> type_fits(t)),
        decreases f.inputs@.len() - i,
    {
        match &f.inputs[i] {
            Some(t) => {
                if !type_fits_check(t) {
                    return false;
                }
            },
            None => {},
        }
        i = i + 1;
    }
    match &f.output {
        Some(t) => type_fits_check(t),
        None => true,
    }
}

/// Whether `analyze` takes the functions `fns`: few enough functions, and
/// each with few enough parts, for the bundles' 16-bit vote counters.
pub fn fns_fit(fns: &Vec<FnItem>) -> (b: bool)
    ensures
        b == (fns@.len() <= bundle_limit() && forall|i: int| 0 <= i < fns@.len() ==> fn_fits(#[trigger] fns@[i])),
{
    if fns.len() > 65535 {
        return false;
    }
    let mut i: usize = 0;
    while i < fns.len()
        invariant
            i <= fns@.len(),
            forall|j: int| 0 <= j < i ==> fn_fits(#[trigger] fns@[j]),
        decreases fns@.len() - i,
    {
        if !fn_fits_check(&fns[i]) {
            return false;
        }
        i = i + 1;
    }
    true
}

/// `vs` are well-formed vectors of dimension `dim`.
pub open spec fn all_dim(vs: Seq<Hypervector>, dim: usize) -> bool {
    forall|i: int| 0 <= i < vs.len() ==> (#[trigger] vs[i]).dim == dim && vs[i].wf()
}

/// The words of `e` bound with the seeded vector of `marker`.
pub open spec fn bound_words(dim: nat, e: Seq<u64>, marker: Seq<char>) -> Seq<u64> {
    xor_words(e, seeded_vector_words(dim, marker), words_for(dim))
}

/// The bundle of the parts' words when every part is known and there is at
/// least one; unknown otherwise.
pub open spec fn bundle_parts(dim: nat, ps: Seq<Option<Seq<u64>>>) -> Option<Seq<u64>> {
    if ps.len() > 0 && forall|i: int| 0 <= i < ps.len() ==> (#[trigger] ps[i]) is Some {
        Some(bundle_of_words(Seq::new(ps.len(), |i: int| ps[i]->0), dim))
    } else {
        None
    }
}

/// The words the layer gives the type `t`, known when no part of it is drawn
/// at random: a path has the seeded vector of its `::`-joined name; a
/// reference, array or slice its element's words bound with the marker's
/// seeded vector; a non-empty tuple the bundle of its elements' words. An
/// empty tuple and any other type are drawn at random.
pub open spec fn type_words(dim: nat, t: TypeShape) -> Option<Seq<u64>>
    decreases t,
{
    match t {
        TypeShape::Path(segs) => Some(seeded_vector_words(dim, joined(string_views(segs@), "::"@))),
        TypeShape::Reference(e) => match type_words(dim, *e) {
            Some(ew) => Some(bound_words(dim, ew, "&ref"@)),
            None => None,
        },
        TypeShape::Tuple(es) => bundle_parts(dim, types_part_words(dim, es@)),
        TypeShape::Array(e) => match type_words(dim, *e) {
            Some(ew) => Some(bound_words(dim, ew, "[]array"@)),
            None => None,
        },
        TypeShape::Slice(e) => match type_words(dim, *e) {
            Some(ew) => Some(bound_words(dim, ew, "[]slice"@)),
            None => None,
        },
        TypeShape::Other => None,
    }
}

/// The words of each of the types `ts` (see `type_words`).
pub open spec fn types_part_words(dim: nat, ts: Seq<TypeShape>) -> Seq<Option<Seq<u64>>>
    decreases ts,
{
    if ts.len() == 0 {
        Seq::empty()
    } else {
        types_part_words(dim, ts.drop_last()).push(type_words(dim, ts.last()))
    }
}

proof fn lemma_types_part_words(dim: nat, ts: Seq<TypeShape>)
    ensures
        types_part_words(dim, ts).len() == ts.len(),
        forall|i: int| 0 <= i < ts.len() ==> #[trigger] types_part_words(dim, ts)[i] == type_words(dim, ts[i]),
    decreases ts.len(),
{
    if ts.len() > 0 {
        lemma_types_part_words(dim, ts.drop_last());
    }
}

/// The parameter types of `inputs`, the receiver left out.
pub open spec fn typed_inputs(inputs: Seq<Option<TypeShape>>) -> Seq<TypeShape>
    decreases inputs.len(),
{
    if inputs.len() == 0 {
        Seq::empty()
    } else {
        typed_inputs(inputs.drop_last()) + match inputs.last() {
            Some(t) => seq![t],
            None => Seq::empty(),
        }
    }
}

/// The types a signature encodes: its parameter types, then its return type.
pub open spec fn signature_types(inputs: Seq<Option<TypeShape>>, output: Option<TypeShape>) -> Seq<TypeShape> {
    typed_inputs(inputs) + match output {
        Some(t) => seq![t],
        None => Seq::empty(),
    }
}

/// The words of a signature with the types `ts`: the bundle of their words;
/// drawn at random when there is no type.
pub open spec fn types_words(dim: nat, ts: Seq<TypeShape>) -> Option<Seq<u64>> {
    bundle_parts(dim, types_part_words(dim, ts))
}

/// The names of the attributes whose path is a single identifier.
pub open spec fn attr_names(attrs: Seq<Option<String>>) -> Seq<Seq<char>>
    decreases attrs.len(),
{
    if attrs.len() == 0 {
        Seq::empty()
    } else {
        attr_names(attrs.drop_last()) + match attrs.last() {
            Some(n) => seq![n@],
            None => Seq::empty(),
        }
    }
}

/// The words of generic parameters: the seeded vector of their names joined
/// with commas.
pub open spec fn generics_words(dim: nat, names: Seq<Seq<char>>) -> Seq<u64> {
    seeded_vector_words(dim, joined(names, ","@))
}

/// The words of a function's attributes: the seeded vector of their names
/// joined with commas; drawn at random when there is no attribute.
pub open spec fn attrs_words(dim: nat, attrs: Seq<Option<String>>) -> Option<Seq<u64>> {
    if attrs.len() == 0 {
        None
    } else {
        Some(seeded_vector_words(dim, joined(attr_names(attrs), ","@)))
    }
}

/// The words of an expression: the seeded vector of its kind's word, or of
/// the method name; drawn at random for another expression.
pub open spec fn expr_words(dim: nat, e: ExprKind) -> Option<Seq<u64>> {
    match e {
        ExprKind::Call => Some(seeded_vector_words(dim, "call"@)),
        ExprKind::MethodCall(m) => Some(seeded_vector_words(dim, m@)),
        ExprKind::Binary => Some(seeded_vector_words(dim, "binary"@)),
        ExprKind::If => Some(seeded_vector_words(dim, "if"@)),
        ExprKind::Match => Some(seeded_vector_words(dim, "match"@)),
        ExprKind::Loop => Some(seeded_vector_words(dim, "loop"@)),
        ExprKind::While => Some(seeded_vector_words(dim, "while"@)),
        ExprKind::ForLoop => Some(seeded_vector_words(dim, "for"@)),
        ExprKind::Return => Some(seeded_vector_words(dim, "return"@)),
        ExprKind::Await => Some(seeded_vector_words(dim, "await"@)),
        ExprKind::Async => Some(seeded_vector_words(dim, "async"@)),
        ExprKind::Other => None,
    }
}

/// The words of a statement: its expression's; drawn at random otherwise.
pub open spec fn stmt_words(dim: nat, s: SemStmt) -> Option<Seq<u64>> {
    match s {
        SemStmt::Expr(e) => expr_words(dim, e),
        SemStmt::Local(Some(e)) => expr_words(dim, e),
        _ => None,
    }
}

/// The words of a block: the bundle of its statements' words; drawn at
/// random when it is empty.
pub open spec fn block_words(dim: nat, body: Seq<SemStmt>) -> Option<Seq<u64>> {
    bundle_parts(dim, stmts_part_words(dim, body))
}

/// The words of each of the statements `body` (see `stmt_words`).
pub open spec fn stmts_part_words(dim: nat, body: Seq<SemStmt>) -> Seq<Option<Seq<u64>>>
    decreases body.len(),
{
    if body.len() == 0 {
        Seq::empty()
    } else {
        stmts_part_words(dim, body.drop_last()).push(stmt_words(dim, body.last()))
    }
}

proof fn lemma_stmts_part_words(dim: nat, body: Seq<SemStmt>)
    ensures
        stmts_part_words(dim, body).len() == body.len(),
        forall|i: int| 0 <= i < body.len() ==> #[trigger] stmts_part_words(dim, body)[i] == stmt_words(dim, body[i]),
    decreases body.len(),
{
    if body.len() > 0 {
        lemma_stmts_part_words(dim, body.drop_last());
    }
}

/// The parts of a function's vector, in order: its name's seeded vector, its
/// signature's, its generics' (only when it has generics), its attributes'
/// and its body's.
pub open spec fn fn_part_words(dim: nat, f: FnItem) -> Seq<Option<Seq<u64>>> {
    seq![
        Some(seeded_vector_words(dim, f.name@)),
        types_words(dim, signature_types(f.inputs@, f.output)),
    ] + (if f.generics@.len() > 0 {
        seq![Some(generics_words(dim, string_views(f.generics@)))]
    } else {
        Seq::empty()
    }) + seq![attrs_words(dim, f.attrs@), block_words(dim, f.body@)]
}

/// The words of a function: the bundle of its parts, known when every part is.
pub open spec fn fn_words(dim: nat, f: FnItem) -> Option<Seq<u64>> {
    bundle_parts(dim, fn_part_words(dim, f))
}

/// `comps` hold the words of `ps` where these are known.
pub open spec fn matches_parts(comps: Seq<Hypervector>, ps: Seq<Option<Seq<u64>>>) -> bool {
    &&& comps.len() == ps.len()
    &&& forall|i: int| 0 <= i < ps.len() ==> ((#[trigger] ps[i]) matches Some(w) ==> comps[i].words@ == w)
}

/// The bundle of vectors that hold known parts' words is the bundle of those parts.
proof fn lemma_bundle_parts(r: Hypervector, comps: Seq<Hypervector>, ps: Seq<Option<Seq<u64>>>, dim: nat)
    requires
        matches_parts(comps, ps),
        bundles_words(r.words@, words_of(comps), dim),
    ensures
        bundle_parts(dim, ps) matches Some(w) ==> r.words@ == w,
{
    if bundle_parts(dim, ps) is Some {
        let ws = Seq::new(ps.len(), |i: int| ps[i]->0);
        assert forall|i: int| 0 <= i < ws.len() implies ws[i] == words_of(comps)[i] by {
            assert(ps[i] is Some);
        }
        assert(ws =~= words_of(comps));
        lemma_bundle_of_words(r.words@, words_of(comps), dim);
    }
}

/// `r` is what `analyze` reports for `fns` at dimension `dim`: a named,
/// well-formed vector per function with the words of `fn_words` where known,
/// their bundle, and the complexity anomalies in order.
pub open spec fn is_semantic_analysis(dim: usize, fns: Seq<FnItem>, r: SemanticAnalysis) -> bool {
    &&& r.function_vectors@.len() == fns.len()
    &&& forall|i: int| 0 <= i < fns.len() ==> (#[trigger] r.function_vectors@[i]).0@ == fns[i].name@
        && r.function_vectors@[i].1.dim == dim && r.function_vectors@[i].1.wf()
    &&& forall|i: int| 0 <= i < fns.len() ==> (fn_words(dim as nat, fns[i]) matches Some(w)
        ==> (#[trigger] r.function_vectors@[i]).1.words@ == w)
    &&& r.semantic_vector.dim == dim
    &&& r.semantic_vector.wf()
    &&& fns.len() > 0 ==> is_bundle_of(
        r.semantic_vector,
        r.function_vectors@[0].1,
        Seq::new((fns.len() - 1) as nat, |i: int| &r.function_vectors@[i + 1].1),
    )
    &&& r.anomalies@.len() == complex_fns(fns).len()
    &&& forall|p: int| 0 <= p < r.anomalies@.len() ==> is_complexity_anomaly(
        #[trigger] r.anomalies@[p],
        fns[complex_fns(fns)[p]],
    )
}

/// Layer two: the dimension of its vectors.
pub struct SemanticLayer {
    pub dim: usize,
}

impl SemanticLayer {
    pub fn new(dim: usize) -> (l: Self)
        ensures
            l.dim == dim,
    {
        SemanticLayer { dim }
    }

    /// The fixed vector of a string: its seeded vector.
    pub fn encode_string(&self, s: &str) -> (hv: Hypervector)
        requires
            self.dim <= usize::MAX - 63,
        ensures
            hv.dim == self.dim,
            hv.wf(),
            hv.words@ == seeded_vector_words(self.dim as nat, s@),
    {
        deterministic_vector(self.dim, s)
    }

    /// The majority bundle of `vs[0]` with the rest of `vs`.
    fn bundle_all(&self, vs: &Vec<Hypervector>) -> (r: Hypervector)
        requires
            self.dim <= usize::MAX - 63,
            1 <= vs@.len() <= bundle_limit(),
            all_dim(vs@, self.dim),
        ensures
            r.dim == self.dim,
            r.wf(),
            is_bundle_of(r, vs@[0], Seq::new((vs@.len() - 1) as nat, |i: int| &vs@[i + 1])),
            bundles_words(r.words@, words_of(vs@), self.dim as nat),
    {
        let n = vs.len();
        let ghost want = Seq::new((vs@.len() - 1) as nat, |i: int| &vs@[i + 1]);
        let mut others: Vec<&Hypervector> = Vec::new();
        let mut i: usize = 1;
        while i < n
            invariant
                1 <= i <= n,
                n == vs@.len(),
                others@.len() == i - 1,
                want == Seq::new((vs@.len() - 1) as nat, |i: int| &vs@[i + 1]),
                forall|j: int| 0 <= j < i - 1 ==> #[trigger] others@[j] == want[j],
            decreases n - i,
        {
            others.push(&vs[i]);
            i = i + 1;
        }
        assert(others@ =~= want);
        let first = &vs[0];
        proof {
            assert forall|w: int, b: u64| 0 <= w < words_for(first.dim as nat) && b < 64 implies #[trigger] bundle_count(
                *first,
                others@,
                w,
                b,
            ) <= u16::MAX by {
                lemma_votes_bound(others@, w, b, others@.len() as int);
            }
        }
        let r = first.bundle(others.as_slice());
        proof {
            assert forall|k: int| 0 <= k < others@.len() implies (#[trigger] others@[k]).dim == first.dim
                && others@[k].wf() by {
                assert(others@[k] == vs@[k + 1]);
            }
            lemma_bundle_wf(r, *first, others@);
            assert forall|j: int| 0 <= j < others@.len() implies words_of(vs@)[j + 1] == (#[trigger] others@[j]).words@ by {
                assert(others@[j] == vs@[j + 1]);
            }
            lemma_bundle_words(r, *first, others@, words_of(vs@));
        }
        r
    }

    /// `a` bound with the fixed vector of `marker`: the words of `a` XOR the
    /// seeded vector of `marker`.
    fn bind_marker(&self, a: Hypervector, marker: &str) -> (r: Hypervector)
        requires
            self.dim <= usize::MAX - 63,
            a.dim == self.dim,
            a.wf(),
        ensures
            r.dim == self.dim,
            r.wf(),
            r.words@ == bound_words(self.dim as nat, a.words@, marker@),
    {
        let m = self.encode_string(marker);
        let r = a.bind(&m);
        proof {
            law_bind_keeps_wf(a, m, r);
        }
        r
    }

    fn encode_types(&self, es: &Vec<TypeShape>) -> (comps: Vec<Hypervector>)
        requires
            self.dim <= usize::MAX - 63,
            forall|j: int| 0 <= j < es@.len() ==> type_fits(#[trigger] es@[j]),
        ensures
            comps@.len() == es@.len(),
            all_dim(comps@, self.dim),
            forall|j: int| 0 <= j < es@.len() ==> (type_words(self.dim as nat, es@[j]) matches Some(w) ==> (#[trigger] comps@[j]).words@ == w),
        decreases es,
    {
        let mut comps: Vec<Hypervector> = Vec::new();
        let mut i: usize = 0;
        while i < es.len()
            invariant
                i <= es@.len(),
                self.dim <= usize::MAX - 63,
                forall|j: int| 0 <= j < es@.len() ==> type_fits(#[trigger] es@[j]),
                comps@.len() == i,
                all_dim(comps@, self.dim),
                forall|j: int| 0 <= j < i ==> (type_words(self.dim as nat, es@[j]) matches Some(w) ==> (#[trigger] comps@[j]).words@ == w),
            decreases es@.len() - i,
        {
            let c = self.encode_type(&es[i]);
            comps.push(c);
            i = i + 1;
        }
        comps
    }

    /// The vector of a type: a path by its `::`-joined name; a reference,
    /// array or slice by its element bound with a marker; a tuple by the
    /// bundle of its elements; anything else at random.
    pub fn encode_type(&self, ty: &TypeShape) -> (hv: Hypervector)
        requires
            self.dim <= usize::MAX - 63,
            type_fits(*ty),
        ensures
            hv.dim == self.dim,
            hv.wf(),
            type_words(self.dim as nat, *ty) matches Some(w) ==> hv.words@ == w,
        decreases ty,
    {
        let ghost dim = self.dim as nat;
        match ty {
            TypeShape::Path(segs) => {
                let name = join_with(segs, "::");
                let r = self.encode_string(name.as_str());
                assert(type_words(dim, *ty) == Some(r.words@));
                r
            },
            TypeShape::Reference(e) => {
                let elem = self.encode_type(e);
                let r = self.bind_marker(elem, "&ref");
                assert(type_words(dim, *ty) matches Some(w) ==> r.words@ == w);
                r
            },
            TypeShape::Tuple(es) => {
                if es.len() == 0 {
                    let r = Hypervector::random(self.dim);
                    proof {
                        lemma_types_part_words(dim, es@);
                    }
                    assert(type_words(dim, *ty) is None);
                    r
                } else {
                    let comps = self.encode_types(es);
                    let r = self.bundle_all(&comps);
                    proof {
                        let ps = types_part_words(dim, es@);
                        lemma_types_part_words(dim, es@);
                        assert forall|i: int| 0 <= i < ps.len() implies ((#[trigger] ps[i]) matches Some(w)
                            ==> comps@[i].words@ == w) by {
                            assert(ps[i] == type_words(dim, es@[i]));
                        }
                        lemma_bundle_parts(r, comps@, ps, dim);
                        assert(type_words(dim, *ty) == bundle_parts(dim, ps));
                    }
                    r
                }
            },
            TypeShape::Array(e) => {
                let elem = self.encode_type(e);
                let r = self.bind_marker(elem, "[]array");
                assert(type_words(dim, *ty) matches Some(w) ==> r.words@ == w);
                r
            },
            TypeShape::Slice(e) => {
                let elem = self.encode_type(e);
                let r = self.bind_marker(elem, "[]slice");
                assert(type_words(dim, *ty) matches Some(w) ==> r.words@ == w);
                r
            },
            TypeShape::Other => {
                let r = Hypervector::random(self.dim);
                assert(type_words(dim, *ty) is None);
                r
            },
        }
    }

    /// The vector of a signature: the bundle of its typed parameters' and its
    /// return type's vectors; random when it has neither.
    pub fn encode_signature(&self, inputs: &Vec<Option<TypeShape>>, output: &Option<TypeShape>) -> (hv: Hypervector)
        requires
            self.dim <= usize::MAX - 63,
            inputs@.len() < bundle_limit(),
            forall|i: int| 0 <= i < inputs@.len() ==> (#[trigger] inputs@[i] matches Some(t) ==> type_fits(t)),
            *output matches Some(t) ==> type_fits(t),
        ensures
            hv.dim == self.dim,
            hv.wf(),
            types_words(self.dim as nat, signature_types(inputs@, *output)) matches Some(w) ==> hv.words@ == w,
    {
        let ghost dim = self.dim as nat;
        let mut comps: Vec<Hypervector> = Vec::new();
        let mut i: usize = 0;
        while i < inputs.len()
            invariant
                i <= inputs@.len(),
                self.dim <= usize::MAX - 63,
                dim == self.dim as nat,
                forall|j: int| 0 <= j < inputs@.len() ==> (#[trigger] inputs@[j] matches Some(t) ==> type_fits(t)),
                comps@.len() <= i,
                all_dim(comps@, self.dim),
                matches_parts(comps@, types_part_words(dim, typed_inputs(inputs@.take(i as int)))),
            decreases inputs@.len() - i,
        {
            let ghost before = typed_inputs(inputs@.take(i as int));
            proof {
                assert(inputs@.take(i + 1).drop_last() =~= inputs@.take(i as int));
                lemma_types_part_words(dim, before);
            }
            match &inputs[i] {
                Some(t) => {
                    let c = self.encode_type(t);
                    comps.push(c);
                    proof {
                        let after = typed_inputs(inputs@.take(i + 1));
                        assert(after == before.push(*t));
                        lemma_types_part_words(dim, after);
                        assert forall|j: int| 0 <= j < after.len() implies ((#[trigger] types_part_words(dim, after)[j]) matches Some(w)
                            ==> comps@[j].words@ == w) by {
                            if j < before.len() {
                                assert(after[j] == before[j]);
                                assert(types_part_words(dim, before)[j] == type_words(dim, before[j]));
                            }
                        }
                    }
                },
                None => {
                    proof {
                        let after = typed_inputs(inputs@.take(i + 1));
                        assert(after =~= before);
                    }
                },
            }
            i = i + 1;
        }
        assert(inputs@.take(inputs@.len() as int) =~= inputs@);
        let ghost before = typed_inputs(inputs@);
        proof {
            lemma_types_part_words(dim, before);
        }
        match output {
            Some(t) => {
                let c = self.encode_type(t);
                comps.push(c);
                proof {
                    let after = signature_types(inputs@, *output);
                    assert(after =~= before.push(*t));
                    lemma_types_part_words(dim, after);
                    assert forall|j: int| 0 <= j < after.len() implies ((#[trigger] types_part_words(dim, after)[j]) matches Some(w)
                        ==> comps@[j].words@ == w) by {
                        if j < before.len() {
                            assert(after[j] == before[j]);
                            assert(types_part_words(dim, before)[j] == type_words(dim, before[j]));
                        }
                    }
                }
            },
            None => {
                proof {
                    assert(signature_types(inputs@, *output) =~= before);
                }
            },
        }
        let ghost ps = types_part_words(dim, signature_types(inputs@, *output));
        if comps.len() == 0 {
            Hypervector::random(self.dim)
        } else {
            let r = self.bundle_all(&comps);
            proof {
                lemma_bundle_parts(r, comps@, ps, dim);
            }
            r
        }
    }

    /// The vector of the generic parameters' names joined with commas.
    pub fn encode_generics(&self, names: &Vec<String>) -> (hv: Hypervector)
        requires
            self.dim <= usize::MAX - 63,
        ensures
            hv.dim == self.dim,
            hv.wf(),
            hv.words@ == generics_words(self.dim as nat, string_views(names@)),
    {
        let text = join_with(names, ",");
        self.encode_string(text.as_str())
    }

    /// The vector of the single-identifier attribute names joined with
    /// commas; random when there is no attribute at all.
    pub fn encode_attributes(&self, attrs: &Vec<Option<String>>) -> (hv: Hypervector)
        requires
            self.dim <= usize::MAX - 63,
        ensures
            hv.dim == self.dim,
            hv.wf(),
            attrs_words(self.dim as nat, attrs@) matches Some(w) ==> hv.words@ == w,
    {
        if attrs.len() == 0 {
            return Hypervector::random(self.dim);
        }
        let mut names: Vec<String> = Vec::new();
        let mut i: usize = 0;
        while i < attrs.len()
            invariant
                i <= attrs@.len(),
                string_views(names@) == attr_names(attrs@.take(i as int)),
            decreases attrs@.len() - i,
        {
            let ghost before = string_views(names@);
            assert(attrs@.take(i + 1).drop_last() =~= attrs@.take(i as int));
            match &attrs[i] {
                Some(n) => {
                    names.push(n.clone());
                    assert(string_views(names@) =~= before.push(n@));
                },
                None => {},
            }
            i = i + 1;
        }
        assert(attrs@.take(attrs@.len() as int) =~= attrs@);
        let text = join_with(&names, ",");
        self.encode_string(text.as_str())
    }

    /// The vector of an expression's kind: a fixed word per kind, the method
    /// name for a method call, random for anything else.
    pub fn encode_expr(&self, e: &ExprKind) -> (hv: Hypervector)
        requires
            self.dim <= usize::MAX - 63,
        ensures
            hv.dim == self.dim,
            hv.wf(),
            expr_words(self.dim as nat, *e) matches Some(w) ==> hv.words@ == w,
    {
        match e {
            ExprKind::Call => self.encode_string("call"),
            ExprKind::MethodCall(m) => self.encode_string(m.as_str()),
            ExprKind::Binary => self.encode_string("binary"),
            ExprKind::If => self.encode_string("if"),
            ExprKind::Match => self.encode_string("match"),
            ExprKind::Loop => self.encode_string("loop"),
            ExprKind::While => self.encode_string("while"),
            ExprKind::ForLoop => self.encode_string("for"),
            ExprKind::Return => self.encode_string("return"),
            ExprKind::Await => self.encode_string("await"),
            ExprKind::Async => self.encode_string("async"),
            ExprKind::Other => Hypervector::random(self.dim),
        }
    }

    /// The vector of a statement: its expression's, or random.
    pub fn encode_stmt(&self, st: &SemStmt) -> (hv: Hypervector)
        requires
            self.dim <= usize::MAX - 63,
        ensures
            hv.dim == self.dim,
            hv.wf(),
            stmt_words(self.dim as nat, *st) matches Some(w) ==> hv.words@ == w,
    {
        match st {
            SemStmt::Expr(e) => self.encode_expr(e),
            SemStmt::Local(Some(e)) => self.encode_expr(e),
            _ => Hypervector::random(self.dim),
        }
    }

    /// The vector of a block: the bundle of its statements'; random when empty.
    pub fn encode_block(&self, body: &Vec<SemStmt>) -> (hv: Hypervector)
        requires
            self.dim <= usize::MAX - 63,
            body@.len() <= bundle_limit(),
        ensures
            hv.dim == self.dim,
            hv.wf(),
            block_words(self.dim as nat, body@) matches Some(w) ==> hv.words@ == w,
    {
        let ghost dim = self.dim as nat;
        proof {
            lemma_stmts_part_words(dim, body@);
        }
        let mut comps: Vec<Hypervector> = Vec::new();
        let mut i: usize = 0;
        while i < body.len()
            invariant
                i <= body@.len(),
                self.dim <= usize::MAX - 63,
                dim == self.dim as nat,
                comps@.len() == i,
                all_dim(comps@, self.dim),
                stmts_part_words(dim, body@).len() == body@.len(),
                forall|k: int| 0 <= k < body@.len() ==> #[trigger] stmts_part_words(dim, body@)[k] == stmt_words(dim, body@[k]),
                forall|j: int| 0 <= j < i ==> ((#[trigger] stmts_part_words(dim, body@)[j]) matches Some(w) ==> comps@[j].words@ == w),
            decreases body@.len() - i,
        {
            let c = self.encode_stmt(&body[i]);
            comps.push(c);
            i = i + 1;
        }
        if comps.len() == 0 {
            Hypervector::random(self.dim)
        } else {
            let r = self.bundle_all(&comps);
            proof {
                lemma_bundle_parts(r, comps@, stmts_part_words(dim, body@), dim);
            }
            r
        }
    }

    /// The vector of a function: the bundle of its name's vector with those of
    /// its signature, its generics (when it has any), its attributes and its body.
    pub fn encode_function(&self, f: &FnItem) -> (hv: Hypervector)
        requires
            self.dim <= usize::MAX - 63,
            fn_fits(*f),
        ensures
            hv.dim == self.dim,
            hv.wf(),
            fn_words(self.dim as nat, *f) matches Some(w) ==> hv.words@ == w,
    {
        let ghost dim = self.dim as nat;
        let mut comps: Vec<Hypervector> = Vec::new();
        comps.push(self.encode_string(f.name.as_str()));
        comps.push(self.encode_signature(&f.inputs, &f.output));
        if f.generics.len() > 0 {
            comps.push(self.encode_generics(&f.generics));
        }
        comps.push(self.encode_attributes(&f.attrs));
        comps.push(self.encode_block(&f.body));
        let r = self.bundle_all(&comps);
        proof {
            let ps = fn_part_words(dim, *f);
            assert(matches_parts(comps@, ps));
            lemma_bundle_parts(r, comps@, ps, dim);
        }
        r
    }

    /// More than eight parameters is reported as high complexity.
    fn check_function_semantics(&self, f: &FnItem) -> (a: Option<SemanticAnomaly>)
        ensures
            f.inputs@.len() > 8 <==> a is Some,
            a matches Some(x) ==> is_complexity_anomaly(x, *f),
    {
        let params = f.inputs.len();
        if params > 8 {
            let mut description = String::from_str("Function has ");
            let n = decimal_string(params);
            description.append(n.as_str());
            description.append(" parameters, consider refactoring");
            Some(SemanticAnomaly {
                kind: AnomalyKind::HighComplexity,
                location: f.name.clone(),
                description,
                parameters: params,
            })
        } else {
            None
        }
    }

    /// Encodes the top-level functions `fns` and flags the complex ones.
    pub fn analyze(&self, fns: &Vec<FnItem>) -> (r: SemanticAnalysis)
        requires
            self.dim <= usize::MAX - 63,
            fns@.len() <= bundle_limit(),
            forall|i: int| 0 <= i < fns@.len() ==> fn_fits(#[trigger] fns@[i]),
        ensures
            r.function_vectors@.len() == fns@.len(),
            forall|i: int| 0 <= i < fns@.len() ==> (#[trigger] r.function_vectors@[i]).0@ == fns@[i].name@
                && r.function_vectors@[i].1.dim == self.dim && r.function_vectors@[i].1.wf(),
            forall|i: int| 0 <= i < fns@.len() ==> (fn_words(self.dim as nat, fns@[i]) matches Some(w)
                ==> (#[trigger] r.function_vectors@[i]).1.words@ == w),
            r.semantic_vector.dim == self.dim,
            r.semantic_vector.wf(),
            fns@.len() > 0 ==> is_bundle_of(
                r.semantic_vector,
                r.function_vectors@[0].1,
                Seq::new((fns@.len() - 1) as nat, |i: int| &r.function_vectors@[i + 1].1),
            ),
            r.anomalies@.len() == complex_fns(fns@).len(),
            forall|p: int| 0 <= p < r.anomalies@.len() ==> is_complexity_anomaly(
                #[trigger] r.anomalies@[p],
                fns@[complex_fns(fns@)[p]],
            ),
            is_semantic_analysis(self.dim, fns@, r),
    {
        let mut function_vectors: Vec<(String, Hypervector)> = Vec::new();
        let mut vectors: Vec<Hypervector> = Vec::new();
        let mut anomalies: Vec<SemanticAnomaly> = Vec::new();
        let mut i: usize = 0;
        while i < fns.len()
            invariant
                i <= fns@.len(),
                self.dim <= usize::MAX - 63,
                forall|j: int| 0 <= j < fns@.len() ==> fn_fits(#[trigger] fns@[j]),
                function_vectors@.len() == i,
                vectors@.len() == i,
                all_dim(vectors@, self.dim),
                forall|j: int| 0 <= j < i ==> (#[trigger] function_vectors@[j]).0@ == fns@[j].name@
                    && function_vectors@[j].1@ == vectors@[j]@,
                forall|j: int| 0 <= j < i ==> (fn_words(self.dim as nat, fns@[j]) matches Some(w)
                    ==> (#[trigger] vectors@[j]).words@ == w),
                anomalies@.len() == complex_fns(fns@.take(i as int)).len(),
                forall|p: int| 0 <= p < anomalies@.len() ==> is_complexity_anomaly(
                    #[trigger] anomalies@[p],
                    fns@[complex_fns(fns@.take(i as int))[p]],
                ),
            decreases fns@.len() - i,
        {
            let ghost pre = fns@.take(i as int);
            let ghost post = fns@.take(i + 1);
            assert(post.drop_last() =~= pre);
            assert(post.last() == fns@[i as int]);
            let f = &fns[i];
            let v = self.encode_function(f);
            function_vectors.push((f.name.clone(), v.clone()));
            vectors.push(v);
            let a = self.check_function_semantics(f);
            assert(complex_fns(post) == complex_fns(pre) + if fns@[i as int].inputs@.len() > 8 {
                seq![i as int]
            } else {
                Seq::<int>::empty()
            });
            match a {
                Some(x) => anomalies.push(x),
                None => {},
            }
            proof {
                assert forall|j: int| 0 <= j < i + 1 implies (#[trigger] vectors@[j]).dim == self.dim
                    && vectors@[j].wf() by {

                }
            }
            i = i + 1;
        }
        assert(fns@.take(fns@.len() as int) =~= fns@);
        let semantic_vector = if vectors.len() == 0 {
            Hypervector::random(self.dim)
        } else {
            let sv = self.bundle_all(&vectors);
            proof {
                let o1 = Seq::new((vectors@.len() - 1) as nat, |i: int| &vectors@[i + 1]);
                let o2 = Seq::new((fns@.len() - 1) as nat, |i: int| &function_vectors@[i + 1].1);
                assert forall|j: int| 0 <= j < o1.len() implies (#[trigger] o1[j])@ == o2[j]@ by {
                    assert(function_vectors@[j + 1].1@ == vectors@[j + 1]@);
                }
                assert(function_vectors@[0].1@ == vectors@[0]@);
                lemma_bundle_views(sv, vectors@[0], o1, function_vectors@[0].1, o2);
            }
            sv
        };
        proof {
            assert forall|j: int| 0 <= j < fns@.len() implies (#[trigger] function_vectors@[j]).0@
                == fns@[j].name@ && function_vectors@[j].1.dim == self.dim && function_vectors@[j].1.wf() by {
                let a = function_vectors@[j].1;
                let b = vectors@[j];
                assert(a@ == b@);
                assert(a.words@ == b.words@);
                assert(forall|k: int| a.bit(k) == b.bit(k));
            }
            assert forall|j: int| 0 <= j < fns@.len() implies (fn_words(self.dim as nat, fns@[j]) matches Some(w)
                ==> (#[trigger] function_vectors@[j]).1.words@ == w) by {
                assert(function_vectors@[j].1@ == vectors@[j]@);
                assert(vectors@[j].words@ == vectors@[j]@.1);
            }
        }
        SemanticAnalysis { semantic_vector, function_vectors, anomalies }
    }
}

/// `a` reports function `f` as having too many parameters.
pub open spec fn is_complexity_anomaly(a: SemanticAnomaly, f: FnItem) -> bool {
    &&& a.kind == AnomalyKind::HighComplexity
    &&& a.location@ == f.name@
    &&& a.parameters == f.inputs@.len()
    &&& a.description@ == complexity_text(f.inputs@.len())
}

} // verus!
