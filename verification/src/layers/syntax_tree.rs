//! What the syntax layer reads of a parsed file, and its walk over it: a
//! tree of the nodes the layer reacts to (function items, `unsafe` blocks,
//! calls, loops, `match`, binary and index expressions, macros, structs and
//! enums), every other node kept as a plain group of its children, in the
//! order a `syn` visitor meets them. Types, patterns, attribute arguments,
//! generic arguments and the items of `extern` blocks are not converted, so
//! a macro or expression inside one of them is not walked.

use vstd::prelude::*;
use crate::layers::chaos_layer::BinOpShape;
use crate::layers::source::bin_op_shape;
use crate::layers::syntax_layer::{
    appended, has_non_exhaustive, location_of, macro_findings, panicking_name, CodeStats, Severity, SyntaxViolation,
    SyntaxVisitor, ViolationKind,
};
use crate::text::{decimal_chars, lowercase_of};

verus! {

/// A function item's visibility.
pub enum VisKind {
    Public,
    Restricted,
    Inherited,
}

/// What the layer reads of a function item's signature.
pub struct FnHead {
    pub name: String,
    pub is_async: bool,
    pub generic_params: usize,
    pub vis: VisKind,
}

/// A node of the tree, with its children in visiting order.
pub enum SynNode {
    ItemFn(FnHead, Vec<SynNode>),
    Unsafe(Vec<SynNode>),
    /// A call; the last segment of the callee's path when the callee is a path.
    Call(Option<String>, Vec<SynNode>),
    MethodCall(String, Vec<SynNode>),
    Loop(Vec<SynNode>),
    While(Vec<SynNode>),
    ForLoop(Vec<SynNode>),
    Match(Vec<SynNode>),
    /// A binary expression: its operator and, when the right operand is an
    /// integer literal, that literal's base-10 digits.
    Binary(BinOpShape, Option<String>, Vec<SynNode>),
    Index(Vec<SynNode>),
    /// A macro invocation, as its token text.
    Macro(String),
    /// A struct item: per attribute, its path's identifier when the path is one.
    Struct(Vec<Option<String>>, Vec<SynNode>),
    Enum(Vec<Option<String>>, Vec<SynNode>),
    Other(Vec<SynNode>),
}

/// One recorded violation: kind, severity, location and message.
pub type Record = (ViolationKind, Severity, Seq<char>, Seq<char>);

/// The state of a walk: the violations so far, the counts, the enclosing
/// function and the depth of nested `unsafe` blocks.
pub type WalkState = (Seq<Record>, CodeStats, Option<Seq<char>>, nat);

/// The records of `vs`.
pub open spec fn records_of(vs: Seq<SyntaxViolation>) -> Seq<Record> {
    vs.map_values(|x: SyntaxViolation| (x.kind, x.severity, x.location@, x.message@))
}

/// The characters of the enclosing function's name, if any.
pub open spec fn current_view(c: Option<String>) -> Option<Seq<char>> {
    match c {
        Some(f) => Some(f@),
        None => None,
    }
}

/// The walk state a visitor holds.
pub open spec fn walk_state(v: SyntaxVisitor) -> WalkState {
    (records_of(v.violations@), v.stats, current_view(v.current_function), v.unsafe_depth as nat)
}

/// Where a violation is reported: the enclosing function, or `top-level`.
pub open spec fn loc_of(cur: Option<Seq<char>>) -> Seq<char> {
    match cur {
        Some(f) => f,
        None => "top-level"@,
    }
}

/// `s` with `r` recorded at its location.
pub open spec fn report(s: WalkState, k: ViolationKind, sev: Severity, msg: Seq<char>) -> WalkState {
    (s.0 + seq![(k, sev, loc_of(s.2), msg)], s.1, s.2, s.3)
}

/// A call of `name`: counted and reported when it can panic.
pub open spec fn panic_step(s: WalkState, name: Seq<char>) -> WalkState {
    if panicking_name(name) {
        let t = report(s, ViolationKind::UnwrapExpect, Severity::High, "Use of "@ + name + "() can panic"@);
        (t.0, CodeStats { unwrap_calls: (s.1.unwrap_calls + 1) as usize, ..s.1 }, t.2, t.3)
    } else {
        s
    }
}

/// `s` with one more loop counted.
pub open spec fn count_loop(s: WalkState) -> WalkState {
    (s.0, CodeStats { loops: (s.1.loops + 1) as usize, ..s.1 }, s.2, s.3)
}

/// One of the attribute identifiers is `non_exhaustive`.
pub open spec fn non_exhaustive_attr(attrs: Seq<Option<String>>) -> bool {
    exists|i: int| 0 <= i < attrs.len() && is_ident(#[trigger] attrs[i], "non_exhaustive"@)
}

/// A division or remainder whose right operand is the literal `0`.
pub open spec fn divides_by_zero(op: BinOpShape, digits: Option<String>) -> bool {
    (op == BinOpShape::Div || op == BinOpShape::Rem) && is_ident(digits, "0"@)
}

/// `a` is present and spells `text`.
pub open spec fn is_ident(a: Option<String>, text: Seq<char>) -> bool {
    match a {
        Some(x) => x@ == text,
        None => false,
    }
}

/// The walk state after visiting `n` from `s`.
pub open spec fn node_walk(s: WalkState, n: SynNode) -> WalkState
    decreases n,
{
    match n {
        SynNode::ItemFn(h, c) => {
            let st = CodeStats {
                functions: (s.1.functions + 1) as usize,
                async_functions: if h.is_async { (s.1.async_functions + 1) as usize } else { s.1.async_functions },
                generic_functions: if h.generic_params > 0 {
                    (s.1.generic_functions + 1) as usize
                } else {
                    s.1.generic_functions
                },
                public_functions: if h.vis is Public {
                    (s.1.public_functions + 1) as usize
                } else {
                    s.1.public_functions
                },
                ..s.1
            };
            let t = nodes_walk((s.0, st, Some(h.name@), s.3), c@);
            (t.0, t.1, s.2, t.3)
        },
        SynNode::Unsafe(c) => {
            let d = s.3 + 1;
            let r = report(s, ViolationKind::UnsafeBlock, Severity::Critical, "Unsafe block (depth "@ + decimal_chars(d) + ")"@);
            let t = nodes_walk((r.0, CodeStats { unsafe_blocks: (s.1.unsafe_blocks + 1) as usize, ..s.1 }, s.2, d), c@);
            (t.0, t.1, t.2, (t.3 - 1) as nat)
        },
        SynNode::Call(callee, c) => nodes_walk(
            match callee {
                Some(f) => panic_step(s, f@),
                None => s,
            },
            c@,
        ),
        SynNode::MethodCall(m, c) => nodes_walk(panic_step(s, m@), c@),
        SynNode::Loop(c) => nodes_walk(
            count_loop(report(s, ViolationKind::InfiniteLoop, Severity::Medium, "Unconditional loop"@)),
            c@,
        ),
        SynNode::While(c) => nodes_walk(count_loop(s), c@),
        SynNode::ForLoop(c) => nodes_walk(count_loop(s), c@),
        SynNode::Match(c) => nodes_walk(
            (s.0, CodeStats { match_expressions: (s.1.match_expressions + 1) as usize, ..s.1 }, s.2, s.3),
            c@,
        ),
        SynNode::Binary(op, digits, c) => nodes_walk(
            if divides_by_zero(op, digits) {
                report(s, ViolationKind::DivisionByZero, Severity::Critical, "Division by zero literal"@)
            } else {
                s
            },
            c@,
        ),
        SynNode::Index(c) => nodes_walk(
            report(s, ViolationKind::ArrayIndexOutOfBounds, Severity::Medium, "Array indexing — bounds not statically verified"@),
            c@,
        ),
        SynNode::Macro(t) => (s.0 + macro_findings(lowercase_of(t@), loc_of(s.2)), s.1, s.2, s.3),
        SynNode::Struct(a, c) => nodes_walk(
            if non_exhaustive_attr(a@) {
                report(s, ViolationKind::NonExhaustiveMatch, Severity::Low, "Non-exhaustive struct"@)
            } else {
                s
            },
            c@,
        ),
        SynNode::Enum(a, c) => nodes_walk(
            if non_exhaustive_attr(a@) {
                report(s, ViolationKind::NonExhaustiveMatch, Severity::Low, "Non-exhaustive enum"@)
            } else {
                s
            },
            c@,
        ),
        SynNode::Other(c) => nodes_walk(s, c@),
    }
}

/// The walk state after visiting the nodes `ns` in order from `s`.
pub open spec fn nodes_walk(s: WalkState, ns: Seq<SynNode>) -> WalkState
    decreases ns,
{
    if ns.len() == 0 {
        s
    } else {
        node_walk(nodes_walk(s, ns.drop_last()), ns.last())
    }
}

/// The number of nodes in `n`.
pub open spec fn node_count(n: SynNode) -> nat
    decreases n,
{
    match n {
        SynNode::ItemFn(_, c) => 1 + nodes_count(c@),
        SynNode::Unsafe(c) => 1 + nodes_count(c@),
        SynNode::Call(_, c) => 1 + nodes_count(c@),
        SynNode::MethodCall(_, c) => 1 + nodes_count(c@),
        SynNode::Loop(c) => 1 + nodes_count(c@),
        SynNode::While(c) => 1 + nodes_count(c@),
        SynNode::ForLoop(c) => 1 + nodes_count(c@),
        SynNode::Match(c) => 1 + nodes_count(c@),
        SynNode::Binary(_, _, c) => 1 + nodes_count(c@),
        SynNode::Index(c) => 1 + nodes_count(c@),
        SynNode::Macro(_) => 1,
        SynNode::Struct(_, c) => 1 + nodes_count(c@),
        SynNode::Enum(_, c) => 1 + nodes_count(c@),
        SynNode::Other(c) => 1 + nodes_count(c@),
    }
}

/// The number of nodes in the trees `ns`.
pub open spec fn nodes_count(ns: Seq<SynNode>) -> nat
    decreases ns,
{
    if ns.len() == 0 {
        0
    } else {
        nodes_count(ns.drop_last()) + node_count(ns.last())
    }
}

/// Every count of `v`, and its `unsafe` depth, is at most `m`.
pub open spec fn counts_below(v: SyntaxVisitor, m: nat) -> bool {
    &&& v.stats.functions <= m
    &&& v.stats.unsafe_blocks <= m
    &&& v.stats.unwrap_calls <= m
    &&& v.stats.loops <= m
    &&& v.stats.match_expressions <= m
    &&& v.stats.async_functions <= m
    &&& v.stats.generic_functions <= m
    &&& v.stats.public_functions <= m
    &&& v.unsafe_depth <= m
}

proof fn lemma_records_appended(
    b: Seq<SyntaxViolation>,
    a: Seq<SyntaxViolation>,
    added: Seq<Record>,
)
    requires
        appended(b, a, added),
    ensures
        records_of(a) == records_of(b) + added,
{
    assert forall|i: int| 0 <= i < a.len() implies #[trigger] records_of(a)[i] == (records_of(b) + added)[i] by {
        if i < b.len() {
            assert(a.take(b.len() as int)[i] == b[i]);
        } else {
            assert(a.skip(b.len() as int)[i - b.len()] == a[i]);
        }
    }
    assert(records_of(a) =~= records_of(b) + added);
}

proof fn lemma_nodes_prefix(ns: Seq<SynNode>, i: int)
    requires
        0 <= i <= ns.len(),
    ensures
        nodes_count(ns.take(i)) <= nodes_count(ns),
    decreases ns.len() - i,
{
    if i < ns.len() {
        lemma_nodes_prefix(ns.drop_last(), i);
        assert(ns.drop_last().take(i) =~= ns.take(i));
    } else {
        assert(ns.take(i) =~= ns);
    }
}

/// The identifiers among `attrs`.
fn single_idents(attrs: &Vec<Option<String>>) -> (r: Vec<String>)
    ensures
        has_non_exhaustive(r@) == non_exhaustive_attr(attrs@),
{
    let mut r: Vec<String> = Vec::new();
    let mut i: usize = 0;
    while i < attrs.len()
        invariant
            i <= attrs@.len(),
            has_non_exhaustive(r@) == (exists|j: int| 0 <= j < i && is_ident(#[trigger] attrs@[j], "non_exhaustive"@)),
        decreases attrs@.len() - i,
    {
        let ghost before = r@;
        match &attrs[i] {
            Some(a) => {
                r.push(a.clone());
                proof {
                    assert(r@ =~= before.push(r@.last()));
                    if has_non_exhaustive(r@) {
                        let k = choose|k: int| 0 <= k < r@.len() && (#[trigger] r@[k])@ == "non_exhaustive"@;
                        if k < before.len() {
                            assert(before[k] == r@[k]);
                        } else {
                            assert(is_ident(attrs@[i as int], "non_exhaustive"@));
                        }
                    }
                    if has_non_exhaustive(before) {
                        let k = choose|k: int| 0 <= k < before.len() && (#[trigger] before[k])@ == "non_exhaustive"@;
                        assert(r@[k] == before[k]);
                    }
                    if is_ident(attrs@[i as int], "non_exhaustive"@) {
                        assert(r@[before.len() as int]@ == "non_exhaustive"@);
                    }
                }
            },
            None => {},
        }
        i = i + 1;
    }
    r
}

/// Visits `n` and all below it, in order.
fn walk_node(v: &mut SyntaxVisitor, n: &SynNode, Ghost(m): Ghost<nat>)
    requires
        counts_below(*old(v), m),
        m + node_count(*n) <= usize::MAX,
    ensures
        walk_state(*final(v)) == node_walk(walk_state(*old(v)), *n),
        counts_below(*final(v), m + node_count(*n)),
        final(v).dim == old(v).dim,
        final(v).violation_vectors == old(v).violation_vectors,
        final(v).current_function == old(v).current_function,
        final(v).unsafe_depth == old(v).unsafe_depth,
    decreases n,
{
    let ghost s = walk_state(*v);
    let ghost v0 = *v;
    match n {
        SynNode::ItemFn(h, c) => {
            let is_generic = h.generic_params > 0;
            let is_public = match h.vis {
                VisKind::Public => true,
                _ => false,
            };
            let prev = v.enter_item_fn(h.name.clone(), h.is_async, is_generic, is_public);
            walk_nodes(v, c, Ghost(m + 1));
            v.leave_item_fn(prev);
        },
        SynNode::Unsafe(c) => {
            v.enter_expr_unsafe();
            proof {
                lemma_records_appended(v0.violations@, v.violations@, seq![(
                    ViolationKind::UnsafeBlock,
                    Severity::Critical,
                    location_of(v0.current_function),
                    "Unsafe block (depth "@ + decimal_chars((v0.unsafe_depth + 1) as nat) + ")"@,
                )]);
            }
            walk_nodes(v, c, Ghost(m + 1));
            v.leave_expr_unsafe();
        },
        SynNode::Call(callee, c) => {
            match callee {
                Some(f) => v.visit_expr_call(Some(f.as_str())),
                None => v.visit_expr_call(None),
            }
            proof {
                if callee is Some && panicking_name(callee->0@) {
                    lemma_records_appended(v0.violations@, v.violations@, seq![(
                        ViolationKind::UnwrapExpect,
                        Severity::High,
                        location_of(v0.current_function),
                        "Use of "@ + callee->0@ + "() can panic"@,
                    )]);
                }
            }
            walk_nodes(v, c, Ghost(m + 1));
        },
        SynNode::MethodCall(name, c) => {
            v.visit_expr_method_call(name.as_str());
            proof {
                if panicking_name(name@) {
                    lemma_records_appended(v0.violations@, v.violations@, seq![(
                        ViolationKind::UnwrapExpect,
                        Severity::High,
                        location_of(v0.current_function),
                        "Use of "@ + name@ + "() can panic"@,
                    )]);
                }
            }
            walk_nodes(v, c, Ghost(m + 1));
        },
        SynNode::Loop(c) => {
            v.visit_expr_loop();
            proof {
                lemma_records_appended(v0.violations@, v.violations@, seq![(
                    ViolationKind::InfiniteLoop,
                    Severity::Medium,
                    location_of(v0.current_function),
                    "Unconditional loop"@,
                )]);
            }
            walk_nodes(v, c, Ghost(m + 1));
        },
        SynNode::While(c) => {
            v.visit_expr_while();
            walk_nodes(v, c, Ghost(m + 1));
        },
        SynNode::ForLoop(c) => {
            v.visit_expr_for_loop();
            walk_nodes(v, c, Ghost(m + 1));
        },
        SynNode::Match(c) => {
            v.visit_expr_match();
            walk_nodes(v, c, Ghost(m + 1));
        },
        SynNode::Binary(op, digits, c) => {
            let div_or_rem = match op {
                BinOpShape::Div => true,
                BinOpShape::Rem => true,
                _ => false,
            };
            match digits {
                Some(d) => v.visit_expr_binary(div_or_rem, Some(d.as_str())),
                None => v.visit_expr_binary(div_or_rem, None),
            }
            proof {
                if divides_by_zero(*op, *digits) {
                    lemma_records_appended(v0.violations@, v.violations@, seq![(
                        ViolationKind::DivisionByZero,
                        Severity::Critical,
                        location_of(v0.current_function),
                        "Division by zero literal"@,
                    )]);
                }
            }
            walk_nodes(v, c, Ghost(m + 1));
        },
        SynNode::Index(c) => {
            v.visit_expr_index();
            proof {
                lemma_records_appended(v0.violations@, v.violations@, seq![(
                    ViolationKind::ArrayIndexOutOfBounds,
                    Severity::Medium,
                    location_of(v0.current_function),
                    "Array indexing — bounds not statically verified"@,
                )]);
            }
            walk_nodes(v, c, Ghost(m + 1));
        },
        SynNode::Macro(t) => {
            v.visit_macro(t.as_str());
            proof {
                lemma_records_appended(
                    v0.violations@,
                    v.violations@,
                    macro_findings(lowercase_of(t@), location_of(v0.current_function)),
                );
            }
        },
        SynNode::Struct(a, c) => {
            let idents = single_idents(a);
            v.visit_item_struct(&idents);
            proof {
                if non_exhaustive_attr(a@) {
                    lemma_records_appended(v0.violations@, v.violations@, seq![(
                        ViolationKind::NonExhaustiveMatch,
                        Severity::Low,
                        location_of(v0.current_function),
                        "Non-exhaustive struct"@,
                    )]);
                }
            }
            walk_nodes(v, c, Ghost(m + 1));
        },
        SynNode::Enum(a, c) => {
            let idents = single_idents(a);
            v.visit_item_enum(&idents);
            proof {
                if non_exhaustive_attr(a@) {
                    lemma_records_appended(v0.violations@, v.violations@, seq![(
                        ViolationKind::NonExhaustiveMatch,
                        Severity::Low,
                        location_of(v0.current_function),
                        "Non-exhaustive enum"@,
                    )]);
                }
            }
            walk_nodes(v, c, Ghost(m + 1));
        },
        SynNode::Other(c) => {
            walk_nodes(v, c, Ghost(m));
        },
    }
}

/// Visits the trees `ns` in order.
fn walk_nodes(v: &mut SyntaxVisitor, ns: &Vec<SynNode>, Ghost(m): Ghost<nat>)
    requires
        counts_below(*old(v), m),
        m + nodes_count(ns@) <= usize::MAX,
    ensures
        walk_state(*final(v)) == nodes_walk(walk_state(*old(v)), ns@),
        counts_below(*final(v), m + nodes_count(ns@)),
        final(v).dim == old(v).dim,
        final(v).violation_vectors == old(v).violation_vectors,
        final(v).current_function == old(v).current_function,
        final(v).unsafe_depth == old(v).unsafe_depth,
    decreases ns,
{
    let ghost s0 = walk_state(*v);
    let ghost v0 = *v;
    let mut i: usize = 0;
    assert(ns@.take(0) =~= Seq::<SynNode>::empty());
    while i < ns.len()
        invariant
            i <= ns@.len(),
            m + nodes_count(ns@) <= usize::MAX,
            walk_state(*v) == nodes_walk(s0, ns@.take(i as int)),
            counts_below(*v, m + nodes_count(ns@.take(i as int))),
            v.dim == v0.dim,
            v.violation_vectors == v0.violation_vectors,
            v.current_function == v0.current_function,
            v.unsafe_depth == v0.unsafe_depth,
        decreases ns@.len() - i,
    {
        proof {
            lemma_nodes_prefix(ns@, i + 1);
            assert(ns@.take(i + 1).drop_last() =~= ns@.take(i as int));
            assert(ns@.take(i + 1).last() == ns@[i as int]);
        }
        walk_node(v, &ns[i], Ghost(m + nodes_count(ns@.take(i as int))));
        i = i + 1;
    }
    assert(ns@.take(ns@.len() as int) =~= ns@);
}

#[verifier::external_type_specification]
#[verifier::external_body]
pub struct ExSynMacro(syn::Macro);

#[verifier::external_type_specification]
#[verifier::external_body]
pub struct ExSynVisibility(syn::Visibility);

#[verifier::external_type_specification]
#[verifier::external_body]
pub struct ExSynLocalInit(syn::LocalInit);

#[verifier::external_type_specification]
#[verifier::external_body]
pub struct ExSynExprCall(syn::ExprCall);

#[verifier::external_type_specification]
#[verifier::external_body]
pub struct ExSynExprMethodCall(syn::ExprMethodCall);

#[verifier::external_type_specification]
#[verifier::external_body]
pub struct ExSynItemEnum(syn::ItemEnum);

#[verifier::external_type_specification]
#[verifier::external_body]
pub struct ExSynExprIf(syn::ExprIf);

#[verifier::external_type_specification]
#[verifier::external_body]
pub struct ExSynImplItem(syn::ImplItem);

#[verifier::external_type_specification]
#[verifier::external_body]
pub struct ExSynTraitItem(syn::TraitItem);

/// Converts a macro invocation to its token text, as `quote` prints it.
#[verifier::external_body]
fn macro_text(m: &syn::Macro) -> String {
    quote::ToTokens::to_token_stream(m).to_string()
}

/// Converts a visibility, one variant for one.
#[verifier::external_body]
fn vis_kind(v: &syn::Visibility) -> VisKind {
    match v {
        syn::Visibility::Public(_) => VisKind::Public,
        syn::Visibility::Restricted(_) => VisKind::Restricted,
        syn::Visibility::Inherited => VisKind::Inherited,
    }
}

/// Converts a block: a group of its statements.
#[verifier::external_body]
fn block_node(b: &syn::Block) -> SynNode {
    SynNode::Other(b.stmts.iter().map(stmt_node).collect())
}

/// Converts a statement: a `let` to its initializer (the pattern and type
/// are not converted), an item, an expression, or a macro.
#[verifier::external_body]
fn stmt_node(s: &syn::Stmt) -> SynNode {
    match s {
        syn::Stmt::Local(l) => SynNode::Other(l.init.iter().map(local_init_node).collect()),
        syn::Stmt::Item(i) => item_node(i),
        syn::Stmt::Expr(e, _) => expr_node(e),
        syn::Stmt::Macro(m) => SynNode::Macro(macro_text(&m.mac)),
    }
}

/// Converts a `let` initializer: its expression, then its `else` branch.
#[verifier::external_body]
fn local_init_node(i: &syn::LocalInit) -> SynNode {
    let diverge = SynNode::Other(i.diverge.iter().map(|d| expr_node(&d.1)).collect());
    SynNode::Other(vec![expr_node(&i.expr), diverge])
}

/// Converts an optional expression: a group of none or one.
#[verifier::external_body]
fn opt_node(e: &Option<Box<syn::Expr>>) -> SynNode {
    SynNode::Other(e.iter().map(|x| expr_node(x)).collect())
}

/// Converts a callee to the last segment of its path, when it is a path.
#[verifier::external_body]
fn callee_name(f: &syn::Expr) -> Option<String> {
    match f {
        syn::Expr::Path(p) => p.path.segments.last().map(|s| s.ident.to_string()),
        _ => None,
    }
}

/// Converts an operand to its base-10 digits, when it is an integer literal.
#[verifier::external_body]
fn int_digits(e: &syn::Expr) -> Option<String> {
    match e {
        syn::Expr::Lit(syn::ExprLit { lit: syn::Lit::Int(l), .. }) => Some(l.base10_digits().to_string()),
        _ => None,
    }
}

/// Converts a call: the callee, then the arguments.
#[verifier::external_body]
fn call_node(c: &syn::ExprCall) -> SynNode {
    let args = SynNode::Other(c.args.iter().map(expr_node).collect());
    SynNode::Call(callee_name(&c.func), vec![expr_node(&c.func), args])
}

/// Converts a method call: the receiver, then the arguments (the turbofish
/// is not converted).
#[verifier::external_body]
fn method_node(m: &syn::ExprMethodCall) -> SynNode {
    let args = SynNode::Other(m.args.iter().map(expr_node).collect());
    SynNode::MethodCall(m.method.to_string(), vec![expr_node(&m.receiver), args])
}

/// Converts an expression; the kinds not named here go on to `expr_node_b`.
#[verifier::external_body]
fn expr_node(e: &syn::Expr) -> SynNode {
    match e {
        syn::Expr::Unsafe(u) => SynNode::Unsafe(vec![block_node(&u.block)]),
        syn::Expr::Call(c) => call_node(c),
        syn::Expr::MethodCall(m) => method_node(m),
        syn::Expr::Loop(l) => SynNode::Loop(vec![block_node(&l.body)]),
        syn::Expr::While(w) => SynNode::While(vec![expr_node(&w.cond), block_node(&w.body)]),
        syn::Expr::ForLoop(f) => SynNode::ForLoop(vec![expr_node(&f.expr), block_node(&f.body)]),
        _ => expr_node_b(e),
    }
}

/// Converts `match`, binary, index and macro expressions; others go on to
/// `expr_node_c`.
#[verifier::external_body]
fn expr_node_b(e: &syn::Expr) -> SynNode {
    match e {
        syn::Expr::Match(m) => SynNode::Match(vec![expr_node(&m.expr), SynNode::Other(m.arms.iter().map(arm_node).collect())]),
        syn::Expr::Binary(b) => {
            SynNode::Binary(bin_op_shape(&b.op), int_digits(&b.right), vec![expr_node(&b.left), expr_node(&b.right)])
        },
        syn::Expr::Index(i) => SynNode::Index(vec![expr_node(&i.expr), expr_node(&i.index)]),
        syn::Expr::Macro(m) => SynNode::Macro(macro_text(&m.mac)),
        _ => expr_node_c(e),
    }
}

/// Converts an `if`: its condition, its then-branch, then its else-branch.
#[verifier::external_body]
fn if_node(i: &syn::ExprIf) -> SynNode {
    let else_branch = SynNode::Other(i.else_branch.iter().map(|x| expr_node(&x.1)).collect());
    SynNode::Other(vec![expr_node(&i.cond), block_node(&i.then_branch), else_branch])
}

/// Converts `if`, block-like, closure and assignment expressions
/// as groups of their parts; others go on to `expr_node_d`.
#[verifier::external_body]
fn expr_node_c(e: &syn::Expr) -> SynNode {
    match e {
        syn::Expr::If(i) => if_node(i),
        syn::Expr::Block(b) => block_node(&b.block),
        syn::Expr::Async(a) => block_node(&a.block),
        syn::Expr::Const(c) => block_node(&c.block),
        syn::Expr::TryBlock(t) => block_node(&t.block),
        syn::Expr::Closure(c) => SynNode::Other(vec![expr_node(&c.body)]),
        syn::Expr::Assign(a) => SynNode::Other(vec![expr_node(&a.left), expr_node(&a.right)]),
        _ => expr_node_d(e),
    }
}

/// Converts array, tuple, jump, cast and field expressions as groups of
/// their operands; others go on to `expr_node_e`.
#[verifier::external_body]
fn expr_node_d(e: &syn::Expr) -> SynNode {
    match e {
        syn::Expr::Array(a) => SynNode::Other(a.elems.iter().map(expr_node).collect()),
        syn::Expr::Tuple(t) => SynNode::Other(t.elems.iter().map(expr_node).collect()),
        syn::Expr::Break(b) => opt_node(&b.expr),
        syn::Expr::Return(r) => opt_node(&r.expr),
        syn::Expr::Yield(y) => opt_node(&y.expr),
        syn::Expr::Cast(c) => SynNode::Other(vec![expr_node(&c.expr)]),
        syn::Expr::Field(f) => SynNode::Other(vec![expr_node(&f.base)]),
        _ => expr_node_e(e),
    }
}

/// Converts `.await`, grouped, `let`, parenthesized and reference
/// expressions as groups of their operand; others go on to `expr_node_f`.
#[verifier::external_body]
fn expr_node_e(e: &syn::Expr) -> SynNode {
    match e {
        syn::Expr::Await(a) => SynNode::Other(vec![expr_node(&a.base)]),
        syn::Expr::Group(g) => SynNode::Other(vec![expr_node(&g.expr)]),
        syn::Expr::Let(l) => SynNode::Other(vec![expr_node(&l.expr)]),
        syn::Expr::Paren(p) => SynNode::Other(vec![expr_node(&p.expr)]),
        syn::Expr::Reference(r) => SynNode::Other(vec![expr_node(&r.expr)]),
        _ => expr_node_f(e),
    }
}

/// Converts unary, `?`, raw-address and range expressions as groups of
/// their operands; others go on to `expr_node_g`.
#[verifier::external_body]
fn expr_node_f(e: &syn::Expr) -> SynNode {
    match e {
        syn::Expr::Unary(u) => SynNode::Other(vec![expr_node(&u.expr)]),
        syn::Expr::Try(t) => SynNode::Other(vec![expr_node(&t.expr)]),
        syn::Expr::RawAddr(r) => SynNode::Other(vec![expr_node(&r.expr)]),
        syn::Expr::Range(r) => SynNode::Other(vec![opt_node(&r.start), opt_node(&r.end)]),
        _ => expr_node_g(e),
    }
}

/// Converts repeat and struct expressions as groups of their operands;
/// literals, paths and the rest are empty groups.
#[verifier::external_body]
fn expr_node_g(e: &syn::Expr) -> SynNode {
    match e {
        syn::Expr::Repeat(r) => SynNode::Other(vec![expr_node(&r.expr), expr_node(&r.len)]),
        syn::Expr::Struct(s) => SynNode::Other(vec![SynNode::Other(s.fields.iter().map(|f| expr_node(&f.expr)).collect()), opt_node(&s.rest)]),
        _ => SynNode::Other(vec![]),
    }
}

/// Converts a `match` arm: its guard, then its body (the pattern is not
/// converted).
#[verifier::external_body]
fn arm_node(a: &syn::Arm) -> SynNode {
    let guard = SynNode::Other(a.guard.iter().map(|g| expr_node(&g.1)).collect());
    SynNode::Other(vec![guard, expr_node(&a.body)])
}

/// Converts a function item: its name, `async`, number of generic
/// parameters and visibility, then its body (the rest of the signature is
/// not converted).
#[verifier::external_body]
fn fn_node(f: &syn::ItemFn) -> SynNode {
    let head = FnHead {
        name: f.sig.ident.to_string(),
        is_async: match f.sig.asyncness {
            Some(_) => true,
            None => false,
        },
        generic_params: f.sig.generics.params.len(),
        vis: vis_kind(&f.vis),
    };
    SynNode::ItemFn(head, vec![block_node(&f.block)])
}

/// Converts an enum item: its attributes' identifiers, then each variant's
/// discriminant (the variants' fields are not converted).
#[verifier::external_body]
fn enum_node(e: &syn::ItemEnum) -> SynNode {
    let attrs = e.attrs.iter().map(|a| a.path().get_ident().map(|i| i.to_string())).collect();
    SynNode::Enum(attrs, e.variants.iter().map(|v| SynNode::Other(v.discriminant.iter().map(|d| expr_node(&d.1)).collect())).collect())
}

/// Converts an item; kinds not named here go on to `item_node_b`.
#[verifier::external_body]
fn item_node(i: &syn::Item) -> SynNode {
    match i {
        syn::Item::Fn(f) => fn_node(f),
        syn::Item::Struct(s) => SynNode::Struct(s.attrs.iter().map(|a| a.path().get_ident().map(|i| i.to_string())).collect(), vec![]),
        syn::Item::Enum(e) => enum_node(e),
        syn::Item::Impl(m) => SynNode::Other(m.items.iter().map(impl_item_node).collect()),
        syn::Item::Trait(t) => SynNode::Other(t.items.iter().map(trait_item_node).collect()),
        _ => item_node_b(i),
    }
}

/// Converts constants, statics, inline modules and macro items; the other
/// items (which hold types only) are empty groups.
#[verifier::external_body]
fn item_node_b(i: &syn::Item) -> SynNode {
    match i {
        syn::Item::Const(c) => SynNode::Other(vec![expr_node(&c.expr)]),
        syn::Item::Static(s) => SynNode::Other(vec![expr_node(&s.expr)]),
        syn::Item::Mod(m) => SynNode::Other(m.content.iter().flat_map(|c| c.1.iter().map(item_node)).collect()),
        syn::Item::Macro(m) => SynNode::Macro(macro_text(&m.mac)),
        _ => SynNode::Other(vec![]),
    }
}

/// Converts an item of an `impl` block: a method to its body (methods are
/// not function items), a constant to its value, a macro.
#[verifier::external_body]
fn impl_item_node(i: &syn::ImplItem) -> SynNode {
    match i {
        syn::ImplItem::Fn(f) => block_node(&f.block),
        syn::ImplItem::Const(c) => SynNode::Other(vec![expr_node(&c.expr)]),
        syn::ImplItem::Macro(m) => SynNode::Macro(macro_text(&m.mac)),
        _ => SynNode::Other(vec![]),
    }
}

/// Converts an item of a trait: a method to its default body, a constant to
/// its default value, a macro.
#[verifier::external_body]
fn trait_item_node(i: &syn::TraitItem) -> SynNode {
    match i {
        syn::TraitItem::Fn(f) => SynNode::Other(f.default.iter().map(block_node).collect()),
        syn::TraitItem::Const(c) => SynNode::Other(c.default.iter().map(|d| expr_node(&d.1)).collect()),
        syn::TraitItem::Macro(m) => SynNode::Macro(macro_text(&m.mac)),
        _ => SynNode::Other(vec![]),
    }
}

/// What `syn::parse_file` makes of a source text, as the syntax layer's
/// tree of each top-level item in order, or the parse error's text.
pub uninterp spec fn rust_syntax_tree(source: Seq<char>) -> Result<Seq<SynNode>, Seq<char>>;

/// Calls `syn::parse_file` on `source` and converts each top-level item
/// (see `item_node`); a parse error comes back as its text. The contract
/// names the outcome: a function of `source` alone.
#[verifier::external_body]
pub(crate) fn parse_syntax_tree(source: &str) -> (r: Result<Vec<SynNode>, String>)
    ensures
        match r {
            Ok(ns) => rust_syntax_tree(source@) == Ok::<Seq<SynNode>, Seq<char>>(ns@),
            Err(e) => rust_syntax_tree(source@) == Err::<Seq<SynNode>, Seq<char>>(e@),
        },
{
    match syn::parse_file(source) {
        Ok(file) => Ok(file.items.iter().map(item_node).collect()),
        Err(e) => Err(e.to_string()),
    }
}

/// `budget` less the nodes of `n`, when they fit in it.
pub open spec fn room_after(count: nat, budget: usize) -> Option<usize> {
    if count <= budget {
        Some((budget - count) as usize)
    } else {
        None
    }
}

/// What is left of `budget` after the nodes of `n` (see `room_after`).
fn node_room(n: &SynNode, budget: usize) -> (r: Option<usize>)
    ensures
        r == room_after(node_count(*n), budget),
    decreases n,
{
    if budget == 0 {
        return None;
    }
    match n {
        SynNode::Macro(_) => Some(budget - 1),
        SynNode::ItemFn(_, c) => nodes_room(c, budget - 1),
        SynNode::Unsafe(c) => nodes_room(c, budget - 1),
        SynNode::Call(_, c) => nodes_room(c, budget - 1),
        SynNode::MethodCall(_, c) => nodes_room(c, budget - 1),
        SynNode::Loop(c) => nodes_room(c, budget - 1),
        SynNode::While(c) => nodes_room(c, budget - 1),
        SynNode::ForLoop(c) => nodes_room(c, budget - 1),
        SynNode::Match(c) => nodes_room(c, budget - 1),
        SynNode::Binary(_, _, c) => nodes_room(c, budget - 1),
        SynNode::Index(c) => nodes_room(c, budget - 1),
        SynNode::Struct(_, c) => nodes_room(c, budget - 1),
        SynNode::Enum(_, c) => nodes_room(c, budget - 1),
        SynNode::Other(c) => nodes_room(c, budget - 1),
    }
}

/// What is left of `budget` after the nodes of `ns` (see `room_after`).
fn nodes_room(ns: &Vec<SynNode>, budget: usize) -> (r: Option<usize>)
    ensures
        r == room_after(nodes_count(ns@), budget),
    decreases ns,
{
    let mut rem = budget;
    let mut i: usize = 0;
    assert(ns@.take(0) =~= Seq::<SynNode>::empty());
    while i < ns.len()
        invariant
            i <= ns@.len(),
            nodes_count(ns@.take(i as int)) <= budget,
            rem == budget - nodes_count(ns@.take(i as int)),
        decreases ns@.len() - i,
    {
        proof {
            lemma_nodes_prefix(ns@, i + 1);
            assert(ns@.take(i + 1).drop_last() =~= ns@.take(i as int));
            assert(ns@.take(i + 1).last() == ns@[i as int]);
        }
        match node_room(&ns[i], rem) {
            None => return None,
            Some(r) => {
                rem = r;
            },
        }
        i = i + 1;
    }
    assert(ns@.take(ns@.len() as int) =~= ns@);
    Some(rem)
}

/// The state a walk starts from: nothing recorded, nothing counted, no
/// enclosing function, no `unsafe` block.
pub open spec fn start_state() -> WalkState {
    (
        Seq::empty(),
        CodeStats {
            functions: 0,
            unsafe_blocks: 0,
            unwrap_calls: 0,
            loops: 0,
            match_expressions: 0,
            async_functions: 0,
            generic_functions: 0,
            public_functions: 0,
        },
        None,
        0,
    )
}

/// Walks the trees `ns` with `v`, which has visited nothing yet; `false`,
/// with `v` untouched, when the trees have more nodes than a count can hold.
pub fn walk_file(v: &mut SyntaxVisitor, ns: &Vec<SynNode>) -> (done: bool)
    requires
        old(v).is_fresh(),
    ensures
        done == (nodes_count(ns@) <= usize::MAX),
        done ==> walk_state(*final(v)) == nodes_walk(start_state(), ns@),
        !done ==> *final(v) == *old(v),
        final(v).dim == old(v).dim,
        final(v).violation_vectors == old(v).violation_vectors,
{
    match nodes_room(ns, usize::MAX) {
        None => false,
        Some(_) => {
            assert(walk_state(*v).0 =~= Seq::<Record>::empty());
            assert(walk_state(*v) == start_state());
            walk_nodes(v, ns, Ghost(0));
            true
        },
    }
}

} // verus!
