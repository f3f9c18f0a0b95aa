//! Rust source text into the shapes the chaos and semantic layers read:
//! `syn::parse_file` parses the text, and the top-level functions of the
//! tree are converted one for one into `FnShape` and `FnItem` values.

use vstd::prelude::*;
use crate::layers::chaos_layer::{
    is_chaos_analysis, mutations_fit, total_mutations, ArmShape, BinOpShape, ChaosAnalysis, ChaosMutationLayer,
    ExprShape, FnShape, StmtShape, attack_vectors_ok,
};
use crate::layers::semantic_layer::{
    bundle_limit, fn_fits, fns_fit, is_semantic_analysis, ExprKind, FnItem, SemStmt, SemanticAnalysis,
    SemanticLayer, TypeShape,
};

verus! {

#[verifier::external_type_specification]
#[verifier::external_body]
pub struct ExSynFile(syn::File);

#[verifier::external_type_specification]
#[verifier::external_body]
pub struct ExSynItem(syn::Item);

#[verifier::external_type_specification]
#[verifier::external_body]
pub struct ExSynItemFn(syn::ItemFn);

#[verifier::external_type_specification]
#[verifier::external_body]
pub struct ExSynBlock(syn::Block);

#[verifier::external_type_specification]
#[verifier::external_body]
pub struct ExSynStmt(syn::Stmt);

#[verifier::external_type_specification]
#[verifier::external_body]
pub struct ExSynExpr(syn::Expr);

#[verifier::external_type_specification]
#[verifier::external_body]
pub struct ExSynArm(syn::Arm);

#[verifier::external_type_specification]
#[verifier::external_body]
pub struct ExSynBinOp(syn::BinOp);

#[verifier::external_type_specification]
#[verifier::external_body]
pub struct ExSynType(syn::Type);

#[verifier::external_type_specification]
#[verifier::external_body]
pub struct ExSynFnArg(syn::FnArg);

#[verifier::external_type_specification]
#[verifier::external_body]
pub struct ExSynGenericParam(syn::GenericParam);

/// Converts a `syn` binary operator: the five arithmetic operators by name,
/// any other as `Other`.
#[verifier::external_body]
pub(crate) fn bin_op_shape(op: &syn::BinOp) -> BinOpShape {
    match op {
        syn::BinOp::Add(_) => BinOpShape::Add,
        syn::BinOp::Sub(_) => BinOpShape::Sub,
        syn::BinOp::Mul(_) => BinOpShape::Mul,
        syn::BinOp::Div(_) => BinOpShape::Div,
        syn::BinOp::Rem(_) => BinOpShape::Rem,
        _ => BinOpShape::Other,
    }
}

/// Converts a `syn` match arm: its body's block when the body is a block
/// expression.
#[verifier::external_body]
fn arm_shape(a: &syn::Arm) -> ArmShape {
    match &*a.body {
        syn::Expr::Block(b) => ArmShape::Block(block_shape(&b.block)),
        _ => ArmShape::Other,
    }
}

/// Converts a `syn` expression to the shape the chaos layer reads: binary
/// operators, the then-branch of `if`, loop bodies and match arms.
#[verifier::external_body]
fn expr_shape(e: &syn::Expr) -> ExprShape {
    match e {
        syn::Expr::Binary(b) => ExprShape::Binary(bin_op_shape(&b.op)),
        syn::Expr::If(i) => ExprShape::If(block_shape(&i.then_branch)),
        syn::Expr::Loop(l) => ExprShape::Loop(block_shape(&l.body)),
        syn::Expr::While(w) => ExprShape::While(block_shape(&w.body)),
        syn::Expr::ForLoop(f) => ExprShape::ForLoop(block_shape(&f.body)),
        syn::Expr::Match(m) => ExprShape::Match(m.arms.iter().map(arm_shape).collect()),
        _ => ExprShape::Other,
    }
}

/// Converts the statements of a `syn` block, one shape per statement.
#[verifier::external_body]
fn block_shape(b: &syn::Block) -> Vec<StmtShape> {
    b.stmts.iter().map(|s| match s {
        syn::Stmt::Expr(e, _) => StmtShape::Expr(expr_shape(e)),
        syn::Stmt::Local(l) => StmtShape::Local(l.init.as_ref().map(|i| expr_shape(&i.expr))),
        _ => StmtShape::Other,
    }).collect()
}

/// Converts a `syn` type: paths by their segments' identifiers, references,
/// tuples, arrays and slices by their elements, any other as `Other`.
#[verifier::external_body]
fn type_shape(t: &syn::Type) -> TypeShape {
    match t {
        syn::Type::Path(p) => TypeShape::Path(p.path.segments.iter().map(|s| s.ident.to_string()).collect()),
        syn::Type::Reference(r) => TypeShape::Reference(Box::new(type_shape(&r.elem))),
        syn::Type::Tuple(tu) => TypeShape::Tuple(tu.elems.iter().map(type_shape).collect()),
        syn::Type::Array(a) => TypeShape::Array(Box::new(type_shape(&a.elem))),
        syn::Type::Slice(s) => TypeShape::Slice(Box::new(type_shape(&s.elem))),
        _ => TypeShape::Other,
    }
}

/// Converts a `syn` expression to its kind, with a method call's name.
#[verifier::external_body]
fn expr_kind(e: &syn::Expr) -> ExprKind {
    match e {
        syn::Expr::Call(_) => ExprKind::Call,
        syn::Expr::MethodCall(m) => ExprKind::MethodCall(m.method.to_string()),
        syn::Expr::Binary(_) => ExprKind::Binary,
        syn::Expr::If(_) => ExprKind::If,
        syn::Expr::Match(_) => ExprKind::Match,
        syn::Expr::Loop(_) => ExprKind::Loop,
        syn::Expr::While(_) => ExprKind::While,
        syn::Expr::ForLoop(_) => ExprKind::ForLoop,
        syn::Expr::Return(_) => ExprKind::Return,
        syn::Expr::Await(_) => ExprKind::Await,
        syn::Expr::Async(_) => ExprKind::Async,
        _ => ExprKind::Other,
    }
}

/// Converts a `syn` statement for the semantic layer.
#[verifier::external_body]
fn sem_stmt(s: &syn::Stmt) -> SemStmt {
    match s {
        syn::Stmt::Expr(e, _) => SemStmt::Expr(expr_kind(e)),
        syn::Stmt::Local(l) => SemStmt::Local(l.init.as_ref().map(|i| expr_kind(&i.expr))),
        _ => SemStmt::Other,
    }
}

/// Converts a `syn` parameter: a typed one to its type, the receiver to `None`.
#[verifier::external_body]
fn input_shape(a: &syn::FnArg) -> Option<TypeShape> {
    match a {
        syn::FnArg::Typed(pt) => Some(type_shape(&pt.ty)),
        syn::FnArg::Receiver(_) => None,
    }
}

/// Converts a `syn` generic parameter to its identifier.
#[verifier::external_body]
fn generic_name(p: &syn::GenericParam) -> String {
    match p {
        syn::GenericParam::Type(t) => t.ident.to_string(),
        syn::GenericParam::Lifetime(l) => l.lifetime.ident.to_string(),
        syn::GenericParam::Const(c) => c.ident.to_string(),
    }
}

/// Converts a `syn` function item for the semantic layer: its name, its
/// parameters, its return type, its generics, its attributes' single-
/// identifier paths and its statements.
#[verifier::external_body]
fn fn_item(f: &syn::ItemFn) -> FnItem {
    FnItem {
        name: f.sig.ident.to_string(),
        inputs: f.sig.inputs.iter().map(input_shape).collect(),
        output: match &f.sig.output {
            syn::ReturnType::Type(_, t) => Some(type_shape(t)),
            syn::ReturnType::Default => None,
        },
        generics: f.sig.generics.params.iter().map(generic_name).collect(),
        attrs: f.attrs.iter().map(|a| a.path().get_ident().map(|i| i.to_string())).collect(),
        body: f.block.stmts.iter().map(sem_stmt).collect(),
    }
}

/// A top-level item of a parsed file as the layers read it: a function, as
/// the chaos layer's shape and the semantic layer's item, or anything else.
pub enum TopItem {
    Fn(FnShape, FnItem),
    Other,
}

/// Converts a `syn` top-level item: a function item to its shape and item,
/// any other item to `Other`.
#[verifier::external_body]
fn top_item(i: &syn::Item) -> TopItem {
    match i {
        syn::Item::Fn(f) => TopItem::Fn(FnShape { name: f.sig.ident.to_string(), body: block_shape(&f.block) }, fn_item(f)),
        _ => TopItem::Other,
    }
}

/// What `syn::parse_file` makes of a source text, as its top-level items in
/// order, or the parse error's text.
pub uninterp spec fn rust_file_items(source: Seq<char>) -> Result<Seq<TopItem>, Seq<char>>;

/// Calls `syn::parse_file` on `source` and converts each top-level item of
/// the tree (see `top_item`); a parse error comes back as its text. The
/// contract names the outcome: a function of `source` alone.
#[verifier::external_body]
fn parse_source_items(source: &str) -> (r: Result<Vec<TopItem>, String>)
    ensures
        match r {
            Ok(items) => rust_file_items(source@) == Ok::<Seq<TopItem>, Seq<char>>(items@),
            Err(e) => rust_file_items(source@) == Err::<Seq<TopItem>, Seq<char>>(e@),
        },
{
    match syn::parse_file(source) {
        Ok(file) => Ok(file.items.iter().map(top_item).collect()),
        Err(e) => Err(e.to_string()),
    }
}

/// The chaos shapes of the function items among `items`, in order.
pub open spec fn fn_shapes_of(items: Seq<TopItem>) -> Seq<FnShape>
    decreases items.len(),
{
    if items.len() == 0 {
        Seq::empty()
    } else {
        (match items[0] {
            TopItem::Fn(s, _) => seq![s],
            TopItem::Other => Seq::empty(),
        }) + fn_shapes_of(items.drop_first())
    }
}

/// The semantic items of the function items among `items`, in order.
pub open spec fn fn_items_of(items: Seq<TopItem>) -> Seq<FnItem>
    decreases items.len(),
{
    if items.len() == 0 {
        Seq::empty()
    } else {
        (match items[0] {
            TopItem::Fn(_, f) => seq![f],
            TopItem::Other => Seq::empty(),
        }) + fn_items_of(items.drop_first())
    }
}

/// The functions among the top-level items: both layers read functions only.
pub fn split_functions(items: Vec<TopItem>) -> (r: (Vec<FnShape>, Vec<FnItem>))
    ensures
        r.0@ == fn_shapes_of(items@),
        r.1@ == fn_items_of(items@),
{
    let ghost all = items@;
    let mut items = items;
    let mut shapes: Vec<FnShape> = Vec::new();
    let mut fns: Vec<FnItem> = Vec::new();
    while items.len() > 0
        invariant
            shapes@ + fn_shapes_of(items@) == fn_shapes_of(all),
            fns@ + fn_items_of(items@) == fn_items_of(all),
        decreases items@.len(),
    {
        let ghost before = items@;
        let ghost rest = items@.drop_first();
        let ghost s0 = shapes@;
        let ghost f0 = fns@;
        assert(fn_shapes_of(before) == (match before[0] {
            TopItem::Fn(s, _) => seq![s],
            TopItem::Other => Seq::empty(),
        }) + fn_shapes_of(rest));
        assert(fn_items_of(before) == (match before[0] {
            TopItem::Fn(_, f) => seq![f],
            TopItem::Other => Seq::empty(),
        }) + fn_items_of(rest));
        let it = items.remove(0);
        assert(items@ =~= rest);
        match it {
            TopItem::Fn(s, f) => {
                shapes.push(s);
                fns.push(f);
                assert(shapes@ + fn_shapes_of(rest) =~= s0 + fn_shapes_of(before));
                assert(fns@ + fn_items_of(rest) =~= f0 + fn_items_of(before));
            },
            TopItem::Other => {
                assert(s0 + fn_shapes_of(rest) =~= s0 + fn_shapes_of(before));
                assert(f0 + fn_items_of(rest) =~= f0 + fn_items_of(before));
            },
        }
    }
    assert(shapes@ =~= shapes@ + fn_shapes_of(items@));
    assert(fns@ =~= fns@ + fn_items_of(items@));
    (shapes, fns)
}

/// Parses `source` and runs the chaos and semantic layers on its top-level
/// functions. A parse error comes back as its text. `Ok(None)` when the
/// functions are beyond what the layers count: more mutation points than a
/// `usize` holds, or more parts than a bundle's 16-bit vote counters take.
pub fn analyze_source(chaos: &ChaosMutationLayer, semantic: &SemanticLayer, source: &str) -> (r: Result<
    Option<(ChaosAnalysis, SemanticAnalysis)>,
    String,
>)
    requires
        attack_vectors_ok(chaos.attack_vectors@, chaos.dim),
        semantic.dim <= usize::MAX - 63,
    ensures
        match rust_file_items(source@) {
            Err(e) => r matches Err(m) && m@ == e,
            Ok(items) => r matches Ok(o) && {
                let f = fn_shapes_of(items);
                let g = fn_items_of(items);
                (o is Some <==> (total_mutations(f) <= usize::MAX && g.len()
                <= bundle_limit() && forall|i: int| 0 <= i < g.len() ==> fn_fits(#[trigger] g[i]))) && (o matches Some(
                a,
            ) ==> is_chaos_analysis(*chaos, f, a.0) && is_semantic_analysis(semantic.dim, g, a.1))
            },
        },
{
    match parse_source_items(source) {
        Err(e) => Err(e),
        Ok(top) => {
            let (shapes, items) = split_functions(top);
            if !mutations_fit(&shapes) || !fns_fit(&items) {
                return Ok(None);
            }
            let c = chaos.analyze(&shapes);
            let s = semantic.analyze(&items);
            Ok(Some((c, s)))
        },
    }
}

} // verus!
