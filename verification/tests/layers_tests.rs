use fuga::engine::{violation_items, FugaError};
use fuga::layers::chaos_layer::{AttackKind, ChaosAnalysis, ChaosMutationLayer};
use fuga::layers::semantic_layer::{AnomalyKind, ExprKind, FnItem, SemStmt, SemanticAnalysis, SemanticLayer, TypeShape};
use fuga::layers::source::analyze_source;
use fuga::layers::syntax_layer::{Severity, SyntaxInvariantLayer, SyntaxVisitor, ViolationKind};

fn safety_score(v: &SyntaxVisitor) -> f64 {
    if v.violations.is_empty() {
        return 1.0;
    }
    let c = v.count_severity(Severity::Critical) as f64;
    let h = v.count_severity(Severity::High) as f64;
    let m = v.count_severity(Severity::Medium) as f64;
    let l = v.count_severity(Severity::Low) as f64;
    (1.0 - (c * 0.4 + h * 0.2 + m * 0.1 + l * 0.05)).max(0.0)
}

fn walk(code: &str) -> SyntaxVisitor {
    let layer = SyntaxInvariantLayer::new(10000);
    layer.analyze(code).unwrap().unwrap()
}

#[test]
fn test_syntax_layer_safe_code() {
    let v = walk("fn add(a: i32, b: i32) -> i32 { a + b }");
    let s = safety_score(&v);
    assert!(s > 0.8, "got {}", s);
}

#[test]
fn test_syntax_layer_unsafe_code() {
    let v = walk("fn f() { unsafe { let _ = *(0 as *const i32); } }");
    let s = safety_score(&v);
    assert!(s < 0.9, "got {}", s);
    assert!(v.violations.iter().any(|x| x.kind == ViolationKind::UnsafeBlock));
}

#[test]
fn test_syntax_layer_unwrap() {
    let v = walk("fn main() { let x: Option<i32> = Some(1); x.unwrap(); }");
    assert!(v.stats.unwrap_calls > 0);
    assert!(v.violations.iter().any(|x| x.kind == ViolationKind::UnwrapExpect));
}

#[test]
fn syntax_messages_and_locations() {
    let v = walk("fn g() { unsafe { unsafe { } } } fn h(x: u32) -> u32 { x / 0 }");
    assert_eq!(v.violations.len(), 3);
    assert_eq!(v.violations[0].message, "Unsafe block (depth 1)");
    assert_eq!(v.violations[1].message, "Unsafe block (depth 2)");
    assert_eq!(v.violations[1].location, "g");
    assert_eq!(v.violations[2].kind, ViolationKind::DivisionByZero);
    assert_eq!(v.violations[2].location, "h");
    assert_eq!(v.unsafe_depth, 0);
    assert_eq!(v.stats.functions, 2);
    assert_eq!(v.stats.unsafe_blocks, 2);
}

#[test]
fn syntax_top_level_and_macros() {
    let layer = SyntaxInvariantLayer::new(256);
    let mut v = layer.visitor();
    v.visit_macro("sqlx::query!(\"SELECT 1\")");
    assert_eq!(v.violations.len(), 1);
    assert_eq!(v.violations[0].kind, ViolationKind::SqlInjection);
    assert_eq!(v.violations[0].location, "top-level");
    v.visit_macro("Command::new(\"ls\") ; FORMAT!()");
    assert_eq!(v.violations.len(), 3);
    assert_eq!(v.violations[1].kind, ViolationKind::CommandInjection);
    assert_eq!(v.violations[2].kind, ViolationKind::FormatString);
    assert_eq!(v.violations[2].severity, Severity::Low);
    v.visit_item_struct(&vec!["derive".to_string(), "non_exhaustive".to_string()]);
    assert_eq!(v.violations[3].message, "Non-exhaustive struct");
    v.visit_item_enum(&vec!["derive".to_string()]);
    assert_eq!(v.violations.len(), 4);
    v.visit_expr_call(Some("expect"));
    assert_eq!(v.violations[4].message, "Use of expect() can panic");
    v.visit_expr_call(None);
    v.visit_expr_binary(true, Some("00"));
    assert_eq!(v.violations.len(), 5);
    assert_eq!(v.count_severity(Severity::High), 3);
}

#[test]
fn syntax_violation_vector_is_bundle() {
    let layer = SyntaxInvariantLayer::new(256);
    assert_eq!(layer.violation_vectors.len(), 18);
    let again = SyntaxInvariantLayer::new(256);
    for k in 0..18 {
        assert_eq!(layer.violation_vectors[k].words, again.violation_vectors[k].words);
    }
    let mut v = layer.visitor();
    v.visit_expr_loop();
    let one = v.build_violation_vector();
    assert_eq!(one.words, layer.violation_vectors[ViolationKind::InfiniteLoop.index()].words);
    let empty = layer.visitor().build_violation_vector();
    assert_eq!(empty.dim, 256);
}

#[test]
fn violation_items_flatten() {
    let v = walk("fn m() { loop {} }");
    let items = violation_items(&v.violations);
    assert_eq!(items.len(), 1);
    assert_eq!(items[0].severity, "Medium");
    assert_eq!(items[0].kind, "InfiniteLoop");
    assert_eq!(items[0].message, "Unconditional loop");
}

#[test]
fn engine_error_text() {
    assert_eq!(FugaError::ParseError("x".to_string()).message(), "Parse error: x");
    assert_eq!(FugaError::LayerError("y".to_string()).message(), "Layer error: y");
    assert_eq!(FugaError::IoError("z".to_string()).message(), "IO error: z");
}

fn analyzed(chaos: &ChaosMutationLayer, semantic: &SemanticLayer, code: &str) -> (ChaosAnalysis, SemanticAnalysis) {
    analyze_source(chaos, semantic, code).unwrap().unwrap()
}

#[test]
fn chaos_orders_attacks_by_priority() {
    let layer = ChaosMutationLayer::new(512);
    let (r, _) = analyzed(
        &layer,
        &SemanticLayer::new(64),
        "fn a(x: u32) -> u32 { loop {} } fn b(x: u32, y: u32) -> u32 { let q = x / y; x + y } fn c() { if true { 1 + 2; } }",
    );
    assert_eq!(r.stats.functions_analyzed, 3);
    assert_eq!(r.stats.attacks_generated, 3);
    let kinds: Vec<AttackKind> = r.attack_vectors.iter().map(|a| a.kind).collect();
    assert_eq!(kinds, vec![AttackKind::IntegerOverflow, AttackKind::DivisionByZero, AttackKind::InfiniteLoop]);
    assert_eq!(r.attack_vectors[0].description, "Function b has integer operations at risk");
    assert_eq!(r.attack_vectors[1].description, "Function b has unchecked division");
    assert_eq!(r.attack_vectors[2].description, "Function a may have unbounded loops");
    assert_eq!(r.attack_vectors[2].priority_tenths, 5);
    assert_eq!(r.attack_vectors[0].metadata.function.as_deref(), Some("b"));
    // a: loop body empty -> 0; b: two binaries -> 2; c: if (1) + binary inside (1) -> 2
    assert_eq!(r.stats.mutation_points, 4);
    assert_eq!(r.attack_vectors[1].vector.words, layer.attack_vectors[AttackKind::DivisionByZero.index()].words);
}

#[test]
fn chaos_match_arms_count_blocks_only() {
    let layer = ChaosMutationLayer::new(64);
    let (r, _) = analyzed(&layer, &SemanticLayer::new(64), "fn m(v: u8) { match v { 0 => { 1 + 1; } _ => 2 * 2 } }");
    assert_eq!(r.stats.mutation_points, 1);
    assert_eq!(r.attack_vectors.len(), 0);
}

#[test]
fn semantic_flags_many_parameters() {
    let layer = SemanticLayer::new(1024);
    let (_, r) = analyzed(
        &ChaosMutationLayer::new(64),
        &layer,
        "fn small(a: &str) -> (u8, [u8; 4]) { (1, [0; 4]) } \
         fn big(a: u8, b: u8, c: u8, d: u8, e: u8, f: u8, g: u8, h: u8, i: u8) -> u8 { a.max(b) }",
    );
    assert_eq!(r.function_vectors.len(), 2);
    assert_eq!(r.function_vectors[0].0, "small");
    assert_eq!(r.anomalies.len(), 1);
    assert_eq!(r.anomalies[0].kind, AnomalyKind::HighComplexity);
    assert_eq!(r.anomalies[0].location, "big");
    assert_eq!(r.anomalies[0].parameters, 9);
    assert_eq!(r.anomalies[0].description, "Function has 9 parameters, consider refactoring");
    assert_eq!(r.semantic_vector.dim, 1024);
}

#[test]
fn semantic_string_vectors_are_fixed() {
    let layer = SemanticLayer::new(300);
    let a = layer.encode_string("call");
    let b = layer.encode_string("call");
    let c = layer.encode_string("binary");
    assert_eq!(a.words, b.words);
    assert_ne!(a.words, c.words);
    assert_eq!(a.words.len(), 5);
    assert_eq!(a.words[4] >> 44, 0);
}

#[test]
fn semantic_types_encode_from_seeded_names() {
    let layer = SemanticLayer::new(256);
    let path = TypeShape::Path(vec!["std".to_string(), "vec".to_string(), "Vec".to_string()]);
    let pv = layer.encode_type(&path);
    assert_eq!(pv.words, fuga::entropy::deterministic_vector(256, "std::vec::Vec").words);
    let r = layer.encode_type(&TypeShape::Reference(Box::new(TypeShape::Path(vec!["u8".to_string()]))));
    let marker = fuga::entropy::deterministic_vector(256, "&ref");
    let elem = fuga::entropy::deterministic_vector(256, "u8");
    let bound: Vec<u64> = elem.words.iter().zip(&marker.words).map(|(a, b)| a ^ b).collect();
    assert_eq!(r.words, bound);
    let t1 = layer.encode_type(&TypeShape::Tuple(vec![TypeShape::Path(vec!["a".to_string()])]));
    assert_eq!(t1.words, fuga::entropy::deterministic_vector(256, "a").words);
}

#[test]
fn semantic_function_vectors_repeat() {
    let layer = SemanticLayer::new(256);
    let f = || FnItem {
        name: "run".to_string(),
        inputs: vec![Some(TypeShape::Path(vec!["u32".to_string()]))],
        output: None,
        generics: vec!["T".to_string()],
        attrs: vec![Some("inline".to_string())],
        body: vec![SemStmt::Expr(ExprKind::Call), SemStmt::Expr(ExprKind::Loop)],
    };
    let a = layer.analyze(&vec![f()]);
    let b = layer.analyze(&vec![f()]);
    assert_eq!(a.function_vectors[0].1.words, b.function_vectors[0].1.words);
    assert_eq!(layer.encode_function(&f()).words, a.function_vectors[0].1.words);
}

#[test]
fn source_parse_errors_come_back_as_text() {
    let chaos = ChaosMutationLayer::new(64);
    let semantic = SemanticLayer::new(64);
    let e = analyze_source(&chaos, &semantic, "fn broken( {").err().unwrap();
    assert_eq!(e, syn::parse_file("fn broken( {").err().unwrap().to_string());
}

#[test]
fn source_feeds_both_layers_the_same_functions() {
    let chaos = ChaosMutationLayer::new(128);
    let semantic = SemanticLayer::new(128);
    let (c, s) = analyzed(&chaos, &semantic, "struct S; #[inline] fn f(x: &u8) -> u8 { *x / 2 } impl S { fn g(&self) {} }");
    assert_eq!(c.stats.functions_analyzed, 1);
    assert_eq!(s.function_vectors.len(), 1);
    assert_eq!(s.function_vectors[0].0, "f");
    let again = analyzed(&chaos, &semantic, "#[inline]\nfn f(x: &u8) -> u8 {\n    *x / 2\n}").1;
    assert_eq!(again.function_vectors[0].1.words, s.function_vectors[0].1.words);
}

#[test]
fn syntax_walk_reaches_nested_code() {
    let code = r#"
        #[non_exhaustive]
        pub struct S { a: u8 }
        #[non_exhaustive]
        enum E { A = 1 }
        impl S {
            fn m(&self) -> u8 { let v = vec![1u8]; v[0] }
        }
        pub async fn outer<T>(t: T) {
            let f = |x: Option<u8>| x.expect("e");
            for i in 0..3 { while false {} }
            match 1 { _ => {} }
            fn inner() { Some(1).unwrap(); }
            let _ = format!("{}", 1) ;
            sqlx::query!("x");
        }
    "#;
    let v = walk(code);
    let kinds: Vec<(ViolationKind, String)> = v.violations.iter().map(|x| (x.kind.clone(), x.location.clone())).collect();
    assert_eq!(
        kinds,
        vec![
            (ViolationKind::NonExhaustiveMatch, "top-level".to_string()),
            (ViolationKind::NonExhaustiveMatch, "top-level".to_string()),
            (ViolationKind::ArrayIndexOutOfBounds, "top-level".to_string()),
            (ViolationKind::UnwrapExpect, "outer".to_string()),
            (ViolationKind::UnwrapExpect, "inner".to_string()),
            (ViolationKind::FormatString, "outer".to_string()),
            (ViolationKind::SqlInjection, "outer".to_string()),
        ]
    );
    assert_eq!(v.violations[0].message, "Non-exhaustive struct");
    assert_eq!(v.violations[1].message, "Non-exhaustive enum");
    assert_eq!(v.violations[3].message, "Use of expect() can panic");
    assert_eq!(v.stats.functions, 2);
    assert_eq!(v.stats.async_functions, 1);
    assert_eq!(v.stats.generic_functions, 1);
    assert_eq!(v.stats.public_functions, 1);
    assert_eq!(v.stats.unwrap_calls, 2);
    assert_eq!(v.stats.loops, 2);
    assert_eq!(v.stats.match_expressions, 1);
    assert!(v.current_function.is_none());
}

#[test]
fn syntax_parse_error_is_passed_on() {
    let layer = SyntaxInvariantLayer::new(64);
    let e = layer.analyze("fn broken( {").err().unwrap();
    assert_eq!(e, syn::parse_file("fn broken( {").err().unwrap().to_string());
}
