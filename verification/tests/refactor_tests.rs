use fuga::refactor::{apply_refactor_hint, optimize_hamming_simd, replace_fn, SIMD_HELPERS};

fn chars(s: &str) -> Vec<char> {
    s.chars().collect()
}

#[test]
fn replace_fn_swaps_first_matching_body() {
    let mut r = chars("fn a() { x { y } } fn a() { z }");
    assert!(replace_fn(&mut r, "fn a()", "BODY"));
    let s: String = r.iter().collect();
    assert_eq!(s, "fn a() {\nBODY\n    }\n fn a() { z }");
    let mut unbalanced = chars("fn a() { {");
    assert!(!replace_fn(&mut unbalanced, "fn a()", "B"));
    assert_eq!(unbalanced.iter().collect::<String>(), "fn a() { {");
}

#[test]
fn hint_comment_and_add() {
    assert_eq!(apply_refactor_hint("x", "Add Doc", ""), "// TODO(Add Doc): Add Doc\nx");
    assert_eq!(
        apply_refactor_hint("x", "ADD helper", "ctx"),
        "// refactor: ADD helper\n// pattern from MoE:\nctx\n\nx"
    );
}

#[test]
fn hint_remove_drops_todo_and_unused_lines() {
    let src = "a\n  // TODO later\nlet unused = 1;\r\nb\n";
    assert_eq!(apply_refactor_hint(src, "remove dead code", ""), "a\nb");
}

#[test]
fn hint_default_note() {
    let out = apply_refactor_hint("x", "rename", "");
    assert!(out.starts_with("// refactor: rename\n// "));
    assert!(out.ends_with(" agent\nx"));
}

#[test]
fn simd_rewrite_replaces_entropy_and_inserts_helpers() {
    let src = "impl Hypervector {\n    pub fn entropy(&self) -> f64 {\n        old()\n    }\n}\n\n#[cfg(test)]\nmod t {}\n";
    let out = optimize_hamming_simd(src, "use SIMD", "");
    assert!(out.starts_with("// refactor: use SIMD — SIMD-unrolled popcount (MoE+rule)\n"));
    assert!(out.contains("let ones = popcount_chunks(&self.words);"));
    assert!(!out.contains("old()"));
    assert!(out.contains(SIMD_HELPERS));
    assert_eq!(apply_refactor_hint(src, "Hamming speedup", ""), out.replace("use SIMD", "Hamming speedup"));
}

#[test]
fn simd_without_targets_falls_back_to_context() {
    let out = optimize_hamming_simd("fn f() {}", "simd", "/* c */\n * d\nkeep me\n");
    assert_eq!(out, "// refactor: simd\n// MoE patterns (sanitized):\nkeep me\n\nfn f() {}");
}
