use fuga::corpus::{eval_line, tokenize_corpus_text};
use fuga::gguf::{
    blob_value, build_gguf, export_entries, inspect_bytes, pad_to, scan_generation_bytes, string_value, GenerationScan,
    GgufInspectError, GgufValueInfo,
};
use fuga::lexer::lex_rust_code;
use fuga::text::{chars_of, contains_str, decimal_string, join_with};

#[test]
fn corpus_words_get_vocab_or_hashed_ids() {
    let vocab = vec![(7u32, "hello".to_string()), (9u32, "world".to_string()), (11u32, "hello".to_string())];
    let toks = tokenize_corpus_text("  hello\tworld\n  zz ", &vocab);
    assert_eq!(toks.len(), 3);
    assert_eq!(toks[0].text, "hello");
    assert_eq!(toks[0].id, 11);
    assert_eq!(toks[1].id, 9);
    // "zz": h = (0*31 + 122)*31 + 122 = 3904
    assert_eq!(toks[2].id, 100000 + 3904);
}

#[test]
fn corpus_unicode_whitespace_splits() {
    let toks = tokenize_corpus_text("a\u{3000}b\u{a0}c", &[]);
    assert_eq!(toks.len(), 3);
    assert_eq!(toks[2].text, "c");
    assert_eq!(toks[0].id, 100000 + 97);
}

#[test]
fn corpus_empty_text() {
    assert!(tokenize_corpus_text("   ", &[]).is_empty());
}

#[test]
fn lexer_tokens() {
    let toks = lex_rust_code("fn main() -> u8 { let s = \"a\\\"b\"; x += 1_000; 'c' } // end\n/* c */ a::b");
    let want = vec![
        "fn", "main", "(", ")", "->", "u8", "{", "let", "s", "=", "\"a\\\"b\"", ";", "x", "+=", "1_000", ";",
        "'c'", "}", "a", "::", "b",
    ];
    assert_eq!(toks, want);
}

#[test]
fn lexer_skips_non_ascii_and_keeps_numbers() {
    let toks = lex_rust_code("é 3.14f32 ..= ");
    assert_eq!(toks, vec!["3.14f32", "..", "="]);
}

#[test]
fn lexer_unterminated_comment_and_string() {
    assert_eq!(lex_rust_code("a /* open"), vec!["a"]);
    assert_eq!(lex_rust_code("\"open"), vec!["\"open"]);
}

#[test]
fn pad_to_rounds_up() {
    assert_eq!(pad_to(0, 32), 0);
    assert_eq!(pad_to(1, 32), 32);
    assert_eq!(pad_to(32, 32), 32);
    assert_eq!(pad_to(33, 32), 64);
}

#[test]
fn gguf_values() {
    assert_eq!(string_value("ab"), vec![2, 0, 0, 0, 0, 0, 0, 0, b'a', b'b']);
    assert_eq!(blob_value(&vec![9u8]), vec![0, 0, 0, 0, 1, 0, 0, 0, 0, 0, 0, 0, 9]);
}

#[test]
fn gguf_generation_roundtrip() {
    let blobs = vec![("jepa".to_string(), vec![1u8, 2, 3])];
    let kv = export_entries(41, "1700000000", Some("0.93"), &blobs);
    assert_eq!(kv.len(), 6);
    assert_eq!(kv[5].0, b"fuga.jepa".to_vec());
    assert_eq!(kv[4].0, b"fuga.eval".to_vec());
    let bytes = build_gguf(&kv);
    assert_eq!(bytes.len() % 32, 0);
    assert_eq!(&bytes[0..4], &[0x47, 0x55, 0x47, 0x46]);
    assert_eq!(bytes[16], 6);
    assert_eq!(scan_generation_bytes(&bytes), GenerationScan::Found(41));
}

#[test]
fn gguf_generation_absent_cases() {
    assert_eq!(scan_generation_bytes(&[0u8; 10]), GenerationScan::Absent);
    let mut bad = vec![0u8; 40];
    bad[0] = 1;
    assert_eq!(scan_generation_bytes(&bad), GenerationScan::Absent);
    let kv = vec![(b"fuga.dim".to_vec(), 8192u64.to_le_bytes().to_vec(), 10u32)];
    assert_eq!(scan_generation_bytes(&build_gguf(&kv)), GenerationScan::Absent);
}

#[test]
fn gguf_generation_truncated() {
    let kv = vec![(b"fuga.generation".to_vec(), vec![1u8, 2, 3], 10u32)];
    let mut bytes = build_gguf(&kv);
    bytes.truncate(24 + 8 + 15 + 4 + 3);
    assert_eq!(scan_generation_bytes(&bytes), GenerationScan::Truncated);
}

#[test]
fn gguf_inspect_lists_entries() {
    let kv = vec![
        (b"fuga.version".to_vec(), string_value("1.0.0"), 8u32),
        (b"fuga.generation".to_vec(), 3u64.to_le_bytes().to_vec(), 10u32),
        (b"fuga.jepa".to_vec(), blob_value(&vec![7u8, 7]), 9u32),
        (b"odd".to_vec(), vec![], 5u32),
    ];
    let bytes = build_gguf(&kv);
    let listing = inspect_bytes(&bytes).ok().unwrap();
    assert_eq!(listing.version, 3);
    assert_eq!(listing.kv_count, 4);
    assert_eq!(listing.entries.len(), 4);
    assert_eq!(listing.entries[0].key, "fuga.version");
    assert!(matches!(&listing.entries[0].value, GgufValueInfo::Text(t) if t == "1.0.0"));
    assert!(matches!(listing.entries[1].value, GgufValueInfo::Uint(3)));
    assert!(matches!(listing.entries[2].value, GgufValueInfo::Array(2, 0, 2)));
    assert!(matches!(listing.entries[3].value, GgufValueInfo::Other));
    assert_eq!(listing.entries[3].vtype, 5);
    assert_eq!(inspect_bytes(&[0u8; 5]).err(), Some(GgufInspectError::TooShort));
    assert_eq!(inspect_bytes(&[0u8; 30]).err().map(|e| e.message()), Some("bad magic"));
}

#[test]
fn text_helpers() {
    assert_eq!(decimal_string(0), "0");
    assert_eq!(decimal_string(90210), "90210");
    let hay = chars_of("Format!(x)");
    assert!(contains_str(&hay, "mat!"));
    assert!(!contains_str(&hay, "format"));
    assert!(contains_str(&hay, ""));
    assert_eq!(join_with(&vec!["a".to_string(), "b".to_string(), "c".to_string()], "::"), "a::b::c");
    assert_eq!(join_with(&vec![], ","), "");
}

#[test]
fn goals_eval_line() {
    assert_eq!(eval_line("# goals\r\neval:  0.91 \r\neval: 2\n"), Some("0.91".to_string()));
    assert_eq!(eval_line("no eval here\n eval: indented"), None);
    assert_eq!(eval_line("eval:"), Some(String::new()));
    assert_eq!(eval_line(""), None);
}

#[test]
fn vocab_lines_are_trimmed_sorted_and_unique() {
    let text = "  zeta \r\nalpha\n\n\tBeta\nalpha\né\nz\n   \n";
    let v = fuga::vocab::vocab_from_text(text);
    assert_eq!(v, vec!["Beta", "alpha", "z", "zeta", "é"]);
}

#[test]
fn vocab_of_empty_text_is_empty() {
    assert!(fuga::vocab::vocab_from_text("").is_empty());
    assert!(fuga::vocab::vocab_from_text("\n \n\t\n").is_empty());
}

#[test]
fn tokens_sort_as_strings_do() {
    let keys: Vec<String> = vec!["b", "ab", "a", "é", "B", "a", ""].into_iter().map(String::from).collect();
    let mut expected = keys.clone();
    expected.sort();
    assert_eq!(fuga::vocab::sort_tokens(&keys), expected);
    assert_eq!(fuga::vocab::sort_tokens(&keys), vec!["", "B", "a", "a", "ab", "b", "é"]);
}

#[test]
fn gguf_inspect_replaces_invalid_key_bytes() {
    let kv = vec![(vec![b'k', 0xFF, b'y'], vec![], 5u32)];
    let bytes = build_gguf(&kv);
    let listing = inspect_bytes(&bytes).ok().unwrap();
    assert_eq!(listing.entries[0].key, "k\u{FFFD}y");
}

#[test]
fn tokenizer_vocab_keys_sorted() {
    let data = r#"{"model": {"type": "BPE", "vocab": {"zz": 0, "a": 1, "B": 2, "é": 3}}}"#;
    assert_eq!(
        fuga::vocab::vocab_from_tokenizer_json("tok.json", data),
        Ok(vec!["B".to_string(), "a".to_string(), "zz".to_string(), "é".to_string()])
    );
}

#[test]
fn tokenizer_vocab_errors() {
    assert_eq!(
        fuga::vocab::vocab_from_tokenizer_json("tok.json", r#"{"model": {"vocab": [1, 2]}}"#),
        Err("tok.json: no model.vocab map".to_string())
    );
    assert_eq!(
        fuga::vocab::vocab_from_tokenizer_json("t", "{}"),
        Err("t: no model.vocab map".to_string())
    );
    let parse_error = serde_json::from_str::<serde_json::Value>("{\"model\":").unwrap_err().to_string();
    assert_eq!(
        fuga::vocab::vocab_from_tokenizer_json("t", "{\"model\":"),
        Err(format!("parse t: {}", parse_error))
    );
}

#[test]
fn lines_split_as_std_does() {
    for text in ["a\r\nb\r", "a\n\nb\n", "\r\n", "x\ry\n\r", "", "solo"] {
        let cs: Vec<char> = text.chars().collect();
        let got: Vec<String> = fuga::corpus::lines_vec(&cs).into_iter().map(|l| l.into_iter().collect()).collect();
        let want: Vec<String> = text.lines().map(String::from).collect();
        assert_eq!(got, want, "{:?}", text);
    }
}
