use fuga::args::{
    has_flag, parse_dim, parse_flag_value, parse_flag_values, parse_int, parse_output,
    parse_translate_target, parse_window,
};

fn a(v: &[&str]) -> Vec<String> {
    v.iter().map(|s| s.to_string()).collect()
}

#[test]
fn dim_and_window_flags() {
    let args = a(&["fuga", "train", "--dim", "4096", "-w", "5"]);
    assert_eq!(parse_dim(&args, 2), Some(4096));
    assert_eq!(parse_window(&args, 2), Some(5));
    assert_eq!(parse_dim(&args, 4), None);
    assert_eq!(parse_dim(&a(&["x", "-d", "+12"]), 0), Some(12));
    assert_eq!(parse_dim(&a(&["x", "-d", "12a"]), 0), None);
    assert_eq!(parse_dim(&a(&["x", "-d"]), 0), None);
    assert_eq!(parse_dim(&a(&["x", "-d", "99999999999999999999999"]), 0), None);
}

#[test]
fn int_flag_stops_at_first_match() {
    let args = a(&["fuga", "--n", "x", "--n", "3"]);
    assert_eq!(parse_int(&args, "--n"), None);
    assert_eq!(parse_int(&a(&["--n", "7"]), "--n"), Some(7));
}

#[test]
fn output_and_target() {
    let args = a(&["fuga", "fix", "-o", "out.rs", "--to", "python"]);
    assert_eq!(parse_output(&args, 1), Some("out.rs".to_string()));
    assert_eq!(parse_translate_target(&args, 1), Some("python"));
    assert_eq!(parse_translate_target(&args, 5), None);
}

#[test]
fn flag_presence_and_values() {
    let args = a(&["fuga", "--jsonl", "a", "--force", "--jsonl", "b", "--jsonl"]);
    assert!(has_flag(&args, "--force"));
    assert!(!has_flag(&args, "--quiet"));
    assert_eq!(parse_flag_value(&args, 0, "--jsonl"), Some("a"));
    assert_eq!(parse_flag_values(&args, "--jsonl"), vec!["a", "b"]);
    assert_eq!(parse_flag_value(&a(&["--jsonl", "a"]), 0, "--jsonl"), None);
    assert!(parse_flag_values(&a(&[]), "--jsonl").is_empty());
}
