use fuga::agent::{
    agent_entry_text, agent_run_plan, agent_script, scan_allows, parse_agent_record, refactor_step, security_issues, snippet_signature,
    task_literal, unique_snippets, RefactorStep, RoundOutcome,
};

#[test]
fn agent_record_fields_take_the_last_tagged_line() {
    let r = parse_agent_record("TASK: first\nSCRIPT: ls -l\nTASK: sort files\r\nOUTPUT: ok\nnoise\nSTATUS: done\n");
    assert_eq!(r.task, "sort files");
    assert_eq!(r.script, "ls -l");
    assert_eq!(r.output, "ok");
    assert_eq!(r.status, "done");
    assert_eq!(r.error, "");
}

#[test]
fn agent_entries_for_success_failure_and_no_task() {
    let ok = parse_agent_record("TASK: t\nSCRIPT: s\nOUTPUT: o\nSTATUS: done");
    assert_eq!(agent_entry_text(&ok).unwrap(), "// AGENT SUCCESS\n// TASK: t\n// OUTPUT: o\ns");
    let bad = parse_agent_record("TASK: t\nSCRIPT: s\nSTATUS: failed\nERROR: boom");
    assert_eq!(agent_entry_text(&bad).unwrap(), "// AGENT FAILURE\n// TASK: t\n// ERROR: boom\ns");
    let failed_quietly = parse_agent_record("TASK: t\nSTATUS: failed\nOUTPUT: x");
    assert_eq!(agent_entry_text(&failed_quietly).unwrap(), "// AGENT SUCCESS\n// TASK: t\n// OUTPUT: x\n");
    assert!(agent_entry_text(&parse_agent_record("SCRIPT: s\n")).is_none());
}

fn std_summary(out: &str, markers: &[&str]) -> String {
    out.lines().filter(|l| markers.iter().any(|m| l.contains(m))).take(10).collect::<Vec<_>>().join("\n")
}

#[test]
fn error_summaries_keep_ten_marked_lines() {
    let mut out = String::from("warning: x\nerror[E0308]: mismatched\n  note\nerror: aborting due to 1 previous error\n");
    for i in 0..12 {
        out.push_str(&format!("test t{} ... FAILED\n", i));
    }
    for markers in [&["error", "aborting"][..], &["error"][..], &["error", "FAILED"][..]] {
        assert_eq!(fuga::agent::summarize_errors(&out, markers), std_summary(&out, markers));
    }
    assert_eq!(fuga::agent::summarize_errors(&out, &["error", "FAILED"]).lines().count(), 10);
    assert_eq!(fuga::agent::summarize_errors("", &["error"]), "");
}

#[test]
fn refactor_query_adds_first_three_error_lines() {
    assert_eq!(fuga::agent::refactor_search_query("speed up", ""), "speed up");
    assert_eq!(
        fuga::agent::refactor_search_query("speed up", "e1\ne2\ne3\ne4"),
        "speed up ERROR: e1 e2 e3"
    );
    assert_eq!(fuga::agent::refactor_search_query("t", "only"), "t ERROR: only");
}

#[test]
fn refactor_loop_decisions() {
    assert!(refactor_step(1, 3, RoundOutcome::Passed) == RefactorStep::Finish);
    assert!(refactor_step(3, 3, RoundOutcome::Passed) == RefactorStep::Finish);
    assert!(refactor_step(1, 3, RoundOutcome::CheckFailed) == RefactorStep::RestoreAndRetry);
    assert!(refactor_step(2, 3, RoundOutcome::TestsFailed) == RefactorStep::RestoreAndRetry);
    assert!(refactor_step(3, 3, RoundOutcome::CheckFailed) == RefactorStep::RestoreAndStop);
}

#[test]
fn refactor_records() {
    assert_eq!(
        fuga::agent::refactor_success_text("a.rs", "speed", "fn x() {}"),
        "TASK: refactor a.rs — speed\nFILE: a.rs\nDIFF:\nfn x() {}\nSTATUS: success\n"
    );
    assert_eq!(
        fuga::agent::refactor_failure_text("a.rs", "speed", 12, "error: x"),
        "TASK: refactor a.rs — speed (iter 12)\nFILE: a.rs\nERROR:\nerror: x\nSTATUS: failed\n"
    );
}

fn reference_script(task: &str, snippets: &[String]) -> String {
    let mut script = String::new();
    script.push_str("#!/usr/bin/env zx\n\n");
    script.push_str(&format!("// Task: {}\n", task));
    let preamble = format!(
        "import {{ execSync }} from 'child_process';\n\ntry {{\n  console.log('\u{25b8} Fuga Agent executing...');\n  console.log('Patterns: {n}');\n  let task = {task};\n  console.log('Task:', task);\n  let result = execSync(task, {{ encoding: 'utf8', shell: true }});\n  console.log('stdout:', result.trimEnd());\n  console.log('\u{2713} Done');\n}} catch (e) {{\n  console.error('\u{2717} Error:', e);\n  process.exit(1);\n}}\n",
        n = snippets.len(),
        task = serde_json::to_string(task).unwrap()
    );
    script.push_str(&preamble);
    script.push_str("\n// \u{2500}\u{2500} SECURITY_SCAN_START \u{2500}\u{2500}\n");
    script.push_str("// Learned patterns (context):\n");
    for (i, s) in snippets.iter().enumerate() {
        let sig: String = s
            .lines()
            .take(3)
            .map(|l| l.trim().to_string())
            .filter(|l| !l.is_empty())
            .collect::<Vec<_>>()
            .join("; ");
        script.push_str(&format!("// [{i}] {sig}\n"));
    }
    script.push_str("\n// \u{2500}\u{2500} SECURITY_SCAN_END \u{2500}\u{2500}\n");
    script
}

#[test]
fn task_is_quoted_as_json() {
    assert_eq!(task_literal("say \"hi\"\n"), "\"say \\\"hi\\\"\\n\"");
    assert_eq!(task_literal("ls"), "\"ls\"");
}

#[test]
fn snippets_with_the_same_first_80_bytes_count_once() {
    let long_a = format!("{}{}", "x".repeat(80), "tail one");
    let long_b = format!("{}{}", "x".repeat(80), "tail two");
    let texts = vec![
        "abc".to_string(),
        long_a.clone(),
        "abc".to_string(),
        long_b,
        "abcd".to_string(),
    ];
    assert_eq!(unique_snippets(&texts), vec!["abc".to_string(), long_a, "abcd".to_string()]);
    assert!(unique_snippets(&Vec::new()).is_empty());
}

#[test]
fn signature_joins_first_three_non_empty_lines() {
    assert_eq!(snippet_signature("  fn a() {\n\n  let x = 1;\n  more\n"), "fn a() {; let x = 1;");
    assert_eq!(snippet_signature(""), "");
    assert_eq!(snippet_signature("one\r\ntwo\nthree\nfour"), "one; two; three");
}

#[test]
fn script_matches_the_agent_layout() {
    let snippets = vec!["fn main() {\n  run();\n}\n".to_string(), "let a = 1;".to_string()];
    let task = "echo \"done\"";
    assert_eq!(agent_script(task, &snippets), reference_script(task, &snippets));
    assert_eq!(agent_script("ls", &Vec::new()), reference_script("ls", &[]));
}

#[test]
fn scan_finds_dangerous_patterns_inside_the_scan_zone_only() {
    let snippets = vec![
        "const fs = require('fs'); x.prototype".to_string(),
        "harmless".to_string(),
        "obj.__proto__ = 1".to_string(),
    ];
    let script = agent_script("ls", &snippets);
    let issues = security_issues(&script);
    let lines: Vec<&str> = script.lines().collect();
    let start = lines.iter().position(|l| l.contains("SECURITY_SCAN_START")).unwrap() + 1;
    // The preamble holds `child_process` and `exec(` but lies before the zone.
    assert_eq!(issues, vec![(start + 2, 2), (start + 2, 8), (start + 4, 7)]);
    assert!(security_issues("exec(\n// SECURITY_SCAN_END\n// SECURITY_SCAN_START\nexec(").is_empty());
    assert_eq!(security_issues("SECURITY_SCAN_START\nconstructor.x\n"), vec![(2, 9)]);
}

#[test]
fn scan_stops_unless_clean_or_forced() {
    assert!(scan_allows(0, false));
    assert!(!scan_allows(3, false));
    assert!(scan_allows(3, true));
}

#[test]
fn run_plan_dedups_scans_and_decides() {
    let texts = vec!["obj.__proto__".to_string(), "obj.__proto__".to_string(), "ok".to_string()];
    let (script, issues, ok) = agent_run_plan("ls", &texts, false);
    let kept = vec!["obj.__proto__".to_string(), "ok".to_string()];
    assert_eq!(script, reference_script("ls", &kept));
    assert_eq!(issues.len(), 1);
    assert_eq!(issues[0].1, 7);
    assert!(!ok);
    let (_, _, forced) = agent_run_plan("ls", &texts, true);
    assert!(forced);
    let (_, none, clean) = agent_run_plan("ls", &vec!["ok".to_string()], false);
    assert!(none.is_empty() && clean);
}
