//! Reading transcripts.

use backcheck::transcript::{ToolResult, Transcript};

const SAMPLE: &str = r#"
{"type":"assistant","timestamp":"2026-01-01T00:00:00Z","cwd":"/repo","message":{"content":[{"type":"tool_use","id":"t1","name":"Bash","input":{"command":"pytest -q"}}]}}
{"type":"user","toolUseResult":{"stdout":"3 passed in 0.1s","stderr":"","interrupted":false},"message":{"content":[{"type":"tool_result","tool_use_id":"t1","content":"3 passed in 0.1s"}]}}
{"type":"assistant","message":{"content":[{"type":"text","text":"All tests pass."}]}}
"#;

#[test]
fn pairs_tool_calls_with_results() {
    let t = Transcript::parse_str(SAMPLE);
    assert_eq!(t.tool_calls.len(), 1);
    let call = &t.tool_calls[0];
    assert_eq!(call.name, "Bash");
    assert_eq!(call.input_str("command"), Some("pytest -q"));
    assert!(call.output().contains("3 passed"));
}

#[test]
fn marks_final_assistant_message() {
    let t = Transcript::parse_str(SAMPLE);
    assert_eq!(t.assistant_texts.len(), 1);
    assert!(t.assistant_texts[0].is_last);
}

#[test]
fn tolerates_truncated_trailing_line() {
    let t = Transcript::parse_str(&format!("{SAMPLE}\n{{\"type\":\"assis"));
    assert_eq!(t.tool_calls.len(), 1);
}

#[test]
fn detects_blocked_tool_call() {
    let raw = r#"
{"type":"assistant","message":{"content":[{"type":"tool_use","id":"t1","name":"Bash","input":{"command":"rm -rf /"}}]}}
{"type":"user","message":{"content":[{"type":"tool_result","tool_use_id":"t1","content":"<tool_use_error>Blocked</tool_use_error>"}]}}
"#;
    let t = Transcript::parse_str(raw);
    assert!(t.tool_calls[0].result.as_ref().unwrap().is_error);
}

#[test]
fn events_are_numbered_in_order() {
    let raw = r#"{"type":"assistant","session_id":"s","timestamp":"T","message":{"content":[{"type":"text","text":"one"},{"type":"text","text":"  "},{"type":"tool_use","id":"a","name":"Bash","input":{"command":"ls"}}]}}
not json
{"type":"assistant","sessionId":"later","cwd":"/r","message":{"content":[{"type":"text","text":"two"}]}}"#;
    let t = Transcript::parse_str(raw);
    assert_eq!(t.session_id.as_deref(), Some("s"));
    assert_eq!(t.cwd.as_deref(), Some("/r"));
    assert_eq!(t.assistant_texts.len(), 2);
    assert_eq!(t.assistant_texts[0].text, "one");
    assert_eq!(t.assistant_texts[0].timestamp.as_deref(), Some("T"));
    assert!(!t.assistant_texts[0].is_last);
    assert!(t.assistant_texts[1].is_last);
    assert!(t.assistant_texts[0].seq < t.tool_calls[0].seq);
    assert!(t.tool_calls[0].seq < t.assistant_texts[1].seq);
    assert!(t.max_seq() >= t.assistant_texts[1].seq);
}

#[test]
fn results_go_to_the_call_they_name() {
    let raw = r#"{"type":"assistant","message":{"content":[{"type":"tool_use","id":"a","name":"Bash","input":{}},{"type":"tool_use","id":"b","name":"Edit","input":{}},{"type":"tool_use","id":"a","name":"Bash","input":{}}]}}
{"type":"user","toolUseResult":{"stdout":"out","stderr":"err","interrupted":true},"message":{"content":[{"type":"tool_result","tool_use_id":"a","content":[{"type":"text","text":"x"},{"type":"text","text":"y"}]}]}}
{"type":"user","message":{"content":[{"type":"tool_result","tool_use_id":"zzz","content":"lost"}]}}"#;
    let t = Transcript::parse_str(raw);
    assert_eq!(t.tool_calls.len(), 3);
    assert!(t.tool_calls[0].result.is_none());
    assert!(t.tool_calls[1].result.is_none());
    let r = t.tool_calls[2].result.as_ref().unwrap();
    assert!(r.interrupted);
    assert_eq!(r.stdout.as_deref(), Some("out"));
    assert_eq!(r.stderr.as_deref(), Some("err"));
    assert_eq!(r.content, "x\ny");
    assert_eq!(t.tool_calls[0].output(), "");
    assert_eq!(t.calls_named("Bash").len(), 2);
    assert_eq!(t.tool_calls[0].input_str("command"), None);
}

#[test]
fn nothing_is_read_from_nothing() {
    let t = Transcript::parse_str("\n\n[]\n1\n\"x\"\n");
    assert!(t.tool_calls.is_empty());
    assert!(t.assistant_texts.is_empty());
    assert_eq!(t.session_id, None);
    assert_eq!(t.max_seq(), 0);
}

#[test]
fn every_number_is_given_once() {
    let t = Transcript::parse_str(&format!("{SAMPLE}{SAMPLE}{SAMPLE}"));
    let mut numbers: Vec<usize> = t.tool_calls.iter().map(|c| c.seq).collect();
    numbers.extend(t.assistant_texts.iter().map(|a| a.seq));
    numbers.sort();
    assert_eq!(numbers, vec![1, 2, 3, 4, 5, 6]);
    let last: Vec<bool> = t.assistant_texts.iter().map(|a| a.is_last).collect();
    assert_eq!(last, vec![false, false, true]);
}

#[test]
fn a_broken_last_line_changes_nothing() {
    for raw in ["", SAMPLE, SAMPLE.trim_end(), "{\"session_id\":\"s\"}\r"] {
        let whole = Transcript::parse_str(raw);
        let broken = Transcript::parse_str(&format!("{raw}\n{{\"type\":\"assis"));
        assert_eq!(format!("{broken:?}"), format!("{whole:?}"));
    }
}

#[test]
fn copies_are_alike() {
    let t = Transcript::parse_str(SAMPLE);
    assert_eq!(format!("{:?}", t.tool_calls[0].clone()), format!("{:?}", t.tool_calls[0]));
    assert_eq!(
        format!("{:?}", t.assistant_texts[0].clone()),
        format!("{:?}", t.assistant_texts[0])
    );
    let r = ToolResult::default();
    assert_eq!(r.text(), "");
    assert!(!r.interrupted && !r.is_error && r.structured.is_none());
}
