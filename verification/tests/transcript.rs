use agent_replay::json::{canonical_json, parse_json_line, Json};
use agent_replay::model::{Block, Role};
use agent_replay::transcript::{parse_str, transcript_lines, TranscriptError};
fn canonical(text: &str) -> String {
    canonical_json(&parse_json_line(text).unwrap())
}

// A synthetic transcript where an `attachment` record sits between two
// messages.
const SAMPLE: &str = r#"
{"type":"user","uuid":"u1","parentUuid":null,"sessionId":"s","cwd":"/x","message":{"role":"user","content":"start"}}
{"type":"assistant","uuid":"a1","parentUuid":"u1","message":{"role":"assistant","content":[{"type":"text","text":"working"},{"type":"tool_use","id":"t1","name":"Bash","input":{"command":"ls"}}]}}
{"type":"attachment","uuid":"att1","parentUuid":"a1"}
{"type":"user","uuid":"u2","parentUuid":"att1","message":{"role":"user","content":[{"type":"tool_result","tool_use_id":"t1","content":"file.txt","is_error":false}]}}
{"type":"assistant","uuid":"a2","parentUuid":"u2","message":{"role":"assistant","content":[{"type":"text","text":"done"}]}}
"#;

#[test]
fn parses_and_bridges_attachment_records() {
    let run = parse_str(SAMPLE).unwrap();
    // All 4 messages are on the active path despite the attachment in between.
    assert_eq!(run.steps.len(), 4);
    assert_eq!(run.steps[0].role, Role::User);
    assert_eq!(run.steps[3].text(), "done");
    // The tool call and its result both survived normalization.
    assert_eq!(run.tool_calls(), 1);
    assert_eq!(run.steps[1].tool_names(), vec!["Bash"]);
    assert_eq!(run.meta.session_id.as_deref(), Some("s"));
    // A parsed run is internally consistent.
    assert!(run.verify_integrity().is_ok());
}

#[test]
fn canonical_json_sorts_keys() {
    let a = canonical("{\"b\":1,\"a\":2}");
    let b = canonical("{\"a\":2,\"b\":1}");
    assert_eq!(a, b, "key order does not change the canonical form");
}

#[test]
fn empty_transcript_errors() {
    assert!(parse_str("\n\n").is_err());
}

#[test]
fn canonical_form_is_exact() {
    assert_eq!(
        canonical("{\"z\": [1, 2.5, true, null], \"a\": {\"y\": \"q\\\"t\", \"x\": {}}}"),
        "{\"a\":{\"x\":{},\"y\":\"q\\\"t\"},\"z\":[1,2.5,true,null]}"
    );
    assert_eq!(canonical("\"line\\nbreak\""), "\"line\\nbreak\"");
    assert_eq!(canonical("[]"), "[]");
}

#[test]
fn canonical_strings_are_escaped_as_serde_json_writes_them() {
    let s = Json::String("a\"b\\c\u{8}\t\n\u{c}\r\u{1}\u{1f} /é".to_string());
    assert_eq!(
        canonical_json(&s),
        "\"a\\\"b\\\\c\\b\\t\\n\\f\\r\\u0001\\u001f /é\""
    );
    let key = Json::Object(vec![("k\"ey".to_string(), Json::Null)]);
    assert_eq!(canonical_json(&key), "{\"k\\\"ey\":null}");
}

#[test]
fn parsed_steps_carry_normalized_blocks() {
    let run = parse_str(SAMPLE).unwrap();
    assert_eq!(run.steps[0].parent, None);
    assert_eq!(run.steps[1].parent.as_deref(), Some("u1"));
    assert_eq!(run.steps[2].parent.as_deref(), Some("a1"), "attachment is bridged");
    match &run.steps[1].blocks[1] {
        Block::ToolUse { id, name, input } => {
            assert_eq!(id, "t1");
            assert_eq!(name, "Bash");
            assert_eq!(input, "{\"command\":\"ls\"}");
        }
        other => panic!("unexpected block {other:?}"),
    }
    match &run.steps[2].blocks[0] {
        Block::ToolResult { tool_use_id, output, is_error } => {
            assert_eq!(tool_use_id, "t1");
            assert_eq!(output, "file.txt");
            assert!(!is_error);
        }
        other => panic!("unexpected block {other:?}"),
    }
    for (i, s) in run.steps.iter().enumerate() {
        assert_eq!(s.seq, i);
    }
    assert_eq!(run.meta.cwd.as_deref(), Some("/x"));
    assert_eq!(run.meta.source, None);
}

#[test]
fn active_leaf_is_the_deepest_and_latest_branch() {
    let text = r#"
{"type":"user","uuid":"r","message":{"content":"root"}}
{"type":"assistant","uuid":"x","parentUuid":"r","message":{"content":[{"type":"text","text":"first try"}]}}
{"type":"assistant","uuid":"y","parentUuid":"r","message":{"content":[{"type":"text","text":"second try"}]}}
not json at all
{"type":"user","uuid":"m","parentUuid":"y","isMeta":true,"message":{"content":"meta ping"}}
{"type":"user","uuid":"blank","parentUuid":"m","message":{"content":"   "}}
"#;
    let run = parse_str(text).unwrap();
    let texts: Vec<String> = run.steps.iter().map(|s| s.text()).collect();
    assert_eq!(texts, vec!["root", "second try"]);
}

#[test]
fn content_items_normalize() {
    let text = r#"{"type":"assistant","uuid":"a","message":{"content":[{"type":"thinking","thinking":"héllo"},{"type":"tool_result","content":[{"type":"text","text":"l1"},{"type":"image"},{"type":"text","text":"l2"}],"is_error":true},{"type":"tool_use","name":"Read"},{"type":"tool_use","id":"no-name"},{"type":"image"}]}}"#;
    let run = parse_str(text).unwrap();
    let b = &run.steps[0].blocks;
    assert_eq!(b.len(), 3);
    assert!(matches!(b[0], Block::Thinking { len: 6 }));
    match &b[1] {
        Block::ToolResult { tool_use_id, output, is_error } => {
            assert_eq!(tool_use_id, "");
            assert_eq!(output, "l1\nl2");
            assert!(is_error);
        }
        other => panic!("unexpected block {other:?}"),
    }
    match &b[2] {
        Block::ToolUse { id, name, input } => {
            assert_eq!(id, "");
            assert_eq!(name, "Read");
            assert_eq!(input, "null");
        }
        other => panic!("unexpected block {other:?}"),
    }
}

#[test]
fn transcript_lines_trim_and_drop_blank_lines() {
    let lines = transcript_lines("  a \r\n\n\t\nb\u{a0}\n c");
    assert_eq!(lines, vec!["a", "b", "c"]);
    assert!(transcript_lines("").is_empty());
}

#[test]
fn no_record_error_message() {
    let e = parse_str("{\"type\":\"summary\",\"uuid\":\"s\"}").unwrap_err();
    assert_eq!(e, TranscriptError::NoRecords);
    assert_eq!(e.message(), "no user/assistant records found in transcript");
}

#[test]
fn lines_that_are_not_json_are_skipped() {
    let text = format!("not json at all\n{SAMPLE}\n{{\"type\":\"user\"");
    let run = parse_str(&text).unwrap();
    assert_eq!(run.steps.len(), 4);
    assert_eq!(run.steps[0].text(), "start");
    assert_eq!(parse_str("garbage\n[1,2]\n").unwrap_err(), TranscriptError::NoRecords);
}

#[test]
fn canonical_json_sorts_keys_at_every_depth() {
    let a = canonical("{\"b\":{\"y\":1,\"x\":[{\"q\":1,\"p\":2}]},\"a\":0}");
    let b = canonical("{\"a\":0,\"b\":{\"x\":[{\"p\":2,\"q\":1}],\"y\":1}}");
    assert_eq!(a, b);
    assert_eq!(a, "{\"a\":0,\"b\":{\"x\":[{\"p\":2,\"q\":1}],\"y\":1}}");
}

#[test]
fn json_lines_parse_into_library_values() {
    assert!(parse_json_line("{not json").is_none());
    match parse_json_line("{\"n\": 2.50, \"s\": \"x\", \"t\": true, \"z\": null}") {
        Some(Json::Object(entries)) => {
            let keys: Vec<&str> = entries.iter().map(|(k, _)| k.as_str()).collect();
            assert_eq!(keys, vec!["n", "s", "t", "z"]);
            assert!(matches!(&entries[0].1, Json::Number(t) if t == "2.5"));
            assert!(matches!(&entries[1].1, Json::String(t) if t == "x"));
            assert!(matches!(entries[2].1, Json::Bool(true)));
            assert!(matches!(entries[3].1, Json::Null));
        }
        _ => panic!("expected an object"),
    }
}
