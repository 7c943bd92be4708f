use agent_replay::check::{check, Rules};
use agent_replay::model::{Block, Role, Run, RunMeta, Step};

fn run_with(blocks: Vec<Block>) -> Run {
    let hash = Step::compute_hash(&Role::Assistant, &blocks);
    Run::new(
        RunMeta::default(),
        vec![Step {
            seq: 0,
            uuid: "u".into(),
            parent: None,
            role: Role::Assistant,
            ts: None,
            blocks,
            hash,
        }],
    )
}

#[test]
fn forbid_tool_and_path() {
    let r = run_with(vec![Block::ToolUse {
        id: "1".into(),
        name: "Bash".into(),
        input: "{\"command\":\"cat /etc/secrets\"}".into(),
    }]);
    let rules = Rules {
        forbid_tools: vec!["Bash".into()],
        forbid_paths: vec!["/etc/secrets".into()],
        ..Default::default()
    };
    let v = check(&r, &rules);
    assert_eq!(v.len(), 2);
}

#[test]
fn must_succeed_flags_errored_result() {
    let r = run_with(vec![Block::ToolResult {
        tool_use_id: "1".into(),
        output: "boom".into(),
        is_error: true,
    }]);
    let v = check(
        &r,
        &Rules {
            must_succeed: true,
            ..Default::default()
        },
    );
    assert_eq!(v.len(), 1);
    assert_eq!(v[0].rule, "must-succeed");
}

#[test]
fn max_steps_and_clean_pass() {
    let r = run_with(vec![Block::Text { text: "hi".into() }]);
    assert!(check(
        &r,
        &Rules {
            max_steps: Some(10),
            ..Default::default()
        }
    )
    .is_empty());
    assert_eq!(
        check(
            &r,
            &Rules {
                max_steps: Some(0),
                ..Default::default()
            }
        )
        .len(),
        1
    );
}

#[test]
fn violation_details_are_exact() {
    let r = run_with(vec![
        Block::ToolUse {
            id: "1".into(),
            name: "Bash".into(),
            input: "{\"command\":\"cat .env\"}".into(),
        },
        Block::ToolResult { tool_use_id: "1".into(), output: "no".into(), is_error: true },
    ]);
    let rules = Rules {
        max_steps: Some(0),
        max_tool_calls: Some(0),
        forbid_tools: vec!["Bash".into()],
        forbid_paths: vec![".env".into(), "secrets/".into()],
        must_succeed: true,
    };
    let v = check(&r, &rules);
    let got: Vec<(String, String)> = v.into_iter().map(|x| (x.rule, x.detail)).collect();
    assert_eq!(
        got,
        vec![
            ("max-steps".to_string(), "1 steps > limit 0".to_string()),
            ("max-tool-calls".to_string(), "1 tool calls > limit 0".to_string()),
            ("forbid-tool".to_string(), "step 0 called forbidden tool `Bash`".to_string()),
            (
                "forbid-path".to_string(),
                "step 0 tool `Bash` input references forbidden `.env`".to_string()
            ),
            ("must-succeed".to_string(), "step 0 has an errored tool result".to_string()),
        ]
    );
}

#[test]
fn empty_rules_are_empty_and_pass() {
    let rules = Rules::default();
    assert!(rules.is_empty());
    let r = run_with(vec![Block::ToolResult { tool_use_id: "1".into(), output: "x".into(), is_error: true }]);
    assert!(check(&r, &rules).is_empty());
    let some = Rules { must_succeed: true, ..Default::default() };
    assert!(!some.is_empty());
    let tools = Rules { forbid_tools: vec!["Read".into()], ..Default::default() };
    assert!(!tools.is_empty());
}

#[test]
fn within_limits_no_violation() {
    let r = run_with(vec![Block::ToolUse { id: "1".into(), name: "Read".into(), input: "{}".into() }]);
    let rules = Rules { max_tool_calls: Some(1), forbid_tools: vec!["Bash".into()], ..Default::default() };
    assert!(check(&r, &rules).is_empty());
}
