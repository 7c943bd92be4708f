use agent_replay::model::{Block, Role, Run, RunMeta, Step};
use agent_replay::replay::{render_playback, replay, truncate};

fn run() -> Run {
    let mk = |seq: usize, role: Role, t: &str| {
        let blocks = vec![Block::Text { text: t.into() }];
        let hash = Step::compute_hash(&role, &blocks);
        Step {
            seq,
            uuid: format!("u{seq}"),
            parent: None,
            role,
            ts: None,
            blocks,
            hash,
        }
    };
    Run::new(
        RunMeta::default(),
        vec![mk(0, Role::User, "hi"), mk(1, Role::Assistant, "ok")],
    )
}

#[test]
fn clean_run_verifies() {
    let r = replay(&run());
    assert!(r.verified);
    assert_eq!(r.integrity_break, None);
    assert_eq!(r.steps, 2);
}

#[test]
fn tampered_run_fails_verification_at_the_right_step() {
    let mut run = run();
    run.steps[1].blocks = vec![Block::Text {
        text: "tampered".into(),
    }]; // hash now stale
    let r = replay(&run);
    assert!(!r.verified);
    assert_eq!(r.integrity_break, Some(1));
}

#[test]
fn replay_report_matches_the_run() {
    let r0 = run();
    let r = replay(&r0);
    assert_eq!(r.digest, r0.digest());
    assert_eq!(r.tool_calls, 0);
}

#[test]
fn truncate_cuts_and_joins_lines() {
    assert_eq!(truncate("a\nb", 10), "a b");
    assert_eq!(truncate("abcdef", 3), "abc…");
    assert_eq!(truncate("abc", 3), "abc");
    assert_eq!(truncate("héllo", 2), "hé…");
    assert_eq!(truncate("", 0), "");
}

#[test]
fn playback_renders_every_block() {
    let blocks = vec![
        Block::Text { text: "line one\nline two".into() },
        Block::Thinking { len: 42 },
        Block::ToolUse { id: "1".into(), name: "Bash".into(), input: "{\"command\":\"ls\"}".into() },
        Block::ToolResult { tool_use_id: "1".into(), output: "file.txt".into(), is_error: false },
        Block::ToolResult { tool_use_id: "2".into(), output: "boom".into(), is_error: true },
    ];
    let hash = Step::compute_hash(&Role::Assistant, &blocks);
    let step = Step { seq: 12, uuid: "u".into(), parent: None, role: Role::Assistant, ts: None, blocks, hash };
    let run = Run::new(RunMeta::default(), vec![step]);
    let out = render_playback(&run, 8);
    assert_eq!(
        out,
        "[ 12] assistant\n      line one…\n      (thinking, 42 chars)\n      → Bash {\"comman…\n      ✔ file.txt\n      ✘ error boom\n"
    );
    let short = Run::new(RunMeta::default(), vec![Step {
        seq: 1234,
        uuid: "v".into(),
        parent: None,
        role: Role::System,
        ts: None,
        blocks: vec![],
        hash: String::new(),
    }]);
    assert_eq!(render_playback(&short, 5), "[1234] system\n");
}
