use agent_replay::model::{readable_format, Block, Role, Run, RunMeta, Step, FORMAT_VERSION};

fn text_step(seq: usize, role: Role, text: &str) -> Step {
    let blocks = vec![Block::Text { text: text.into() }];
    let hash = Step::compute_hash(&role, &blocks);
    Step {
        seq,
        uuid: format!("u{seq}"),
        parent: None,
        role,
        ts: None,
        blocks,
        hash,
    }
}

#[test]
fn hash_is_stable_and_order_sensitive() {
    let a = Step::compute_hash(&Role::User, &[Block::Text { text: "hi".into() }]);
    let b = Step::compute_hash(&Role::User, &[Block::Text { text: "hi".into() }]);
    assert_eq!(a, b, "same content hashes the same");
    let c = Step::compute_hash(&Role::Assistant, &[Block::Text { text: "hi".into() }]);
    assert_ne!(a, c, "role participates in the hash");
}

#[test]
fn tooluse_id_does_not_affect_hash_but_input_does() {
    let h1 = Step::compute_hash(
        &Role::Assistant,
        &[Block::ToolUse {
            id: "a".into(),
            name: "Bash".into(),
            input: "{\"x\":1}".into(),
        }],
    );
    let h2 = Step::compute_hash(
        &Role::Assistant,
        &[Block::ToolUse {
            id: "DIFFERENT".into(),
            name: "Bash".into(),
            input: "{\"x\":1}".into(),
        }],
    );
    let h3 = Step::compute_hash(
        &Role::Assistant,
        &[Block::ToolUse {
            id: "a".into(),
            name: "Bash".into(),
            input: "{\"x\":2}".into(),
        }],
    );
    assert_eq!(h1, h2, "volatile tool_use id is excluded from the hash");
    assert_ne!(h1, h3, "tool input is included in the hash");
}

#[test]
fn digest_and_integrity() {
    let run = Run::new(
        RunMeta::default(),
        vec![
            text_step(0, Role::User, "do X"),
            text_step(1, Role::Assistant, "ok"),
        ],
    );
    assert!(run.verify_integrity().is_ok());
    assert_eq!(run.digest(), run.clone().digest(), "digest is deterministic");

    // Tamper with a step's content without updating its hash.
    let mut bad = run.clone();
    bad.steps[1].blocks = vec![Block::Text {
        text: "tampered".into(),
    }];
    assert_eq!(
        bad.verify_integrity(),
        Err(1),
        "integrity catches tampering at the right step"
    );
}

#[test]
fn helpers() {
    let s = Step {
        seq: 0,
        uuid: "u".into(),
        parent: None,
        role: Role::Assistant,
        ts: None,
        blocks: vec![
            Block::Text {
                text: "hello".into(),
            },
            Block::ToolUse {
                id: "1".into(),
                name: "Read".into(),
                input: "{}".into(),
            },
            Block::ToolResult {
                tool_use_id: "1".into(),
                output: "boom".into(),
                is_error: true,
            },
        ],
        hash: String::new(),
    };
    assert_eq!(s.tool_names(), vec!["Read"]);
    assert!(s.has_error_result());
    assert_eq!(s.text(), "hello");
}

#[test]
fn compute_hash_is_the_short_sha256_of_the_step_bytes() {
    let h = Step::compute_hash(&Role::User, &[Block::Text { text: "hi".into() }]);
    assert_eq!(h, "9253c628689531d0ea49e318");
    let h2 = Step::compute_hash(
        &Role::Assistant,
        &[
            Block::Thinking { len: 5 },
            Block::ToolResult {
                tool_use_id: "x".into(),
                output: "boom".into(),
                is_error: true,
            },
        ],
    );
    assert_eq!(h2, "bdd365a94b3fae50e626e698");
}

#[test]
fn digest_is_the_short_sha256_of_the_step_hashes() {
    let run = Run::new(RunMeta::default(), vec![text_step(0, Role::User, "hi")]);
    assert_eq!(run.digest(), "184763fa9a9c0db8f3429c20");
}

#[test]
fn tool_result_ids_do_not_affect_hash() {
    let a = Step::compute_hash(
        &Role::User,
        &[Block::ToolResult { tool_use_id: "t1".into(), output: "ok".into(), is_error: false }],
    );
    let b = Step::compute_hash(
        &Role::User,
        &[Block::ToolResult { tool_use_id: "t9".into(), output: "ok".into(), is_error: false }],
    );
    assert_eq!(a, b);
}

#[test]
fn text_joins_text_blocks_by_newline_and_counts() {
    let mut s = text_step(0, Role::Assistant, "a");
    s.blocks.push(Block::Thinking { len: 3 });
    s.blocks.push(Block::Text { text: "b".into() });
    s.blocks.push(Block::ToolUse { id: "1".into(), name: "Edit".into(), input: "{}".into() });
    s.blocks.push(Block::ToolUse { id: "2".into(), name: "Bash".into(), input: "{}".into() });
    assert_eq!(s.text(), "a\nb");
    assert_eq!(s.tool_names(), vec!["Edit", "Bash"]);
    assert!(!s.has_error_result());
    let run = Run::new(RunMeta::default(), vec![s, text_step(1, Role::User, "x")]);
    assert_eq!(run.tool_calls(), 2);
    assert_eq!(run.assistant_steps(), 1);
    assert_eq!(run.format, 1);
}

#[test]
fn integrity_reports_the_seq_of_the_first_bad_step() {
    let mut a = text_step(7, Role::User, "one");
    let b = text_step(9, Role::Assistant, "two");
    a.hash = "0".repeat(24);
    let run = Run::new(RunMeta::default(), vec![b, a]);
    assert_eq!(run.verify_integrity(), Err(7));
}

#[test]
fn only_formats_up_to_this_version_are_readable() {
    assert!(readable_format(0));
    assert!(readable_format(FORMAT_VERSION));
    assert!(!readable_format(FORMAT_VERSION + 1));
}
