use agent_replay::diff::{diff, StepDiff};
use agent_replay::model::{Block, Role, Run, RunMeta, Step};

fn step(seq: usize, role: Role, blocks: Vec<Block>) -> Step {
    let hash = Step::compute_hash(&role, &blocks);
    Step {
        seq,
        uuid: format!("u{seq}"),
        parent: None,
        role,
        ts: None,
        blocks,
        hash,
    }
}
fn txt(s: &str) -> Block {
    Block::Text { text: s.into() }
}
fn run(steps: Vec<Step>) -> Run {
    Run::new(RunMeta::default(), steps)
}

#[test]
fn identical_runs() {
    let a = run(vec![step(0, Role::User, vec![txt("hi")])]);
    let b = run(vec![step(0, Role::User, vec![txt("hi")])]);
    let d = diff(&a, &b);
    assert!(d.identical);
    assert_eq!(d.first_divergence, None);
}

#[test]
fn detects_changed_tool_and_divergence_point() {
    let a = run(vec![
        step(0, Role::User, vec![txt("go")]),
        step(
            1,
            Role::Assistant,
            vec![Block::ToolUse {
                id: "1".into(),
                name: "Read".into(),
                input: "{}".into(),
            }],
        ),
    ]);
    let b = run(vec![
        step(0, Role::User, vec![txt("go")]),
        step(
            1,
            Role::Assistant,
            vec![Block::ToolUse {
                id: "1".into(),
                name: "Edit".into(),
                input: "{}".into(),
            }],
        ),
    ]);
    let d = diff(&a, &b);
    assert!(!d.identical);
    assert_eq!(d.first_divergence, Some(1));
    match &d.rows[1].1 {
        StepDiff::Changed { detail } => assert!(detail.contains("tool calls changed")),
        _ => panic!("expected a change at step 1"),
    }
}

#[test]
fn detects_added_steps() {
    let a = run(vec![step(0, Role::User, vec![txt("hi")])]);
    let b = run(vec![
        step(0, Role::User, vec![txt("hi")]),
        step(1, Role::Assistant, vec![txt("more")]),
    ]);
    let d = diff(&a, &b);
    assert_eq!(d.rows[1].1, StepDiff::OnlyInB);
}

fn detail_of(d: &StepDiff) -> String {
    match d {
        StepDiff::Changed { detail } => detail.clone(),
        _ => panic!("expected a change"),
    }
}

#[test]
fn change_details_are_exact() {
    let tool = |name: &str, input: &str| Block::ToolUse { id: "x".into(), name: name.into(), input: input.into() };
    let res = |out: &str, err: bool| Block::ToolResult { tool_use_id: "x".into(), output: out.into(), is_error: err };
    let a = run(vec![
        step(0, Role::User, vec![txt("a")]),
        step(1, Role::Assistant, vec![tool("Read", "{}"), tool("Bash", "{}")]),
        step(2, Role::Assistant, vec![tool("Bash", "{\"a\":1}")]),
        step(3, Role::User, vec![res("ok", false)]),
        step(4, Role::User, vec![res("bad", true)]),
        step(5, Role::Assistant, vec![txt("x")]),
        step(6, Role::Assistant, vec![txt("x")]),
        step(7, Role::Assistant, vec![Block::Thinking { len: 1 }]),
    ]);
    let b = run(vec![
        step(0, Role::Assistant, vec![txt("a")]),
        step(1, Role::Assistant, vec![tool("Edit", "{}")]),
        step(2, Role::Assistant, vec![tool("Bash", "{\"a\":2}")]),
        step(3, Role::User, vec![res("ok", true)]),
        step(4, Role::User, vec![res("fine", false)]),
        step(5, Role::Assistant, vec![txt("y")]),
        step(6, Role::Assistant, vec![txt("x"), Block::Thinking { len: 2 }]),
        step(7, Role::Assistant, vec![Block::Thinking { len: 2 }]),
    ]);
    let d = diff(&a, &b);
    assert_eq!(d.rows.len(), 8);
    assert_eq!(detail_of(&d.rows[0].1), "role changed: User → Assistant");
    assert_eq!(detail_of(&d.rows[1].1), "tool calls changed: [Read, Bash] → [Edit]");
    assert_eq!(detail_of(&d.rows[2].1), "tool `Bash` input changed");
    assert_eq!(detail_of(&d.rows[3].1), "tool result changed (now errored)");
    assert_eq!(detail_of(&d.rows[4].1), "tool result changed (now succeeded)");
    assert_eq!(detail_of(&d.rows[5].1), "assistant text changed");
    assert_eq!(detail_of(&d.rows[6].1), "block count changed: 1 → 2");
    assert_eq!(detail_of(&d.rows[7].1), "content changed");
    assert_eq!(d.first_divergence, Some(0));
    for (i, row) in d.rows.iter().enumerate() {
        assert_eq!(row.0, i);
    }
}

#[test]
fn diff_with_itself_is_identical_and_removed_steps_are_only_in_a() {
    let a = run(vec![step(0, Role::User, vec![txt("hi")]), step(1, Role::Assistant, vec![txt("yo")])]);
    let d = diff(&a, &a);
    assert!(d.identical);
    assert_eq!(d.rows.len(), 2);
    assert!(d.rows.iter().all(|r| r.1 == StepDiff::Same));
    let b = run(vec![step(0, Role::User, vec![txt("hi")])]);
    let d2 = diff(&a, &b);
    assert_eq!(d2.rows[1].1, StepDiff::OnlyInA);
    assert_eq!(d2.first_divergence, Some(1));
    assert!(!d2.identical);
}
