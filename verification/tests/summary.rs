use agent_replay::model::{Block, Role, Run, RunMeta, Step};
use agent_replay::summary::{first_prompt_preview, run_format, truncate, RunFormat};

fn step(seq: usize, role: Role, blocks: Vec<Block>) -> Step {
    let hash = Step::compute_hash(&role, &blocks);
    Step {
        seq,
        uuid: format!("u{seq}"),
        parent: None,
        role,
        ts: None,
        blocks,
        hash,
    }
}

fn text(t: &str) -> Block {
    Block::Text { text: t.into() }
}

#[test]
fn truncate_keeps_short_text() {
    assert_eq!(truncate("hello", 5), "hello");
    assert_eq!(truncate("", 0), "");
}

#[test]
fn truncate_cuts_by_characters_and_marks_the_cut() {
    assert_eq!(truncate("hello world", 5), "hello…");
    assert_eq!(truncate("héllo", 2), "hé…");
    assert_eq!(truncate("abc", 0), "…");
}

#[test]
fn preview_is_first_line_of_first_user_step_trimmed() {
    let run = Run::new(
        RunMeta::default(),
        vec![
            step(0, Role::Assistant, vec![text("ignored")]),
            step(1, Role::User, vec![text("   Add a flag  \nand run tests")]),
            step(2, Role::User, vec![text("later prompt")]),
        ],
    );
    assert_eq!(first_prompt_preview(&run), Some("Add a flag".to_string()));
}

#[test]
fn preview_is_cut_at_seventy_two_characters() {
    let long = "x".repeat(80);
    let run = Run::new(RunMeta::default(), vec![step(0, Role::User, vec![text(&long)])]);
    let expected = format!("{}…", "x".repeat(72));
    assert_eq!(first_prompt_preview(&run), Some(expected));
}

#[test]
fn preview_absent_without_user_step_or_blank_first_line() {
    let none = Run::new(RunMeta::default(), vec![step(0, Role::Assistant, vec![text("a")])]);
    assert_eq!(first_prompt_preview(&none), None);
    let blank = Run::new(
        RunMeta::default(),
        vec![step(0, Role::User, vec![text("   \nsecond line")])],
    );
    assert_eq!(first_prompt_preview(&blank), None);
    let empty = Run::new(RunMeta::default(), vec![]);
    assert_eq!(first_prompt_preview(&empty), None);
}

#[test]
fn run_format_dispatches_on_extension() {
    assert_eq!(run_format(Some("jsonl")), RunFormat::Transcript);
    assert_eq!(run_format(Some("replay")), RunFormat::Replay);
    assert_eq!(run_format(Some("JSONL")), RunFormat::Replay);
    assert_eq!(run_format(None), RunFormat::Replay);
}
