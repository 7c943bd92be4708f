use agent_replay::diff::diff;
use agent_replay::fork::{fork, ForkError};
use agent_replay::model::{Block, Role, Run, RunMeta, Step};

fn run() -> Run {
    let mk = |seq: usize, role: Role, t: &str| {
        let blocks = vec![Block::Text { text: t.into() }];
        let hash = Step::compute_hash(&role, &blocks);
        Step {
            seq,
            uuid: format!("u{seq}"),
            parent: None,
            role,
            ts: None,
            blocks,
            hash,
        }
    };
    Run::new(
        RunMeta::default(),
        vec![
            mk(0, Role::User, "a"),
            mk(1, Role::Assistant, "b"),
            mk(2, Role::User, "c"),
        ],
    )
}

#[test]
fn keeps_prefix_and_seeds_prompt() {
    let f = fork(&run(), 1, Some("new direction")).unwrap();
    assert_eq!(f.steps.len(), 3); // steps 0,1 + new prompt
    assert_eq!(f.steps[2].role, Role::User);
    assert_eq!(f.steps[2].text(), "new direction");
    assert!(f.verify_integrity().is_ok());
}

#[test]
fn fork_without_prompt_just_truncates() {
    let f = fork(&run(), 0, None).unwrap();
    assert_eq!(f.steps.len(), 1);
}

#[test]
fn fork_past_end_errors() {
    assert!(fork(&run(), 99, None).is_err());
}

#[test]
fn fork_seed_step_fields_and_source() {
    let base = run();
    let f = fork(&base, 1, Some("again")).unwrap();
    let seed = &f.steps[2];
    assert_eq!(seed.seq, 2);
    assert_eq!(seed.parent.as_deref(), Some("u1"));
    assert_eq!(seed.hash, Step::compute_hash(&Role::User, &[Block::Text { text: "again".into() }]));
    assert_eq!(seed.uuid, format!("fork-{}", &seed.hash[..8]));
    assert!(seed.ts.is_none());
    assert_eq!(f.steps[0].uuid, "u0");
    assert_eq!(f.steps[1].hash, base.steps[1].hash);
    assert_eq!(f.meta.source.as_deref(), Some("fork:run@1"));
    let mut with_id = run();
    with_id.meta.session_id = Some("abc".into());
    let g = fork(&with_id, 2, None).unwrap();
    assert_eq!(g.meta.source.as_deref(), Some("fork:abc@2"));
    assert_eq!(g.meta.session_id.as_deref(), Some("abc"));
    assert_eq!(g.steps.len(), 3);
}

#[test]
fn fork_error_names_the_bounds() {
    let e = fork(&run(), 5, None).unwrap_err();
    assert_eq!(e, ForkError::PastEnd { at: 5, len: 3 });
    assert_eq!(e.message(), "cannot fork at step 5: run has 3 steps (0..2)");
    let empty = Run::new(RunMeta::default(), vec![]);
    let e2 = fork(&empty, 0, None).unwrap_err();
    assert_eq!(e2.message(), "cannot fork at step 0: run has 0 steps (0..0)");
}

#[test]
fn diff_against_a_fork_diverges_after_the_fork_point() {
    let base = run();
    let truncated = fork(&base, 0, None).unwrap();
    assert_eq!(diff(&base, &truncated).first_divergence, Some(1));
    let whole = fork(&base, 2, None).unwrap();
    assert!(diff(&base, &whole).identical);
    let seeded = fork(&base, 1, Some("elsewhere")).unwrap();
    assert_eq!(diff(&base, &seeded).first_divergence, Some(2));
}
