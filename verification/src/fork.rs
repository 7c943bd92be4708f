//! Fork a run at a step to explore an alternative.
//!
//! A fork keeps the run's prefix (steps 0..=at) verbatim and, if a new prompt
//! is given, appends it as the next user step.

use vstd::prelude::*;

use crate::diff::{first_divergence_in, row_count, row_of};
use crate::model::{copy_meta, copy_step, same_step, Block, BlockV, Role, Run, RunMeta, Step};
use crate::strings::{chars_of, push_decimal, push_str, string_of};

verus! {

/// Why a run cannot be forked.
#[derive(Debug, Clone, Copy, PartialEq, Eq, Structural)]
pub enum ForkError {
    /// The fork point is not a step of the run.
    PastEnd { at: usize, len: usize },
}

impl ForkError {
    /// The error's message.
    pub fn message(&self) -> (m: String)
        ensures
            match *self {
                ForkError::PastEnd { at, len } => m@ == "cannot fork at step "@ + crate::strings::dec(
                    at as nat,
                ) + ": run has "@ + crate::strings::dec(len as nat) + " steps (0.."@
                    + crate::strings::dec(if len > 0 { (len - 1) as nat } else { 0 }) + ")"@,
            },
    {
        let mut m = String::new();
        match self {
            ForkError::PastEnd { at, len } => {
                push_str(&mut m, "cannot fork at step ");
                push_decimal(&mut m, *at);
                push_str(&mut m, ": run has ");
                push_decimal(&mut m, *len);
                push_str(&mut m, " steps (0..");
                push_decimal(&mut m, len.saturating_sub(1));
                push_str(&mut m, ")");
            },
        }
        m
    }
}

/// The source recorded for a fork of a run with this session id at step `at`.
pub open spec fn fork_source(session_id: Option<String>, at: usize) -> Seq<char> {
    "fork:"@ + match session_id {
        Some(s) => s@,
        None => "run"@,
    } + "@"@ + crate::strings::dec(at as nat)
}

/// The blocks of a seeded prompt.
pub open spec fn prompt_blocks(prompt: Seq<char>) -> Seq<BlockV> {
    seq![BlockV::Text { text: prompt }]
}

/// The step that seeds a new prompt after step `at` of `run`.
pub open spec fn is_seed_step(s: Step, run: Run, at: usize, prompt: Seq<char>) -> bool {
    &&& s.seq == at + 1
    &&& s.role == Role::User
    &&& s.ts is None
    &&& crate::model::blocks_view(s.blocks@) == prompt_blocks(prompt)
    &&& s.hash@ == crate::model::step_hash(Role::User, prompt_blocks(prompt))
    &&& s.uuid@ == "fork-"@ + s.hash@.take(8)
    &&& s.parent == Some(run.steps@[at as int].uuid)
}

/// Branch a run at step `at`, keeping steps `0..=at` and, if a prompt is
/// given, seeding it as the next user step.
pub fn fork(run: &Run, at: usize, new_prompt: Option<&str>) -> (r: Result<Run, ForkError>)
    ensures
        r is Err <==> at >= run.steps@.len(),
        r matches Err(e) ==> e == (ForkError::PastEnd { at, len: run.steps.len() }),
        r matches Ok(f) ==> {
            &&& f.format == crate::model::FORMAT_VERSION
            &&& f.steps@.len() == at + 1 + if new_prompt is Some { 1int } else { 0int }
            &&& forall|i: int| 0 <= i <= at ==> crate::model::same_step(#[trigger] f.steps@[i], run.steps@[i])
            &&& new_prompt matches Some(p) ==> is_seed_step(f.steps@[at + 1], *run, at, p@)
            &&& f.meta.source matches Some(src) && src@ == fork_source(run.meta.session_id, at)
            &&& f.meta.session_id == run.meta.session_id
            &&& f.meta.cwd == run.meta.cwd
            &&& f.meta.git_branch == run.meta.git_branch
            &&& f.meta.claude_version == run.meta.claude_version
        },
        r matches Ok(f) ==> (forall|i: int| 0 <= i <= at ==> crate::model::step_consistent(#[trigger] run.steps@[i]))
            ==> forall|i: int| 0 <= i < f.steps@.len() ==> crate::model::step_consistent(#[trigger] f.steps@[i]),
{
    if at >= run.steps.len() {
        return Err(ForkError::PastEnd { at, len: run.steps.len() });
    }
    let mut steps: Vec<Step> = Vec::new();
    for i in 0..at + 1
        invariant
            at < run.steps@.len(),
            steps@.len() == i,
            forall|j: int| 0 <= j < i ==> crate::model::same_step(#[trigger] steps@[j], run.steps@[j]),
    {
        steps.push(copy_step(&run.steps[i]));
    }
    match new_prompt {
        Some(prompt) => {
            let mut text = String::new();
            push_str(&mut text, prompt);
            let blocks = vec![Block::Text { text }];
            assert(crate::model::blocks_view(blocks@) =~= prompt_blocks(prompt@));
            let hash = Step::compute_hash(&Role::User, blocks.as_slice());
            let parent = Some(run.steps[at].uuid.clone());
            let hash_chars = chars_of(hash.as_str());
            let mut uuid = String::new();
            push_str(&mut uuid, "fork-");
            let short = string_of(&hash_chars, 0, 8);
            push_str(&mut uuid, short.as_str());
            assert(hash_chars@.subrange(0, 8) == hash@.take(8));
            let seed = Step { seq: steps.len(), uuid, parent, role: Role::User, ts: None, blocks, hash };
            steps.push(seed);
        },
        None => {},
    }
    let base = copy_meta(&run.meta);
    let mut source = String::new();
    push_str(&mut source, "fork:");
    match &run.meta.session_id {
        Some(s) => push_str(&mut source, s.as_str()),
        None => push_str(&mut source, "run"),
    }
    push_str(&mut source, "@");
    push_decimal(&mut source, at);
    assert(source@ =~= fork_source(run.meta.session_id, at));
    let meta = RunMeta {
        session_id: base.session_id,
        cwd: base.cwd,
        git_branch: base.git_branch,
        claude_version: base.claude_version,
        source: Some(source),
    };
    Ok(Run::new(meta, steps))
}

/// Diffing a run against a fork of it finds no divergence up to the fork
/// point; a fork without a prompt diverges exactly at the first dropped step,
/// and not at all when nothing was dropped.
pub proof fn fork_diverges_only_after_fork_point(run: Seq<Step>, forked: Seq<Step>, at: int)
    requires
        0 <= at < run.len(),
        at < forked.len(),
        forall|i: int| 0 <= i <= at ==> same_step(#[trigger] forked[i], run[i]),
    ensures
        first_divergence_in(run, forked, row_count(run, forked)) matches Some(k) ==> k > at,
        forked.len() == at + 1 ==> first_divergence_in(run, forked, row_count(run, forked)) == (
        if run.len() > at + 1 {
            Some(at + 1)
        } else {
            None
        }),
{
    let n = row_count(run, forked);
    assert forall|i: int| 0 <= i < at + 1 && i < n implies #[trigger] row_of(run, forked, i) is Same by {
        assert(same_step(forked[i], run[i]));
    }
    lemma_divergence_from(run, forked, n, at + 1);
}

/// When every position before `m` is the same, the first divergence is at
/// `m` or later, and exactly at `m` when `m` differs.
proof fn lemma_divergence_from(a: Seq<Step>, b: Seq<Step>, n: nat, m: int)
    requires
        0 <= m,
        forall|i: int| 0 <= i < m && i < n ==> #[trigger] row_of(a, b, i) is Same,
    ensures
        first_divergence_in(a, b, n) matches Some(k) ==> m <= k < n,
        m < n && !(row_of(a, b, m) is Same) ==> first_divergence_in(a, b, n) == Some(m),
        m >= n ==> first_divergence_in(a, b, n) is None,
    decreases n,
{
    if n > 0 {
        lemma_divergence_from(a, b, (n - 1) as nat, m);
        if n - 1 < m {
            assert(row_of(a, b, n - 1) is Same);
        }
    }
}

} // verus!
