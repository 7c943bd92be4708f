//! Deterministic replay.
//!
//! Replay reconstructs a run's observable behaviour from the recording alone:
//! every step's content hash is recomputed and checked against the recording,
//! and the run can be rendered as a compact transcript.

use vstd::prelude::*;

use crate::model::{Block, BlockV, Role, Run, Step};
use crate::strings::{chars_of, push_char, push_decimal, push_str};

verus! {

pub struct ReplayReport {
    pub digest: String,
    pub steps: usize,
    pub tool_calls: usize,
    /// None if every recomputed step hash matched; Some(seq) at the first that did not.
    pub integrity_break: Option<usize>,
    /// True when every recomputed step hash matched the recording.
    pub verified: bool,
}

/// Replay a run: its digest, counts, and the first step whose content does
/// not match its recorded hash.
pub fn replay(run: &Run) -> (r: ReplayReport)
    requires
        crate::model::tool_call_count(run.steps@) <= usize::MAX,
    ensures
        r.digest@ == crate::model::run_digest(run.steps@),
        r.steps == run.steps@.len(),
        r.tool_calls == crate::model::tool_call_count(run.steps@),
        r.integrity_break is None <==> crate::model::first_inconsistent(run.steps@) is None,
        r.integrity_break matches Some(seq) ==> exists|k: int|
            crate::model::first_inconsistent(run.steps@) == Some(k) && seq == run.steps@[k].seq,
        r.verified == r.integrity_break is None,
{
    let integrity_break = match run.verify_integrity() {
        Ok(()) => None,
        Err(seq) => Some(seq),
    };
    ReplayReport {
        digest: run.digest(),
        steps: run.steps.len(),
        tool_calls: run.tool_calls(),
        verified: integrity_break.is_none(),
        integrity_break,
    }
}

/// The text on one line: newlines become spaces.
pub open spec fn one_line(s: Seq<char>) -> Seq<char> {
    s.map_values(|c: char| if c == '\n' { ' ' } else { c })
}

/// The text on one line, cut to `max` characters with an ellipsis when longer.
pub open spec fn truncated(s: Seq<char>, max: usize) -> Seq<char> {
    let l = one_line(s);
    if l.len() <= max {
        l
    } else {
        l.take(max as int) + "…"@
    }
}

/// Put a text on one line and cut it to `max` characters.
pub fn truncate(s: &str, max: usize) -> (r: String)
    ensures
        r@ == truncated(s@, max),
{
    let chars = chars_of(s);
    let n = chars.len();
    let mut r = String::new();
    let mut i: usize = 0;
    while i < n && i < max
        invariant
            n == chars@.len(),
            i <= n,
            i <= max,
            r@ == one_line(s@).take(i as int),
            chars@ == s@,
        decreases n - i,
    {
        let c = chars[i];
        if c == '\n' {
            push_char(&mut r, ' ');
        } else {
            push_char(&mut r, c);
        }
        assert(one_line(s@).take(i + 1) == one_line(s@).take(i as int).push(one_line(s@)[i as int]));
        i = i + 1;
    }
    assert(one_line(s@).len() == n);
    if n > max {
        assert(i == max);
        push_str(&mut r, "…");
        assert(r@ == one_line(s@).take(max as int) + "…"@);
    } else {
        assert(i == n);
        assert(one_line(s@).take(n as int) =~= one_line(s@));
    }
    r
}

/// A text right-aligned in three columns.
pub open spec fn pad3(s: Seq<char>) -> Seq<char> {
    if s.len() >= 3 {
        s
    } else {
        Seq::new((3 - s.len()) as nat, |i: int| ' ') + s
    }
}

/// The word a role is rendered by.
pub open spec fn role_word(r: Role) -> Seq<char> {
    match r {
        Role::User => "user"@,
        Role::Assistant => "assistant"@,
        Role::System => "system"@,
    }
}

/// The rendered line of a block.
pub open spec fn block_line(b: BlockV, max: usize) -> Seq<char> {
    match b {
        BlockV::Text { text } => "      "@ + truncated(text, max) + "\n"@,
        BlockV::Thinking { len } => "      (thinking, "@ + crate::strings::dec(len as nat) + " chars)\n"@,
        BlockV::ToolUse { name, input, .. } => "      → "@ + name + " "@ + truncated(input, max) + "\n"@,
        BlockV::ToolResult { output, is_error, .. } => "      "@ + (if is_error {
            "✘ error"@
        } else {
            "✔"@
        }) + " "@ + truncated(output, max) + "\n"@,
    }
}

/// The rendered lines of a list of blocks.
pub open spec fn block_lines(bs: Seq<BlockV>, max: usize) -> Seq<char>
    decreases bs.len(),
{
    if bs.len() == 0 {
        seq![]
    } else {
        block_lines(bs.drop_last(), max) + block_line(bs.last(), max)
    }
}

/// The rendered lines of a step: a header, then one line per block.
pub open spec fn step_lines(s: Step, max: usize) -> Seq<char> {
    "["@ + pad3(crate::strings::dec(s.seq as nat)) + "] "@ + role_word(s.role) + "\n"@ + block_lines(
        crate::model::blocks_view(s.blocks@),
        max,
    )
}

/// The rendered transcript of a list of steps.
pub open spec fn playback(steps: Seq<Step>, max: usize) -> Seq<char>
    decreases steps.len(),
{
    if steps.len() == 0 {
        seq![]
    } else {
        playback(steps.drop_last(), max) + step_lines(steps.last(), max)
    }
}

/// The rendered transcript follows the run's order: rendering two runs one
/// after the other renders the first, then the second, and a single step
/// renders as its own lines.
pub proof fn playback_follows_run_order(a: Seq<Step>, b: Seq<Step>, max: usize)
    ensures
        playback(a + b, max) == playback(a, max) + playback(b, max),
        forall|s: Step| #[trigger] playback(seq![s], max) == step_lines(s, max),
    decreases b.len(),
{
    assert forall|s: Step| #[trigger] playback(seq![s], max) == step_lines(s, max) by {
        let one = seq![s];
        assert(one.len() == 1);
        assert(one.last() == s);
        assert(one.drop_last() =~= Seq::<Step>::empty());
        assert(playback(one.drop_last(), max) == Seq::<char>::empty());
        assert(playback(one, max) == playback(one.drop_last(), max) + step_lines(s, max));
        assert(Seq::<char>::empty() + step_lines(s, max) =~= step_lines(s, max));
    }
    if b.len() == 0 {
        assert(a + b =~= a);
        assert(playback(a, max) + Seq::<char>::empty() =~= playback(a, max));
    } else {
        playback_follows_run_order(a, b.drop_last(), max);
        assert((a + b).drop_last() =~= a + b.drop_last());
        assert((a + b).last() == b.last());
    }
}

fn push_block_line(out: &mut String, b: &Block, max: usize)
    ensures
        final(out)@ == old(out)@ + block_line(b@, max),
{
    let ghost start = out@;
    match b {
        Block::Text { text } => {
            push_str(out, "      ");
            let t = truncate(text.as_str(), max);
            push_str(out, t.as_str());
            push_str(out, "\n");
        },
        Block::Thinking { len } => {
            push_str(out, "      (thinking, ");
            push_decimal(out, *len);
            push_str(out, " chars)\n");
        },
        Block::ToolUse { name, input, .. } => {
            push_str(out, "      → ");
            push_str(out, name.as_str());
            push_str(out, " ");
            let t = truncate(input.as_str(), max);
            push_str(out, t.as_str());
            push_str(out, "\n");
        },
        Block::ToolResult { output, is_error, .. } => {
            push_str(out, "      ");
            if *is_error {
                push_str(out, "✘ error");
            } else {
                push_str(out, "✔");
            }
            push_str(out, " ");
            let t = truncate(output.as_str(), max);
            push_str(out, t.as_str());
            push_str(out, "\n");
        },
    }
    assert(out@ =~= start + block_line(b@, max));
}

fn push_step_header(out: &mut String, s: &Step)
    ensures
        final(out)@ == old(out)@ + "["@ + pad3(crate::strings::dec(s.seq as nat)) + "] "@ + role_word(s.role)
            + "\n"@,
{
    let ghost start = out@;
    let mut num = String::new();
    push_decimal(&mut num, s.seq);
    let digits = chars_of(num.as_str());
    push_str(out, "[");
    let mut k = digits.len();
    while k < 3
        invariant
            digits@.len() <= k <= 3 || (k == digits@.len() && k >= 3),
            out@ == start + "["@ + Seq::new((k - digits@.len()) as nat, |i: int| ' '),
        decreases 3 - k,
    {
        push_char(out, ' ');
        assert(Seq::new((k + 1 - digits@.len()) as nat, |i: int| ' ') =~= Seq::new(
            (k - digits@.len()) as nat,
            |i: int| ' ',
        ).push(' '));
        k = k + 1;
    }
    push_str(out, num.as_str());
    assert(out@ =~= start + "["@ + pad3(crate::strings::dec(s.seq as nat)));
    push_str(out, "] ");
    match s.role {
        Role::User => push_str(out, "user"),
        Role::Assistant => push_str(out, "assistant"),
        Role::System => push_str(out, "system"),
    }
    push_str(out, "\n");
}

/// A compact, human-readable transcript of the reconstructed run, each
/// text cut to `max_chars` characters.
pub fn render_playback(run: &Run, max_chars: usize) -> (out: String)
    ensures
        out@ == playback(run.steps@, max_chars),
{
    let mut out = String::new();
    for i in 0..run.steps.len()
        invariant
            out@ == playback(run.steps@.take(i as int), max_chars),
    {
        let step = &run.steps[i];
        assert(run.steps@.take(i + 1).drop_last() == run.steps@.take(i as int));
        let ghost before = out@;
        push_step_header(&mut out, step);
        let ghost header = out@;
        let ghost bv = crate::model::blocks_view(step.blocks@);
        for j in 0..step.blocks.len()
            invariant
                bv == crate::model::blocks_view(step.blocks@),
                out@ == header + block_lines(bv.take(j as int), max_chars),
        {
            assert(bv.take(j + 1).drop_last() == bv.take(j as int));
            push_block_line(&mut out, &step.blocks[j], max_chars);
        }
        assert(bv.take(bv.len() as int) == bv);
        assert(out@ =~= before + step_lines(*step, max_chars));
    }
    assert(run.steps@.take(run.steps@.len() as int) == run.steps@);
    out
}

} // verus!
