//! Semantic diff between two runs.
//!
//! Runs are compared step by step by content hash, not by text. The output
//! answers where two runs first diverged and what changed.

use vstd::prelude::*;

use crate::model::{Block, BlockV, Role, Run, Step};
use crate::strings::{push_decimal, push_str, str_eq};

verus! {

#[derive(Debug)]
pub enum StepDiff {
    Same,
    Changed { detail: String },
    OnlyInA,
    OnlyInB,
}

/// A step comparison with its detail as characters.
pub enum StepDiffV {
    Same,
    Changed { detail: Seq<char> },
    OnlyInA,
    OnlyInB,
}

impl View for StepDiff {
    type V = StepDiffV;

    open spec fn view(&self) -> StepDiffV {
        match self {
            StepDiff::Same => StepDiffV::Same,
            StepDiff::Changed { detail } => StepDiffV::Changed { detail: detail@ },
            StepDiff::OnlyInA => StepDiffV::OnlyInA,
            StepDiff::OnlyInB => StepDiffV::OnlyInB,
        }
    }
}

impl PartialEq for StepDiff {
    fn eq(&self, other: &Self) -> (r: bool) {
        match (self, other) {
            (StepDiff::Same, StepDiff::Same) => true,
            (StepDiff::Changed { detail: a }, StepDiff::Changed { detail: b }) => str_eq(
                a.as_str(),
                b.as_str(),
            ),
            (StepDiff::OnlyInA, StepDiff::OnlyInA) => true,
            (StepDiff::OnlyInB, StepDiff::OnlyInB) => true,
            _ => false,
        }
    }
}

impl vstd::std_specs::cmp::PartialEqSpecImpl for StepDiff {
    open spec fn obeys_eq_spec() -> bool {
        true
    }

    open spec fn eq_spec(&self, other: &Self) -> bool {
        match (self, other) {
            (StepDiff::Same, StepDiff::Same) => true,
            (StepDiff::Changed { detail: a }, StepDiff::Changed { detail: b }) => a@ == b@,
            (StepDiff::OnlyInA, StepDiff::OnlyInA) => true,
            (StepDiff::OnlyInB, StepDiff::OnlyInB) => true,
            _ => false,
        }
    }
}

impl Eq for StepDiff {}

pub struct RunDiff {
    pub rows: Vec<(usize, StepDiff)>,
    pub first_divergence: Option<usize>,
    pub identical: bool,
}

/// The name a role is shown by.
pub open spec fn role_name(r: Role) -> Seq<char> {
    match r {
        Role::User => "User"@,
        Role::Assistant => "Assistant"@,
        Role::System => "System"@,
    }
}

/// The note on a tool result whose error status flipped.
pub open spec fn flip_note(was_error: bool, is_error: bool) -> Seq<char> {
    if !was_error && is_error {
        " (now errored)"@
    } else if was_error && !is_error {
        " (now succeeded)"@
    } else {
        ""@
    }
}

/// How two same-position blocks differ, if in a way worth reporting.
pub open spec fn block_change(x: BlockV, y: BlockV) -> Option<Seq<char>> {
    match (x, y) {
        (BlockV::ToolUse { name, input: ia, .. }, BlockV::ToolUse { input: ib, .. }) => if ia != ib {
            Some("tool `"@ + name + "` input changed"@)
        } else {
            None
        },
        (
            BlockV::ToolResult { is_error: ea, output: oa, .. },
            BlockV::ToolResult { is_error: eb, output: ob, .. },
        ) => if ea != eb || oa != ob {
            Some("tool result changed"@ + flip_note(ea, eb))
        } else {
            None
        },
        (BlockV::Text { text: xa }, BlockV::Text { text: xb }) => if xa != xb {
            Some("assistant text changed"@)
        } else {
            None
        },
        _ => None,
    }
}

/// The first reportable change among the first `n` block pairs.
pub open spec fn first_pair_change(a: Seq<BlockV>, b: Seq<BlockV>, n: nat) -> Option<Seq<char>>
    decreases n,
{
    if n == 0 {
        None
    } else {
        match first_pair_change(a, b, (n - 1) as nat) {
            Some(d) => Some(d),
            None => block_change(a[n - 1], b[n - 1]),
        }
    }
}

/// Once a change is found among the first `m` pairs, more pairs keep it.
proof fn lemma_first_pair_stable(a: Seq<BlockV>, b: Seq<BlockV>, m: nat, n: nat)
    requires
        m <= n,
        first_pair_change(a, b, m) is Some,
    ensures
        first_pair_change(a, b, n) == first_pair_change(a, b, m),
    decreases n - m,
{
    if m < n {
        lemma_first_pair_stable(a, b, m, (n - 1) as nat);
    }
}

/// How two block lists differ: the first changed pair, else a changed count.
pub open spec fn first_block_change(a: Seq<BlockV>, b: Seq<BlockV>) -> Option<Seq<char>> {
    let n = if a.len() < b.len() {
        a.len()
    } else {
        b.len()
    };
    match first_pair_change(a, b, n) {
        Some(d) => Some(d),
        None => if a.len() != b.len() {
            Some(
                "block count changed: "@ + crate::strings::dec(a.len()) + " → "@ + crate::strings::dec(
                    b.len(),
                ),
            )
        } else {
            None
        },
    }
}

/// One line on how two same-position steps differ: role first, then tool
/// calls, then the first changed block.
pub open spec fn change_description(a: Step, b: Step) -> Seq<char> {
    let ta = crate::model::tool_names_of(a.blocks@);
    let tb = crate::model::tool_names_of(b.blocks@);
    if a.role != b.role {
        "role changed: "@ + role_name(a.role) + " → "@ + role_name(b.role)
    } else if ta != tb {
        "tool calls changed: ["@ + crate::strings::join(ta, ", "@) + "] → ["@ + crate::strings::join(
            tb,
            ", "@,
        ) + "]"@
    } else {
        match first_block_change(crate::model::blocks_view(a.blocks@), crate::model::blocks_view(b.blocks@)) {
            Some(d) => d,
            None => "content changed"@,
        }
    }
}

/// How position `i` of two runs compares.
pub open spec fn row_of(a: Seq<Step>, b: Seq<Step>, i: int) -> StepDiffV {
    if i < a.len() && i < b.len() {
        if a[i].hash@ == b[i].hash@ {
            StepDiffV::Same
        } else {
            StepDiffV::Changed { detail: change_description(a[i], b[i]) }
        }
    } else if i < a.len() {
        StepDiffV::OnlyInA
    } else {
        StepDiffV::OnlyInB
    }
}

/// The first of the first `n` positions that is not the same.
pub open spec fn first_divergence_in(a: Seq<Step>, b: Seq<Step>, n: nat) -> Option<int>
    decreases n,
{
    if n == 0 {
        None
    } else {
        match first_divergence_in(a, b, (n - 1) as nat) {
            Some(i) => Some(i),
            None => if row_of(a, b, n - 1) is Same {
                None
            } else {
                Some(n - 1)
            },
        }
    }
}

/// The number of positions two runs are compared at.
pub open spec fn row_count(a: Seq<Step>, b: Seq<Step>) -> nat {
    if a.len() < b.len() {
        b.len()
    } else {
        a.len()
    }
}

/// Two runs diff as identical exactly when they have the same number of
/// steps and the same step hashes in order.
pub proof fn identical_iff_same_hashes(a: Seq<Step>, b: Seq<Step>)
    ensures
        first_divergence_in(a, b, row_count(a, b)) is None <==> (a.len() == b.len() && forall|i: int|
            0 <= i < a.len() ==> (#[trigger] a[i]).hash@ == b[i].hash@),
{
    let n = row_count(a, b);
    lemma_first_divergence_none(a, b, n);
    if first_divergence_in(a, b, n) is None {
        if a.len() != b.len() {
            let k = if a.len() < b.len() { a.len() as int } else { b.len() as int };
            assert(row_of(a, b, k) is Same);
        }
        assert forall|i: int| 0 <= i < a.len() implies (#[trigger] a[i]).hash@ == b[i].hash@ by {
            assert(row_of(a, b, i) is Same);
        }
    } else {
        if a.len() == b.len() && forall|i: int| 0 <= i < a.len() ==> (#[trigger] a[i]).hash@ == b[i].hash@ {
            assert forall|i: int| 0 <= i < n implies #[trigger] row_of(a, b, i) is Same by {
                assert(a[i].hash@ == b[i].hash@);
            }
        }
    }
}

/// No divergence among the first `n` positions means every one is the same.
proof fn lemma_first_divergence_none(a: Seq<Step>, b: Seq<Step>, n: nat)
    ensures
        first_divergence_in(a, b, n) is None <==> forall|i: int| 0 <= i < n ==> #[trigger] row_of(a, b, i) is Same,
    decreases n,
{
    if n > 0 {
        lemma_first_divergence_none(a, b, (n - 1) as nat);
        if first_divergence_in(a, b, (n - 1) as nat) is Some {
            lemma_first_divergence_some(a, b, (n - 1) as nat);
        }
    }
}

/// A divergence found among the first `n` positions is one of them, and not the same.
proof fn lemma_first_divergence_some(a: Seq<Step>, b: Seq<Step>, n: nat)
    requires
        first_divergence_in(a, b, n) is Some,
    ensures
        0 <= first_divergence_in(a, b, n)->0 < n,
        !(row_of(a, b, first_divergence_in(a, b, n)->0) is Same),
    decreases n,
{
    if n > 0 && first_divergence_in(a, b, (n - 1) as nat) is Some {
        lemma_first_divergence_some(a, b, (n - 1) as nat);
    }
}

fn push_role_name(s: &mut String, r: Role)
    ensures
        final(s)@ == old(s)@ + role_name(r),
{
    match r {
        Role::User => push_str(s, "User"),
        Role::Assistant => push_str(s, "Assistant"),
        Role::System => push_str(s, "System"),
    }
}

fn same_names(ta: &Vec<&str>, tb: &Vec<&str>) -> (b: bool)
    ensures
        b == (crate::json::strs_view(ta@) == crate::json::strs_view(tb@)),
{
    if ta.len() != tb.len() {
        assert(crate::json::strs_view(ta@).len() != crate::json::strs_view(tb@).len());
        return false;
    }
    for i in 0..ta.len()
        invariant
            ta@.len() == tb@.len(),
            forall|j: int| 0 <= j < i ==> ta@[j]@ == tb@[j]@,
    {
        if !str_eq(ta[i], tb[i]) {
            assert(crate::json::strs_view(ta@)[i as int] != crate::json::strs_view(tb@)[i as int]);
            return false;
        }
    }
    assert(crate::json::strs_view(ta@) =~= crate::json::strs_view(tb@));
    true
}

fn push_joined(s: &mut String, parts: &Vec<&str>)
    ensures
        final(s)@ == old(s)@ + crate::strings::join(crate::json::strs_view(parts@), ", "@),
{
    let ghost start = s@;
    let ghost pv = crate::json::strs_view(parts@);
    for i in 0..parts.len()
        invariant
            pv == crate::json::strs_view(parts@),
            s@ == start + crate::strings::join(pv.take(i as int), ", "@),
    {
        proof {
            crate::strings::lemma_join_push(pv.take(i as int), ", "@, pv[i as int]);
            assert(pv.take(i as int).push(pv[i as int]) == pv.take(i + 1));
        }
        if i > 0 {
            push_str(s, ", ");
        }
        push_str(s, parts[i]);
    }
    assert(pv.take(pv.len() as int) == pv);
}

fn block_change_of(x: &Block, y: &Block) -> (r: Option<String>)
    ensures
        crate::transcript::opt_view(r) == block_change(x@, y@),
{
    match (x, y) {
        (Block::ToolUse { name, input: ia, .. }, Block::ToolUse { input: ib, .. }) => {
            if *ia != *ib {
                let mut d = String::new();
                push_str(&mut d, "tool `");
                push_str(&mut d, name.as_str());
                push_str(&mut d, "` input changed");
                Some(d)
            } else {
                None
            }
        },
        (
            Block::ToolResult { is_error: ea, output: oa, .. },
            Block::ToolResult { is_error: eb, output: ob, .. },
        ) => {
            if *ea != *eb || *oa != *ob {
                let mut d = String::new();
                push_str(&mut d, "tool result changed");
                if !*ea && *eb {
                    push_str(&mut d, " (now errored)");
                } else if *ea && !*eb {
                    push_str(&mut d, " (now succeeded)");
                } else {
                    push_str(&mut d, "");
                }
                Some(d)
            } else {
                None
            }
        },
        (Block::Text { text: xa }, Block::Text { text: xb }) => {
            if *xa != *xb {
                let mut d = String::new();
                push_str(&mut d, "assistant text changed");
                Some(d)
            } else {
                None
            }
        },
        _ => None,
    }
}

/// The first reportable difference between two block lists.
fn first_block_change_of(a: &Vec<Block>, b: &Vec<Block>) -> (r: Option<String>)
    ensures
        crate::transcript::opt_view(r) == first_block_change(
            crate::model::blocks_view(a@),
            crate::model::blocks_view(b@),
        ),
{
    let ghost av = crate::model::blocks_view(a@);
    let ghost bv = crate::model::blocks_view(b@);
    let n = if a.len() < b.len() {
        a.len()
    } else {
        b.len()
    };
    for i in 0..n
        invariant
            n == (if a@.len() < b@.len() { a@.len() } else { b@.len() }),
            av == crate::model::blocks_view(a@),
            bv == crate::model::blocks_view(b@),
            av.len() == a@.len(),
            bv.len() == b@.len(),
            first_pair_change(av, bv, i as nat) is None,
    {
        match block_change_of(&a[i], &b[i]) {
            Some(d) => {
                proof {
                    assert(av[i as int] == a@[i as int]@);
                    assert(bv[i as int] == b@[i as int]@);
                    assert(first_pair_change(av, bv, (i + 1) as nat) == block_change(av[i as int], bv[i as int]));
                    lemma_first_pair_stable(av, bv, (i + 1) as nat, n as nat);
                    assert(first_pair_change(av, bv, n as nat) == Some(d@));
                    assert((if av.len() < bv.len() { av.len() } else { bv.len() }) == n as nat);
                    assert(first_block_change(av, bv) == Some(d@));
                    assert(crate::transcript::opt_view(Some(d)) == Some(d@));
                }
                return Some(d);
            },
            None => {},
        }
    }
    if a.len() != b.len() {
        let mut d = String::new();
        push_str(&mut d, "block count changed: ");
        push_decimal(&mut d, a.len());
        push_str(&mut d, " → ");
        push_decimal(&mut d, b.len());
        return Some(d);
    }
    None
}

/// Describe, in one line, how two same-position steps differ.
fn describe_change(a: &Step, b: &Step) -> (d: String)
    ensures
        d@ == change_description(*a, *b),
{
    let mut d = String::new();
    if a.role != b.role {
        push_str(&mut d, "role changed: ");
        push_role_name(&mut d, a.role);
        push_str(&mut d, " → ");
        push_role_name(&mut d, b.role);
        return d;
    }
    let ta = a.tool_names();
    let tb = b.tool_names();
    if !same_names(&ta, &tb) {
        push_str(&mut d, "tool calls changed: [");
        push_joined(&mut d, &ta);
        push_str(&mut d, "] → [");
        push_joined(&mut d, &tb);
        push_str(&mut d, "]");
        return d;
    }
    match first_block_change_of(&a.blocks, &b.blocks) {
        Some(c) => c,
        None => {
            push_str(&mut d, "content changed");
            d
        },
    }
}

/// Compare two runs position by position.
pub fn diff(a: &Run, b: &Run) -> (r: RunDiff)
    ensures
        r.rows@.len() == row_count(a.steps@, b.steps@),
        forall|i: int| 0 <= i < r.rows@.len() ==> (#[trigger] r.rows@[i]).0 == i && r.rows@[i].1@ == row_of(a.steps@, b.steps@, i),
        match r.first_divergence {
            Some(i) => first_divergence_in(a.steps@, b.steps@, row_count(a.steps@, b.steps@)) == Some(i as int),
            None => first_divergence_in(a.steps@, b.steps@, row_count(a.steps@, b.steps@)) is None,
        },
        r.identical == r.first_divergence is None,
{
    let mut rows: Vec<(usize, StepDiff)> = Vec::new();
    let mut first_divergence: Option<usize> = None;
    let max = if a.steps.len() < b.steps.len() {
        b.steps.len()
    } else {
        a.steps.len()
    };
    for i in 0..max
        invariant
            max == row_count(a.steps@, b.steps@),
            rows@.len() == i,
            forall|k: int| 0 <= k < i ==> (#[trigger] rows@[k]).0 == k && rows@[k].1@ == row_of(a.steps@, b.steps@, k),
            match first_divergence {
                Some(k) => first_divergence_in(a.steps@, b.steps@, i as nat) == Some(k as int),
                None => first_divergence_in(a.steps@, b.steps@, i as nat) is None,
            },
    {
        let d = if i < a.steps.len() && i < b.steps.len() {
            let sa = &a.steps[i];
            let sb = &b.steps[i];
            if sa.hash == sb.hash {
                StepDiff::Same
            } else {
                StepDiff::Changed { detail: describe_change(sa, sb) }
            }
        } else if i < a.steps.len() {
            StepDiff::OnlyInA
        } else {
            StepDiff::OnlyInB
        };
        let is_same = match d {
            StepDiff::Same => true,
            _ => false,
        };
        if !is_same && first_divergence.is_none() {
            first_divergence = Some(i);
        }
        rows.push((i, d));
    }
    RunDiff { identical: first_divergence.is_none(), first_divergence, rows }
}

} // verus!
