//! Rule-based assertions over a run, for regression-testing agents in CI.

use vstd::prelude::*;

use crate::model::{Block, BlockV, Run, Step};
use crate::strings::{chars_of, push_decimal, push_str};

verus! {

#[derive(Debug)]
pub struct Rules {
    pub max_steps: Option<usize>,
    pub max_tool_calls: Option<usize>,
    /// Fail if any of these tools was called.
    pub forbid_tools: Vec<String>,
    /// Fail if any tool input mentions any of these substrings (e.g. a secret path).
    pub forbid_paths: Vec<String>,
    /// Fail if the run contains any errored tool result.
    pub must_succeed: bool,
}

impl Default for Rules {
    fn default() -> (r: Rules)
        ensures
            r.max_steps is None,
            r.max_tool_calls is None,
            r.forbid_tools@.len() == 0,
            r.forbid_paths@.len() == 0,
            !r.must_succeed,
    {
        Rules {
            max_steps: None,
            max_tool_calls: None,
            forbid_tools: Vec::new(),
            forbid_paths: Vec::new(),
            must_succeed: false,
        }
    }
}

/// True if the rules assert nothing.
pub open spec fn no_rules(r: Rules) -> bool {
    &&& r.max_steps is None
    &&& r.max_tool_calls is None
    &&& r.forbid_tools@.len() == 0
    &&& r.forbid_paths@.len() == 0
    &&& !r.must_succeed
}

impl Rules {
    pub fn is_empty(&self) -> (b: bool)
        ensures
            b == no_rules(*self),
    {
        self.max_steps.is_none() && self.max_tool_calls.is_none() && self.forbid_tools.len() == 0
            && self.forbid_paths.len() == 0 && !self.must_succeed
    }
}

pub struct Violation {
    pub rule: String,
    pub detail: String,
}

/// A violation as its rule name and its detail.
pub open spec fn violation_view(v: Violation) -> (Seq<char>, Seq<char>) {
    (v.rule@, v.detail@)
}

/// The views of a list of violations.
pub open spec fn violations_view(vs: Seq<Violation>) -> Seq<(Seq<char>, Seq<char>)> {
    vs.map_values(|v: Violation| violation_view(v))
}

/// True if `p` occurs in `s` as a contiguous run of characters.
pub open spec fn contains_sub(s: Seq<char>, p: Seq<char>) -> bool {
    exists|i: int| 0 <= i && i + p.len() <= s.len() && #[trigger] s.subrange(i, i + p.len()) == p
}

/// The views of a list of strings.
pub open spec fn names_view(v: Seq<String>) -> Seq<Seq<char>> {
    v.map_values(|s: String| s@)
}

/// The forbid-path violations of one tool call, one per forbidden path it mentions.
pub open spec fn path_violations(seq: usize, name: Seq<char>, input: Seq<char>, paths: Seq<Seq<char>>) -> Seq<
    (Seq<char>, Seq<char>),
>
    decreases paths.len(),
{
    if paths.len() == 0 {
        seq![]
    } else {
        let rest = path_violations(seq, name, input, paths.drop_last());
        let p = paths.last();
        if contains_sub(input, p) {
            rest.push(
                (
                    "forbid-path"@,
                    "step "@ + crate::strings::dec(seq as nat) + " tool `"@ + name
                        + "` input references forbidden `"@ + p + "`"@,
                ),
            )
        } else {
            rest
        }
    }
}

/// The violations of one block of step `seq`: a forbidden tool, then the
/// forbidden paths its input mentions.
pub open spec fn block_violations(seq: usize, b: BlockV, tools: Seq<Seq<char>>, paths: Seq<Seq<char>>) -> Seq<
    (Seq<char>, Seq<char>),
> {
    match b {
        BlockV::ToolUse { name, input, .. } => (if tools.contains(name) {
            seq![
                (
                    "forbid-tool"@,
                    "step "@ + crate::strings::dec(seq as nat) + " called forbidden tool `"@ + name
                        + "`"@,
                ),
            ]
        } else {
            seq![]
        }) + path_violations(seq, name, input, paths),
        _ => seq![],
    }
}

/// The violations of the first `n` blocks of a step.
pub open spec fn blocks_violations(seq: usize, bs: Seq<BlockV>, tools: Seq<Seq<char>>, paths: Seq<Seq<char>>) -> Seq<
    (Seq<char>, Seq<char>),
>
    decreases bs.len(),
{
    if bs.len() == 0 {
        seq![]
    } else {
        blocks_violations(seq, bs.drop_last(), tools, paths) + block_violations(seq, bs.last(), tools, paths)
    }
}

/// The forbid-tool and forbid-path violations of the steps.
pub open spec fn tool_violations(steps: Seq<Step>, tools: Seq<Seq<char>>, paths: Seq<Seq<char>>) -> Seq<
    (Seq<char>, Seq<char>),
>
    decreases steps.len(),
{
    if steps.len() == 0 {
        seq![]
    } else {
        let s = steps.last();
        tool_violations(steps.drop_last(), tools, paths) + blocks_violations(
            s.seq,
            crate::model::blocks_view(s.blocks@),
            tools,
            paths,
        )
    }
}

/// True if some block of the step is an errored tool result.
pub open spec fn has_error(s: Step) -> bool {
    exists|i: int| 0 <= i < s.blocks@.len() && crate::model::is_error_result(#[trigger] s.blocks@[i])
}

/// The must-succeed violations: one per step with an errored tool result.
pub open spec fn error_violations(steps: Seq<Step>) -> Seq<(Seq<char>, Seq<char>)>
    decreases steps.len(),
{
    if steps.len() == 0 {
        seq![]
    } else {
        let s = steps.last();
        error_violations(steps.drop_last()) + if has_error(s) {
            seq![
                (
                    "must-succeed"@,
                    "step "@ + crate::strings::dec(s.seq as nat) + " has an errored tool result"@,
                ),
            ]
        } else {
            seq![]
        }
    }
}

/// Every violation of the rules by the run, in the order they are reported:
/// step count, tool-call count, forbidden tools and paths step by step, then
/// errored results step by step.
pub open spec fn violations(run: Run, rules: Rules) -> Seq<(Seq<char>, Seq<char>)> {
    let n = run.steps@.len();
    let calls = crate::model::tool_call_count(run.steps@);
    (match rules.max_steps {
        Some(max) => if n > max {
            seq![
                (
                    "max-steps"@,
                    crate::strings::dec(n) + " steps > limit "@ + crate::strings::dec(max as nat),
                ),
            ]
        } else {
            seq![]
        },
        None => seq![],
    }) + (match rules.max_tool_calls {
        Some(max) => if calls > max {
            seq![
                (
                    "max-tool-calls"@,
                    crate::strings::dec(calls) + " tool calls > limit "@ + crate::strings::dec(
                        max as nat,
                    ),
                ),
            ]
        } else {
            seq![]
        },
        None => seq![],
    }) + tool_violations(run.steps@, names_view(rules.forbid_tools@), names_view(rules.forbid_paths@))
        + if rules.must_succeed {
        error_violations(run.steps@)
    } else {
        seq![]
    }
}

/// Every forbidden path that a tool call's input mentions is reported, for
/// every tool call of the run and every path of the rules; so is every call
/// of a forbidden tool.
pub proof fn every_forbidden_use_is_reported(run: Run, rules: Rules, i: int, j: int)
    requires
        0 <= i < run.steps@.len(),
        0 <= j < run.steps@[i].blocks@.len(),
        run.steps@[i].blocks@[j] is ToolUse,
    ensures
        ({
            let s = run.steps@[i];
            let name = s.blocks@[j]->ToolUse_name@;
            let input = s.blocks@[j]->ToolUse_input@;
            &&& forall|k: int|
                0 <= k < rules.forbid_paths@.len() && contains_sub(input, #[trigger] rules.forbid_paths@[k]@)
                    ==> violations(run, rules).contains(
                    (
                        "forbid-path"@,
                        "step "@ + crate::strings::dec(s.seq as nat) + " tool `"@ + name
                            + "` input references forbidden `"@ + rules.forbid_paths@[k]@ + "`"@,
                    ),
                )
            &&& names_view(rules.forbid_tools@).contains(name) ==> violations(run, rules).contains(
                (
                    "forbid-tool"@,
                    "step "@ + crate::strings::dec(s.seq as nat) + " called forbidden tool `"@ + name + "`"@,
                ),
            )
        }),
{
    let s = run.steps@[i];
    let b = s.blocks@[j]@;
    let name = s.blocks@[j]->ToolUse_name@;
    let input = s.blocks@[j]->ToolUse_input@;
    let tools = names_view(rules.forbid_tools@);
    let paths = names_view(rules.forbid_paths@);
    let bv = crate::model::blocks_view(s.blocks@);
    assert(bv[j] == b);
    let tv = tool_violations(run.steps@, tools, paths);
    let pre = violations(run, rules);
    assert forall|x: (Seq<char>, Seq<char>)| block_violations(s.seq, b, tools, paths).contains(x) implies pre.contains(x) by {
        lemma_blocks_violations_contain(s.seq, bv, tools, paths, j, x);
        lemma_tool_violations_contain(run.steps@, tools, paths, i, x);
        lemma_violations_contain_tool(run, rules, x);
    }
    assert forall|k: int|
        0 <= k < rules.forbid_paths@.len() && contains_sub(input, #[trigger] rules.forbid_paths@[k]@) implies pre.contains(
        (
            "forbid-path"@,
            "step "@ + crate::strings::dec(s.seq as nat) + " tool `"@ + name + "` input references forbidden `"@
                + rules.forbid_paths@[k]@ + "`"@,
        ),
    ) by {
        assert(paths[k] == rules.forbid_paths@[k]@);
        lemma_path_violations_contain(s.seq, name, input, paths, k);
        let x = (
            "forbid-path"@,
            "step "@ + crate::strings::dec(s.seq as nat) + " tool `"@ + name + "` input references forbidden `"@
                + paths[k] + "`"@,
        );
        let first = if tools.contains(name) {
            seq![("forbid-tool"@, "step "@ + crate::strings::dec(s.seq as nat) + " called forbidden tool `"@ + name + "`"@)]
        } else {
            seq![]
        };
        assert(block_violations(s.seq, b, tools, paths) == first + path_violations(s.seq, name, input, paths));
        lemma_contains_concat(first, path_violations(s.seq, name, input, paths), x);
    }
    if tools.contains(name) {
        let x = ("forbid-tool"@, "step "@ + crate::strings::dec(s.seq as nat) + " called forbidden tool `"@ + name + "`"@);
        let first = seq![x];
        assert(first[0] == x);
        assert(block_violations(s.seq, b, tools, paths) == first + path_violations(s.seq, name, input, paths));
        lemma_contains_concat(first, path_violations(s.seq, name, input, paths), x);
    }
}

/// Under must-succeed, every step holding an errored tool result is
/// reported, and without it none is.
pub proof fn every_errored_step_is_reported(run: Run, rules: Rules, i: int)
    requires
        0 <= i < run.steps@.len(),
        has_error(run.steps@[i]),
    ensures
        rules.must_succeed <==> violations(run, rules).contains(
            (
                "must-succeed"@,
                "step "@ + crate::strings::dec(run.steps@[i].seq as nat) + " has an errored tool result"@,
            ),
        ),
{
    let x = (
        "must-succeed"@,
        "step "@ + crate::strings::dec(run.steps@[i].seq as nat) + " has an errored tool result"@,
    );
    lemma_error_violations_contain(run.steps@, i);
    let n = run.steps@.len();
    let calls = crate::model::tool_call_count(run.steps@);
    let a = match rules.max_steps {
        Some(max) => if n > max {
            seq![("max-steps"@, crate::strings::dec(n) + " steps > limit "@ + crate::strings::dec(max as nat))]
        } else {
            seq![]
        },
        None => seq![],
    };
    let b = match rules.max_tool_calls {
        Some(max) => if calls > max {
            seq![("max-tool-calls"@, crate::strings::dec(calls) + " tool calls > limit "@ + crate::strings::dec(max as nat))]
        } else {
            seq![]
        },
        None => seq![],
    };
    let t = tool_violations(run.steps@, names_view(rules.forbid_tools@), names_view(rules.forbid_paths@));
    if rules.must_succeed {
        assert(violations(run, rules) == a + b + t + error_violations(run.steps@));
        lemma_contains_concat(a + b + t, error_violations(run.steps@), x);
    } else {
        reveal_strlit("must-succeed");
        reveal_strlit("max-steps");
        reveal_strlit("max-tool-calls");
        reveal_strlit("forbid-tool");
        reveal_strlit("forbid-path");
        assert("must-succeed"@[1] != "max-steps"@[1]);
        assert("must-succeed"@[1] != "max-tool-calls"@[1]);
        assert("must-succeed"@[0] != "forbid-tool"@[0]);
        assert("must-succeed"@[0] != "forbid-path"@[0]);
        lemma_tool_rules_named(run.steps@, names_view(rules.forbid_tools@), names_view(rules.forbid_paths@));
        assert(violations(run, rules) =~= a + b + t);
        if (a + b + t).contains(x) {
            let k = choose|k: int| 0 <= k < (a + b + t).len() && (a + b + t)[k] == x;
            if k >= a.len() + b.len() {
                assert(t[k - a.len() - b.len()] == x);
            } else if k >= a.len() {
                assert(b[k - a.len()] == x);
            } else {
                assert(a[k] == x);
            }
        }
    }
}

/// The forbid-tool and forbid-path violations are named after those rules.
proof fn lemma_tool_rules_named(steps: Seq<Step>, tools: Seq<Seq<char>>, paths: Seq<Seq<char>>)
    ensures
        forall|k: int| 0 <= k < tool_violations(steps, tools, paths).len() ==> {
            let r = (#[trigger] tool_violations(steps, tools, paths)[k]).0;
            r == "forbid-tool"@ || r == "forbid-path"@
        },
    decreases steps.len(),
{
    if steps.len() > 0 {
        lemma_tool_rules_named(steps.drop_last(), tools, paths);
        let s = steps.last();
        lemma_blocks_rules_named(s.seq, crate::model::blocks_view(s.blocks@), tools, paths);
        let p = tool_violations(steps.drop_last(), tools, paths);
        let q = blocks_violations(s.seq, crate::model::blocks_view(s.blocks@), tools, paths);
        assert forall|k: int| 0 <= k < (p + q).len() implies {
            let r = (#[trigger] (p + q)[k]).0;
            r == "forbid-tool"@ || r == "forbid-path"@
        } by {
            if k >= p.len() {
                assert((p + q)[k] == q[k - p.len()]);
            } else {
                assert((p + q)[k] == p[k]);
            }
        }
    }
}

proof fn lemma_blocks_rules_named(seq: usize, bs: Seq<BlockV>, tools: Seq<Seq<char>>, paths: Seq<Seq<char>>)
    ensures
        forall|k: int| 0 <= k < blocks_violations(seq, bs, tools, paths).len() ==> {
            let r = (#[trigger] blocks_violations(seq, bs, tools, paths)[k]).0;
            r == "forbid-tool"@ || r == "forbid-path"@
        },
    decreases bs.len(),
{
    if bs.len() > 0 {
        lemma_blocks_rules_named(seq, bs.drop_last(), tools, paths);
        let p = blocks_violations(seq, bs.drop_last(), tools, paths);
        let q = block_violations(seq, bs.last(), tools, paths);
        match bs.last() {
            BlockV::ToolUse { name, input, .. } => {
                lemma_path_rules_named(seq, name, input, paths);
            },
            _ => {},
        }
        assert forall|k: int| 0 <= k < (p + q).len() implies {
            let r = (#[trigger] (p + q)[k]).0;
            r == "forbid-tool"@ || r == "forbid-path"@
        } by {
            if k >= p.len() {
                assert((p + q)[k] == q[k - p.len()]);
                match bs.last() {
                    BlockV::ToolUse { name, input, .. } => {
                        let first = if tools.contains(name) {
                            seq![("forbid-tool"@, "step "@ + crate::strings::dec(seq as nat) + " called forbidden tool `"@ + name + "`"@)]
                        } else {
                            seq![]
                        };
                        let pv = path_violations(seq, name, input, paths);
                        assert(q == first + pv);
                        if k - p.len() >= first.len() {
                            assert(q[k - p.len()] == pv[k - p.len() - first.len()]);
                        }
                    },
                    _ => {},
                }
            } else {
                assert((p + q)[k] == p[k]);
            }
        }
    }
}

proof fn lemma_path_rules_named(seq: usize, name: Seq<char>, input: Seq<char>, paths: Seq<Seq<char>>)
    ensures
        forall|k: int| 0 <= k < path_violations(seq, name, input, paths).len() ==> (#[trigger] path_violations(seq, name, input, paths)[k]).0 == "forbid-path"@,
    decreases paths.len(),
{
    if paths.len() > 0 {
        lemma_path_rules_named(seq, name, input, paths.drop_last());
        let rest = path_violations(seq, name, input, paths.drop_last());
        let full = path_violations(seq, name, input, paths);
        assert forall|k: int| 0 <= k < full.len() implies (#[trigger] full[k]).0 == "forbid-path"@ by {
            if k < rest.len() {
                assert(full[k] == rest[k]);
            }
        }
    }
}

proof fn lemma_error_violations_contain(steps: Seq<Step>, i: int)
    requires
        0 <= i < steps.len(),
        has_error(steps[i]),
    ensures
        error_violations(steps).contains(
            ("must-succeed"@, "step "@ + crate::strings::dec(steps[i].seq as nat) + " has an errored tool result"@),
        ),
    decreases steps.len(),
{
    let x = ("must-succeed"@, "step "@ + crate::strings::dec(steps[i].seq as nat) + " has an errored tool result"@);
    let d = steps.drop_last();
    let s = steps.last();
    let tail = if has_error(s) {
        seq![("must-succeed"@, "step "@ + crate::strings::dec(s.seq as nat) + " has an errored tool result"@)]
    } else {
        seq![]
    };
    if i == steps.len() - 1 {
        assert(tail[0] == x);
        lemma_contains_concat(error_violations(d), tail, x);
    } else {
        assert(d[i] == steps[i]);
        lemma_error_violations_contain(d, i);
        lemma_contains_concat(error_violations(d), tail, x);
    }
}

proof fn lemma_contains_concat<A>(a: Seq<A>, b: Seq<A>, x: A)
    ensures
        a.contains(x) ==> (a + b).contains(x),
        b.contains(x) ==> (a + b).contains(x),
{
    if a.contains(x) {
        let i = choose|i: int| 0 <= i < a.len() && a[i] == x;
        assert((a + b)[i] == x);
    }
    if b.contains(x) {
        let i = choose|i: int| 0 <= i < b.len() && b[i] == x;
        assert((a + b)[a.len() + i] == x);
    }
}

proof fn lemma_path_violations_contain(seq: usize, name: Seq<char>, input: Seq<char>, paths: Seq<Seq<char>>, k: int)
    requires
        0 <= k < paths.len(),
        contains_sub(input, paths[k]),
    ensures
        path_violations(seq, name, input, paths).contains(
            (
                "forbid-path"@,
                "step "@ + crate::strings::dec(seq as nat) + " tool `"@ + name + "` input references forbidden `"@
                    + paths[k] + "`"@,
            ),
        ),
    decreases paths.len(),
{
    let x = (
        "forbid-path"@,
        "step "@ + crate::strings::dec(seq as nat) + " tool `"@ + name + "` input references forbidden `"@ + paths[k]
            + "`"@,
    );
    let rest = path_violations(seq, name, input, paths.drop_last());
    if k == paths.len() - 1 {
        assert(path_violations(seq, name, input, paths) == rest.push(x));
        assert(rest.push(x)[rest.len() as int] == x);
    } else {
        assert(paths.drop_last()[k] == paths[k]);
        lemma_path_violations_contain(seq, name, input, paths.drop_last(), k);
        let i = choose|i: int| 0 <= i < rest.len() && rest[i] == x;
        let full = path_violations(seq, name, input, paths);
        if contains_sub(input, paths.last()) {
            assert(full[i] == x);
        } else {
            assert(full[i] == x);
        }
    }
}

proof fn lemma_blocks_violations_contain(
    seq: usize,
    bs: Seq<BlockV>,
    tools: Seq<Seq<char>>,
    paths: Seq<Seq<char>>,
    j: int,
    x: (Seq<char>, Seq<char>),
)
    requires
        0 <= j < bs.len(),
        block_violations(seq, bs[j], tools, paths).contains(x),
    ensures
        blocks_violations(seq, bs, tools, paths).contains(x),
    decreases bs.len(),
{
    let d = bs.drop_last();
    if j == bs.len() - 1 {
        lemma_contains_concat(blocks_violations(seq, d, tools, paths), block_violations(seq, bs.last(), tools, paths), x);
    } else {
        assert(d[j] == bs[j]);
        lemma_blocks_violations_contain(seq, d, tools, paths, j, x);
        lemma_contains_concat(blocks_violations(seq, d, tools, paths), block_violations(seq, bs.last(), tools, paths), x);
    }
}

proof fn lemma_tool_violations_contain(
    steps: Seq<Step>,
    tools: Seq<Seq<char>>,
    paths: Seq<Seq<char>>,
    i: int,
    x: (Seq<char>, Seq<char>),
)
    requires
        0 <= i < steps.len(),
        blocks_violations(steps[i].seq, crate::model::blocks_view(steps[i].blocks@), tools, paths).contains(x),
    ensures
        tool_violations(steps, tools, paths).contains(x),
    decreases steps.len(),
{
    let d = steps.drop_last();
    let s = steps.last();
    let tail = blocks_violations(s.seq, crate::model::blocks_view(s.blocks@), tools, paths);
    if i == steps.len() - 1 {
        lemma_contains_concat(tool_violations(d, tools, paths), tail, x);
    } else {
        assert(d[i] == steps[i]);
        lemma_tool_violations_contain(d, tools, paths, i, x);
        lemma_contains_concat(tool_violations(d, tools, paths), tail, x);
    }
}

proof fn lemma_violations_contain_tool(run: Run, rules: Rules, x: (Seq<char>, Seq<char>))
    requires
        tool_violations(run.steps@, names_view(rules.forbid_tools@), names_view(rules.forbid_paths@)).contains(x),
    ensures
        violations(run, rules).contains(x),
{
    let n = run.steps@.len();
    let calls = crate::model::tool_call_count(run.steps@);
    let a = match rules.max_steps {
        Some(max) => if n > max {
            seq![("max-steps"@, crate::strings::dec(n) + " steps > limit "@ + crate::strings::dec(max as nat))]
        } else {
            seq![]
        },
        None => seq![],
    };
    let b = match rules.max_tool_calls {
        Some(max) => if calls > max {
            seq![("max-tool-calls"@, crate::strings::dec(calls) + " tool calls > limit "@ + crate::strings::dec(max as nat))]
        } else {
            seq![]
        },
        None => seq![],
    };
    let t = tool_violations(run.steps@, names_view(rules.forbid_tools@), names_view(rules.forbid_paths@));
    let e = if rules.must_succeed {
        error_violations(run.steps@)
    } else {
        seq![]
    };
    assert(violations(run, rules) == a + b + t + e);
    lemma_contains_concat(a + b, t, x);
    lemma_contains_concat(a + b + t, e, x);
}

/// A run checked against no rules has no violations.
pub proof fn no_rules_no_violations(run: Run, rules: Rules)
    requires
        no_rules(rules),
    ensures
        violations(run, rules).len() == 0,
{
    assert(names_view(rules.forbid_tools@) =~= Seq::<Seq<char>>::empty());
    assert(names_view(rules.forbid_paths@) =~= Seq::<Seq<char>>::empty());
    lemma_no_tool_violations(run.steps@);
}

proof fn lemma_no_tool_violations(steps: Seq<Step>)
    ensures
        tool_violations(steps, seq![], seq![]).len() == 0,
    decreases steps.len(),
{
    if steps.len() > 0 {
        lemma_no_tool_violations(steps.drop_last());
        lemma_no_block_violations(steps.last().seq, crate::model::blocks_view(steps.last().blocks@));
    }
}

proof fn lemma_no_block_violations(seq: usize, bs: Seq<BlockV>)
    ensures
        blocks_violations(seq, bs, seq![], seq![]).len() == 0,
    decreases bs.len(),
{
    if bs.len() > 0 {
        lemma_no_block_violations(seq, bs.drop_last());
    }
}

/// True if `p` occurs in `s` at position `i`.
fn matches_at(s: &Vec<char>, p: &Vec<char>, i: usize) -> (b: bool)
    requires
        i + p@.len() <= s@.len(),
    ensures
        b == (s@.subrange(i as int, i + p@.len()) == p@),
{
    let n = s.len();
    for j in 0..p.len()
        invariant
            n == s@.len(),
            i + p@.len() <= s@.len(),
            forall|m: int| 0 <= m < j ==> s@[i + m] == p@[m],
    {
        if s[i + j] != p[j] {
            assert(s@.subrange(i as int, i + p@.len())[j as int] != p@[j as int]);
            return false;
        }
    }
    assert(s@.subrange(i as int, i + p@.len()) =~= p@);
    true
}

/// True if `p` occurs in `s`.
fn contains_chars(s: &Vec<char>, p: &Vec<char>) -> (b: bool)
    ensures
        b == contains_sub(s@, p@),
{
    if p.len() > s.len() {
        return false;
    }
    let last = s.len() - p.len();
    let mut i: usize = 0;
    while i <= last
        invariant
            last == s@.len() - p@.len(),
            p@.len() <= s@.len(),
            forall|k: int| 0 <= k < i ==> #[trigger] s@.subrange(k, k + p@.len()) != p@,
        decreases last + 1 - i,
    {
        if matches_at(s, p, i) {
            return true;
        }
        if i == last {
            return false;
        }
        i = i + 1;
    }
    false
}

fn is_forbidden_tool(tools: &Vec<String>, name: &String) -> (b: bool)
    ensures
        b == names_view(tools@).contains(name@),
{
    for i in 0..tools.len()
        invariant
            forall|j: int| 0 <= j < i ==> #[trigger] tools@[j]@ != name@,
    {
        if tools[i] == *name {
            assert(names_view(tools@)[i as int] == name@);
            return true;
        }
    }
    false
}

fn push_violation(v: &mut Vec<Violation>, rule: &str, detail: String)
    ensures
        violations_view(final(v)@) == violations_view(old(v)@).push((rule@, detail@)),
{
    let mut r = String::new();
    push_str(&mut r, rule);
    let ghost before = v@;
    v.push(Violation { rule: r, detail });
    assert(violations_view(v@) =~= violations_view(before).push((rule@, detail@)));
}

fn check_block(v: &mut Vec<Violation>, seq: usize, b: &Block, rules: &Rules)
    ensures
        violations_view(final(v)@) == violations_view(old(v)@) + block_violations(
            seq,
            b@,
            names_view(rules.forbid_tools@),
            names_view(rules.forbid_paths@),
        ),
{
    let ghost start = violations_view(v@);
    match b {
        Block::ToolUse { name, input, .. } => {
            if is_forbidden_tool(&rules.forbid_tools, name) {
                let mut d = String::new();
                push_str(&mut d, "step ");
                push_decimal(&mut d, seq);
                push_str(&mut d, " called forbidden tool `");
                push_str(&mut d, name.as_str());
                push_str(&mut d, "`");
                push_violation(v, "forbid-tool", d);
            }
            let ghost mid = violations_view(v@);
            let input_chars = chars_of(input.as_str());
            let ghost paths = names_view(rules.forbid_paths@);
            for k in 0..rules.forbid_paths.len()
                invariant
                    paths == names_view(rules.forbid_paths@),
                    input_chars@ == input@,
                    violations_view(v@) == mid + path_violations(seq, name@, input@, paths.take(k as int)),
            {
                assert(paths.take(k + 1).drop_last() == paths.take(k as int));
                assert(paths.take(k + 1).last() == rules.forbid_paths@[k as int]@);
                let p = &rules.forbid_paths[k];
                let p_chars = chars_of(p.as_str());
                if contains_chars(&input_chars, &p_chars) {
                    let mut d = String::new();
                    push_str(&mut d, "step ");
                    push_decimal(&mut d, seq);
                    push_str(&mut d, " tool `");
                    push_str(&mut d, name.as_str());
                    push_str(&mut d, "` input references forbidden `");
                    push_str(&mut d, p.as_str());
                    push_str(&mut d, "`");
                    push_violation(v, "forbid-path", d);
                }
            }
            assert(paths.take(paths.len() as int) == paths);
        },
        _ => {},
    }
    assert(violations_view(v@) =~= start + block_violations(
        seq,
        b@,
        names_view(rules.forbid_tools@),
        names_view(rules.forbid_paths@),
    ));
}

/// Evaluate the rules over the run; an empty result means the run passes.
pub fn check(run: &Run, rules: &Rules) -> (v: Vec<Violation>)
    requires
        rules.max_tool_calls is Some ==> crate::model::tool_call_count(run.steps@) <= usize::MAX,
    ensures
        violations_view(v@) == violations(*run, *rules),
{
    let mut v: Vec<Violation> = Vec::new();
    let ghost tools = names_view(rules.forbid_tools@);
    let ghost paths = names_view(rules.forbid_paths@);
    if let Some(max) = rules.max_steps {
        if run.steps.len() > max {
            let mut d = String::new();
            push_decimal(&mut d, run.steps.len());
            push_str(&mut d, " steps > limit ");
            push_decimal(&mut d, max);
            push_violation(&mut v, "max-steps", d);
        }
    }
    if let Some(max) = rules.max_tool_calls {
        let n = run.tool_calls();
        if n > max {
            let mut d = String::new();
            push_decimal(&mut d, n);
            push_str(&mut d, " tool calls > limit ");
            push_decimal(&mut d, max);
            push_violation(&mut v, "max-tool-calls", d);
        }
    }
    let ghost head = violations_view(v@);
    for i in 0..run.steps.len()
        invariant
            tools == names_view(rules.forbid_tools@),
            paths == names_view(rules.forbid_paths@),
            violations_view(v@) == head + tool_violations(run.steps@.take(i as int), tools, paths),
    {
        let step = &run.steps[i];
        assert(run.steps@.take(i + 1).drop_last() == run.steps@.take(i as int));
        let ghost mid = violations_view(v@);
        let ghost bv = crate::model::blocks_view(step.blocks@);
        for j in 0..step.blocks.len()
            invariant
                tools == names_view(rules.forbid_tools@),
                paths == names_view(rules.forbid_paths@),
                bv == crate::model::blocks_view(step.blocks@),
                violations_view(v@) == mid + blocks_violations(step.seq, bv.take(j as int), tools, paths),
        {
            assert(bv.take(j + 1).drop_last() == bv.take(j as int));
            check_block(&mut v, step.seq, &step.blocks[j], rules);
        }
        assert(bv.take(bv.len() as int) == bv);
    }
    assert(run.steps@.take(run.steps@.len() as int) == run.steps@);
    let ghost tail = violations_view(v@);
    if rules.must_succeed {
        for i in 0..run.steps.len()
            invariant
                violations_view(v@) == tail + error_violations(run.steps@.take(i as int)),
        {
            let step = &run.steps[i];
            assert(run.steps@.take(i + 1).drop_last() == run.steps@.take(i as int));
            if step.has_error_result() {
                let mut d = String::new();
                push_str(&mut d, "step ");
                push_decimal(&mut d, step.seq);
                push_str(&mut d, " has an errored tool result");
                push_violation(&mut v, "must-succeed", d);
            }
        }
        assert(run.steps@.take(run.steps@.len() as int) == run.steps@);
    }
    v
}

} // verus!
