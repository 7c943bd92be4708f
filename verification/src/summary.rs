//! What the command line shows of a run beyond the reports: the preview of
//! its first prompt, and which reader a run file needs.

use vstd::prelude::*;

use crate::model::{Role, Run};
use crate::strings::{chars_of, push_str, str_eq, string_of, trim_bounds};

verus! {

/// A text cut to `max` characters, with an ellipsis when longer.
pub open spec fn cut(s: Seq<char>, max: usize) -> Seq<char> {
    if s.len() <= max {
        s
    } else {
        s.take(max as int) + "…"@
    }
}

/// Cut a text to `max` characters, marking the cut with an ellipsis.
pub fn truncate(s: &str, max: usize) -> (r: String)
    ensures
        r@ == cut(s@, max),
{
    let chars = chars_of(s);
    if chars.len() <= max {
        let mut r = String::new();
        push_str(&mut r, s);
        r
    } else {
        let mut r = string_of(&chars, 0, max);
        push_str(&mut r, "…");
        r
    }
}

/// The index of the first user step among the first `n`, if any.
pub open spec fn first_user_in(run: Run, n: nat) -> Option<int>
    decreases n,
{
    if n == 0 {
        None
    } else {
        match first_user_in(run, (n - 1) as nat) {
            Some(i) => Some(i),
            None => if run.steps@[n - 1].role == Role::User {
                Some(n - 1)
            } else {
                None
            },
        }
    }
}

/// The preview of a run's first prompt: the first line of the first user
/// step's text, trimmed, cut to 72 characters; none when that line is blank
/// or there is no user step.
pub open spec fn prompt_preview(run: Run) -> Option<Seq<char>> {
    match first_user_in(run, run.steps@.len()) {
        None => None,
        Some(i) => {
            let text = crate::strings::join(crate::model::texts_of(run.steps@[i].blocks@), seq!['\n']);
            let line = crate::strings::trim(crate::transcript::split_lines(text)[0]);
            if line.len() == 0 {
                None
            } else {
                Some(cut(line, 72))
            }
        },
    }
}

proof fn lemma_split_lines_first(s: Seq<char>, k: int)
    requires
        0 <= k <= s.len(),
        forall|j: int| 0 <= j < k ==> s[j] != '\n',
    ensures
        crate::transcript::split_lines(s.take(k))[0] == s.take(k),
        crate::transcript::split_lines(s.take(k)).len() == 1,
    decreases k,
{
    if k > 0 {
        lemma_split_lines_first(s, k - 1);
        assert(s.take(k).drop_last() == s.take(k - 1));
        assert(s.take(k - 1).push(s[k - 1]) == s.take(k));
    }
}

proof fn lemma_split_lines_prefix(s: Seq<char>, k: int)
    requires
        0 <= k <= s.len(),
        crate::transcript::split_lines(s.take(k)).len() >= 2,
    ensures
        crate::transcript::split_lines(s)[0] == crate::transcript::split_lines(s.take(k))[0],
        crate::transcript::split_lines(s).len() >= 2,
    decreases s.len() - k,
{
    if k < s.len() {
        assert(s.take(k + 1).drop_last() == s.take(k));
        lemma_split_lines_prefix(s, k + 1);
    } else {
        assert(s.take(k) == s);
    }
}

/// The preview of a run's first prompt, shown when it is recorded.
pub fn first_prompt_preview(run: &Run) -> (r: Option<String>)
    ensures
        crate::transcript::opt_view(r) == prompt_preview(*run),
{
    let mut i: usize = 0;
    while i < run.steps.len()
        invariant
            i <= run.steps@.len(),
            first_user_in(*run, i as nat) is None,
        ensures
            i <= run.steps@.len(),
            first_user_in(*run, i as nat) is None,
            i < run.steps@.len() ==> run.steps@[i as int].role == Role::User,
        decreases run.steps@.len() - i,
    {
        if run.steps[i].role == Role::User {
            break;
        }
        i = i + 1;
    }
    if i == run.steps.len() {
        return None;
    }
    proof {
        assert(first_user_in(*run, (i + 1) as nat) == Some(i as int));
        lemma_first_user_stable(*run, (i + 1) as nat, run.steps@.len());
    }
    let text = run.steps[i].text();
    let chars = chars_of(text.as_str());
    let mut end: usize = 0;
    while end < chars.len() && chars[end] != '\n'
        invariant
            end <= chars@.len(),
            forall|j: int| 0 <= j < end ==> chars@[j] != '\n',
        decreases chars@.len() - end,
    {
        end = end + 1;
    }
    proof {
        lemma_split_lines_first(chars@, end as int);
        if end < chars@.len() {
            assert(chars@.take(end + 1).drop_last() == chars@.take(end as int));
            lemma_split_lines_prefix(chars@, end + 1);
        } else {
            assert(chars@.take(end as int) == chars@);
        }
    }
    assert(chars@.subrange(0, end as int) == chars@.take(end as int));
    let (a, b) = trim_bounds(&chars, 0, end);
    if a == b {
        return None;
    }
    let line = string_of(&chars, a, b);
    Some(truncate(line.as_str(), 72))
}

proof fn lemma_first_user_stable(run: Run, m: nat, n: nat)
    requires
        m <= n,
        first_user_in(run, m) is Some,
    ensures
        first_user_in(run, n) == first_user_in(run, m),
    decreases n - m,
{
    if m < n {
        lemma_first_user_stable(run, m, (n - 1) as nat);
    }
}

/// Which reader a run file needs.
#[derive(Debug, Clone, Copy, PartialEq, Eq, Structural)]
pub enum RunFormat {
    /// A raw session transcript, one JSON record per line.
    Transcript,
    /// A recorded `.replay` document.
    Replay,
}

/// A run file is read as a transcript when its extension is `jsonl`, and
/// as a `.replay` document otherwise.
pub fn run_format(extension: Option<&str>) -> (f: RunFormat)
    ensures
        f == (if extension matches Some(e) && e@ == "jsonl"@ {
            RunFormat::Transcript
        } else {
            RunFormat::Replay
        }),
{
    match extension {
        Some(e) => if str_eq(e, "jsonl") {
            RunFormat::Transcript
        } else {
            RunFormat::Replay
        },
        None => RunFormat::Replay,
    }
}

} // verus!
