//! Order local session transcripts, newest first, and pick the latest.
//!
//! Finding the transcript files on disk is left to the caller; this module
//! holds what is decided about them.

use vstd::prelude::*;

use crate::strings::push_str;

verus! {

/// std's `PathBuf`, declared so that a session file can carry its path.
/// Nothing in the library reads a path; it is handed back as it came.
#[verifier::external_type_specification]
#[verifier::external_body]
pub struct ExPathBuf(std::path::PathBuf);

pub struct SessionFile {
    pub path: std::path::PathBuf,
    pub session_id: String,
    pub project: String,
    /// When the file was last modified: nanoseconds since the Unix epoch,
    /// negative before it.
    pub modified: i128,
    pub size: u64,
}

/// The index of the first most recently modified of the first `n` files.
pub open spec fn newest_index(files: Seq<SessionFile>, n: nat) -> int
    decreases n,
{
    if n <= 1 {
        0
    } else {
        let m = newest_index(files, (n - 1) as nat);
        if files[n - 1].modified > files[m].modified {
            n - 1
        } else {
            m
        }
    }
}

/// The files ordered newest first; equally recent files keep their order.
pub open spec fn newest_first(files: Seq<SessionFile>) -> Seq<SessionFile>
    decreases files.len(),
{
    if files.len() == 0 {
        seq![]
    } else {
        let m = newest_index(files, files.len());
        if 0 <= m < files.len() {
            seq![files[m]] + newest_first(files.remove(m))
        } else {
            seq![]
        }
    }
}

proof fn lemma_newest_index(files: Seq<SessionFile>, n: nat)
    requires
        1 <= n <= files.len(),
    ensures
        0 <= newest_index(files, n) < n,
        forall|j: int| 0 <= j < n ==> (#[trigger] files[j]).modified <= files[newest_index(files, n)].modified,
        forall|j: int| 0 <= j < newest_index(files, n) ==> (#[trigger] files[j]).modified < files[newest_index(files, n)].modified,
    decreases n,
{
    if n > 1 {
        lemma_newest_index(files, (n - 1) as nat);
    }
}

fn newest_pos(files: &Vec<SessionFile>) -> (m: usize)
    requires
        files@.len() > 0,
    ensures
        m == newest_index(files@, files@.len() as nat),
        m < files@.len(),
{
    let mut m: usize = 0;
    let mut i: usize = 1;
    while i < files.len()
        invariant
            1 <= i <= files@.len(),
            m == newest_index(files@, i as nat),
            m < i,
        decreases files@.len() - i,
    {
        if files[i].modified > files[m].modified {
            m = i;
        }
        i = i + 1;
    }
    m
}

/// Order session files newest first (a stable sort, most recent first).
pub fn order_newest_first(files: Vec<SessionFile>) -> (r: Vec<SessionFile>)
    ensures
        r@ == newest_first(files@),
{
    let mut rest = files;
    let mut r: Vec<SessionFile> = Vec::new();
    let ghost all = rest@;
    assert(r@ + newest_first(rest@) =~= newest_first(all));
    while rest.len() > 0
        invariant
            r@ + newest_first(rest@) == newest_first(all),
        decreases rest@.len(),
    {
        let m = newest_pos(&rest);
        let ghost before = rest@;
        let f = rest.remove(m);
        assert(newest_first(before) == seq![before[m as int]] + newest_first(before.remove(m as int)));
        r.push(f);
        assert(r@ + newest_first(rest@) =~= r@.drop_last() + newest_first(before));
    }
    assert(r@ + newest_first(rest@) =~= r@);
    r
}

/// Why no session can be picked.
#[derive(Debug, Clone, Copy, PartialEq, Eq, Structural)]
pub enum SessionsError {
    /// The session list is empty.
    NoSessions,
}

impl SessionsError {
    /// The error's message.
    pub fn message(&self) -> (m: String)
        ensures
            m@ == "no sessions found under the projects directory"@,
    {
        let mut m = String::new();
        push_str(&mut m, "no sessions found under the projects directory");
        m
    }
}

/// The most recently modified session of a newest-first session list
/// (the "current" one).
pub fn latest(sessions: Vec<SessionFile>) -> (r: Result<SessionFile, SessionsError>)
    ensures
        r is Err <==> sessions@.len() == 0,
        r matches Ok(s) ==> s == sessions@[0],
{
    let mut sessions = sessions;
    if sessions.len() == 0 {
        Err(SessionsError::NoSessions)
    } else {
        Ok(sessions.remove(0))
    }
}

/// The newest-first order lists the files from most to least recently
/// modified.
pub proof fn newest_first_is_sorted(files: Seq<SessionFile>)
    ensures
        newest_first(files).len() == files.len(),
        forall|i: int, j: int|
            0 <= i <= j < files.len() ==> (#[trigger] newest_first(files)[i]).modified >= (
            #[trigger] newest_first(files)[j]).modified,
    decreases files.len(),
{
    if files.len() > 0 {
        let m = newest_index(files, files.len());
        lemma_newest_index(files, files.len());
        let rest = files.remove(m);
        newest_first_is_sorted(rest);
        let r = newest_first(files);
        assert(r == seq![files[m]] + newest_first(rest));
        assert forall|k: int| 0 <= k < rest.len() implies #[trigger] newest_first(rest)[k].modified <= files[m].modified by {
            lemma_newest_first_members(rest, k);
            let j = choose|j: int| 0 <= j < rest.len() && rest[j] == newest_first(rest)[k];
            if j < m {
                assert(rest[j] == files[j]);
            } else {
                assert(rest[j] == files[j + 1]);
            }
        }
        assert forall|i: int, j: int| 0 <= i <= j < files.len() implies (#[trigger] r[i]).modified >= (
        #[trigger] r[j]).modified by {
            if i == 0 {
                if j > 0 {
                    assert(r[j] == newest_first(rest)[j - 1]);
                }
            } else {
                assert(r[i] == newest_first(rest)[i - 1]);
                assert(r[j] == newest_first(rest)[j - 1]);
            }
        }
    }
}

/// Every file of the newest-first order is one of the given files.
proof fn lemma_newest_first_members(files: Seq<SessionFile>, k: int)
    requires
        0 <= k < newest_first(files).len(),
    ensures
        newest_first(files).len() == files.len(),
        exists|j: int| 0 <= j < files.len() && files[j] == newest_first(files)[k],
    decreases files.len(),
{
    lemma_newest_first_len(files);
    if files.len() > 0 {
        let m = newest_index(files, files.len());
        lemma_newest_index(files, files.len());
        let rest = files.remove(m);
        if k == 0 {
            assert(files[m] == newest_first(files)[0]);
        } else {
            lemma_newest_first_members(rest, k - 1);
            let j = choose|j: int| 0 <= j < rest.len() && rest[j] == newest_first(rest)[k - 1];
            if j < m {
                assert(files[j] == newest_first(files)[k]);
            } else {
                assert(files[j + 1] == newest_first(files)[k]);
            }
        }
    } else {
        lemma_newest_first_len(files);
    }
}

proof fn lemma_newest_first_len(files: Seq<SessionFile>)
    ensures
        newest_first(files).len() == files.len(),
    decreases files.len(),
{
    if files.len() > 0 {
        lemma_newest_index(files, files.len());
        lemma_newest_first_len(files.remove(newest_index(files, files.len())));
    }
}

} // verus!
