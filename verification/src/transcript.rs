//! Normalize a session transcript (one JSON record per line) into a [`Run`].
//!
//! Records are linked by `parentUuid` into a tree. Each message's parent is
//! rewritten to its nearest message ancestor, bridging non-message records,
//! and the path from the root to the active leaf (the deepest leaf, ties to
//! the latest) becomes the run.

use vstd::prelude::*;

use crate::json::{canonical_json, get, get_bool, get_str, parse_json_line, Json};
use crate::model::{copy_blocks, copy_opt_string, Block, BlockV, Role, Run, RunMeta, Step};
use crate::strings::{chars_of, push_char, push_str, str_eq, string_of, trim_bounds};

verus! {

/// The segments of the text between newlines (the last one possibly empty).
pub open spec fn split_lines(s: Seq<char>) -> Seq<Seq<char>>
    decreases s.len(),
{
    if s.len() == 0 {
        seq![seq![]]
    } else {
        let p = split_lines(s.drop_last());
        if s.last() == '\n' {
            p.push(seq![])
        } else {
            p.update(p.len() - 1, p.last().push(s.last()))
        }
    }
}

/// The trimmed segments that are not empty.
pub open spec fn kept_lines(segs: Seq<Seq<char>>) -> Seq<Seq<char>>
    decreases segs.len(),
{
    if segs.len() == 0 {
        seq![]
    } else {
        let rest = kept_lines(segs.drop_last());
        let t = crate::strings::trim(segs.last());
        if t.len() == 0 {
            rest
        } else {
            rest.push(t)
        }
    }
}

/// The record lines of a transcript: every line trimmed, blank lines dropped.
pub open spec fn record_lines(text: Seq<char>) -> Seq<Seq<char>> {
    kept_lines(split_lines(text))
}

/// The views of a list of strings.
pub open spec fn strings_view(v: Seq<String>) -> Seq<Seq<char>> {
    v.map_values(|s: String| s@)
}

pub(crate) proof fn lemma_split_lines_len(s: Seq<char>)
    ensures
        split_lines(s).len() >= 1,
    decreases s.len(),
{
    if s.len() > 0 {
        lemma_split_lines_len(s.drop_last());
    }
}

/// The record lines of a transcript: each line trimmed, blank lines dropped.
/// Each is meant to hold one JSON record.
pub fn transcript_lines(text: &str) -> (lines: Vec<String>)
    ensures
        strings_view(lines@) == record_lines(text@),
{
    let chars = chars_of(text);
    let n = chars.len();
    let mut lines: Vec<String> = Vec::new();
    let mut start: usize = 0;
    assert(chars@.take(0) =~= Seq::<char>::empty());
    for i in 0..n
        invariant
            n == chars@.len(),
            start <= i,
            split_lines(chars@.take(i as int)).len() >= 1,
            split_lines(chars@.take(i as int)).last() == chars@.subrange(start as int, i as int),
            strings_view(lines@) == kept_lines(split_lines(chars@.take(i as int)).drop_last()),
    {
        let ghost sl = split_lines(chars@.take(i as int));
        assert(chars@.take(i + 1).drop_last() == chars@.take(i as int));
        assert(chars@.take(i + 1).last() == chars@[i as int]);
        proof {
            lemma_split_lines_len(chars@.take(i + 1));
        }
        if chars[i] == '\n' {
            let (a, b) = trim_bounds(&chars, start, i);
            assert(sl.push(seq![]).drop_last() == sl);
            assert(sl.drop_last().push(sl.last()) == sl);
            if a < b {
                let ghost before = lines@;
                lines.push(string_of(&chars, a, b));
                assert(strings_view(lines@) =~= strings_view(before).push(chars@.subrange(a as int, b as int)));
            }
            start = i + 1;
        } else {
            let ghost p2 = sl.update(sl.len() - 1, sl.last().push(chars@[i as int]));
            assert(p2.drop_last() =~= sl.drop_last());
            assert(chars@.subrange(start as int, i + 1) == chars@.subrange(start as int, i as int).push(chars@[i as int]));
        }
    }
    let ghost sl = split_lines(chars@.take(n as int));
    assert(chars@.take(n as int) == chars@);
    let (a, b) = trim_bounds(&chars, start, n);
    assert(sl.drop_last().push(sl.last()) == sl);
    if a < b {
        let ghost before = lines@;
        lines.push(string_of(&chars, a, b));
        assert(strings_view(lines@) =~= strings_view(before).push(chars@.subrange(a as int, b as int)));
    }
    lines
}

// ---------------------------------------------------------------------------
// Content blocks
// ---------------------------------------------------------------------------

/// The value a reference points to, as an option.
pub open spec fn deref_opt(v: Option<&Json>) -> Option<Json> {
    match v {
        Some(x) => Some(*x),
        None => None,
    }
}

/// The views of a list of optional blocks.
pub open spec fn opt_block_view(b: Option<Block>) -> Option<BlockV> {
    match b {
        Some(x) => Some(x@),
        None => None,
    }
}

/// The `text` strings of the items that have one, in order.
pub open spec fn item_texts(items: Seq<Json>) -> Seq<Seq<char>>
    decreases items.len(),
{
    if items.len() == 0 {
        seq![]
    } else {
        let rest = item_texts(items.drop_last());
        match crate::json::str_field(items.last(), "text"@) {
            Some(t) => rest.push(t),
            None => rest,
        }
    }
}

/// The text of a tool result's content: a string as is, or the `text`
/// strings of an array's items, one per line.
pub open spec fn tool_output(content: Option<Json>) -> Seq<char> {
    match content {
        Some(Json::String(s)) => s@,
        Some(Json::Array(items)) => crate::strings::join(item_texts(items@), seq!['\n']),
        _ => seq![],
    }
}

/// What one content item of a message normalizes to, if anything.
pub open spec fn block_of_item(b: Json) -> Option<BlockV> {
    match crate::json::str_field(b, "type"@) {
        None => None,
        Some(t) => if t == "text"@ {
            match crate::json::str_field(b, "text"@) {
                Some(x) => Some(BlockV::Text { text: x }),
                None => None,
            }
        } else if t == "thinking"@ {
            Some(
                BlockV::Thinking {
                    len: match crate::json::str_field(b, "thinking"@) {
                        Some(x) => vstd::utf8::encode_utf8(x).len() as usize,
                        None => 0,
                    },
                },
            )
        } else if t == "tool_use"@ {
            match crate::json::str_field(b, "name"@) {
                Some(name) => Some(
                    BlockV::ToolUse {
                        id: match crate::json::str_field(b, "id"@) {
                            Some(x) => x,
                            None => seq![],
                        },
                        name,
                        input: crate::json::canonical(
                            match crate::json::json_get(b, "input"@) {
                                Some(x) => x,
                                None => Json::Null,
                            },
                        ),
                    },
                ),
                None => None,
            }
        } else if t == "tool_result"@ {
            Some(
                BlockV::ToolResult {
                    tool_use_id: match crate::json::str_field(b, "tool_use_id"@) {
                        Some(x) => x,
                        None => seq![],
                    },
                    output: tool_output(crate::json::json_get(b, "content"@)),
                    is_error: match crate::json::as_bool(crate::json::json_get(b, "is_error"@)) {
                        Some(x) => x,
                        None => false,
                    },
                },
            )
        } else {
            None
        },
    }
}

/// A tool result is errored exactly when its content item's `is_error`
/// field is the boolean `true`: a missing or non-boolean field means the
/// tool succeeded. Every other field of the item leaves the flag alone.
pub proof fn tool_result_errors_only_when_flagged(b: Json)
    ensures
        block_of_item(b) matches Some(BlockV::ToolResult { is_error, .. }) ==> (is_error <==> crate::json::json_get(
            b,
            "is_error"@,
        ) == Some(Json::Bool(true))),
        crate::json::str_field(b, "type"@) == Some("tool_result"@) ==> block_of_item(b) is Some,
{
    reveal_strlit("tool_result");
    reveal_strlit("text");
    reveal_strlit("thinking");
    reveal_strlit("tool_use");
    assert("tool_result"@.len() != "text"@.len());
    assert("tool_result"@[5] != "tool_use"@[5]);
    assert("tool_result"@.len() != "thinking"@.len());
}

/// The blocks of a list of content items, skipping items that yield none.
pub open spec fn blocks_of_items(items: Seq<Json>) -> Seq<BlockV>
    decreases items.len(),
{
    if items.len() == 0 {
        seq![]
    } else {
        let rest = blocks_of_items(items.drop_last());
        match block_of_item(items.last()) {
            Some(b) => rest.push(b),
            None => rest,
        }
    }
}

/// The blocks of a record's `message`: a non-blank string content is one
/// text block; an array content is its items' blocks.
pub open spec fn message_blocks(message: Option<Json>) -> Seq<BlockV> {
    match message {
        None => seq![],
        Some(msg) => match crate::json::json_get(msg, "content"@) {
            Some(Json::String(s)) => if crate::strings::trim(s@).len() == 0 {
                seq![]
            } else {
                seq![BlockV::Text { text: s@ }]
            },
            Some(Json::Array(items)) => blocks_of_items(items@),
            _ => seq![],
        },
    }
}

fn owned(s: &str) -> (r: String)
    ensures
        r@ == s@,
{
    let mut r = String::new();
    push_str(&mut r, s);
    r
}

/// A tool result's `content` may be a string or an array of text blocks.
pub fn stringify_tool_output(content: Option<&Json>) -> (r: String)
    ensures
        r@ == tool_output(deref_opt(content)),
{
    match content {
        Some(Json::String(s)) => s.clone(),
        Some(Json::Array(items)) => {
            let mut r = String::new();
            let mut first = true;
            let n = items.len();
            for i in 0..n
                invariant
                    n == items@.len(),
                    r@ == crate::strings::join(item_texts(items@.take(i as int)), seq!['\n']),
                    first <==> item_texts(items@.take(i as int)).len() == 0,
            {
                assert(items@.take(i + 1).drop_last() == items@.take(i as int));
                match get_str(&items[i], "text") {
                    Some(t) => {
                        proof {
                            crate::strings::lemma_join_push(
                                item_texts(items@.take(i as int)),
                                seq!['\n'],
                                t@,
                            );
                        }
                        if !first {
                            push_char(&mut r, '\n');
                        }
                        push_str(&mut r, t);
                        first = false;
                    },
                    None => {},
                }
            }
            assert(items@.take(n as int) == items@);
            r
        },
        _ => String::new(),
    }
}

/// Normalize one content item of a message into a block, if it is one.
pub fn block_from_value(b: &Json) -> (r: Option<Block>)
    ensures
        opt_block_view(r) == block_of_item(*b),
{
    let ty = match get_str(b, "type") {
        Some(t) => t,
        None => return None,
    };
    if str_eq(ty, "text") {
        match get_str(b, "text") {
            Some(x) => Some(Block::Text { text: owned(x) }),
            None => None,
        }
    } else if str_eq(ty, "thinking") {
        let len = match get_str(b, "thinking") {
            Some(x) => x.len(),
            None => 0,
        };
        Some(Block::Thinking { len })
    } else if str_eq(ty, "tool_use") {
        let name = match get_str(b, "name") {
            Some(x) => owned(x),
            None => return None,
        };
        let id = match get_str(b, "id") {
            Some(x) => owned(x),
            None => String::new(),
        };
        let input = match get(b, "input") {
            Some(x) => canonical_json(x),
            None => {
                let mut s = String::new();
                push_str(&mut s, "null");
                assert(s@ =~= crate::json::canonical(Json::Null));
                s
            },
        };
        Some(Block::ToolUse { id, name, input })
    } else if str_eq(ty, "tool_result") {
        let tool_use_id = match get_str(b, "tool_use_id") {
            Some(x) => owned(x),
            None => String::new(),
        };
        let output = stringify_tool_output(get(b, "content"));
        let is_error = match get_bool(b, "is_error") {
            Some(x) => x,
            None => false,
        };
        Some(Block::ToolResult { tool_use_id, output, is_error })
    } else {
        None
    }
}

/// Extract normalized blocks from a `message` value, whose `content` is
/// either a plain string (a user prompt) or an array of typed blocks.
pub fn extract_blocks(message: Option<&Json>) -> (r: Vec<Block>)
    ensures
        crate::model::blocks_view(r@) == message_blocks(deref_opt(message)),
{
    let mut r: Vec<Block> = Vec::new();
    let msg = match message {
        Some(m) => m,
        None => {
            assert(crate::model::blocks_view(r@) =~= Seq::<BlockV>::empty());
            return r;
        },
    };
    match get(msg, "content") {
        Some(Json::String(s)) => {
            let chars = chars_of(s.as_str());
            let (a, b) = trim_bounds(&chars, 0, chars.len());
            assert(chars@.subrange(0, chars@.len() as int) == chars@);
            if a < b {
                r.push(Block::Text { text: s.clone() });
            }
            assert(crate::model::blocks_view(r@) =~= message_blocks(deref_opt(message)));
        },
        Some(Json::Array(items)) => {
            let n = items.len();
            for i in 0..n
                invariant
                    n == items@.len(),
                    crate::model::blocks_view(r@) == blocks_of_items(items@.take(i as int)),
            {
                assert(items@.take(i + 1).drop_last() == items@.take(i as int));
                match block_from_value(&items[i]) {
                    Some(b) => {
                        let ghost before = r@;
                        r.push(b);
                        assert(crate::model::blocks_view(r@) =~= crate::model::blocks_view(before).push(b@));
                    },
                    None => {},
                }
            }
            assert(items@.take(n as int) == items@);
        },
        _ => {
            assert(crate::model::blocks_view(r@) =~= Seq::<BlockV>::empty());
        },
    }
    r
}

// ---------------------------------------------------------------------------
// Records
// ---------------------------------------------------------------------------

/// A message record: what one transcript line contributes as a step.
pub struct Raw {
    pub uuid: String,
    pub parent: Option<String>,
    pub role: Role,
    pub ts: Option<String>,
    pub blocks: Vec<Block>,
    pub is_meta: bool,
}

/// A message record as characters.
pub struct RawV {
    pub uuid: Seq<char>,
    pub parent: Option<Seq<char>>,
    pub role: Role,
    pub ts: Option<Seq<char>>,
    pub blocks: Seq<BlockV>,
    pub is_meta: bool,
}

/// The view of an optional string.
pub open spec fn opt_view(s: Option<String>) -> Option<Seq<char>> {
    match s {
        Some(x) => Some(x@),
        None => None,
    }
}

impl View for Raw {
    type V = RawV;

    open spec fn view(&self) -> RawV {
        RawV {
            uuid: self.uuid@,
            parent: opt_view(self.parent),
            role: self.role,
            ts: opt_view(self.ts),
            blocks: crate::model::blocks_view(self.blocks@),
            is_meta: self.is_meta,
        }
    }
}

/// The views of a list of records.
pub open spec fn raws_view(v: Seq<Raw>) -> Seq<RawV> {
    v.map_values(|r: Raw| r@)
}

/// The role a record `type` stands for, if it is a message type.
pub open spec fn role_of(ty: Seq<char>) -> Option<Role> {
    if ty == "user"@ {
        Some(Role::User)
    } else if ty == "assistant"@ {
        Some(Role::Assistant)
    } else if ty == "system"@ {
        Some(Role::System)
    } else {
        None
    }
}

/// The message record a line holds, if any: a user, assistant or system
/// record with a uuid and at least one content block.
pub open spec fn raw_of(v: Json) -> Option<RawV> {
    let ty = match crate::json::str_field(v, "type"@) {
        Some(t) => t,
        None => seq![],
    };
    match role_of(ty) {
        None => None,
        Some(role) => match crate::json::str_field(v, "uuid"@) {
            None => None,
            Some(uuid) => {
                let blocks = message_blocks(crate::json::json_get(v, "message"@));
                if blocks.len() == 0 {
                    None
                } else {
                    Some(
                        RawV {
                            uuid,
                            parent: crate::json::str_field(v, "parentUuid"@),
                            role,
                            ts: crate::json::str_field(v, "timestamp"@),
                            blocks,
                            is_meta: match crate::json::as_bool(
                                crate::json::json_get(v, "isMeta"@),
                            ) {
                                Some(b) => b,
                                None => false,
                            },
                        },
                    )
                }
            },
        },
    }
}

/// The message records of the parsed lines, in order.
pub open spec fn raws_of(lines: Seq<Option<Json>>) -> Seq<RawV>
    decreases lines.len(),
{
    if lines.len() == 0 {
        seq![]
    } else {
        let rest = raws_of(lines.drop_last());
        match lines.last() {
            Some(v) => match raw_of(v) {
                Some(r) => rest.push(r),
                None => rest,
            },
            None => rest,
        }
    }
}

/// The (uuid, parentUuid) links of every parsed record that has a uuid.
pub open spec fn parent_links(lines: Seq<Option<Json>>) -> Seq<(Seq<char>, Option<Seq<char>>)>
    decreases lines.len(),
{
    if lines.len() == 0 {
        seq![]
    } else {
        let rest = parent_links(lines.drop_last());
        match lines.last() {
            Some(v) => match crate::json::str_field(v, "uuid"@) {
                Some(u) => rest.push((u, crate::json::str_field(v, "parentUuid"@))),
                None => rest,
            },
            None => rest,
        }
    }
}

/// Session id, cwd, git branch and version of the run.
pub struct MetaV {
    pub session_id: Option<Seq<char>>,
    pub cwd: Option<Seq<char>>,
    pub git_branch: Option<Seq<char>>,
    pub claude_version: Option<Seq<char>>,
}

/// The session metadata of a record.
pub open spec fn meta_fields(v: Json) -> MetaV {
    MetaV {
        session_id: crate::json::str_field(v, "sessionId"@),
        cwd: crate::json::str_field(v, "cwd"@),
        git_branch: crate::json::str_field(v, "gitBranch"@),
        claude_version: crate::json::str_field(v, "version"@),
    }
}

/// The session metadata of a transcript: taken from each record in turn
/// until one carries a session id.
pub open spec fn meta_of(lines: Seq<Option<Json>>) -> MetaV
    decreases lines.len(),
{
    if lines.len() == 0 {
        MetaV { session_id: None, cwd: None, git_branch: None, claude_version: None }
    } else {
        let m = meta_of(lines.drop_last());
        match lines.last() {
            Some(v) => if m.session_id is None {
                meta_fields(v)
            } else {
                m
            },
            None => m,
        }
    }
}

/// The view of a list of links.
pub open spec fn links_view(v: Seq<(String, Option<String>)>) -> Seq<(Seq<char>, Option<Seq<char>>)> {
    v.map_values(|e: (String, Option<String>)| (e.0@, opt_view(e.1)))
}

fn owned_opt(s: Option<&str>) -> (r: Option<String>)
    ensures
        opt_view(r) == match s {
            Some(x) => Some(x@),
            None => None::<Seq<char>>,
        },
{
    match s {
        Some(x) => Some(owned(x)),
        None => None,
    }
}

/// Read the message record of one parsed line, if it holds one.
fn raw_from_value(v: &Json) -> (r: Option<Raw>)
    ensures
        r is Some ==> raw_of(*v) == Some(r->0@),
        r is None ==> raw_of(*v) is None,
{
    proof {
        reveal_strlit("user");
        reveal_strlit("assistant");
        reveal_strlit("system");
        reveal_strlit("");
    }
    let ty = match get_str(v, "type") {
        Some(t) => t,
        None => "",
    };
    let role = if str_eq(ty, "user") {
        Role::User
    } else if str_eq(ty, "assistant") {
        Role::Assistant
    } else if str_eq(ty, "system") {
        Role::System
    } else {
        assert(ty@ != "user"@ && ty@ != "assistant"@ && ty@ != "system"@);
        assert(role_of(ty@) is None);
        assert(crate::json::str_field(*v, "type"@) is None ==> ty@ == Seq::<char>::empty());
        assert(crate::json::str_field(*v, "type"@) is Some ==> crate::json::str_field(*v, "type"@)->0 == ty@);
        assert(raw_of(*v) is None);
        return None;
    };
    let uuid = match get_str(v, "uuid") {
        Some(u) => owned(u),
        None => return None,
    };
    let blocks = extract_blocks(get(v, "message"));
    if blocks.len() == 0 {
        return None;
    }
    let is_meta = match get_bool(v, "isMeta") {
        Some(b) => b,
        None => false,
    };
    let r = Raw {
        uuid,
        parent: owned_opt(get_str(v, "parentUuid")),
        role,
        ts: owned_opt(get_str(v, "timestamp")),
        blocks,
        is_meta,
    };
    Some(r)
}

/// Records, links and metadata read from the parsed lines.
struct Scan {
    links: Vec<(String, Option<String>)>,
    raws: Vec<Raw>,
    meta: RunMeta,
}

/// The view of run metadata without its source.
pub open spec fn meta_view(m: RunMeta) -> MetaV {
    MetaV {
        session_id: opt_view(m.session_id),
        cwd: opt_view(m.cwd),
        git_branch: opt_view(m.git_branch),
        claude_version: opt_view(m.claude_version),
    }
}

fn scan_lines(lines: &Vec<Option<Json>>) -> (sc: Scan)
    ensures
        links_view(sc.links@) == parent_links(lines@),
        raws_view(sc.raws@) == raws_of(lines@),
        meta_view(sc.meta) == meta_of(lines@),
        sc.meta.source is None,
{
    let mut links: Vec<(String, Option<String>)> = Vec::new();
    let mut raws: Vec<Raw> = Vec::new();
    let mut meta = RunMeta { session_id: None, cwd: None, git_branch: None, claude_version: None, source: None };
    let n = lines.len();
    for i in 0..n
        invariant
            n == lines@.len(),
            links_view(links@) == parent_links(lines@.take(i as int)),
            raws_view(raws@) == raws_of(lines@.take(i as int)),
            meta_view(meta) == meta_of(lines@.take(i as int)),
            meta.source is None,
    {
        assert(lines@.take(i + 1).drop_last() == lines@.take(i as int));
        match &lines[i] {
            Some(v) => {
                match get_str(v, "uuid") {
                    Some(u) => {
                        let ghost before = links@;
                        links.push((owned(u), owned_opt(get_str(v, "parentUuid"))));
                        assert(links_view(links@) =~= links_view(before).push(
                            (u@, crate::json::str_field(*v, "parentUuid"@)),
                        ));
                    },
                    None => {},
                }
                if meta.session_id.is_none() {
                    meta = RunMeta {
                        session_id: owned_opt(get_str(v, "sessionId")),
                        cwd: owned_opt(get_str(v, "cwd")),
                        git_branch: owned_opt(get_str(v, "gitBranch")),
                        claude_version: owned_opt(get_str(v, "version")),
                        source: None,
                    };
                }
                match raw_from_value(v) {
                    Some(r) => {
                        let ghost before = raws@;
                        raws.push(r);
                        assert(raws_view(raws@) =~= raws_view(before).push(r@));
                    },
                    None => {},
                }
            },
            None => {},
        }
    }
    assert(lines@.take(n as int) == lines@);
    Scan { links, raws, meta }
}

// ---------------------------------------------------------------------------
// The record tree
// ---------------------------------------------------------------------------

/// How many links a walk up the tree follows at most, guarding against
/// cycles in malformed input.
pub const WALK_LIMIT: usize = 100_000;

/// The parent recorded for a uuid by the last record that has it (`None` if
/// no record has it, or if that record has no parent).
pub open spec fn recorded_parent(links: Seq<(Seq<char>, Option<Seq<char>>)>, u: Seq<char>) -> Option<
    Seq<char>,
>
    decreases links.len(),
{
    if links.len() == 0 {
        None
    } else if links.last().0 == u {
        links.last().1
    } else {
        recorded_parent(links.drop_last(), u)
    }
}

/// True if some message record has this uuid.
pub open spec fn is_message_id(raws: Seq<RawV>, u: Seq<char>) -> bool {
    exists|i: int| 0 <= i < raws.len() && #[trigger] raws[i].uuid == u
}

/// Walks up from `cur` through the recorded parents to the first uuid that
/// is a message, following at most `fuel` more links.
pub open spec fn message_ancestor(
    links: Seq<(Seq<char>, Option<Seq<char>>)>,
    raws: Seq<RawV>,
    cur: Option<Seq<char>>,
    fuel: nat,
) -> Option<Seq<char>>
    decreases fuel,
{
    match cur {
        None => None,
        Some(p) => if is_message_id(raws, p) {
            Some(p)
        } else if fuel == 0 {
            None
        } else {
            message_ancestor(links, raws, recorded_parent(links, p), (fuel - 1) as nat)
        },
    }
}

/// A walk up the tree ends at a message record, if anywhere.
proof fn lemma_message_ancestor_is_message(
    links: Seq<(Seq<char>, Option<Seq<char>>)>,
    raws: Seq<RawV>,
    cur: Option<Seq<char>>,
    fuel: nat,
)
    ensures
        message_ancestor(links, raws, cur, fuel) matches Some(p) ==> is_message_id(raws, p),
    decreases fuel,
{
    if let Some(p) = cur {
        if !is_message_id(raws, p) && fuel > 0 {
            lemma_message_ancestor_is_message(links, raws, recorded_parent(links, p), (fuel - 1) as nat);
        }
    }
}

/// A message's effective parent: its nearest message ancestor.
pub open spec fn effective_parent(
    links: Seq<(Seq<char>, Option<Seq<char>>)>,
    raws: Seq<RawV>,
    u: Seq<char>,
) -> Option<Seq<char>> {
    message_ancestor(links, raws, recorded_parent(links, u), WALK_LIMIT as nat)
}

/// The message records with their parents rewritten to effective parents.
pub open spec fn linked(links: Seq<(Seq<char>, Option<Seq<char>>)>, raws: Seq<RawV>) -> Seq<RawV> {
    raws.map_values(
        |r: RawV|
            RawV {
                uuid: r.uuid,
                parent: effective_parent(links, raws, r.uuid),
                role: r.role,
                ts: r.ts,
                blocks: r.blocks,
                is_meta: r.is_meta,
            },
    )
}

/// The index of the last record with this uuid, or -1.
pub open spec fn last_index(rs: Seq<RawV>, u: Seq<char>) -> int
    decreases rs.len(),
{
    if rs.len() == 0 {
        -1
    } else if rs.last().uuid == u {
        rs.len() - 1
    } else {
        last_index(rs.drop_last(), u)
    }
}

/// The index of the record a record's parent names, or -1.
pub open spec fn parent_index(rs: Seq<RawV>, k: int) -> int {
    match rs[k].parent {
        Some(p) => last_index(rs, p),
        None => -1,
    }
}

/// True if no record names this record's uuid as its parent.
pub open spec fn is_leaf(rs: Seq<RawV>, i: int) -> bool {
    forall|j: int| 0 <= j < rs.len() ==> #[trigger] rs[j].parent != Some(rs[i].uuid)
}

/// The number of records on the way up from record `k` to a root,
/// following at most `fuel` more links.
pub open spec fn depth(rs: Seq<RawV>, k: int, fuel: nat) -> nat
    decreases fuel,
{
    if k < 0 || k >= rs.len() {
        0
    } else {
        1 + if fuel == 0 {
            0
        } else {
            depth(rs, parent_index(rs, k), (fuel - 1) as nat)
        }
    }
}

/// The depth of the record that a record's uuid names.
pub open spec fn depth_of(rs: Seq<RawV>, i: int) -> nat {
    depth(rs, last_index(rs, rs[i].uuid), WALK_LIMIT as nat)
}

/// Among the first `n` records, the leaf of greatest depth, the latest of
/// equally deep ones.
pub open spec fn best_leaf(rs: Seq<RawV>, n: nat) -> Option<int>
    decreases n,
{
    if n == 0 {
        None
    } else {
        let prev = best_leaf(rs, (n - 1) as nat);
        let i = n - 1;
        if is_leaf(rs, i) && depth_of(rs, i) >= match prev {
            Some(p) => depth_of(rs, p),
            None => 0,
        } {
            Some(i)
        } else {
            prev
        }
    }
}

/// The records from `k` up to a root, following at most `fuel` more links.
pub open spec fn path_up(rs: Seq<RawV>, k: int, fuel: nat) -> Seq<int>
    decreases fuel,
{
    if k < 0 || k >= rs.len() {
        seq![]
    } else {
        seq![k] + if fuel == 0 {
            seq![]
        } else {
            path_up(rs, parent_index(rs, k), (fuel - 1) as nat)
        }
    }
}

/// The records on the root-to-active-leaf path, meta records left out.
pub open spec fn without_meta(rs: Seq<RawV>, path: Seq<int>) -> Seq<int>
    decreases path.len(),
{
    if path.len() == 0 {
        seq![]
    } else {
        let rest = without_meta(rs, path.drop_last());
        if rs[path.last()].is_meta {
            rest
        } else {
            rest.push(path.last())
        }
    }
}

/// The active path: from the root down to the active leaf, meta records
/// dropped.
pub open spec fn active_path(rs: Seq<RawV>) -> Seq<int> {
    match best_leaf(rs, rs.len()) {
        None => seq![],
        Some(i) => without_meta(rs, path_up(rs, last_index(rs, rs[i].uuid), WALK_LIMIT as nat).reverse()),
    }
}

/// The index a position holds, -1 for none.
pub open spec fn pos(o: Option<usize>) -> int {
    match o {
        Some(k) => k as int,
        None => -1,
    }
}

/// The indices of a list, as integers.
pub open spec fn idx_view(v: Seq<usize>) -> Seq<int> {
    v.map_values(|x: usize| x as int)
}

/// The parent recorded for `u` by the last link that has it.
fn lookup_parent(links: &Vec<(String, Option<String>)>, u: &String) -> (r: Option<String>)
    ensures
        opt_view(r) == recorded_parent(links_view(links@), u@),
{
    let ghost lv = links_view(links@);
    let mut i = links.len();
    assert(lv.take(i as int) == lv);
    while i > 0
        invariant
            i <= links@.len(),
            lv == links_view(links@),
            recorded_parent(lv, u@) == recorded_parent(lv.take(i as int), u@),
        decreases i,
    {
        assert(lv.take(i as int).drop_last() == lv.take(i - 1));
        assert(lv.take(i as int).last() == lv[i - 1]);
        if links[i - 1].0 == *u {
            return copy_opt_string(&links[i - 1].1);
        }
        i = i - 1;
    }
    None
}

/// True if some message record has uuid `u`.
fn is_message(raws: &Vec<Raw>, u: &String) -> (b: bool)
    ensures
        b == is_message_id(raws_view(raws@), u@),
{
    let ghost rv = raws_view(raws@);
    for i in 0..raws.len()
        invariant
            rv == raws_view(raws@),
            forall|j: int| 0 <= j < i ==> #[trigger] rv[j].uuid != u@,
    {
        if raws[i].uuid == *u {
            assert(rv[i as int].uuid == u@);
            return true;
        }
    }
    false
}

/// Walk up the full parent chain from `uuid` until reaching a record that
/// is a message, bridging non-message records (attachments, snapshots).
fn effective_parent_of(links: &Vec<(String, Option<String>)>, raws: &Vec<Raw>, uuid: &String) -> (r:
    Option<String>)
    ensures
        opt_view(r) == effective_parent(links_view(links@), raws_view(raws@), uuid@),
{
    let ghost lv = links_view(links@);
    let ghost rv = raws_view(raws@);
    let mut cur = lookup_parent(links, uuid);
    let mut guard: usize = 0;
    loop
        invariant
            guard <= WALK_LIMIT,
            lv == links_view(links@),
            rv == raws_view(raws@),
            effective_parent(lv, rv, uuid@) == message_ancestor(lv, rv, opt_view(cur), (WALK_LIMIT - guard) as nat),
        decreases WALK_LIMIT - guard,
    {
        let p = match cur {
            Some(p) => p,
            None => return None,
        };
        if is_message(raws, &p) {
            return Some(p);
        }
        if guard == WALK_LIMIT {
            return None;
        }
        cur = lookup_parent(links, &p);
        guard = guard + 1;
    }
}

/// The records of a transcript with their effective parents.
pub open spec fn linked_view(raws: Seq<Raw>, parents: Seq<Option<String>>) -> Seq<RawV> {
    Seq::new(
        raws.len(),
        |i: int|
            RawV {
                uuid: raws[i]@.uuid,
                parent: opt_view(parents[i]),
                role: raws[i]@.role,
                ts: raws[i]@.ts,
                blocks: raws[i]@.blocks,
                is_meta: raws[i]@.is_meta,
            },
    )
}

/// The effective parent of every record.
fn effective_parents(links: &Vec<(String, Option<String>)>, raws: &Vec<Raw>) -> (ps: Vec<Option<String>>)
    ensures
        ps@.len() == raws@.len(),
        linked_view(raws@, ps@) == linked(links_view(links@), raws_view(raws@)),
{
    let mut ps: Vec<Option<String>> = Vec::new();
    for i in 0..raws.len()
        invariant
            ps@.len() == i,
            forall|j: int| 0 <= j < i ==> opt_view(#[trigger] ps@[j]) == effective_parent(
                links_view(links@),
                raws_view(raws@),
                raws@[j].uuid@,
            ),
    {
        ps.push(effective_parent_of(links, raws, &raws[i].uuid));
    }
    assert(linked_view(raws@, ps@) =~= linked(links_view(links@), raws_view(raws@)));
    ps
}

/// The index of the last record with uuid `u`.
fn last_index_of(raws: &Vec<Raw>, u: &String) -> (r: Option<usize>)
    ensures
        pos(r) == last_index(raws_view(raws@), u@),
        r matches Some(k) ==> k < raws@.len(),
{
    let ghost rv = raws_view(raws@);
    let mut i = raws.len();
    assert(rv.take(i as int) == rv);
    while i > 0
        invariant
            i <= raws@.len(),
            rv == raws_view(raws@),
            last_index(rv, u@) == last_index(rv.take(i as int), u@),
        decreases i,
    {
        assert(rv.take(i as int).drop_last() == rv.take(i - 1));
        if raws[i - 1].uuid == *u {
            return Some(i - 1);
        }
        i = i - 1;
    }
    None
}

proof fn lemma_last_index_uuids(a: Seq<RawV>, b: Seq<RawV>, u: Seq<char>)
    requires
        a.len() == b.len(),
        forall|i: int| 0 <= i < a.len() ==> #[trigger] a[i].uuid == b[i].uuid,
    ensures
        last_index(a, u) == last_index(b, u),
        -1 <= last_index(a, u) < a.len(),
    decreases a.len(),
{
    if a.len() > 0 {
        lemma_last_index_uuids(a.drop_last(), b.drop_last(), u);
    }
}

/// Positions of the parents and of the records themselves, by uuid.
struct Tree {
    /// For each record, the last record its effective parent names.
    parent_pos: Vec<Option<usize>>,
    /// For each record, the last record with its uuid.
    self_pos: Vec<usize>,
    /// For each record, whether no record names it as parent.
    leaf: Vec<bool>,
}

fn build_tree(raws: &Vec<Raw>, parents: &Vec<Option<String>>) -> (t: Tree)
    requires
        parents@.len() == raws@.len(),
    ensures
        t.parent_pos@.len() == raws@.len(),
        t.self_pos@.len() == raws@.len(),
        t.leaf@.len() == raws@.len(),
        forall|k: int| 0 <= k < raws@.len() ==> pos(#[trigger] t.parent_pos@[k]) == parent_index(linked_view(raws@, parents@), k),
        forall|k: int| 0 <= k < raws@.len() ==> #[trigger] t.self_pos@[k] == last_index(linked_view(raws@, parents@), raws@[k].uuid@),
        forall|k: int| 0 <= k < raws@.len() ==> #[trigger] t.leaf@[k] == is_leaf(linked_view(raws@, parents@), k),
        forall|k: int| 0 <= k < raws@.len() ==> #[trigger] pos(t.parent_pos@[k]) < raws@.len(),
        forall|k: int| 0 <= k < raws@.len() ==> #[trigger] t.self_pos@[k] < raws@.len(),
{
    let ghost rs = linked_view(raws@, parents@);
    let ghost rv = raws_view(raws@);
    assert forall|i: int| 0 <= i < rs.len() implies #[trigger] rs[i].uuid == rv[i].uuid by {}
    let n = raws.len();
    let mut parent_pos: Vec<Option<usize>> = Vec::new();
    let mut self_pos: Vec<usize> = Vec::new();
    let mut leaf: Vec<bool> = Vec::new();
    for i in 0..n
        invariant
            n == raws@.len(),
            parents@.len() == n,
            rs == linked_view(raws@, parents@),
            rv == raws_view(raws@),
            forall|i: int| 0 <= i < rs.len() ==> #[trigger] rs[i].uuid == rv[i].uuid,
            parent_pos@.len() == i,
            self_pos@.len() == i,
            leaf@.len() == i,
            forall|k: int| 0 <= k < i ==> pos(#[trigger] parent_pos@[k]) == parent_index(rs, k),
            forall|k: int| 0 <= k < i ==> #[trigger] self_pos@[k] == last_index(rs, raws@[k].uuid@),
            forall|k: int| 0 <= k < i ==> #[trigger] leaf@[k] == is_leaf(rs, k),
            forall|k: int| 0 <= k < i ==> #[trigger] pos(parent_pos@[k]) < n,
            forall|k: int| 0 <= k < i ==> #[trigger] self_pos@[k] < n,
    {
        match &parents[i] {
            Some(p) => {
                proof {
                    lemma_last_index_uuids(rs, rv, p@);
                }
                parent_pos.push(last_index_of(raws, p));
            },
            None => {
                parent_pos.push(None);
            },
        }
        proof {
            lemma_last_index_uuids(rs, rv, raws@[i as int].uuid@);
        }
        match last_index_of(raws, &raws[i].uuid) {
            Some(k) => self_pos.push(k),
            None => {
                assert(rv[i as int].uuid == raws@[i as int].uuid@);
                proof {
                    lemma_last_index_found(rv, i as int);
                }
                self_pos.push(i);
            },
        }
        let mut is_leaf_i = true;
        for j in 0..n
            invariant
                n == raws@.len(),
                parents@.len() == n,
                rs == linked_view(raws@, parents@),
                0 <= i < n,
                is_leaf_i <==> forall|m: int| 0 <= m < j ==> #[trigger] rs[m].parent != Some(rs[i as int].uuid),
        {
            assert(rs[j as int].parent == opt_view(parents@[j as int]));
            assert(rs[i as int].uuid == raws@[i as int].uuid@);
            match &parents[j] {
                Some(p) => {
                    if *p == raws[i].uuid {
                        is_leaf_i = false;
                    }
                },
                None => {},
            }
        }
        leaf.push(is_leaf_i);
    }
    Tree { parent_pos, self_pos, leaf }
}

proof fn lemma_last_index_found(rs: Seq<RawV>, i: int)
    requires
        0 <= i < rs.len(),
    ensures
        i <= last_index(rs, rs[i].uuid) < rs.len(),
    decreases rs.len(),
{
    if i < rs.len() - 1 {
        lemma_last_index_found(rs.drop_last(), i);
    }
}

/// The tree positions are those of these records.
spec fn tree_of(t: Tree, rs: Seq<RawV>) -> bool {
    &&& t.parent_pos@.len() == rs.len()
    &&& t.self_pos@.len() == rs.len()
    &&& t.leaf@.len() == rs.len()
    &&& forall|k: int| 0 <= k < rs.len() ==> pos(#[trigger] t.parent_pos@[k]) == parent_index(rs, k)
    &&& forall|k: int| 0 <= k < rs.len() ==> #[trigger] t.self_pos@[k] == last_index(rs, rs[k].uuid)
    &&& forall|k: int| 0 <= k < rs.len() ==> #[trigger] t.leaf@[k] == is_leaf(rs, k)
    &&& forall|k: int| 0 <= k < rs.len() ==> #[trigger] pos(t.parent_pos@[k]) < rs.len()
    &&& forall|k: int| 0 <= k < rs.len() ==> #[trigger] t.self_pos@[k] < rs.len()
}

/// The depth of a record: the number of records on the walk up to its root.
fn depth_from(t: &Tree, k: usize, Ghost(rs): Ghost<Seq<RawV>>) -> (d: usize)
    requires
        tree_of(*t, rs),
        k < rs.len(),
    ensures
        d == depth(rs, k as int, WALK_LIMIT as nat),
{
    let mut cur: Option<usize> = Some(k);
    let mut d: usize = 0;
    let mut guard: usize = 0;
    loop
        invariant_except_break
            d <= guard,
            depth(rs, k as int, WALK_LIMIT as nat) == d + depth(rs, pos(cur), (WALK_LIMIT - guard) as nat),
        invariant
            tree_of(*t, rs),
            guard <= WALK_LIMIT,
            pos(cur) < rs.len(),
        ensures
            d == depth(rs, k as int, WALK_LIMIT as nat),
        decreases WALK_LIMIT - guard,
    {
        let c = match cur {
            Some(c) => c,
            None => break,
        };
        d = d + 1;
        if guard == WALK_LIMIT {
            break;
        }
        cur = t.parent_pos[c];
        guard = guard + 1;
    }
    d
}

/// The record up-path from `k` to a root.
fn path_from(t: &Tree, k: usize, Ghost(rs): Ghost<Seq<RawV>>) -> (p: Vec<usize>)
    requires
        tree_of(*t, rs),
        k < rs.len(),
    ensures
        idx_view(p@) == path_up(rs, k as int, WALK_LIMIT as nat),
        forall|i: int| 0 <= i < p@.len() ==> #[trigger] p@[i] < rs.len(),
{
    let mut cur: Option<usize> = Some(k);
    let mut p: Vec<usize> = Vec::new();
    let mut guard: usize = 0;
    loop
        invariant_except_break
            path_up(rs, k as int, WALK_LIMIT as nat) == idx_view(p@) + path_up(rs, pos(cur), (WALK_LIMIT - guard) as nat),
        invariant
            tree_of(*t, rs),
            guard <= WALK_LIMIT,
            pos(cur) < rs.len(),
            forall|i: int| 0 <= i < p@.len() ==> #[trigger] p@[i] < rs.len(),
        ensures
            idx_view(p@) == path_up(rs, k as int, WALK_LIMIT as nat),
            forall|i: int| 0 <= i < p@.len() ==> #[trigger] p@[i] < rs.len(),
        decreases WALK_LIMIT - guard,
    {
        let c = match cur {
            Some(c) => c,
            None => {
                assert(idx_view(p@) + Seq::<int>::empty() =~= idx_view(p@));
                break;
            },
        };
        let ghost before = p@;
        p.push(c);
        assert(idx_view(p@) =~= idx_view(before) + seq![c as int]);
        if guard == WALK_LIMIT {
            assert(idx_view(before) + (seq![c as int] + Seq::<int>::empty()) =~= idx_view(p@));
            break;
        }
        let ghost rest = path_up(rs, pos(t.parent_pos@[c as int]), (WALK_LIMIT - guard - 1) as nat);
        assert(idx_view(before) + (seq![c as int] + rest) =~= idx_view(p@) + rest);
        cur = t.parent_pos[c];
        guard = guard + 1;
    }
    p
}

/// The active leaf: the deepest leaf, the latest of equally deep ones.
fn find_best_leaf(t: &Tree, Ghost(rs): Ghost<Seq<RawV>>) -> (b: Option<usize>)
    requires
        tree_of(*t, rs),
    ensures
        pos(b) == match best_leaf(rs, rs.len()) {
            Some(i) => i,
            None => -1,
        },
        b matches Some(i) ==> i < rs.len(),
        b is None <==> best_leaf(rs, rs.len()) is None,
{
    let n = t.leaf.len();
    let mut best: Option<usize> = None;
    let mut best_depth: usize = 0;
    for i in 0..n
        invariant
            tree_of(*t, rs),
            n == rs.len(),
            pos(best) == match best_leaf(rs, i as nat) {
                Some(j) => j,
                None => -1,
            },
            best matches Some(j) ==> j < i,
            best_leaf(rs, i as nat) matches Some(j) ==> 0 <= j < i,
            best_depth == match best_leaf(rs, i as nat) {
                Some(j) => depth_of(rs, j),
                None => 0,
            },
    {
        if t.leaf[i] {
            let d = depth_from(t, t.self_pos[i], Ghost(rs));
            if d >= best_depth {
                best_depth = d;
                best = Some(i);
            }
        }
    }
    best
}

/// The records of the active path, meta records dropped.
fn active_indices(raws: &Vec<Raw>, t: &Tree, Ghost(rs): Ghost<Seq<RawV>>) -> (r: Vec<usize>)
    requires
        tree_of(*t, rs),
        rs.len() == raws@.len(),
        forall|i: int| 0 <= i < rs.len() ==> #[trigger] rs[i].is_meta == raws@[i].is_meta,
    ensures
        idx_view(r@) == active_path(rs),
        forall|i: int| 0 <= i < r@.len() ==> #[trigger] r@[i] < rs.len(),
{
    let leaf = match find_best_leaf(t, Ghost(rs)) {
        Some(i) => i,
        None => {
            let r: Vec<usize> = Vec::new();
            assert(idx_view(r@) =~= active_path(rs));
            return r;
        },
    };
    let up = path_from(t, t.self_pos[leaf], Ghost(rs));
    let ghost down = idx_view(up@).reverse();
    let mut r: Vec<usize> = Vec::new();
    let n = up.len();
    for i in 0..n
        invariant
            n == up@.len(),
            rs.len() == raws@.len(),
            forall|i: int| 0 <= i < rs.len() ==> #[trigger] rs[i].is_meta == raws@[i].is_meta,
            forall|i: int| 0 <= i < up@.len() ==> #[trigger] up@[i] < rs.len(),
            down == idx_view(up@).reverse(),
            idx_view(r@) == without_meta(rs, down.take(i as int)),
            forall|j: int| 0 <= j < r@.len() ==> #[trigger] r@[j] < rs.len(),
    {
        let k = up[n - 1 - i];
        assert(down.take(i + 1).drop_last() == down.take(i as int));
        assert(down.take(i + 1).last() == k as int);
        if !raws[k].is_meta {
            let ghost before = r@;
            r.push(k);
            assert(idx_view(r@) =~= idx_view(before).push(k as int));
        }
    }
    assert(down.take(n as int) == down);
    r
}

/// The step a record becomes at position `k` of the run.
pub open spec fn step_of(s: Step, k: int, r: RawV) -> bool {
    &&& s.seq == k
    &&& s.uuid@ == r.uuid
    &&& opt_view(s.parent) == r.parent
    &&& s.role == r.role
    &&& opt_view(s.ts) == r.ts
    &&& crate::model::blocks_view(s.blocks@) == r.blocks
    &&& s.hash@ == crate::model::step_hash(r.role, r.blocks)
}

/// Why a transcript yields no run.
#[derive(Debug, Clone, Copy, PartialEq, Eq, Structural)]
pub enum TranscriptError {
    /// No line holds a user, assistant or system record with content.
    NoRecords,
}

impl TranscriptError {
    /// The error's message.
    pub fn message(&self) -> (m: String)
        ensures
            m@ == "no user/assistant records found in transcript"@,
    {
        let mut m = String::new();
        push_str(&mut m, "no user/assistant records found in transcript");
        m
    }
}

/// The records of a transcript's parsed lines, linked to effective parents.
pub open spec fn transcript_records(lines: Seq<Option<Json>>) -> Seq<RawV> {
    linked(parent_links(lines), raws_of(lines))
}

/// Normalize the parsed lines of a transcript (`None` for a line that is not
/// JSON) into a run: the active root-to-leaf path of message records.
pub fn parse_records(lines: &Vec<Option<Json>>) -> (r: Result<Run, TranscriptError>)
    ensures
        r is Err <==> raws_of(lines@).len() == 0,
        r matches Ok(run) ==> {
            let rs = transcript_records(lines@);
            let path = active_path(rs);
            &&& run.format == crate::model::FORMAT_VERSION
            &&& meta_view(run.meta) == meta_of(lines@)
            &&& run.meta.source is None
            &&& run.steps@.len() == path.len()
            &&& forall|k: int| 0 <= k < path.len() ==> step_of(#[trigger] run.steps@[k], k, rs[path[k]])
        },
        r matches Ok(run) ==> forall|k: int|
            0 <= k < run.steps@.len() ==> crate::model::step_consistent(#[trigger] run.steps@[k]),
        r matches Ok(run) ==> forall|k: int|
            0 <= k < run.steps@.len() ==> ((#[trigger] run.steps@[k]).parent matches Some(p) ==> is_message_id(
                raws_of(lines@),
                p@,
            )),
{
    let sc = scan_lines(lines);
    if sc.raws.len() == 0 {
        return Err(TranscriptError::NoRecords);
    }
    let parents = effective_parents(&sc.links, &sc.raws);
    let ghost rs = linked_view(sc.raws@, parents@);
    let t = build_tree(&sc.raws, &parents);
    assert forall|k: int| 0 <= k < rs.len() implies #[trigger] t.self_pos@[k] == last_index(rs, rs[k].uuid) by {
        assert(rs[k].uuid == sc.raws@[k].uuid@);
    }
    assert(tree_of(t, rs));
    assert forall|i: int| 0 <= i < rs.len() implies #[trigger] rs[i].is_meta == sc.raws@[i].is_meta by {}
    let path = active_indices(&sc.raws, &t, Ghost(rs));
    let mut steps: Vec<Step> = Vec::new();
    let n = path.len();
    for k in 0..n
        invariant
            n == path@.len(),
            rs == linked_view(sc.raws@, parents@),
            parents@.len() == sc.raws@.len(),
            forall|i: int| 0 <= i < path@.len() ==> #[trigger] path@[i] < rs.len(),
            steps@.len() == k,
            forall|m: int| 0 <= m < k ==> step_of(#[trigger] steps@[m], m, rs[path@[m] as int]),
    {
        let j = path[k];
        let raw = &sc.raws[j];
        let blocks = copy_blocks(&raw.blocks);
        let hash = Step::compute_hash(&raw.role, blocks.as_slice());
        let step = Step {
            seq: k,
            uuid: raw.uuid.clone(),
            parent: copy_opt_string(&parents[j]),
            role: raw.role,
            ts: copy_opt_string(&raw.ts),
            blocks,
            hash,
        };
        assert(step_of(step, k as int, rs[j as int]));
        steps.push(step);
    }
    proof {
        let lv = links_view(sc.links@);
        let rv = raws_view(sc.raws@);
        assert forall|k: int| 0 <= k < steps@.len() implies ((#[trigger] steps@[k]).parent matches Some(p)
            ==> is_message_id(rv, p@)) by {
            let j = path@[k] as int;
            assert(rs[j] == linked(lv, rv)[j]);
            lemma_message_ancestor_is_message(lv, rv, recorded_parent(lv, rv[j].uuid), WALK_LIMIT as nat);
        }
    }
    Ok(Run::new(sc.meta, steps))
}

/// What serde_json parses each record line of a transcript into.
pub open spec fn parsed_lines(text: Seq<char>) -> Seq<Option<Json>> {
    Seq::new(record_lines(text).len(), |i: int| crate::json::parsed_line(record_lines(text)[i]))
}

/// Parse a transcript into a run: each record line is parsed as JSON (a
/// line that is not JSON is skipped), and the records are normalized as
/// `parse_records` does.
pub fn parse_str(text: &str) -> (r: Result<Run, TranscriptError>)
    ensures
        r is Err <==> raws_of(parsed_lines(text@)).len() == 0,
        r matches Ok(run) ==> {
            let rs = transcript_records(parsed_lines(text@));
            let path = active_path(rs);
            &&& run.format == crate::model::FORMAT_VERSION
            &&& meta_view(run.meta) == meta_of(parsed_lines(text@))
            &&& run.meta.source is None
            &&& run.steps@.len() == path.len()
            &&& forall|k: int| 0 <= k < path.len() ==> step_of(#[trigger] run.steps@[k], k, rs[path[k]])
        },
        r matches Ok(run) ==> forall|k: int|
            0 <= k < run.steps@.len() ==> crate::model::step_consistent(#[trigger] run.steps@[k]),
        r matches Ok(run) ==> forall|k: int|
            0 <= k < run.steps@.len() ==> ((#[trigger] run.steps@[k]).parent matches Some(p) ==> is_message_id(
                raws_of(parsed_lines(text@)),
                p@,
            )),
{
    let record = transcript_lines(text);
    let ghost rl = record_lines(text@);
    let mut lines: Vec<Option<Json>> = Vec::new();
    for i in 0..record.len()
        invariant
            strings_view(record@) == rl,
            lines@.len() == i,
            forall|k: int| 0 <= k < i ==> #[trigger] lines@[k] == crate::json::parsed_line(rl[k]),
    {
        assert(record@[i as int]@ == rl[i as int]);
        lines.push(parse_json_line(record[i].as_str()));
    }
    assert(lines@ =~= parsed_lines(text@));
    parse_records(&lines)
}

} // verus!
