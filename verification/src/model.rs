//! The normalized run model.
//!
//! A session is normalized into an ordered list of [`Step`]s, each carrying a
//! content-addressed hash of its role and blocks. Two steps that did the same
//! work hash the same; the run digest is a hash over every step hash in order.

use vstd::prelude::*;
use vstd::utf8::encode_utf8;
use sha2::{Digest, Sha256};

use crate::strings::{push_bytes, push_char, push_str};

verus! {

#[derive(Debug, Clone, Copy, PartialEq, Eq, Structural)]
pub enum Role {
    User,
    Assistant,
    System,
}

/// A normalized content block. Tool I/O is kept verbatim; free-form thinking
/// is reduced to its length in bytes.
#[derive(Debug, Clone, PartialEq, Eq)]
pub enum Block {
    Text { text: String },
    Thinking { len: usize },
    ToolUse {
        id: String,
        name: String,
        /// Canonicalized JSON of the tool input, as a string, so hashing is stable.
        input: String,
    },
    ToolResult { tool_use_id: String, output: String, is_error: bool },
}

/// The content of a block as characters and numbers.
pub enum BlockV {
    Text { text: Seq<char> },
    Thinking { len: usize },
    ToolUse { id: Seq<char>, name: Seq<char>, input: Seq<char> },
    ToolResult { tool_use_id: Seq<char>, output: Seq<char>, is_error: bool },
}

impl View for Block {
    type V = BlockV;

    open spec fn view(&self) -> BlockV {
        match self {
            Block::Text { text } => BlockV::Text { text: text@ },
            Block::Thinking { len } => BlockV::Thinking { len: *len },
            Block::ToolUse { id, name, input } => BlockV::ToolUse { id: id@, name: name@, input: input@ },
            Block::ToolResult { tool_use_id, output, is_error } => BlockV::ToolResult {
                tool_use_id: tool_use_id@,
                output: output@,
                is_error: *is_error,
            },
        }
    }
}

/// The views of a list of blocks.
pub open spec fn blocks_view(bs: Seq<Block>) -> Seq<BlockV> {
    bs.map_values(|b: Block| b@)
}

#[derive(Debug, Clone)]
pub struct Step {
    pub seq: usize,
    pub uuid: String,
    pub parent: Option<String>,
    pub role: Role,
    pub ts: Option<String>,
    pub blocks: Vec<Block>,
    /// Content-addressed hash of (role, blocks).
    pub hash: String,
}

#[derive(Debug, Clone)]
pub struct RunMeta {
    pub session_id: Option<String>,
    pub cwd: Option<String>,
    pub git_branch: Option<String>,
    pub claude_version: Option<String>,
    /// Where this run came from, e.g. "transcript:<path>" or "fork:<parent>@<seq>".
    pub source: Option<String>,
}

#[derive(Debug, Clone)]
pub struct Run {
    /// Format version of the .replay file.
    pub format: u32,
    pub meta: RunMeta,
    pub steps: Vec<Step>,
}

pub const FORMAT_VERSION: u32 = 1;

/// True if a `.replay` document of this format version can be read: it was
/// not written by a newer format than this library's.
pub fn readable_format(format: u32) -> (b: bool)
    ensures
        b == (format <= FORMAT_VERSION),
{
    format <= FORMAT_VERSION
}

impl Default for RunMeta {
    fn default() -> (m: RunMeta)
        ensures
            m.session_id is None,
            m.cwd is None,
            m.git_branch is None,
            m.claude_version is None,
            m.source is None,
    {
        RunMeta { session_id: None, cwd: None, git_branch: None, claude_version: None, source: None }
    }
}

// ---------------------------------------------------------------------------
// Hashing
// ---------------------------------------------------------------------------

/// What SHA-256 returns for the given bytes.
pub uninterp spec fn sha256(data: Seq<u8>) -> Seq<u8>;

/// Calls `sha2::Sha256::digest` on `data`. The contract claims that the
/// digest is the named SHA-256 of exactly these bytes and that it is 32
/// bytes long, as the sha2 crate's output size for SHA-256 fixes.
#[verifier::external_body]
fn sha256_digest(data: &[u8]) -> (d: Vec<u8>)
    ensures
        d@ == sha256(data@),
        d@.len() == 32,
{
    Sha256::digest(data).to_vec()
}

/// The `k` lowest bytes of `n`, least significant first.
pub open spec fn le_bytes(n: nat, k: nat) -> Seq<u8>
    decreases k,
{
    if k == 0 {
        seq![]
    } else {
        seq![(n % 256) as u8] + le_bytes(n / 256, (k - 1) as nat)
    }
}

/// The width of a `usize` in bytes on the target: what `usize::to_le_bytes`
/// writes.
pub open spec fn usize_bytes() -> nat {
    (usize::BITS / 8) as nat
}

/// The tag that starts the hashed bytes of a step.
pub open spec fn role_tag(role: Role) -> Seq<char> {
    match role {
        Role::User => "user\n"@,
        Role::Assistant => "assistant\n"@,
        Role::System => "system\n"@,
    }
}

/// The bytes a block contributes to its step's hash. Tool-use and
/// tool-result ids are left out: they are random per run.
pub open spec fn block_hash_input(b: BlockV) -> Seq<u8> {
    match b {
        BlockV::Text { text } => encode_utf8("text\0"@) + encode_utf8(text),
        BlockV::Thinking { len } => encode_utf8("thinking\0"@) + le_bytes(len as nat, usize_bytes()),
        BlockV::ToolUse { name, input, .. } => encode_utf8("tool_use\0"@) + encode_utf8(name)
            + encode_utf8("\0"@) + encode_utf8(input),
        BlockV::ToolResult { output, is_error, .. } => encode_utf8("tool_result\0"@) + seq![
            if is_error {
                1u8
            } else {
                0u8
            },
        ] + encode_utf8(output),
    }
}

/// The bytes of a list of blocks, each followed by a record separator.
pub open spec fn blocks_hash_input(bs: Seq<BlockV>) -> Seq<u8>
    decreases bs.len(),
{
    if bs.len() == 0 {
        seq![]
    } else {
        blocks_hash_input(bs.drop_last()) + block_hash_input(bs.last()) + seq![0x1eu8]
    }
}

/// The full bytes hashed for a step.
pub open spec fn step_hash_input(role: Role, bs: Seq<BlockV>) -> Seq<u8> {
    encode_utf8(role_tag(role)) + blocks_hash_input(bs)
}

/// A lower-case hex digit.
pub open spec fn hex_char(d: nat) -> char {
    if d < 10 {
        ((48 + d) as u8) as char
    } else {
        ((87 + d) as u8) as char
    }
}

/// Lower-case hex of a byte sequence, two digits per byte.
pub open spec fn hex(bytes: Seq<u8>) -> Seq<char>
    decreases bytes.len(),
{
    if bytes.len() == 0 {
        seq![]
    } else {
        hex(bytes.drop_last()) + seq![
            hex_char((bytes.last() / 16) as nat),
            hex_char((bytes.last() % 16) as nat),
        ]
    }
}

/// The short hex form of a digest: its first 12 bytes as 24 hex digits.
pub open spec fn short_hex(digest: Seq<u8>) -> Seq<char> {
    hex(digest.take(12))
}

/// True if every character is a lower-case hex digit.
pub open spec fn is_lower_hex(s: Seq<char>) -> bool {
    forall|i: int| 0 <= i < s.len() ==> ('0' <= #[trigger] s[i] <= '9' || 'a' <= s[i] <= 'f')
}

/// The content hash of a step with this role and these blocks.
pub open spec fn step_hash(role: Role, bs: Seq<BlockV>) -> Seq<char> {
    short_hex(sha256(step_hash_input(role, bs)))
}

fn hex_digit(d: u8) -> (c: char)
    requires
        d < 16,
    ensures
        c == hex_char(d as nat),
        '0' <= c <= '9' || 'a' <= c <= 'f',
{
    if d < 10 {
        (48u8 + d) as char
    } else {
        (87u8 + d) as char
    }
}

/// A short, human-friendly hex prefix (12 bytes / 24 hex chars) of a digest.
fn short_hex_of(bytes: &[u8]) -> (s: String)
    requires
        bytes@.len() >= 12,
    ensures
        s@ == short_hex(bytes@),
        s@.len() == 24,
        is_lower_hex(s@),
{
    let mut s = String::new();
    for i in 0..12
        invariant
            bytes@.len() >= 12,
            s@ == hex(bytes@.take(i as int)),
            s@.len() == 2 * i,
            is_lower_hex(s@),
    {
        let b = bytes[i];
        assert(bytes@.take(i + 1).drop_last() == bytes@.take(i as int));
        push_char(&mut s, hex_digit(b / 16));
        push_char(&mut s, hex_digit(b % 16));
    }
    s
}

fn push_le_bytes(buf: &mut Vec<u8>, n: usize)
    ensures
        final(buf)@ == old(buf)@ + le_bytes(n as nat, usize_bytes()),
{
    let ghost start = buf@;
    let width: u32 = usize::BITS / 8;
    let mut cur: usize = n;
    let mut k: u32 = 0;
    while k < width
        invariant
            width == usize_bytes(),
            k <= width,
            start + le_bytes(n as nat, usize_bytes()) == buf@ + le_bytes(cur as nat, (width - k) as nat),
        decreases width - k,
    {
        let ghost rest = (width - k - 1) as nat;
        assert(le_bytes(cur as nat, (width - k) as nat) == seq![(cur % 256) as u8] + le_bytes(
            (cur / 256) as nat,
            rest,
        ));
        buf.push((cur % 256) as u8);
        cur = cur / 256;
        k = k + 1;
        assert(buf@ + le_bytes(cur as nat, rest) =~= (buf@.drop_last() + seq![buf@.last()])
            + le_bytes(cur as nat, rest));
    }
    assert(le_bytes(cur as nat, 0) == Seq::<u8>::empty());
    assert(buf@ + Seq::<u8>::empty() =~= buf@);
}

impl Block {
    /// Feeds the block's semantic content into the hash input.
    fn hash_into(&self, buf: &mut Vec<u8>)
        ensures
            final(buf)@ == old(buf)@ + block_hash_input(self@),
    {
        let ghost start = buf@;
        match self {
            Block::Text { text } => {
                push_bytes(buf, "text\0".as_bytes());
                push_bytes(buf, text.as_str().as_bytes());
            },
            Block::Thinking { len } => {
                push_bytes(buf, "thinking\0".as_bytes());
                push_le_bytes(buf, *len);
            },
            Block::ToolUse { name, input, .. } => {
                push_bytes(buf, "tool_use\0".as_bytes());
                push_bytes(buf, name.as_str().as_bytes());
                push_bytes(buf, "\0".as_bytes());
                push_bytes(buf, input.as_str().as_bytes());
            },
            Block::ToolResult { output, is_error, .. } => {
                push_bytes(buf, "tool_result\0".as_bytes());
                if *is_error {
                    buf.push(1u8);
                } else {
                    buf.push(0u8);
                }
                push_bytes(buf, output.as_str().as_bytes());
            },
        }
        assert(buf@ =~= start + block_hash_input(self@));
    }
}

impl Step {
    /// Compute the content hash of a step from its role and blocks.
    pub fn compute_hash(role: &Role, blocks: &[Block]) -> (h: String)
        ensures
            h@ == step_hash(*role, blocks_view(blocks@)),
            h@.len() == 24,
            is_lower_hex(h@),
    {
        let mut buf: Vec<u8> = Vec::new();
        match role {
            Role::User => push_bytes(&mut buf, "user\n".as_bytes()),
            Role::Assistant => push_bytes(&mut buf, "assistant\n".as_bytes()),
            Role::System => push_bytes(&mut buf, "system\n".as_bytes()),
        }
        let n = blocks.len();
        for i in 0..n
            invariant
                n == blocks@.len(),
                buf@ == encode_utf8(role_tag(*role)) + blocks_hash_input(blocks_view(blocks@.take(i as int))),
        {
            assert(blocks_view(blocks@.take(i + 1)).drop_last() =~= blocks_view(blocks@.take(i as int)));
            blocks[i].hash_into(&mut buf);
            buf.push(0x1eu8);
        }
        assert(blocks@.take(n as int) == blocks@);
        assert(blocks_view(blocks@.take(n as int)) == blocks_view(blocks@));
        let digest = sha256_digest(buf.as_slice());
        short_hex_of(digest.as_slice())
    }
}

// ---------------------------------------------------------------------------
// Step queries
// ---------------------------------------------------------------------------

/// The names of the tool calls among the blocks, in order.
pub open spec fn tool_names_of(bs: Seq<Block>) -> Seq<Seq<char>>
    decreases bs.len(),
{
    if bs.len() == 0 {
        seq![]
    } else {
        let rest = tool_names_of(bs.drop_last());
        match bs.last() {
            Block::ToolUse { name, .. } => rest.push(name@),
            _ => rest,
        }
    }
}

/// The texts of the text blocks, in order.
pub open spec fn texts_of(bs: Seq<Block>) -> Seq<Seq<char>>
    decreases bs.len(),
{
    if bs.len() == 0 {
        seq![]
    } else {
        let rest = texts_of(bs.drop_last());
        match bs.last() {
            Block::Text { text } => rest.push(text@),
            _ => rest,
        }
    }
}

/// True if the block is a tool result that errored.
pub open spec fn is_error_result(b: Block) -> bool {
    b matches Block::ToolResult { is_error, .. } && is_error
}

/// True if the stored hash of the step matches its content.
pub open spec fn step_consistent(s: Step) -> bool {
    s.hash@ == step_hash(s.role, blocks_view(s.blocks@))
}

/// Builds a block equal to the given one.
pub(crate) fn copy_block(b: &Block) -> (c: Block)
    ensures
        c == *b,
{
    match b {
        Block::Text { text } => Block::Text { text: text.clone() },
        Block::Thinking { len } => Block::Thinking { len: *len },
        Block::ToolUse { id, name, input } => Block::ToolUse {
            id: id.clone(),
            name: name.clone(),
            input: input.clone(),
        },
        Block::ToolResult { tool_use_id, output, is_error } => Block::ToolResult {
            tool_use_id: tool_use_id.clone(),
            output: output.clone(),
            is_error: *is_error,
        },
    }
}

pub(crate) fn copy_opt_string(s: &Option<String>) -> (c: Option<String>)
    ensures
        c == *s,
{
    match s {
        Some(x) => Some(x.clone()),
        None => None,
    }
}

pub(crate) fn copy_blocks(bs: &Vec<Block>) -> (c: Vec<Block>)
    ensures
        c@ == bs@,
{
    let mut c: Vec<Block> = Vec::new();
    for i in 0..bs.len()
        invariant
            c@ == bs@.take(i as int),
    {
        c.push(copy_block(&bs[i]));
        assert(bs@.take(i + 1) == bs@.take(i as int).push(bs@[i as int]));
    }
    assert(bs@.take(bs@.len() as int) == bs@);
    c
}

/// Two steps with the same fields, their blocks compared as sequences.
pub open spec fn same_step(a: Step, b: Step) -> bool {
    &&& a.seq == b.seq
    &&& a.uuid == b.uuid
    &&& a.parent == b.parent
    &&& a.role == b.role
    &&& a.ts == b.ts
    &&& a.blocks@ == b.blocks@
    &&& a.hash == b.hash
}

/// Builds a step equal to the given one.
pub(crate) fn copy_step(s: &Step) -> (c: Step)
    ensures
        same_step(c, *s),
{
    Step {
        seq: s.seq,
        uuid: s.uuid.clone(),
        parent: copy_opt_string(&s.parent),
        role: s.role,
        ts: copy_opt_string(&s.ts),
        blocks: copy_blocks(&s.blocks),
        hash: s.hash.clone(),
    }
}

/// Builds run metadata equal to the given one.
pub(crate) fn copy_meta(m: &RunMeta) -> (c: RunMeta)
    ensures
        c == *m,
{
    RunMeta {
        session_id: copy_opt_string(&m.session_id),
        cwd: copy_opt_string(&m.cwd),
        git_branch: copy_opt_string(&m.git_branch),
        claude_version: copy_opt_string(&m.claude_version),
        source: copy_opt_string(&m.source),
    }
}

impl Step {
    /// The names of the tools the step called, in order.
    pub fn tool_names(&self) -> (names: Vec<&str>)
        ensures
            names@.map_values(|n: &str| n@) == tool_names_of(self.blocks@),
    {
        let mut names: Vec<&str> = Vec::new();
        for i in 0..self.blocks.len()
            invariant
                names@.map_values(|n: &str| n@) == tool_names_of(self.blocks@.take(i as int)),
        {
            assert(self.blocks@.take(i + 1).drop_last() == self.blocks@.take(i as int));
            match &self.blocks[i] {
                Block::ToolUse { name, .. } => {
                    let ghost before = names@;
                    names.push(name.as_str());
                    assert(names@.map_values(|n: &str| n@) =~= before.map_values(|n: &str| n@).push(
                        name@,
                    ));
                },
                _ => {},
            }
        }
        assert(self.blocks@.take(self.blocks@.len() as int) == self.blocks@);
        names
    }

    /// True if any block of the step is an errored tool result.
    pub fn has_error_result(&self) -> (b: bool)
        ensures
            b == exists|i: int| 0 <= i < self.blocks@.len() && is_error_result(#[trigger] self.blocks@[i]),
    {
        for i in 0..self.blocks.len()
            invariant
                forall|j: int| 0 <= j < i ==> !is_error_result(#[trigger] self.blocks@[j]),
        {
            match &self.blocks[i] {
                Block::ToolResult { is_error, .. } => {
                    if *is_error {
                        return true;
                    }
                },
                _ => {},
            }
        }
        false
    }

    /// The concatenated visible text of the step, one text block per line.
    pub fn text(&self) -> (t: String)
        ensures
            t@ == crate::strings::join(texts_of(self.blocks@), seq!['\n']),
    {
        let mut t = String::new();
        let mut first = true;
        for i in 0..self.blocks.len()
            invariant
                t@ == crate::strings::join(texts_of(self.blocks@.take(i as int)), seq!['\n']),
                first <==> texts_of(self.blocks@.take(i as int)).len() == 0,
        {
            assert(self.blocks@.take(i + 1).drop_last() == self.blocks@.take(i as int));
            match &self.blocks[i] {
                Block::Text { text } => {
                    proof {
                        crate::strings::lemma_join_push(texts_of(self.blocks@.take(i as int)), seq!['\n'], text@);
                    }
                    if !first {
                        push_char(&mut t, '\n');
                    }
                    push_str(&mut t, text.as_str());
                    first = false;
                },
                _ => {},
            }
        }
        assert(self.blocks@.take(self.blocks@.len() as int) == self.blocks@);
        t
    }
}

// ---------------------------------------------------------------------------
// Run queries
// ---------------------------------------------------------------------------

/// The bytes hashed for the run digest: every step hash followed by a newline.
pub open spec fn digest_input(steps: Seq<Step>) -> Seq<u8>
    decreases steps.len(),
{
    if steps.len() == 0 {
        seq![]
    } else {
        digest_input(steps.drop_last()) + encode_utf8(steps.last().hash@) + seq![0x0au8]
    }
}

/// The run digest of these steps.
pub open spec fn run_digest(steps: Seq<Step>) -> Seq<char> {
    short_hex(sha256(digest_input(steps)))
}

/// The index of the first step whose stored hash does not match its content.
pub open spec fn first_inconsistent(steps: Seq<Step>) -> Option<int>
    decreases steps.len(),
{
    if steps.len() == 0 {
        None
    } else {
        match first_inconsistent(steps.drop_last()) {
            Some(i) => Some(i),
            None => if step_consistent(steps.last()) {
                None
            } else {
                Some(steps.len() - 1)
            },
        }
    }
}

/// The number of assistant steps.
pub open spec fn assistant_count(steps: Seq<Step>) -> nat
    decreases steps.len(),
{
    if steps.len() == 0 {
        0
    } else {
        assistant_count(steps.drop_last()) + if steps.last().role == Role::Assistant {
            1nat
        } else {
            0nat
        }
    }
}

/// The number of tool calls over all steps.
pub open spec fn tool_call_count(steps: Seq<Step>) -> nat
    decreases steps.len(),
{
    if steps.len() == 0 {
        0
    } else {
        tool_call_count(steps.drop_last()) + tool_names_of(steps.last().blocks@).len()
    }
}

impl Run {
    pub fn new(meta: RunMeta, steps: Vec<Step>) -> (r: Self)
        ensures
            r.format == FORMAT_VERSION,
            r.meta == meta,
            r.steps == steps,
    {
        Run { format: FORMAT_VERSION, meta, steps }
    }

    /// The run-level digest: a hash over every step hash in order.
    pub fn digest(&self) -> (d: String)
        ensures
            d@ == run_digest(self.steps@),
            d@.len() == 24,
            is_lower_hex(d@),
    {
        let mut buf: Vec<u8> = Vec::new();
        for i in 0..self.steps.len()
            invariant
                buf@ == digest_input(self.steps@.take(i as int)),
        {
            assert(self.steps@.take(i + 1).drop_last() == self.steps@.take(i as int));
            push_bytes(&mut buf, self.steps[i].hash.as_str().as_bytes());
            buf.push(0x0au8);
        }
        assert(self.steps@.take(self.steps@.len() as int) == self.steps@);
        let digest = sha256_digest(buf.as_slice());
        short_hex_of(digest.as_slice())
    }

    /// Recompute every step hash and confirm it matches the stored hash.
    /// Returns the seq of the first tampered/corrupt step, if any.
    pub fn verify_integrity(&self) -> (r: Result<(), usize>)
        ensures
            r is Ok <==> first_inconsistent(self.steps@) is None,
            r is Ok <==> forall|i: int| 0 <= i < self.steps@.len() ==> step_consistent(#[trigger] self.steps@[i]),
            r matches Err(seq) ==> exists|k: int| first_inconsistent(self.steps@) == Some(k) && seq == self.steps@[k].seq,
    {
        proof {
            lemma_first_inconsistent(self.steps@);
        }
        for i in 0..self.steps.len()
            invariant
                first_inconsistent(self.steps@.take(i as int)) is None,
        {
            assert(self.steps@.take(i + 1).drop_last() == self.steps@.take(i as int));
            let s = &self.steps[i];
            let h = Step::compute_hash(&s.role, s.blocks.as_slice());
            if h != s.hash {
                proof {
                    lemma_first_inconsistent_prefix(self.steps@, i as int + 1);
                }
                return Err(s.seq);
            }
        }
        assert(self.steps@.take(self.steps@.len() as int) == self.steps@);
        Ok(())
    }

    /// The number of assistant steps.
    pub fn assistant_steps(&self) -> (n: usize)
        ensures
            n == assistant_count(self.steps@),
    {
        let mut n: usize = 0;
        for i in 0..self.steps.len()
            invariant
                n == assistant_count(self.steps@.take(i as int)),
                n <= i,
        {
            assert(self.steps@.take(i + 1).drop_last() == self.steps@.take(i as int));
            if self.steps[i].role == Role::Assistant {
                n = n + 1;
            }
        }
        assert(self.steps@.take(self.steps@.len() as int) == self.steps@);
        n
    }

    /// The number of tool calls over all steps.
    pub fn tool_calls(&self) -> (n: usize)
        requires
            tool_call_count(self.steps@) <= usize::MAX,
        ensures
            n == tool_call_count(self.steps@),
    {
        let mut n: usize = 0;
        for i in 0..self.steps.len()
            invariant
                n == tool_call_count(self.steps@.take(i as int)),
                tool_call_count(self.steps@) <= usize::MAX,
        {
            assert(self.steps@.take(i + 1).drop_last() == self.steps@.take(i as int));
            proof {
                lemma_tool_call_count_prefix(self.steps@, i as int + 1);
            }
            let names = self.steps[i].tool_names();
            assert(names@.len() == names@.map_values(|x: &str| x@).len());
            n = n + names.len();
        }
        assert(self.steps@.take(self.steps@.len() as int) == self.steps@);
        n
    }
}

/// A block with its volatile tool-use and tool-result ids blanked.
pub open spec fn without_ids(b: BlockV) -> BlockV {
    match b {
        BlockV::ToolUse { name, input, .. } => BlockV::ToolUse { id: seq![], name, input },
        BlockV::ToolResult { output, is_error, .. } => BlockV::ToolResult {
            tool_use_id: seq![],
            output,
            is_error,
        },
        _ => b,
    }
}

/// The step hash ignores tool-use and tool-result ids: two block lists that
/// differ only in those ids hash the same, so two runs that did the same
/// work match.
pub proof fn hash_ignores_tool_ids(role: Role, a: Seq<BlockV>, b: Seq<BlockV>)
    requires
        a.len() == b.len(),
        forall|i: int| 0 <= i < a.len() ==> without_ids(#[trigger] a[i]) == without_ids(b[i]),
    ensures
        step_hash(role, a) == step_hash(role, b),
    decreases a.len(),
{
    if a.len() > 0 {
        hash_ignores_tool_ids(role, a.drop_last(), b.drop_last());
        assert(without_ids(a.last()) == without_ids(b.last()));
        assert(block_hash_input(a.last()) == block_hash_input(b.last()));
        assert(blocks_hash_input(a.drop_last()) == blocks_hash_input(b.drop_last())) by {
            lemma_blocks_input_ids(a.drop_last(), b.drop_last());
        }
    }
}

proof fn lemma_blocks_input_ids(a: Seq<BlockV>, b: Seq<BlockV>)
    requires
        a.len() == b.len(),
        forall|i: int| 0 <= i < a.len() ==> without_ids(#[trigger] a[i]) == without_ids(b[i]),
    ensures
        blocks_hash_input(a) == blocks_hash_input(b),
    decreases a.len(),
{
    if a.len() > 0 {
        lemma_blocks_input_ids(a.drop_last(), b.drop_last());
        assert(without_ids(a.last()) == without_ids(b.last()));
    }
}

/// The run digest depends on the step hashes alone: runs whose steps carry
/// the same hashes in the same order have the same digest.
pub proof fn digest_depends_only_on_step_hashes(a: Seq<Step>, b: Seq<Step>)
    requires
        a.len() == b.len(),
        forall|i: int| 0 <= i < a.len() ==> (#[trigger] a[i]).hash@ == b[i].hash@,
    ensures
        run_digest(a) == run_digest(b),
{
    lemma_digest_input_hashes(a, b);
}

proof fn lemma_digest_input_hashes(a: Seq<Step>, b: Seq<Step>)
    requires
        a.len() == b.len(),
        forall|i: int| 0 <= i < a.len() ==> (#[trigger] a[i]).hash@ == b[i].hash@,
    ensures
        digest_input(a) == digest_input(b),
    decreases a.len(),
{
    if a.len() > 0 {
        lemma_digest_input_hashes(a.drop_last(), b.drop_last());
        assert(a.last().hash@ == b.last().hash@);
    }
}

/// The text behind the digest input: every step hash followed by a newline.
pub open spec fn hash_text(steps: Seq<Step>) -> Seq<char>
    decreases steps.len(),
{
    if steps.len() == 0 {
        seq![]
    } else {
        hash_text(steps.drop_last()) + steps.last().hash@ + seq!['\n']
    }
}

/// The step hashes, in order.
pub open spec fn step_hashes(steps: Seq<Step>) -> Seq<Seq<char>> {
    steps.map_values(|s: Step| s.hash@)
}

/// The bytes the run digest hashes tell the step hashes apart: when no step
/// hash holds a newline, two runs give the same digest input only if they
/// have the same number of steps and the same step hashes in order. So the
/// digest covers every step, and a run changed at any step hashes a
/// different input.
pub proof fn digest_input_determines_step_hashes(a: Seq<Step>, b: Seq<Step>)
    requires
        forall|i: int| 0 <= i < a.len() ==> !(#[trigger] a[i]).hash@.contains('\n'),
        forall|i: int| 0 <= i < b.len() ==> !(#[trigger] b[i]).hash@.contains('\n'),
        digest_input(a) == digest_input(b),
    ensures
        a.len() == b.len(),
        forall|i: int| 0 <= i < a.len() ==> (#[trigger] a[i]).hash@ == b[i].hash@,
{
    lemma_digest_input_text(a);
    lemma_digest_input_text(b);
    vstd::utf8::encode_utf8_decode_utf8(hash_text(a));
    vstd::utf8::encode_utf8_decode_utf8(hash_text(b));
    assert(hash_text(a) == hash_text(b));
    lemma_hash_text_lines(a);
    lemma_hash_text_lines(b);
    let ha = step_hashes(a);
    let hb = step_hashes(b);
    assert(ha.push(seq![]) == hb.push(seq![]));
    assert(ha.len() == hb.len());
    assert forall|i: int| 0 <= i < a.len() implies (#[trigger] a[i]).hash@ == b[i].hash@ by {
        assert(ha.push(seq![])[i] == hb.push(seq![])[i]);
    }
}

proof fn lemma_encode_concat(x: Seq<char>, y: Seq<char>)
    ensures
        encode_utf8(x + y) == encode_utf8(x) + encode_utf8(y),
    decreases x.len(),
{
    if x.len() == 0 {
        assert(x + y =~= y);
    } else {
        lemma_encode_concat(x.drop_first(), y);
        assert((x + y).drop_first() =~= x.drop_first() + y);
        assert((x + y)[0] == x[0]);
    }
}

proof fn lemma_encode_newline()
    ensures
        encode_utf8(seq!['\n']) == seq![0x0au8],
{
    let nl = seq!['\n'];
    assert(nl[0] as u32 == 10u32);
    assert((10u32 & 0x7Fu32) as u8 == 10u8) by (bit_vector);
    assert(nl.drop_first() =~= Seq::<char>::empty());
    assert(encode_utf8(nl.drop_first()) == Seq::<u8>::empty());
    assert(vstd::utf8::has_width_1_encoding(10u32));
    assert(vstd::utf8::leading_byte_width_1(10u32) == 10u8);
    assert(vstd::utf8::encode_scalar(10u32) == seq![10u8]);
    assert(encode_utf8(nl) == vstd::utf8::encode_scalar(nl[0] as u32) + encode_utf8(nl.drop_first()));
    assert(encode_utf8(nl) =~= seq![0x0au8]);
}

proof fn lemma_digest_input_text(steps: Seq<Step>)
    ensures
        digest_input(steps) == encode_utf8(hash_text(steps)),
    decreases steps.len(),
{
    if steps.len() > 0 {
        let t = hash_text(steps.drop_last());
        let h = steps.last().hash@;
        lemma_digest_input_text(steps.drop_last());
        lemma_encode_concat(t + h, seq!['\n']);
        lemma_encode_concat(t, h);
        lemma_encode_newline();
    }
}

/// Appending text without a newline extends the last line.
proof fn lemma_split_append_line(x: Seq<char>, y: Seq<char>)
    requires
        forall|i: int| 0 <= i < y.len() ==> y[i] != '\n',
    ensures
        crate::transcript::split_lines(x + y) == crate::transcript::split_lines(x).update(
            crate::transcript::split_lines(x).len() - 1,
            crate::transcript::split_lines(x).last() + y,
        ),
    decreases y.len(),
{
    crate::transcript::lemma_split_lines_len(x);
    let sx = crate::transcript::split_lines(x);
    if y.len() == 0 {
        assert(x + y =~= x);
        assert(sx.last() + y =~= sx.last());
        assert(sx.update(sx.len() - 1, sx.last()) =~= sx);
    } else {
        let y1 = y.drop_last();
        lemma_split_append_line(x, y1);
        assert((x + y).drop_last() =~= x + y1);
        assert((x + y).last() == y.last());
        let p = crate::transcript::split_lines(x + y1);
        assert(p.last() == sx.last() + y1);
        assert(p.last().push(y.last()) =~= sx.last() + y);
        assert(p.update(p.len() - 1, p.last().push(y.last())) =~= sx.update(sx.len() - 1, sx.last() + y));
    }
}

/// The lines of the hash text are the step hashes, then an empty line.
proof fn lemma_hash_text_lines(steps: Seq<Step>)
    requires
        forall|i: int| 0 <= i < steps.len() ==> !(#[trigger] steps[i]).hash@.contains('\n'),
    ensures
        crate::transcript::split_lines(hash_text(steps)) == step_hashes(steps).push(seq![]),
    decreases steps.len(),
{
    if steps.len() == 0 {
        assert(crate::transcript::split_lines(seq![]) == seq![Seq::<char>::empty()]);
        assert(step_hashes(steps).push(seq![]) =~= seq![Seq::<char>::empty()]);
    } else {
        let d = steps.drop_last();
        assert forall|i: int| 0 <= i < d.len() implies !(#[trigger] d[i]).hash@.contains('\n') by {
            assert(d[i] == steps[i]);
        }
        lemma_hash_text_lines(d);
        let t = hash_text(d);
        let h = steps.last().hash@;
        assert(!steps[steps.len() - 1].hash@.contains('\n'));
        assert forall|i: int| 0 <= i < h.len() implies h[i] != '\n' by {
            if h[i] == '\n' {
                assert(h.contains('\n'));
            }
        }
        lemma_split_append_line(t, h);
        let th = t + h;
        assert(hash_text(steps) =~= th.push('\n'));
        assert(th.push('\n').drop_last() =~= th);
        let sh = step_hashes(d).push(seq![]);
        assert(sh.update(sh.len() - 1, sh.last() + h) =~= step_hashes(d).push(h));
        assert(step_hashes(steps) =~= step_hashes(d).push(h));
    }
}

proof fn lemma_tool_call_count_prefix(steps: Seq<Step>, k: int)
    requires
        0 <= k <= steps.len(),
    ensures
        tool_call_count(steps.take(k)) <= tool_call_count(steps),
    decreases steps.len() - k,
{
    if k < steps.len() {
        lemma_tool_call_count_prefix(steps, k + 1);
        assert(steps.take(k + 1).drop_last() == steps.take(k));
    } else {
        assert(steps.take(k) == steps);
    }
}

/// `first_inconsistent` names the least index of an inconsistent step.
proof fn lemma_first_inconsistent(steps: Seq<Step>)
    ensures
        first_inconsistent(steps) is None <==> forall|i: int| 0 <= i < steps.len() ==> step_consistent(#[trigger] steps[i]),
        first_inconsistent(steps) matches Some(k) ==> 0 <= k < steps.len() && !step_consistent(steps[k])
            && forall|i: int| 0 <= i < k ==> step_consistent(#[trigger] steps[i]),
    decreases steps.len(),
{
    if steps.len() > 0 {
        lemma_first_inconsistent(steps.drop_last());
        assert forall|i: int| 0 <= i < steps.len() - 1 implies #[trigger] steps[i] == steps.drop_last()[i] by {}
    }
}

/// Extending a prefix without inconsistency by an inconsistent step gives its index.
proof fn lemma_first_inconsistent_prefix(steps: Seq<Step>, k: int)
    requires
        0 < k <= steps.len(),
        first_inconsistent(steps.take(k - 1)) is None,
        !step_consistent(steps[k - 1]),
    ensures
        first_inconsistent(steps) == Some(k - 1),
    decreases steps.len() - k,
{
    assert(steps.take(k).drop_last() == steps.take(k - 1));
    if k < steps.len() {
        assert(steps.take(k + 1).drop_last() == steps.take(k));
        lemma_first_inconsistent_prefix_extend(steps, k + 1, k - 1);
    } else {
        assert(steps.take(k) == steps);
    }
}

proof fn lemma_first_inconsistent_prefix_extend(steps: Seq<Step>, k: int, j: int)
    requires
        0 < k <= steps.len(),
        first_inconsistent(steps.take(k - 1)) == Some(j),
    ensures
        first_inconsistent(steps) == Some(j),
    decreases steps.len() - k,
{
    assert(steps.take(k).drop_last() == steps.take(k - 1));
    if k < steps.len() {
        lemma_first_inconsistent_prefix_extend(steps, k + 1, j);
    } else {
        assert(steps.take(k) == steps);
    }
}

} // verus!
