//! A JSON value as the transcript logic reads it, and its canonical form.
//!
//! Transcript lines are parsed by serde_json and converted into [`Json`]
//! values. Numbers keep the text serde_json renders for them, so the
//! canonical form reproduces them exactly.

use vstd::prelude::*;

use crate::strings::{push_char, push_str, str_eq, str_lt};

verus! {

#[derive(Debug)]
pub enum Json {
    Null,
    Bool(bool),
    /// A number, held as the text serde_json renders for it.
    Number(String),
    String(String),
    Array(Vec<Json>),
    /// The entries of an object, in the order serde_json iterates them.
    Object(Vec<(String, Json)>),
}

/// serde_json's `Value`, declared so that a parsed line can be handed to
/// the converter below. Verus sees nothing inside it.
#[verifier::external_type_specification]
#[verifier::external_body]
pub struct ExJsonValue(serde_json::Value);

/// What serde_json parses a line into, as a value of this library: `None`
/// when the line is not JSON.
pub uninterp spec fn parsed_line(line: Seq<char>) -> Option<Json>;

/// Converts a serde_json value into the library's value, variant by
/// variant; a number becomes the text serde_json writes for it, and object
/// entries keep the order serde_json iterates them in.
#[verifier::external_body]
fn json_of_value(v: serde_json::Value) -> (j: Json) {
    match v {
        serde_json::Value::Null => Json::Null,
        serde_json::Value::Bool(b) => Json::Bool(b),
        serde_json::Value::Number(n) => Json::Number(n.to_string()),
        serde_json::Value::String(s) => Json::String(s),
        serde_json::Value::Array(items) => Json::Array(items.into_iter().map(json_of_value).collect()),
        serde_json::Value::Object(map) => Json::Object(map.into_iter().map(|(k, x)| (k, json_of_value(x))).collect()),
    }
}

/// Calls `serde_json::from_str` on one line and converts the value it
/// parses. The contract claims only that the result is a function of the
/// line's characters (the name `parsed_line`); what serde_json accepts and
/// what it builds are left to its source.
#[verifier::external_body]
pub fn parse_json_line(line: &str) -> (r: Option<Json>)
    ensures
        r == parsed_line(line@),
{
    serde_json::from_str::<serde_json::Value>(line).ok().map(json_of_value)
}

/// The index of the first entry with this key, or -1.
pub open spec fn entry_index(entries: Seq<(String, Json)>, key: Seq<char>) -> int
    decreases entries.len(),
{
    if entries.len() == 0 {
        -1
    } else {
        let i = entry_index(entries.drop_last(), key);
        if i >= 0 {
            i
        } else if entries.last().0@ == key {
            entries.len() - 1
        } else {
            -1
        }
    }
}

/// The value under `key` of an object; `None` for a missing key or a non-object.
pub open spec fn json_get(v: Json, key: Seq<char>) -> Option<Json> {
    match v {
        Json::Object(entries) => {
            let i = entry_index(entries@, key);
            if i >= 0 {
                Some(entries@[i].1)
            } else {
                None
            }
        },
        _ => None,
    }
}

/// The string held by a value, if it is a string.
pub open spec fn as_str(v: Option<Json>) -> Option<Seq<char>> {
    match v {
        Some(Json::String(s)) => Some(s@),
        _ => None,
    }
}

/// The boolean held by a value, if it is a boolean.
pub open spec fn as_bool(v: Option<Json>) -> Option<bool> {
    match v {
        Some(Json::Bool(b)) => Some(b),
        _ => None,
    }
}

/// The string field `key` of `v`.
pub open spec fn str_field(v: Json, key: Seq<char>) -> Option<Seq<char>> {
    as_str(json_get(v, key))
}

proof fn lemma_entry_index(entries: Seq<(String, Json)>, key: Seq<char>)
    ensures
        -1 <= entry_index(entries, key) < entries.len(),
        entry_index(entries, key) >= 0 ==> entries[entry_index(entries, key)].0@ == key,
        entry_index(entries, key) >= 0 ==> forall|j: int|
            0 <= j < entry_index(entries, key) ==> #[trigger] entries[j].0@ != key,
        entry_index(entries, key) < 0 ==> forall|j: int| 0 <= j < entries.len() ==> #[trigger] entries[j].0@ != key,
    decreases entries.len(),
{
    if entries.len() > 0 {
        lemma_entry_index(entries.drop_last(), key);
        assert forall|j: int| 0 <= j < entries.len() - 1 implies #[trigger] entries[j] == entries.drop_last()[j] by {}
    }
}

/// The position of the first entry with this key.
fn find_entry(entries: &Vec<(String, Json)>, key: &str) -> (r: Option<usize>)
    ensures
        match r {
            Some(i) => i == entry_index(entries@, key@) && i < entries@.len(),
            None => entry_index(entries@, key@) == -1,
        },
{
    proof {
        lemma_entry_index(entries@, key@);
    }
    for i in 0..entries.len()
        invariant
            -1 <= entry_index(entries@, key@) < entries@.len(),
            entry_index(entries@, key@) >= 0 ==> entries@[entry_index(entries@, key@)].0@ == key@,
            entry_index(entries@, key@) >= 0 ==> forall|j: int|
                0 <= j < entry_index(entries@, key@) ==> #[trigger] entries@[j].0@ != key@,
            entry_index(entries@, key@) < 0 ==> forall|j: int| 0 <= j < entries@.len() ==> #[trigger] entries@[j].0@ != key@,
            forall|j: int| 0 <= j < i ==> #[trigger] entries@[j].0@ != key@,
    {
        if str_eq(entries[i].0.as_str(), key) {
            return Some(i);
        }
    }
    None
}

/// The value under `key` of an object.
pub fn get<'a>(v: &'a Json, key: &str) -> (r: Option<&'a Json>)
    ensures
        match r {
            Some(x) => json_get(*v, key@) == Some(*x),
            None => json_get(*v, key@) is None,
        },
{
    match v {
        Json::Object(entries) => match find_entry(entries, key) {
            Some(i) => Some(&entries[i].1),
            None => None,
        },
        _ => None,
    }
}

/// The string under `key` of an object.
pub fn get_str<'a>(v: &'a Json, key: &str) -> (r: Option<&'a str>)
    ensures
        match r {
            Some(s) => str_field(*v, key@) == Some(s@),
            None => str_field(*v, key@) is None,
        },
{
    match get(v, key) {
        Some(Json::String(s)) => Some(s.as_str()),
        _ => None,
    }
}

/// The boolean under `key` of an object.
pub fn get_bool(v: &Json, key: &str) -> (r: Option<bool>)
    ensures
        r == as_bool(json_get(*v, key@)),
{
    match get(v, key) {
        Some(Json::Bool(b)) => Some(*b),
        _ => None,
    }
}

// ---------------------------------------------------------------------------
// Canonical form
// ---------------------------------------------------------------------------

/// How serde_json writes one character inside a string literal: quote,
/// backslash and the control characters below U+0020 are escaped (the five
/// with a short form by it, the others as `\u00` and two lower-case hex
/// digits); every other character stands for itself.
pub open spec fn json_escape(c: char) -> Seq<char> {
    if c == '"' {
        seq!['\\', '"']
    } else if c == '\\' {
        seq!['\\', '\\']
    } else if c == '\x08' {
        seq!['\\', 'b']
    } else if c == '\t' {
        seq!['\\', 't']
    } else if c == '\n' {
        seq!['\\', 'n']
    } else if c == '\x0c' {
        seq!['\\', 'f']
    } else if c == '\r' {
        seq!['\\', 'r']
    } else if (c as nat) < 0x20 {
        seq![
            '\\',
            'u',
            '0',
            '0',
            crate::model::hex_char((c as nat) / 16),
            crate::model::hex_char((c as nat) % 16),
        ]
    } else {
        seq![c]
    }
}

/// The characters of a string, each as serde_json escapes it.
pub open spec fn json_escaped(s: Seq<char>) -> Seq<char>
    decreases s.len(),
{
    if s.len() == 0 {
        seq![]
    } else {
        json_escaped(s.drop_last()) + json_escape(s.last())
    }
}

/// The JSON string literal serde_json writes for a string.
pub open spec fn json_quoted(s: Seq<char>) -> Seq<char> {
    seq!['"'] + json_escaped(s) + seq!['"']
}

/// Calls `serde_json::to_string` on a string slice. The contract claims the
/// result is the string literal serde_json's serializer writes: a quote, each
/// character escaped as its escape table says, a quote. Serializing a `str`
/// into a `Vec` cannot fail; the error arm is never taken.
#[verifier::external_body]
fn json_quote(s: &str) -> (q: String)
    ensures
        q@ == json_quoted(s@),
{
    serde_json::to_string(s).unwrap_or_default()
}

/// The keys of the entries, as UTF-8 bytes order them.
pub open spec fn key_bytes(k: Seq<char>) -> Seq<u8> {
    vstd::utf8::encode_utf8(k)
}

/// The index of the first least key among the first `n` keys.
pub open spec fn min_key_index(keys: Seq<Seq<char>>, n: nat) -> int
    decreases n,
{
    if n <= 1 {
        0
    } else {
        let m = min_key_index(keys, (n - 1) as nat);
        if crate::strings::bytes_lt(key_bytes(keys[n - 1]), key_bytes(keys[m])) {
            n - 1
        } else {
            m
        }
    }
}

/// The keys in ascending byte order (selection of the first least key).
pub open spec fn sort_keys(keys: Seq<Seq<char>>) -> Seq<Seq<char>>
    decreases keys.len(),
{
    if keys.len() == 0 {
        seq![]
    } else {
        let m = min_key_index(keys, keys.len());
        if 0 <= m < keys.len() {
            seq![keys[m]] + sort_keys(keys.remove(m))
        } else {
            seq![]
        }
    }
}

/// The keys of an object's entries, in entry order.
pub open spec fn entry_keys(entries: Seq<(String, Json)>) -> Seq<Seq<char>> {
    entries.map_values(|e: (String, Json)| e.0@)
}

/// The canonical JSON text of a value: object keys sorted, no whitespace,
/// scalars as serde_json writes them.
pub open spec fn canonical(v: Json) -> Seq<char>
    decreases v, 0nat,
{
    match v {
        Json::Null => "null"@,
        Json::Bool(b) => if b {
            "true"@
        } else {
            "false"@
        },
        Json::Number(t) => t@,
        Json::String(s) => json_quoted(s@),
        Json::Array(items) => seq!['['] + canonical_items(items@, items@.len()) + seq![']'],
        Json::Object(entries) => {
            let keys = sort_keys(entry_keys(entries@));
            seq!['{'] + canonical_entries(entries@, keys, keys.len()) + seq!['}']
        },
    }
}

/// The canonical texts of the first `n` items, comma-separated.
pub open spec fn canonical_items(items: Seq<Json>, n: nat) -> Seq<char>
    decreases items, n,
{
    if n == 0 || n > items.len() {
        seq![]
    } else if n == 1 {
        canonical(items[0])
    } else {
        canonical_items(items, (n - 1) as nat) + seq![','] + canonical(items[n - 1])
    }
}

/// `"key":value` for the first `n` of the sorted keys, comma-separated.
/// The value under a key is that of the first entry with it.
pub open spec fn canonical_entries(
    entries: Seq<(String, Json)>,
    keys: Seq<Seq<char>>,
    n: nat,
) -> Seq<char>
    decreases entries, n,
{
    if n == 0 || n > keys.len() {
        seq![]
    } else {
        let j = entry_index(entries, keys[n - 1]);
        let member = json_quoted(keys[n - 1]) + seq![':'] + if 0 <= j < entries.len() {
            canonical(entries[j].1)
        } else {
            seq![]
        };
        if n == 1 {
            member
        } else {
            canonical_entries(entries, keys, (n - 1) as nat) + seq![','] + member
        }
    }
}

// ---------------------------------------------------------------------------
// Entry order does not matter
// ---------------------------------------------------------------------------

/// No two entries share a key.
pub open spec fn distinct_keys(entries: Seq<(String, Json)>) -> bool {
    forall|i: int, j: int|
        0 <= i < entries.len() && 0 <= j < entries.len() && i != j ==> #[trigger] entries[i].0@ != #[trigger] entries[j].0@
}

/// Every entry of `a` is an entry of `b`.
pub open spec fn entries_within(a: Seq<(String, Json)>, b: Seq<(String, Json)>) -> bool {
    forall|i: int| 0 <= i < a.len() ==> exists|j: int| 0 <= j < b.len() && #[trigger] a[i] == #[trigger] b[j]
}

/// Objects holding the same entries, with distinct keys, in whatever order,
/// have the same canonical form.
pub proof fn canonical_ignores_entry_order(va: Json, vb: Json)
    requires
        va is Object,
        vb is Object,
        distinct_keys(va->Object_0@),
        distinct_keys(vb->Object_0@),
        entries_within(va->Object_0@, vb->Object_0@),
        entries_within(vb->Object_0@, va->Object_0@),
    ensures
        canonical(va) == canonical(vb),
{
    let a = va->Object_0@;
    let b = vb->Object_0@;
    let ka = entry_keys(a);
    let kb = entry_keys(b);
    assert forall|i: int, j: int| 0 <= i < ka.len() && 0 <= j < ka.len() && i != j implies #[trigger] ka[i] != #[trigger] ka[j] by {
        assert(a[i].0@ != a[j].0@);
    }
    assert forall|i: int, j: int| 0 <= i < kb.len() && 0 <= j < kb.len() && i != j implies #[trigger] kb[i] != #[trigger] kb[j] by {
        assert(b[i].0@ != b[j].0@);
    }
    assert forall|i: int| 0 <= i < ka.len() implies kb.contains(#[trigger] ka[i]) by {
        let j = choose|j: int| 0 <= j < b.len() && a[i] == b[j];
        assert(kb[j] == ka[i]);
    }
    assert forall|i: int| 0 <= i < kb.len() implies ka.contains(#[trigger] kb[i]) by {
        let j = choose|j: int| 0 <= j < a.len() && b[i] == a[j];
        assert(ka[j] == kb[i]);
    }
    lemma_sort_keys_same_set(ka, kb);
    let keys = sort_keys(ka);
    assert forall|k: Seq<char>| #[trigger] member_text(a, k) == member_text(b, k) by {
        lemma_member_text(a, b, k);
    }
    lemma_canonical_entries_same(a, b, keys, keys.len());
}

/// The `"key":value` text of a key in an object's entries.
pub open spec fn member_text(entries: Seq<(String, Json)>, k: Seq<char>) -> Seq<char> {
    let j = entry_index(entries, k);
    json_quoted(k) + seq![':'] + if 0 <= j < entries.len() {
        canonical(entries[j].1)
    } else {
        seq![]
    }
}

proof fn lemma_member_text(a: Seq<(String, Json)>, b: Seq<(String, Json)>, k: Seq<char>)
    requires
        distinct_keys(a),
        distinct_keys(b),
        entries_within(a, b),
        entries_within(b, a),
    ensures
        member_text(a, k) == member_text(b, k),
{
    lemma_entry_index(a, k);
    lemma_entry_index(b, k);
    let ia = entry_index(a, k);
    let ib = entry_index(b, k);
    if ia >= 0 {
        let j = choose|j: int| 0 <= j < b.len() && a[ia] == b[j];
        assert(b[j].0@ == k);
        if ib < 0 {
            assert(b[j].0@ != k);
        }
        if ib != j {
            assert(b[ib].0@ != b[j].0@);
        }
    } else if ib >= 0 {
        let j = choose|j: int| 0 <= j < a.len() && b[ib] == a[j];
        assert(a[j].0@ != k);
    }
}

proof fn lemma_canonical_entries_same(
    a: Seq<(String, Json)>,
    b: Seq<(String, Json)>,
    keys: Seq<Seq<char>>,
    n: nat,
)
    requires
        forall|k: Seq<char>| #[trigger] member_text(a, k) == member_text(b, k),
    ensures
        canonical_entries(a, keys, n) == canonical_entries(b, keys, n),
    decreases n,
{
    if n > 0 && n <= keys.len() {
        lemma_canonical_entries_same(a, b, keys, (n - 1) as nat);
        assert(member_text(a, keys[n - 1]) == member_text(b, keys[n - 1]));
    }
}

/// The canonical form tells the literals apart: two booleans have the same
/// canonical form only if they are equal, and neither has the form of
/// `null`, of a string or of a container. So tool inputs that differ in a
/// flag never canonicalize, or hash, alike.
pub proof fn canonical_tells_literals_apart(x: bool, y: bool, v: Json)
    ensures
        canonical(Json::Bool(x)) == canonical(Json::Bool(y)) <==> x == y,
        canonical(Json::Bool(x)) != canonical(Json::Null),
        (v is String || v is Array || v is Object) ==> canonical(Json::Bool(x)) != canonical(v),
{
    reveal_strlit("true");
    reveal_strlit("false");
    reveal_strlit("null");
    assert("true"@ != "false"@) by {
        assert("true"@.len() != "false"@.len());
    }
    assert("true"@ != "null"@) by {
        assert("true"@[0] != "null"@[0]);
    }
    assert("false"@ != "null"@) by {
        assert("false"@.len() != "null"@.len());
    }
    let c = canonical(Json::Bool(x));
    assert(c[0] == 't' || c[0] == 'f');
    match v {
        Json::String(s) => {
            assert(canonical(v)[0] == '"');
        },
        Json::Array(items) => {
            assert(canonical(v)[0] == '[');
        },
        Json::Object(entries) => {
            assert(canonical(v)[0] == '{');
        },
        _ => {},
    }
}

/// The canonical form tells strings apart: two strings have the same
/// canonical form only if they are equal, since serde_json's escaping loses
/// nothing.
pub proof fn canonical_tells_strings_apart(a: String, b: String)
    ensures
        canonical(Json::String(a)) == canonical(Json::String(b)) ==> a@ == b@,
{
    let x = a@;
    let y = b@;
    if json_quoted(x) == json_quoted(y) {
        let qx = json_quoted(x);
        assert(json_escaped(x) =~= qx.subrange(1, qx.len() - 1));
        assert(json_escaped(y) =~= qx.subrange(1, qx.len() - 1));
        lemma_escaped_injective(x, y);
    }
}

proof fn lemma_escaped_front(s: Seq<char>)
    requires
        s.len() > 0,
    ensures
        json_escaped(s) == json_escape(s[0]) + json_escaped(s.drop_first()),
    decreases s.len(),
{
    if s.len() == 1 {
        assert(s.drop_last() =~= Seq::<char>::empty());
        assert(s.drop_first() =~= Seq::<char>::empty());
        assert(json_escaped(s.drop_last()) == Seq::<char>::empty());
        assert(json_escaped(s.drop_first()) == Seq::<char>::empty());
        assert(s.last() == s[0]);
        assert(json_escaped(s) =~= json_escape(s[0]));
        assert(json_escape(s[0]) + json_escaped(s.drop_first()) =~= json_escape(s[0]));
    } else {
        lemma_escaped_front(s.drop_last());
        assert(s.drop_last()[0] == s[0]);
        assert(s.drop_last().drop_first() =~= s.drop_first().drop_last());
        assert(s.drop_first().last() == s.last());
    }
}

proof fn lemma_escape_nonempty(c: char)
    ensures
        json_escape(c).len() >= 1,
        json_escape(c)[0] != '\\' ==> json_escape(c) == seq![c],
{
}

proof fn lemma_hex_char_injective(a: nat, b: nat)
    requires
        a < 16,
        b < 16,
        crate::model::hex_char(a) == crate::model::hex_char(b),
    ensures
        a == b,
{
    assert(crate::model::hex_char(a) as nat == if a < 10 { 48 + a } else { 87 + a });
    assert(crate::model::hex_char(b) as nat == if b < 10 { 48 + b } else { 87 + b });
}

/// No two characters escape alike, and no escape is a proper prefix of
/// another's continuation.
proof fn lemma_escape_prefix_free(c: char, d: char, r1: Seq<char>, r2: Seq<char>)
    requires
        json_escape(c) + r1 == json_escape(d) + r2,
    ensures
        c == d,
{
    let e1 = json_escape(c);
    let e2 = json_escape(d);
    lemma_escape_nonempty(c);
    lemma_escape_nonempty(d);
    assert((e1 + r1)[0] == e1[0]);
    assert((e2 + r2)[0] == e2[0]);
    if e1[0] != '\\' || e2[0] != '\\' {
        assert(e1[0] == e2[0]);
    } else {
        assert(e1.len() >= 2 && e2.len() >= 2);
        assert((e1 + r1)[1] == e1[1]);
        assert((e2 + r2)[1] == e2[1]);
        assert(e1[1] == e2[1]);
        if e1[1] == 'u' {
            assert(e1.len() == 6 && e2.len() == 6);
            assert((e1 + r1)[4] == e1[4] && (e2 + r2)[4] == e2[4]);
            assert((e1 + r1)[5] == e1[5] && (e2 + r2)[5] == e2[5]);
            lemma_hex_char_injective((c as nat) / 16, (d as nat) / 16);
            lemma_hex_char_injective((c as nat) % 16, (d as nat) % 16);
            assert(c as nat == d as nat);
            vstd::utf8::char_u32_cast(c, c as u32);
            vstd::utf8::char_u32_cast(d, d as u32);
        }
    }
}

proof fn lemma_escaped_injective(x: Seq<char>, y: Seq<char>)
    requires
        json_escaped(x) == json_escaped(y),
    ensures
        x == y,
    decreases x.len(),
{
    if x.len() == 0 {
        if y.len() > 0 {
            lemma_escaped_front(y);
            lemma_escape_nonempty(y[0]);
        }
        assert(x =~= y);
    } else {
        lemma_escaped_front(x);
        if y.len() == 0 {
            lemma_escape_nonempty(x[0]);
            assert(false);
        }
        lemma_escaped_front(y);
        lemma_escape_prefix_free(x[0], y[0], json_escaped(x.drop_first()), json_escaped(y.drop_first()));
        let e = json_escape(x[0]);
        let w = json_escaped(x);
        assert(json_escaped(x.drop_first()) =~= w.subrange(e.len() as int, w.len() as int));
        assert(json_escaped(y.drop_first()) =~= w.subrange(e.len() as int, w.len() as int));
        lemma_escaped_injective(x.drop_first(), y.drop_first());
        assert(x =~= seq![x[0]] + x.drop_first());
        assert(y =~= seq![y[0]] + y.drop_first());
    }
}

/// Two values that differ at most in the order of object entries, at any
/// depth: objects have distinct keys, the same keys, and under each key
/// values that are again the same up to entry order.
pub open spec fn same_up_to_entry_order(a: Json, b: Json) -> bool
    decreases a, 0nat,
{
    match (a, b) {
        (Json::Null, Json::Null) => true,
        (Json::Bool(x), Json::Bool(y)) => x == y,
        (Json::Number(x), Json::Number(y)) => x@ == y@,
        (Json::String(x), Json::String(y)) => x@ == y@,
        (Json::Array(xs), Json::Array(ys)) => xs@.len() == ys@.len() && same_items(xs@, ys@, xs@.len()),
        (Json::Object(ea), Json::Object(eb)) => {
            &&& distinct_keys(ea@)
            &&& distinct_keys(eb@)
            &&& forall|j: int| 0 <= j < eb@.len() ==> entry_index(ea@, #[trigger] eb@[j].0@) >= 0
            &&& same_members(ea@, eb@, ea@.len())
        },
        _ => false,
    }
}

/// The first `n` items are pairwise the same up to entry order.
pub open spec fn same_items(xs: Seq<Json>, ys: Seq<Json>, n: nat) -> bool
    decreases xs, n,
{
    if n == 0 || n > xs.len() {
        true
    } else {
        same_items(xs, ys, (n - 1) as nat) && same_up_to_entry_order(xs[n - 1], ys[n - 1])
    }
}

/// Each of the first `n` entries of `ea` has its key in `eb`, with a value
/// the same up to entry order.
pub open spec fn same_members(ea: Seq<(String, Json)>, eb: Seq<(String, Json)>, n: nat) -> bool
    decreases ea, n,
{
    if n == 0 || n > ea.len() {
        true
    } else {
        let j = entry_index(eb, ea[n - 1].0@);
        &&& same_members(ea, eb, (n - 1) as nat)
        &&& 0 <= j < eb.len()
        &&& same_up_to_entry_order(ea[n - 1].1, eb[j].1)
    }
}

/// Values that differ only in the order of object entries, at any depth,
/// have the same canonical form.
pub proof fn canonical_ignores_entry_order_at_any_depth(a: Json, b: Json)
    requires
        same_up_to_entry_order(a, b),
    ensures
        canonical(a) == canonical(b),
    decreases a, 0nat,
{
    match (a, b) {
        (Json::Array(xs), Json::Array(ys)) => {
            lemma_same_items_canonical(xs@, ys@, xs@.len());
        },
        (Json::Object(ea), Json::Object(eb)) => {
            let ka = entry_keys(ea@);
            let kb = entry_keys(eb@);
            lemma_same_members_text(ea@, eb@, ea@.len());
            assert forall|i: int, j: int| 0 <= i < ka.len() && 0 <= j < ka.len() && i != j implies #[trigger] ka[i] != #[trigger] ka[j] by {
                assert(ea@[i].0@ != ea@[j].0@);
            }
            assert forall|i: int, j: int| 0 <= i < kb.len() && 0 <= j < kb.len() && i != j implies #[trigger] kb[i] != #[trigger] kb[j] by {
                assert(eb@[i].0@ != eb@[j].0@);
            }
            assert forall|i: int| 0 <= i < ka.len() implies kb.contains(#[trigger] ka[i]) by {
                let k = ea@[i].0@;
                lemma_entry_index(eb@, k);
                let j = entry_index(eb@, k);
                assert(0 <= entry_index(eb@, ea@[i].0@) < eb@.len());
                assert(kb[j] == k);
            }
            assert forall|j: int| 0 <= j < kb.len() implies ka.contains(#[trigger] kb[j]) by {
                let k = eb@[j].0@;
                lemma_entry_index(ea@, k);
                let i = entry_index(ea@, k);
                assert(ka[i] == k);
            }
            lemma_sort_keys_same_set(ka, kb);
            assert forall|k: Seq<char>| #[trigger] member_text(ea@, k) == member_text(eb@, k) by {
                lemma_entry_index(ea@, k);
                lemma_entry_index(eb@, k);
                let ia = entry_index(ea@, k);
                let ib = entry_index(eb@, k);
                if ia >= 0 {
                    assert(member_text(ea@, ea@[ia].0@) == member_text(eb@, ea@[ia].0@));
                } else if ib >= 0 {
                    assert(entry_index(ea@, eb@[ib].0@) >= 0);
                }
            }
            let keys = sort_keys(ka);
            lemma_canonical_entries_same(ea@, eb@, keys, keys.len());
        },
        _ => {},
    }
}

proof fn lemma_same_items_canonical(xs: Seq<Json>, ys: Seq<Json>, n: nat)
    requires
        xs.len() == ys.len(),
        same_items(xs, ys, n),
    ensures
        canonical_items(xs, n) == canonical_items(ys, n),
    decreases xs, n,
{
    if n > 0 && n <= xs.len() {
        lemma_same_items_canonical(xs, ys, (n - 1) as nat);
        canonical_ignores_entry_order_at_any_depth(xs[n - 1], ys[n - 1]);
        if n == 1 {
            canonical_ignores_entry_order_at_any_depth(xs[0], ys[0]);
        }
    }
}

proof fn lemma_same_members_text(ea: Seq<(String, Json)>, eb: Seq<(String, Json)>, n: nat)
    requires
        distinct_keys(ea),
        n <= ea.len(),
        same_members(ea, eb, n),
    ensures
        forall|i: int| 0 <= i < n ==> member_text(ea, (#[trigger] ea[i]).0@) == member_text(eb, ea[i].0@),
        forall|i: int| 0 <= i < n ==> 0 <= entry_index(eb, (#[trigger] ea[i]).0@) < eb.len(),
    decreases ea, n,
{
    if n > 0 {
        lemma_same_members_text(ea, eb, (n - 1) as nat);
        let k = ea[n - 1].0@;
        lemma_entry_index(ea, k);
        let ia = entry_index(ea, k);
        if ia != n - 1 {
            assert(ea[ia].0@ != ea[n - 1].0@);
        }
        let j = entry_index(eb, k);
        canonical_ignores_entry_order_at_any_depth(ea[n - 1].1, eb[j].1);
    }
}

/// `bytes_lt` never holds of a sequence and itself.
proof fn lemma_bytes_lt_irreflexive(a: Seq<u8>)
    ensures
        !crate::strings::bytes_lt(a, a),
    decreases a.len(),
{
    if a.len() > 0 {
        lemma_bytes_lt_irreflexive(a.drop_first());
    }
}

/// `bytes_lt` is transitive.
proof fn lemma_bytes_lt_transitive(a: Seq<u8>, b: Seq<u8>, c: Seq<u8>)
    requires
        crate::strings::bytes_lt(a, b),
        crate::strings::bytes_lt(b, c),
    ensures
        crate::strings::bytes_lt(a, c),
    decreases a.len(),
{
    if a.len() > 0 && a[0] == b[0] && b[0] == c[0] {
        lemma_bytes_lt_transitive(a.drop_first(), b.drop_first(), c.drop_first());
    }
}

/// `bytes_lt` orders any two distinct sequences.
proof fn lemma_bytes_lt_total(a: Seq<u8>, b: Seq<u8>)
    requires
        a != b,
    ensures
        crate::strings::bytes_lt(a, b) || crate::strings::bytes_lt(b, a),
    decreases a.len(),
{
    if a.len() > 0 && b.len() > 0 && a[0] == b[0] {
        if a.drop_first() == b.drop_first() {
            assert(a =~= seq![a[0]] + a.drop_first());
            assert(b =~= seq![b[0]] + b.drop_first());
        }
        lemma_bytes_lt_total(a.drop_first(), b.drop_first());
    } else if a.len() == 0 && b.len() == 0 {
        assert(a =~= b);
    }
}

/// Distinct keys have distinct bytes.
proof fn lemma_key_bytes_injective(x: Seq<char>, y: Seq<char>)
    requires
        x != y,
    ensures
        key_bytes(x) != key_bytes(y),
{
    vstd::utf8::encode_utf8_decode_utf8(x);
    vstd::utf8::encode_utf8_decode_utf8(y);
}

/// The first least key is no greater than any key.
proof fn lemma_min_key(keys: Seq<Seq<char>>, n: nat)
    requires
        1 <= n <= keys.len(),
    ensures
        0 <= min_key_index(keys, n) < n,
        forall|j: int| 0 <= j < n ==> !crate::strings::bytes_lt(key_bytes(#[trigger] keys[j]), key_bytes(keys[min_key_index(keys, n)])),
    decreases n,
{
    if n > 1 {
        lemma_min_key(keys, (n - 1) as nat);
        let m = min_key_index(keys, (n - 1) as nat);
        if crate::strings::bytes_lt(key_bytes(keys[n - 1]), key_bytes(keys[m])) {
            assert forall|j: int| 0 <= j < n implies !crate::strings::bytes_lt(key_bytes(#[trigger] keys[j]), key_bytes(keys[n - 1])) by {
                if j == n - 1 {
                    lemma_bytes_lt_irreflexive(key_bytes(keys[j]));
                } else if crate::strings::bytes_lt(key_bytes(keys[j]), key_bytes(keys[n - 1])) {
                    lemma_bytes_lt_transitive(key_bytes(keys[j]), key_bytes(keys[n - 1]), key_bytes(keys[m]));
                }
            }
        }
    } else {
        lemma_bytes_lt_irreflexive(key_bytes(keys[0]));
    }
}

/// No two keys are equal.
pub open spec fn distinct(keys: Seq<Seq<char>>) -> bool {
    forall|i: int, j: int| 0 <= i < keys.len() && 0 <= j < keys.len() && i != j ==> #[trigger] keys[i] != #[trigger] keys[j]
}

/// Sorting depends only on the set of keys, when they are distinct.
proof fn lemma_sort_keys_same_set(k1: Seq<Seq<char>>, k2: Seq<Seq<char>>)
    requires
        distinct(k1),
        distinct(k2),
        forall|i: int| 0 <= i < k1.len() ==> k2.contains(#[trigger] k1[i]),
        forall|i: int| 0 <= i < k2.len() ==> k1.contains(#[trigger] k2[i]),
    ensures
        sort_keys(k1) == sort_keys(k2),
    decreases k1.len(),
{
    if k1.len() == 0 {
        if k2.len() > 0 {
            assert(k1.contains(k2[0]));
        }
    } else {
        assert(k2.contains(k1[0]));
        let m1 = min_key_index(k1, k1.len());
        let m2 = min_key_index(k2, k2.len());
        lemma_min_key(k1, k1.len());
        lemma_min_key(k2, k2.len());
        let x1 = k1[m1];
        let x2 = k2[m2];
        assert(k2.contains(x1));
        assert(k1.contains(x2));
        let j2 = choose|j: int| 0 <= j < k2.len() && k2[j] == x1;
        let j1 = choose|j: int| 0 <= j < k1.len() && k1[j] == x2;
        assert(!crate::strings::bytes_lt(key_bytes(k2[j2]), key_bytes(x2)));
        assert(!crate::strings::bytes_lt(key_bytes(k1[j1]), key_bytes(x1)));
        if x1 != x2 {
            lemma_key_bytes_injective(x1, x2);
            lemma_bytes_lt_total(key_bytes(x1), key_bytes(x2));
        }
        let r1 = k1.remove(m1);
        let r2 = k2.remove(m2);
        assert forall|i: int| 0 <= i < r1.len() implies r2.contains(#[trigger] r1[i]) by {
            let y = r1[i];
            let oi = if i < m1 { i } else { i + 1 };
            assert(y == k1[oi]);
            assert(oi != m1);
            assert(k2.contains(y));
            let j = choose|j: int| 0 <= j < k2.len() && k2[j] == y;
            assert(j != m2);
            if j < m2 {
                assert(r2[j] == y);
            } else {
                assert(r2[j - 1] == y);
            }
        }
        assert forall|i: int| 0 <= i < r2.len() implies r1.contains(#[trigger] r2[i]) by {
            let y = r2[i];
            let oi = if i < m2 { i } else { i + 1 };
            assert(y == k2[oi]);
            assert(oi != m2);
            assert(k1.contains(y));
            let j = choose|j: int| 0 <= j < k1.len() && k1[j] == y;
            assert(j != m1);
            if j < m1 {
                assert(r1[j] == y);
            } else {
                assert(r1[j - 1] == y);
            }
        }
        assert forall|i: int, j: int| 0 <= i < r1.len() && 0 <= j < r1.len() && i != j implies #[trigger] r1[i] != #[trigger] r1[j] by {
            let oi = if i < m1 { i } else { i + 1 };
            let oj = if j < m1 { j } else { j + 1 };
            assert(r1[i] == k1[oi] && r1[j] == k1[oj]);
        }
        assert forall|i: int, j: int| 0 <= i < r2.len() && 0 <= j < r2.len() && i != j implies #[trigger] r2[i] != #[trigger] r2[j] by {
            let oi = if i < m2 { i } else { i + 1 };
            let oj = if j < m2 { j } else { j + 1 };
            assert(r2[i] == k2[oi] && r2[j] == k2[oj]);
        }
        lemma_sort_keys_same_set(r1, r2);
    }
}

/// The view of a list of string slices.
pub open spec fn strs_view(v: Seq<&str>) -> Seq<Seq<char>> {
    v.map_values(|k: &str| k@)
}

fn min_key_pos(keys: &Vec<&str>) -> (m: usize)
    requires
        keys@.len() > 0,
    ensures
        m == min_key_index(strs_view(keys@), keys@.len() as nat),
        m < keys@.len(),
{
    let ghost ks = strs_view(keys@);
    let mut m: usize = 0;
    let mut i: usize = 1;
    while i < keys.len()
        invariant
            1 <= i <= keys@.len(),
            ks == strs_view(keys@),
            m == min_key_index(ks, i as nat),
            m < i,
        decreases keys@.len() - i,
    {
        if str_lt(keys[i], keys[m]) {
            m = i;
        }
        i = i + 1;
    }
    m
}

/// The keys of an object's entries in ascending byte order.
fn sorted_keys(entries: &Vec<(String, Json)>) -> (r: Vec<&str>)
    ensures
        strs_view(r@) == sort_keys(entry_keys(entries@)),
{
    let mut rest: Vec<&str> = Vec::new();
    for i in 0..entries.len()
        invariant
            strs_view(rest@) == entry_keys(entries@.take(i as int)),
    {
        let ghost before = rest@;
        rest.push(entries[i].0.as_str());
        assert(entries@.take(i + 1) == entries@.take(i as int).push(entries@[i as int]));
        assert(strs_view(rest@) =~= strs_view(before).push(entries@[i as int].0@));
        assert(entry_keys(entries@.take(i + 1)) =~= entry_keys(entries@.take(i as int)).push(
            entries@[i as int].0@,
        ));
    }
    assert(entries@.take(entries@.len() as int) == entries@);
    let mut r: Vec<&str> = Vec::new();
    let ghost all = entry_keys(entries@);
    assert(strs_view(r@) + sort_keys(strs_view(rest@)) =~= sort_keys(all));
    while rest.len() > 0
        invariant
            strs_view(r@) + sort_keys(strs_view(rest@)) == sort_keys(all),
        decreases rest@.len(),
    {
        let m = min_key_pos(&rest);
        let ghost before = strs_view(rest@);
        let k = rest.remove(m);
        assert(strs_view(rest@) =~= before.remove(m as int));
        assert(sort_keys(before) == seq![before[m as int]] + sort_keys(before.remove(m as int)));
        r.push(k);
        assert(strs_view(r@) =~= strs_view(r@.drop_last()).push(k@));
    }
    assert(sort_keys(strs_view(rest@)) =~= Seq::<Seq<char>>::empty());
    r
}

/// Serialize a JSON value with sorted object keys, so semantically equal
/// inputs always produce the same string.
pub fn canonical_json(v: &Json) -> (s: String)
    ensures
        s@ == canonical(*v),
    decreases v,
{
    let mut s = String::new();
    match v {
        Json::Null => {
            push_str(&mut s, "null");
            assert(s@ =~= canonical(*v));
        },
        Json::Bool(b) => {
            if *b {
                push_str(&mut s, "true");
            } else {
                push_str(&mut s, "false");
            }
            assert(s@ =~= canonical(*v));
        },
        Json::Number(t) => {
            push_str(&mut s, t.as_str());
            assert(s@ =~= canonical(*v));
        },
        Json::String(t) => {
            let q = json_quote(t.as_str());
            push_str(&mut s, q.as_str());
            assert(s@ =~= canonical(*v));
        },
        Json::Array(items) => {
            push_char(&mut s, '[');
            let n = items.len();
            for i in 0..n
                invariant
                    n == items@.len(),
                    *v == Json::Array(*items),
                    s@ == seq!['['] + canonical_items(items@, i as nat),
            {
                if i > 0 {
                    push_char(&mut s, ',');
                }
                proof {
                    vstd::std_specs::vec::axiom_vec_index_decreases(*items, i as int);
                    assert(decreases_to!(*v => v->Array_0));
                }
                let c = canonical_json(&items[i]);
                push_str(&mut s, c.as_str());
            }
            push_char(&mut s, ']');
            assert(s@ =~= canonical(*v));
        },
        Json::Object(entries) => {
            push_char(&mut s, '{');
            let keys = sorted_keys(entries);
            let ghost ks = strs_view(keys@);
            let n = keys.len();
            for i in 0..n
                invariant
                    n == keys@.len(),
                    *v == Json::Object(*entries),
                    ks == strs_view(keys@),
                    ks == sort_keys(entry_keys(entries@)),
                    s@ == seq!['{'] + canonical_entries(entries@, ks, i as nat),
            {
                if i > 0 {
                    push_char(&mut s, ',');
                }
                let q = json_quote(keys[i]);
                push_str(&mut s, q.as_str());
                push_char(&mut s, ':');
                match find_entry(entries, keys[i]) {
                    Some(j) => {
                        proof {
                            vstd::std_specs::vec::axiom_vec_index_decreases(*entries, j as int);
                            assert(decreases_to!(*v => v->Object_0));
                            assert(decreases_to!(entries@[j as int] => entries@[j as int].1));
                        }
                        let c = canonical_json(&entries[j].1);
                        push_str(&mut s, c.as_str());
                    },
                    None => {},
                }
            }
            push_char(&mut s, '}');
            assert(s@ == canonical(*v));
        },
    }
    s
}

} // verus!
