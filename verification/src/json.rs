//! JSON values as the library holds them, and their compact text form.

use vstd::prelude::*;
use crate::text::{chars_of, push_char};

verus! {

/// A JSON value. A number is kept as its JSON text (`42`, `-1`, `0.5`):
/// the library only ever reads a number to print it. An object keeps its
/// members in strictly ascending key order, as a JSON object map does;
/// `json_wf` states this and `is_well_formed` checks it.
#[derive(Debug, PartialEq)]
pub enum JsonValue {
    Null,
    Bool(bool),
    Number(String),
    String(String),
    Array(Vec<JsonValue>),
    Object(Vec<(String, JsonValue)>),
}

/// The mathematical model of a JSON value.
pub enum Json {
    Null,
    Bool(bool),
    Number(Seq<char>),
    String(Seq<char>),
    Array(Seq<Json>),
    Object(Seq<(Seq<char>, Json)>),
}

/// The model of a value.
pub open spec fn json_view(v: JsonValue) -> Json
    decreases v,
{
    match v {
        JsonValue::Null => Json::Null,
        JsonValue::Bool(b) => Json::Bool(b),
        JsonValue::Number(t) => Json::Number(t@),
        JsonValue::String(s) => Json::String(s@),
        JsonValue::Array(items) => Json::Array(items_view(items@)),
        JsonValue::Object(entries) => Json::Object(entries_view(entries@)),
    }
}

/// The models of a sequence of values.
pub open spec fn items_view(items: Seq<JsonValue>) -> Seq<Json>
    decreases items,
{
    if items.len() == 0 {
        Seq::empty()
    } else {
        items_view(items.drop_last()).push(json_view(items.last()))
    }
}

/// The models of a sequence of object entries.
pub open spec fn entries_view(entries: Seq<(String, JsonValue)>) -> Seq<(Seq<char>, Json)>
    decreases entries,
{
    if entries.len() == 0 {
        Seq::empty()
    } else {
        entries_view(entries.drop_last()).push(
            (entries.last().0@, json_view(entries.last().1)),
        )
    }
}

impl View for JsonValue {
    type V = Json;

    open spec fn view(&self) -> Json {
        json_view(*self)
    }
}


pub proof fn lemma_items_view(items: Seq<JsonValue>)
    ensures
        items_view(items).len() == items.len(),
        forall|i: int| 0 <= i < items.len() ==> #[trigger] items_view(items)[i] == json_view(items[i]),
    decreases items.len(),
{
    if items.len() > 0 {
        lemma_items_view(items.drop_last());
        assert forall|i: int| 0 <= i < items.len() implies #[trigger] items_view(items)[i] == json_view(items[i]) by {
            if i < items.len() - 1 {
                assert(items.drop_last()[i] == items[i]);
            }
        }
    }
}

pub proof fn lemma_entries_view(entries: Seq<(String, JsonValue)>)
    ensures
        entries_view(entries).len() == entries.len(),
        forall|i: int| 0 <= i < entries.len() ==> #[trigger] entries_view(entries)[i] == (entries[i].0@, json_view(entries[i].1)),
    decreases entries.len(),
{
    if entries.len() > 0 {
        lemma_entries_view(entries.drop_last());
        assert forall|i: int| 0 <= i < entries.len() implies #[trigger] entries_view(entries)[i] == (entries[i].0@, json_view(entries[i].1)) by {
            if i < entries.len() - 1 {
                assert(entries.drop_last()[i] == entries[i]);
            }
        }
    }
}

impl Clone for JsonValue {
    /// A copy with the same model.
    fn clone(&self) -> (r: Self)
        ensures
            r@ == self@,
        decreases self,
    {
        match self {
            JsonValue::Null => JsonValue::Null,
            JsonValue::Bool(b) => JsonValue::Bool(*b),
            JsonValue::Number(t) => JsonValue::Number(t.clone()),
            JsonValue::String(s) => JsonValue::String(s.clone()),
            JsonValue::Array(items) => {
                let mut copy: Vec<JsonValue> = Vec::new();
                let n = items.len();
                let mut i: usize = 0;
                while i < n
                    invariant
                        n == items@.len(),
                        i <= n,
                        *self == JsonValue::Array(*items),
                        items_view(copy@) == items_view(items@.take(i as int)),
                    decreases n - i,
                {
                    proof {
                        assert(decreases_to!(*items => items[i as int])) by {
                            broadcast use vstd::std_specs::vec::axiom_vec_index_decreases;
                        }
                        assert(decreases_to!(*self => (*self)->Array_0));
                    }
                    let c = items[i].clone();
                    let ghost before = copy@;
                    copy.push(c);
                    proof {
                        let t = items@.take(i + 1);
                        assert(t.drop_last() == items@.take(i as int));
                        assert(copy@.drop_last() == before);
                        assert(t.last() == items@[i as int]);
                    }
                    i += 1;
                }
                assert(items@.take(n as int) == items@);
                JsonValue::Array(copy)
            },
            JsonValue::Object(members) => {
                let mut copy: Vec<(String, JsonValue)> = Vec::new();
                let n = members.len();
                let mut i: usize = 0;
                while i < n
                    invariant
                        n == members@.len(),
                        i <= n,
                        *self == JsonValue::Object(*members),
                        entries_view(copy@) == entries_view(members@.take(i as int)),
                    decreases n - i,
                {
                    proof {
                        assert(decreases_to!(*members => members[i as int])) by {
                            broadcast use vstd::std_specs::vec::axiom_vec_index_decreases;
                        }
                        assert(decreases_to!(members[i as int] => members[i as int].1));
                        assert(decreases_to!(*self => (*self)->Object_0));
                    }
                    let k = members[i].0.clone();
                    let c = members[i].1.clone();
                    let ghost before = copy@;
                    copy.push((k, c));
                    proof {
                        let t = members@.take(i + 1);
                        assert(t.drop_last() == members@.take(i as int));
                        assert(copy@.drop_last() == before);
                        assert(t.last() == members@[i as int]);
                    }
                    i += 1;
                }
                assert(members@.take(n as int) == members@);
                JsonValue::Object(copy)
            },
        }
    }
}

/// A lowercase hexadecimal digit for `d < 16`.
pub open spec fn hex_digit(d: int) -> char {
    if d < 10 {
        ('0' as int + d) as char
    } else {
        ('a' as int + d - 10) as char
    }
}

/// How one character appears inside a JSON string literal: `"` and `\`
/// get a backslash, backspace, tab, line feed, form feed and carriage
/// return become `\b`, `\t`, `\n`, `\f`, `\r`, any other character
/// below U+0020 becomes `\u00` and two lowercase hex digits, and every
/// other character stands as it is.
pub open spec fn escaped_char(c: char) -> Seq<char> {
    if c == '"' {
        seq!['\\', '"']
    } else if c == '\\' {
        seq!['\\', '\\']
    } else if c == '\x08' {
        seq!['\\', 'b']
    } else if c == '\t' {
        seq!['\\', 't']
    } else if c == '\n' {
        seq!['\\', 'n']
    } else if c == '\x0c' {
        seq!['\\', 'f']
    } else if c == '\r' {
        seq!['\\', 'r']
    } else if (c as int) < 0x20 {
        seq!['\\', 'u', '0', '0', hex_digit(c as int / 16), hex_digit(c as int % 16)]
    } else {
        seq![c]
    }
}

/// The escaped characters of `s`, in order.
pub open spec fn escaped(s: Seq<char>) -> Seq<char>
    decreases s.len(),
{
    if s.len() == 0 {
        Seq::empty()
    } else {
        escaped(s.drop_last()) + escaped_char(s.last())
    }
}

/// The JSON string literal for `s`: `"`, the escaped characters, `"`.
pub open spec fn json_quoted(s: Seq<char>) -> Seq<char> {
    seq!['"'] + escaped(s) + seq!['"']
}

proof fn lemma_escaped_plain(s: Seq<char>)
    requires
        forall|i: int| 0 <= i < s.len() ==> (#[trigger] s[i] as int) >= 0x20 && s[i] != '"' && s[i] != '\\',
    ensures
        escaped(s) == s,
    decreases s.len(),
{
    if s.len() > 0 {
        let t = s.drop_last();
        assert forall|i: int| 0 <= i < t.len() implies (#[trigger] t[i] as int) >= 0x20 && t[i] != '"' && t[i] != '\\' by {
            assert(t[i] == s[i]);
        }
        lemma_escaped_plain(t);
        let c = s[s.len() - 1];
        assert(s.last() == c);
        assert(c != '\x08' && c != '\t' && c != '\n' && c != '\x0c' && c != '\r');
        assert(escaped_char(c) == seq![c]);
        assert(s == t.push(c));
        assert(escaped(s) =~= s);
    }
}

/// A string with no quote, backslash or control character is written
/// between quotes exactly as it is.
pub proof fn plain_string_quoted_as_is(s: Seq<char>)
    requires
        forall|i: int| 0 <= i < s.len() ==> (#[trigger] s[i] as int) >= 0x20 && s[i] != '"' && s[i] != '\\',
    ensures
        json_quoted(s) == seq!['"'] + s + seq!['"'],
{
    lemma_escaped_plain(s);
}

/// Every JSON string literal begins and ends with a quote, and a quote or
/// backslash inside the string is preceded by a backslash.
pub proof fn quoted_text_is_delimited(s: Seq<char>)
    ensures
        json_quoted(s)[0] == '"',
        json_quoted(s).last() == '"',
        escaped_char('"') == seq!['\\', '"'],
        escaped_char('\\') == seq!['\\', '\\'],
{
}

/// `serde_json::to_string` applied to a string slice.
///
/// The contract states what `serde_json` writes for a string (its escape
/// table and `\u00xx` form for other control characters). Serialising a
/// string cannot fail: `serde_json` documents failure only for maps with
/// non-string keys or a `Serialize` impl that chooses to fail.
#[verifier::external_body]
fn quote_json_string(s: &str) -> (r: String)
    ensures
        r@ == json_quoted(s@),
{
    serde_json::to_string(s).unwrap_or_default()
}

/// `null`
pub open spec fn null_text() -> Seq<char> {
    seq!['n', 'u', 'l', 'l']
}

/// `true` or `false`
pub open spec fn bool_text(b: bool) -> Seq<char> {
    if b {
        seq!['t', 'r', 'u', 'e']
    } else {
        seq!['f', 'a', 'l', 's', 'e']
    }
}

/// The compact JSON text of a value, as `serde_json` prints it: no spaces,
/// elements and members separated by `,`, a member written `"key":value`,
/// object members in the order the object holds them.
pub open spec fn json_text(v: Json) -> Seq<char>
    decreases v,
{
    match v {
        Json::Null => null_text(),
        Json::Bool(b) => bool_text(b),
        Json::Number(t) => t,
        Json::String(s) => json_quoted(s),
        Json::Array(items) => seq!['['] + items_text(items) + seq![']'],
        Json::Object(members) => seq!['{'] + members_text(members) + seq!['}'],
    }
}

/// The texts of `items` separated by `,`.
pub open spec fn items_text(items: Seq<Json>) -> Seq<char>
    decreases items,
{
    if items.len() == 0 {
        Seq::empty()
    } else {
        items_text(items.drop_last()) + (if items.len() > 1 {
            seq![',']
        } else {
            Seq::empty()
        }) + json_text(items.last())
    }
}

/// The texts of `members` separated by `,`, each written `"key":value`.
pub open spec fn members_text(members: Seq<(Seq<char>, Json)>) -> Seq<char>
    decreases members,
{
    if members.len() == 0 {
        Seq::empty()
    } else {
        members_text(members.drop_last()) + (if members.len() > 1 {
            seq![',']
        } else {
            Seq::empty()
        }) + json_quoted(members.last().0) + seq![':'] + json_text(members.last().1)
    }
}

fn push_all(out: &mut String, cs: &[char])
    ensures
        final(out)@ == old(out)@ + cs@,
{
    let mut i: usize = 0;
    while i < cs.len()
        invariant
            i <= cs@.len(),
            out@ == old(out)@ + cs@.take(i as int),
        decreases cs@.len() - i,
    {
        push_char(out, cs[i]);
        assert(cs@.take(i + 1) == cs@.take(i as int).push(cs@[i as int]));
        i += 1;
    }
    assert(cs@.take(cs@.len() as int) == cs@);
}

/// Appends the compact JSON text of `v` to `out`.
pub fn write_json(v: &JsonValue, out: &mut String)
    ensures
        final(out)@ == old(out)@ + json_text(v@),
    decreases v,
{
    match v {
        JsonValue::Null => {
            push_all(out, &['n', 'u', 'l', 'l']);
        },
        JsonValue::Bool(b) => {
            if *b {
                push_all(out, &['t', 'r', 'u', 'e']);
            } else {
                push_all(out, &['f', 'a', 'l', 's', 'e']);
            }
        },
        JsonValue::Number(t) => {
            out.append(t.as_str());
        },
        JsonValue::String(s) => {
            let q = quote_json_string(s.as_str());
            out.append(q.as_str());
        },
        JsonValue::Array(items) => {
            let ghost start = out@;
            push_char(out, '[');
            let n = items.len();
            let mut i: usize = 0;
            while i < n
                invariant
                    n == items@.len(),
                    i <= n,
                    *v == JsonValue::Array(*items),
                    out@ == start + seq!['['] + items_text(items_view(items@.take(i as int))),
                decreases n - i,
            {
                if i > 0 {
                    push_char(out, ',');
                }
                proof {
                    assert(decreases_to!(*items => items[i as int])) by {
                        broadcast use vstd::std_specs::vec::axiom_vec_index_decreases;
                    }
                    assert(decreases_to!(*v => (*v)->Array_0));
                }
                write_json(&items[i], out);
                proof {
                    let t = items@.take(i + 1);
                    assert(t.drop_last() == items@.take(i as int));
                    assert(t.last() == items@[i as int]);
                    lemma_items_view(t);
                    lemma_items_view(items@.take(i as int));
                    assert(items_view(t).drop_last() == items_view(items@.take(i as int)));
                }
                i += 1;
            }
            assert(items@.take(n as int) == items@);
            push_char(out, ']');
        },
        JsonValue::Object(members) => {
            let ghost start = out@;
            push_char(out, '{');
            let n = members.len();
            let mut i: usize = 0;
            while i < n
                invariant
                    n == members@.len(),
                    i <= n,
                    *v == JsonValue::Object(*members),
                    out@ == start + seq!['{'] + members_text(entries_view(members@.take(i as int))),
                decreases n - i,
            {
                if i > 0 {
                    push_char(out, ',');
                }
                let q = quote_json_string(members[i].0.as_str());
                out.append(q.as_str());
                push_char(out, ':');
                proof {
                    assert(decreases_to!(*members => members[i as int])) by {
                        broadcast use vstd::std_specs::vec::axiom_vec_index_decreases;
                    }
                    assert(decreases_to!(members[i as int] => members[i as int].1));
                    assert(decreases_to!(*v => (*v)->Object_0));
                }
                write_json(&members[i].1, out);
                proof {
                    let t = members@.take(i + 1);
                    assert(t.drop_last() == members@.take(i as int));
                    assert(t.last() == members@[i as int]);
                    lemma_entries_view(t);
                    lemma_entries_view(members@.take(i as int));
                    assert(entries_view(t).drop_last() == entries_view(members@.take(i as int)));
                }
                i += 1;
            }
            assert(members@.take(n as int) == members@);
            push_char(out, '}');
        },
    }
}


/// `a` comes before `b` in the order of strings: at the first position
/// where they differ the character of `a` is smaller, or `a` is a proper
/// prefix of `b`. This is the order in which a JSON object keeps its
/// members.
pub open spec fn key_less(a: Seq<char>, b: Seq<char>) -> bool
    decreases a.len(),
{
    if a.len() == 0 {
        b.len() > 0
    } else if b.len() == 0 {
        false
    } else if a[0] != b[0] {
        a[0] < b[0]
    } else {
        key_less(a.drop_first(), b.drop_first())
    }
}

pub proof fn lemma_key_less_irreflexive(a: Seq<char>)
    ensures
        !key_less(a, a),
    decreases a.len(),
{
    if a.len() > 0 {
        lemma_key_less_irreflexive(a.drop_first());
    }
}

pub proof fn lemma_key_less_transitive(a: Seq<char>, b: Seq<char>, c: Seq<char>)
    requires
        key_less(a, b),
        key_less(b, c),
    ensures
        key_less(a, c),
    decreases a.len(),
{
    if a.len() > 0 && b.len() > 0 && c.len() > 0 && a[0] == b[0] && b[0] == c[0] {
        lemma_key_less_transitive(a.drop_first(), b.drop_first(), c.drop_first());
    }
}

/// A proper prefix of a string comes before it.
pub proof fn proper_prefix_comes_first(a: Seq<char>, b: Seq<char>)
    requires
        a.len() < b.len(),
        b.subrange(0, a.len() as int) == a,
    ensures
        key_less(a, b),
    decreases a.len(),
{
    if a.len() > 0 {
        assert(b[0] == a[0]);
        assert(b.drop_first().subrange(0, a.drop_first().len() as int) == a.drop_first());
        proper_prefix_comes_first(a.drop_first(), b.drop_first());
    }
}

/// At the first position where two strings differ, the string with the
/// smaller character there comes first.
pub proof fn first_difference_decides(a: Seq<char>, b: Seq<char>, i: int)
    requires
        0 <= i < a.len(),
        i < b.len(),
        a.subrange(0, i) == b.subrange(0, i),
        a[i] != b[i],
    ensures
        key_less(a, b) == (a[i] < b[i]),
        key_less(b, a) == (b[i] < a[i]),
    decreases i,
{
    if i > 0 {
        assert(a[0] == a.subrange(0, i)[0]);
        assert(b[0] == b.subrange(0, i)[0]);
        assert(a.drop_first().subrange(0, i - 1) == a.subrange(0, i).drop_first());
        assert(b.drop_first().subrange(0, i - 1) == b.subrange(0, i).drop_first());
        first_difference_decides(a.drop_first(), b.drop_first(), i - 1);
    }
}

/// Of two different strings exactly one comes first; no string comes
/// before itself.
pub proof fn key_order_total(a: Seq<char>, b: Seq<char>)
    ensures
        a != b ==> key_less(a, b) != key_less(b, a),
        !key_less(a, a),
    decreases a.len(),
{
    lemma_key_less_irreflexive(a);
    if a.len() > 0 && b.len() > 0 && a[0] == b[0] {
        key_order_total(a.drop_first(), b.drop_first());
        if a != b {
            assert(a.drop_first() != b.drop_first()) by {
                if a.drop_first() == b.drop_first() {
                    assert(a.len() == b.len());
                    assert forall|i: int| 0 <= i < a.len() implies a[i] == b[i] by {
                        if i > 0 {
                            assert(a[i] == a.drop_first()[i - 1]);
                            assert(b[i] == b.drop_first()[i - 1]);
                        }
                    }
                    assert(a =~= b);
                }
            }
        }
    } else if a.len() == 0 && b.len() == 0 {
        assert(a =~= b);
    }
}

/// The members' keys strictly ascend, so no key occurs twice.
pub open spec fn keys_ascending(members: Seq<(Seq<char>, Json)>) -> bool {
    forall|i: int| 0 <= i < members.len() - 1 ==> key_less(#[trigger] members[i].0, members[i + 1].0)
}

pub proof fn lemma_keys_ascending(members: Seq<(Seq<char>, Json)>, i: int, j: int)
    requires
        keys_ascending(members),
        0 <= i < j < members.len(),
    ensures
        key_less(members[i].0, members[j].0),
    decreases j - i,
{
    if j > i + 1 {
        lemma_keys_ascending(members, i, j - 1);
        assert(key_less(members[j - 1].0, members[j].0));
        lemma_key_less_transitive(members[i].0, members[j - 1].0, members[j].0);
    }
}

/// Every object in `v`, at any depth, keeps its members in strictly
/// ascending key order, as a JSON object map does.
pub open spec fn json_wf(v: Json) -> bool
    decreases v,
{
    match v {
        Json::Array(items) => items_wf(items),
        Json::Object(members) => keys_ascending(members) && members_wf(members),
        _ => true,
    }
}

/// Every value of `items` is well formed.
pub open spec fn items_wf(items: Seq<Json>) -> bool
    decreases items,
{
    items.len() == 0 || (items_wf(items.drop_last()) && json_wf(items.last()))
}

/// Every member value of `members` is well formed.
pub open spec fn members_wf(members: Seq<(Seq<char>, Json)>) -> bool
    decreases members,
{
    members.len() == 0 || (members_wf(members.drop_last()) && json_wf(members.last().1))
}

/// An object with these members is well formed.
pub open spec fn object_wf(members: Seq<(Seq<char>, Json)>) -> bool {
    json_wf(Json::Object(members))
}

pub proof fn lemma_items_wf(items: Seq<Json>)
    ensures
        items_wf(items) <==> forall|i: int| 0 <= i < items.len() ==> json_wf(#[trigger] items[i]),
    decreases items.len(),
{
    if items.len() > 0 {
        lemma_items_wf(items.drop_last());
        if forall|i: int| 0 <= i < items.len() ==> json_wf(#[trigger] items[i]) {
            assert forall|i: int| 0 <= i < items.drop_last().len() implies json_wf(#[trigger] items.drop_last()[i]) by {
                assert(items.drop_last()[i] == items[i]);
            }
            assert(json_wf(items[items.len() - 1]));
        }
        if items_wf(items) {
            assert forall|i: int| 0 <= i < items.len() implies json_wf(#[trigger] items[i]) by {
                if i < items.len() - 1 {
                    assert(items.drop_last()[i] == items[i]);
                }
            }
        }
    }
}

pub proof fn lemma_members_wf(members: Seq<(Seq<char>, Json)>)
    ensures
        members_wf(members) <==> forall|i: int| 0 <= i < members.len() ==> json_wf(#[trigger] members[i].1),
    decreases members.len(),
{
    if members.len() > 0 {
        lemma_members_wf(members.drop_last());
        if forall|i: int| 0 <= i < members.len() ==> json_wf(#[trigger] members[i].1) {
            assert forall|i: int| 0 <= i < members.drop_last().len() implies json_wf(#[trigger] members.drop_last()[i].1) by {
                assert(members.drop_last()[i] == members[i]);
            }
            assert(json_wf(members[members.len() - 1].1));
        }
        if members_wf(members) {
            assert forall|i: int| 0 <= i < members.len() implies json_wf(#[trigger] members[i].1) by {
                if i < members.len() - 1 {
                    assert(members.drop_last()[i] == members[i]);
                }
            }
        }
    }
}

/// Whether `a` comes before `b` in the order of strings.
pub fn key_before(a: &String, b: &String) -> (r: bool)
    ensures
        r == key_less(a@, b@),
{
    let x = chars_of(a.as_str());
    let y = chars_of(b.as_str());
    let mut i: usize = 0;
    assert(x@.skip(0) == x@ && y@.skip(0) == y@);
    while i < x.len() && i < y.len()
        invariant
            x@ == a@,
            y@ == b@,
            i <= x@.len(),
            i <= y@.len(),
            key_less(x@, y@) == key_less(x@.skip(i as int), y@.skip(i as int)),
        decreases x@.len() - i,
    {
        if x[i] != y[i] {
            assert(x@.skip(i as int)[0] == x@[i as int]);
            assert(y@.skip(i as int)[0] == y@[i as int]);
            return x[i] < y[i];
        }
        assert(x@.skip(i as int)[0] == x@[i as int]);
        assert(y@.skip(i as int)[0] == y@[i as int]);
        assert(x@.skip(i as int).drop_first() == x@.skip(i + 1));
        assert(y@.skip(i as int).drop_first() == y@.skip(i + 1));
        i += 1;
    }
    i == x.len() && i < y.len()
}

/// Whether every object in `v`, at any depth, keeps its members in strictly
/// ascending key order.
pub fn is_well_formed(v: &JsonValue) -> (r: bool)
    ensures
        r == json_wf(v@),
    decreases v,
{
    match v {
        JsonValue::Array(items) => {
            let n = items.len();
            let mut i: usize = 0;
            proof {
                lemma_items_view(items@);
            }
            while i < n
                invariant
                    n == items@.len(),
                    i <= n,
                    *v == JsonValue::Array(*items),
                    items_view(items@).len() == n,
                    forall|j: int| 0 <= j < n ==> #[trigger] items_view(items@)[j] == items@[j]@,
                    forall|j: int| 0 <= j < i ==> json_wf(#[trigger] items_view(items@)[j]),
                decreases n - i,
            {
                proof {
                    assert(decreases_to!(*items => items[i as int])) by {
                        broadcast use vstd::std_specs::vec::axiom_vec_index_decreases;
                    }
                    assert(decreases_to!(*v => (*v)->Array_0));
                }
                if !is_well_formed(&items[i]) {
                    proof {
                        lemma_items_wf(items_view(items@));
                        assert(v@ == Json::Array(items_view(items@)));
                        assert(!json_wf(items_view(items@)[i as int]));
                    }
                    return false;
                }
                i += 1;
            }
            proof {
                lemma_items_wf(items_view(items@));
                assert(v@ == Json::Array(items_view(items@)));
            }
            true
        },
        JsonValue::Object(members) => {
            let n = members.len();
            let mut i: usize = 0;
            let ghost ev = entries_view(members@);
            proof {
                lemma_entries_view(members@);
            }
            while i < n
                invariant
                    n == members@.len(),
                    i <= n,
                    *v == JsonValue::Object(*members),
                    ev == entries_view(members@),
                    ev.len() == n,
                    forall|j: int| 0 <= j < n ==> #[trigger] ev[j] == (members@[j].0@, members@[j].1@),
                    forall|j: int| 0 <= j < i ==> json_wf(#[trigger] ev[j].1),
                    forall|j: int| 0 <= j < i && j + 1 < n ==> key_less(#[trigger] ev[j].0, ev[j + 1].0),
                decreases n - i,
            {
                proof {
                    assert(decreases_to!(*members => members[i as int])) by {
                        broadcast use vstd::std_specs::vec::axiom_vec_index_decreases;
                    }
                    assert(decreases_to!(members[i as int] => members[i as int].1));
                    assert(decreases_to!(*v => (*v)->Object_0));
                }
                if !is_well_formed(&members[i].1) {
                    proof {
                        lemma_members_wf(ev);
                        assert(v@ == Json::Object(ev));
                        assert(!json_wf(ev[i as int].1));
                    }
                    return false;
                }
                if i + 1 < n && !key_before(&members[i].0, &members[i + 1].0) {
                    proof {
                        assert(v@ == Json::Object(ev));
                        assert(!key_less(ev[i as int].0, ev[i + 1].0));
                        assert(!keys_ascending(ev));
                    }
                    return false;
                }
                i += 1;
            }
            proof {
                lemma_members_wf(ev);
                assert(v@ == Json::Object(ev));
            }
            true
        },
        _ => true,
    }
}

} // verus!
