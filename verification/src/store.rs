//! Assigning `$VAR` references to the fields of an input object.

use vstd::prelude::*;
use std::path::PathBuf;
use crate::json::{
    entries_view, items_view, json_text, json_wf, key_less, keys_ascending, lemma_entries_view,
    lemma_items_view, lemma_items_wf, lemma_key_less_irreflexive, lemma_key_less_transitive,
    lemma_keys_ascending,
    lemma_members_wf, object_wf, write_json, Json, JsonValue,
};
use crate::naming::{array_name, array_names_distinct, array_var_name, scalar_name, scalar_var_name};
use crate::table::NameMap;
use crate::types::{RefView, StoreOutput, VarRef, VarStore};

verus! {

/// The value of the first member named `key`.
pub open spec fn lookup(members: Seq<(Seq<char>, Json)>, key: Seq<char>) -> Option<Json>
    decreases members.len(),
{
    if members.len() == 0 {
        None
    } else if members[0].0 == key {
        Some(members[0].1)
    } else {
        lookup(members.drop_first(), key)
    }
}

/// The member named `key`, if it is there and is a string.
pub open spec fn string_member(members: Seq<(Seq<char>, Json)>, key: Seq<char>) -> Option<Seq<char>> {
    match lookup(members, key) {
        Some(Json::String(s)) => Some(s),
        _ => None,
    }
}

/// The first member, in the object's order, whose value is a string.
pub open spec fn first_string(members: Seq<(Seq<char>, Json)>) -> Option<Seq<char>>
    decreases members.len(),
{
    if members.len() == 0 {
        None
    } else {
        match members[0].1 {
            Json::String(s) => Some(s),
            _ => first_string(members.drop_first()),
        }
    }
}

/// The member names consulted for a summary, in order of preference.
pub open spec fn summary_keys() -> Seq<Seq<char>> {
    seq!["summary"@, "description"@, "text"@, "value"@]
}

/// The string member under the first of `keys` that names one.
pub open spec fn preferred_string(members: Seq<(Seq<char>, Json)>, keys: Seq<Seq<char>>) -> Option<Seq<char>>
    decreases keys.len(),
{
    if keys.len() == 0 {
        None
    } else {
        match string_member(members, keys[0]) {
            Some(s) => Some(s),
            None => preferred_string(members, keys.drop_first()),
        }
    }
}

/// The representative summary of a value: a string is itself; an object
/// gives its `summary`, `description`, `text` or `value` string member, in
/// that order of preference, else its first string member, else its JSON
/// text; any other value gives its JSON text.
pub open spec fn summary_of(v: Json) -> Seq<char> {
    match v {
        Json::String(s) => s,
        Json::Object(members) => match preferred_string(members, summary_keys()) {
            Some(s) => s,
            None => match first_string(members) {
                Some(s) => s,
                None => json_text(v),
            },
        },
        _ => json_text(v),
    }
}

proof fn lemma_lookup_skip(members: Seq<(Seq<char>, Json)>, key: Seq<char>, i: int)
    requires
        0 <= i < members.len(),
        members[i].0 != key,
    ensures
        lookup(members.skip(i), key) == lookup(members.skip(i + 1), key),
{
    assert(members.skip(i)[0] == members[i]);
    assert(members.skip(i).drop_first() == members.skip(i + 1));
}

proof fn lemma_first_string_skip(members: Seq<(Seq<char>, Json)>, i: int)
    requires
        0 <= i < members.len(),
        !(members[i].1 is String),
    ensures
        first_string(members.skip(i)) == first_string(members.skip(i + 1)),
{
    assert(members.skip(i)[0] == members[i]);
    assert(members.skip(i).drop_first() == members.skip(i + 1));
}

/// The string member of an object named `key`.
fn find_string_member<'a>(members: &'a Vec<(String, JsonValue)>, key: &str) -> (r: Option<&'a String>)
    ensures
        match r {
            Some(s) => string_member(entries_view(members@), key@) == Some(s@),
            None => string_member(entries_view(members@), key@) is None,
        },
{
    let ghost ev = entries_view(members@);
    proof {
        lemma_entries_view(members@);
        assert(ev.skip(0) == ev);
    }
    let k = String::from_str(key);
    let n = members.len();
    let mut i: usize = 0;
    while i < n
        invariant
            n == members@.len(),
            ev == entries_view(members@),
            ev.len() == n,
            forall|j: int| 0 <= j < n ==> #[trigger] ev[j] == (members@[j].0@, members@[j].1@),
            k@ == key@,
            i <= n,
            lookup(ev, key@) == lookup(ev.skip(i as int), key@),
        decreases n - i,
    {
        if members[i].0 == k {
            assert(ev.skip(i as int)[0] == ev[i as int]);
            return match &members[i].1 {
                JsonValue::String(s) => Some(s),
                _ => None,
            };
        }
        proof {
            lemma_lookup_skip(ev, key@, i as int);
        }
        i += 1;
    }
    assert(ev.skip(n as int).len() == 0);
    None
}

/// The first string member of an object.
fn find_first_string<'a>(members: &'a Vec<(String, JsonValue)>) -> (r: Option<&'a String>)
    ensures
        match r {
            Some(s) => first_string(entries_view(members@)) == Some(s@),
            None => first_string(entries_view(members@)) is None,
        },
{
    let ghost ev = entries_view(members@);
    proof {
        lemma_entries_view(members@);
        assert(ev.skip(0) == ev);
    }
    let n = members.len();
    let mut i: usize = 0;
    while i < n
        invariant
            n == members@.len(),
            ev == entries_view(members@),
            ev.len() == n,
            forall|j: int| 0 <= j < n ==> #[trigger] ev[j] == (members@[j].0@, members@[j].1@),
            i <= n,
            first_string(ev) == first_string(ev.skip(i as int)),
        decreases n - i,
    {
        assert(ev.skip(i as int)[0] == ev[i as int]);
        if let JsonValue::String(s) = &members[i].1 {
            return Some(s);
        }
        proof {
            lemma_first_string_skip(ev, i as int);
        }
        i += 1;
    }
    assert(ev.skip(n as int).len() == 0);
    None
}

/// Extracts a representative summary string from a JSON value.
///
/// A string is its own summary. An object gives its `summary`,
/// `description`, `text` or `value` member, the first of these that is a
/// string, else its first string member, else its compact JSON text. Any
/// other value gives its compact JSON text.
pub fn extract_summary(value: &JsonValue) -> (r: String)
    requires
        json_wf(value@),
    ensures
        r@ == summary_of(value@),
{
    match value {
        JsonValue::String(s) => s.clone(),
        JsonValue::Object(members) => {
            proof {
                reveal_with_fuel(preferred_string, 5);
                assert(summary_keys()[0] == "summary"@);
                assert(summary_keys()[1] == "description"@);
                assert(summary_keys()[2] == "text"@);
                assert(summary_keys()[3] == "value"@);
                assert(summary_keys().drop_first().drop_first().drop_first().drop_first().len() == 0);
            }
            if let Some(s) = find_string_member(members, "summary") {
                return s.clone();
            }
            if let Some(s) = find_string_member(members, "description") {
                return s.clone();
            }
            if let Some(s) = find_string_member(members, "text") {
                return s.clone();
            }
            if let Some(s) = find_string_member(members, "value") {
                return s.clone();
            }
            if let Some(s) = find_first_string(members) {
                return s.clone();
            }
            let mut out = String::new();
            write_json(value, &mut out);
            out
        },
        _ => {
            let mut out = String::new();
            write_json(value, &mut out);
            out
        },
    }
}


/// The names and values that the elements of an array field receive:
/// element `i` (counting from 1) under `$PREFIX_ABBREV_i`.
pub open spec fn item_entries(prefix: Seq<char>, field: Seq<char>, items: Seq<Json>) -> Map<Seq<char>, Json>
    decreases items.len(),
{
    if items.len() == 0 {
        Map::empty()
    } else {
        item_entries(prefix, field, items.drop_last()).insert(
            array_name(prefix, field, items.len() as nat),
            items.last(),
        )
    }
}

/// The names and values that one input field receives: an array gives one
/// entry per element, any other value one entry under `$PREFIX_FIELD`.
pub open spec fn field_entries(prefix: Seq<char>, field: Seq<char>, value: Json) -> Map<Seq<char>, Json> {
    match value {
        Json::Array(items) => item_entries(prefix, field, items),
        _ => map![scalar_name(prefix, field) => value],
    }
}

/// The store entries assigned to the fields of an input object, taken in
/// order; a name assigned twice keeps the later value.
pub open spec fn assigned(prefix: Seq<char>, fields: Seq<(Seq<char>, Json)>) -> Map<Seq<char>, Json>
    decreases fields.len(),
{
    if fields.len() == 0 {
        Map::empty()
    } else {
        assigned(prefix, fields.drop_last()).union_prefer_right(
            field_entries(prefix, fields.last().0, fields.last().1),
        )
    }
}

/// The reference entries for a set of store entries: each name with the
/// summary of its value and the name itself.
pub open spec fn refs_of(entries: Map<Seq<char>, Json>) -> Map<Seq<char>, RefView> {
    Map::new(
        |k: Seq<char>| entries.contains_key(k),
        |k: Seq<char>| RefView { summary: summary_of(entries[k]), var_ref: k },
    )
}

proof fn lemma_refs_of_insert(entries: Map<Seq<char>, Json>, k: Seq<char>, v: Json)
    ensures
        refs_of(entries.insert(k, v)) == refs_of(entries).insert(
            k,
            RefView { summary: summary_of(v), var_ref: k },
        ),
{
    assert(refs_of(entries.insert(k, v)) =~= refs_of(entries).insert(
        k,
        RefView { summary: summary_of(v), var_ref: k },
    ));
}

/// Stores `value` under `name` and records its reference entry.
fn record(store: &mut VarStore, refs: &mut NameMap<VarRef>, name: String, value: &JsonValue)
    requires
        json_wf(value@),
        old(refs)@ == refs_of(old(store)@),
    ensures
        final(store)@ == old(store)@.insert(name@, value@),
        final(refs)@ == refs_of(final(store)@),
{
    let summary = extract_summary(value);
    let reference = VarRef { summary, var_ref: name.clone() };
    refs.insert(name.clone(), reference);
    store.insert(name, value.clone());
    proof {
        lemma_refs_of_insert(old(store)@, name@, value@);
    }
}

/// Assigns a `$VAR` name to every field of `input`, and to every element
/// of an array field, in the order of the fields.
///
/// Returns the new store entries and, for each of them, the reference
/// entry holding its summary.
pub fn assign_refs(prefix: &str, input: &Vec<(String, JsonValue)>) -> (r: (VarStore, NameMap<VarRef>))
    requires
        object_wf(entries_view(input@)),
    ensures
        r.0@ == assigned(prefix@, entries_view(input@)),
        r.1@ == refs_of(r.0@),
{
    let mut store: VarStore = NameMap::new();
    let mut refs: NameMap<VarRef> = NameMap::new();
    let ghost fields = entries_view(input@);
    proof {
        lemma_entries_view(input@);
        lemma_members_wf(fields);
        assert(refs_of(store@) =~= refs@);
    }
    let n = input.len();
    let mut i: usize = 0;
    while i < n
        invariant
            n == input@.len(),
            fields == entries_view(input@),
            fields.len() == n,
            forall|j: int| 0 <= j < n ==> #[trigger] fields[j] == (input@[j].0@, input@[j].1@),
            forall|j: int| 0 <= j < n ==> json_wf(#[trigger] fields[j].1),
            i <= n,
            store@ == assigned(prefix@, fields.take(i as int)),
            refs@ == refs_of(store@),
        decreases n - i,
    {
        let field = &input[i].0;
        let value = &input[i].1;
        let ghost before = store@;
        proof {
            assert(fields.take(i + 1).drop_last() == fields.take(i as int));
            assert(fields.take(i + 1).last() == fields[i as int]);
        }
        match value {
            JsonValue::Array(items) => {
                let ghost its = items_view(items@);
                proof {
                    lemma_items_view(items@);
                    assert(json_wf(fields[i as int].1));
                    assert(value@ == Json::Array(its));
                    lemma_items_wf(its);
                    assert(item_entries(prefix@, field@, its.take(0)) =~= Map::empty());
                    assert(store@ =~= before.union_prefer_right(item_entries(prefix@, field@, its.take(0))));
                }
                let m = items.len();
                let mut j: usize = 0;
                while j < m
                    invariant
                        m == items@.len(),
                        its == items_view(items@),
                        its.len() == m,
                        forall|t: int| 0 <= t < m ==> #[trigger] its[t] == items@[t]@,
                        forall|t: int| 0 <= t < m ==> json_wf(#[trigger] its[t]),
                        j <= m,
                        store@ == before.union_prefer_right(item_entries(prefix@, field@, its.take(j as int))),
                        refs@ == refs_of(store@),
                    decreases m - j,
                {
                    let name = array_var_name(prefix, field.as_str(), j + 1);
                    assert(json_wf(its[j as int]));
                    record(&mut store, &mut refs, name, &items[j]);
                    proof {
                        let t = its.take(j + 1);
                        assert(t.drop_last() == its.take(j as int));
                        assert(t.last() == its[j as int]);
                        assert(store@ =~= before.union_prefer_right(item_entries(prefix@, field@, t)));
                    }
                    j += 1;
                }
                proof {
                    assert(its.take(m as int) == its);
                    assert(value@ == Json::Array(its));
                }
            },
            _ => {
                let name = scalar_var_name(prefix, field.as_str());
                assert(json_wf(fields[i as int].1));
                record(&mut store, &mut refs, name, value);
                proof {
                    assert(!(value@ is Array));
                    assert(store@ =~= before.union_prefer_right(field_entries(prefix@, field@, value@)));
                }
            },
        }
        i += 1;
    }
    assert(fields.take(n as int) == fields);
    (store, refs)
}

/// Assigns references to the fields of `input` and merges the new entries
/// into `var_store`, a new entry replacing an old one of the same name.
///
/// Returns the reference entries of the new names with `store_path`, the
/// place the caller keeps the store.
pub fn store(prefix: &str, input: &Vec<(String, JsonValue)>, var_store: &mut VarStore, store_path: PathBuf) -> (out: StoreOutput)
    requires
        object_wf(entries_view(input@)),
    ensures
        final(var_store)@ == old(var_store)@.union_prefer_right(assigned(prefix@, entries_view(input@))),
        out.refs@ == refs_of(assigned(prefix@, entries_view(input@))),
        out.store_path == store_path,
{
    let (new_entries, refs) = assign_refs(prefix, input);
    var_store.extend(new_entries);
    StoreOutput { refs, store_path }
}


/// Every element of an array field is stored, element `j` (counting from 1)
/// under `$PREFIX_ABBREV_j`, and nothing else is: an array of `n` elements
/// gives exactly `n` entries.
pub proof fn array_elements_stored(prefix: Seq<char>, field: Seq<char>, items: Seq<Json>)
    ensures
        item_entries(prefix, field, items).dom().finite(),
        item_entries(prefix, field, items).len() == items.len(),
        forall|j: nat|
            1 <= j <= items.len() ==> item_entries(prefix, field, items).contains_key(
                #[trigger] array_name(prefix, field, j),
            ) && item_entries(prefix, field, items)[array_name(prefix, field, j)] == items[j - 1],
        forall|k: Seq<char>|
            #[trigger] item_entries(prefix, field, items).contains_key(k) ==> exists|j: nat|
                1 <= j <= items.len() && k == #[trigger] array_name(prefix, field, j),
    decreases items.len(),
{
    if items.len() > 0 {
        let t = items.drop_last();
        let n = items.len();
        let last_name = array_name(prefix, field, n);
        array_elements_stored(prefix, field, t);
        if item_entries(prefix, field, t).contains_key(last_name) {
            let j = choose|j: nat| 1 <= j <= t.len() && last_name == #[trigger] array_name(prefix, field, j);
            array_names_distinct(prefix, field, n, j);
        }
        assert forall|j: nat|
            1 <= j <= items.len() implies item_entries(prefix, field, items).contains_key(
                #[trigger] array_name(prefix, field, j),
            ) && item_entries(prefix, field, items)[array_name(prefix, field, j)] == items[j - 1] by {
            if j < n {
                array_names_distinct(prefix, field, n, j);
                assert(t[j - 1] == items[j - 1]);
                assert(item_entries(prefix, field, t).contains_key(array_name(prefix, field, j)));
            }
        }
        assert forall|k: Seq<char>|
            #[trigger] item_entries(prefix, field, items).contains_key(k) implies exists|j: nat|
                1 <= j <= items.len() && k == #[trigger] array_name(prefix, field, j) by {
            if k != last_name {
                assert(item_entries(prefix, field, t).contains_key(k));
            }
        }
    }
}

/// Every name that a store assigns is a `$VAR` reference: it begins with `$`.
pub proof fn assigned_names_are_references(prefix: Seq<char>, fields: Seq<(Seq<char>, Json)>)
    ensures
        forall|k: Seq<char>| #[trigger] assigned(prefix, fields).contains_key(k) ==> k.len() > 0 && k[0] == '$',
    decreases fields.len(),
{
    if fields.len() > 0 {
        assigned_names_are_references(prefix, fields.drop_last());
        let (f, v) = fields.last();
        assert forall|k: Seq<char>| #[trigger] field_entries(prefix, f, v).contains_key(k) implies k.len() > 0 && k[0] == '$' by {
            match v {
                Json::Array(items) => {
                    array_elements_stored(prefix, f, items);
                    let j = choose|j: nat| 1 <= j <= items.len() && k == #[trigger] array_name(prefix, f, j);
                    assert(array_name(prefix, f, j)[0] == '$');
                },
                _ => {
                    assert(k == scalar_name(prefix, f));
                    assert(scalar_name(prefix, f)[0] == '$');
                },
            }
        }
        assert(f == fields.last().0 && v == fields.last().1);
        assert forall|k: Seq<char>| #[trigger] assigned(prefix, fields).contains_key(k) implies k.len() > 0 && k[0] == '$' by {
            if !field_entries(prefix, f, v).contains_key(k) {
                assert(assigned(prefix, fields.drop_last()).contains_key(k));
            }
        }
    }
}


/// In an object whose keys ascend, looking a key up finds the one member
/// with that key, and finds nothing when no member has it.
pub proof fn lookup_in_ordered_object(members: Seq<(Seq<char>, Json)>, key: Seq<char>)
    requires
        keys_ascending(members),
    ensures
        forall|i: int| 0 <= i < members.len() && #[trigger] members[i].0 == key ==> lookup(members, key) == Some(members[i].1),
        (forall|i: int| 0 <= i < members.len() ==> #[trigger] members[i].0 != key) ==> lookup(members, key) is None,
    decreases members.len(),
{
    if members.len() > 0 {
        let rest = members.drop_first();
        assert(keys_ascending(rest)) by {
            assert forall|i: int| 0 <= i < rest.len() - 1 implies key_less(#[trigger] rest[i].0, rest[i + 1].0) by {
                assert(rest[i] == members[i + 1] && rest[i + 1] == members[i + 2]);
            }
        }
        lookup_in_ordered_object(rest, key);
        assert forall|i: int| 0 <= i < members.len() && #[trigger] members[i].0 == key implies lookup(members, key) == Some(members[i].1) by {
            if i > 0 {
                lemma_keys_ascending(members, 0, i);
                if members[0].0 == key {
                    lemma_key_less_irreflexive(key);
                }
                assert(rest[i - 1] == members[i]);
            }
        }
        if forall|i: int| 0 <= i < members.len() ==> #[trigger] members[i].0 != key {
            assert forall|i: int| 0 <= i < rest.len() implies #[trigger] rest[i].0 != key by {
                assert(rest[i] == members[i + 1]);
            }
        }
    }
}

/// In an object whose keys ascend, the first string member is the string
/// member with the least key.
pub proof fn first_string_has_least_key(members: Seq<(Seq<char>, Json)>)
    requires
        keys_ascending(members),
    ensures
        first_string(members) matches Some(s) ==> exists|i: int|
            0 <= i < members.len() && #[trigger] members[i].1 == Json::String(s) && forall|j: int|
                0 <= j < members.len() && j != i && (#[trigger] members[j].1 is String) ==> key_less(members[i].0, members[j].0),
        first_string(members) is None ==> forall|j: int| 0 <= j < members.len() ==> !(#[trigger] members[j].1 is String),
    decreases members.len(),
{
    if members.len() > 0 {
        let rest = members.drop_first();
        assert(keys_ascending(rest)) by {
            assert forall|i: int| 0 <= i < rest.len() - 1 implies key_less(#[trigger] rest[i].0, rest[i + 1].0) by {
                assert(rest[i] == members[i + 1] && rest[i + 1] == members[i + 2]);
            }
        }
        first_string_has_least_key(rest);
        match members[0].1 {
            Json::String(s) => {
                assert forall|j: int|
                    0 <= j < members.len() && j != 0 && (#[trigger] members[j].1 is String) implies key_less(members[0].0, members[j].0) by {
                    lemma_keys_ascending(members, 0, j);
                }
            },
            _ => {
                if let Some(s) = first_string(rest) {
                    let i = choose|i: int|
                        0 <= i < rest.len() && #[trigger] rest[i].1 == Json::String(s) && forall|j: int|
                            0 <= j < rest.len() && j != i && (#[trigger] rest[j].1 is String) ==> key_less(rest[i].0, rest[j].0);
                    assert(members[i + 1] == rest[i]);
                    assert forall|j: int|
                        0 <= j < members.len() && j != i + 1 && (#[trigger] members[j].1 is String) implies key_less(members[i + 1].0, members[j].0) by {
                        assert(j != 0);
                        assert(rest[j - 1] == members[j]);
                    }
                } else {
                    assert forall|j: int| 0 <= j < members.len() implies !(#[trigger] members[j].1 is String) by {
                        if j > 0 {
                            assert(rest[j - 1] == members[j]);
                        }
                    }
                }
            },
        }
    }
}


/// How many entries the fields give when no two names collide: one per
/// element of an array field, one per other field.
pub open spec fn entry_count(fields: Seq<(Seq<char>, Json)>) -> nat
    decreases fields.len(),
{
    if fields.len() == 0 {
        0
    } else {
        entry_count(fields.drop_last()) + match fields.last().1 {
            Json::Array(items) => items.len(),
            _ => 1,
        }
    }
}

/// No two fields are given the same name.
pub open spec fn names_disjoint(prefix: Seq<char>, fields: Seq<(Seq<char>, Json)>) -> bool {
    forall|i: int, j: int|
        0 <= i < j < fields.len() ==> (#[trigger] field_entries(prefix, fields[i].0, fields[i].1)).dom().disjoint(
            (#[trigger] field_entries(prefix, fields[j].0, fields[j].1)).dom(),
        )
}

proof fn lemma_field_entries_len(prefix: Seq<char>, field: Seq<char>, value: Json)
    ensures
        field_entries(prefix, field, value).dom().finite(),
        field_entries(prefix, field, value).len() == match value {
            Json::Array(items) => items.len(),
            _ => 1,
        },
{
    match value {
        Json::Array(items) => {
            array_elements_stored(prefix, field, items);
        },
        _ => {
            let m = field_entries(prefix, field, value);
            assert(m.dom() =~= set![scalar_name(prefix, field)]);
        },
    }
}

proof fn lemma_assigned_source(prefix: Seq<char>, fields: Seq<(Seq<char>, Json)>, k: Seq<char>)
    requires
        assigned(prefix, fields).contains_key(k),
    ensures
        exists|j: int| 0 <= j < fields.len() && (#[trigger] field_entries(prefix, fields[j].0, fields[j].1)).contains_key(k),
    decreases fields.len(),
{
    let n = fields.len();
    if field_entries(prefix, fields[n - 1].0, fields[n - 1].1).contains_key(k) {
    } else {
        lemma_assigned_source(prefix, fields.drop_last(), k);
        let j = choose|j: int| 0 <= j < fields.drop_last().len() && (#[trigger] field_entries(prefix, fields.drop_last()[j].0, fields.drop_last()[j].1)).contains_key(k);
        assert(fields.drop_last()[j] == fields[j]);
    }
}

/// When no two fields are given the same name, a store of the fields
/// assigns exactly one entry per scalar field plus one per array element.
pub proof fn assigned_count(prefix: Seq<char>, fields: Seq<(Seq<char>, Json)>)
    requires
        names_disjoint(prefix, fields),
    ensures
        assigned(prefix, fields).dom().finite(),
        assigned(prefix, fields).len() == entry_count(fields),
    decreases fields.len(),
{
    if fields.len() > 0 {
        let n = fields.len();
        let init = fields.drop_last();
        assert(names_disjoint(prefix, init)) by {
            assert forall|i: int, j: int|
                0 <= i < j < init.len() implies (#[trigger] field_entries(prefix, init[i].0, init[i].1)).dom().disjoint(
                    (#[trigger] field_entries(prefix, init[j].0, init[j].1)).dom(),
                ) by {
                assert(init[i] == fields[i] && init[j] == fields[j]);
            }
        }
        assigned_count(prefix, init);
        let a = assigned(prefix, init);
        let last = field_entries(prefix, fields.last().0, fields.last().1);
        lemma_field_entries_len(prefix, fields.last().0, fields.last().1);
        assert(a.dom().disjoint(last.dom())) by {
            assert forall|k: Seq<char>| a.dom().contains(k) implies !last.dom().contains(k) by {
                lemma_assigned_source(prefix, init, k);
                let j = choose|j: int| 0 <= j < init.len() && (#[trigger] field_entries(prefix, init[j].0, init[j].1)).contains_key(k);
                assert(init[j] == fields[j]);
                assert(fields.last() == fields[n - 1]);
                assert(field_entries(prefix, fields[j].0, fields[j].1).dom().disjoint(
                    field_entries(prefix, fields[n - 1].0, fields[n - 1].1).dom(),
                ));
            }
        }
        assert(assigned(prefix, fields).dom() =~= a.dom() + last.dom());
        vstd::set_lib::lemma_set_disjoint_lens(a.dom(), last.dom());
    }
}


/// The summary of a string value is that string, unchanged, whatever its
/// length.
pub proof fn summary_of_string_is_itself(s: Seq<char>)
    ensures
        summary_of(Json::String(s)) == s,
{
}

/// The summary of a value that is neither a string nor an object is its
/// compact JSON text.
pub proof fn summary_of_other_value_is_its_text(v: Json)
    requires
        !(v is String),
        !(v is Object),
    ensures
        summary_of(v) == json_text(v),
{
}

/// An object with a `summary` member that is a string is summarised by that
/// string, whatever its other members.
pub proof fn summary_member_wins(members: Seq<(Seq<char>, Json)>, i: int, s: Seq<char>)
    requires
        keys_ascending(members),
        0 <= i < members.len(),
        members[i].0 == "summary"@,
        members[i].1 == Json::String(s),
    ensures
        summary_of(Json::Object(members)) == s,
{
    lookup_in_ordered_object(members, "summary"@);
    reveal_with_fuel(preferred_string, 2);
    assert(summary_keys()[0] == "summary"@);
    assert(string_member(members, "summary"@) == Some(s));
}

/// An object with no `summary`, `description`, `text` or `value` string
/// member and some string member is summarised by the string member with
/// the least key.
pub proof fn least_string_member_otherwise(members: Seq<(Seq<char>, Json)>, i: int, s: Seq<char>)
    requires
        keys_ascending(members),
        0 <= i < members.len(),
        members[i].1 == Json::String(s),
        forall|j: int| 0 <= j < members.len() && j != i && (#[trigger] members[j].1 is String) ==> key_less(members[i].0, members[j].0),
        forall|j: int|
            0 <= j < members.len() && (#[trigger] members[j].1 is String) ==> members[j].0 != "summary"@ && members[j].0 != "description"@
                && members[j].0 != "text"@ && members[j].0 != "value"@,
    ensures
        summary_of(Json::Object(members)) == s,
{
    reveal_with_fuel(preferred_string, 5);
    let keys = summary_keys();
    assert(keys[0] == "summary"@ && keys[1] == "description"@ && keys[2] == "text"@ && keys[3] == "value"@);
    assert(keys.drop_first().drop_first().drop_first().drop_first().len() == 0);
    assert forall|t: int| 0 <= t < 4 implies string_member(members, #[trigger] keys[t]) is None by {
        lookup_in_ordered_object(members, keys[t]);
        if let Some(v) = lookup(members, keys[t]) {
            if v is String {
                let j = choose|j: int| 0 <= j < members.len() && #[trigger] members[j].0 == keys[t];
                assert(members[j].1 == v);
            }
        }
    }
    assert(string_member(members, keys[0]) is None);
    assert(string_member(members, keys[1]) is None);
    assert(string_member(members, keys[2]) is None);
    assert(string_member(members, keys[3]) is None);
    first_string_has_least_key(members);
    match first_string(members) {
        Some(t) => {
            let k = choose|k: int|
                0 <= k < members.len() && #[trigger] members[k].1 == Json::String(t) && forall|j: int|
                    0 <= j < members.len() && j != k && (#[trigger] members[j].1 is String) ==> key_less(members[k].0, members[j].0);
            if k != i {
                assert(key_less(members[i].0, members[k].0));
                assert(key_less(members[k].0, members[i].0));
                lemma_key_less_transitive(members[i].0, members[k].0, members[i].0);
                lemma_key_less_irreflexive(members[i].0);
            }
        },
        None => {
            assert(!(members[i].1 is String));
        },
    }
}


/// Each reference entry names itself and carries the summary of the value
/// stored under its name; there is one per stored name.
pub proof fn each_ref_names_itself(entries: Map<Seq<char>, Json>, k: Seq<char>)
    ensures
        refs_of(entries).contains_key(k) == entries.contains_key(k),
        entries.contains_key(k) ==> refs_of(entries)[k].var_ref == k && refs_of(entries)[k].summary == summary_of(entries[k]),
{
}

/// When two fields give the same name, the later field's value is the one
/// stored: a name that field `j` gives and no later field gives holds field
/// `j`'s value for it.
pub proof fn later_field_wins(prefix: Seq<char>, fields: Seq<(Seq<char>, Json)>, j: int, k: Seq<char>)
    requires
        0 <= j < fields.len(),
        field_entries(prefix, fields[j].0, fields[j].1).contains_key(k),
        forall|l: int| j < l < fields.len() ==> !(#[trigger] field_entries(prefix, fields[l].0, fields[l].1)).contains_key(k),
    ensures
        assigned(prefix, fields).contains_key(k),
        assigned(prefix, fields)[k] == field_entries(prefix, fields[j].0, fields[j].1)[k],
    decreases fields.len(),
{
    let n = fields.len();
    if j < n - 1 {
        let init = fields.drop_last();
        assert(init[j] == fields[j]);
        assert forall|l: int| j < l < init.len() implies !(#[trigger] field_entries(prefix, init[l].0, init[l].1)).contains_key(k) by {
            assert(init[l] == fields[l]);
        }
        later_field_wins(prefix, init, j, k);
        assert(fields.last() == fields[n - 1]);
        assert(!field_entries(prefix, fields[n - 1].0, fields[n - 1].1).contains_key(k));
    } else {
        assert(fields.last() == fields[j]);
    }
}

/// The preference among member names: an object is summarised by its
/// string member under the first of `summary`, `description`, `text`,
/// `value` that it has as a string member.
pub proof fn preferred_member_wins(members: Seq<(Seq<char>, Json)>, rank: int, i: int, s: Seq<char>)
    requires
        keys_ascending(members),
        0 <= rank < 4,
        0 <= i < members.len(),
        members[i].0 == (if rank == 0 {
            "summary"@
        } else if rank == 1 {
            "description"@
        } else if rank == 2 {
            "text"@
        } else {
            "value"@
        }),
        members[i].1 == Json::String(s),
        forall|j: int|
            0 <= j < members.len() && (#[trigger] members[j].1 is String) ==> {
                &&& rank > 0 ==> members[j].0 != "summary"@
                &&& rank > 1 ==> members[j].0 != "description"@
                &&& rank > 2 ==> members[j].0 != "text"@
            },
    ensures
        summary_of(Json::Object(members)) == s,
{
    let order = seq!["summary"@, "description"@, "text"@, "value"@];
    let keys = summary_keys();
    assert(keys == order);
    reveal_with_fuel(preferred_string, 5);
    assert forall|r: int| 0 <= r < rank implies string_member(members, #[trigger] keys[r]) is None by {
        lookup_in_ordered_object(members, keys[r]);
        if let Some(v) = lookup(members, keys[r]) {
            if v is String {
                let j = choose|j: int| 0 <= j < members.len() && #[trigger] members[j].0 == keys[r];
                assert(members[j].1 == v);
                assert(order[r] == (if r == 0 {
                    "summary"@
                } else if r == 1 {
                    "description"@
                } else {
                    "text"@
                }));
            }
        }
    }
    lookup_in_ordered_object(members, keys[rank]);
    assert(keys[rank] == members[i].0);
    assert(string_member(members, keys[rank]) == Some(s));
    assert(keys.drop_first() == seq!["description"@, "text"@, "value"@]);
    assert(keys.drop_first().drop_first() == seq!["text"@, "value"@]);
    assert(keys.drop_first().drop_first().drop_first() == seq!["value"@]);
    if rank >= 1 {
        assert(string_member(members, keys[0]) is None);
    }
    if rank >= 2 {
        assert(string_member(members, keys[1]) is None);
    }
    if rank >= 3 {
        assert(string_member(members, keys[2]) is None);
    }
}

} // verus!
