//! Resolving `$VAR` references against the variable store.

use vstd::prelude::*;
use crate::json::{is_well_formed, json_wf, Json, JsonValue};
use crate::store::{assigned, extract_summary, refs_of, summary_of};
use crate::table::{keys_distinct, lemma_map_of_contains, lemma_map_of_index, map_of, NameMap};
use crate::types::VarStore;

verus! {

/// A store name without its leading `$`, if it has one.
pub open spec fn strip_dollar(k: Seq<char>) -> Seq<char> {
    if k.len() > 0 && k[0] == '$' {
        k.drop_first()
    } else {
        k
    }
}

/// `vars` is a variable map of `store`: its names are the store names
/// without `$`, and each holds the summary of a store value whose name
/// strips to it.
pub open spec fn is_var_map_of(store: Map<Seq<char>, Json>, vars: Map<Seq<char>, Seq<char>>) -> bool {
    &&& forall|n: Seq<char>| #[trigger] vars.contains_key(n) <==> exists|k: Seq<char>| #[trigger] store.contains_key(k) && strip_dollar(k) == n
    &&& forall|n: Seq<char>| #[trigger] vars.contains_key(n) ==> exists|k: Seq<char>| #[trigger] store.contains_key(k) && strip_dollar(k) == n && vars[n] == summary_of(store[k])
}

/// What a reference to `key` resolves to: the value of `key` in `vars`, or
/// the reference `$key` itself when `vars` has no such name.
pub open spec fn resolve(vars: Map<Seq<char>, Seq<char>>, key: Seq<char>) -> Seq<char> {
    if vars.contains_key(key) {
        vars[key]
    } else {
        seq!['$'] + key
    }
}

/// A variable map that answers every name: a name it lacks resolves to
/// the reference `$NAME` itself, so an unresolved reference stays as it is.
pub struct LenientVarMap {
    pub inner: NameMap<String>,
}

impl LenientVarMap {
    /// The value for `key`: its stored summary, or `$key` when it has none.
    pub fn get(&self, key: &str) -> (r: Option<String>)
        ensures
            r matches Some(s) && s@ == resolve(self.inner@, key@),
    {
        match self.inner.get(key) {
            Some(v) => Some(v.clone()),
            None => {
                let mut s = String::from_str("$");
                proof {
                    reveal_strlit("$");
                }
                s.append(key);
                Some(s)
            },
        }
    }
}

/// `k` without a leading `$`.
fn strip_dollar_of(k: &String) -> (r: String)
    ensures
        r@ == strip_dollar(k@),
{
    let s = k.as_str();
    let n = s.unicode_len();
    if n > 0 && s.get_char(0) == '$' {
        String::from_str(s.substring_char(1, n))
    } else {
        k.clone()
    }
}

/// Builds the variable map of a store: names lose their leading `$` and
/// values become their summaries.
pub fn build_var_map(store: &VarStore) -> (r: LenientVarMap)
    requires
        forall|k: Seq<char>| #[trigger] store@.contains_key(k) ==> json_wf(store@[k]),
    ensures
        is_var_map_of(store@, r.inner@),
{
    let entries = store.entries();
    let ghost es = entries@;
    let mut inner: NameMap<String> = NameMap::new();
    let n = entries.len();
    let mut i: usize = 0;
    while i < n
        invariant
            n == es.len(),
            es == entries@,
            keys_distinct(es),
            map_of(es) == store@,
            forall|k: Seq<char>| #[trigger] store@.contains_key(k) ==> json_wf(store@[k]),
            i <= n,
            forall|m: Seq<char>| #[trigger] inner@.contains_key(m) <==> exists|j: int| 0 <= j < i && strip_dollar(#[trigger] es[j].0@) == m,
            forall|m: Seq<char>| #[trigger] inner@.contains_key(m) ==> exists|j: int| 0 <= j < i && strip_dollar(#[trigger] es[j].0@) == m && inner@[m] == summary_of(es[j].1@),
        decreases n - i,
    {
        let name = strip_dollar_of(&entries[i].0);
        proof {
            lemma_map_of_index(es, i as int);
            assert(json_wf(store@[es[i as int].0@]));
        }
        let summary = extract_summary(&entries[i].1);
        let ghost before = inner@;
        inner.insert(name, summary);
        proof {
            assert forall|m: Seq<char>| #[trigger] inner@.contains_key(m) <==> exists|j: int| 0 <= j < i + 1 && strip_dollar(#[trigger] es[j].0@) == m by {
                if inner@.contains_key(m) && m != strip_dollar(es[i as int].0@) {
                    assert(before.contains_key(m));
                }
            }
            assert forall|m: Seq<char>| #[trigger] inner@.contains_key(m) implies exists|j: int| 0 <= j < i + 1 && strip_dollar(#[trigger] es[j].0@) == m && inner@[m] == summary_of(es[j].1@) by {
                if m == strip_dollar(es[i as int].0@) {
                    assert(inner@[m] == summary_of(es[i as int].1@));
                } else {
                    assert(before.contains_key(m));
                }
            }
        }
        i += 1;
    }
    proof {
        assert forall|m: Seq<char>| #[trigger] inner@.contains_key(m) <==> exists|k: Seq<char>| #[trigger] store@.contains_key(k) && strip_dollar(k) == m by {
            if inner@.contains_key(m) {
                let j = choose|j: int| 0 <= j < n && strip_dollar(#[trigger] es[j].0@) == m;
                lemma_map_of_index(es, j);
            }
            if exists|k: Seq<char>| #[trigger] store@.contains_key(k) && strip_dollar(k) == m {
                let k = choose|k: Seq<char>| #[trigger] store@.contains_key(k) && strip_dollar(k) == m;
                lemma_map_of_contains(es, k);
                let j = choose|j: int| 0 <= j < es.len() && #[trigger] es[j].0@ == k;
                assert(strip_dollar(es[j].0@) == m);
            }
        }
        assert forall|m: Seq<char>| #[trigger] inner@.contains_key(m) implies exists|k: Seq<char>| #[trigger] store@.contains_key(k) && strip_dollar(k) == m && inner@[m] == summary_of(store@[k]) by {
            let j = choose|j: int| 0 <= j < n && strip_dollar(#[trigger] es[j].0@) == m && inner@[m] == summary_of(es[j].1@);
            lemma_map_of_index(es, j);
            let k = es[j].0@;
            assert(store@.contains_key(k) && strip_dollar(k) == m && inner@[m] == summary_of(store@[k]));
        }
    }
    LenientVarMap { inner }
}


/// A name that begins with `$` loses exactly that `$` and nothing else.
pub proof fn strip_dollar_drops_only_the_dollar(name: Seq<char>)
    ensures
        strip_dollar(seq!['$'] + name) == name,
        seq!['$'] + strip_dollar(seq!['$'] + name) == seq!['$'] + name,
{
    assert((seq!['$'] + name).drop_first() == name);
}

/// A name that does not begin with `$` is kept whole.
pub proof fn strip_dollar_keeps_other_names(name: Seq<char>)
    requires
        !(name.len() > 0 && name[0] == '$'),
    ensures
        strip_dollar(name) == name,
{
}

/// A value stored under `$NAME`, when no other store name is `NAME` once its
/// `$` is dropped, resolves under the full text `NAME` to its summary.
pub proof fn dollar_name_resolves_under_full_name(
    store: Map<Seq<char>, Json>,
    vars: Map<Seq<char>, Seq<char>>,
    name: Seq<char>,
)
    requires
        is_var_map_of(store, vars),
        store.contains_key(seq!['$'] + name),
        forall|k: Seq<char>| #[trigger] store.contains_key(k) && strip_dollar(k) == name ==> k == seq!['$'] + name,
    ensures
        resolve(vars, name) == summary_of(store[seq!['$'] + name]),
{
    strip_dollar_drops_only_the_dollar(name);
    let full = seq!['$'] + name;
    assert(store.contains_key(full) && strip_dollar(full) == name);
    assert(vars.contains_key(name));
    let k = choose|k: Seq<char>| #[trigger] store.contains_key(k) && strip_dollar(k) == name && vars[name] == summary_of(store[k]);
    assert(k == full);
}

/// Whether every value in the store is well formed.
pub fn values_well_formed(store: &VarStore) -> (r: bool)
    ensures
        r == forall|k: Seq<char>| #[trigger] store@.contains_key(k) ==> json_wf(store@[k]),
{
    let entries = store.entries();
    let ghost es = entries@;
    let n = entries.len();
    let mut i: usize = 0;
    while i < n
        invariant
            n == es.len(),
            es == entries@,
            keys_distinct(es),
            map_of(es) == store@,
            i <= n,
            forall|j: int| 0 <= j < i ==> json_wf(#[trigger] es[j].1@),
        decreases n - i,
    {
        if !is_well_formed(&entries[i].1) {
            proof {
                lemma_map_of_index(es, i as int);
            }
            return false;
        }
        i += 1;
    }
    proof {
        assert forall|k: Seq<char>| #[trigger] store@.contains_key(k) implies json_wf(store@[k]) by {
            lemma_map_of_contains(es, k);
            let j = choose|j: int| 0 <= j < es.len() && #[trigger] es[j].0@ == k;
            lemma_map_of_index(es, j);
        }
    }
    true
}

/// After a store, a reference to one of the names it assigned resolves, in
/// the variable map of the updated store, to the summary that the store
/// listed for that name, provided that no other name of the updated store
/// is the same once its leading `$` is dropped.
pub proof fn stored_reference_resolves(
    prefix: Seq<char>,
    fields: Seq<(Seq<char>, Json)>,
    existing: Map<Seq<char>, Json>,
    vars: Map<Seq<char>, Seq<char>>,
    name: Seq<char>,
)
    requires
        assigned(prefix, fields).contains_key(name),
        is_var_map_of(existing.union_prefer_right(assigned(prefix, fields)), vars),
        forall|k: Seq<char>|
            #[trigger] existing.union_prefer_right(assigned(prefix, fields)).contains_key(k) && strip_dollar(k)
                == strip_dollar(name) ==> k == name,
    ensures
        resolve(vars, strip_dollar(name)) == refs_of(assigned(prefix, fields))[name].summary,
{
    let merged = existing.union_prefer_right(assigned(prefix, fields));
    assert(merged.contains_key(name));
    assert(vars.contains_key(strip_dollar(name)));
    let k = choose|k: Seq<char>| #[trigger] merged.contains_key(k) && strip_dollar(k) == strip_dollar(name) && vars[strip_dollar(name)] == summary_of(merged[k]);
    assert(k == name);
}

/// A reference to a name that no store name gives once its `$` is dropped
/// is left as the reference `$key` itself.
pub proof fn unknown_reference_kept(store: Map<Seq<char>, Json>, vars: Map<Seq<char>, Seq<char>>, key: Seq<char>)
    requires
        is_var_map_of(store, vars),
        forall|k: Seq<char>| #[trigger] store.contains_key(k) ==> strip_dollar(k) != key,
    ensures
        resolve(vars, key) == seq!['$'] + key,
{
    if vars.contains_key(key) {
        let k = choose|k: Seq<char>| #[trigger] store.contains_key(k) && strip_dollar(k) == key;
        assert(strip_dollar(k) != key);
    }
}

} // verus!
