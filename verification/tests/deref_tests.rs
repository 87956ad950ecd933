use serde_json::Value;
use symref::deref::{build_var_map, LenientVarMap};
use symref::json::JsonValue;
use symref::store::assign_refs;
use symref::table::NameMap;
use symref::types::VarStore;

/// Lets `subst` look names up in a library variable map.
struct Vars<'m>(&'m LenientVarMap);

impl<'a, 'm> subst::VariableMap<'a> for Vars<'m> {
    type Value = String;

    fn get(&'a self, key: &str) -> Option<String> {
        self.0.get(key)
    }
}

fn model(v: &Value) -> JsonValue {
    match v {
        Value::Null => JsonValue::Null,
        Value::Bool(b) => JsonValue::Bool(*b),
        Value::Number(n) => JsonValue::Number(n.to_string()),
        Value::String(s) => JsonValue::String(s.clone()),
        Value::Array(items) => JsonValue::Array(items.iter().map(model).collect()),
        Value::Object(m) => {
            JsonValue::Object(m.iter().map(|(k, v)| (k.clone(), model(v))).collect())
        }
    }
}

fn value(text: &str) -> JsonValue {
    model(&serde_json::from_str::<Value>(text).unwrap())
}

fn fields(text: &str) -> Vec<(String, JsonValue)> {
    match value(text) {
        JsonValue::Object(m) => m,
        _ => panic!("not an object"),
    }
}

fn store_of(pairs: &[(&str, &str)]) -> VarStore {
    let mut store: VarStore = NameMap::new();
    for (k, v) in pairs {
        store.insert(k.to_string(), value(v));
    }
    store
}

/// Stores `input` under `prefix` into `store` and returns its variable map.
fn stored(prefix: &str, input: &str) -> LenientVarMap {
    let mut store: VarStore = NameMap::new();
    symref::store::store(prefix, &fields(input), &mut store, "vars.json".into());
    build_var_map(&store)
}

fn deref_json(map: &LenientVarMap, template: &str) -> Value {
    let mut v: Value = serde_json::from_str(template).unwrap();
    subst::json::substitute_string_values(&mut v, &Vars(map)).unwrap();
    v
}

#[test]
fn build_var_map_strips_dollar_prefix() {
    let map = build_var_map(&store_of(&[("$X7F_REQ_1", r#""OAuth2 login flow""#)]));
    assert_eq!(map.inner.get("X7F_REQ_1").unwrap(), "OAuth2 login flow");
}

#[test]
fn build_var_map_extracts_summary_from_object() {
    let map = build_var_map(&store_of(&[(
        "$X7F_REQ_1",
        r#"{"id": "REQ_1", "summary": "OAuth2 login flow", "priority": "high"}"#,
    )]));
    assert_eq!(map.inner.get("X7F_REQ_1").unwrap(), "OAuth2 login flow");
}

#[test]
fn build_var_map_number_value() {
    let map = build_var_map(&store_of(&[("$X_COUNT", "42")]));
    assert_eq!(map.inner.get("X_COUNT").unwrap(), "42");
}

#[test]
fn build_var_map_bool_value() {
    let map = build_var_map(&store_of(&[("$X_ACTIVE", "true")]));
    assert_eq!(map.inner.get("X_ACTIVE").unwrap(), "true");
}

#[test]
fn build_var_map_null_value() {
    let map = build_var_map(&store_of(&[("$X_NOTES", "null")]));
    assert_eq!(map.inner.get("X_NOTES").unwrap(), "null");
}

#[test]
fn build_var_map_key_without_dollar() {
    let map = build_var_map(&store_of(&[("NO_DOLLAR", r#""value""#)]));
    assert_eq!(map.inner.get("NO_DOLLAR").unwrap(), "value");
}

#[test]
fn lenient_var_map_returns_known_value() {
    let mut inner = NameMap::new();
    inner.insert("FOO".to_string(), "bar".to_string());
    let map = LenientVarMap { inner };
    assert_eq!(map.get("FOO").unwrap(), "bar");
}

#[test]
fn lenient_var_map_returns_dollar_ref_for_unknown() {
    let map = LenientVarMap { inner: NameMap::new() };
    assert_eq!(map.get("UNKNOWN").unwrap(), "$UNKNOWN");
}

#[test]
fn substitute_plain_text() {
    let map = build_var_map(&store_of(&[("$A_B_1", r#""hello""#)]));
    let result = subst::substitute("say $A_B_1 world", &Vars(&map)).unwrap();
    assert_eq!(result, "say hello world");
}

#[test]
fn substitute_braces_syntax() {
    let map = build_var_map(&store_of(&[("$A_B_1", r#""hello""#)]));
    let result = subst::substitute("say ${A_B_1} world", &Vars(&map)).unwrap();
    assert_eq!(result, "say hello world");
}

#[test]
fn substitute_no_recursion() {
    let map = build_var_map(&store_of(&[
        ("$X_A_1", r#""see $X_B_1""#),
        ("$X_B_1", r#""deep""#),
    ]));
    let result = subst::substitute("val=$X_A_1", &Vars(&map)).unwrap();
    assert_eq!(result, "val=see $X_B_1");
}

#[test]
fn substitute_multiple_vars_in_one_string() {
    let map = build_var_map(&store_of(&[
        ("$P_A_1", r#""alpha""#),
        ("$P_A_2", r#""beta""#),
        ("$P_A_3", r#""gamma""#),
    ]));
    let result = subst::substitute("$P_A_1 $P_A_2 $P_A_3", &Vars(&map)).unwrap();
    assert_eq!(result, "alpha beta gamma");
}

#[test]
fn substitute_adjacent_vars() {
    let map = build_var_map(&store_of(&[("$P_A_1", r#""ab""#), ("$P_A_2", r#""cd""#)]));
    let result = subst::substitute("${P_A_1}${P_A_2}", &Vars(&map)).unwrap();
    assert_eq!(result, "abcd");
}

#[test]
fn substitute_var_at_start_and_end() {
    let map = build_var_map(&store_of(&[("$V_S_1", r#""start""#), ("$V_E_1", r#""end""#)]));
    let result = subst::substitute("$V_S_1 middle $V_E_1", &Vars(&map)).unwrap();
    assert_eq!(result, "start middle end");
}

#[test]
fn substitute_empty_input() {
    let map = build_var_map(&NameMap::new());
    let result = subst::substitute("", &Vars(&map)).unwrap();
    assert_eq!(result, "");
}

#[test]
fn substitute_no_vars_in_input() {
    let map = build_var_map(&NameMap::new());
    let result = subst::substitute("no variables here", &Vars(&map)).unwrap();
    assert_eq!(result, "no variables here");
}

#[test]
fn json_substitute_nested_structure() {
    let map = build_var_map(&store_of(&[("$X_A_1", r#""resolved""#)]));
    let value = deref_json(&map, r#"{"outer": {"inner": "$X_A_1"}, "list": ["$X_A_1", "literal"]}"#);
    assert_eq!(value["outer"]["inner"], "resolved");
    assert_eq!(value["list"][0], "resolved");
    assert_eq!(value["list"][1], "literal");
}

#[test]
fn json_substitute_preserves_non_string_values() {
    let map = build_var_map(&store_of(&[("$X_A_1", r#""val""#)]));
    let value = deref_json(
        &map,
        r#"{"name": "$X_A_1", "count": 42, "active": true, "nothing": null}"#,
    );
    assert_eq!(value["name"], "val");
    assert_eq!(value["count"], 42);
    assert_eq!(value["active"], true);
    assert!(value["nothing"].is_null());
}

// Store then deref through the library.

#[test]
fn roundtrip_json_substitution() {
    let map = stored(
        "X7F",
        r#"{
            "requirements": [
                {"id": "REQ_1", "summary": "OAuth2 login flow", "priority": "high"},
                {"id": "REQ_2", "summary": "Session persistence", "priority": "medium"}
            ],
            "acceptance_criteria": [
                {"id": "AC_1", "description": "Users can authenticate via OAuth2"}
            ]
        }"#,
    );
    let result = deref_json(
        &map,
        r###"{
            "summary": "Implement OAuth2 login",
            "description": "## Acceptance Criteria\n- $X7F_AC_1\n\n## Requirements\n- $X7F_REQ_1"
        }"###,
    );
    assert_eq!(result["summary"], "Implement OAuth2 login");
    let desc = result["description"].as_str().unwrap();
    assert!(desc.contains("Users can authenticate via OAuth2"), "{}", desc);
    assert!(desc.contains("OAuth2 login flow"), "{}", desc);
}

#[test]
fn deref_multiple_vars_in_one_json_string() {
    let map = stored("TC", r#"{"requirements": [{"summary": "first"}, {"summary": "second"}]}"#);
    let result = deref_json(&map, r#"{"combined": "$TC_REQ_1 and $TC_REQ_2"}"#);
    assert_eq!(result["combined"], "first and second");
}

#[test]
fn deref_json_nested_structure() {
    let map = stored("D", r#"{"items": [{"summary": "nested-val"}]}"#);
    let result = deref_json(&map, r#"{"outer": {"inner": {"deep": "$D_ITE_1"}}}"#);
    assert_eq!(result["outer"]["inner"]["deep"], "nested-val");
}

#[test]
fn deref_json_array_values() {
    let map = stored("A", r#"{"items": [{"summary": "alpha"}, {"summary": "beta"}]}"#);
    let result = deref_json(&map, r#"{"list": ["$A_ITE_1", "$A_ITE_2", "literal"]}"#);
    assert_eq!(result["list"][0], "alpha");
    assert_eq!(result["list"][1], "beta");
    assert_eq!(result["list"][2], "literal");
}

#[test]
fn deref_preserves_non_string_json_values() {
    let map = stored("P", r#"{"items": [{"summary": "val"}]}"#);
    let result = deref_json(
        &map,
        r#"{"name": "$P_ITE_1", "count": 42, "active": true, "data": null}"#,
    );
    assert_eq!(result["name"], "val");
    assert_eq!(result["count"], 42);
    assert_eq!(result["active"], true);
    assert!(result["data"].is_null());
}

#[test]
fn deref_unresolved_var_in_json() {
    let map = stored("J", r#"{"items": [{"summary": "known"}]}"#);
    let result = deref_json(&map, r#"{"a": "$J_ITE_1", "b": "$MISSING_VAR"}"#);
    assert_eq!(result["a"], "known");
    assert_eq!(result["b"], "$MISSING_VAR");
}

// Further cases.

#[test]
fn unresolved_reference_in_text_is_kept() {
    let map = stored("K", r#"{"items": [{"summary": "known"}]}"#);
    let result = subst::substitute("known=$K_ITE_1 unknown=$NOPE", &Vars(&map)).unwrap();
    assert_eq!(result, "known=known unknown=$NOPE");
}

#[test]
fn unresolved_reference_with_default_is_kept() {
    // every name resolves, so a default value is never used
    let map = build_var_map(&NameMap::new());
    let result = subst::substitute("${NOPE:fallback}", &Vars(&map)).unwrap();
    assert_eq!(result, "$NOPE");
}

#[test]
fn each_stored_reference_resolves_to_its_summary() {
    let input = fields(r#"{"steps": [{"summary": "one"}, {"text": "two"}, "three"], "goal": {"value": "g"}}"#);
    let (store, refs) = assign_refs("R", &input);
    let map = build_var_map(&store);
    for (name, r) in refs.entries() {
        let key = name.strip_prefix('$').unwrap();
        assert_eq!(map.get(key).unwrap(), r.summary);
        assert_eq!(&r.var_ref, name);
    }
    assert_eq!(refs.len(), 4);
}

#[test]
fn names_with_and_without_dollar_collide() {
    // both keys strip to "X"; the variable map holds one of their summaries
    let map = build_var_map(&store_of(&[("$X", r#""with""#), ("X", r#""without""#)]));
    assert_eq!(map.inner.len(), 1);
    let v = map.inner.get("X").unwrap();
    assert!(v == "with" || v == "without");
}

#[test]
fn multiple_prefixes_coexist() {
    let mut store: VarStore = NameMap::new();
    symref::store::store("A", &fields(r#"{"items": [{"summary": "from A"}]}"#), &mut store, "v".into());
    symref::store::store("B", &fields(r#"{"items": [{"summary": "from B"}]}"#), &mut store, "v".into());
    let map = build_var_map(&store);
    let result = subst::substitute("A=$A_ITE_1 B=$B_ITE_1", &Vars(&map)).unwrap();
    assert_eq!(result, "A=from A B=from B");
}
