use std::path::PathBuf;

use serde_json::Value;
use symref::json::{is_well_formed, JsonValue};
use symref::naming::abbreviate_array_field;
use symref::store::{assign_refs, extract_summary, store};
use symref::table::NameMap;
use symref::types::VarStore;

fn model(v: &Value) -> JsonValue {
    match v {
        Value::Null => JsonValue::Null,
        Value::Bool(b) => JsonValue::Bool(*b),
        Value::Number(n) => JsonValue::Number(n.to_string()),
        Value::String(s) => JsonValue::String(s.clone()),
        Value::Array(items) => JsonValue::Array(items.iter().map(model).collect()),
        Value::Object(m) => {
            JsonValue::Object(m.iter().map(|(k, v)| (k.clone(), model(v))).collect())
        }
    }
}

fn value(text: &str) -> JsonValue {
    model(&serde_json::from_str::<Value>(text).unwrap())
}

fn fields(text: &str) -> Vec<(String, JsonValue)> {
    match value(text) {
        JsonValue::Object(m) => m,
        _ => panic!("not an object"),
    }
}

fn member<'a>(v: &'a JsonValue, key: &str) -> &'a JsonValue {
    match v {
        JsonValue::Object(m) => &m.iter().find(|(k, _)| k == key).unwrap().1,
        _ => panic!("not an object"),
    }
}

#[test]
fn extract_summary_from_string() {
    assert_eq!(extract_summary(&value(r#""hello""#)), "hello");
}

#[test]
fn extract_summary_prefers_summary_field() {
    let val = value(r#"{"id": "REQ_1", "summary": "OAuth2 login flow", "priority": "high"}"#);
    assert_eq!(extract_summary(&val), "OAuth2 login flow");
}

#[test]
fn extract_summary_falls_back_to_description() {
    let val = value(r#"{"id": "AC_1", "description": "Users can authenticate"}"#);
    assert_eq!(extract_summary(&val), "Users can authenticate");
}

#[test]
fn extract_summary_number() {
    assert_eq!(extract_summary(&value("42")), "42");
}

#[test]
fn assign_refs_array_field() {
    let input = fields(
        r#"{"requirements": [
            {"id": "REQ_1", "summary": "OAuth2 login flow"},
            {"id": "REQ_2", "summary": "Session persistence"}
        ]}"#,
    );
    let (store, refs) = assign_refs("X7F", &input);
    assert!(store.contains_key("$X7F_REQ_1"));
    assert!(store.contains_key("$X7F_REQ_2"));
    assert_eq!(refs.get("$X7F_REQ_1").unwrap().summary, "OAuth2 login flow");
    assert_eq!(refs.get("$X7F_REQ_2").unwrap().summary, "Session persistence");
    assert_eq!(refs.get("$X7F_REQ_1").unwrap().var_ref, "$X7F_REQ_1");
}

#[test]
fn assign_refs_scalar_field() {
    let input = fields(r#"{"background": "Implement user authentication"}"#);
    let (store, refs) = assign_refs("X7F", &input);
    assert!(store.contains_key("$X7F_BACKGROUND"));
    assert_eq!(
        refs.get("$X7F_BACKGROUND").unwrap().summary,
        "Implement user authentication"
    );
}

#[test]
fn assign_refs_multi_word_array_field() {
    let input = fields(
        r#"{"acceptance_criteria": [
            {"id": "AC_1", "description": "Users can authenticate via OAuth2"}
        ]}"#,
    );
    let (store, refs) = assign_refs("X7F", &input);
    assert!(store.contains_key("$X7F_AC_1"));
    assert_eq!(
        refs.get("$X7F_AC_1").unwrap().summary,
        "Users can authenticate via OAuth2"
    );
}

#[test]
fn extract_summary_object_fallback_first_string() {
    let val = value(r#"{"id": "X_1", "name": "some name"}"#);
    let result = extract_summary(&val);
    assert!(result == "X_1" || result == "some name");
}

#[test]
fn extract_summary_object_no_string_fields() {
    let val = value(r#"{"count": 42, "active": true}"#);
    let result = extract_summary(&val);
    let parsed: Value = serde_json::from_str(&result).unwrap();
    assert_eq!(parsed["count"], 42);
}

#[test]
fn extract_summary_null() {
    assert_eq!(extract_summary(&JsonValue::Null), "null");
}

#[test]
fn extract_summary_bool() {
    assert_eq!(extract_summary(&value("true")), "true");
}

#[test]
fn extract_summary_empty_object() {
    assert_eq!(extract_summary(&value("{}")), "{}");
}

#[test]
fn extract_summary_empty_string() {
    assert_eq!(extract_summary(&value(r#""""#)), "");
}

#[test]
fn assign_refs_empty_array() {
    let (store, refs) = assign_refs("P", &fields(r#"{"items": []}"#));
    assert!(store.is_empty());
    assert!(refs.is_empty());
}

#[test]
fn assign_refs_mixed_array_and_scalar() {
    let input = fields(
        r#"{"tasks": [{"summary": "task one"}], "background": "some context"}"#,
    );
    let (store, refs) = assign_refs("M1", &input);
    assert!(store.contains_key("$M1_TAS_1"));
    assert!(store.contains_key("$M1_BACKGROUND"));
    assert_eq!(refs.get("$M1_TAS_1").unwrap().summary, "task one");
    assert_eq!(refs.get("$M1_BACKGROUND").unwrap().summary, "some context");
}

#[test]
fn assign_refs_nested_object_treated_as_scalar() {
    let input = fields(r#"{"metadata": {"author": "alice", "version": 2}}"#);
    let (store, refs) = assign_refs("N1", &input);
    assert!(store.contains_key("$N1_METADATA"));
    let stored = store.get("$N1_METADATA").unwrap();
    assert_eq!(*member(stored, "author"), JsonValue::String("alice".to_string()));
    assert!(!refs.get("$N1_METADATA").unwrap().summary.is_empty());
}

#[test]
fn assign_refs_number_value() {
    let (store, refs) = assign_refs("N", &fields(r#"{"priority": 5}"#));
    assert_eq!(*store.get("$N_PRIORITY").unwrap(), value("5"));
    assert_eq!(refs.get("$N_PRIORITY").unwrap().summary, "5");
}

#[test]
fn assign_refs_bool_value() {
    let (store, refs) = assign_refs("B", &fields(r#"{"active": true}"#));
    assert_eq!(*store.get("$B_ACTIVE").unwrap(), value("true"));
    assert_eq!(refs.get("$B_ACTIVE").unwrap().summary, "true");
}

#[test]
fn assign_refs_null_value() {
    let (store, refs) = assign_refs("N", &fields(r#"{"notes": null}"#));
    assert_eq!(*store.get("$N_NOTES").unwrap(), JsonValue::Null);
    assert_eq!(refs.get("$N_NOTES").unwrap().summary, "null");
}

#[test]
fn assign_refs_multiple_array_items_sequential_indices() {
    let input = fields(
        r#"{"steps": [{"summary": "first"}, {"summary": "second"}, {"summary": "third"}]}"#,
    );
    let (store, refs) = assign_refs("S", &input);
    assert_eq!(refs.get("$S_STE_1").unwrap().summary, "first");
    assert_eq!(refs.get("$S_STE_2").unwrap().summary, "second");
    assert_eq!(refs.get("$S_STE_3").unwrap().summary, "third");
    assert_eq!(store.len(), 3);
}

#[test]
fn assign_refs_empty_object_input() {
    let (store, refs) = assign_refs("E", &fields("{}"));
    assert!(store.is_empty());
    assert!(refs.is_empty());
}

#[test]
fn store_via_library_api() {
    let input = fields(
        r#"{
            "requirements": [
                {"id": "REQ_1", "summary": "OAuth2 login flow"},
                {"id": "REQ_2", "summary": "Session persistence"}
            ],
            "background": "Implement user authentication"
        }"#,
    );
    let mut var_store: VarStore = NameMap::new();
    let output = store("X7F", &input, &mut var_store, PathBuf::from("/s/vars.json"));
    assert_eq!(output.refs.get("$X7F_REQ_1").unwrap().summary, "OAuth2 login flow");
    assert_eq!(output.refs.get("$X7F_REQ_2").unwrap().summary, "Session persistence");
    assert_eq!(
        output.refs.get("$X7F_BACKGROUND").unwrap().summary,
        "Implement user authentication"
    );
    assert_eq!(output.store_path, PathBuf::from("/s/vars.json"));
    let stored = var_store.get("$X7F_REQ_1").unwrap();
    assert_eq!(
        *member(stored, "summary"),
        JsonValue::String("OAuth2 login flow".to_string())
    );
}

// Further cases.

#[test]
fn store_keeps_existing_and_replaces_same_name() {
    let mut var_store: VarStore = NameMap::new();
    var_store.insert("$OLD_VAR".to_string(), value(r#""existing value""#));
    var_store.insert("$P_ITE_1".to_string(), value(r#""stale""#));
    let input = fields(r#"{"items": [{"summary": "fresh"}]}"#);
    let output = store("P", &input, &mut var_store, PathBuf::from("vars.json"));
    assert_eq!(var_store.len(), 2);
    assert_eq!(*var_store.get("$OLD_VAR").unwrap(), value(r#""existing value""#));
    assert_eq!(
        *var_store.get("$P_ITE_1").unwrap(),
        value(r#"{"summary": "fresh"}"#)
    );
    assert_eq!(output.refs.len(), 1);
    assert!(output.refs.get("$OLD_VAR").is_none());
}

#[test]
fn extract_summary_preference_order() {
    // "summary" wins over "description", "text" and "value"
    let val = value(r#"{"value": "v", "text": "t", "description": "d", "summary": "s"}"#);
    assert_eq!(extract_summary(&val), "s");
    let val = value(r#"{"value": "v", "text": "t", "description": "d"}"#);
    assert_eq!(extract_summary(&val), "d");
    let val = value(r#"{"value": "v", "text": "t"}"#);
    assert_eq!(extract_summary(&val), "t");
    let val = value(r#"{"value": "v", "other": "o"}"#);
    assert_eq!(extract_summary(&val), "v");
}

#[test]
fn extract_summary_skips_non_string_preferred_member() {
    // a "summary" member that is not a string is passed over
    let val = value(r#"{"summary": 3, "description": "d"}"#);
    assert_eq!(extract_summary(&val), "d");
    let val = value(r#"{"summary": {"x": 1}, "zeta": "z"}"#);
    assert_eq!(extract_summary(&val), "z");
}

#[test]
fn extract_summary_first_string_in_key_order() {
    // members are kept in key order, so "alpha" comes before "beta"
    let val = value(r#"{"beta": "b", "alpha": "a", "count": 1}"#);
    assert_eq!(extract_summary(&val), "a");
}

#[test]
fn extract_summary_compact_json_text() {
    let val = value(r#"[1, "two", null, true, {"k": [2.5, -3]}]"#);
    assert_eq!(extract_summary(&val), r#"[1,"two",null,true,{"k":[2.5,-3]}]"#);
    let val = value(r#"{"count": 42, "active": false, "list": []}"#);
    assert_eq!(extract_summary(&val), r#"{"active":false,"count":42,"list":[]}"#);
}

#[test]
fn extract_summary_escapes_strings_in_json_text() {
    let val = value(r#"{"n": 1, "q": [ "a\"b\\c\n" ]}"#);
    assert_eq!(extract_summary(&val), r#"{"n":1,"q":["a\"b\\c\n"]}"#);
}

#[test]
fn json_value_clone_is_equal() {
    let val = value(r#"{"a": [1, {"b": null}], "c": "d"}"#);
    assert_eq!(val.clone(), val);
}

#[test]
fn assign_refs_later_field_replaces_colliding_name() {
    // the array "a" gives $P_A_1, and so does the scalar field "a_1"; the later field wins
    let input = fields(r#"{"a": ["from array"], "a_1": "from scalar"}"#);
    let (store, refs) = assign_refs("P", &input);
    assert_eq!(store.len(), 1);
    assert_eq!(refs.get("$P_A_1").unwrap().summary, "from scalar");
}

#[test]
fn assign_refs_nested_array_element_summary() {
    let input = fields(r#"{"grid": [[1, 2], ["x"]]}"#);
    let (_store, refs) = assign_refs("G", &input);
    assert_eq!(refs.get("$G_GRI_1").unwrap().summary, "[1,2]");
    assert_eq!(refs.get("$G_GRI_2").unwrap().summary, r#"["x"]"#);
}

#[test]
fn every_assigned_name_is_a_reference() {
    let input = fields(r#"{"a": [1, 2], "b_c": "x", "": null, "d": {"e": []}}"#);
    let (store, refs) = assign_refs("", &input);
    assert_eq!(store.len(), 5);
    for (name, _) in store.entries() {
        assert!(name.starts_with('$'), "{}", name);
        assert!(refs.contains_key(name));
    }
}

#[test]
fn json_text_escapes_control_characters() {
    let val = value(r#"["tab\there", "bell\u0007", "esc\u001b", "\b\f\r", "/ and é"]"#);
    assert_eq!(
        extract_summary(&val),
        r#"["tab\there","bell\u0007","esc\u001b","\b\f\r","/ and é"]"#
    );
}

#[test]
fn objects_from_json_are_well_formed() {
    assert!(is_well_formed(&value(r#"{"b": 1, "a": [{"z": 0, "y": 1}], "": null}"#)));
    assert!(is_well_formed(&value("[1, 2]")));
}

#[test]
fn unordered_or_repeated_keys_are_not_well_formed() {
    let s = |t: &str| JsonValue::String(t.to_string());
    let unordered = JsonValue::Object(vec![("b".to_string(), s("1")), ("a".to_string(), s("2"))]);
    assert!(!is_well_formed(&unordered));
    let repeated = JsonValue::Object(vec![("a".to_string(), s("1")), ("a".to_string(), s("2"))]);
    assert!(!is_well_formed(&repeated));
    let nested = JsonValue::Array(vec![JsonValue::Null, unordered]);
    assert!(!is_well_formed(&nested));
    let prefix_first = JsonValue::Object(vec![("a".to_string(), s("1")), ("ab".to_string(), s("2"))]);
    assert!(is_well_formed(&prefix_first));
}

#[test]
fn entry_count_without_collisions() {
    let input = fields(r#"{"items": [1, 2, 3], "notes": "n", "tags": [], "meta": {"k": 1}}"#);
    let (store, refs) = assign_refs("C", &input);
    assert_eq!(store.len(), 3 + 1 + 0 + 1);
    assert_eq!(refs.len(), 5);
}

#[test]
fn abbreviation_never_holds_underscore() {
    for f in ["_", "a_", "_a", "a__b_", "abc", "ab_", "x_y_z"] {
        assert!(!abbreviate_array_field(f).contains('_'), "{}", f);
    }
}
