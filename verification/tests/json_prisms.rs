use lenses::{
    arr_idx, idx, object_insert, object_key, JArray, JBool, JNumber, JObject, JString, JsonValue, PrismExt,
    TraversalExt,
};

fn json(text: &str) -> JsonValue {
    JsonValue::from_json_text(text).unwrap()
}

fn text_of() -> JsonValue {
    json(r#"{"imagine": "nothing"}"#)
}

fn nested_object() -> JsonValue {
    json(r#"{"imagine": {"something": {"else": "entirely"}}}"#)
}

fn nested_array() -> JsonValue {
    json(r#"{"imagine": {"something": [{"else": "entirely"}, null, {"woah": "yeah"}]}}"#)
}

fn add_key(v: JsonValue) -> JsonValue {
    match v {
        JsonValue::Object(mut m) => {
            object_insert(&mut m, "new".to_string(), JsonValue::Null);
            JsonValue::Object(m)
        }
        other => other,
    }
}

#[test]
fn nested_key_prism_lists_what_it_finds() {
    let prism = object_key("imagine").and_if(object_key("something"));
    assert_eq!(prism.t_to_vec(text_of()), Vec::<JsonValue>::new());
    assert_eq!(prism.t_to_vec(nested_object()), vec![json(r#"{"else": "entirely"}"#)]);
    assert_eq!(
        prism.t_to_vec(nested_array()),
        vec![json(r#"[{"else": "entirely"}, null, {"woah": "yeah"}]"#)]
    );
}

#[test]
fn array_position_prism_lists_what_it_finds() {
    let prism2 = object_key("imagine")
        .and_if(object_key("something"))
        .and_if(JArray)
        .and_if(idx(2));
    assert_eq!(prism2.t_to_vec(text_of()), Vec::<JsonValue>::new());
    assert_eq!(prism2.t_to_vec(nested_object()), Vec::<JsonValue>::new());
    assert_eq!(prism2.t_to_vec(nested_array()), vec![json(r#"{"woah": "yeah"}"#)]);
}

#[test]
fn nested_key_prism_to_opt() {
    let prism = object_key("imagine").and_if(object_key("something"));
    assert_eq!(prism.t_to_opt(text_of()), None);
    assert_eq!(prism.t_to_opt(nested_object()), Some(json(r#"{"else": "entirely"}"#)));
}

#[test]
fn over_through_an_array_position_replaces_the_element() {
    let prism2 = object_key("imagine")
        .and_if(object_key("something"))
        .and_if(JArray)
        .and_if(idx(2));
    assert_eq!(prism2.over(text_of(), add_key), text_of());
    assert_eq!(prism2.over(nested_object(), add_key), nested_object());
    let added = JsonValue::Object(vec![
        ("woah".to_string(), json(r#""yeah""#)),
        ("new".to_string(), JsonValue::Null),
    ]);
    let expected = JsonValue::Object(vec![(
        "imagine".to_string(),
        JsonValue::Object(vec![(
            "something".to_string(),
            JsonValue::Array(vec![
                json(r#"{"else": "entirely"}"#),
                JsonValue::Null,
                added,
            ]),
        )]),
    )]);
    assert_eq!(prism2.over(nested_array(), add_key), expected);
}

#[test]
fn over_through_keys_replaces_the_value() {
    let prism = object_key("imagine").and_if(object_key("something"));
    assert_eq!(prism.over(text_of(), add_key), text_of());
    assert_eq!(
        prism.over(nested_object(), add_key),
        json(r#"{"imagine": {"something": {"else": "entirely", "new": null}}}"#)
    );
    assert_eq!(prism.over(nested_array(), add_key), nested_array());
}

#[test]
fn type_prisms_match_only_their_kind() {
    assert_eq!(JString.t_to_opt(json(r#""hi""#)), Some("hi".to_string()));
    assert_eq!(JString.t_to_opt(json("1")), None);
    assert_eq!(JNumber.t_to_opt(json("12")), Some("12".to_string()));
    assert_eq!(JNumber.t_to_opt(json("true")), None);
    assert_eq!(JBool.t_to_opt(json("true")), Some(true));
    assert_eq!(JBool.t_to_opt(JsonValue::Null), None);
    assert_eq!(JArray.t_to_opt(json("[1]")), Some(vec![json("1")]));
    assert_eq!(JArray.t_to_opt(json("{}")), None);
    assert_eq!(
        JObject.t_to_opt(json(r#"{"a": 1}"#)),
        Some(vec![("a".to_string(), json("1"))])
    );
    assert_eq!(JObject.t_to_opt(json("[]")), None);
}

#[test]
fn type_prisms_update_only_their_kind() {
    assert_eq!(JBool.over(json("true"), |b| !b), json("false"));
    assert_eq!(JBool.over(json("3"), |b| !b), json("3"));
    assert_eq!(
        JString.over(json(r#""a""#), |s| s + "b"),
        JsonValue::String("ab".to_string())
    );
    assert_eq!(JNumber.over(json("1"), |_| "2".to_string()), json("2"));
}

#[test]
fn object_key_finds_the_first_entry_with_the_key() {
    let v = JsonValue::Object(vec![
        ("a".to_string(), json("1")),
        ("b".to_string(), json("2")),
        ("a".to_string(), json("3")),
    ]);
    assert_eq!(object_key("a").t_to_opt(v), Some(json("1")));
}

#[test]
fn object_key_update_replaces_in_place() {
    let v = json(r#"{"a": 1, "b": 2}"#);
    let updated = object_key("a").over(v, |_| json("10"));
    assert_eq!(
        updated,
        JsonValue::Object(vec![("a".to_string(), json("10")), ("b".to_string(), json("2"))])
    );
}

#[test]
fn object_key_on_missing_key_or_non_object_changes_nothing() {
    assert_eq!(object_key("z").over(json(r#"{"a": 1}"#), |_| json("10")), json(r#"{"a": 1}"#));
    assert_eq!(object_key("z").t_to_opt(json(r#"{"a": 1}"#)), None);
    assert_eq!(object_key("a").over(json("[1]"), |_| json("10")), json("[1]"));
}

#[test]
fn arr_idx_reads_an_element() {
    assert_eq!(arr_idx(1).t_to_opt(json("[10, 20, 30]")), Some(json("20")));
    assert_eq!(arr_idx(3).t_to_opt(json("[10, 20, 30]")), None);
    assert_eq!(arr_idx(0).t_to_opt(json(r#"{"0": 1}"#)), None);
}

#[test]
fn arr_idx_update_replaces_the_element() {
    assert_eq!(arr_idx(1).over(json("[10, 20, 30]"), |_| json("5")), json("[10, 5, 30]"));
    assert_eq!(arr_idx(3).over(json("[10, 20, 30]"), |_| json("5")), json("[10, 20, 30]"));
}

#[test]
fn over_with_identity_keeps_arrays() {
    assert_eq!(arr_idx(0).over(json("[1]"), |x| x), json("[1]"));
}

#[test]
fn over_with_identity_keeps_objects() {
    let v = nested_object();
    let prism = object_key("imagine").and_if(object_key("something"));
    assert_eq!(prism.over(v, |x| x), nested_object());
}

#[test]
fn vec_idx_on_plain_vectors() {
    let t = idx::<u32>(1);
    assert_eq!(t.t_to_vec(vec![7, 8, 9]), vec![8]);
    assert_eq!(t.t_to_opt(vec![7]), None);
    assert_eq!(t.over(vec![7, 8, 9], |x| x + 1), vec![7, 9, 9]);
}

#[test]
fn json_values_clone_equal() {
    let v = nested_array();
    assert_eq!(v.clone(), v);
}

#[test]
fn object_insert_replaces_an_entry_or_adds_one_at_the_end() {
    let mut m = vec![("a".to_string(), json("1")), ("b".to_string(), json("2"))];
    object_insert(&mut m, "a".to_string(), json("9"));
    assert_eq!(m, vec![("a".to_string(), json("9")), ("b".to_string(), json("2"))]);
    object_insert(&mut m, "c".to_string(), JsonValue::Null);
    assert_eq!(
        m,
        vec![("a".to_string(), json("9")), ("b".to_string(), json("2")), ("c".to_string(), JsonValue::Null)]
    );
}
