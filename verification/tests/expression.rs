use lenses::{
    tokens_parser, Expression, JsonError, JsonValue, Outcome, RawExpression, Rendered, Selector,
    Token,
};

fn json(text: &str) -> JsonValue {
    JsonValue::from_json_text(text).unwrap()
}

fn compile(source: &str) -> Result<Expression, JsonError> {
    let (rest, raw) = tokens_parser(source).unwrap();
    assert_eq!(rest, "");
    raw.compile()
}

fn document() -> JsonValue {
    json(r#"{"a": {"b": [1, {"c": true}]}, "d": "x"}"#)
}

#[test]
fn getter_prints_what_the_path_finds() {
    match compile(".a.b[1].c").unwrap().evaluate(document()) {
        Outcome::Print(v) => assert_eq!(v, json("true")),
        _ => panic!("expected a value"),
    }
}

#[test]
fn getter_fails_where_the_path_finds_nothing() {
    assert!(matches!(compile(".a.z").unwrap().evaluate(document()), Outcome::Failure));
    assert!(matches!(compile(".d[0]").unwrap().evaluate(document()), Outcome::Failure));
}

#[test]
fn empty_getter_prints_the_whole_document() {
    match compile("").unwrap().evaluate(document()) {
        Outcome::Print(v) => assert_eq!(v, document()),
        _ => panic!("expected a value"),
    }
}

#[test]
fn setter_writes_the_value_at_a_key() {
    match compile(".a.b=null").unwrap().evaluate(document()) {
        Outcome::Write(v) => assert_eq!(v, json(r#"{"a": {"b": null}, "d": "x"}"#)),
        _ => panic!("expected a write"),
    }
}

#[test]
fn setter_through_an_array_position_replaces() {
    match compile(".a.b[0]=5").unwrap().evaluate(document()) {
        Outcome::Write(v) => {
            assert_eq!(v, json(r#"{"a": {"b": [5, {"c": true}]}, "d": "x"}"#))
        }
        _ => panic!("expected a write"),
    }
}

#[test]
fn setter_fails_where_the_path_finds_nothing() {
    assert!(matches!(compile(".q=1").unwrap().evaluate(document()), Outcome::Failure));
}

#[test]
fn compile_reports_a_value_that_is_not_json() {
    assert!(compile(".a={nope").is_err());
}

#[test]
fn compile_builds_the_path_of_the_steps() {
    let raw = RawExpression::Getter(vec![Token::Key("d".to_string())]);
    match raw.compile().unwrap() {
        Expression::Getter(sel) => {
            assert_eq!(sel.t_to_opt(document()), Some(json(r#""x""#)));
        }
        _ => panic!("expected a getter"),
    }
}

#[test]
fn selectors_join_paths() {
    let sel = Token::Key("a".to_string())
        .into_selector()
        .join(Token::Key("b".to_string()).into_selector())
        .join(Token::Idx(0).into_selector());
    assert_eq!(sel.t_to_opt(document()), Some(json("1")));
    assert_eq!(Selector::new().t_to_opt(json("3")), Some(json("3")));
}

#[test]
fn selector_over_replaces_through_keys() {
    let sel = Token::Key("d".to_string()).into_selector();
    let updated = sel.over(document(), &|_| json("7"));
    assert_eq!(updated, json(r#"{"a": {"b": [1, {"c": true}]}, "d": 7}"#));
    assert_eq!(sel.t_to_opt(updated), Some(json("7")));
}

#[test]
fn put_then_get_gives_the_value() {
    let sel = Token::Key("a".to_string())
        .into_selector()
        .join(Token::Key("b".to_string()).into_selector())
        .join(Token::Idx(1).into_selector());
    let updated = sel.over(document(), &|_| json("false"));
    assert_eq!(sel.t_to_opt(updated), Some(json("false")));
}

#[test]
fn putting_back_what_a_key_path_finds_changes_nothing() {
    let sel = Token::Key("a".to_string()).into_selector();
    let found = sel.t_to_opt(document()).unwrap();
    assert_eq!(sel.over(document(), &|_| found.clone()), document());
}

#[test]
fn a_second_put_along_keys_replaces_the_first() {
    let sel = Token::Key("d".to_string()).into_selector();
    let once = sel.over(document(), &|_| json("1"));
    let twice = sel.over(once, &|_| json("2"));
    assert_eq!(twice, sel.over(document(), &|_| json("2")));
}

#[test]
fn putting_back_through_a_position_changes_nothing() {
    let sel = Token::Idx(0).into_selector();
    let updated = sel.over(json("[1]"), &|x| x);
    assert_eq!(updated, json("[1]"));
}

#[test]
fn run_prints_what_a_getter_finds_as_indented_json() {
    match compile(".a.b[1]").unwrap().run(r#"{"a": {"b": [1, {"c": true}]}}"#).unwrap() {
        Rendered::Print(text) => assert_eq!(text, "{\n  \"c\": true\n}"),
        _ => panic!("expected text to print"),
    }
}

#[test]
fn run_writes_back_the_updated_document_compactly() {
    match compile(".a.b[0]=[2, 3]").unwrap().run(r#"{"a": {"b": [1, 2]}}"#).unwrap() {
        Rendered::Write(bytes) => assert_eq!(bytes, br#"{"a":{"b":[[2,3],2]}}"#.to_vec()),
        _ => panic!("expected bytes to write"),
    }
}

#[test]
fn run_fails_where_the_path_finds_nothing() {
    assert!(matches!(compile(".z").unwrap().run("{}").unwrap(), Rendered::Failure));
    assert!(matches!(compile(".z=1").unwrap().run("[]").unwrap(), Rendered::Failure));
}

#[test]
fn run_reports_contents_that_are_not_json() {
    assert!(compile(".a").unwrap().run("{oops").is_err());
}

#[test]
fn run_reports_a_number_that_cannot_be_written() {
    let expr = Expression::Setter(Token::Key("a".to_string()).into_selector(), JsonValue::Number("1x".to_string()));
    assert!(expr.run(r#"{"a": 0}"#).is_err());
}

#[test]
fn json_text_is_read_into_the_value_it_denotes() {
    let v = JsonValue::from_json_text(r#"{"k": [true, null, "s", 2.5]}"#).unwrap();
    assert_eq!(
        v,
        JsonValue::Object(vec![(
            "k".to_string(),
            JsonValue::Array(vec![
                JsonValue::Bool(true),
                JsonValue::Null,
                JsonValue::String("s".to_string()),
                JsonValue::Number("2.5".to_string()),
            ]),
        )])
    );
    assert!(JsonValue::from_json_text("[1,").is_err());
}

#[test]
fn values_are_written_as_json_text() {
    let v = JsonValue::Array(vec![JsonValue::Number("1".to_string()), JsonValue::Null]);
    assert_eq!(v.to_json_bytes().unwrap(), b"[1,null]".to_vec());
    assert_eq!(v.to_json_text_pretty().unwrap(), "[\n  1,\n  null\n]");
    assert!(JsonValue::Number("one".to_string()).to_json_bytes().is_err());
}
