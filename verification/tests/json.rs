use tack::json::{parse_json, render_json, render_pretty, Json};

fn twice() -> Json {
    Json::Object(vec![
        ("b".to_owned(), Json::Bool(true)),
        ("a".to_owned(), Json::text("first")),
        ("a".to_owned(), Json::text("second")),
    ])
}

#[test]
fn of_two_members_with_one_key_the_first_is_printed() {
    assert_eq!(render_json(&twice()), r#"{"a":"first","b":true}"#);
    let nested = Json::Array(vec![twice()]);
    assert_eq!(render_json(&nested), r#"[{"a":"first","b":true}]"#);
    assert_eq!(render_pretty(&twice()), "{\n  \"a\": \"first\",\n  \"b\": true\n}");
}

#[test]
fn text_is_read_or_refused() {
    let json = parse_json(r#"{"a":[1,null,"x"]}"#).expect("valid JSON");
    assert_eq!(render_json(&json), r#"{"a":[1,null,"x"]}"#);
    assert!(parse_json("this is not json").is_err());
}
