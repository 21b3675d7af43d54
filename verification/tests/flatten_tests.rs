use jsonpointer_flatten::FlattenError;
use jsonpointer_flatten::Json;
use jsonpointer_flatten::from;
use jsonpointer_flatten::from_json;
use jsonpointer_flatten::from_str;

fn s(text: &str) -> String {
    text.to_string()
}

fn num(text: &str) -> Json {
    Json::Number(s(text))
}

fn obj(fields: Vec<(&str, Json)>) -> Json {
    Json::Object(fields.into_iter().map(|(k, v)| (s(k), v)).collect())
}

#[test]
fn test_serialize() {
    let result = from_str("{ \"one\": 1 }").unwrap();

    assert!(result.is_object());
    assert!(result.as_object().unwrap().len() == 2);
}

#[test]
fn test_spec_values() {
    let value = obj(vec![
        ("foo", Json::Array(vec![Json::Str(s("bar")), Json::Str(s("baz"))])),
        ("", num("0")),
        ("a/b", num("1")),
        ("c%d", num("2")),
        ("e^f", num("3")),
        ("g|h", num("4")),
        ("i\\j", num("5")),
        ("k\"l", num("6")),
        (" ", num("7")),
        ("m~n", num("8")),
    ]);

    let actual = from_json(&value);

    assert!(actual.is_object());

    assert!(actual.get("/m~0n").unwrap().eq(&num("8")));
    assert!(actual.get("/a~1b").unwrap().eq(&num("1")));
    assert!(actual.get("/ ").unwrap().eq(&num("7")));
}

#[test]
fn flatten_top_level_array() {
    let value = serde_json::Value::Array(vec![
        serde_json::Value::Bool(true),
        serde_json::Value::from(42),
    ]);

    let actual = from(&value).unwrap();

    assert!(actual.get("").unwrap().eq(&Json::Array(vec![])));
    assert!(actual.get("/0").unwrap().eq(&Json::Bool(true)));
    assert!(actual.get("/1").unwrap().eq(&num("42")));
}

#[test]
fn test_readme_example() {
    let value = obj(vec![
        ("name", Json::Str(s("John Smith"))),
        ("age", num("24")),
        (
            "address",
            obj(vec![("country", Json::Str(s("US"))), ("zip", Json::Str(s("00000")))]),
        ),
        ("phones", Json::Array(vec![Json::Str(s("123")), Json::Str(s("456"))])),
    ]);

    let result = from_json(&value);

    assert!(result.is_object());
}

#[test]
fn test_null() {
    let value = obj(vec![("name", Json::Null)]);

    let result = from_json(&value);

    assert!(result.is_object());
    assert!(result.get("/name").unwrap().eq(&Json::Null));
}

#[test]
fn flatten_array() {
    let value = Json::Array(vec![
        num("1"),
        Json::Str(s("name")),
        obj(vec![("country", Json::Str(s("US"))), ("zip", Json::Str(s("00000")))]),
        Json::Array(vec![Json::Str(s("123")), Json::Str(s("456"))]),
    ]);

    let result = from_json(&value);

    assert!(result.is_object());
}

#[test]
fn flatten_values() {
    let value = num("42");

    let result = from_json(&value);

    assert!(result.is_object());
}

#[test]
fn flatten_from_str_throws_invalid_json() {
    let value = "not json";

    let result = from_str(&value);

    assert!(result.is_err());
}

#[test]
fn scenario_single_member_object() {
    let value = obj(vec![("one", num("1"))]);

    let actual = from_json(&value);

    assert_eq!(
        actual,
        Json::Object(vec![(s(""), Json::Object(vec![])), (s("/one"), num("1"))])
    );
}

#[test]
fn scenario_bare_array() {
    let value = Json::Array(vec![Json::Bool(true), num("42")]);

    let actual = from_json(&value);

    assert_eq!(
        actual,
        Json::Object(vec![
            (s(""), Json::Array(vec![])),
            (s("/0"), Json::Bool(true)),
            (s("/1"), num("42")),
        ])
    );
}

#[test]
fn scenario_escaped_keys() {
    let value = obj(vec![("a/b", num("1")), ("m~n", num("8")), (" ", num("7"))]);

    let actual = from_json(&value);

    assert_eq!(
        actual,
        Json::Object(vec![
            (s(""), Json::Object(vec![])),
            (s("/a~1b"), num("1")),
            (s("/m~0n"), num("8")),
            (s("/ "), num("7")),
        ])
    );
}

#[test]
fn scenario_invalid_text_is_parse_error() {
    let result = from_str("not json");

    assert_eq!(result, Err(FlattenError::Parse));
}

#[test]
fn scenario_null_member() {
    let value = obj(vec![("name", Json::Null)]);

    let actual = from_json(&value);

    assert_eq!(
        actual,
        Json::Object(vec![(s(""), Json::Object(vec![])), (s("/name"), Json::Null)])
    );
}

#[test]
fn root_pointer_always_present() {
    for value in [
        Json::Null,
        Json::Bool(false),
        num("3"),
        Json::Str(s("x")),
        Json::Array(vec![num("1")]),
        obj(vec![("k", Json::Null)]),
    ] {
        let actual = from_json(&value);
        assert!(actual.is_object());
        assert!(actual.get("").is_some());
    }
}

#[test]
fn parent_pointer_always_present() {
    let value = obj(vec![(
        "a",
        obj(vec![("b", Json::Array(vec![obj(vec![("c", num("1"))])]))]),
    )]);

    let actual = from_json(&value);

    assert!(actual.get("/a/b/0/c").unwrap().eq(&num("1")));
    assert!(actual.get("/a/b/0").is_some());
    assert!(actual.get("/a/b").is_some());
    assert!(actual.get("/a").is_some());
    assert!(actual.get("").is_some());
}

#[test]
fn empty_containers_give_single_entry() {
    let empty_object = obj(vec![]);
    let actual = from_json(&empty_object);
    assert_eq!(actual, Json::Object(vec![(s(""), Json::Object(vec![]))]));

    let empty_array = Json::Array(vec![]);
    let actual = from_json(&empty_array);
    assert_eq!(actual, Json::Object(vec![(s(""), Json::Array(vec![]))]));
}

#[test]
fn reflattening_differs() {
    let value = obj(vec![("one", num("1")), ("two", obj(vec![]))]);

    let flat = from_json(&value);
    let flat_again = from_json(&flat);

    assert_ne!(flat_again, flat);
    assert_eq!(flat.as_object().unwrap().len(), 3);
    assert_eq!(flat_again.as_object().unwrap().len(), 4);
}

#[test]
fn empty_member_name_gives_bare_slash() {
    let value = obj(vec![("", num("0"))]);

    let actual = from_json(&value);

    assert!(actual.get("/").unwrap().eq(&num("0")));
}

#[test]
fn two_digit_array_indices() {
    let elems: Vec<Json> = (0..12).map(|i| num(&format!("{}", i * i))).collect();
    let value = Json::Array(elems);

    let actual = from_json(&value);

    assert!(actual.get("/10").unwrap().eq(&num("100")));
    assert!(actual.get("/11").unwrap().eq(&num("121")));
    assert_eq!(actual.as_object().unwrap().len(), 13);
}

#[test]
fn parsed_text_round_trip() {
    let text = "{\"name\":\"John Smith\",\"age\":24,\"tags\":[\"a\",null]}";

    let actual = from_str(text).unwrap();

    assert!(actual.get("/name").unwrap().eq(&Json::Str(s("John Smith"))));
    assert!(actual.get("/age").unwrap().eq(&num("24")));
    assert!(actual.get("/tags").unwrap().eq(&Json::Array(vec![])));
    assert!(actual.get("/tags/0").unwrap().eq(&Json::Str(s("a"))));
    assert!(actual.get("/tags/1").unwrap().eq(&Json::Null));
}

#[test]
fn get_on_missing_key_or_non_object() {
    let value = obj(vec![("one", num("1"))]);
    assert!(value.get("two").is_none());
    assert!(value.get("one").is_some());

    assert!(Json::Null.get("one").is_none());
    assert!(Json::Array(vec![]).get("0").is_none());
    assert!(!Json::Array(vec![]).is_object());
    assert!(Json::Bool(true).as_object().is_none());
}
