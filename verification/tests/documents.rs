//! Reading and writing JSON.

use backcheck::json::Json;

#[test]
fn values_are_read() {
    let v = Json::parse(r#" {"a": [1, "x\ny", true, null], "b": {"c": "d"}} "#).unwrap();
    let a = v.get("a").unwrap().as_array().unwrap();
    assert_eq!(a.len(), 4);
    assert!(matches!(&a[0], Json::Number(n) if n == "1"));
    assert_eq!(a[1].as_str().unwrap(), "x\ny");
    assert_eq!(a[2].as_bool(), Some(true));
    assert!(matches!(&a[3], Json::Null));
    assert_eq!(v.get("b").unwrap().str_at("c").as_deref(), Some("d"));
    assert!(v.get("z").is_none());
    assert!(!v.flag_at("a"));
}

#[test]
fn what_is_not_json_is_refused() {
    for text in ["", "{", "{\"a\":}", "[1,]", "nul", "\"open", "{} {}"] {
        assert!(Json::parse(text).is_none(), "{text:?}");
    }
}

#[test]
fn a_repeated_key_keeps_its_last_value() {
    let v = Json::parse(r#"{"a":"first","a":"second"}"#).unwrap();
    assert_eq!(v.str_at("a").as_deref(), Some("second"));
}

#[test]
fn members_are_read_in_key_order() {
    let v = Json::parse(r#"{"b":1,"a":2}"#).unwrap();
    assert_eq!(v.to_text(), r#"{"a":2,"b":1}"#);
}

#[test]
fn texts_are_escaped() {
    let v = Json::object(vec![(
        "q\"".to_string(),
        Json::array(vec![
            Json::Text("tab\t \\ \u{1}".to_string()),
            Json::Bool(false),
            Json::Null,
            Json::Number("1.50".to_string()),
        ]),
    )]);
    assert_eq!(
        v.to_text(),
        "{\"q\\\"\":[\"tab\\t \\\\ \\u0001\",false,null,1.50]}"
    );
}

#[test]
fn reading_gives_back_what_was_written() {
    let text = r#"{"a":[{"b":"é\"\n"},[],{}],"c":-1e3}"#;
    assert_eq!(Json::parse(text).unwrap().to_text(), text);
}

#[test]
fn truth_values_are_words() {
    assert_eq!(Json::parse(" \n\t\rtrue\r").unwrap().as_bool(), Some(true));
    assert_eq!(Json::parse("[false ]").unwrap().as_array().unwrap()[0].as_bool(), Some(false));
    assert!(Json::parse("True").is_none());
    assert_eq!(Json::parse("\"true\"").unwrap().as_bool(), None);
}

#[test]
fn every_escape_is_written() {
    let text = Json::Text("\u{0}\u{8}\t\n\u{b}\u{c}\r\u{1f} \"\\/\u{7f}é".to_string());
    assert_eq!(
        text.to_text(),
        "\"\\u0000\\b\\t\\n\\u000b\\f\\r\\u001f \\\"\\\\/\u{7f}é\""
    );
}
