use dandelion_json::data::Value;
use dandelion_json::errors::Errors;
use dandelion_json::number::Number;
use dandelion_json::parser::Parser;

fn num(x: f64) -> Value {
    Value::Number(Number { bits: x.to_bits() })
}

fn text(s: &str) -> Value {
    Value::String(s.to_string())
}

fn json_assert(json: &str, value: Value) {
    assert_eq!(Parser::parse(json), Ok(value))
}

fn invalid_assert(json: &str, error: Errors) {
    assert_eq!(Parser::parse(json), Err(error))
}

#[test]
fn valid_object() {
    let json = r#"
    {
        "n" : null ,
        "f" : false ,
        "t" : true ,
        "i" : 123 ,
        "s" : "abc",
        "a" : [ 1, 2, 3 ],
        "o" : { "1" : 1, "2" : 2, "3" : 3 }
    }
    "#;
    let expected = Value::Object({
        let mut map = Vec::<(String, Value)>::new();
        map.push((String::from("n"), Value::Null));
        map.push((String::from("f"), Value::Bool(false)));
        map.push((String::from("t"), Value::Bool(true)));
        map.push((String::from("i"), num(123.0)));
        map.push((String::from("s"), text("abc")));
        map.push((
            String::from("a"),
            Value::Array(vec![num(1.0), num(2.0), num(3.0)]),
        ));
        map.push((String::from("o"), {
            let mut map = Vec::<(String, Value)>::new();
            map.push((String::from("1"), num(1.0)));
            map.push((String::from("2"), num(2.0)));
            map.push((String::from("3"), num(3.0)));
            Value::Object(map)
        }));
        map
    });
    json_assert(json, expected);
}

#[test]
fn object_key_is_missing() {
    invalid_assert("{:1,", Errors::MissingKey);
    invalid_assert("{1:1,", Errors::MissingKey);
    invalid_assert("{true:1,", Errors::MissingKey);
    invalid_assert("{false:1,", Errors::MissingKey);
    invalid_assert("{null:1,", Errors::MissingKey);
    invalid_assert("{[]:1,", Errors::MissingKey);
    invalid_assert("{{}:1,", Errors::MissingKey);
    invalid_assert(r#"{"a":1,"#, Errors::MissingKey);
}

#[test]
fn object_semicolon_is_missing() {
    invalid_assert(r#"{"a"}"#, Errors::MissingSemicolon);
    invalid_assert(r#"{"a","b"}"#, Errors::MissingSemicolon);
}

#[test]
fn object_curly_bracket_is_missing() {
    invalid_assert(r#"{"a":1"#, Errors::MissingCommaOrClosingCurlyBracket);
    invalid_assert(r#"{"a":1]"#, Errors::MissingCommaOrClosingCurlyBracket);
    invalid_assert(r#"{"a":1 "b""#, Errors::MissingCommaOrClosingCurlyBracket);
    invalid_assert(r#"{"a":{}"#, Errors::MissingCommaOrClosingCurlyBracket);
}

#[test]
fn the_order_of_members_does_not_matter() {
    let expected = Value::Object(vec![
        (String::from("b"), num(2.0)),
        (String::from("a"), num(1.0)),
    ]);
    json_assert(r#"{"a":1,"b":2}"#, expected);
    assert_ne!(
        Parser::parse(r#"{"a":1,"b":2}"#),
        Ok(Value::Object(vec![(String::from("a"), num(1.0))]))
    );
    assert_ne!(
        Parser::parse(r#"{"a":1}"#),
        Ok(Value::Object(vec![
            (String::from("a"), num(1.0)),
            (String::from("b"), num(2.0)),
        ]))
    );
    assert_ne!(
        Parser::parse(r#"{"a":1,"b":2}"#),
        Ok(Value::Object(vec![
            (String::from("a"), num(1.0)),
            (String::from("b"), num(3.0)),
        ]))
    );
}

#[test]
fn a_repeated_key_keeps_its_last_value() {
    let parsed = Parser::parse(r#"{"a":1,"b":2,"a":3}"#).unwrap();
    assert_eq!(
        parsed,
        Value::Object(vec![
            (String::from("a"), num(3.0)),
            (String::from("b"), num(2.0)),
        ])
    );
    match parsed {
        Value::Object(members) => assert_eq!(members.len(), 2),
        other => panic!("{:?}", other),
    }
    assert_eq!(
        Value::Object(vec![
            (String::from("a"), num(1.0)),
            (String::from("a"), num(3.0)),
        ]),
        Value::Object(vec![(String::from("a"), num(3.0))])
    );
}

#[test]
fn a_comma_may_end_an_object() {
    json_assert(
        r#"{"a":1,}"#,
        Value::Object(vec![(String::from("a"), num(1.0))]),
    );
    invalid_assert("{,}", Errors::MissingKey);
    invalid_assert(r#"{"a":1,,}"#, Errors::MissingKey);
}

#[test]
fn keys_are_unescaped() {
    json_assert(
        r#"{"a\nb" : "c\td"}"#,
        Value::Object(vec![(String::from("a\nb"), text("c\td"))]),
    );
    json_assert(
        r#"{"" : {}}"#,
        Value::Object(vec![(String::new(), Value::Object(vec![]))]),
    );
    invalid_assert(r#"{"a\q":1}"#, Errors::InvalidStringEscape);
    invalid_assert(r#"{"a"#, Errors::MissingQuotationMark);
}

#[test]
fn key_is_missing() {
    invalid_assert("{:1,", Errors::MissingKey);
    invalid_assert("{1:1,", Errors::MissingKey);
    invalid_assert("{true:1,", Errors::MissingKey);
    invalid_assert("{false:1,", Errors::MissingKey);
    invalid_assert("{null:1,", Errors::MissingKey);
    invalid_assert("{[]:1,", Errors::MissingKey);
    invalid_assert("{{}:1,", Errors::MissingKey);
    invalid_assert(r#"{"a":1,"#, Errors::MissingKey);
}

#[test]
fn semicolon_is_missing() {
    invalid_assert(r#"{"a"}"#, Errors::MissingSemicolon);
    invalid_assert(r#"{"a","b"}"#, Errors::MissingSemicolon);
}

#[test]
fn curly_bracket_is_missing() {
    invalid_assert(r#"{"a":1"#, Errors::MissingCommaOrClosingCurlyBracket);
    invalid_assert(r#"{"a":1]"#, Errors::MissingCommaOrClosingCurlyBracket);
    invalid_assert(r#"{"a":1 "b""#, Errors::MissingCommaOrClosingCurlyBracket);
    invalid_assert(r#"{"a":{}"#, Errors::MissingCommaOrClosingCurlyBracket);
}
