use dandelion_json::data::Value;
use dandelion_json::number::Number;
use dandelion_json::parser::Parser;

fn num(x: f64) -> Value {
    Value::Number(Number { bits: x.to_bits() })
}

fn text(s: &str) -> Value {
    Value::String(s.to_string())
}

fn nums(values: &[f64]) -> Value {
    Value::Array(values.iter().map(|x| num(*x)).collect())
}

#[test]
fn index_immutable_index() {
    let json = r#"
        {
            "n" : null ,
            "f" : false ,
            "t" : true ,
            "i" : 123 ,
            "s" : "abc",
            "a" : [ 1, 2, 3 ],
            "o" : { "1" : 1, "2" : 2, "3" : 3 }
        }
        "#;
    let value = Parser::parse(json).unwrap();
    assert_eq!(*value.index("n"), Value::Null);
    assert_eq!(*value.index("f"), Value::Bool(false));
    assert_eq!(*value.index("t"), Value::Bool(true));
    assert_eq!(*value.index("i"), num(123.0));
    assert_eq!(*value.index("s"), text("abc"));
    assert_eq!(*value.index("a"), nums(&[1.0, 2.0, 3.0]));
    let object = value.index("o");
    assert_eq!(*object.index("1"), num(1.0));
    assert_eq!(*object.index("2"), num(2.0));
    assert_eq!(*object.index("3"), num(3.0));
    assert_eq!(*object.index(String::from("1")), num(1.0));
    assert_eq!(*object.index(String::from("2")), num(2.0));
    assert_eq!(*object.index(String::from("3")), num(3.0));
}

#[test]
fn index_mutable_index() {
    let mut value = Parser::parse("{}").unwrap();
    *value.index_mut("key") = Value::Bool(true);
    assert_eq!(*value.index("key"), Value::Bool(true));
    *value.index_mut("foo") = Value::Bool(true);
    *value.index_mut(String::from("bar")) = Value::Bool(false);
    assert_eq!(*value.index("foo"), Value::Bool(true));
    assert_eq!(*value.index("bar"), Value::Bool(false));
}

#[test]
fn index_out_of_bound_null() {
    let value = Parser::parse("[0, 1, 2]").unwrap();
    assert_eq!(value.index(3), &Value::Null);
}

#[test]
fn empty_null() {
    let mut value = Value::Null;
    *value.index_mut("key") = Value::Bool(true);
    assert_eq!(*value.index("key"), Value::Bool(true));
}

#[test]
fn null_becomes_a_one_member_object() {
    let mut value = Value::Null;
    *value.index_mut("key") = Value::Bool(true);
    assert_eq!(
        value,
        Value::Object(vec![(String::from("key"), Value::Bool(true))])
    );
    match &value {
        Value::Object(members) => assert_eq!(members.len(), 1),
        other => panic!("{:?}", other),
    }
}

#[test]
fn reading_a_new_slot_gives_null() {
    let mut value = Value::Object(vec![]);
    assert_eq!(*value.index_mut("a"), Value::Null);
    assert_eq!(
        value,
        Value::Object(vec![(String::from("a"), Value::Null)])
    );
    assert_eq!(value.get("a"), Some(&Value::Null));
}

#[test]
fn writing_a_present_key_keeps_one_member() {
    let mut value = Parser::parse(r#"{"a":1,"b":2}"#).unwrap();
    *value.index_mut("a") = num(5.0);
    *value.index_mut("a") = num(6.0);
    assert_eq!(
        value,
        Value::Object(vec![
            (String::from("a"), num(6.0)),
            (String::from("b"), num(2.0)),
        ])
    );
    match &value {
        Value::Object(members) => assert_eq!(members.len(), 2),
        other => panic!("{:?}", other),
    }
}

#[test]
fn writing_an_item_in_range() {
    let mut value = Parser::parse("[0, 1, 2]").unwrap();
    assert_eq!(*value.index_mut(1), num(1.0));
    *value.index_mut(1) = text("x");
    *value.index_mut(&2) = Value::Null;
    assert_eq!(
        value,
        Value::Array(vec![num(0.0), text("x"), Value::Null])
    );
}

#[test]
fn a_miss_reads_as_null() {
    let array = Parser::parse("[0, 1, 2]").unwrap();
    let object = Parser::parse(r#"{"a":1}"#).unwrap();
    assert_eq!(*array.index(2), num(2.0));
    assert_eq!(*array.index(3), Value::Null);
    assert_eq!(*array.index("a"), Value::Null);
    assert_eq!(*object.index("b"), Value::Null);
    assert_eq!(*object.index(0), Value::Null);
    assert_eq!(*Value::Null.index("a"), Value::Null);
    assert_eq!(*Value::Bool(true).index(0), Value::Null);
    assert_eq!(*text("abc").index(0), Value::Null);
    assert_eq!(*object.index("a").index("b").index(7), Value::Null);
}

#[test]
fn with_repeated_keys_the_last_member_counts() {
    let mut value = Value::Object(vec![
        (String::from("a"), num(1.0)),
        (String::from("a"), num(2.0)),
    ]);
    assert_eq!(value.get("a"), Some(&num(2.0)));
    *value.index_mut("a") = num(3.0);
    assert_eq!(value.get("a"), Some(&num(3.0)));
    assert_eq!(*value.index("a"), num(3.0));
}

#[test]
#[should_panic]
fn index_out_of_bound_panic() {
    let mut value = Parser::parse("[0, 1, 2]").unwrap();
    *value.index_mut(3) = num(3.0);
}

#[test]
#[should_panic]
fn array_cant_be_changed_by_str_index() {
    let mut value = Parser::parse("[0, 1, 2]").unwrap();
    *value.index_mut("foo") = num(3.0);
}
