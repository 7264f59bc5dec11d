use dandelion_json::data::Value;
use dandelion_json::errors::Errors;
use dandelion_json::number::Number;
use dandelion_json::parser::Parser;

fn num(x: f64) -> Value {
    Value::Number(Number { bits: x.to_bits() })
}

fn text(s: &str) -> Value {
    Value::String(s.to_string())
}

fn quote(s: &str) -> String {
    format!("\"{}\"", s)
}

fn json_assert(json: &str, value: Value) {
    assert_eq!(Parser::parse(json), Ok(value))
}

fn invalid_assert(json: &str, error: Errors) {
    assert_eq!(Parser::parse(json), Err(error))
}

#[test]
fn parser_not_singular_root() {
    invalid_assert("null x", Errors::RootNotSingular);
    invalid_assert("1u10", Errors::RootNotSingular); /* bad exp field */
    invalid_assert("0123", Errors::RootNotSingular); /* after zero should be '.' or nothing */
    invalid_assert("0x0", Errors::RootNotSingular); /* after zero should be '.' or nothing */
    invalid_assert("0x123", Errors::RootNotSingular); /* after zero should be '.' or nothing */
    invalid_assert("001", Errors::RootNotSingular); /* after zero should be '.' or nothing */
    invalid_assert("00.1", Errors::RootNotSingular); /* after zero should be '.' or nothing */
}

#[test]
fn miscellaneous_not_singular_root() {
    invalid_assert("null x", Errors::RootNotSingular);
    invalid_assert("1u10", Errors::RootNotSingular); /* bad exp field */
    invalid_assert("0123", Errors::RootNotSingular); /* after zero should be '.' or nothing */
    invalid_assert("0x0", Errors::RootNotSingular); /* after zero should be '.' or nothing */
    invalid_assert("0x123", Errors::RootNotSingular); /* after zero should be '.' or nothing */
    invalid_assert("001", Errors::RootNotSingular); /* after zero should be '.' or nothing */
    invalid_assert("00.1", Errors::RootNotSingular); /* after zero should be '.' or nothing */
}

#[test]
fn parser_parse_null() {
    json_assert("null", Value::Null);
    json_assert("null", Value::Null);
    json_assert(" null", Value::Null);
    json_assert("\n null", Value::Null);
    json_assert("\t null", Value::Null);
}

#[test]
fn null_parse_null() {
    json_assert("null", Value::Null);
    json_assert("null", Value::Null);
    json_assert(" null", Value::Null);
    json_assert("\n null", Value::Null);
    json_assert("\t null", Value::Null);
}

#[test]
fn parser_parse_true() {
    json_assert("true", Value::Bool(true));
    json_assert("true", Value::Bool(true));
    json_assert(" true", Value::Bool(true));
    json_assert("\n true", Value::Bool(true));
    json_assert("\t true", Value::Bool(true));
}

#[test]
fn bool_parse_true() {
    json_assert("true", Value::Bool(true));
    json_assert("true", Value::Bool(true));
    json_assert(" true", Value::Bool(true));
    json_assert("\n true", Value::Bool(true));
    json_assert("\t true", Value::Bool(true));
}

#[test]
fn parser_parse_false() {
    json_assert("false", Value::Bool(false));
    json_assert("false", Value::Bool(false));
    json_assert(" false", Value::Bool(false));
    json_assert("\n false", Value::Bool(false));
    json_assert("\t false", Value::Bool(false));
}

#[test]
fn bool_parse_false() {
    json_assert("false", Value::Bool(false));
    json_assert("false", Value::Bool(false));
    json_assert(" false", Value::Bool(false));
    json_assert("\n false", Value::Bool(false));
    json_assert("\t false", Value::Bool(false));
}

#[test]
fn parser_simple_number() {
    json_assert("0", num(0.0));
    json_assert("-0", num(0.0));
    json_assert("-0.0", num(0.0));
    json_assert("1", num(1.0));
    json_assert("-1", num(-1.0));
    json_assert("1.5", num(1.5));
    json_assert("-1.5", num(-1.5));
    json_assert("3.1416", num(3.1416));
}

#[test]
fn parser_parse_num_with_exp() {
    json_assert("1E10", num(1E10));
    json_assert("1e10", num(1e10));
    json_assert("1E+10", num(1E+10));
    json_assert("1E-10", num(1E-10));
    json_assert("-1E10", num(-1E10));
    json_assert("-1e10", num(-1e10));
    json_assert("-1E+10", num(-1E+10));
    json_assert("-1E-10", num(-1E-10));
    json_assert("1.234E+10", num(1.234E+10));
    json_assert("1.234E-10", num(1.234E-10));
}

#[test]
fn parser_parse_num_edge_case() {
    json_assert("1e-10000", num(0.0)); /* must underflow */
    json_assert("1.0000000000000002", num(1.0000000000000002)); /* the smallest number > 1 */
    json_assert("4.9406564584124654e-324", num(4.9406564584124654e-324)); /* minimum denormal */
    json_assert("-4.9406564584124654e-324", num(-4.9406564584124654e-324));
    json_assert("2.2250738585072009e-308", num(2.2250738585072009e-308)); /* Max subnormal double */
    json_assert("-2.2250738585072009e-308", num(-2.2250738585072009e-308));
    json_assert("2.2250738585072014e-308", num(2.2250738585072014e-308)); /* Min normal positive double */
    json_assert("-2.2250738585072014e-308", num(-2.2250738585072014e-308));
    json_assert("1.7976931348623157e+308", num(1.7976931348623157e+308)); /* Max double */
    json_assert("-1.7976931348623157e+308", num(-1.7976931348623157e+308));
}

#[test]
fn parser_parse_invalid_num() {
    /* invalid number */
    invalid_assert("+0", Errors::InvalidValue);
    invalid_assert("+1", Errors::InvalidValue);
    invalid_assert(".123", Errors::InvalidValue); /* at least one digit before '.' */
    invalid_assert("1.", Errors::InvalidValue); /* at least one digit after '.' */
    invalid_assert("0.", Errors::InvalidValue); /* at least one digit after '.' */
    invalid_assert("INF", Errors::InvalidValue);
    invalid_assert("inf", Errors::InvalidValue);
    invalid_assert("NAN", Errors::InvalidValue);
    invalid_assert("nan", Errors::InvalidValue);
    invalid_assert("-", Errors::InvalidValue);
    invalid_assert("1ee", Errors::InvalidValue); /* bad exp field */
    invalid_assert("1e", Errors::InvalidValue); /* bad exp field */
}

#[test]
fn parser_parse_large_num() {
    invalid_assert("1e309", Errors::NumberTooBig);
}

#[test]
fn parser_parse_string() {
    json_assert(&quote("Hello"), text("Hello"));
    json_assert(&quote(r#"Hello\nWorld"#), text("Hello\nWorld"));
    /* special char */
    json_assert(&quote(r#"\""#), text("\""));
    json_assert(&quote(r#"\\"#), text("\\"));
    json_assert(&quote(r#"\/"#), text("/"));
    json_assert(&quote(r#"\n"#), text("\n"));
    json_assert(&quote(r#"\r"#), text("\r"));
    json_assert(&quote(r#"\t"#), text("\t"));
    json_assert(&quote(r#"\b"#), text("\x08"));
    json_assert(&quote(r#"\f"#), text("\x0C"));
    json_assert(
        &quote(r#"\"\\\/\n\r\t\b\f"#),
        text("\"\\/\n\r\t\x08\x0C"),
    )
}

#[test]
fn string_parse_string() {
    json_assert(&quote("Hello"), text("Hello"));
    json_assert(&quote(r#"Hello\nWorld"#), text("Hello\nWorld"));
    /* special char */
    json_assert(&quote(r#"\""#), text("\""));
    json_assert(&quote(r#"\\"#), text("\\"));
    json_assert(&quote(r#"\/"#), text("/"));
    json_assert(&quote(r#"\n"#), text("\n"));
    json_assert(&quote(r#"\r"#), text("\r"));
    json_assert(&quote(r#"\t"#), text("\t"));
    json_assert(&quote(r#"\b"#), text("\x08"));
    json_assert(&quote(r#"\f"#), text("\x0C"));
    json_assert(
        &quote(r#"\"\\\/\n\r\t\b\f"#),
        text("\"\\/\n\r\t\x08\x0C"),
    )
}

#[test]
fn parser_invalid_string() {
    invalid_assert(&quote(r#"\v"#), Errors::InvalidStringEscape);
    invalid_assert(&quote(r#"\'"#), Errors::InvalidStringEscape);
    invalid_assert(&quote(r#"\0"#), Errors::InvalidStringEscape);
    invalid_assert(&quote("\x12"), Errors::InvalidStringChar);
    invalid_assert(r#""\"#, Errors::MissingQuotationMark); // "\
    invalid_assert(r#"""#, Errors::MissingQuotationMark); // "
}

#[test]
fn string_invalid_string() {
    invalid_assert(&quote(r#"\v"#), Errors::InvalidStringEscape);
    invalid_assert(&quote(r#"\'"#), Errors::InvalidStringEscape);
    invalid_assert(&quote(r#"\0"#), Errors::InvalidStringEscape);
    invalid_assert(&quote("\x12"), Errors::InvalidStringChar);
    invalid_assert(r#""\"#, Errors::MissingQuotationMark); // "\
    invalid_assert(r#"""#, Errors::MissingQuotationMark); // "
}

#[test]
fn parser_valid_array() {
    json_assert("[true]", Value::Array(vec![Value::Bool(true)]));
    json_assert("[ true]", Value::Array(vec![Value::Bool(true)]));
    json_assert("[ true ]", Value::Array(vec![Value::Bool(true)]));
    json_assert("[null,null]", Value::Array(vec![Value::Null, Value::Null]));
}

#[test]
fn array_valid_array() {
    json_assert("[true]", Value::Array(vec![Value::Bool(true)]));
    json_assert("[ true]", Value::Array(vec![Value::Bool(true)]));
    json_assert("[ true ]", Value::Array(vec![Value::Bool(true)]));
    json_assert("[null,null]", Value::Array(vec![Value::Null, Value::Null]));
    json_assert("[]", Value::Array(vec![]));
    json_assert("[123]", Value::Array(vec![num(123.0)]));
    json_assert("[123 ]", Value::Array(vec![num(123.0)]));
    json_assert(
        r#"[ null , false , true , 123 , "abc" ]"#,
        Value::Array(vec![
            Value::Null,
            Value::Bool(false),
            Value::Bool(true),
            num(123.0),
            Value::String("abc".to_string()),
        ]),
    );
    json_assert(
        "[ [ ] , [ 0 ] , [ 0 , 1 ] , [ 0 , 1 , 2 ] ]",
        Value::Array(vec![
            Value::Array(vec![]),
            Value::Array(vec![num(0.0)]),
            Value::Array(vec![num(0.0), num(1.0)]),
            Value::Array(vec![num(0.0), num(1.0), num(2.0)]),
        ]),
    )
}

#[test]
fn invalid_array() {
    invalid_assert("[", Errors::MissingCommaOrClosingBracket);
    invalid_assert("[   ", Errors::MissingCommaOrClosingBracket);
    invalid_assert("[ null  ", Errors::MissingCommaOrClosingBracket);
    invalid_assert("[[] ", Errors::MissingCommaOrClosingBracket);
    invalid_assert("]", Errors::InvalidValue);
}

#[test]
fn empty_containers() {
    json_assert("[]", Value::Array(vec![]));
    json_assert("{}", Value::Object(vec![]));
    json_assert(" { } ", Value::Object(vec![]));
}

#[test]
fn empty_text_reaches_the_end() {
    invalid_assert("", Errors::ReachEOF);
    invalid_assert("   ", Errors::ReachEOF);
    invalid_assert("\r\n\t ", Errors::ReachEOF);
}

#[test]
fn whitespace_is_four_characters_only() {
    json_assert(" \t\r\n true \t\r\n ", Value::Bool(true));
    invalid_assert("\u{b}true", Errors::InvalidValue);
    invalid_assert("\u{a0}true", Errors::InvalidValue);
    invalid_assert("true\u{c}", Errors::RootNotSingular);
}

#[test]
fn literals_must_be_exact() {
    invalid_assert("nul", Errors::InvalidValue);
    invalid_assert("tru", Errors::InvalidValue);
    invalid_assert("fals", Errors::InvalidValue);
    invalid_assert("t", Errors::InvalidValue);
    invalid_assert("nulL", Errors::InvalidValue);
    invalid_assert("True", Errors::InvalidValue);
    invalid_assert("truee", Errors::RootNotSingular);
    invalid_assert("nullnull", Errors::RootNotSingular);
}

#[test]
fn commas_in_arrays_are_passed_over() {
    json_assert("[,]", Value::Array(vec![]));
    json_assert("[1 2]", Value::Array(vec![num(1.0), num(2.0)]));
    json_assert("[,,1,,2,,]", Value::Array(vec![num(1.0), num(2.0)]));
    json_assert("[01]", Value::Array(vec![num(0.0), num(1.0)]));
}

#[test]
fn errors_inside_containers_come_out() {
    invalid_assert("[1e309]", Errors::NumberTooBig);
    invalid_assert("[\"\\x\"]", Errors::InvalidStringEscape);
    invalid_assert("[\"a", Errors::MissingQuotationMark);
    invalid_assert("[tru]", Errors::InvalidValue);
    invalid_assert("{\"a\":[}", Errors::InvalidValue);
    invalid_assert("{\"a\":", Errors::ReachEOF);
    invalid_assert("{\"a\": {\"b\" 1}}", Errors::MissingSemicolon);
    invalid_assert("[{\"a\":1 2}]", Errors::MissingCommaOrClosingCurlyBracket);
    invalid_assert("[1] 2", Errors::RootNotSingular);
    invalid_assert("{} {}", Errors::RootNotSingular);
}

#[test]
fn strings_keep_what_is_not_escaped() {
    json_assert(&quote("a\u{7f}b"), text("a\u{7f}b"));
    json_assert(&quote("\u{4e16}\u{754c}"), text("\u{4e16}\u{754c}"));
    json_assert(&quote(" "), text(" "));
    json_assert(&quote(""), text(""));
    invalid_assert(&quote("\u{1f}"), Errors::InvalidStringChar);
    invalid_assert(&quote("\u{0}"), Errors::InvalidStringChar);
    invalid_assert(&quote("a\nb"), Errors::InvalidStringChar);
    invalid_assert(&quote("\\u0041"), Errors::InvalidStringEscape);
    json_assert(&quote("\u{100}"), text("\u{100}"));
}

#[test]
fn deep_nesting() {
    let depth = 200;
    let mut json = String::new();
    for _ in 0..depth {
        json.push('[');
    }
    for _ in 0..depth {
        json.push(']');
    }
    let mut expected = Value::Array(vec![]);
    for _ in 1..depth {
        expected = Value::Array(vec![expected]);
    }
    json_assert(&json, expected);
}
