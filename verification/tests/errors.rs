use dandelion_json::errors::Errors;

#[test]
fn every_error_has_its_words() {
    assert_eq!(Errors::InvalidValue.message(), "Value is Invalid");
    assert_eq!(
        Errors::InvalidStringEscape.message(),
        "Invalid string escape sequence"
    );
    assert_eq!(Errors::InvalidStringChar.message(), "Invalid string character");
    assert_eq!(
        Errors::MissingQuotationMark.message(),
        "Quotation mark is missing"
    );
    assert_eq!(Errors::MissingSemicolon.message(), "Semicolon is missing");
    assert_eq!(
        Errors::MissingCommaOrClosingBracket.message(),
        "Comma or closing bracket is missing"
    );
    assert_eq!(
        Errors::MissingCommaOrClosingCurlyBracket.message(),
        "Comma or closing curly bracket is missing"
    );
    assert_eq!(Errors::MissingKey.message(), "Object key is missing");
    assert_eq!(Errors::RootNotSingular.message(), "Root is not singular");
    assert_eq!(Errors::ReachEOF.message(), "EOF is reached");
    assert_eq!(Errors::NumberTooBig.message(), "Number too big");
}

#[test]
fn errors_compare_by_variant() {
    assert_eq!(Errors::InvalidValue, Errors::InvalidValue);
    assert_ne!(Errors::InvalidValue, Errors::ReachEOF);
    assert_ne!(
        Errors::MissingCommaOrClosingBracket,
        Errors::MissingCommaOrClosingCurlyBracket
    );
}
