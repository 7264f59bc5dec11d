//! The closed set of ways a parse can fail.

use vstd::prelude::*;

verus! {

/// Why a text was rejected. The first violation met while reading the text
/// from left to right decides the variant.
#[derive(Debug, Clone, Copy, PartialEq, Eq, Structural)]
pub enum Errors {
    /// A literal or a number does not follow its grammar.
    InvalidValue,
    /// A backslash inside a string is followed by an unknown character.
    InvalidStringEscape,
    /// A raw control character (below U+0020) stands inside a string.
    InvalidStringChar,
    /// The text ends before a string is closed.
    MissingQuotationMark,
    /// An object key is not followed by a colon.
    MissingSemicolon,
    /// The text ends before an array is closed.
    MissingCommaOrClosingBracket,
    /// An object member is followed by neither a comma nor a closing brace.
    MissingCommaOrClosingCurlyBracket,
    /// Where an object key or a closing brace must stand, something else does.
    MissingKey,
    /// Something other than whitespace follows the document's single value.
    RootNotSingular,
    /// The text ends where a value must start.
    ReachEOF,
    /// A well-formed number is too large for a finite double.
    NumberTooBig,
}

impl Errors {
    /// The words that describe the error.
    pub open spec fn message_text(self) -> Seq<char> {
        match self {
            Errors::InvalidValue => "Value is Invalid"@,
            Errors::InvalidStringEscape => "Invalid string escape sequence"@,
            Errors::InvalidStringChar => "Invalid string character"@,
            Errors::MissingQuotationMark => "Quotation mark is missing"@,
            Errors::MissingSemicolon => "Semicolon is missing"@,
            Errors::MissingCommaOrClosingBracket => "Comma or closing bracket is missing"@,
            Errors::MissingCommaOrClosingCurlyBracket => "Comma or closing curly bracket is missing"@,
            Errors::MissingKey => "Object key is missing"@,
            Errors::RootNotSingular => "Root is not singular"@,
            Errors::ReachEOF => "EOF is reached"@,
            Errors::NumberTooBig => "Number too big"@,
        }
    }

    /// The words that describe the error, as a text.
    pub fn message(&self) -> (r: String)
        ensures
            r@ == self.message_text(),
    {
        match self {
            Errors::InvalidValue => "Value is Invalid".to_owned(),
            Errors::InvalidStringEscape => "Invalid string escape sequence".to_owned(),
            Errors::InvalidStringChar => "Invalid string character".to_owned(),
            Errors::MissingQuotationMark => "Quotation mark is missing".to_owned(),
            Errors::MissingSemicolon => "Semicolon is missing".to_owned(),
            Errors::MissingCommaOrClosingBracket => "Comma or closing bracket is missing".to_owned(),
            Errors::MissingCommaOrClosingCurlyBracket => {
                "Comma or closing curly bracket is missing".to_owned()
            },
            Errors::MissingKey => "Object key is missing".to_owned(),
            Errors::RootNotSingular => "Root is not singular".to_owned(),
            Errors::ReachEOF => "EOF is reached".to_owned(),
            Errors::NumberTooBig => "Number too big".to_owned(),
        }
    }
}

} // verus!
