//! The language that the parser accepts, as functions of the text.
//!
//! Every function here takes the whole text and a position in it, and says
//! what stands at that position: a value of the model with the position
//! after it, or the error that the first violation gives.

use crate::data::Json;
use crate::decimal::{all_digits, decimal_bits, is_digit};
use crate::errors::Errors;
use crate::number::{INFINITY_BITS, SIGN_BIT};
use vstd::prelude::*;

verus! {

/// The four characters that may stand between tokens.
pub open spec fn is_whitespace(c: char) -> bool {
    c == ' ' || c == '\t' || c == '\n' || c == '\r'
}

/// Whether `c` stands at position `i` of `s`.
pub open spec fn at(s: Seq<char>, i: int, c: char) -> bool {
    0 <= i < s.len() && s[i] == c
}

/// The first position from `i` on that holds no whitespace.
pub open spec fn skip_whitespace(s: Seq<char>, i: int) -> int
    decreases s.len() - i,
{
    if 0 <= i < s.len() && is_whitespace(s[i]) {
        skip_whitespace(s, i + 1)
    } else {
        i
    }
}

/// The first position from `i` on that holds no digit.
pub open spec fn skip_digits(s: Seq<char>, i: int) -> int
    decreases s.len() - i,
{
    if 0 <= i < s.len() && is_digit(s[i]) {
        skip_digits(s, i + 1)
    } else {
        i
    }
}

/// The text of the literal for true.
pub open spec fn text_true() -> Seq<char> {
    seq!['t', 'r', 'u', 'e']
}

/// The text of the literal for false.
pub open spec fn text_false() -> Seq<char> {
    seq!['f', 'a', 'l', 's', 'e']
}

/// The text of the literal for null.
pub open spec fn text_null() -> Seq<char> {
    seq!['n', 'u', 'l', 'l']
}

/// A literal at position `i`: its exact text, or nothing valid.
pub open spec fn literal_at(s: Seq<char>, i: int, text: Seq<char>, value: Json) -> Result<
    (Json, int),
    Errors,
> {
    if 0 <= i && i + text.len() <= s.len() && s.subrange(i, i + text.len()) == text {
        Ok((value, i + text.len()))
    } else {
        Err(Errors::InvalidValue)
    }
}

/// Where the parts of a number stand in the text. An absent fraction or
/// exponent is an empty range.
pub struct Numeral {
    pub negative: bool,
    pub integer: (int, int),
    pub fraction: (int, int),
    pub exponent_negative: bool,
    pub exponent: (int, int),
    pub end: int,
}

/// The integer part of a number at position `a`, by its end: a single
/// zero, or a nonzero digit and all the digits that follow it.
pub open spec fn integer_part(s: Seq<char>, a: int) -> Option<int> {
    if !(0 <= a < s.len() && is_digit(s[a])) {
        None
    } else if s[a] == '0' {
        Some(a + 1)
    } else {
        Some(skip_digits(s, a))
    }
}

/// The fraction digits of a number whose integer part ends at `b`, by
/// their range: after a point, one digit or more; without a point, none.
pub open spec fn fraction_part(s: Seq<char>, b: int) -> Option<(int, int)> {
    if at(s, b, '.') {
        let c = skip_digits(s, b + 1);
        if c == b + 1 {
            None
        } else {
            Some((b + 1, c))
        }
    } else {
        Some((b, b))
    }
}

/// The exponent of a number whose fraction ends at `c`, by its sign and
/// the range of its digits: after `e` or `E` and an optional sign, one
/// digit or more; without `e` or `E`, none.
pub open spec fn exponent_part(s: Seq<char>, c: int) -> Option<(bool, int, int)> {
    if at(s, c, 'e') || at(s, c, 'E') {
        let negative = at(s, c + 1, '-');
        let d = if negative || at(s, c + 1, '+') {
            c + 2
        } else {
            c + 1
        };
        let e = skip_digits(s, d);
        if e == d {
            None
        } else {
            Some((negative, d, e))
        }
    } else {
        Some((false, c, c))
    }
}

/// The number token at position `i`: an optional minus, the integer part,
/// the fraction and the exponent. The token is read greedily and never
/// given back: what has begun a fraction or an exponent must complete it.
pub open spec fn numeral_at(s: Seq<char>, i: int) -> Option<Numeral> {
    let negative = at(s, i, '-');
    let a = if negative {
        i + 1
    } else {
        i
    };
    match integer_part(s, a) {
        None => None,
        Some(b) => match fraction_part(s, b) {
            None => None,
            Some(fraction) => match exponent_part(s, fraction.1) {
                None => None,
                Some((exponent_negative, d, e)) => Some(
                    Numeral {
                        negative,
                        integer: (a, b),
                        fraction,
                        exponent_negative,
                        exponent: (d, e),
                        end: e,
                    },
                ),
            },
        },
    }
}

/// The sign-free bits of the double nearest to a number token.
pub open spec fn numeral_bits(s: Seq<char>, n: Numeral) -> u64 {
    decimal_bits(
        s.subrange(n.integer.0, n.integer.1),
        s.subrange(n.fraction.0, n.fraction.1),
        n.exponent_negative,
        s.subrange(n.exponent.0, n.exponent.1),
    )
}

/// A number at position `i`: the double nearest to its token, with the
/// token's sign. A token that rounds to infinity is too big.
pub open spec fn number_at(s: Seq<char>, i: int) -> Result<(Json, int), Errors> {
    match numeral_at(s, i) {
        None => Err(Errors::InvalidValue),
        Some(n) => {
            let m = numeral_bits(s, n);
            if m >= INFINITY_BITS {
                Err(Errors::NumberTooBig)
            } else if n.negative {
                Ok((Json::Number((m + SIGN_BIT) as u64), n.end))
            } else {
                Ok((Json::Number(m), n.end))
            }
        },
    }
}

/// What the character after a backslash stands for.
pub open spec fn unescape(c: char) -> Option<char> {
    if c == '"' {
        Some('"')
    } else if c == '\\' {
        Some('\\')
    } else if c == '/' {
        Some('/')
    } else if c == 'b' {
        Some('\u{8}')
    } else if c == 'f' {
        Some('\u{c}')
    } else if c == 'n' {
        Some('\n')
    } else if c == 'r' {
        Some('\r')
    } else if c == 't' {
        Some('\t')
    } else {
        None
    }
}

/// A control character, which may not stand raw inside a string.
pub open spec fn is_control(c: char) -> bool {
    c <= '\u{1f}'
}

/// The rest of a string from position `i` inside it, after the characters
/// `acc` that it holds so far: up to the closing quotation mark.
pub open spec fn string_from(s: Seq<char>, i: int, acc: Seq<char>) -> Result<
    (Seq<char>, int),
    Errors,
>
    decreases s.len() - i,
{
    if !(0 <= i < s.len()) {
        Err(Errors::MissingQuotationMark)
    } else if s[i] == '"' {
        Ok((acc, i + 1))
    } else if s[i] == '\\' {
        if i + 1 >= s.len() {
            Err(Errors::MissingQuotationMark)
        } else {
            match unescape(s[i + 1]) {
                Some(c) => string_from(s, i + 2, acc.push(c)),
                None => Err(Errors::InvalidStringEscape),
            }
        }
    } else if is_control(s[i]) {
        Err(Errors::InvalidStringChar)
    } else {
        string_from(s, i + 1, acc.push(s[i]))
    }
}

/// The string whose opening quotation mark stands at position `i`.
pub open spec fn string_at(s: Seq<char>, i: int) -> Result<(Seq<char>, int), Errors> {
    string_from(s, i + 1, Seq::empty())
}

/// Skipping whitespace passes whitespace only, stops inside the text or
/// at its end, and stops where no whitespace stands.
pub proof fn lemma_skip_whitespace(s: Seq<char>, i: int)
    requires
        0 <= i <= s.len(),
    ensures
        i <= skip_whitespace(s, i) <= s.len(),
        skip_whitespace(s, i) < s.len() ==> !is_whitespace(s[skip_whitespace(s, i)]),
        forall|j: int| i <= j < skip_whitespace(s, i) ==> is_whitespace(s[j]),
        skip_whitespace(s, skip_whitespace(s, i)) == skip_whitespace(s, i),
    decreases s.len() - i,
{
    if i < s.len() && is_whitespace(s[i]) {
        lemma_skip_whitespace(s, i + 1);
    }
}

/// Skipping digits passes digits only, stops inside the text or at its
/// end, and stops where no digit stands.
pub proof fn lemma_skip_digits(s: Seq<char>, i: int)
    requires
        0 <= i <= s.len(),
    ensures
        i <= skip_digits(s, i) <= s.len(),
        skip_digits(s, i) < s.len() ==> !is_digit(s[skip_digits(s, i)]),
        forall|j: int| i <= j < skip_digits(s, i) ==> is_digit(s[j]),
    decreases s.len() - i,
{
    if i < s.len() && is_digit(s[i]) {
        lemma_skip_digits(s, i + 1);
    }
}

/// A string ends after the position where its reading went on.
pub proof fn lemma_string_advances(s: Seq<char>, i: int, acc: Seq<char>)
    requires
        0 <= i,
    ensures
        string_from(s, i, acc) matches Ok((_, end)) ==> i < end <= s.len(),
    decreases s.len() - i,
{
    if 0 <= i < s.len() && s[i] != '"' {
        if s[i] == '\\' {
            if i + 1 < s.len() {
                match unescape(s[i + 1]) {
                    Some(c) => lemma_string_advances(s, i + 2, acc.push(c)),
                    None => {},
                }
            }
        } else if !is_control(s[i]) {
            lemma_string_advances(s, i + 1, acc.push(s[i]));
        }
    }
}

/// The value at position `i`, chosen by the character there.
pub open spec fn value_at(s: Seq<char>, i: int) -> Result<(Json, int), Errors>
    decreases s.len() - i, 0nat,
{
    if !(0 <= i < s.len()) {
        Err(Errors::ReachEOF)
    } else if s[i] == 't' {
        literal_at(s, i, text_true(), Json::Bool(true))
    } else if s[i] == 'f' {
        literal_at(s, i, text_false(), Json::Bool(false))
    } else if s[i] == 'n' {
        literal_at(s, i, text_null(), Json::Null)
    } else if s[i] == '[' {
        items_from(s, i + 1, Seq::empty())
    } else if s[i] == '{' {
        members_from(s, i + 1, Map::empty())
    } else if s[i] == '"' {
        match string_at(s, i) {
            Ok((text, end)) => Ok((Json::String(text), end)),
            Err(e) => Err(e),
        }
    } else {
        number_at(s, i)
    }
}

/// The rest of an array from position `i` inside it, after the items `acc`
/// that it holds so far. After any whitespace, a comma is passed over, a
/// closing bracket ends the array, and anything else must be an item.
///
/// An item is never empty and ends inside the text
/// (`lemma_value_advances`); the test of that only shows that the reading
/// goes forward.
pub open spec fn items_from(s: Seq<char>, i: int, acc: Seq<Json>) -> Result<(Json, int), Errors>
    decreases s.len() - i, 1nat,
    via items_from_decreases
{
    let j = skip_whitespace(s, i);
    if !(0 <= j < s.len()) {
        Err(Errors::MissingCommaOrClosingBracket)
    } else if s[j] == ',' {
        items_from(s, j + 1, acc)
    } else if s[j] == ']' {
        Ok((Json::Array(acc), j + 1))
    } else {
        match value_at(s, j) {
            Ok((item, end)) => if j < end <= s.len() {
                items_from(s, end, acc.push(item))
            } else {
                Err(Errors::InvalidValue)
            },
            Err(e) => Err(e),
        }
    }
}

#[via_fn]
proof fn items_from_decreases(s: Seq<char>, i: int, acc: Seq<Json>) {
    if 0 <= i <= s.len() {
        lemma_skip_whitespace(s, i);
    } else {
        assert(skip_whitespace(s, i) == i);
    }
}

/// The member whose key opens at position `i`: a string, a colon and a
/// value, with any whitespace around the colon.
pub open spec fn pair_at(s: Seq<char>, i: int) -> Result<(Seq<char>, Json, int), Errors>
    decreases s.len() - i, 0nat,
    via pair_at_decreases
{
    match string_at(s, i) {
        Err(e) => Err(e),
        Ok((name, after_name)) => {
            let colon = skip_whitespace(s, after_name);
            if !at(s, colon, ':') {
                Err(Errors::MissingSemicolon)
            } else {
                match value_at(s, skip_whitespace(s, colon + 1)) {
                    Ok((value, end)) => Ok((name, value, end)),
                    Err(e) => Err(e),
                }
            }
        },
    }
}

#[via_fn]
proof fn pair_at_decreases(s: Seq<char>, i: int) {
    if 0 <= i + 1 {
        lemma_string_advances(s, i + 1, Seq::empty());
        match string_at(s, i) {
            Ok((name, after_name)) => {
                lemma_skip_whitespace(s, after_name);
                let colon = skip_whitespace(s, after_name);
                if colon < s.len() {
                    lemma_skip_whitespace(s, colon + 1);
                }
            },
            Err(_) => {},
        }
    }
}

/// The rest of an object from position `i` inside it, after the members
/// `acc` that it holds so far. After any whitespace, a closing brace ends
/// the object and a quotation mark opens a member; a member binds its key,
/// over any earlier binding, and is followed by a comma or by the closing
/// brace.
///
/// A member is never empty (`lemma_value_advances`); the test of that
/// only shows that the reading goes forward.
pub open spec fn members_from(s: Seq<char>, i: int, acc: Map<Seq<char>, Json>) -> Result<
    (Json, int),
    Errors,
>
    decreases s.len() - i, 1nat,
    via members_from_decreases
{
    let j = skip_whitespace(s, i);
    if at(s, j, '}') {
        Ok((Json::Object(acc), j + 1))
    } else if !at(s, j, '"') {
        Err(Errors::MissingKey)
    } else {
        match pair_at(s, j) {
            Err(e) => Err(e),
            Ok((name, value, end)) => {
                let next = skip_whitespace(s, end);
                if next > j && at(s, next, ',') {
                    members_from(s, next + 1, acc.insert(name, value))
                } else if at(s, next, '}') {
                    Ok((Json::Object(acc.insert(name, value)), next + 1))
                } else {
                    Err(Errors::MissingCommaOrClosingCurlyBracket)
                }
            },
        }
    }
}

#[via_fn]
proof fn members_from_decreases(s: Seq<char>, i: int, acc: Map<Seq<char>, Json>) {
    if 0 <= i <= s.len() {
        lemma_skip_whitespace(s, i);
    } else {
        assert(skip_whitespace(s, i) == i);
    }
}

/// The parts of a number token lie one after another between its start and
/// its end, and hold digits only.
pub proof fn lemma_numeral(s: Seq<char>, i: int)
    requires
        0 <= i <= s.len(),
    ensures
        numeral_at(s, i) matches Some(n) ==> {
            &&& i <= n.integer.0 < n.integer.1 <= n.fraction.0 <= n.fraction.1 <= n.exponent.0
                <= n.exponent.1 == n.end <= s.len()
            &&& all_digits(s.subrange(n.integer.0, n.integer.1))
            &&& all_digits(s.subrange(n.fraction.0, n.fraction.1))
            &&& all_digits(s.subrange(n.exponent.0, n.exponent.1))
        },
{
    if let Some(n) = numeral_at(s, i) {
        let a = n.integer.0;
        let b = n.integer.1;
        lemma_skip_digits(s, a);
        if s[a] != '0' {
            assert(skip_digits(s, a) == skip_digits(s, a + 1));
            lemma_skip_digits(s, a + 1);
        }
        if at(s, b, '.') {
            lemma_skip_digits(s, b + 1);
        }
        let c = n.fraction.1;
        if at(s, c, 'e') || at(s, c, 'E') {
            lemma_skip_digits(s, n.exponent.0);
        }
    }
}

/// A value ends after its start and inside the text.
pub proof fn lemma_value_advances(s: Seq<char>, i: int)
    ensures
        value_at(s, i) matches Ok((_, end)) ==> i < end <= s.len(),
    decreases s.len() - i, 0nat,
{
    if 0 <= i < s.len() {
        if s[i] == '[' {
            lemma_items_advance(s, i + 1, Seq::empty());
        } else if s[i] == '{' {
            lemma_members_advance(s, i + 1, Map::empty());
        } else if s[i] == '"' {
            lemma_string_advances(s, i + 1, Seq::empty());
        } else if s[i] != 't' && s[i] != 'f' && s[i] != 'n' {
            lemma_numeral(s, i);
        }
    }
}

/// An array ends after the position where its reading went on.
pub proof fn lemma_items_advance(s: Seq<char>, i: int, acc: Seq<Json>)
    requires
        0 <= i,
    ensures
        items_from(s, i, acc) matches Ok((_, end)) ==> i < end <= s.len(),
    decreases s.len() - i, 1nat,
{
    if i <= s.len() {
        lemma_skip_whitespace(s, i);
        let j = skip_whitespace(s, i);
        if j < s.len() {
            if s[j] == ',' {
                lemma_items_advance(s, j + 1, acc);
            } else if s[j] != ']' {
                if let Ok((item, end)) = value_at(s, j) {
                    if j < end <= s.len() {
                        lemma_items_advance(s, end, acc.push(item));
                    }
                }
            }
        }
    }
}

/// An object ends after the position where its reading went on.
pub proof fn lemma_members_advance(s: Seq<char>, i: int, acc: Map<Seq<char>, Json>)
    requires
        0 <= i,
    ensures
        members_from(s, i, acc) matches Ok((_, end)) ==> i < end <= s.len(),
    decreases s.len() - i, 1nat,
{
    if i <= s.len() {
        lemma_skip_whitespace(s, i);
        let j = skip_whitespace(s, i);
        if at(s, j, '"') {
            if let Ok((name, value, end)) = pair_at(s, j) {
                lemma_pair_advances(s, j);
                lemma_skip_whitespace(s, end);
                let next = skip_whitespace(s, end);
                if next > j && at(s, next, ',') {
                    lemma_members_advance(s, next + 1, acc.insert(name, value));
                }
            }
        }
    }
}

/// A member ends after its start and inside the text.
pub proof fn lemma_pair_advances(s: Seq<char>, i: int)
    requires
        0 <= i,
    ensures
        pair_at(s, i) matches Ok((_, _, end)) ==> i < end <= s.len(),
    decreases s.len() - i, 0nat,
{
    lemma_string_advances(s, i + 1, Seq::empty());
    if let Ok((name, after_name)) = string_at(s, i) {
        lemma_skip_whitespace(s, after_name);
        let colon = skip_whitespace(s, after_name);
        if at(s, colon, ':') {
            lemma_skip_whitespace(s, colon + 1);
            lemma_value_advances(s, skip_whitespace(s, colon + 1));
        }
    }
}

/// A whole text: one value, with any whitespace before and after it, and
/// nothing else.
pub open spec fn document(s: Seq<char>) -> Result<Json, Errors> {
    match value_at(s, skip_whitespace(s, 0)) {
        Err(e) => Err(e),
        Ok((value, end)) => if skip_whitespace(s, end) < s.len() {
            Err(Errors::RootNotSingular)
        } else {
            Ok(value)
        },
    }
}

} // verus!
