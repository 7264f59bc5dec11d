//! What holds of every text and of every value.

use crate::data::{
    items_view, last_index_of, lemma_members_view, members_view, same_json, Json, Key, Value,
};
use crate::decimal::{
    decimal_denominator, decimal_exponent, decimal_numerator, digits_value, is_digit,
    lemma_digits_push, lemma_nearest_is, pow10,
};
use crate::errors::Errors;
use crate::grammar::{
    at, document, exponent_part, fraction_part, integer_part, is_whitespace, literal_at,
    number_at, numeral_at, numeral_bits, skip_whitespace, text_false, text_null, text_true,
    value_at,
};
use crate::number::{is_finite, is_nan, rounds_to};
use vstd::arithmetic::power2::pow2;
use vstd::prelude::*;

verus! {

/// Every character is whitespace.
pub open spec fn all_whitespace(s: Seq<char>) -> bool {
    forall|i: int| 0 <= i < s.len() ==> is_whitespace(#[trigger] s[i])
}

/// Skipping whitespace from `i` ends at `j`, where whitespace fills the
/// text from `i` to `j` and does not go on at `j`.
pub proof fn lemma_skip_whitespace_run(s: Seq<char>, i: int, j: int)
    requires
        0 <= i <= j <= s.len(),
        forall|k: int| i <= k < j ==> is_whitespace(#[trigger] s[k]),
        j < s.len() ==> !is_whitespace(s[j]),
    ensures
        skip_whitespace(s, i) == j,
    decreases j - i,
{
    if i < j {
        assert(is_whitespace(s[i]));
        lemma_skip_whitespace_run(s, i + 1, j);
    }
}

/// A literal after any run of whitespace is the whole document, and its
/// reading ends exactly at the end of the literal.
pub proof fn lemma_literal_after_whitespace(blank: Seq<char>, literal: Seq<char>, value: Json)
    requires
        all_whitespace(blank),
        (literal == text_null() && value == Json::Null) || (literal == text_true() && value
            == Json::Bool(true)) || (literal == text_false() && value == Json::Bool(false)),
    ensures
        skip_whitespace(blank + literal, 0) == blank.len(),
        value_at(blank + literal, blank.len() as int) == Ok::<(Json, int), Errors>(
            (value, (blank + literal).len() as int),
        ),
        document(blank + literal) == Ok::<Json, Errors>(value),
{
    let s = blank + literal;
    let n = blank.len() as int;
    assert forall|k: int| 0 <= k < n implies is_whitespace(#[trigger] s[k]) by {
        assert(s[k] == blank[k]);
    }
    assert(s[n] == literal[0]);
    lemma_skip_whitespace_run(s, 0, n);
    assert(s.subrange(n, n + literal.len()) =~= literal);
    assert(literal_at(s, n, literal, value) == Ok::<(Json, int), Errors>((value, s.len() as int)));
    lemma_skip_whitespace_run(s, s.len() as int, s.len() as int);
}

/// A text of nothing but whitespace, the empty text among them, ends where
/// a value must start.
pub proof fn lemma_blank_text(s: Seq<char>)
    requires
        all_whitespace(s),
    ensures
        document(s) == Err::<Json, Errors>(Errors::ReachEOF),
{
    lemma_skip_whitespace_run(s, 0, s.len() as int);
}

/// A zero that a digit follows is a number by itself: the text that begins
/// so is no single value.
pub proof fn lemma_leading_zero_stands_alone(s: Seq<char>)
    requires
        s.len() >= 2,
        s[0] == '0',
        is_digit(s[1]),
    ensures
        number_at(s, 0) == Ok::<(Json, int), Errors>((Json::Number(0), 1)),
        document(s) == Err::<Json, Errors>(Errors::RootNotSingular),
{
    lemma_skip_whitespace_run(s, 0, 0);
    lemma_skip_whitespace_run(s, 1, 1);
    assert(integer_part(s, 0) == Some(1int));
    assert(fraction_part(s, 1) == Some((1int, 1int)));
    assert(exponent_part(s, 1) == Some((false, 1int, 1int)));
    let n = numeral_at(s, 0).unwrap();
    let zero = s.subrange(0, 1);
    let none = s.subrange(1, 1);
    assert(n.integer == (0int, 1int) && n.fraction == (1int, 1int) && n.exponent == (1int, 1int));
    assert(zero + none =~= seq!['0']);
    lemma_digits_push(Seq::empty(), '0');
    assert(Seq::<char>::empty().push('0') =~= seq!['0']);
    assert(digits_value(Seq::<char>::empty()) == 0);
    assert(digits_value(seq!['0']) == 0);
    assert(digits_value(none) == 0);
    assert(decimal_exponent(none.len(), false, none) == 0);
    assert(decimal_denominator(0) == 1) by {
        assert(pow10(0) == 1);
    }
    assert(decimal_numerator(seq!['0'], 0) == 0) by (nonlinear_arith)
        requires
            decimal_numerator(seq!['0'], 0) == digits_value(seq!['0']) * pow10(0),
            digits_value(seq!['0']) == 0,
    ;
    assert(rounds_to(0, 1, 0)) by {
        assert(0 * pow2(1074) == 0) by (nonlinear_arith);
    }
    lemma_nearest_is(0, 1, 0);
    assert(numeral_bits(s, n) == 0);
}

/// What an indexed write leaves at a key is what a read then finds there.
pub proof fn lemma_write_then_read(json: Json, key: Key, child: Json)
    requires
        json.admits(key),
    ensures
        json.opened().with_child(key, child).child(key) == Some(child),
{
}

/// An indexed write changes no other child.
pub proof fn lemma_write_keeps_the_rest(json: Json, key: Key, child: Json, other: Key)
    requires
        json.admits(key),
        other != key,
    ensures
        json.opened().with_child(key, child).child(other) == json.opened().child(other),
{
}

/// A well-formed value equals itself: with no number that is not a number
/// in it, `==` on such values is reflexive.
pub proof fn lemma_well_formed_equals_itself(value: Value)
    requires
        value.well_formed(),
    ensures
        same_json(value@, value@),
    decreases value,
{
    match value {
        Value::Number(n) => {
            assert(is_finite(n.bits) ==> !is_nan(n.bits));
        },
        Value::Array(items) => {
            let view = items_view(items@);
            assert forall|i: int| 0 <= i < view.len() implies same_json(#[trigger] view[i], view[i]) by {
                lemma_well_formed_equals_itself(items@[i]);
            }
        },
        Value::Object(members) => {
            let view = members_view(members@);
            assert forall|k: Seq<char>| view.contains_key(k) implies same_json(
                #[trigger] view[k],
                view[k],
            ) by {
                lemma_members_view(members@, k);
                let i = last_index_of(members@, k).unwrap();
                lemma_well_formed_equals_itself(members@[i].1);
            }
        },
        _ => {},
    }
}

} // verus!
