//! `==` on numbers and on value trees.

use crate::data::{
    find_member, items_view, lemma_members_view, members_view, same_json,
    value_view, Value,
};
use crate::number::{same_number, Number};
use vstd::prelude::*;
use vstd::std_specs::cmp::PartialEqSpecImpl;

verus! {

/// Whether two doubles, given by their bits, are equal.
pub fn same_bits(a: u64, b: u64) -> (r: bool)
    ensures
        r == same_number(a, b),
{
    let a_is_nan = a / 0x10_0000_0000_0000 % 0x800 == 0x7FF && a % 0x10_0000_0000_0000 != 0;
    let b_is_nan = b / 0x10_0000_0000_0000 % 0x800 == 0x7FF && b % 0x10_0000_0000_0000 != 0;
    let both_zero = a % 0x8000_0000_0000_0000 == 0 && b % 0x8000_0000_0000_0000 == 0;
    !a_is_nan && !b_is_nan && (a == b || both_zero)
}

impl PartialEq for Number {
    fn eq(&self, other: &Number) -> (r: bool) {
        same_bits(self.bits, other.bits)
    }
}

impl PartialEqSpecImpl for Number {
    open spec fn obeys_eq_spec() -> bool {
        true
    }

    open spec fn eq_spec(&self, other: &Number) -> bool {
        same_number(self.bits, other.bits)
    }
}

/// Whether two values denote equal things.
pub fn values_equal(a: &Value, b: &Value) -> (r: bool)
    ensures
        r == same_json(a@, b@),
    decreases *a,
{
    match (a, b) {
        (Value::Null, Value::Null) => true,
        (Value::Bool(x), Value::Bool(y)) => *x == *y,
        (Value::Number(x), Value::Number(y)) => same_bits(x.bits, y.bits),
        (Value::String(x), Value::String(y)) => *x == *y,
        (Value::Array(x), Value::Array(y)) => items_equal(x, y),
        (Value::Object(x), Value::Object(y)) => members_equal(x, y),
        _ => false,
    }
}

/// Whether two lists of items denote equal sequences.
fn items_equal(x: &Vec<Value>, y: &Vec<Value>) -> (r: bool)
    ensures
        r == same_json(value_view(Value::Array(*x)), value_view(Value::Array(*y))),
    decreases *x,
{
    if x.len() != y.len() {
        return false;
    }
    let mut i: usize = 0;
    while i < x.len()
        invariant
            i <= x.len(),
            x.len() == y.len(),
            forall|j: int| 0 <= j < i ==> same_json(#[trigger] items_view(x@)[j], items_view(y@)[j]),
        decreases x.len() - i,
    {
        assert(items_view(x@)[i as int] == x@[i as int]@);
        assert(items_view(y@)[i as int] == y@[i as int]@);
        if !values_equal(&x[i], &y[i]) {
            return false;
        }
        i += 1;
    }
    assert(items_view(x@).len() == items_view(y@).len());
    true
}

/// Whether two lists of members denote equal mappings.
fn members_equal(x: &Vec<(String, Value)>, y: &Vec<(String, Value)>) -> (r: bool)
    ensures
        r == same_json(value_view(Value::Object(*x)), value_view(Value::Object(*y))),
    decreases *x,
{
    let ghost mx = members_view(x@);
    let ghost my = members_view(y@);
    let mut i: usize = 0;
    while i < x.len()
        invariant
            i <= x.len(),
            mx == members_view(x@),
            my == members_view(y@),
            forall|j: int|
                0 <= j < i ==> {
                    &&& mx.contains_key(#[trigger] x@[j].0@)
                    &&& my.contains_key(x@[j].0@)
                    &&& same_json(mx[x@[j].0@], my[x@[j].0@])
                },
        decreases x.len() - i,
    {
        let key = x[i].0.as_str();
        proof {
            lemma_members_view(x@, key@);
            lemma_members_view(y@, key@);
        }
        match find_member(x, key) {
            Some(ix) => match find_member(y, key) {
                Some(iy) => {
                    if !values_equal(&x[ix].1, &y[iy].1) {
                        assert(mx.contains_key(key@) && !same_json(mx[key@], my[key@]));
                        return false;
                    }
                },
                None => {
                    assert(mx.contains_key(key@) && !my.contains_key(key@));
                    return false;
                },
            },
            None => {
                return false;
            },
        }
        i += 1;
    }
    let mut j: usize = 0;
    while j < y.len()
        invariant
            j <= y.len(),
            mx == members_view(x@),
            my == members_view(y@),
            forall|k: int| 0 <= k < j ==> mx.contains_key(#[trigger] y@[k].0@),
        decreases y.len() - j,
    {
        let key = y[j].0.as_str();
        proof {
            lemma_members_view(x@, key@);
            lemma_members_view(y@, key@);
        }
        if find_member(x, key).is_none() {
            assert(my.contains_key(key@) && !mx.contains_key(key@));
            return false;
        }
        j += 1;
    }
    proof {
        assert forall|k: Seq<char>| #[trigger] mx.contains_key(k) implies my.contains_key(k)
            && same_json(mx[k], my[k]) by {
            lemma_members_view(x@, k);
        }
        assert forall|k: Seq<char>| #[trigger] my.contains_key(k) implies mx.contains_key(k) by {
            lemma_members_view(y@, k);
        }
        assert(mx.dom() =~= my.dom());
    }
    true
}

impl PartialEq for Value {
    fn eq(&self, other: &Value) -> (r: bool) {
        values_equal(self, other)
    }
}

impl PartialEqSpecImpl for Value {
    open spec fn obeys_eq_spec() -> bool {
        true
    }

    open spec fn eq_spec(&self, other: &Value) -> bool {
        same_json(self@, other@)
    }
}

} // verus!
