//! Indexed access into a value tree, by position or by key.

use crate::data::{
    find_member, lemma_items_view_update_any, lemma_last_index_is,
    lemma_members_view, lemma_members_view_push, lemma_members_view_update_any, members_view,
    value_view, Json, Key, Value,
};
use vstd::pervasive::unreached;
use vstd::prelude::*;

verus! {

/// What can select a child of a value: a `usize` selects from arrays by
/// position, a text from objects by key.
pub trait Index {
    /// The key that this index stands for.
    spec fn key(&self) -> Key;

    /// The child of `v` at this index, if there is one.
    fn index_into<'v>(&self, v: &'v Value) -> (r: Option<&'v Value>)
        ensures
            match r {
                Some(child) => {
                    &&& v@.child(self.key()) == Some(value_view(*child))
                    &&& v.well_formed() ==> child.well_formed()
                },
                None => v@.child(self.key()) is None,
            },
    ;

    /// The child of `v` at this index, for writing, if there is one.
    fn index_into_mut<'v>(&self, v: &'v mut Value) -> (r: Option<&'v mut Value>)
        ensures
            match r {
                Some(child) => {
                    &&& old(v)@.child(self.key()) == Some(value_view(*child))
                    &&& final(v)@ == old(v)@.with_child(self.key(), value_view(*final(child)))
                    &&& old(v).well_formed() ==> child.well_formed()
                    &&& old(v).well_formed() && final(child).well_formed() 
                        ==> final(v).well_formed()
                },
                None => old(v)@.child(self.key()) is None && *final(v) == *old(v),
            },
    ;

    /// The child of `v` at this index, for writing. A key that an object
    /// does not hold yet is first bound to null, and null is first turned
    /// into an empty object. Not defined on a position out of range, a
    /// position of anything but an array, or a key of anything but an
    /// object or null: verified callers are held to that, and others that
    /// break it are stopped by a panic.
    fn index_or_insert<'v>(&self, v: &'v mut Value) -> (r: &'v mut Value)
        requires
            old(v)@.admits(self.key()),
        ensures
            value_view(*r) == old(v)@.slot(self.key()),
            final(v)@ == old(v)@.opened().with_child(self.key(), value_view(*final(r))),
            old(v).well_formed() ==> r.well_formed(),
            old(v).well_formed() && final(r).well_formed() ==> final(v).well_formed(),
    ;
}

impl Index for usize {
    open spec fn key(&self) -> Key {
        Key::Position(*self as nat)
    }

    fn index_into<'v>(&self, v: &'v Value) -> (r: Option<&'v Value>) {
        match v {
            Value::Array(items) => {
                if *self < items.len() {
                    Some(&items[*self])
                } else {
                    None
                }
            },
            _ => None,
        }
    }

    fn index_into_mut<'v>(&self, v: &'v mut Value) -> (r: Option<&'v mut Value>) {
        match v {
            Value::Array(items) => {
                if *self < items.len() {
                    proof {
                        lemma_items_view_update_any(items@, *self as int);
                    }
                    Some(&mut items[*self])
                } else {
                    None
                }
            },
            _ => None,
        }
    }

    fn index_or_insert<'v>(&self, v: &'v mut Value) -> (r: &'v mut Value) {
        match v {
            Value::Array(items) => {
                proof {
                    lemma_items_view_update_any(items@, *self as int);
                }
                &mut items[*self]
            },
            _ => unreached(),
        }
    }
}

impl Index for str {
    open spec fn key(&self) -> Key {
        Key::Name(self@)
    }

    fn index_into<'v>(&self, v: &'v Value) -> (r: Option<&'v Value>) {
        match v {
            Value::Object(members) => {
                proof {
                    lemma_members_view(members@, self@);
                }
                match find_member(members, self) {
                    Some(i) => Some(&members[i].1),
                    None => None,
                }
            },
            _ => None,
        }
    }

    fn index_into_mut<'v>(&self, v: &'v mut Value) -> (r: Option<&'v mut Value>) {
        match v {
            Value::Object(members) => {
                proof {
                    lemma_members_view(members@, self@);
                }
                match find_member(members, self) {
                    Some(i) => {
                        proof {
                            lemma_members_view_update_any(members@, i as int);
                        }
                        Some(&mut members[i].1)
                    },
                    None => None,
                }
            },
            _ => None,
        }
    }

    fn index_or_insert<'v>(&self, v: &'v mut Value) -> (r: &'v mut Value) {
        if let Value::Null = v {
            *v = Value::Object(Vec::new());
        }
        match v {
            Value::Object(members) => {
                proof {
                    lemma_members_view(members@, self@);
                }
                match find_member(members, self) {
                    Some(i) => {
                        proof {
                            lemma_members_view_update_any(members@, i as int);
                        }
                        &mut members[i].1
                    },
                    None => {
                        let ghost before = members@;
                        members.push((self.to_owned(), Value::Null));
                        let last = members.len() - 1;
                        proof {
                            lemma_members_view_push(before, members@[last as int]);
                            lemma_last_index_is(members@, self@, last as int);
                            lemma_members_view_update_any(members@, last as int);
                            assert forall|x: Json|
                                #![trigger members_view(before).insert(self@, x)]
                                members_view(before).insert(self@, Json::Null).insert(self@, x)
                                    == members_view(before).insert(self@, x) by {
                                assert(members_view(before).insert(self@, Json::Null).insert(
                                    self@,
                                    x,
                                ) =~= members_view(before).insert(self@, x));
                            }
                        }
                        &mut members[last].1
                    },
                }
            },
            _ => unreached(),
        }
    }
}

impl Index for String {
    open spec fn key(&self) -> Key {
        Key::Name(self@)
    }

    fn index_into<'v>(&self, v: &'v Value) -> (r: Option<&'v Value>) {
        self.as_str().index_into(v)
    }

    fn index_into_mut<'v>(&self, v: &'v mut Value) -> (r: Option<&'v mut Value>) {
        self.as_str().index_into_mut(v)
    }

    fn index_or_insert<'v>(&self, v: &'v mut Value) -> (r: &'v mut Value) {
        self.as_str().index_or_insert(v)
    }
}

impl<'a, T: Index + ?Sized> Index for &'a T {
    open spec fn key(&self) -> Key {
        (**self).key()
    }

    fn index_into<'v>(&self, v: &'v Value) -> (r: Option<&'v Value>) {
        (**self).index_into(v)
    }

    fn index_into_mut<'v>(&self, v: &'v mut Value) -> (r: Option<&'v mut Value>) {
        (**self).index_into_mut(v)
    }

    fn index_or_insert<'v>(&self, v: &'v mut Value) -> (r: &'v mut Value) {
        (**self).index_or_insert(v)
    }
}

impl Value {
    /// The child at `index`, or null where there is none. A miss is no
    /// failure: it reads as null.
    pub fn index<I: Index>(&self, index: I) -> (r: &Value)
        ensures
            value_view(*r) == match self@.child(index.key()) {
                Some(child) => child,
                None => Json::Null,
            },
            self.well_formed() ==> r.well_formed(),
    {
        match index.index_into(self) {
            Some(child) => child,
            None => &Value::Null,
        }
    }

    /// The child at `index`, for writing; see [`Index::index_or_insert`].
    pub fn index_mut<I: Index>(&mut self, index: I) -> (r: &mut Value)
        requires
            old(self)@.admits(index.key()),
        ensures
            value_view(*r) == old(self)@.slot(index.key()),
            final(self)@ == old(self)@.opened().with_child(index.key(), value_view(*final(r))),
            old(self).well_formed() ==> r.well_formed(),
            old(self).well_formed() && final(r).well_formed() ==> final(self).well_formed(),
    {
        index.index_or_insert(self)
    }
}

} // verus!
