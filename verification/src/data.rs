//! The value tree and its mathematical model.

use crate::index::Index;
use crate::number::{is_finite, same_number, Number};
use vstd::prelude::*;

verus! {

/// A JSON value that owns its children.
///
/// An object is a mapping from keys to values. It is held as a list of
/// members; where a key occurs more than once, the last occurrence is
/// the member that counts. Parsing and indexed insertion never store a key
/// twice.
#[derive(Debug)]
pub enum Value {
    Null,
    Bool(bool),
    Number(Number),
    String(String),
    Array(Vec<Value>),
    Object(Vec<(String, Value)>),
}

/// What a value tree denotes: the same tree over sequences and maps, with a
/// number given by the bits of its double.
pub enum Json {
    Null,
    Bool(bool),
    Number(u64),
    String(Seq<char>),
    Array(Seq<Json>),
    Object(Map<Seq<char>, Json>),
}

/// What selects a child of a value: a position in an array, or a key of an
/// object.
pub enum Key {
    Position(nat),
    Name(Seq<char>),
}

/// The mapping that a list of members denotes: later members override
/// earlier ones.
pub open spec fn members_view(members: Seq<(String, Value)>) -> Map<Seq<char>, Json>
    decreases members, 0nat,
{
    if members.len() == 0 {
        Map::empty()
    } else {
        members_view(members.drop_last()).insert(
            members.last().0@,
            value_view(members.last().1),
        )
    }
}

/// The sequence that a list of items denotes.
pub open spec fn items_view(items: Seq<Value>) -> Seq<Json>
    decreases items, 0nat,
{
    Seq::new(
        items.len(),
        |i: int|
            if 0 <= i < items.len() {
                value_view(items[i])
            } else {
                Json::Null
            },
    )
}

/// What a value denotes.
pub open spec fn value_view(value: Value) -> Json
    decreases value, 1nat,
{
    match value {
        Value::Null => Json::Null,
        Value::Bool(b) => Json::Bool(b),
        Value::Number(n) => Json::Number(n.bits),
        Value::String(s) => Json::String(s@),
        Value::Array(items) => Json::Array(items_view(items@)),
        Value::Object(members) => Json::Object(members_view(members@)),
    }
}

impl View for Value {
    type V = Json;

    open spec fn view(&self) -> Json {
        value_view(*self)
    }
}

impl Json {
    /// The child that `key` selects, if there is one: the item at an
    /// in-range position of an array, or the value of a present key of an
    /// object.
    pub open spec fn child(self, key: Key) -> Option<Json> {
        match (self, key) {
            (Json::Array(items), Key::Position(i)) => if i < items.len() {
                Some(items[i as int])
            } else {
                None
            },
            (Json::Object(members), Key::Name(name)) => if members.contains_key(name) {
                Some(members[name])
            } else {
                None
            },
            _ => None,
        }
    }

    /// The value with the child that `key` selects set to `child`: an item
    /// of an array replaced, or a key of an object bound.
    pub open spec fn with_child(self, key: Key, child: Json) -> Json {
        match (self, key) {
            (Json::Array(items), Key::Position(i)) => if i < items.len() {
                Json::Array(items.update(i as int, child))
            } else {
                self
            },
            (Json::Object(members), Key::Name(name)) => Json::Object(members.insert(name, child)),
            _ => self,
        }
    }
}

/// No two members share a key.
pub open spec fn distinct_keys(members: Seq<(String, Value)>) -> bool {
    forall|i: int, j: int| 0 <= i < j < members.len() ==> members[i].0@ != members[j].0@
}

impl Value {
    /// The invariant of a value tree: every number in it is finite, and no
    /// object in it holds a key twice. Parsing yields such trees, and
    /// indexed writes of such trees into such a tree keep it so.
    pub open spec fn well_formed(self) -> bool
        decreases self,
    {
        match self {
            Value::Number(n) => is_finite(n.bits),
            Value::Array(items) => forall|i: int|
                0 <= i < items@.len() ==> (#[trigger] items@[i]).well_formed(),
            Value::Object(members) => distinct_keys(members@) && forall|i: int|
                0 <= i < members@.len() ==> (#[trigger] members@[i]).1.well_formed(),
            _ => true,
        }
    }
}

impl Json {
    /// Whether an indexed write with `key` is defined on this value: an
    /// in-range position of an array, or any name on an object or on null.
    pub open spec fn admits(self, key: Key) -> bool {
        match (self, key) {
            (Json::Array(items), Key::Position(i)) => i < items.len(),
            (Json::Object(_), Key::Name(_)) => true,
            (Json::Null, Key::Name(_)) => true,
            _ => false,
        }
    }

    /// The value as an indexed write sees it: null stands for the empty
    /// object.
    pub open spec fn opened(self) -> Json {
        match self {
            Json::Null => Json::Object(Map::empty()),
            _ => self,
        }
    }

    /// What an indexed write finds at `key` before it writes: the child
    /// there, or null where an object has no such key yet.
    pub open spec fn slot(self, key: Key) -> Json {
        match self.opened().child(key) {
            Some(child) => child,
            None => Json::Null,
        }
    }
}

impl Value {
    /// The child at `index`: `None` where the value is not a container of
    /// the kind that `index` selects from, the position is out of range or
    /// the key is absent.
    pub fn get<I: Index>(&self, index: I) -> (r: Option<&Value>)
        ensures
            match r {
                Some(child) => {
                    &&& self@.child(index.key()) == Some(value_view(*child))
                    &&& self.well_formed() ==> child.well_formed()
                },
                None => self@.child(index.key()) is None,
            },
    {
        index.index_into(self)
    }

    /// The child at `index`, for writing. What the caller leaves in the
    /// child is what the value then holds at `index`.
    pub fn get_mut<I: Index>(&mut self, index: I) -> (r: Option<&mut Value>)
        ensures
            match r {
                Some(child) => {
                    &&& old(self)@.child(index.key()) == Some(value_view(*child))
                    &&& final(self)@ == old(self)@.with_child(
                        index.key(),
                        value_view(*final(child)),
                    )
                    &&& old(self).well_formed() ==> child.well_formed()
                    &&& old(self).well_formed() && final(child).well_formed()
                        ==> final(self).well_formed()
                },
                None => old(self)@.child(index.key()) is None && *final(self) == *old(self),
            },
    {
        index.index_into_mut(self)
    }
}

/// Equality of what two values denote: numbers are equal as doubles are,
/// arrays item by item, objects key by key, whatever the order in which
/// their members are held.
pub open spec fn same_json(a: Json, b: Json) -> bool
    decreases a,
{
    match (a, b) {
        (Json::Null, Json::Null) => true,
        (Json::Bool(x), Json::Bool(y)) => x == y,
        (Json::Number(x), Json::Number(y)) => same_number(x, y),
        (Json::String(x), Json::String(y)) => x == y,
        (Json::Array(x), Json::Array(y)) => {
            &&& x.len() == y.len()
            &&& forall|i: int| 0 <= i < x.len() ==> same_json(#[trigger] x[i], y[i])
        },
        (Json::Object(x), Json::Object(y)) => {
            &&& x.dom() == y.dom()
            &&& forall|k: Seq<char>| x.contains_key(k) ==> same_json(#[trigger] x[k], y[k])
        },
        _ => false,
    }
}

/// The last position at which `name` is a key of `members`, if any.
pub open spec fn last_index_of(members: Seq<(String, Value)>, name: Seq<char>) -> Option<int>
    decreases members.len(),
{
    if members.len() == 0 {
        None
    } else if members.last().0@ == name {
        Some(members.len() - 1)
    } else {
        last_index_of(members.drop_last(), name)
    }
}

/// Appending an item appends what it denotes.
pub proof fn lemma_items_view_push(items: Seq<Value>, item: Value)
    ensures
        items_view(items.push(item)) == items_view(items).push(value_view(item)),
{
    assert(items_view(items.push(item)) =~= items_view(items).push(value_view(item)));
}

/// Replacing an item replaces what it denotes.
pub proof fn lemma_items_view_update(items: Seq<Value>, i: int, item: Value)
    requires
        0 <= i < items.len(),
    ensures
        items_view(items.update(i, item)) == items_view(items).update(i, value_view(item)),
{
    assert(items_view(items.update(i, item)) =~= items_view(items).update(i, value_view(item)));
}

/// The members' mapping binds exactly the keys that occur, each to the
/// value of its last occurrence.
pub proof fn lemma_members_view(members: Seq<(String, Value)>, name: Seq<char>)
    ensures
        members_view(members).dom().finite(),
        match last_index_of(members, name) {
            Some(i) => {
                &&& 0 <= i < members.len()
                &&& members[i].0@ == name
                &&& forall|j: int| i < j < members.len() ==> members[j].0@ != name
                &&& members_view(members).contains_key(name)
                &&& members_view(members)[name] == value_view(members[i].1)
            },
            None => {
                &&& forall|j: int| 0 <= j < members.len() ==> members[j].0@ != name
                &&& !members_view(members).contains_key(name)
            },
        },
    decreases members.len(),
{
    if members.len() > 0 {
        lemma_members_view(members.drop_last(), name);
        if members.last().0@ != name {
            match last_index_of(members.drop_last(), name) {
                Some(i) => {
                    assert(members.drop_last()[i] == members[i]);
                    assert forall|j: int| i < j < members.len() implies members[j].0@ != name by {
                        if j < members.len() - 1 {
                            assert(members.drop_last()[j] == members[j]);
                        }
                    }
                },
                None => {
                    assert forall|j: int| 0 <= j < members.len() implies members[j].0@ != name by {
                        if j < members.len() - 1 {
                            assert(members.drop_last()[j] == members[j]);
                        }
                    }
                },
            }
        }
    }
}

/// A position after which `name` does not occur, and at which it does, is
/// its last.
pub proof fn lemma_last_index_is(members: Seq<(String, Value)>, name: Seq<char>, i: int)
    requires
        0 <= i < members.len(),
        members[i].0@ == name,
        forall|j: int| i < j < members.len() ==> members[j].0@ != name,
    ensures
        last_index_of(members, name) == Some(i),
{
    lemma_members_view(members, name);
}

/// Where `name` does not occur, it has no last position.
pub proof fn lemma_no_index(members: Seq<(String, Value)>, name: Seq<char>)
    requires
        forall|j: int| 0 <= j < members.len() ==> members[j].0@ != name,
    ensures
        last_index_of(members, name) is None,
{
    lemma_members_view(members, name);
}

/// Appending a member binds its key.
pub proof fn lemma_members_view_push(members: Seq<(String, Value)>, member: (String, Value))
    ensures
        members_view(members.push(member)) == members_view(members).insert(
            member.0@,
            value_view(member.1),
        ),
{
    assert(members.push(member).drop_last() == members);
}

/// Replacing the member at the last occurrence of its key rebinds that key.
pub proof fn lemma_members_view_update(
    members: Seq<(String, Value)>,
    i: int,
    member: (String, Value),
)
    requires
        0 <= i < members.len(),
        last_index_of(members, member.0@) == Some(i),
    ensures
        members_view(members.update(i, member)) == members_view(members).insert(
            member.0@,
            value_view(member.1),
        ),
    decreases members.len(),
{
    let name = member.0@;
    let after = members.update(i, member);
    lemma_members_view(members, name);
    if i == members.len() - 1 {
        assert(after.drop_last() == members.drop_last());
        assert(members_view(after) =~= members_view(members).insert(name, value_view(member.1)));
    } else {
        let rest = members.drop_last();
        assert(members.last().0@ != name);
        lemma_members_view_update(rest, i, member);
        assert(after.drop_last() == rest.update(i, member));
        assert(after.last() == members.last());
        assert(members_view(after) =~= members_view(members).insert(name, value_view(member.1)));
    }
}

/// Replacing the item at `i` by any value replaces what it denotes.
pub proof fn lemma_items_view_update_any(items: Seq<Value>, i: int)
    requires
        0 <= i < items.len(),
    ensures
        forall|item: Value|
            items_view(#[trigger] items.update(i, item)) == items_view(items).update(
                i,
                value_view(item),
            ),
{
    assert forall|item: Value|
        items_view(#[trigger] items.update(i, item)) == items_view(items).update(
            i,
            value_view(item),
        ) by {
        lemma_items_view_update(items, i, item);
    }
}

/// Replacing the value at the last occurrence of a key by any value
/// rebinds that key.
pub proof fn lemma_members_view_update_any(members: Seq<(String, Value)>, i: int)
    requires
        0 <= i < members.len(),
        last_index_of(members, members[i].0@) == Some(i),
    ensures
        forall|value: Value|
            members_view(#[trigger] members.update(i, (members[i].0, value))) == members_view(
                members,
            ).insert(members[i].0@, value_view(value)),
{
    assert forall|value: Value|
        members_view(#[trigger] members.update(i, (members[i].0, value))) == members_view(
            members,
        ).insert(members[i].0@, value_view(value)) by {
        lemma_members_view_update(members, i, (members[i].0, value));
    }
}

/// The position of the member that counts for `key`: its last occurrence.
pub fn find_member(members: &Vec<(String, Value)>, key: &str) -> (r: Option<usize>)
    ensures
        match r {
            Some(i) => i < members.len() && last_index_of(members@, key@) == Some(i as int),
            None => last_index_of(members@, key@) is None,
        },
{
    let mut i: usize = members.len();
    while i > 0
        invariant
            i <= members.len(),
            forall|j: int| i <= j < members.len() ==> members@[j].0@ != key@,
        decreases i,
    {
        i -= 1;
        if same_text(members[i].0.as_str(), key) {
            proof {
                lemma_last_index_is(members@, key@, i as int);
            }
            return Some(i);
        }
    }
    proof {
        lemma_no_index(members@, key@);
    }
    None
}

/// Replacing the value of a member of a well-formed list by a well-formed
/// value leaves the list well-formed.
pub proof fn lemma_well_formed_update(
    members: Seq<(String, Value)>,
    i: int,
    member: (String, Value),
)
    requires
        0 <= i < members.len(),
        member.0@ == members[i].0@,
        member.1.well_formed(),
        distinct_keys(members),
        forall|j: int| 0 <= j < members.len() ==> (#[trigger] members[j]).1.well_formed(),
    ensures
        distinct_keys(members.update(i, member)),
        forall|j: int|
            0 <= j < members.len() ==> (#[trigger] members.update(i, member)[j]).1.well_formed(),
{
    let after = members.update(i, member);
    assert forall|a: int, b: int| 0 <= a < b < after.len() implies after[a].0@ != after[b].0@ by {
        assert(after[a].0@ == members[a].0@);
        assert(after[b].0@ == members[b].0@);
    }
    assert forall|j: int| 0 <= j < members.len() implies (#[trigger] after[j]).1.well_formed() by {
        if j != i {
            assert(after[j] == members[j]);
        }
    }
}

/// Adding a well-formed value under a new key to a well-formed list leaves
/// the list well-formed.
pub proof fn lemma_well_formed_push(members: Seq<(String, Value)>, member: (String, Value))
    requires
        last_index_of(members, member.0@) is None,
        member.1.well_formed(),
        distinct_keys(members),
        forall|j: int| 0 <= j < members.len() ==> (#[trigger] members[j]).1.well_formed(),
    ensures
        distinct_keys(members.push(member)),
        forall|j: int|
            0 <= j <= members.len() ==> (#[trigger] members.push(member)[j]).1.well_formed(),
{
    let after = members.push(member);
    lemma_members_view(members, member.0@);
    assert forall|a: int, b: int| 0 <= a < b < after.len() implies after[a].0@ != after[b].0@ by {
        if b < members.len() {
            assert(after[a] == members[a] && after[b] == members[b]);
        } else {
            assert(after[a] == members[a]);
        }
    }
    assert forall|j: int| 0 <= j <= members.len() implies (#[trigger] after[j]).1.well_formed() by {
        if j < members.len() {
            assert(after[j] == members[j]);
        }
    }
}

/// Binds `key` to `value`, over any earlier binding of it.
pub fn insert_member(members: &mut Vec<(String, Value)>, key: String, value: Value)
    ensures
        members_view(final(members)@) == members_view(old(members)@).insert(
            key@,
            value_view(value),
        ),
        Value::Object(*old(members)).well_formed() && value.well_formed() ==> Value::Object(
            *final(members),
        ).well_formed(),
{
    match find_member(members, key.as_str()) {
        Some(i) => {
            proof {
                lemma_members_view_update(members@, i as int, (key, value));
                lemma_members_view(members@, key@);
                if Value::Object(*members).well_formed() && value.well_formed() {
                    lemma_well_formed_update(members@, i as int, (key, value));
                }
            }
            members[i] = (key, value);
        },
        None => {
            proof {
                lemma_members_view_push(members@, (key, value));
                if Value::Object(*members).well_formed() && value.well_formed() {
                    lemma_well_formed_push(members@, (key, value));
                }
            }
            members.push((key, value));
        },
    }
}

/// Whether two texts hold the same characters.
pub fn same_text(a: &str, b: &str) -> (r: bool)
    ensures
        r == (a@ == b@),
{
    a.eq(b)
}

/// `==` on `str` of the standard library: two texts are equal exactly when
/// they hold the same characters in the same order.
pub assume_specification[ <str as PartialEq>::eq ](a: &str, b: &str) -> (r: bool)
    ensures
        r == (a@ == b@),
;

} // verus!
