//! JSON values: the executable tree and its mathematical model.

use vstd::prelude::*;
use crate::object::unique_keys;

verus! {

/// The mathematical value of a JSON tree.
///
/// A number is held as the bit pattern of an IEEE 754 double; an object is
/// the sequence of its members in insertion order.
pub enum Json {
    Null,
    Bool(bool),
    Number(u64),
    String(Seq<char>),
    Array(Seq<Json>),
    Object(Seq<(Seq<char>, Json)>),
}

/// A JSON value.
#[derive(Debug, PartialEq)]
pub enum Value {
    /// `null`.
    Null,
    /// `true` or `false`.
    Bool(bool),
    /// A finite number, as the bit pattern of an IEEE 754 double.
    Number(u64),
    /// A string.
    String(String),
    /// An array.
    Array(Vec<Value>),
    /// An object: its members in insertion order, no key twice.
    Object(Vec<(String, Value)>),
}

/// Whether the bit pattern of a double stands for a finite number: its
/// exponent field is not all ones.
pub open spec fn finite(bits: u64) -> bool {
    (bits >> 52) & 0x7ff != 0x7ff
}

/// A JSON value is well formed when every number in it is finite and no
/// object in it has a key twice.
pub open spec fn well_formed(json: Json) -> bool
    decreases json,
{
    match json {
        Json::Number(bits) => finite(bits),
        Json::Array(items) => forall|i: int|
            0 <= i < items.len() ==> well_formed(#[trigger] items[i]),
        Json::Object(members) => unique_keys(members) && forall|i: int|
            0 <= i < members.len() ==> well_formed((#[trigger] members[i]).1),
        _ => true,
    }
}

/// Tells whether the bit pattern of a double stands for a finite number.
pub fn is_finite(bits: u64) -> (r: bool)
    ensures
        r == finite(bits),
{
    (bits >> 52) & 0x7ff != 0x7ff
}

/// The model of an executable value.
pub open spec fn value_json(v: Value) -> Json
    decreases v,
{
    match v {
        Value::Null => Json::Null,
        Value::Bool(b) => Json::Bool(b),
        Value::Number(bits) => Json::Number(bits),
        Value::String(s) => Json::String(s@),
        Value::Array(items) => Json::Array(
            Seq::new(
                items@.len(),
                |i: int|
                    if 0 <= i < items@.len() {
                        value_json(items@[i])
                    } else {
                        arbitrary()
                    },
            ),
        ),
        Value::Object(members) => Json::Object(
            Seq::new(
                members@.len(),
                |i: int|
                    if 0 <= i < members@.len() {
                        (members@[i].0@, value_json(members@[i].1))
                    } else {
                        arbitrary()
                    },
            ),
        ),
    }
}

impl View for Value {
    type V = Json;

    open spec fn view(&self) -> Json {
        value_json(*self)
    }
}

impl Clone for Value {
    /// A copy of the value, with the same model.
    fn clone(&self) -> (r: Value)
        ensures
            r@ == self@,
        decreases self,
    {
        match self {
            Value::Null => Value::Null,
            Value::Bool(b) => Value::Bool(*b),
            Value::Number(bits) => Value::Number(*bits),
            Value::String(s) => Value::String(s.clone()),
            Value::Array(items) => {
                let mut copy: Vec<Value> = Vec::new();
                let mut i: usize = 0;
                while i < items.len()
                    invariant
                        *self == Value::Array(*items),
                        0 <= i <= items.len(),
                        copy@.len() == i,
                        forall|k: int| 0 <= k < i ==> (#[trigger] copy@[k])@ == items@[k]@,
                    decreases items.len() - i,
                {
                    proof {
                        assert(decreases_to!(*self => (*self)->Array_0));
                    }
                    copy.push(items[i].clone());
                    i += 1;
                }
                proof {
                    lemma_array_json(copy);
                    lemma_array_json(*items);
                    assert(items_json(copy@) =~= items_json(items@));
                }
                Value::Array(copy)
            },
            Value::Object(members) => {
                let mut copy: Vec<(String, Value)> = Vec::new();
                let mut i: usize = 0;
                while i < members.len()
                    invariant
                        *self == Value::Object(*members),
                        0 <= i <= members.len(),
                        copy@.len() == i,
                        forall|k: int|
                            0 <= k < i ==> (#[trigger] copy@[k]).0@ == members@[k].0@ && copy@[k].1@
                                == members@[k].1@,
                    decreases members.len() - i,
                {
                    proof {
                        assert(decreases_to!(*self => (*self)->Object_0));
                    }
                    copy.push((members[i].0.clone(), members[i].1.clone()));
                    i += 1;
                }
                proof {
                    lemma_object_json(copy);
                    lemma_object_json(*members);
                    assert(members_json(copy@) =~= members_json(members@));
                }
                Value::Object(copy)
            },
        }
    }
}

/// The models of a sequence of values, in order.
pub open spec fn items_json(items: Seq<Value>) -> Seq<Json> {
    Seq::new(items.len(), |i: int| items[i]@)
}

/// The models of the members of an object, in order.
pub open spec fn members_json(members: Seq<(String, Value)>) -> Seq<(Seq<char>, Json)> {
    Seq::new(members.len(), |i: int| (members[i].0@, members[i].1@))
}

/// An array's model holds the models of its items.
pub proof fn lemma_array_json(items: Vec<Value>)
    ensures
        Value::Array(items)@ == Json::Array(items_json(items@)),
{
    assert(Value::Array(items)@->Array_0 =~= items_json(items@));
}

/// An object's model holds the models of its members.
pub proof fn lemma_object_json(members: Vec<(String, Value)>)
    ensures
        Value::Object(members)@ == Json::Object(members_json(members@)),
{
    assert(Value::Object(members)@->Object_0 =~= members_json(members@));
}

} // verus!
