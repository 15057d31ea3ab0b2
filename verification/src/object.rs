//! Objects as ordered members with unique keys: the model's operations, and
//! a builder that keeps an index from key to position.

use vstd::prelude::*;
use vstd::hash_map::StringHashMap;
use crate::json::{Json, Value, members_json, items_json, lemma_array_json};

verus! {

/// The position of the member with the given key: the last one, should
/// several members have it.
pub open spec fn position(members: Seq<(Seq<char>, Json)>, key: Seq<char>) -> Option<int>
    decreases members.len(),
{
    if members.len() == 0 {
        None
    } else if members.last().0 == key {
        Some(members.len() - 1)
    } else {
        position(members.drop_last(), key)
    }
}

/// The value under the given key, if a member has it.
pub open spec fn get(members: Seq<(Seq<char>, Json)>, key: Seq<char>) -> Option<Json> {
    match position(members, key) {
        Some(i) => Some(members[i].1),
        None => None,
    }
}

/// The members after `value` is stored under `key`: in the place of the
/// member that had the key, or else at the end.
pub open spec fn put(members: Seq<(Seq<char>, Json)>, key: Seq<char>, value: Json) -> Seq<
    (Seq<char>, Json),
> {
    match position(members, key) {
        Some(i) => members.update(i, (key, value)),
        None => members.push((key, value)),
    }
}

/// No two members have the same key.
pub open spec fn unique_keys(members: Seq<(Seq<char>, Json)>) -> bool {
    forall|i: int, j: int|
        0 <= i < j < members.len() ==> (#[trigger] members[i]).0 != (#[trigger] members[j]).0
}

/// A position that is found holds the key; where none is found, no member
/// has the key.
pub proof fn lemma_position(members: Seq<(Seq<char>, Json)>, key: Seq<char>)
    ensures
        match position(members, key) {
            Some(i) => 0 <= i < members.len() && members[i].0 == key,
            None => forall|j: int| 0 <= j < members.len() ==> (#[trigger] members[j]).0 != key,
        },
    decreases members.len(),
{
    if members.len() > 0 && members.last().0 != key {
        lemma_position(members.drop_last(), key);
        assert forall|j: int| 0 <= j < members.len() && position(members, key).is_none() implies (
        #[trigger] members[j]).0 != key by {
            if j < members.len() - 1 {
                assert(members.drop_last()[j] == members[j]);
            }
        }
    }
}

/// Among unique keys, the position of a key is wherever a member has it.
pub proof fn lemma_position_unique(members: Seq<(Seq<char>, Json)>, key: Seq<char>, i: int)
    requires
        unique_keys(members),
        0 <= i < members.len(),
        members[i].0 == key,
    ensures
        position(members, key) == Some(i),
{
    lemma_position(members, key);
}

/// Storing a value keeps the keys unique, keeps the keys that were there in
/// their places, and leaves every other key's value as it was.
pub proof fn lemma_put(members: Seq<(Seq<char>, Json)>, key: Seq<char>, value: Json)
    requires
        unique_keys(members),
    ensures
        unique_keys(put(members, key, value)),
        position(put(members, key, value), key) == Some(
            match position(members, key) {
                Some(i) => i,
                None => members.len() as int,
            },
        ),
        get(put(members, key, value), key) == Some(value),
        forall|other: Seq<char>|
            other != key ==> position(put(members, key, value), other) == position(members, other),
        forall|other: Seq<char>|
            other != key ==> get(put(members, key, value), other) == get(members, other),
        put(members, key, value).len() >= members.len(),
        forall|i: int|
            0 <= i < members.len() ==> (#[trigger] put(members, key, value)[i]).0 == members[i].0,
{
    let after = put(members, key, value);
    lemma_position(members, key);
    match position(members, key) {
        Some(i) => {
            assert forall|a: int, b: int| 0 <= a < b < after.len() implies (#[trigger] after[a]).0 != (
            #[trigger] after[b]).0 by {
                assert(after[a].0 == members[a].0);
                assert(after[b].0 == members[b].0);
            }
            lemma_position_unique(after, key, i);
        },
        None => {
            assert(after.drop_last() =~= members);
        },
    }
    assert forall|other: Seq<char>| other != key implies position(after, other) == position(
        members,
        other,
    ) by {
        lemma_position(members, other);
        match position(members, other) {
            Some(j) => {
                lemma_position_unique(after, other, j);
            },
            None => {
                lemma_position(after, other);
                if let Some(j) = position(after, other) {
                    if j < members.len() {
                        assert(after[j].0 == members[j].0);
                    }
                }
            },
        }
    }
    assert forall|other: Seq<char>| other != key implies get(after, other) == get(
        members,
        other,
    ) by {
        lemma_position(members, other);
    }
}

/// An object under construction: its members in order, and for each key the
/// position of its member.
pub(crate) struct ObjectBuilder {
    members: Vec<(String, Value)>,
    index: StringHashMap<usize>,
}

impl View for ObjectBuilder {
    type V = Seq<(Seq<char>, Json)>;

    closed spec fn view(&self) -> Seq<(Seq<char>, Json)> {
        members_json(self.members@)
    }
}

impl ObjectBuilder {
    /// The index holds exactly the keys of the members, each with its
    /// position.
    pub closed spec fn wf(&self) -> bool {
        &&& forall|i: int|
            0 <= i < self.members@.len() ==> self.index@.contains_key(
                (#[trigger] self.members@[i]).0@,
            ) && self.index@[self.members@[i].0@] == i
        &&& forall|k: Seq<char>| #[trigger]
            self.index@.contains_key(k) ==> 0 <= self.index@[k] < self.members@.len()
                && self.members@[self.index@[k] as int].0@ == k
    }

    /// A well-formed builder has unique keys, and its index agrees with
    /// `position`.
    proof fn lemma_wf(&self)
        requires
            self.wf(),
        ensures
            unique_keys(self@),
            forall|k: Seq<char>|
                position(self@, k) == (if self.index@.contains_key(k) {
                    Some(self.index@[k] as int)
                } else {
                    None
                }),
    {
        let members = self@;
        assert forall|i: int, j: int| 0 <= i < j < members.len() implies (#[trigger] members[i]).0 != (
        #[trigger] members[j]).0 by {
            assert(self.index@[self.members@[i].0@] == i);
            assert(self.index@[self.members@[j].0@] == j);
        }
        assert forall|k: Seq<char>|
            position(members, k) == (if self.index@.contains_key(k) {
                Some(self.index@[k] as int)
            } else {
                None
            }) by {
            lemma_position(members, k);
            if self.index@.contains_key(k) {
                lemma_position_unique(members, k, self.index@[k] as int);
            } else {
                if let Some(i) = position(members, k) {
                    assert(self.index@.contains_key(self.members@[i].0@));
                }
            }
        }
    }

    /// An object without members.
    pub fn new() -> (r: ObjectBuilder)
        ensures
            r.wf(),
            r@ == Seq::<(Seq<char>, Json)>::empty(),
    {
        let r = ObjectBuilder { members: Vec::new(), index: StringHashMap::new() };
        assert(r@ =~= Seq::<(Seq<char>, Json)>::empty());
        r
    }

    /// Stores `value` under `key`: in the place of the member that had the
    /// key, or else at the end.
    pub fn put(&mut self, key: String, value: Value)
        requires
            old(self).wf(),
        ensures
            final(self).wf(),
            final(self)@ == put(old(self)@, key@, value@),
    {
        proof {
            self.lemma_wf();
        }
        match self.index.get(key.as_str()) {
            Some(i) => {
                let i = *i;
                self.members.set(i, (key, value));
                assert(self@ =~= put(old(self)@, key@, value@));
            },
            None => {
                let n = self.members.len();
                self.index.insert(key.clone(), n);
                self.members.push((key, value));
                assert(self@ =~= put(old(self)@, key@, value@));
            },
        }
    }

    /// Replaces the value under `key` by an array of that value and `value`.
    pub fn promote(&mut self, key: &str, value: Value)
        requires
            old(self).wf(),
            position(old(self)@, key@).is_some(),
        ensures
            final(self).wf(),
            final(self)@ == put(
                old(self)@,
                key@,
                Json::Array(seq![get(old(self)@, key@).unwrap(), value@]),
            ),
    {
        proof {
            self.lemma_wf();
        }
        let i = *self.index.get(key).unwrap();
        let mut slot = (String::new(), Value::Null);
        self.members.set_and_swap(i, &mut slot);
        let (name, first) = slot;
        let mut items: Vec<Value> = Vec::new();
        items.push(first);
        items.push(value);
        proof {
            lemma_array_json(items);
            assert(items_json(items@) =~= seq![first@, value@]);
        }
        self.members.set(i, (name, Value::Array(items)));
        assert(self@ =~= put(
            old(self)@,
            key@,
            Json::Array(seq![get(old(self)@, key@).unwrap(), value@]),
        ));
    }

    /// Appends `value` to the array under `key`.
    pub fn append(&mut self, key: &str, value: Value)
        requires
            old(self).wf(),
            get(old(self)@, key@) matches Some(Json::Array(_)),
        ensures
            final(self).wf(),
            final(self)@ == put(
                old(self)@,
                key@,
                Json::Array(get(old(self)@, key@).unwrap()->Array_0.push(value@)),
            ),
    {
        proof {
            self.lemma_wf();
        }
        let i = *self.index.get(key).unwrap();
        let mut slot = (String::new(), Value::Null);
        self.members.set_and_swap(i, &mut slot);
        let (name, array) = slot;
        match array {
            Value::Array(mut items) => {
                proof {
                    lemma_array_json(items);
                }
                let ghost before = items@;
                items.push(value);
                proof {
                    lemma_array_json(items);
                    assert(items_json(items@) =~= items_json(before).push(value@));
                }
                self.members.set(i, (name, Value::Array(items)));
            },
            _ => {
                assert(false);
            },
        }
        assert(self@ =~= put(
            old(self)@,
            key@,
            Json::Array(get(old(self)@, key@).unwrap()->Array_0.push(value@)),
        ));
    }

    /// The members that were built.
    pub fn into_members(self) -> (r: Vec<(String, Value)>)
        requires
            self.wf(),
        ensures
            members_json(r@) == self@,
            unique_keys(self@),
    {
        proof {
            self.lemma_wf();
        }
        self.members
    }
}

} // verus!
