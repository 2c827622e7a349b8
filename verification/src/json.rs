//! JSON values, and the ways that account states are read from them.

use vstd::prelude::*;

use crate::text::same;

verus! {

/// A JSON value. A number is kept as an integer where it is one; of a number
/// with a fraction or an exponent nothing is ever read.
#[derive(Debug)]
pub enum Json {
    Null,
    Bool(bool),
    PosInt(u64),
    NegInt(i64),
    Float,
    Str(String),
    Array(Vec<Json>),
    /// The members in order.
    Object(Vec<(String, Json)>),
}

/// The value of the first member with the name `key`.
pub open spec fn member(members: Seq<(String, Json)>, key: Seq<char>) -> Option<Json>
    decreases members.len(),
{
    if members.len() == 0 {
        None
    } else if members[0].0@ == key {
        Some(members[0].1)
    } else {
        member(members.subrange(1, members.len() as int), key)
    }
}

impl Json {
    /// The member `key` of an object.
    pub open spec fn spec_get(self, key: Seq<char>) -> Option<Json> {
        match self {
            Json::Object(members) => member(members@, key),
            _ => None,
        }
    }

    /// The member `key`, null where there is none.
    pub open spec fn spec_field(self, key: Seq<char>) -> Json {
        match self.spec_get(key) {
            Some(value) => value,
            None => Json::Null,
        }
    }

    /// The item `i` of an array, null where there is none.
    pub open spec fn spec_item(self, i: int) -> Json {
        match self {
            Json::Array(items) => if 0 <= i < items@.len() {
                items@[i]
            } else {
                Json::Null
            },
            _ => Json::Null,
        }
    }

    /// The text of a string.
    pub open spec fn spec_str(self) -> Option<Seq<char>> {
        match self {
            Json::Str(text) => Some(text@),
            _ => None,
        }
    }

    /// The items of an array.
    pub open spec fn spec_array(self) -> Option<Seq<Json>> {
        match self {
            Json::Array(items) => Some(items@),
            _ => None,
        }
    }

    /// The members of an object.
    pub open spec fn spec_object(self) -> Option<Seq<(String, Json)>> {
        match self {
            Json::Object(members) => Some(members@),
            _ => None,
        }
    }

    /// The truth value of a boolean.
    pub open spec fn spec_bool(self) -> Option<bool> {
        match self {
            Json::Bool(b) => Some(b),
            _ => None,
        }
    }

    /// The value of an integer that is not negative.
    pub open spec fn spec_u64(self) -> Option<u64> {
        match self {
            Json::PosInt(n) => Some(n),
            _ => None,
        }
    }

    /// The value of an integer of 64 bits with a sign.
    pub open spec fn spec_i64(self) -> Option<i64> {
        match self {
            Json::PosInt(n) => if n <= i64::MAX {
                Some(n as i64)
            } else {
                None
            },
            Json::NegInt(n) => Some(n),
            _ => None,
        }
    }

    /// The member `key` of an object, where there is one.
    pub fn get(&self, key: &str) -> (value: Option<&Json>)
        ensures
            match value {
                Some(value) => self.spec_get(key@) == Some(*value),
                None => self.spec_get(key@) is None,
            },
    {
        let members: &Vec<(String, Json)> = match self {
            Json::Object(members) => members,
            _ => {
                return None;
            },
        };
        let mut i: usize = 0;
        assert(members@.subrange(0, members@.len() as int) =~= members@);
        while i < members.len()
            invariant
                i <= members@.len(),
                self.spec_get(key@) == member(members@, key@),
                member(members@, key@) == member(
                    members@.subrange(i as int, members@.len() as int),
                    key@,
                ),
            decreases members@.len() - i,
        {
            let ghost rest = members@.subrange(i as int, members@.len() as int);
            assert(rest[0] == members@[i as int]);
            assert(rest.subrange(1, rest.len() as int) =~= members@.subrange(
                i + 1,
                members@.len() as int,
            ));
            if same(members[i].0.as_str(), key) {
                return Some(&members[i].1);
            }
            i = i + 1;
        }
        None
    }

    /// The member `key`, null where there is none.
    pub fn field(&self, key: &str) -> (value: &Json)
        ensures
            *value == self.spec_field(key@),
    {
        match self.get(key) {
            Some(value) => value,
            None => &Json::Null,
        }
    }

    /// The item `i` of an array, null where there is none.
    pub fn item(&self, i: usize) -> (value: &Json)
        ensures
            *value == self.spec_item(i as int),
    {
        match self {
            Json::Array(items) => if i < items.len() {
                &items[i]
            } else {
                &Json::Null
            },
            _ => &Json::Null,
        }
    }

    /// The text of a string.
    pub fn as_str(&self) -> (text: Option<&str>)
        ensures
            match text {
                Some(text) => self.spec_str() == Some(text@),
                None => self.spec_str() is None,
            },
    {
        match self {
            Json::Str(text) => Some(text.as_str()),
            _ => None,
        }
    }

    /// The items of an array.
    pub fn as_array(&self) -> (items: Option<&Vec<Json>>)
        ensures
            match items {
                Some(items) => self.spec_array() == Some(items@),
                None => self.spec_array() is None,
            },
    {
        match self {
            Json::Array(items) => Some(items),
            _ => None,
        }
    }

    /// The members of an object.
    pub fn as_object(&self) -> (members: Option<&Vec<(String, Json)>>)
        ensures
            match members {
                Some(members) => self.spec_object() == Some(members@),
                None => self.spec_object() is None,
            },
    {
        match self {
            Json::Object(members) => Some(members),
            _ => None,
        }
    }

    /// The truth value of a boolean.
    pub fn as_bool(&self) -> (value: Option<bool>)
        ensures
            value == self.spec_bool(),
    {
        match self {
            Json::Bool(b) => Some(*b),
            _ => None,
        }
    }

    /// The value of an integer that is not negative.
    pub fn as_u64(&self) -> (value: Option<u64>)
        ensures
            value == self.spec_u64(),
    {
        match self {
            Json::PosInt(n) => Some(*n),
            _ => None,
        }
    }

    /// The value of an integer of 64 bits with a sign.
    pub fn as_i64(&self) -> (value: Option<i64>)
        ensures
            value == self.spec_i64(),
    {
        match self {
            Json::PosInt(n) => if *n <= i64::MAX as u64 {
                Some(*n as i64)
            } else {
                None
            },
            Json::NegInt(n) => Some(*n),
            _ => None,
        }
    }
}

} // verus!
