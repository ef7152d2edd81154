//! Structured tool input.

use crate::text::{opt_view, same};
use vstd::prelude::*;
use vstd::string::*;

verus! {

/// A value as JSON has it.
#[derive(Debug)]
pub enum Value {
    /// No value.
    Null,
    /// A truth value.
    Bool(bool),
    /// A number, as it is written.
    Number(String),
    /// A text.
    Text(String),
    /// A list.
    Array(Vec<Value>),
    /// Named values. Where a name occurs again, the last one counts.
    Object(Vec<(String, Value)>),
}

/// The last value with a name among the first `n` entries.
pub open spec fn entry_of(entries: Seq<(String, Value)>, key: Seq<char>, n: int) -> Option<Value>
    decreases n,
{
    if n <= 0 {
        None
    } else if entries[n - 1].0@ == key {
        Some(entries[n - 1].1)
    } else {
        entry_of(entries, key, n - 1)
    }
}

impl Value {
    /// The value with a name.
    pub open spec fn field(self, key: Seq<char>) -> Option<Value> {
        match self {
            Value::Object(entries) => entry_of(entries@, key, entries@.len() as int),
            _ => None,
        }
    }

    /// The text.
    pub open spec fn text(self) -> Option<Seq<char>> {
        match self {
            Value::Text(s) => Some(s@),
            _ => None,
        }
    }

    /// The truth value.
    pub open spec fn truth(self) -> Option<bool> {
        match self {
            Value::Bool(b) => Some(b),
            _ => None,
        }
    }

    /// The list.
    pub open spec fn items(self) -> Option<Seq<Value>> {
        match self {
            Value::Array(v) => Some(v@),
            _ => None,
        }
    }

    /// The text with a name.
    pub open spec fn text_field(self, key: Seq<char>) -> Option<Seq<char>> {
        match self.field(key) {
            Some(v) => v.text(),
            None => None,
        }
    }

    /// The truth value with a name.
    pub open spec fn truth_field(self, key: Seq<char>) -> Option<bool> {
        match self.field(key) {
            Some(v) => v.truth(),
            None => None,
        }
    }

    /// The value with a name.
    pub fn get(&self, key: &str) -> (r: Option<&Value>)
        ensures
            match r {
                Some(v) => self.field(key@) == Some(*v),
                None => self.field(key@) is None,
            },
    {
        match self {
            Value::Object(entries) => {
                let mut i: usize = entries.len();
                while i > 0
                    invariant
                        i <= entries@.len(),
                        *self == Value::Object(*entries),
                        entry_of(entries@, key@, entries@.len() as int) == entry_of(
                            entries@,
                            key@,
                            i as int,
                        ),
                    decreases i,
                {
                    if same(entries[i - 1].0.as_str(), key) {
                        return Some(&entries[i - 1].1);
                    }
                    i = i - 1;
                }
                None
            },
            _ => None,
        }
    }

    /// The text.
    pub fn as_str(&self) -> (r: Option<&str>)
        ensures
            opt_view(r) == self.text(),
    {
        match self {
            Value::Text(s) => Some(s.as_str()),
            _ => None,
        }
    }

    /// The truth value.
    pub fn as_bool(&self) -> (r: Option<bool>)
        ensures
            r == self.truth(),
    {
        match self {
            Value::Bool(b) => Some(*b),
            _ => None,
        }
    }

    /// The list.
    pub fn as_array(&self) -> (r: Option<&Vec<Value>>)
        ensures
            match r {
                Some(v) => self.items() == Some(v@),
                None => self.items() is None,
            },
    {
        match self {
            Value::Array(v) => Some(v),
            _ => None,
        }
    }

    /// Whether the value is an object.
    pub fn is_object(&self) -> (r: bool)
        ensures
            r == (self is Object),
    {
        match self {
            Value::Object(_) => true,
            _ => false,
        }
    }

    /// The text with a name.
    pub fn get_str(&self, key: &str) -> (r: Option<&str>)
        ensures
            opt_view(r) == self.text_field(key@),
    {
        match self.get(key) {
            Some(v) => v.as_str(),
            None => None,
        }
    }

    /// The truth value with a name.
    pub fn get_bool(&self, key: &str) -> (r: Option<bool>)
        ensures
            r == self.truth_field(key@),
    {
        match self.get(key) {
            Some(v) => v.as_bool(),
            None => None,
        }
    }
}

} // verus!
