//! A log event: one value, usually an object, with its fields at paths.

use crate::path::ConfigValuePath;
use crate::value::{ObjectMap, Tree, Value};
use vstd::prelude::*;

verus! {

/// A log event.
#[derive(Debug, PartialEq, Eq)]
pub struct LogEvent {
    value: Value,
}

impl Default for LogEvent {
    /// A log event without fields.
    fn default() -> (r: LogEvent)
        ensures
            r@ == Tree::Object(Map::empty()),
    {
        LogEvent { value: Value::Object(ObjectMap::new()) }
    }
}

impl Clone for LogEvent {
    /// The same event again.
    fn clone(&self) -> (r: LogEvent)
        ensures
            r@ == self@,
    {
        LogEvent { value: self.value.clone() }
    }
}

impl LogEvent {
    /// What the event is.
    pub closed spec fn view(self) -> Tree {
        self.value@
    }

    /// An event made of a value.
    pub fn from_value(value: Value) -> (r: LogEvent)
        ensures
            r@ == value@,
    {
        LogEvent { value }
    }

    /// The event's value.
    pub fn into_value(self) -> (r: Value)
        ensures
            r@ == self@,
    {
        self.value
    }

    /// The event's value.
    pub fn value(&self) -> (r: &Value)
        ensures
            r@ == self@,
    {
        &self.value
    }

    /// The value at a path.
    pub fn get(&self, path: &ConfigValuePath) -> (r: Option<&Value>)
        ensures
            crate::value::tree_at(r) == crate::path::value_at(self@, path@),
    {
        self.value.get_at(&path.segments)
    }

    /// Puts a value at a path, and returns what was there.
    pub fn insert(&mut self, path: &ConfigValuePath, value: Value) -> (r: Option<Value>)
        requires
            crate::path::indexes_in_reach(path@),
        ensures
            final(self)@ == crate::path::put_at(Some(old(self)@), path@, value@),
            crate::value::tree_of(r) == crate::path::value_at(old(self)@, path@),
    {
        self.value.insert_at(&path.segments, value)
    }

    /// Takes the value at a path out, and returns it.
    pub fn remove(&mut self, path: &ConfigValuePath) -> (r: Option<Value>)
        ensures
            final(self)@ == crate::path::removed_at(old(self)@, path@),
            crate::value::tree_of(r) == crate::path::value_at(old(self)@, path@),
    {
        self.value.remove_at(&path.segments)
    }
}

} // verus!
