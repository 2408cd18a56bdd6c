//! The document model: scalar values, the ordered sequence of values, and
//! the ordered map of key to value, each built incrementally one element or
//! entry at a time.

use vstd::prelude::*;

verus! {

/// The text of a numeric literal, kept exactly as it stood in the source.
#[derive(Debug, PartialEq, Eq)]
pub struct NumberBuf(pub String);

/// An ordered sequence of values.
pub type Array = Vec<Value>;

/// An ordered map of key to value. Insertion order is kept; a duplicate key
/// is appended as a further entry (last write is visible to a reader that
/// walks the entries from the back).
#[derive(Debug, PartialEq, Eq)]
pub struct Object {
    pub entries: Vec<(String, Value)>,
}

impl Object {
    pub fn new() -> (o: Object)
        ensures
            o.entries@ =~= Seq::<(String, Value)>::empty(),
    {
        Object { entries: Vec::new() }
    }

    pub fn push(&mut self, key: String, value: Value)
        ensures
            final(self).entries@ == old(self).entries@.push((key, value)),
    {
        self.entries.push((key, value));
    }

    pub fn len(&self) -> (n: usize)
        ensures
            n == self.entries@.len(),
    {
        self.entries.len()
    }
}

/// A document value.
#[derive(Debug, PartialEq, Eq)]
pub enum Value {
    Null,
    Boolean(bool),
    Number(NumberBuf),
    Text(String),
    Array(Array),
    Object(Object),
}

} // verus!
