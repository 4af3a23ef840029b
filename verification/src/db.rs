//! Database records as plain values.
//!
//! A record is its id (e.g. `records/items/gearhead/a01_head001.dbr`) and its
//! named fields. Reading the `.arz` databases happens outside this library;
//! the analyses here work on records handed over in this form.

use vstd::prelude::*;
use crate::strmap::StrMap;
use crate::text::{chars_of, starts_with, starts_with_chars};

verus! {

/// A field value. Only strings and integers are read by the analyses; every
/// other database value type is `Other`.
#[derive(Debug, Clone)]
pub enum Value {
    Str(String),
    Int(u32),
    Other,
}

/// One database record: its id and its fields by name.
pub struct Record {
    pub id: String,
    pub fields: StrMap<Value>,
}

/// Ids of item records start with this path.
pub open spec fn items_prefix() -> Seq<char> {
    "records/items/"@
}

/// The string value of field `key`, if the record has that field and it holds
/// a string.
pub open spec fn field_str(r: Record, key: Seq<char>) -> Option<Seq<char>> {
    if r.fields@.contains_key(key) {
        match r.fields@[key] {
            Value::Str(s) => Some(s@),
            _ => None,
        }
    } else {
        None
    }
}

/// The integer value of field `key`, if the record has that field and it holds
/// an integer.
pub open spec fn field_int(r: Record, key: Seq<char>) -> Option<u32> {
    if r.fields@.contains_key(key) {
        match r.fields@[key] {
            Value::Int(n) => Some(n),
            _ => None,
        }
    } else {
        None
    }
}

impl Record {
    /// A record with no fields.
    pub fn new(id: &str) -> (r: Record)
        ensures
            r.id@ == id@,
            r.fields@ == Map::<Seq<char>, Value>::empty(),
    {
        Record { id: id.to_owned(), fields: StrMap::new() }
    }

    /// Sets field `key` to `value`.
    pub fn set_field(&mut self, key: &str, value: Value)
        ensures
            final(self).id == old(self).id,
            final(self).fields@ == old(self).fields@.insert(key@, value),
    {
        self.fields.insert(key, value);
    }

    /// The string value of field `key`.
    pub fn string_field(&self, key: &str) -> (r: Option<String>)
        ensures
            match r {
                Some(s) => field_str(*self, key@) == Some(s@),
                None => field_str(*self, key@) == None::<Seq<char>>,
            },
    {
        match self.fields.get(key) {
            Some(Value::Str(s)) => Some(s.clone()),
            _ => None,
        }
    }

    /// The integer value of field `key`.
    pub fn int_field(&self, key: &str) -> (r: Option<u32>)
        ensures
            r == field_int(*self, key@),
    {
        match self.fields.get(key) {
            Some(Value::Int(n)) => Some(*n),
            _ => None,
        }
    }
}

/// Whether `id` names an item record (under `records/items/`): the records
/// the inference and loot-table analyses read.
pub fn is_item_record_id(id: &str) -> (r: bool)
    ensures
        r == starts_with(id@, items_prefix()),
{
    starts_with_chars(chars_of(id).as_slice(), chars_of("records/items/").as_slice())
}

} // verus!
