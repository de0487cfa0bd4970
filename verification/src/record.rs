//! What a storable record tells the store about itself, the values that can
//! be indexed, and the rules that names and ids must meet.

use crate::text::{chars_blank, chars_of, decimal, decimal_of, is_blank};
use vstd::prelude::*;

verus! {

/// A value under which a record can be found again.
#[derive(Debug, PartialEq)]
pub enum IndexValue {
    String(String),
    Int(i64),
    Bool(bool),
}

/// An index value in the abstract.
pub ghost enum ValueView {
    Text(Seq<char>),
    Int(i64),
    Bool(bool),
}

impl View for IndexValue {
    type V = ValueView;

    open spec fn view(&self) -> ValueView {
        match self {
            IndexValue::String(s) => ValueView::Text(s@),
            IndexValue::Int(i) => ValueView::Int(*i),
            IndexValue::Bool(b) => ValueView::Bool(*b),
        }
    }
}

impl Clone for IndexValue {
    fn clone(&self) -> (r: Self)
        ensures
            r@ == self@,
    {
        match self {
            IndexValue::String(s) => IndexValue::String(s.clone()),
            IndexValue::Int(i) => IndexValue::Int(*i),
            IndexValue::Bool(b) => IndexValue::Bool(*b),
        }
    }
}

/// The text that stands for a value when it is shown.
pub open spec fn shown(v: ValueView) -> Seq<char> {
    match v {
        ValueView::Text(s) => s,
        ValueView::Int(i) => decimal_of(i as int),
        ValueView::Bool(b) => if b {
            "true"@
        } else {
            "false"@
        },
    }
}

impl IndexValue {
    /// The value as text: a string as it is, an integer in decimal, a
    /// boolean as `true` or `false`.
    pub fn to_string(&self) -> (s: String)
        ensures
            s@ == shown(self@),
    {
        match self {
            IndexValue::String(s) => s.clone(),
            IndexValue::Int(i) => decimal(*i),
            IndexValue::Bool(b) => if *b {
                String::from_str("true")
            } else {
                String::from_str("false")
            },
        }
    }

    /// Whether two values have the same type and content.
    pub fn same(&self, other: &IndexValue) -> (r: bool)
        ensures
            r == (self@ == other@),
    {
        match (self, other) {
            (IndexValue::String(a), IndexValue::String(b)) => *a == *b,
            (IndexValue::Int(a), IndexValue::Int(b)) => *a == *b,
            (IndexValue::Bool(a), IndexValue::Bool(b)) => *a == *b,
            _ => false,
        }
    }
}

/// One indexed field of a record: its name and the value under it.
#[derive(Debug, PartialEq)]
pub struct IndexField {
    pub name: String,
    pub value: IndexValue,
}

impl View for IndexField {
    type V = (Seq<char>, ValueView);

    open spec fn view(&self) -> (Seq<char>, ValueView) {
        (self.name@, self.value@)
    }
}

impl Clone for IndexField {
    fn clone(&self) -> (r: Self)
        ensures
            r@ == self@,
    {
        IndexField { name: self.name.clone(), value: self.value.clone() }
    }
}

/// The views of a sequence of fields.
pub open spec fn field_views(fields: Seq<IndexField>) -> Seq<(Seq<char>, ValueView)> {
    fields.map_values(|f: IndexField| f@)
}

/// What every storable type supplies: a stable id, the time of its last
/// change, the collection that its values are kept in, and the fields under
/// which they are indexed.
pub trait Record {
    /// The id of this record, unique within its collection.
    fn id(&self) -> &str;

    /// When this record was last changed, in milliseconds since the epoch.
    fn updated_at(&self) -> i64;

    /// The collection of this type: the name of its log and of its part of
    /// the cache.
    fn collection_name() -> &'static str where Self: Sized;

    /// The fields to index; none unless the type says otherwise.
    fn indexed_fields(&self) -> Vec<IndexField> {
        Vec::new()
    }
}

/// Why the store refused an operation.
#[derive(Debug, Clone, Copy, PartialEq, Eq, Structural)]
pub enum StoreError {
    /// The collection name is empty, longer than 64 characters, or holds a
    /// character other than a letter, a digit, `_` or `-`.
    InvalidCollection,
    /// The id is empty, longer than 256 characters, or nothing but white
    /// space.
    InvalidId,
    /// A field name is longer than 64 characters or holds a character other
    /// than a letter, a digit or `_`.
    InvalidField,
    /// The record's JSON text holds a line feed.
    InvalidPayload,
    /// The record that the operation needs does not exist.
    NotFound,
    /// The store was written by a newer version of the engine.
    UnsupportedVersion,
}

impl StoreError {
    /// The error in words.
    pub open spec fn text(self) -> Seq<char> {
        match self {
            StoreError::InvalidCollection => "invalid collection name"@,
            StoreError::InvalidId => "invalid record id"@,
            StoreError::InvalidField => "invalid field name"@,
            StoreError::InvalidPayload => "record text is not one line"@,
            StoreError::NotFound => "record not found"@,
            StoreError::UnsupportedVersion => "store version is newer than supported"@,
        }
    }

    /// The error in words.
    pub fn message(&self) -> (r: &'static str)
        ensures
            r@ == self.text(),
    {
        match self {
            StoreError::InvalidCollection => "invalid collection name",
            StoreError::InvalidId => "invalid record id",
            StoreError::InvalidField => "invalid field name",
            StoreError::InvalidPayload => "record text is not one line",
            StoreError::NotFound => "record not found",
            StoreError::UnsupportedVersion => "store version is newer than supported",
        }
    }
}

/// An ASCII letter or digit.
pub open spec fn is_letter_or_digit(c: char) -> bool {
    ('a' <= c && c <= 'z') || ('A' <= c && c <= 'Z') || ('0' <= c && c <= '9')
}

/// A collection name: 1 to 64 of `A-Z a-z 0-9 _ -`.
pub open spec fn valid_collection(name: Seq<char>) -> bool {
    &&& 1 <= name.len() <= 64
    &&& forall|i: int|
        0 <= i < name.len() ==> is_letter_or_digit(#[trigger] name[i]) || name[i] == '_' || name[i]
            == '-'
}

/// A record id: 1 to 256 characters, not all of them white space.
pub open spec fn valid_id(id: Seq<char>) -> bool {
    &&& 1 <= id.len() <= 256
    &&& !is_blank(id)
}

/// A field name: at most 64 of `A-Z a-z 0-9 _`.
pub open spec fn valid_field(name: Seq<char>) -> bool {
    &&& name.len() <= 64
    &&& forall|i: int|
        0 <= i < name.len() ==> is_letter_or_digit(#[trigger] name[i]) || name[i] == '_'
}

fn letter_or_digit(c: char) -> (r: bool)
    ensures
        r == is_letter_or_digit(c),
{
    ('a' <= c && c <= 'z') || ('A' <= c && c <= 'Z') || ('0' <= c && c <= '9')
}

/// Checks a collection name.
pub fn validate_collection(name: &str) -> (r: Result<(), StoreError>)
    ensures
        r is Ok <==> valid_collection(name@),
        r is Err ==> r == Err::<(), StoreError>(StoreError::InvalidCollection),
{
    let v = chars_of(name);
    if v.len() < 1 || v.len() > 64 {
        return Err(StoreError::InvalidCollection);
    }
    let mut i: usize = 0;
    while i < v.len()
        invariant
            i <= v.len(),
            v@ == name@,
            forall|k: int|
                0 <= k < i ==> is_letter_or_digit(#[trigger] v@[k]) || v@[k] == '_' || v@[k] == '-',
        decreases v.len() - i,
    {
        let c = v[i];
        if !(letter_or_digit(c) || c == '_' || c == '-') {
            return Err(StoreError::InvalidCollection);
        }
        i = i + 1;
    }
    Ok(())
}

/// Checks a record id.
pub fn validate_id(id: &str) -> (r: Result<(), StoreError>)
    ensures
        r is Ok <==> valid_id(id@),
        r is Err ==> r == Err::<(), StoreError>(StoreError::InvalidId),
{
    let v = chars_of(id);
    if v.len() < 1 || v.len() > 256 {
        return Err(StoreError::InvalidId);
    }
    assert(v@.subrange(0, v@.len() as int) =~= v@);
    if chars_blank(&v, 0, v.len()) {
        return Err(StoreError::InvalidId);
    }
    Ok(())
}

/// Checks a field name.
pub fn validate_field(name: &str) -> (r: Result<(), StoreError>)
    ensures
        r is Ok <==> valid_field(name@),
        r is Err ==> r == Err::<(), StoreError>(StoreError::InvalidField),
{
    let v = chars_of(name);
    if v.len() > 64 {
        return Err(StoreError::InvalidField);
    }
    let mut i: usize = 0;
    while i < v.len()
        invariant
            i <= v.len(),
            v@ == name@,
            forall|k: int| 0 <= k < i ==> is_letter_or_digit(#[trigger] v@[k]) || v@[k] == '_',
        decreases v.len() - i,
    {
        let c = v[i];
        if !(letter_or_digit(c) || c == '_') {
            return Err(StoreError::InvalidField);
        }
        i = i + 1;
    }
    Ok(())
}

/// Every field of the list has a valid name.
pub open spec fn valid_fields(fields: Seq<(Seq<char>, ValueView)>) -> bool {
    forall|i: int| 0 <= i < fields.len() ==> valid_field((#[trigger] fields[i]).0)
}

/// Checks the name of every field of a list.
pub fn validate_fields(fields: &Vec<IndexField>) -> (r: Result<(), StoreError>)
    ensures
        r is Ok <==> valid_fields(field_views(fields@)),
        r is Err ==> r == Err::<(), StoreError>(StoreError::InvalidField),
{
    let mut i: usize = 0;
    while i < fields.len()
        invariant
            i <= fields.len(),
            forall|k: int| 0 <= k < i ==> valid_field((#[trigger] field_views(fields@)[k]).0),
        decreases fields.len() - i,
    {
        if validate_field(fields[i].name.as_str()).is_err() {
            assert(field_views(fields@)[i as int].0 == fields@[i as int].name@);
            return Err(StoreError::InvalidField);
        }
        assert(field_views(fields@)[i as int].0 == fields@[i as int].name@);
        i = i + 1;
    }
    Ok(())
}

} // verus!
