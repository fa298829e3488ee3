//! Field types, typed field values and schema fields.
use vstd::prelude::*;

use crate::inverted_index::InvertedIndex;
use crate::numtext::{
    bool_text, bool_to_text, i64_to_text, int_text, parse_bool, parse_i64, parsed_bool,
    parsed_i64, text_eq,
};
use crate::term::{copy_terms, terms_view, Term};

verus! {

/// The declared type of a schema field.
#[derive(Clone, Copy, Debug, PartialEq, Eq, Structural)]
pub enum FieldType {
    Int,
    Bool,
    String,
}

impl FieldType {
    /// The type's code in the binary format.
    pub open spec fn code(self) -> int {
        match self {
            FieldType::Int => 0,
            FieldType::Bool => 1,
            FieldType::String => 2,
        }
    }

    /// The type with the given code; `None` for a code that names no type.
    pub fn from_u32(value: u32) -> (r: Option<FieldType>)
        ensures
            r is Some <==> value < 3,
            r is Some ==> r->0.code() == value,
    {
        match value {
            0 => Some(FieldType::Int),
            1 => Some(FieldType::Bool),
            2 => Some(FieldType::String),
            _ => None,
        }
    }

    /// The type's name: `int`, `bool` or `string`.
    pub open spec fn name_spec(self) -> Seq<char> {
        match self {
            FieldType::Int => seq!['i', 'n', 't'],
            FieldType::Bool => seq!['b', 'o', 'o', 'l'],
            FieldType::String => seq!['s', 't', 'r', 'i', 'n', 'g'],
        }
    }

    /// The type's name: `int`, `bool` or `string`.
    pub fn name(self) -> (r: String)
        ensures
            r@ == self.name_spec(),
    {
        match self {
            FieldType::Int => {
                let r = "int".to_string();
                proof {
                    reveal_strlit("int");
                    assert(r@ =~= self.name_spec());
                }
                r
            },
            FieldType::Bool => {
                let r = "bool".to_string();
                proof {
                    reveal_strlit("bool");
                    assert(r@ =~= self.name_spec());
                }
                r
            },
            FieldType::String => {
                let r = "string".to_string();
                proof {
                    reveal_strlit("string");
                    assert(r@ =~= self.name_spec());
                }
                r
            },
        }
    }

    /// The type with the given name, if any.
    pub fn from_name(s: &str) -> (r: Option<FieldType>)
        ensures
            r is Some <==> (s@ == FieldType::Int.name_spec() || s@ == FieldType::Bool.name_spec()
                || s@ == FieldType::String.name_spec()),
            r is Some ==> r->0.name_spec() == s@,
    {
        let int_name = FieldType::Int.name();
        let bool_name = FieldType::Bool.name();
        let string_name = FieldType::String.name();
        if text_eq(s, int_name.as_str()) {
            Some(FieldType::Int)
        } else if text_eq(s, bool_name.as_str()) {
            Some(FieldType::Bool)
        } else if text_eq(s, string_name.as_str()) {
            Some(FieldType::String)
        } else {
            None
        }
    }

    /// The type's code in the binary format.
    pub fn to_u32(self) -> (r: u32)
        ensures
            r == self.code(),
    {
        match self {
            FieldType::Int => 0,
            FieldType::Bool => 1,
            FieldType::String => 2,
        }
    }
}

/// What a field value stores, leaving out the cached tokens.
pub enum Value {
    Int(i64),
    Bool(bool),
    Text(Seq<char>),
}

/// A typed field value. A string value carries the tokens of its text once
/// the field has been processed, and `None` before.
#[derive(Debug)]
pub enum FieldValue {
    Int(i64),
    Bool(bool),
    String(String, Option<Vec<Term>>),
}

/// The text form of a stored value.
pub open spec fn value_text(v: Value) -> Seq<char> {
    match v {
        Value::Int(i) => int_text(i as int),
        Value::Bool(b) => bool_text(b),
        Value::Text(s) => s,
    }
}

/// The value that a text denotes under a declared type, if it denotes one.
pub open spec fn typed_value(t: FieldType, s: Seq<char>) -> Option<Value> {
    match t {
        FieldType::Int => match parsed_i64(s) {
            Some(i) => Some(Value::Int(i)),
            None => None,
        },
        FieldType::Bool => match parsed_bool(s) {
            Some(b) => Some(Value::Bool(b)),
            None => None,
        },
        FieldType::String => Some(Value::Text(s)),
    }
}

/// The type of a stored value.
pub open spec fn value_type(v: Value) -> FieldType {
    match v {
        Value::Int(_) => FieldType::Int,
        Value::Bool(_) => FieldType::Bool,
        Value::Text(_) => FieldType::String,
    }
}

impl FieldValue {
    /// The stored value.
    pub open spec fn value(&self) -> Value {
        match self {
            FieldValue::Int(i) => Value::Int(*i),
            FieldValue::Bool(b) => Value::Bool(*b),
            FieldValue::String(s, _) => Value::Text(s@),
        }
    }

    /// The text form of the value.
    pub open spec fn text(&self) -> Seq<char> {
        value_text(self.value())
    }

    /// The cached tokens: those of a processed string value, else `None`.
    pub open spec fn tokens(&self) -> Option<Seq<Seq<char>>> {
        match self {
            FieldValue::String(_, Some(ts)) => Some(terms_view(ts@)),
            _ => None,
        }
    }

    pub open spec fn kind_spec(&self) -> FieldType {
        value_type(self.value())
    }

    /// The default value of a type: `0`, `false` or the empty text, not yet
    /// processed.
    pub fn new(field_type: FieldType) -> (r: FieldValue)
        ensures
            r.kind_spec() == field_type,
            r.tokens() is None,
            r.value() == (match field_type {
                FieldType::Int => Value::Int(0),
                FieldType::Bool => Value::Bool(false),
                FieldType::String => Value::Text(Seq::empty()),
            }),
    {
        match field_type {
            FieldType::Int => FieldValue::Int(0),
            FieldType::Bool => FieldValue::Bool(false),
            FieldType::String => FieldValue::String(String::new(), None),
        }
    }

    /// The type of the value.
    pub fn kind(&self) -> (r: FieldType)
        ensures
            r == self.kind_spec(),
    {
        match self {
            FieldValue::Int(_) => FieldType::Int,
            FieldValue::Bool(_) => FieldType::Bool,
            FieldValue::String(_, _) => FieldType::String,
        }
    }

    /// The value as an integer: a boolean as `0` or `1`, a text by parsing it.
    pub fn as_int(&self) -> (r: Option<i64>)
        ensures
            r == (match self.value() {
                Value::Int(i) => Some(i),
                Value::Bool(b) => Some(if b { 1i64 } else { 0i64 }),
                Value::Text(s) => parsed_i64(s),
            }),
    {
        match self {
            FieldValue::Int(i) => Some(*i),
            FieldValue::Bool(b) => Some(if *b { 1 } else { 0 }),
            FieldValue::String(s, _) => parse_i64(s.as_str()),
        }
    }

    /// The value as a boolean: an integer is true when non-zero, a text by
    /// parsing it.
    pub fn as_bool(&self) -> (r: Option<bool>)
        ensures
            r == (match self.value() {
                Value::Int(i) => Some(i != 0),
                Value::Bool(b) => Some(b),
                Value::Text(s) => parsed_bool(s),
            }),
    {
        match self {
            FieldValue::Int(i) => Some(*i != 0),
            FieldValue::Bool(b) => Some(*b),
            FieldValue::String(s, _) => parse_bool(s.as_str()),
        }
    }

    /// The text form of the value.
    pub fn as_string(&self) -> (r: String)
        ensures
            r@ == self.text(),
    {
        match self {
            FieldValue::Int(i) => i64_to_text(*i),
            FieldValue::Bool(b) => bool_to_text(*b),
            FieldValue::String(s, _) => s.clone(),
        }
    }

    /// The value that a text denotes under a declared type, not yet processed;
    /// `None` where the text does not parse as that type.
    pub fn from_text(field_type: FieldType, text: &str) -> (r: Option<FieldValue>)
        ensures
            r is Some <==> typed_value(field_type, text@) is Some,
            r is Some ==> r->0.value() == typed_value(field_type, text@)->0 && r->0.tokens() is None,
    {
        match field_type {
            FieldType::Int => match parse_i64(text) {
                Some(i) => Some(FieldValue::Int(i)),
                None => None,
            },
            FieldType::Bool => match parse_bool(text) {
                Some(b) => Some(FieldValue::Bool(b)),
                None => None,
            },
            FieldType::String => Some(FieldValue::String(text.to_string(), None)),
        }
    }

    /// A copy of the value, tokens included.
    pub fn duplicate(&self) -> (r: FieldValue)
        ensures
            r.value() == self.value(),
            r.tokens() == self.tokens(),
    {
        match self {
            FieldValue::Int(i) => FieldValue::Int(*i),
            FieldValue::Bool(b) => FieldValue::Bool(*b),
            FieldValue::String(s, None) => FieldValue::String(s.clone(), None),
            FieldValue::String(s, Some(ts)) => FieldValue::String(s.clone(), Some(copy_terms(ts))),
        }
    }
}

impl PartialEq for FieldValue {
    /// Values are equal when their text forms are, whatever their types.
    fn eq(&self, other: &FieldValue) -> (r: bool) {
        self.as_string() == other.as_string()
    }
}

impl vstd::std_specs::cmp::PartialEqSpecImpl for FieldValue {
    open spec fn obeys_eq_spec() -> bool {
        true
    }

    open spec fn eq_spec(&self, other: &FieldValue) -> bool {
        self.text() == other.text()
    }
}

/// A schema field: a unique name, a declared type, and the field's index.
#[derive(Debug)]
pub struct Field {
    pub name: String,
    pub field_type: FieldType,
    pub inverted_index: InvertedIndex,
}

} // verus!
