use vstd::prelude::*;

verus! {

/// A decoded field. A float is kept as its IEEE-754 bit pattern.
#[derive(Debug, Clone, PartialEq)]
pub enum Value {
    Null,
    String(String),
    Blob(Vec<u8>),
    Int(i64),
    Float(u64),
}

/// What a value holds, with text as characters and blobs as bytes.
pub enum ValueView {
    Null,
    Text(Seq<char>),
    Blob(Seq<u8>),
    Int(i64),
    Float(u64),
}

impl View for Value {
    type V = ValueView;

    open spec fn view(&self) -> ValueView {
        match self {
            Value::Null => ValueView::Null,
            Value::String(s) => ValueView::Text(s@),
            Value::Blob(b) => ValueView::Blob(b@),
            Value::Int(i) => ValueView::Int(*i),
            Value::Float(f) => ValueView::Float(*f),
        }
    }
}

impl Value {
    /// The text of a string value.
    pub fn as_str(&self) -> (r: Option<&str>)
        ensures
            match self {
                Value::String(s) => r matches Some(t) && t@ == s@,
                _ => r is None,
            },
    {
        match self {
            Value::String(s) => Some(s.as_str()),
            _ => None,
        }
    }

    /// The integer of an integer value.
    pub fn as_int(&self) -> (r: Option<i64>)
        ensures
            match self {
                Value::Int(i) => r == Some(*i),
                _ => r is None,
            },
    {
        match self {
            Value::Int(i) => Some(*i),
            _ => None,
        }
    }
}

} // verus!
