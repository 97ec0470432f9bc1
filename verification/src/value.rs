//! Keys and values, and the mathematical content that contracts speak of.

use vstd::prelude::*;
use vstd::slice::slice_to_vec;

verus! {

/// What a key is, apart from how it is held in memory.
pub enum KeyView {
    Text(Seq<char>),
    Integer(i64),
}

/// What a value is, apart from how it is held in memory.
pub enum ValueView {
    Integer(i64),
    Bool(bool),
    Text(Seq<char>),
    Blob(Seq<u8>),
}

/// A logical key: a text string or a 64-bit signed integer.
#[derive(Debug, Clone, PartialEq, Eq, Hash)]
pub enum Key {
    Text(String),
    Integer(i64),
}

/// A value that owns its text or bytes.
#[derive(Debug, Clone, PartialEq)]
pub enum OwnedValue {
    Integer(i64),
    Bool(bool),
    Text(String),
    Blob(Vec<u8>),
}

/// A value whose text or bytes lie in a buffer owned by someone else.
#[derive(Debug, PartialEq)]
pub enum BorrowedValue<'a> {
    Integer(i64),
    Bool(bool),
    Text(&'a str),
    Blob(&'a [u8]),
}

impl View for Key {
    type V = KeyView;

    open spec fn view(&self) -> KeyView {
        match self {
            Key::Text(s) => KeyView::Text(s@),
            Key::Integer(i) => KeyView::Integer(*i),
        }
    }
}

impl View for OwnedValue {
    type V = ValueView;

    open spec fn view(&self) -> ValueView {
        match self {
            OwnedValue::Integer(x) => ValueView::Integer(*x),
            OwnedValue::Bool(b) => ValueView::Bool(*b),
            OwnedValue::Text(s) => ValueView::Text(s@),
            OwnedValue::Blob(v) => ValueView::Blob(v@),
        }
    }
}

impl<'a> View for BorrowedValue<'a> {
    type V = ValueView;

    open spec fn view(&self) -> ValueView {
        match self {
            BorrowedValue::Integer(x) => ValueView::Integer(*x),
            BorrowedValue::Bool(b) => ValueView::Bool(*b),
            BorrowedValue::Text(s) => ValueView::Text(s@),
            BorrowedValue::Blob(v) => ValueView::Blob(v@),
        }
    }
}

impl Key {
    /// A second key with the same content.
    pub fn duplicate(&self) -> (copy: Key)
        ensures
            copy@ == self@,
    {
        match self {
            Key::Text(s) => Key::Text(s.clone()),
            Key::Integer(i) => Key::Integer(*i),
        }
    }
}

impl<'a> BorrowedValue<'a> {
    /// Copies the value out of the buffer it points into.
    pub fn to_owned(&self) -> (owned: OwnedValue)
        ensures
            owned@ == self@,
    {
        match self {
            BorrowedValue::Integer(x) => OwnedValue::Integer(*x),
            BorrowedValue::Bool(b) => OwnedValue::Bool(*b),
            BorrowedValue::Text(s) => OwnedValue::Text((*s).to_owned()),
            BorrowedValue::Blob(bytes) => OwnedValue::Blob(slice_to_vec(bytes)),
        }
    }
}

} // verus!
