//! A template definition as plain values: the top-level keys of the
//! definition file, in source order, with their values.
use vstd::prelude::*;
use crate::path::same_text;

verus! {

/// A value of a field.
#[derive(Debug, Clone)]
pub enum RawField {
    Str(String),
    Int(i64),
    Bool(bool),
    /// A list of strings; an empty list is one.
    StrList(Vec<String>),
    /// A non-empty list of integers.
    IntList(Vec<i64>),
    /// Any other value.
    Other,
}

/// An element of a list as the definition file writes it.
#[derive(Debug, Clone, PartialEq, Eq)]
pub enum RawScalar {
    Str(String),
    Int(i64),
    Bool(bool),
    /// Any other value.
    Other,
}

/// Whether every element is a string.
pub open spec fn all_texts(items: Seq<RawScalar>) -> bool {
    forall|i: int| 0 <= i < items.len() ==> (#[trigger] items[i]) is Str
}

/// Whether every element is an integer.
pub open spec fn all_integers(items: Seq<RawScalar>) -> bool {
    forall|i: int| 0 <= i < items.len() ==> (#[trigger] items[i]) is Int
}

/// The field a list makes: a list of strings where every element is a
/// string (an empty list is one), else a list of integers where every
/// element is an integer, else another value.
pub fn list_field(items: &Vec<RawScalar>) -> (r: RawField)
    ensures
        all_texts(items@) ==> (r matches RawField::StrList(l) && l@.len() == items@.len() && forall|i: int|
            0 <= i < items@.len() ==> items@[i] == RawScalar::Str(#[trigger] l@[i])),
        !all_texts(items@) && all_integers(items@) ==> (r matches RawField::IntList(l) && l@.len()
            == items@.len() && forall|i: int| 0 <= i < items@.len() ==> items@[i] == RawScalar::Int(#[trigger] l@[i])),
        !all_texts(items@) && !all_integers(items@) ==> r is Other,
{
    let mut texts: Vec<String> = Vec::new();
    let mut ints: Vec<i64> = Vec::new();
    let mut all_str = true;
    let mut all_int = true;
    let mut i: usize = 0;
    while i < items.len()
        invariant
            i <= items.len(),
            all_str ==> texts@.len() == i && forall|j: int| 0 <= j < i ==> items@[j] == RawScalar::Str(#[trigger] texts@[j]),
            !all_str ==> !all_texts(items@),
            all_int ==> ints@.len() == i && forall|j: int| 0 <= j < i ==> items@[j] == RawScalar::Int(#[trigger] ints@[j]),
            !all_int ==> !all_integers(items@),
        decreases items.len() - i,
    {
        match &items[i] {
            RawScalar::Str(s) => {
                if all_str {
                    texts.push(s.clone());
                }
            },
            _ => {
                assert(!(items@[i as int] is Str));
                all_str = false;
            },
        }
        match &items[i] {
            RawScalar::Int(n) => {
                if all_int {
                    ints.push(*n);
                }
            },
            _ => {
                assert(!(items@[i as int] is Int));
                all_int = false;
            },
        }
        i = i + 1;
    }
    if all_str {
        assert forall|j: int| 0 <= j < items@.len() implies (#[trigger] items@[j]) is Str by {
            assert(items@[j] == RawScalar::Str(texts@[j]));
        }
        RawField::StrList(texts)
    } else if all_int {
        assert forall|j: int| 0 <= j < items@.len() implies (#[trigger] items@[j]) is Int by {
            assert(items@[j] == RawScalar::Int(ints@[j]));
        }
        RawField::IntList(ints)
    } else {
        RawField::Other
    }
}

/// The value of a top-level key.
#[derive(Debug, Clone)]
pub enum RawItem {
    Field(RawField),
    /// A table of fields, in source order.
    Table(Vec<(String, RawField)>),
}

/// The first value given to `key`.
pub open spec fn first_value<T>(items: Seq<(String, T)>, key: Seq<char>) -> Option<T>
    decreases items.len(),
{
    if items.len() == 0 {
        None
    } else if items[0].0@ == key {
        Some(items[0].1)
    } else {
        first_value(items.drop_first(), key)
    }
}

/// The position of the first value given to `key`.
pub fn find_key<T>(items: &Vec<(String, T)>, key: &str) -> (r: Option<usize>)
    ensures
        match r {
            Some(i) => i < items@.len() && items@[i as int].0@ == key@ && first_value(items@, key@)
                == Some(items@[i as int].1),
            None => first_value(items@, key@) is None,
        },
{
    let mut i: usize = 0;
    assert(items@.subrange(0, items@.len() as int) =~= items@);
    while i < items.len()
        invariant
            i <= items.len(),
            first_value(items@, key@) == first_value(items@.subrange(i as int, items@.len() as int), key@),
        decreases items.len() - i,
    {
        let ghost rest = items@.subrange(i as int, items@.len() as int);
        assert(rest.drop_first() =~= items@.subrange(i + 1, items@.len() as int));
        if same_text(items[i].0.as_str(), key) {
            return Some(i);
        }
        i = i + 1;
    }
    assert(items@.subrange(i as int, items@.len() as int).len() == 0);
    None
}

} // verus!
