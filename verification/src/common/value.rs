//! What is stored under a key.

use vstd::prelude::*;
use vstd::utf8::*;

use crate::common::text;

verus! {

/// An operation on a key.
#[derive(Debug)]
pub enum Value {
    /// Store a value.
    Put(String),
    /// Mark the key deleted.
    Delete,
}

/// The mathematical content of a [`Value`].
pub enum ValueView {
    /// A stored text.
    Put(Seq<char>),
    /// A deletion mark.
    Delete,
}

impl View for Value {
    type V = ValueView;

    open spec fn view(&self) -> ValueView {
        match self {
            Value::Put(s) => ValueView::Put(s@),
            Value::Delete => ValueView::Delete,
        }
    }
}

impl ValueView {
    /// The bytes of the stored text.
    pub open spec fn text_len(self) -> nat {
        match self {
            ValueView::Put(s) => encode_utf8(s).len(),
            ValueView::Delete => 0,
        }
    }

    /// What a file gives back for this value: an empty text is written like a
    /// deletion mark.
    pub open spec fn stored(self) -> ValueView {
        match self {
            ValueView::Put(s) => if s.len() == 0 {
                ValueView::Delete
            } else {
                self
            },
            ValueView::Delete => self,
        }
    }
}

impl Clone for Value {
    fn clone(&self) -> (r: Self)
        ensures
            r == *self,
    {
        match self {
            Value::Put(s) => Value::Put(s.clone()),
            Value::Delete => Value::Delete,
        }
    }
}

impl PartialEq for Value {
    fn eq(&self, other: &Self) -> (r: bool) {
        match (self, other) {
            (Value::Put(a), Value::Put(b)) => text::same(a.as_str(), b.as_str()),
            (Value::Delete, Value::Delete) => true,
            _ => false,
        }
    }
}

impl vstd::std_specs::cmp::PartialEqSpecImpl for Value {
    open spec fn obeys_eq_spec() -> bool {
        true
    }

    open spec fn eq_spec(&self, other: &Self) -> bool {
        self@ == other@
    }
}

impl Eq for Value {

}

impl Value {
    /// A value to store.
    pub fn set(value: &str) -> (r: Self)
        ensures
            r@ == ValueView::Put(value@),
    {
        Self::Put(value.to_owned())
    }

    /// Whether this is a deletion mark.
    pub fn is_delete(&self) -> (r: bool)
        ensures
            r == (self@ is Delete),
    {
        match self {
            Value::Put(_) => false,
            Value::Delete => true,
        }
    }

    /// Size of the stored text in bytes.
    pub fn heap_size(&self) -> (n: usize)
        ensures
            n == self@.text_len(),
    {
        match self {
            Self::Put(value) => text::byte_len(value.as_str()),
            Self::Delete => 0,
        }
    }

    /// Size on disk in bytes: a two-byte length and the text.
    pub fn disk_size(&self) -> (n: usize)
        requires
            2 + self@.text_len() <= usize::MAX,
        ensures
            n == 2 + self@.text_len(),
    {
        2 + self.heap_size()
    }
}

/// A file gives back a text as it was written, but for the empty one, which comes back
/// as a deletion mark, as deletion marks do.
pub proof fn law_stored_value(s: Seq<char>)
    ensures
        s.len() > 0 ==> ValueView::Put(s).stored() == ValueView::Put(s),
        ValueView::Put(Seq::<char>::empty()).stored() is Delete,
        ValueView::Delete.stored() is Delete,
{
}

} // verus!
