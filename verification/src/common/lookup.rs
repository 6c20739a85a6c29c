//! The state of a key at some point of the history.

use vstd::prelude::*;

use crate::common::text;
use crate::common::value::ValueView;

verus! {

/// What a lookup found.
#[derive(Debug)]
pub enum Lookup {
    /// The key exists and has this value.
    Found(String),
    /// The key was deleted.
    Deleted,
    /// The key is not there.
    Absent,
}

/// The mathematical content of a [`Lookup`].
pub enum LookupView {
    /// A text was found.
    Found(Seq<char>),
    /// A deletion mark was found.
    Deleted,
    /// Nothing was found.
    Absent,
}

impl View for Lookup {
    type V = LookupView;

    open spec fn view(&self) -> LookupView {
        match self {
            Lookup::Found(s) => LookupView::Found(s@),
            Lookup::Deleted => LookupView::Deleted,
            Lookup::Absent => LookupView::Absent,
        }
    }
}

impl LookupView {
    /// The lookup that finds `v`.
    pub open spec fn of(v: ValueView) -> LookupView {
        match v {
            ValueView::Put(s) => LookupView::Found(s),
            ValueView::Delete => LookupView::Deleted,
        }
    }

    /// What a reader of the database is told: the text, if there is one.
    pub open spec fn answer(self) -> Option<Seq<char>> {
        match self {
            LookupView::Found(s) => Some(s),
            _ => None,
        }
    }

    /// This lookup, or `other` when it found nothing.
    pub open spec fn or(self, other: LookupView) -> LookupView {
        if self is Absent {
            other
        } else {
            self
        }
    }
}

impl Clone for Lookup {
    fn clone(&self) -> (r: Self)
        ensures
            r == *self,
    {
        match self {
            Lookup::Found(s) => Lookup::Found(s.clone()),
            Lookup::Deleted => Lookup::Deleted,
            Lookup::Absent => Lookup::Absent,
        }
    }
}

impl PartialEq for Lookup {
    fn eq(&self, other: &Self) -> (r: bool) {
        match (self, other) {
            (Lookup::Found(a), Lookup::Found(b)) => text::same(a.as_str(), b.as_str()),
            (Lookup::Deleted, Lookup::Deleted) => true,
            (Lookup::Absent, Lookup::Absent) => true,
            _ => false,
        }
    }
}

impl vstd::std_specs::cmp::PartialEqSpecImpl for Lookup {
    open spec fn obeys_eq_spec() -> bool {
        true
    }

    open spec fn eq_spec(&self, other: &Self) -> bool {
        self@ == other@
    }
}

impl Eq for Lookup {

}

} // verus!
