//! Versioned keys and their order.

use std::cmp::Ordering;

use vstd::prelude::*;
use vstd::string::*;
use vstd::utf8::*;

use crate::common::text;

verus! {

/// A user key together with the sequence number of one of its versions.
///
/// Keys are ordered by user key ascending and, within one user key, by sequence
/// number descending, so that the newest version comes first.
#[derive(Debug, Hash)]
pub struct Key(pub String, pub u64);

/// The mathematical content of a [`Key`].
pub struct KeyView {
    /// The user key.
    pub user: Seq<char>,
    /// The sequence number of the version.
    pub seq: u64,
}

impl View for Key {
    type V = KeyView;

    open spec fn view(&self) -> KeyView {
        KeyView { user: self.0@, seq: self.1 }
    }
}

impl KeyView {
    /// The order of keys.
    pub open spec fn lt(self, other: KeyView) -> bool {
        text::text_lt(self.user, other.user) || (self.user == other.user && self.seq > other.seq)
    }

    /// The order of keys, or equality.
    pub open spec fn le(self, other: KeyView) -> bool {
        self == other || self.lt(other)
    }

    /// Bytes of the user key.
    pub open spec fn text_len(self) -> nat {
        encode_utf8(self.user).len()
    }

    /// The text that [`Key::show`] writes.
    pub open spec fn shown(self) -> Seq<char> {
        seq!['('] + self.user + seq![',', ' '] + text::decimal_text(self.seq as nat) + seq![')']
    }
}

/// No key comes before itself.
pub broadcast proof fn lemma_key_irreflexive(a: KeyView)
    ensures
        !#[trigger] a.lt(a),
{
    text::lemma_text_irreflexive(a.user);
}

/// The order of keys is transitive.
pub broadcast proof fn lemma_key_transitive(a: KeyView, b: KeyView, c: KeyView)
    requires
        #[trigger] a.lt(b),
        #[trigger] b.lt(c),
    ensures
        a.lt(c),
{
    broadcast use text::lemma_text_transitive;

}

/// Two keys do not come before each other.
pub broadcast proof fn lemma_key_asymmetric(a: KeyView, b: KeyView)
    requires
        #[trigger] a.lt(b),
    ensures
        !b.lt(a),
{
    if b.lt(a) {
        lemma_key_transitive(a, b, a);
        lemma_key_irreflexive(a);
    }
}

/// Two keys are equal or one of them comes first.
pub proof fn lemma_key_total(a: KeyView, b: KeyView)
    ensures
        a == b || a.lt(b) || b.lt(a),
{
    text::lemma_text_total(a.user, b.user);
}

/// The order of keys is total and strict.
pub proof fn law_key_order(a: KeyView, b: KeyView, c: KeyView)
    ensures
        !a.lt(a),
        a.lt(b) && b.lt(c) ==> a.lt(c),
        a == b || a.lt(b) || b.lt(a),
        a.user == b.user ==> (a.lt(b) <==> a.seq > b.seq),
        a.user != b.user ==> (a.lt(b) <==> text::text_lt(a.user, b.user)),
{
    lemma_key_irreflexive(a);
    lemma_key_total(a, b);
    if a.lt(b) && b.lt(c) {
        lemma_key_transitive(a, b, c);
    }
}

impl Clone for Key {
    fn clone(&self) -> (r: Self)
        ensures
            r == *self,
    {
        Key(self.0.clone(), self.1)
    }
}

impl PartialEq for Key {
    fn eq(&self, other: &Self) -> (r: bool) {
        self.1 == other.1 && text::same(self.0.as_str(), other.0.as_str())
    }
}

impl vstd::std_specs::cmp::PartialEqSpecImpl for Key {
    open spec fn obeys_eq_spec() -> bool {
        true
    }

    open spec fn eq_spec(&self, other: &Self) -> bool {
        self@ == other@
    }
}

impl Eq for Key {

}

/// The order of `a` and `b` as an `Ordering`.
pub open spec fn key_ordering(a: KeyView, b: KeyView) -> Ordering {
    if a == b {
        Ordering::Equal
    } else if a.lt(b) {
        Ordering::Less
    } else {
        Ordering::Greater
    }
}

impl PartialOrd for Key {
    fn partial_cmp(&self, other: &Self) -> (r: Option<Ordering>) {
        Some(self.cmp(other))
    }
}

impl vstd::std_specs::cmp::PartialOrdSpecImpl for Key {
    open spec fn obeys_partial_cmp_spec() -> bool {
        true
    }

    open spec fn partial_cmp_spec(&self, other: &Self) -> Option<Ordering> {
        Some(key_ordering(self@, other@))
    }
}

impl Key {
    /// A key with this user key and sequence number.
    pub fn new(key: &str, seq: u64) -> (r: Self)
        ensures
            r@ == (KeyView { user: key@, seq }),
    {
        Self(key.to_owned(), seq)
    }

    /// Size in memory: the user key and its sequence number.
    pub fn heap_size(&self) -> (n: usize)
        requires
            self@.text_len() + 8 <= usize::MAX,
        ensures
            n == self@.text_len() + 8,
    {
        text::byte_len(self.0.as_str()) + 8
    }

    /// Size on disk: a two-byte length, the user key and its sequence number.
    pub fn disk_size(&self) -> (n: usize)
        requires
            self@.text_len() + 10 <= usize::MAX,
        ensures
            n == 2 + self@.text_len() + 8,
    {
        2 + self.heap_size()
    }

    /// Compares two keys.
    pub fn cmp(&self, other: &Self) -> (o: Ordering)
        ensures
            o == key_ordering(self@, other@),
    {
        cmp_key(self, other.0.as_str(), other.1)
    }

    /// Whether this key comes before `(user, seq)`.
    pub fn before(&self, user: &str, seq: u64) -> (r: bool)
        ensures
            r == self@.lt(KeyView { user: user@, seq }),
    {
        proof {
            lemma_key_irreflexive(self@);
            lemma_key_total(self@, KeyView { user: user@, seq });
        }
        match cmp_key(self, user, seq) {
            Ordering::Less => true,
            _ => false,
        }
    }

    /// Whether this key is `(user, seq)`.
    pub fn is(&self, user: &str, seq: u64) -> (r: bool)
        ensures
            r == (self@ == KeyView { user: user@, seq }),
    {
        match cmp_key(self, user, seq) {
            Ordering::Equal => true,
            _ => false,
        }
    }

    /// The key as `(user key, sequence number)`.
    pub fn show(&self) -> (s: String)
        ensures
            s@ == self@.shown(),
    {
        proof {
            reveal_strlit("(");
            reveal_strlit(", ");
            reveal_strlit(")");
        }
        let mut s = "(".to_owned();
        s.append(self.0.as_str());
        s.append(", ");
        let seq = text::decimal(self.1);
        s.append(seq.as_str());
        s.append(")");
        assert(s@ =~= self@.shown());
        s
    }
}

/// Compares a stored key with `(key, seq)`.
pub fn cmp_key(stored: &Key, key: &str, seq: u64) -> (o: Ordering)
    ensures
        o == key_ordering(stored@, KeyView { user: key@, seq }),
{
    proof {
        text::lemma_text_irreflexive(key@);
        text::lemma_text_total(stored@.user, key@);
        if text::text_lt(stored@.user, key@) && text::text_lt(key@, stored@.user) {
            text::lemma_text_transitive(stored@.user, key@, stored@.user);
            text::lemma_text_irreflexive(stored@.user);
        }
    }
    match text::compare(stored.0.as_str(), key) {
        Ordering::Less => Ordering::Less,
        Ordering::Greater => Ordering::Greater,
        Ordering::Equal => {
            if stored.1 == seq {
                Ordering::Equal
            } else if stored.1 > seq {
                Ordering::Less
            } else {
                Ordering::Greater
            }
        },
    }
}

} // verus!
