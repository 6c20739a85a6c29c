//! The table in memory: the newest versions, in a skip list.

use vstd::prelude::*;
use vstd::utf8::*;

use crate::common::key::{Key, KeyView};
use crate::common::lookup::{Lookup, LookupView};
use crate::common::value::{Value, ValueView};
use crate::common::versions;
use crate::common::versions::Entry;
use crate::memtable::list::node;
use crate::memtable::list::{Iter, SkipList, MAX_HEIGHT};

pub mod list;

verus! {

/// Bytes that a table takes before it counts as full.
pub const MAX_SIZE: usize = 64 * 1024 * 1024;

/// A skip list that knows how large it may grow.
pub struct MemTable {
    id: u64,
    skip_list: SkipList,
    max_size: usize,
}

impl View for MemTable {
    type V = Map<KeyView, ValueView>;

    /// The versions in the table.
    closed spec fn view(&self) -> Map<KeyView, ValueView> {
        self.skip_list@
    }
}

impl MemTable {
    /// The versions in key order.
    pub closed spec fn entries(&self) -> Seq<Entry> {
        self.skip_list.entries()
    }

    /// The table's number.
    pub closed spec fn number(&self) -> u64 {
        self.id
    }

    /// Bytes that the table takes, in the arithmetic of machine words.
    pub closed spec fn usage(&self) -> usize {
        self.skip_list.usage()
    }

    /// Bytes that the table takes.
    pub closed spec fn bytes(&self) -> nat {
        self.skip_list.bytes()
    }

    /// Bytes from which on the table counts as full.
    pub closed spec fn limit(&self) -> usize {
        self.max_size
    }

    /// The list is in good order.
    pub closed spec fn wf(&self) -> bool {
        self.skip_list.wf()
    }

    /// The entries of a table are sorted by key, and are its versions.
    pub proof fn lemma_entries(&self)
        requires
            self.wf(),
        ensures
            versions::sorted(self.entries()),
            self@ == versions::map_of(self.entries()),
    {
        self.skip_list.lemma_sorted();
    }

    /// A table without versions has no entries.
    pub proof fn lemma_empty(&self)
        requires
            self.wf(),
            self@ == Map::<KeyView, ValueView>::empty(),
        ensures
            self.entries().len() == 0,
    {
        self.lemma_entries();
        versions::lemma_map_of_keys(self.entries());
        if self.entries().len() > 0 {
            let k = self.entries()[0].0;
            assert(versions::has_key(self.entries(), k));
            assert(self@.contains_key(k));
        }
    }

    /// A new table of at most 64 MiB.
    pub fn new(id: u64) -> (r: Self)
        ensures
            r.wf(),
            r.number() == id,
            r.entries() == Seq::<Entry>::empty(),
            r@ == Map::<KeyView, ValueView>::empty(),
            r.usage() == 0,
            r.bytes() == 0,
            r.limit() == MAX_SIZE,
            r.limit() == 67_108_864,
    {
        Self::with_max_size(id, MAX_SIZE)
    }

    /// A new table that counts as full from `max_size` bytes on.
    pub fn with_max_size(id: u64, max_size: usize) -> (r: Self)
        ensures
            r.wf(),
            r.number() == id,
            r.entries() == Seq::<Entry>::empty(),
            r@ == Map::<KeyView, ValueView>::empty(),
            r.usage() == 0,
            r.bytes() == 0,
            r.limit() == max_size,
    {
        let skip_list = SkipList::new();
        Self { id, skip_list, max_size }
    }

    /// Adds a version. A version that is already in the table stays as it is.
    pub fn put(&mut self, key: Key, value: Value)
        requires
            old(self).wf(),
        ensures
            final(self).wf(),
            final(self).number() == old(self).number(),
            final(self).limit() == old(self).limit(),
            final(self)@ == (if old(self)@.contains_key(key@) {
                old(self)@
            } else {
                old(self)@.insert(key@, value@)
            }),
            old(self)@.contains_key(key@) ==> final(self).usage() == old(self).usage(),
            old(self)@.contains_key(key@) ==> final(self).bytes() == old(self).bytes(),
            !old(self)@.contains_key(key@) ==> exists|height: nat|
                1 <= height <= MAX_HEIGHT && final(self).usage() == old(self).usage().wrapping_add(
                    #[trigger] node::node_size(key@, value@, height),
                ) && final(self).bytes() == old(self).bytes() + node::node_bytes(
                    key@,
                    value@,
                    height,
                ),
    {
        self.skip_list.insert(key, value);
    }

    /// The newest version of `key`.
    pub fn get(&self, key: &str) -> (r: Lookup)
        requires
            self.wf(),
        ensures
            r@ == versions::lookup(self@, key@, u64::MAX),
    {
        self.get_seq(key, u64::MAX)
    }

    /// The newest version of `key` with a sequence number of at most `seq`.
    pub fn get_seq(&self, key: &str, seq: u64) -> (r: Lookup)
        requires
            self.wf(),
        ensures
            r@ == versions::lookup(self@, key@, seq),
    {
        match self.skip_list.get_at(key, seq) {
            Some(Value::Put(value)) => Lookup::Found(value.clone()),
            Some(Value::Delete) => Lookup::Deleted,
            None => Lookup::Absent,
        }
    }

    /// Whether the table has taken the bytes it may take.
    pub fn is_full(&self) -> (r: bool)
        ensures
            r == (self.usage() >= self.limit()),
    {
        let curr: usize = self.skip_list.mem_usage();
        curr >= self.max_size
    }

    /// The versions in key order.
    pub fn iter(&self) -> (r: Iter<'_>)
        requires
            self.wf(),
        ensures
            r.wf(),
            r.rest() == self.entries(),
    {
        self.skip_list.iter()
    }

    /// Number of versions.
    pub fn len(&self) -> (n: usize)
        requires
            self.wf(),
        ensures
            n == self.entries().len(),
    {
        self.skip_list.len()
    }

    /// Whether there are no versions.
    pub fn is_empty(&self) -> (r: bool)
        requires
            self.wf(),
        ensures
            r == (self.entries().len() == 0),
    {
        self.skip_list.is_empty()
    }

    /// The table's number.
    pub fn id(&self) -> (id: u64)
        ensures
            id == self.number(),
    {
        self.id
    }
}

/// A table whose texts reach its limit is full, and a table without versions is
/// full only if its limit is zero, while the bytes of the table fit a machine word.
pub proof fn law_full_by_texts(t: MemTable)
    requires
        t.wf(),
        t.bytes() <= usize::MAX,
    ensures
        t.usage() >= list::texts_bytes(t.entries()),
        list::texts_bytes(t.entries()) >= t.limit() ==> t.usage() >= t.limit(),
        t.entries().len() == 0 ==> (t.usage() >= t.limit() <==> t.limit() == 0),
{
    t.skip_list.lemma_usage();
}

/// A version that is added takes at least the bytes of its texts, and a full table
/// stays full, while the bytes of the table fit a machine word.
pub proof fn law_full_stays_full(a: MemTable, b: MemTable, key: KeyView, value: ValueView, height: nat)
    requires
        a.wf(),
        b.wf(),
        b.limit() == a.limit(),
        b.bytes() == a.bytes() + node::node_bytes(key, value, height),
        b.bytes() <= usize::MAX,
    ensures
        b.usage() >= a.usage() + node::text_bytes(key, value),
        a.usage() >= a.limit() ==> b.usage() >= b.limit(),
{
    a.skip_list.lemma_usage();
    b.skip_list.lemma_usage();
}

/// Writing a version above a snapshot changes no answer at that snapshot.
pub proof fn law_later_versions_are_invisible(
    m: Map<KeyView, ValueView>,
    key: KeyView,
    value: ValueView,
    user: Seq<char>,
    snap: u64,
)
    requires
        key.seq > snap,
    ensures
        versions::lookup(m.insert(key, value), user, snap) == versions::lookup(m, user, snap),
{
    versions::lemma_lookup_agree(m.insert(key, value), m, user, snap);
}

/// A version that is newer than all others of its key is what readers at or
/// above it find.
pub proof fn law_newest_version_is_found(
    m: Map<KeyView, ValueView>,
    key: KeyView,
    value: ValueView,
    snap: u64,
)
    requires
        key.seq <= snap,
        forall|s: u64|
            key.seq < s <= snap ==> !#[trigger] m.contains_key(KeyView { user: key.user, seq: s }),
    ensures
        versions::lookup(m.insert(key, value), key.user, snap) == LookupView::of(value),
{
    let n = m.insert(key, value);
    assert(key == KeyView { user: key.user, seq: key.seq });
    assert(versions::newest(n, key.user, snap, key.seq));
    versions::lemma_lookup_newest(n, key.user, snap, key.seq);
}

/// A version takes the bytes of its texts, those of its sequence number, and for its
/// node and each of its at most sixteen links a fixed number.
pub proof fn law_version_size(key: KeyView, value: ValueView, height: nat)
    ensures
        node::node_bytes(key, value, height) == encode_utf8(key.user).len() + 8 + (match value {
            ValueView::Put(s) => encode_utf8(s).len(),
            ValueView::Delete => 0,
        }) + vstd::layout::size_of_as_usize::<node::Node>() + height
            * vstd::layout::size_of_as_usize::<Option<usize>>(),
        MAX_HEIGHT == 16,
{
}

} // verus!
