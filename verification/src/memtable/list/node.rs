//! Nodes of the list.

use vstd::prelude::*;
use vstd::utf8::*;

use crate::common::key::{Key, KeyView};
use crate::common::text;
use crate::common::value::{Value, ValueView};

verus! {

/// One version in the list.
#[derive(Debug)]
pub struct Node {
    /// The key of the version.
    pub(crate) key: Key,
    /// Its value.
    pub(crate) value: Value,
    /// For each level below the height of the node, the next node of that level.
    pub(crate) tower: Vec<Option<usize>>,
}

/// Bytes that a node of this height takes, in the arithmetic of machine words.
pub open spec fn node_size(key: KeyView, value: ValueView, height: nat) -> usize {
    vstd::layout::size_of_as_usize::<Node>().wrapping_add(
        (key.text_len() as usize).wrapping_add(8),
    ).wrapping_add(value.text_len() as usize).wrapping_add(
        (height as usize).wrapping_mul(vstd::layout::size_of_as_usize::<Option<usize>>()),
    )
}

/// Bytes that the texts and the sequence number of a version take.
pub open spec fn text_bytes(key: KeyView, value: ValueView) -> nat {
    key.text_len() + 8 + value.text_len()
}

/// Bytes that a node of this height takes.
pub open spec fn node_bytes(key: KeyView, value: ValueView, height: nat) -> nat {
    vstd::layout::size_of_as_usize::<Node>() as nat + text_bytes(key, value) + height
        * vstd::layout::size_of_as_usize::<Option<usize>>() as nat
}

/// The size of a node that fits a machine word is what machine words make of it.
pub proof fn lemma_node_size(key: KeyView, value: ValueView, height: nat)
    requires
        node_bytes(key, value, height) <= usize::MAX,
        height <= usize::MAX,
    ensures
        node_size(key, value, height) == node_bytes(key, value, height),
{
    let links = height * vstd::layout::size_of_as_usize::<Option<usize>>() as nat;
    assert(links % (usize::MAX as nat + 1) == links) by (nonlinear_arith)
        requires
            links <= usize::MAX,
    ;
}

impl Node {
    /// Bytes that this node takes.
    pub(crate) fn heap_size(&self) -> (n: usize)
        ensures
            n == node_size(self.key@, self.value@, self.tower@.len()),
    {
        let key_size: usize = text::byte_len(self.key.0.as_str()).wrapping_add(8);
        let value_size: usize = self.value.heap_size();
        let links: usize = self.tower.len().wrapping_mul(core::mem::size_of::<Option<usize>>());
        core::mem::size_of::<Node>().wrapping_add(key_size).wrapping_add(value_size).wrapping_add(
            links,
        )
    }
}

} // verus!
