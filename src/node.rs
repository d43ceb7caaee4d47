//! The nodes of a skip list.

use vstd::prelude::*;

verus! {

/// One node of the list: an entry and its forward links, one per level.
/// `forward[l]` is the index of the next node on level `l`, or `None` at the
/// end of that level. The number of links is fixed when the node is made.
pub struct Node<V> {
    pub key: i64,
    pub value: Option<V>,
    pub forward: Vec<Option<usize>>,
}

/// `n` links that point nowhere.
pub(crate) fn empty_links(n: usize) -> (r: Vec<Option<usize>>)
    ensures
        r@.len() == n,
        forall|i: int| 0 <= i < n ==> r@[i] is None,
{
    let mut r: Vec<Option<usize>> = Vec::new();
    let mut i: usize = 0;
    while i < n
        invariant
            i <= n,
            r@.len() == i,
            forall|j: int| 0 <= j < i ==> r@[j] is None,
        decreases n - i,
    {
        r.push(None);
        i = i + 1;
    }
    r
}

impl<V> Node<V> {
    /// A sentinel: `level` empty links and no entry.
    pub fn new(level: usize) -> (r: Self)
        ensures
            r.key == 0,
            r.value is None,
            r.forward@.len() == level,
            forall|i: int| 0 <= i < level ==> r.forward@[i] is None,
    {
        Node { key: 0, value: None, forward: empty_links(level) }
    }

    /// A node holding `k` and `v`, with `level` empty links.
    pub fn node(level: usize, k: i64, v: V) -> (r: Self)
        ensures
            r.key == k,
            r.value == Some(v),
            r.forward@.len() == level,
            forall|i: int| 0 <= i < level ==> r.forward@[i] is None,
    {
        Node { key: k, value: Some(v), forward: empty_links(level) }
    }
}

} // verus!
