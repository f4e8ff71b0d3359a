use crate::key::{Key, Value};
use crate::model::Entry;
use crate::text::text_lt;
use vstd::prelude::*;

verus! {

/// A node of the index: a key, its value, and one forward link per level.
/// A link names the next node of that level by its place in the arena.
pub struct Node<K: Key, V: Value> {
    key: K,
    value: V,
    level: usize,
    next: Vec<Option<usize>>,
}

impl<K: Key, V: Value> Node<K, V> {
    /// The key, the value and the level of this node.
    pub closed spec fn entry(&self) -> Entry {
        Entry { key: self.key.text(), value: self.value.text(), level: self.level as nat }
    }

    /// The forward links of this node, lowest level first.
    pub closed spec fn links(&self) -> Seq<Option<usize>> {
        self.next@
    }

    /// A node for `k` and `v` that takes part in the levels up to `level`,
    /// with `levels` links, all empty.
    pub fn new(k: &K, v: &V, level: usize, levels: usize) -> (node: Self)
        requires
            level < levels,
        ensures
            node.entry() == (Entry { key: k.text(), value: v.text(), level: level as nat }),
            node.links() == Seq::new(levels as nat, |i: int| None::<usize>),
    {
        let key = k.duplicate();
        let value = v.duplicate();
        let next = empty_links(levels);
        Node { key, value, level, next }
    }

    /// The sentinel that anchors every level: it holds no data and `levels`
    /// empty links.
    pub fn empty(levels: usize) -> (node: Self)
        requires
            levels > 0,
        ensures
            node.entry() == (Entry {
                key: Seq::<char>::empty(),
                value: Seq::<char>::empty(),
                level: (levels - 1) as nat,
            }),
            node.links() == Seq::new(levels as nat, |i: int| None::<usize>),
    {
        let key = K::empty();
        let value = V::empty();
        let next = empty_links(levels);
        Node { key, value, level: levels - 1, next }
    }

    /// Links `new_node` in behind this node at `level` and hands back the
    /// node that stood there before.
    pub fn push(&mut self, level: usize, new_node: usize) -> (displaced: Option<usize>)
        requires
            level < old(self).links().len(),
        ensures
            displaced == old(self).links()[level as int],
            final(self).links() == old(self).links().update(level as int, Some(new_node)),
            final(self).entry() == old(self).entry(),
    {
        let displaced = self.next[level];
        self.next.set(level, Some(new_node));
        displaced
    }

    /// Sets the link of `level` to `target`.
    pub fn set_link(&mut self, level: usize, target: Option<usize>)
        requires
            level < old(self).links().len(),
        ensures
            final(self).links() == old(self).links().update(level as int, target),
            final(self).entry() == old(self).entry(),
    {
        self.next.set(level, target);
    }

    /// The node that follows this one at `level`, if any.
    pub fn link(&self, level: usize) -> (target: Option<usize>)
        requires
            level < self.links().len(),
        ensures
            target == self.links()[level as int],
    {
        self.next[level]
    }

    /// Whether `key` comes strictly before this node's key.
    pub fn follows(&self, key: &K) -> (r: bool)
        ensures
            r == text_lt(key.text(), self.entry().key),
    {
        key.precedes(&self.key)
    }

    /// Whether this node's key comes strictly before `key`.
    pub fn precedes(&self, key: &K) -> (r: bool)
        ensures
            r == text_lt(self.entry().key, key.text()),
    {
        self.key.precedes(key)
    }

    /// A copy of the key held by this node.
    pub fn key(&self) -> (key: K)
        ensures
            key.text() == self.entry().key,
    {
        self.key.duplicate()
    }

    /// A copy of the value held by this node.
    pub fn value(&self) -> (value: V)
        ensures
            value.text() == self.entry().value,
    {
        self.value.duplicate()
    }
}

/// `levels` empty links.
fn empty_links(levels: usize) -> (next: Vec<Option<usize>>)
    ensures
        next@ == Seq::new(levels as nat, |i: int| None::<usize>),
{
    let mut next: Vec<Option<usize>> = Vec::new();
    let mut i: usize = 0;
    while i < levels
        invariant
            i <= levels,
            next@ == Seq::new(i as nat, |j: int| None::<usize>),
        decreases levels - i,
    {
        next.push(None);
        i += 1;
        assert(next@ =~= Seq::new(i as nat, |j: int| None::<usize>));
    }
    next
}

} // verus!
