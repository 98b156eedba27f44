//! The position store: one entry per tracked node, keyed by node id, kept in
//! insertion order.
use vstd::prelude::*;

use crate::graph::NodeId;

verus! {

/// The ids of a sequence of entries, in order.
pub open spec fn keys_of<V>(s: Seq<(NodeId, V)>) -> Seq<NodeId> {
    s.map_values(|e: (NodeId, V)| e.0)
}

/// Node id to per-node layout value (position and force). `V` is the value
/// type of the caller: the library only moves values around. Entries keep
/// the order in which they were stored, which fixes the order of every pass
/// over them (the first stored node wins a hit test).
pub struct NodePositions<V> {
    entries: Vec<(NodeId, V)>,
}

impl<V> View for NodePositions<V> {
    type V = Seq<(NodeId, V)>;

    closed spec fn view(&self) -> Seq<(NodeId, V)> {
        self.entries@
    }
}

impl<V> NodePositions<V> {
    /// The ids of the entries, in order.
    pub open spec fn keys(&self) -> Seq<NodeId> {
        keys_of(self@)
    }

    /// No id is stored twice.
    pub open spec fn wf(&self) -> bool {
        self.keys().no_duplicates()
    }

    /// An empty store.
    pub fn new() -> (r: Self)
        ensures
            r@ == Seq::<(NodeId, V)>::empty(),
            r.wf(),
    {
        NodePositions { entries: Vec::new() }
    }

    /// The number of entries.
    pub fn len(&self) -> (r: usize)
        ensures
            r == self@.len(),
    {
        self.entries.len()
    }

    /// The slot of `id`, if it is stored.
    pub fn index_of(&self, id: NodeId) -> (r: Option<usize>)
        ensures
            match r {
                Some(i) => i < self@.len() && self@[i as int].0 == id && self.keys().contains(id),
                None => !self.keys().contains(id),
            },
    {
        let mut i: usize = 0;
        while i < self.entries.len()
            invariant
                i <= self@.len(),
                forall|j: int| 0 <= j < i ==> self@[j].0 != id,
            decreases self@.len() - i,
        {
            if self.entries[i].0 == id {
                assert(self.keys()[i as int] == id);
                return Some(i);
            }
            i = i + 1;
        }
        proof {
            if self.keys().contains(id) {
                let j = choose|j: int| 0 <= j < self.keys().len() && self.keys()[j] == id;
                assert(self@[j].0 == id);
            }
        }
        None
    }

    /// Whether `id` is stored.
    pub fn contains(&self, id: NodeId) -> (r: bool)
        ensures
            r == self.keys().contains(id),
    {
        self.index_of(id).is_some()
    }

    /// The value stored for `id`.
    pub fn get(&self, id: NodeId) -> (r: Option<&V>)
        ensures
            match r {
                Some(v) => exists|i: int| 0 <= i < self@.len() && self@[i].0 == id && self@[i].1 == *v,
                None => !self.keys().contains(id),
            },
    {
        match self.index_of(id) {
            Some(i) => Some(&self.entries[i].1),
            None => None,
        }
    }

    /// The entry in slot `i`.
    pub fn entry(&self, i: usize) -> (r: &(NodeId, V))
        requires
            i < self@.len(),
        ensures
            *r == self@[i as int],
    {
        &self.entries[i]
    }

    /// Replaces the value in slot `i`, keeping its id.
    pub fn set_value(&mut self, i: usize, value: V)
        requires
            i < old(self)@.len(),
        ensures
            final(self)@ == old(self)@.update(i as int, (old(self)@[i as int].0, value)),
            final(self).keys() == old(self).keys(),
    {
        let id = self.entries[i].0;
        self.entries.set(i, (id, value));
        assert(final(self).keys() =~= old(self).keys());
    }

    /// Stores `value` for `id`: in place if `id` is stored, else as a new
    /// last entry.
    pub fn insert(&mut self, id: NodeId, value: V)
        requires
            old(self).wf(),
        ensures
            final(self).wf(),
            old(self).keys().contains(id) ==> exists|i: int|
                0 <= i < old(self)@.len() && old(self)@[i].0 == id && final(self)@ == old(self)@.update(
                    i,
                    (id, value),
                ),
            !old(self).keys().contains(id) ==> final(self)@ == old(self)@.push((id, value)),
    {
        match self.index_of(id) {
            Some(i) => {
                self.set_value(i, value);
            },
            None => {
                self.entries.push((id, value));
                proof {
                    assert(self.keys() =~= old(self).keys().push(id));
                }
            },
        }
    }

    /// Removes the entry in slot `i` and returns it.
    pub fn remove_at(&mut self, i: usize) -> (r: (NodeId, V))
        requires
            i < old(self)@.len(),
        ensures
            r == old(self)@[i as int],
            final(self)@ == old(self)@.remove(i as int),
    {
        self.entries.remove(i)
    }

    /// Appends an entry for an id that is not stored yet.
    pub fn push_new(&mut self, id: NodeId, value: V)
        requires
            old(self).wf(),
            !old(self).keys().contains(id),
        ensures
            final(self)@ == old(self)@.push((id, value)),
            final(self).wf(),
    {
        self.entries.push((id, value));
        assert(self.keys() =~= old(self).keys().push(id));
    }

    /// The stored ids, in order.
    pub fn ids(&self) -> (r: Vec<NodeId>)
        ensures
            r@ == self.keys(),
    {
        let mut r: Vec<NodeId> = Vec::new();
        let mut i: usize = 0;
        while i < self.entries.len()
            invariant
                i <= self@.len(),
                r@ == self.keys().take(i as int),
            decreases self@.len() - i,
        {
            r.push(self.entries[i].0);
            i = i + 1;
            assert(r@ =~= self.keys().take(i as int));
        }
        assert(r@ =~= self.keys());
        r
    }
}

} // verus!
