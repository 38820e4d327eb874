//! Sets of identifiers.

use vstd::prelude::*;

use crate::hash::{same_id, NodeId};

verus! {

/// A set of identifiers.
pub struct IdSet {
    ids: Vec<NodeId>,
}

impl View for IdSet {
    type V = Set<NodeId>;

    closed spec fn view(&self) -> Set<NodeId> {
        Set::new(|id: NodeId| self.ids@.contains(id))
    }
}

impl IdSet {
    /// Creates an empty set.
    pub fn new() -> (set: Self)
        ensures
            set@ == Set::<NodeId>::empty(),
    {
        let set = IdSet { ids: Vec::new() };
        assert(set@ =~= Set::empty());
        set
    }

    /// Whether an identifier is in the set.
    pub fn contains(&self, id: &NodeId) -> (found: bool)
        ensures
            found == self@.contains(*id),
    {
        for i in 0..self.ids.len()
            invariant
                forall|j: int| 0 <= j < i ==> #[trigger] self.ids@[j] != *id,
        {
            if same_id(&self.ids[i], id) {
                assert(self.ids@[i as int] == *id);
                return true;
            }
        }
        false
    }

    /// Adds an identifier and tells whether it is new.
    pub fn insert(&mut self, id: NodeId) -> (fresh: bool)
        ensures
            fresh == !old(self)@.contains(id),
            final(self)@ == old(self)@.insert(id),
    {
        let ghost before = self.ids@;
        let ghost set = self@;
        if self.contains(&id) {
            assert(self@ =~= set.insert(id));
            return false;
        }
        self.ids.push(id);
        proof {
            assert forall|x: NodeId| #[trigger] self@.contains(x) == set.insert(id).contains(x) by {
                if before.contains(x) {
                    let i = choose|i: int| 0 <= i < before.len() && before[i] == x;
                    assert(self.ids@[i] == x);
                }
                if x == id {
                    assert(self.ids@[before.len() as int] == x);
                }
                if self.ids@.contains(x) {
                    let i = choose|i: int| 0 <= i < self.ids@.len() && self.ids@[i] == x;
                    if i < before.len() {
                        assert(before[i] == x);
                    }
                }
            }
            assert(self@ =~= set.insert(id));
        }
        true
    }
}

} // verus!
