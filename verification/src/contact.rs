//! Peers, and lists of peers ordered by distance.

use vstd::prelude::*;

use crate::distance::{dist, is_nearer};
use crate::hash::{same_id, NodeId};
use crate::order::{
    insert_by, lemma_insert_by_at, lemma_insert_position, lemma_sort_by, sort_by, sorted_by,
};

verus! {

/// Another DHT node: its identifier and the serialized address it is reached at.
#[derive(Debug, PartialEq, Eq, Hash)]
pub struct Contact {
    /// The node's identifier.
    pub id: NodeId,
    /// The node's address, in the serialization of the transport.
    pub addr: String,
}

impl Clone for Contact {
    fn clone(&self) -> (copy: Self)
        ensures
            copy == *self,
    {
        Contact { id: self.id, addr: self.addr.clone() }
    }
}

/// Whether some contact of the list has this identifier.
pub open spec fn has_id(contacts: Seq<Contact>, id: NodeId) -> bool {
    exists|i: int| 0 <= i < contacts.len() && (#[trigger] contacts[i]).id == id
}

/// Whether `i` is the first position of this identifier.
pub open spec fn is_first_with(contacts: Seq<Contact>, id: NodeId, i: int) -> bool {
    &&& 0 <= i < contacts.len()
    &&& contacts[i].id == id
    &&& forall|j: int| 0 <= j < i ==> (#[trigger] contacts[j]).id != id
}

/// The first position of this identifier.
pub open spec fn first_with(contacts: Seq<Contact>, id: NodeId) -> int {
    choose|i: int| is_first_with(contacts, id, i)
}

/// Whether no identifier occurs twice.
pub open spec fn distinct_ids(contacts: Seq<Contact>) -> bool {
    forall|i: int, j: int|
        0 <= i < j < contacts.len() ==> (#[trigger] contacts[i]).id != (#[trigger] contacts[j]).id
}

/// The key that orders contacts by their distance to a target.
pub open spec fn distance_key(target: NodeId) -> spec_fn(Contact) -> int {
    |c: Contact| dist(c.id, target) as int
}

/// The contacts from the nearest to the farthest.
pub open spec fn by_distance(contacts: Seq<Contact>, target: NodeId) -> Seq<Contact> {
    sort_by(contacts, distance_key(target))
}

/// Whether the contacts go from the nearest to the farthest.
pub open spec fn nearest_first(contacts: Seq<Contact>, target: NodeId) -> bool {
    sorted_by(contacts, distance_key(target))
}

/// Finds the first contact with this identifier.
pub fn position_of(contacts: &Vec<Contact>, id: &NodeId) -> (position: Option<usize>)
    ensures
        match position {
            Some(i) => is_first_with(contacts@, *id, i as int) && i == first_with(contacts@, *id)
                && has_id(contacts@, *id),
            None => !has_id(contacts@, *id),
        },
{
    for i in 0..contacts.len()
        invariant
            forall|j: int| 0 <= j < i ==> (#[trigger] contacts@[j]).id != *id,
    {
        if same_id(&contacts[i].id, id) {
            proof {
                assert(is_first_with(contacts@, *id, i as int));
                lemma_first_with_unique(contacts@, *id, i as int);
            }
            return Some(i);
        }
    }
    None
}

/// Puts a contact where it belongs in a list that is ordered by distance.
pub fn insert_by_distance(contacts: &mut Vec<Contact>, contact: Contact, target: &NodeId)
    ensures
        final(contacts)@ == insert_by(old(contacts)@, contact, distance_key(*target)),
{
    let ghost key = distance_key(*target);
    let mut p = contacts.len();
    while p > 0 && is_nearer(&contact.id, &contacts[p - 1].id, target)
        invariant
            key == distance_key(*target),
            p <= contacts.len(),
            contacts@ == old(contacts)@,
            forall|i: int| p <= i < contacts.len() ==> key(#[trigger] contacts@[i]) > key(contact),
        decreases p,
    {
        p = p - 1;
    }
    proof {
        lemma_insert_position(contacts@, contact, key, p as int);
    }
    contacts.insert(p, contact);
}

/// Orders contacts by their distance to a target, nearest first.
pub fn sort_by_distance(contacts: &mut Vec<Contact>, target: &NodeId)
    ensures
        final(contacts)@ == by_distance(old(contacts)@, *target),
{
    let ghost all = contacts@;
    let mut ordered: Vec<Contact> = Vec::new();
    assert(all.take(0) =~= Seq::<Contact>::empty());
    for i in 0..contacts.len()
        invariant
            contacts@ == all,
            ordered@ == by_distance(all.take(i as int), *target),
    {
        assert(all.take(i + 1).drop_last() =~= all.take(i as int));
        insert_by_distance(&mut ordered, contacts[i].clone(), target);
    }
    assert(all.take(all.len() as int) =~= all);
    *contacts = ordered;
}

pub proof fn lemma_first_with_unique(contacts: Seq<Contact>, id: NodeId, i: int)
    requires
        is_first_with(contacts, id, i),
    ensures
        first_with(contacts, id) == i,
        has_id(contacts, id),
{
    let j = first_with(contacts, id);
    assert(is_first_with(contacts, id, j));
    if j < i {
        assert(contacts[j].id != id);
    }
    if i < j {
        assert(contacts[i].id != id);
    }
}

/// An identifier that occurs has a first position.
pub proof fn lemma_has_id_first(contacts: Seq<Contact>, id: NodeId)
    requires
        has_id(contacts, id),
    ensures
        is_first_with(contacts, id, first_with(contacts, id)),
{
    let m = choose|m: int| 0 <= m < contacts.len() && (#[trigger] contacts[m]).id == id;
    lemma_first_up_to(contacts, id, m);
}

proof fn lemma_first_up_to(contacts: Seq<Contact>, id: NodeId, m: int)
    requires
        0 <= m < contacts.len(),
        contacts[m].id == id,
    ensures
        is_first_with(contacts, id, first_with(contacts, id)),
    decreases m,
{
    if exists|j: int| 0 <= j < m && (#[trigger] contacts[j]).id == id {
        let j = choose|j: int| 0 <= j < m && (#[trigger] contacts[j]).id == id;
        lemma_first_up_to(contacts, id, j);
    } else {
        assert(is_first_with(contacts, id, m));
    }
}

/// Putting a list in order repeats nobody.
pub proof fn lemma_sort_by_distinct(contacts: Seq<Contact>, key: spec_fn(Contact) -> int)
    requires
        distinct_ids(contacts),
    ensures
        distinct_ids(sort_by(contacts, key)),
    decreases contacts.len(),
{
    if contacts.len() > 0 {
        let front = contacts.drop_last();
        let x = contacts.last();
        assert(distinct_ids(front)) by {
            assert forall|i: int, j: int| 0 <= i < j < front.len() implies (#[trigger] front[i]).id
                != (#[trigger] front[j]).id by {
                assert(contacts[i].id != contacts[j].id);
            }
        }
        lemma_sort_by_distinct(front, key);
        lemma_sort_by(front, key);
        let s = sort_by(front, key);
        assert forall|m: int| 0 <= m < s.len() implies (#[trigger] s[m]).id != x.id by {
            assert(s.contains(s[m]));
            assert(front.contains(s[m]));
            let i = choose|i: int| 0 <= i < front.len() && front[i] == s[m];
            assert(contacts[i].id != contacts[contacts.len() - 1].id);
        }
        lemma_insert_by_distinct(s, x, key);
    }
}

/// Inserting a new identifier into a list keeps its identifiers distinct.
pub proof fn lemma_insert_by_distinct(
    s: Seq<Contact>,
    x: Contact,
    key: spec_fn(Contact) -> int,
)
    requires
        distinct_ids(s),
        !has_id(s, x.id),
    ensures
        distinct_ids(insert_by(s, x, key)),
{
    let r = insert_by(s, x, key);
    let p = lemma_insert_by_at(s, x, key);
    assert forall|i: int, j: int| 0 <= i < j < r.len() implies (#[trigger] r[i]).id != (
    #[trigger] r[j]).id by {
        let a = if i < p { i } else { i - 1 };
        let b = if j < p { j } else { j - 1 };
        if i != p && j != p {
            assert(s[a].id != s[b].id);
        } else if i == p {
            assert(s[b].id != x.id);
        } else {
            assert(s[a].id != x.id);
        }
    }
}

} // verus!
