//! Iterative lookups: asking ever nearer contacts for the contacts nearest to a target, or
//! for a value.
//!
//! A lookup keeps the contacts that are nearest to its target, and asks those of them first that
//! are in faster latency tiers. It can be confined to one tier, as when values are passed on to
//! slow nodes.
//!
//! A lookup is driven from outside. `next` says whom to ask; the outcome is reported with
//! `on_response` or `on_failure`; once `next` names nobody, `finish` yields the result.

use vstd::prelude::*;

use crate::adaptive::latest_outcomes;
use crate::contact::{
    by_distance, distance_key, distinct_ids, has_id, lemma_sort_by_distinct, nearest_first,
    sort_by_distance, Contact,
};
use crate::distance::{be_value, dist, distance_less, xor_bytes, xor_distance};
use crate::hash::{blake3, same_id, verify_key_value_pair, Key, NodeId};
use crate::id_set::IdSet;
use crate::node::{
    lemma_adjusted, lemma_heard_from, lemma_local_value_is_authentic, level_index, DhtNode,
    NodeView,
};
use crate::order::{
    first_of, insert_by, lemma_first_of_insert, lemma_first_of_sorted_sum, lemma_insert_position,
    lemma_sort_by, lemma_sort_by_sorted, lemma_sort_by_stable, sort_by, sorted_by,
};
use crate::routing::{lemma_closest_are_nearest, lemma_contacts, PendingBucketUpdate};
use crate::tiering::TieringLevel;

verus! {

/// The identifiers of some contacts.
pub open spec fn ids_of(contacts: Seq<Contact>) -> Set<NodeId> {
    Set::new(|id: NodeId| has_id(contacts, id))
}

/// The greatest distance that there is.
pub open spec fn farthest() -> nat {
    be_value(Seq::new(32, |i: int| 0xffu8))
}

/// The key that orders contacts by their latency tier.
pub open spec fn tier_key(node: NodeView) -> spec_fn(Contact) -> int {
    |c: Contact| node.tiering.level_of(c.id) as int
}

/// The contacts of a shortlist that were not asked yet.
pub open spec fn unasked(shortlist: Seq<Contact>, queried: Set<NodeId>) -> Seq<Contact> {
    shortlist.filter(|c: Contact| !queried.contains(c.id))
}

/// The contacts to ask in a round: of those that were not asked yet, the ones in the fastest
/// tiers, and within a tier the nearest ones.
pub open spec fn candidates(
    node: NodeView,
    shortlist: Seq<Contact>,
    queried: Set<NodeId>,
) -> Seq<Contact> {
    first_of(sort_by(unasked(shortlist, queried), tier_key(node)), node.params.alpha)
}

/// What a lookup holds.
#[verifier::ext_equal]
pub struct LookupView {
    /// What is looked for.
    pub target: NodeId,
    /// The tier that contacts must be in, if any.
    pub level: Option<nat>,
    /// The nearest contacts so far, nearest first.
    pub shortlist: Seq<Contact>,
    /// Whoever was named so far.
    pub seen: Set<NodeId>,
    /// Whoever was asked so far.
    pub queried: Set<NodeId>,
    /// The contacts of this round that are still to be asked.
    pub batch: Seq<Contact>,
    /// Whether this round brought the lookup nearer to its target.
    pub closer: bool,
    /// The distance of the nearest contact so far.
    pub best: nat,
    /// Whether some contact answered.
    pub succeeded: bool,
    /// Whether some contact failed to answer.
    pub failed: bool,
}

impl LookupView {
    /// The shortlist names nobody twice and goes from the nearest to the farthest; `best` is
    /// the distance of its first contact; nobody who is still to be asked was asked before.
    pub open spec fn wf(self) -> bool {
        &&& distinct_ids(self.shortlist)
        &&& nearest_first(self.shortlist, self.target)
        &&& forall|i: int|
            0 <= i < self.shortlist.len() ==> self.seen.contains((#[trigger] self.shortlist[i]).id)
        &&& self.best == if self.shortlist.len() > 0 {
            dist(self.shortlist[0].id, self.target)
        } else {
            farthest()
        }
        &&& distinct_ids(self.batch)
        &&& forall|i: int|
            0 <= i < self.batch.len() ==> !self.queried.contains((#[trigger] self.batch[i]).id)
    }

    /// A lookup that starts from the contacts that a node knows.
    pub open spec fn started(node: NodeView, target: NodeId, level: Option<nat>) -> LookupView {
        let shortlist = by_distance(node.matching(level, node.closest(target)), target);
        LookupView {
            target,
            level,
            shortlist,
            seen: ids_of(shortlist),
            queried: Set::empty(),
            batch: Seq::empty(),
            closer: true,
            best: if shortlist.len() > 0 {
                dist(shortlist[0].id, target)
            } else {
                farthest()
            },
            succeeded: false,
            failed: false,
        }
    }

    /// The lookup once the next contact of the round was picked, and that contact. The node
    /// itself is passed over.
    pub open spec fn advanced(self, self_id: NodeId) -> (LookupView, Option<Contact>)
        decreases self.batch.len(),
    {
        if self.batch.len() == 0 {
            (self, None)
        } else {
            let contact = self.batch[0];
            let after = LookupView {
                batch: self.batch.drop_first(),
                queried: self.queried.insert(contact.id),
                ..self
            };
            if contact.id == self_id {
                after.advanced(self_id)
            } else {
                (after, Some(contact))
            }
        }
    }

    /// The lookup with a new round of candidates.
    pub open spec fn next_round(self, node: NodeView) -> LookupView {
        LookupView {
            batch: candidates(node, self.shortlist, self.queried),
            closer: false,
            ..self
        }
    }

    /// The lookup once it was asked whom to ask, and the answer: somebody of this round, or of
    /// a new one if this one brought the lookup nearer, or nobody.
    pub open spec fn polled(self, node: NodeView) -> (LookupView, Option<Contact>) {
        let (rest, contact) = self.advanced(node.id);
        if contact is Some || !rest.closer {
            (rest, contact)
        } else {
            rest.next_round(node).advanced(node.id)
        }
    }

    /// The lookup once the contacts of an answer were added: those that nobody named before
    /// and that are in the right tier.
    pub open spec fn extended(self, node: NodeView, nodes: Seq<Contact>) -> LookupView
        decreases nodes.len(),
    {
        if nodes.len() == 0 {
            self
        } else {
            let front = self.extended(node, nodes.drop_last());
            let n = nodes.last();
            if front.seen.contains(n.id) {
                front
            } else {
                LookupView {
                    seen: front.seen.insert(n.id),
                    shortlist: if node.matches(self.level, n.id) {
                        front.shortlist.push(n)
                    } else {
                        front.shortlist
                    },
                    ..front
                }
            }
        }
    }

    /// The lookup once its shortlist was put in order and cut to the `k` nearest contacts.
    pub open spec fn narrowed(self, k: nat) -> LookupView {
        let shortlist = first_of(by_distance(self.shortlist, self.target), k);
        let nearest = dist(shortlist[0].id, self.target);
        if shortlist.len() > 0 && nearest < self.best {
            LookupView { shortlist, best: nearest, closer: true, ..self }
        } else {
            LookupView { shortlist, ..self }
        }
    }

    /// The lookup once a contact answered with other contacts; `node` is the state of the
    /// node after it took note of the answer.
    pub open spec fn answered(self, node: NodeView, nodes: Seq<Contact>) -> LookupView {
        (LookupView { succeeded: true, ..self }).extended(node, nodes).narrowed(node.params.k)
    }

    /// The lookup once a contact failed to answer.
    pub open spec fn refused(self) -> LookupView {
        LookupView { failed: true, ..self }
    }

    /// The node once the lookup is over: if anybody answered that counts as a success, and if
    /// somebody was asked and nobody answered, as a failure.
    pub open spec fn finished(self, node: NodeView) -> NodeView {
        if self.succeeded {
            node.adjusted(true)
        } else if self.failed {
            node.adjusted(false)
        } else {
            node
        }
    }
}

/// A lookup of the contacts nearest to a target.
pub struct NodeLookup {
    target: NodeId,
    level: Option<TieringLevel>,
    shortlist: Vec<Contact>,
    seen: IdSet,
    queried: IdSet,
    batch: Vec<Contact>,
    closer: bool,
    best: [u8; 32],
    succeeded: bool,
    failed: bool,
}

impl View for NodeLookup {
    type V = LookupView;

    closed spec fn view(&self) -> LookupView {
        LookupView {
            target: self.target,
            level: level_index(self.level),
            shortlist: self.shortlist@,
            seen: self.seen@,
            queried: self.queried@,
            batch: self.batch@,
            closer: self.closer,
            best: be_value(self.best@),
            succeeded: self.succeeded,
            failed: self.failed,
        }
    }
}

/// Puts a contact where it belongs in a list that is ordered by tier.
fn insert_by_tier(contacts: &mut Vec<Contact>, contact: Contact, node: &DhtNode)
    requires
        node.wf(),
    ensures
        final(contacts)@ == insert_by(old(contacts)@, contact, tier_key(node@)),
{
    let ghost key = tier_key(node@);
    let level = node.level_for(&contact.id).index();
    let mut p = contacts.len();
    while p > 0 && node.level_for(&contacts[p - 1].id).index() > level
        invariant
            node.wf(),
            key == tier_key(node@),
            level == key(contact),
            p <= contacts.len(),
            contacts@ == old(contacts)@,
            forall|i: int| p <= i < contacts.len() ==> key(#[trigger] contacts@[i]) > key(contact),
        decreases p,
    {
        p = p - 1;
    }
    proof {
        lemma_insert_position(contacts@, contact, key, p as int);
    }
    contacts.insert(p, contact);
}

impl NodeLookup {
    /// The lookup's invariant.
    pub open spec fn wf(&self) -> bool {
        self@.wf()
    }

    /// Starts a lookup from the contacts that a node knows, in a tier if one is given.
    pub fn start(node: &DhtNode, target: &NodeId, level_filter: Option<TieringLevel>) -> (lookup: Self)
        requires
            node.wf(),
        ensures
            lookup.wf(),
            lookup@ == LookupView::started(node@, *target, level_index(level_filter)),
    {
        let known = node.closest(target);
        let mut shortlist = node.filter_contacts(known, level_filter);
        sort_by_distance(&mut shortlist, target);
        let mut seen = IdSet::new();
        assert(ids_of(shortlist@.take(0)) =~= Set::empty());
        for i in 0..shortlist.len()
            invariant
                seen@ == ids_of(shortlist@.take(i as int)),
        {
            seen.insert(shortlist[i].id);
            proof {
                lemma_ids_of_push(shortlist@.take(i as int), shortlist@[i as int]);
                assert(shortlist@.take(i + 1) =~= shortlist@.take(i as int).push(
                    shortlist@[i as int],
                ));
            }
        }
        assert(shortlist@.take(shortlist@.len() as int) =~= shortlist@);
        let best = if shortlist.len() > 0 {
            xor_distance(&shortlist[0].id, target)
        } else {
            [0xffu8; 32]
        };
        assert(shortlist@.len() == 0 ==> best@ =~= Seq::new(32, |i: int| 0xffu8));
        let lookup = NodeLookup {
            target: *target,
            level: level_filter,
            shortlist,
            seen,
            queried: IdSet::new(),
            batch: Vec::new(),
            closer: true,
            best,
            succeeded: false,
            failed: false,
        };
        proof {
            lemma_started_wf(node@, *target, level_index(level_filter));
            assert(lookup@ =~= LookupView::started(node@, *target, level_index(level_filter)));
        }
        lookup
    }

    fn advance(&mut self, self_id: &NodeId) -> (contact: Option<Contact>)
        requires
            old(self).wf(),
        ensures
            final(self).wf(),
            (final(self)@, contact) == old(self)@.advanced(*self_id),
    {
        let ghost before = self@;
        while self.batch.len() > 0
            invariant
                self.wf(),
                before == old(self)@,
                self@.advanced(*self_id) == before.advanced(*self_id),
            decreases self.batch.len(),
        {
            let ghost here = self@;
            let contact = self.batch.remove(0);
            let _ = self.queried.insert(contact.id);
            proof {
                lemma_asked_wf(here);
                assert(self@ =~= (LookupView {
                    batch: here.batch.drop_first(),
                    queried: here.queried.insert(here.batch[0].id),
                    ..here
                }));
            }
            assert(contact == here.batch[0]);
            if !same_id(&contact.id, self_id) {
                assert(here.advanced(*self_id) == (self@, Some(contact)));
                return Some(contact);
            }
        }
        None
    }

    fn pick(&self, node: &DhtNode) -> (batch: Vec<Contact>)
        requires
            node.wf(),
        ensures
            batch@ == candidates(node@, self@.shortlist, self@.queried),
    {
        let alpha = node.current_alpha();
        let ghost shortlist = self.shortlist@;
        let ghost queried = self.queried@;
        let ghost pred = |c: Contact| !queried.contains(c.id);
        let ghost key = tier_key(node@);
        let mut batch: Vec<Contact> = Vec::new();
        proof {
            reveal(Seq::filter);
            assert(shortlist.take(0) =~= Seq::empty());
        }
        for i in 0..self.shortlist.len()
            invariant
                node.wf(),
                alpha == node@.params.alpha,
                shortlist == self.shortlist@,
                queried == self.queried@,
                pred == (|c: Contact| !queried.contains(c.id)),
                key == tier_key(node@),
                batch@ == first_of(
                    sort_by(shortlist.take(i as int).filter(pred), key),
                    alpha as nat,
                ),
        {
            let ghost s = shortlist.take(i as int).filter(pred);
            let ghost c = shortlist[i as int];
            proof {
                reveal(Seq::filter);
                assert(shortlist.take(i + 1).drop_last() =~= shortlist.take(i as int));
                assert(s.push(c).drop_last() =~= s);
                lemma_sort_by(s, key);
                lemma_first_of_insert(sort_by(s, key), c, key, alpha as nat);
            }
            if !self.queried.contains(&self.shortlist[i].id) {
                insert_by_tier(&mut batch, self.shortlist[i].clone(), node);
                if batch.len() > alpha {
                    let _ = batch.pop();
                }
            }
        }
        assert(shortlist.take(shortlist.len() as int) =~= shortlist);
        batch
    }

    /// Says whom to ask next; nobody once the lookup is over.
    pub fn next(&mut self, node: &DhtNode) -> (contact: Option<Contact>)
        requires
            old(self).wf(),
            node.wf(),
        ensures
            final(self).wf(),
            (final(self)@, contact) == old(self)@.polled(node@),
    {
        let self_id = node.node_id();
        let ghost before = self@;
        let found = self.advance(&self_id);
        if found.is_some() || !self.closer {
            return found;
        }
        let ghost rest = self@;
        proof {
            lemma_advanced(before, self_id);
        }
        let batch = self.pick(node);
        proof {
            lemma_next_round_wf(rest, node@);
        }
        self.batch = batch;
        self.closer = false;
        assert(self@ =~= rest.next_round(node@));
        self.advance(&self_id)
    }

    /// Takes note of the contacts that a contact answered with. Returns the updates of full
    /// buckets that are left to do.
    pub fn on_response(
        &mut self,
        node: &mut DhtNode,
        contact: &Contact,
        nodes: &Vec<Contact>,
        elapsed: u64,
        now: u64,
        tier_penalty: u128,
    ) -> (pendings: Vec<PendingBucketUpdate>)
        requires
            old(self).wf(),
            old(node).wf(),
            old(node)@.params.k > 0,
        ensures
            final(self).wf(),
            final(node).wf(),
            final(node)@ == old(node)@.heard_from(
                *contact,
                nodes@,
                elapsed,
                now,
                tier_penalty as nat,
            ),
            final(node)@.params == old(node)@.params,
            final(self)@ == old(self)@.answered(final(node)@, nodes@),
            pendings@ == old(node)@.timed(*contact, elapsed, now, tier_penalty as nat).pendings(
                seq![*contact] + nodes@,
            ),
            forall|i: int|
                0 <= i < pendings@.len() ==> (#[trigger] pendings@[i]).is_for(old(node)@.id),
    {
        let ghost before = self@;
        let ghost was = node@;
        let pendings = node.heard_from(contact, nodes, elapsed, now, tier_penalty);
        proof {
            lemma_heard_from(was, *contact, nodes@, elapsed, now, tier_penalty as nat);
        }
        let ghost begun = LookupView { succeeded: true, ..before };
        self.succeeded = true;
        assert(nodes@.take(0) =~= Seq::empty());
        for i in 0..nodes.len()
            invariant
                node.wf(),
                self@ == begun.extended(node@, nodes@.take(i as int)),
                self@.level == begun.level,
        {
            assert(nodes@.take(i + 1).drop_last() =~= nodes@.take(i as int));
            let ghost here = self@;
            if self.seen.insert(nodes[i].id) {
                if node.level_matches(&nodes[i].id, self.level) {
                    self.shortlist.push(nodes[i].clone());
                }
            }
            proof {
                assert(here.seen.contains(nodes@[i as int].id) ==> self@.seen =~= here.seen);
                assert(self@ =~= begun.extended(node@, nodes@.take(i + 1)));
            }
        }
        assert(nodes@.take(nodes@.len() as int) =~= nodes@);
        let ghost wide = self@;
        proof {
            lemma_extended(begun, node@, nodes@);
            lemma_narrowed_wf(begun, node@, nodes@);
        }
        let target = self.target;
        sort_by_distance(&mut self.shortlist, &target);
        let k = node.current_k();
        if self.shortlist.len() > k {
            self.shortlist.truncate(k);
        }
        assert(self.shortlist@ =~= first_of(by_distance(wide.shortlist, wide.target), k as nat));
        if self.shortlist.len() > 0 {
            let nearest = xor_distance(&self.shortlist[0].id, &self.target);
            if distance_less(&nearest, &self.best) {
                self.best = nearest;
                self.closer = true;
            }
        }
        assert(self@ =~= wide.narrowed(k as nat));
        pendings
    }

    /// Takes note that a contact failed to answer.
    pub fn on_failure(&mut self)
        requires
            old(self).wf(),
        ensures
            final(self).wf(),
            final(self)@ == old(self)@.refused(),
    {
        self.failed = true;
    }

    /// The nearest contacts that were found so far, nearest first.
    pub fn contacts(&self) -> (contacts: &Vec<Contact>)
        ensures
            contacts@ == self@.shortlist,
    {
        &self.shortlist
    }

    /// Adapts the bucket size of the node to how the lookup went.
    pub fn conclude(&self, node: &mut DhtNode)
        requires
            old(node).wf(),
        ensures
            final(node).wf(),
            final(node)@ == self@.finished(old(node)@),
    {
        if self.succeeded {
            node.adjust_k(true);
        } else if self.failed {
            node.adjust_k(false);
        }
    }

    /// Ends the lookup: adapts the bucket size of the node to how it went, and yields the
    /// nearest contacts that were found, nearest first.
    pub fn finish(self, node: &mut DhtNode) -> (contacts: Vec<Contact>)
        requires
            old(node).wf(),
        ensures
            final(node).wf(),
            final(node)@ == self@.finished(old(node)@),
            contacts@ == self@.shortlist,
    {
        self.conclude(node);
        self.shortlist
    }
}

impl DhtNode {
    /// Starts a lookup of the contacts nearest to a target.
    pub fn iterative_find_node(&self, target: &NodeId) -> (lookup: NodeLookup)
        requires
            self.wf(),
        ensures
            lookup.wf(),
            lookup@ == LookupView::started(self@, *target, None),
    {
        self.iterative_find_node_with_level(target, None)
    }

    /// Starts a lookup of the contacts nearest to a target, in a tier if one is given.
    pub fn iterative_find_node_with_level(
        &self,
        target: &NodeId,
        level_filter: Option<TieringLevel>,
    ) -> (lookup: NodeLookup)
        requires
            self.wf(),
        ensures
            lookup.wf(),
            lookup@ == LookupView::started(self@, *target, level_index(level_filter)),
    {
        NodeLookup::start(self, target, level_filter)
    }

    /// Starts a lookup of a value.
    pub fn iterative_find_value(&self, key: &Key) -> (lookup: ValueLookup)
        requires
            self.wf(),
        ensures
            lookup.wf(),
            lookup@.lookup == LookupView::started(self@, *key, None),
            lookup@.value is None,
    {
        ValueLookup { lookup: NodeLookup::start(self, key, None), value: None }
    }

    /// Gets a value: from the local store, or else by a lookup that is yet to be driven.
    pub fn get(&mut self, key: &Key, now: u64) -> (retrieval: Retrieval)
        requires
            old(self).wf(),
        ensures
            final(self).wf(),
            final(self)@ == old(self)@.read_local(*key, now),
            match retrieval {
                Retrieval::Local(v) => old(self)@.local_value(*key) == Some(v@) && blake3(v@)
                    == *key,
                Retrieval::Search(lookup) => {
                    &&& old(self)@.local_value(*key) is None
                    &&& lookup.wf()
                    &&& lookup@.lookup == LookupView::started(final(self)@, *key, None)
                    &&& lookup@.value is None
                },
            },
    {
        proof {
            lemma_local_value_is_authentic(self@, *key);
        }
        match self.get_local(key, now) {
            Some(value) => Retrieval::Local(value),
            None => Retrieval::Search(self.iterative_find_value(key)),
        }
    }
}

/// What a lookup of a value holds.
#[verifier::ext_equal]
pub struct ValueLookupView {
    /// The lookup of the contacts nearest to the key.
    pub lookup: LookupView,
    /// The value, once it was found.
    pub value: Option<Seq<u8>>,
}

impl ValueLookupView {
    /// A value that was found is the one that the key stands for.
    pub open spec fn wf(self) -> bool {
        &&& self.lookup.wf()
        &&& self.value matches Some(v) ==> blake3(v) == self.lookup.target
    }

    /// The lookup once it was asked whom to ask, and the answer: nobody once the value was
    /// found.
    pub open spec fn polled(self, node: NodeView) -> (ValueLookupView, Option<Contact>) {
        if self.value is Some {
            (self, None)
        } else {
            let (lookup, contact) = self.lookup.polled(node);
            (ValueLookupView { lookup, ..self }, contact)
        }
    }

    /// The lookup once a contact answered. A value counts only if the key stands for it.
    pub open spec fn answered(
        self,
        node: NodeView,
        value: Option<Seq<u8>>,
        nodes: Seq<Contact>,
    ) -> ValueLookupView {
        ValueLookupView {
            lookup: self.lookup.answered(node, nodes),
            value: match value {
                Some(v) => if blake3(v) == self.lookup.target {
                    value
                } else {
                    self.value
                },
                None => self.value,
            },
        }
    }
}

/// The bytes of an optional value.
pub open spec fn bytes_of(value: Option<Vec<u8>>) -> Option<Seq<u8>> {
    match value {
        Some(v) => Some(v@),
        None => None,
    }
}

/// A lookup of a value.
pub struct ValueLookup {
    lookup: NodeLookup,
    value: Option<Vec<u8>>,
}

/// Where a value comes from.
pub enum Retrieval {
    /// The local store held it.
    Local(Vec<u8>),
    /// It has to be looked for.
    Search(ValueLookup),
}

impl View for ValueLookup {
    type V = ValueLookupView;

    closed spec fn view(&self) -> ValueLookupView {
        ValueLookupView { lookup: self.lookup@, value: bytes_of(self.value) }
    }
}

impl ValueLookup {
    /// The lookup's invariant.
    pub open spec fn wf(&self) -> bool {
        self@.wf()
    }

    /// Says whom to ask next; nobody once the lookup is over.
    pub fn next(&mut self, node: &DhtNode) -> (contact: Option<Contact>)
        requires
            old(self).wf(),
            node.wf(),
        ensures
            final(self).wf(),
            (final(self)@, contact) == old(self)@.polled(node@),
            old(self)@.value is Some ==> contact is None && final(self)@ == old(self)@,
            old(self)@.value is None ==> (final(self)@.lookup, contact) == old(
                self,
            )@.lookup.polled(node@) && final(self)@.value is None,
    {
        if self.value.is_some() {
            return None;
        }
        proof {
            lemma_polled(self@.lookup, node@);
        }
        self.lookup.next(node)
    }

    /// Takes note of an answer: the value, if the contact had it, and other contacts. Returns
    /// the updates of full buckets that are left to do.
    pub fn on_response(
        &mut self,
        node: &mut DhtNode,
        contact: &Contact,
        value: Option<Vec<u8>>,
        nodes: &Vec<Contact>,
        elapsed: u64,
        now: u64,
        tier_penalty: u128,
    ) -> (pendings: Vec<PendingBucketUpdate>)
        requires
            old(self).wf(),
            old(node).wf(),
            old(node)@.params.k > 0,
        ensures
            final(self).wf(),
            final(node).wf(),
            final(node)@ == old(node)@.heard_from(
                *contact,
                nodes@,
                elapsed,
                now,
                tier_penalty as nat,
            ),
            final(node)@.params == old(node)@.params,
            final(self)@ == old(self)@.answered(final(node)@, bytes_of(value), nodes@),
            pendings@ == old(node)@.timed(*contact, elapsed, now, tier_penalty as nat).pendings(
                seq![*contact] + nodes@,
            ),
            forall|i: int|
                0 <= i < pendings@.len() ==> (#[trigger] pendings@[i]).is_for(old(node)@.id),
    {
        let ghost before = self@;
        let ghost was = node@;
        let key = self.lookup.target;
        let pendings = self.lookup.on_response(node, contact, nodes, elapsed, now, tier_penalty);
        proof {
            lemma_heard_from(was, *contact, nodes@, elapsed, now, tier_penalty as nat);
            lemma_answered(before.lookup, node@, nodes@);
        }
        match value {
            Some(v) => {
                if verify_key_value_pair(&key, v.as_slice()) {
                    self.value = Some(v);
                }
            },
            None => {},
        }
        pendings
    }

    /// Takes note that a contact failed to answer.
    pub fn on_failure(&mut self)
        requires
            old(self).wf(),
        ensures
            final(self).wf(),
            final(self)@ == (ValueLookupView {
                lookup: old(self)@.lookup.refused(),
                ..old(self)@
            }),
    {
        self.lookup.on_failure();
    }

    /// Ends the lookup: adapts the bucket size of the node to how it went, and yields the
    /// value, if it was found, and the nearest contacts.
    pub fn finish(self, node: &mut DhtNode) -> (result: (Option<Vec<u8>>, Vec<Contact>))
        requires
            self.wf(),
            old(node).wf(),
        ensures
            final(node).wf(),
            final(node)@ == self@.lookup.finished(old(node)@),
            bytes_of(result.0) == self@.value,
            result.0 matches Some(v) ==> blake3(v@) == self@.lookup.target,
            result.1@ == self@.lookup.shortlist,
    {
        let contacts = self.lookup.finish(node);
        (self.value, contacts)
    }
}

proof fn lemma_ids_of_push(contacts: Seq<Contact>, contact: Contact)
    ensures
        ids_of(contacts.push(contact)) == ids_of(contacts).insert(contact.id),
{
    let after = contacts.push(contact);
    assert forall|id: NodeId| #[trigger]
        ids_of(after).contains(id) == ids_of(contacts).insert(contact.id).contains(id) by {
        if has_id(contacts, id) {
            let i = choose|i: int| 0 <= i < contacts.len() && (#[trigger] contacts[i]).id == id;
            assert(after[i].id == id);
        }
        if id == contact.id {
            assert(after[contacts.len() as int].id == id);
        }
        if has_id(after, id) && id != contact.id {
            let i = choose|i: int| 0 <= i < after.len() && (#[trigger] after[i]).id == id;
            assert(contacts[i].id == id);
        }
    }
    assert(ids_of(after) =~= ids_of(contacts).insert(contact.id));
}

proof fn lemma_filter_members(s: Seq<Contact>, pred: spec_fn(Contact) -> bool, i: int)
    requires
        0 <= i < s.filter(pred).len(),
    ensures
        pred(s.filter(pred)[i]),
    decreases s.len(),
{
    reveal(Seq::filter);
    let front = s.drop_last().filter(pred);
    if i < front.len() {
        lemma_filter_members(s.drop_last(), pred, i);
    }
}

proof fn lemma_filter_distinct(s: Seq<Contact>, pred: spec_fn(Contact) -> bool)
    requires
        distinct_ids(s),
    ensures
        distinct_ids(s.filter(pred)),
        forall|i: int| 0 <= i < s.filter(pred).len() ==> has_id(s, (#[trigger] s.filter(pred)[i]).id),
    decreases s.len(),
{
    reveal(Seq::filter);
    if s.len() > 0 {
        let front = s.drop_last();
        assert(distinct_ids(front)) by {
            assert forall|i: int, j: int| 0 <= i < j < front.len() implies (#[trigger] front[i]).id
                != (#[trigger] front[j]).id by {
                assert(s[i].id != s[j].id);
            }
        }
        lemma_filter_distinct(front, pred);
        let kept = front.filter(pred);
        let all = s.filter(pred);
        assert forall|i: int| 0 <= i < kept.len() implies (#[trigger] kept[i]).id != s.last().id
            && has_id(s, kept[i].id) by {
            let m = choose|m: int| 0 <= m < front.len() && (#[trigger] front[m]).id == kept[i].id;
            assert(s[m].id == kept[i].id);
            assert(s[m].id != s[s.len() - 1].id);
        }
        assert forall|i: int| 0 <= i < all.len() implies has_id(s, (#[trigger] all[i]).id) by {
            if i < kept.len() {
                assert(all[i] == kept[i]);
            } else {
                assert(s[s.len() - 1] == all[i]);
            }
        }
        assert forall|i: int, j: int| 0 <= i < j < all.len() implies (#[trigger] all[i]).id != (
        #[trigger] all[j]).id by {
            assert(all[i] == kept[i]);
            if j < kept.len() {
                assert(all[j] == kept[j]);
            }
        }
    }
}

proof fn lemma_filter_len(s: Seq<Contact>, pred: spec_fn(Contact) -> bool)
    ensures
        s.filter(pred).len() <= s.len(),
    decreases s.len(),
{
    reveal(Seq::filter);
    if s.len() > 0 {
        lemma_filter_len(s.drop_last(), pred);
    }
}

/// A lookup that starts satisfies its invariant, and has at most as many contacts as the bucket
/// size.
pub proof fn lemma_started_wf(node: NodeView, target: NodeId, level: Option<nat>)
    requires
        node.wf(),
    ensures
        LookupView::started(node, target, level).wf(),
        LookupView::started(node, target, level).shortlist.len() <= node.params.k,
{
    let known = node.closest(target);
    lemma_closest_are_nearest(node.routing, target, node.params.k);
    let kept = node.matching(level, known);
    lemma_filter_distinct(known, |c: Contact| node.matches(level, c.id));
    lemma_filter_len(known, |c: Contact| node.matches(level, c.id));
    let shortlist = by_distance(kept, target);
    lemma_sort_by(kept, distance_key(target));
    lemma_sort_by_distinct(kept, distance_key(target));
    let lookup = LookupView::started(node, target, level);
    assert forall|i: int| 0 <= i < shortlist.len() implies lookup.seen.contains(
        (#[trigger] shortlist[i]).id,
    ) by {
        assert(has_id(shortlist, shortlist[i].id));
    }
}

proof fn lemma_asked_wf(lookup: LookupView)
    requires
        lookup.wf(),
        lookup.batch.len() > 0,
    ensures
        (LookupView {
            batch: lookup.batch.drop_first(),
            queried: lookup.queried.insert(lookup.batch[0].id),
            ..lookup
        }).wf(),
{
    let rest = lookup.batch.drop_first();
    let queried = lookup.queried.insert(lookup.batch[0].id);
    assert forall|i: int| 0 <= i < rest.len() implies !queried.contains((#[trigger] rest[i]).id) by {
        assert(lookup.batch[0].id != lookup.batch[i + 1].id);
        assert(!lookup.queried.contains(lookup.batch[i + 1].id));
    }
    assert forall|i: int, j: int| 0 <= i < j < rest.len() implies (#[trigger] rest[i]).id != (
    #[trigger] rest[j]).id by {
        assert(lookup.batch[i + 1].id != lookup.batch[j + 1].id);
    }
}

proof fn lemma_candidate(node: NodeView, shortlist: Seq<Contact>, queried: Set<NodeId>, i: int)
    requires
        0 <= i < candidates(node, shortlist, queried).len(),
    ensures
        unasked(shortlist, queried).contains(candidates(node, shortlist, queried)[i]),
        shortlist.contains(candidates(node, shortlist, queried)[i]),
        !queried.contains(candidates(node, shortlist, queried)[i].id),
{
    let pred = |c: Contact| !queried.contains(c.id);
    let left = unasked(shortlist, queried);
    let sorted = sort_by(left, tier_key(node));
    lemma_sort_by(left, tier_key(node));
    assert(sorted.contains(sorted[i]));
    assert(left.contains(sorted[i]));
    let m = choose|m: int| 0 <= m < left.len() && left[m] == sorted[i];
    lemma_filter_members(shortlist, pred, m);
    let p = lemma_filter_source(shortlist, pred, m);
    assert(shortlist[p] == sorted[i]);
}

proof fn lemma_next_round_wf(lookup: LookupView, node: NodeView)
    requires
        lookup.wf(),
    ensures
        lookup.next_round(node).wf(),
{
    let pred = |c: Contact| !lookup.queried.contains(c.id);
    let left = unasked(lookup.shortlist, lookup.queried);
    let sorted = sort_by(left, tier_key(node));
    let batch = candidates(node, lookup.shortlist, lookup.queried);
    lemma_filter_distinct(lookup.shortlist, pred);
    lemma_sort_by_distinct(left, tier_key(node));
    assert forall|i: int| 0 <= i < batch.len() implies !lookup.queried.contains(
        (#[trigger] batch[i]).id,
    ) by {
        lemma_candidate(node, lookup.shortlist, lookup.queried, i);
    }
    assert forall|i: int, j: int| 0 <= i < j < batch.len() implies (#[trigger] batch[i]).id != (
    #[trigger] batch[j]).id by {
        assert(sorted[i].id != sorted[j].id);
    }
}

/// An answer only adds to the shortlist: nobody leaves it, nobody is in it twice, and whoever
/// is new was not named before.
proof fn lemma_extended(lookup: LookupView, node: NodeView, nodes: Seq<Contact>)
    requires
        lookup.wf(),
    ensures
        ({
            let wide = lookup.extended(node, nodes);
            &&& wide == (LookupView { shortlist: wide.shortlist, seen: wide.seen, ..lookup })
            &&& distinct_ids(wide.shortlist)
            &&& forall|i: int|
                0 <= i < wide.shortlist.len() ==> wide.seen.contains(
                    (#[trigger] wide.shortlist[i]).id,
                )
            &&& lookup.shortlist.len() <= wide.shortlist.len()
            &&& wide.shortlist.take(lookup.shortlist.len() as int) == lookup.shortlist
            &&& lookup.seen.subset_of(wide.seen)
        }),
    decreases nodes.len(),
{
    let wide = lookup.extended(node, nodes);
    let n = lookup.shortlist.len() as int;
    if nodes.len() == 0 {
        assert(wide.shortlist.take(n) =~= lookup.shortlist);
    } else {
        lemma_extended(lookup, node, nodes.drop_last());
        let front = lookup.extended(node, nodes.drop_last());
        let last = nodes.last();
        if !front.seen.contains(last.id) {
            assert forall|i: int| 0 <= i < front.shortlist.len() implies (
            #[trigger] front.shortlist[i]).id != last.id by {
                assert(front.seen.contains(front.shortlist[i].id));
            }
            assert forall|i: int| 0 <= i < wide.shortlist.len() implies wide.seen.contains(
                (#[trigger] wide.shortlist[i]).id,
            ) by {
                if i < front.shortlist.len() {
                    assert(wide.shortlist[i] == front.shortlist[i]);
                }
            }
            assert forall|i: int, j: int| 0 <= i < j < wide.shortlist.len() implies (
            #[trigger] wide.shortlist[i]).id != (#[trigger] wide.shortlist[j]).id by {
                assert(wide.shortlist[i] == front.shortlist[i]);
                if j < front.shortlist.len() {
                    assert(wide.shortlist[j] == front.shortlist[j]);
                }
            }
            assert(wide.shortlist.take(n) =~= front.shortlist.take(n));
        }
    }
}

proof fn lemma_farthest(id: NodeId, target: NodeId)
    ensures
        dist(id, target) <= farthest(),
{
    let bytes = xor_bytes(id, target);
    lemma_at_most_ones(bytes, 32);
    assert(bytes.take(32) =~= bytes);
}

proof fn lemma_at_most_ones(bytes: Seq<u8>, n: nat)
    requires
        n <= bytes.len(),
    ensures
        be_value(bytes.take(n as int)) <= be_value(Seq::new(n, |i: int| 0xffu8)),
    decreases n,
{
    if n > 0 {
        let m = (n - 1) as nat;
        lemma_at_most_ones(bytes, m);
        assert(bytes.take(n as int).drop_last() =~= bytes.take(m as int));
        assert(Seq::new(n, |i: int| 0xffu8).drop_last() =~= Seq::new(m, |i: int| 0xffu8));
    }
}

proof fn lemma_narrowed_wf(lookup: LookupView, node: NodeView, nodes: Seq<Contact>)
    requires
        lookup.wf(),
        node.params.k > 0,
    ensures
        lookup.extended(node, nodes).narrowed(node.params.k).wf(),
{
    lemma_extended(lookup, node, nodes);
    let wide = lookup.extended(node, nodes);
    let after = wide.narrowed(node.params.k);
    let key = distance_key(wide.target);
    let all = by_distance(wide.shortlist, wide.target);
    lemma_sort_by(wide.shortlist, key);
    lemma_sort_by_distinct(wide.shortlist, distance_key(wide.target));
    assert forall|i: int| 0 <= i < after.shortlist.len() implies after.seen.contains(
        (#[trigger] after.shortlist[i]).id,
    ) by {
        assert(after.shortlist[i] == all[i]);
        assert(all.contains(all[i]));
        let m = choose|m: int| 0 <= m < wide.shortlist.len() && wide.shortlist[m] == all[i];
        assert(wide.seen.contains(wide.shortlist[m].id));
    }
    assert forall|i: int, j: int| 0 <= i < j < after.shortlist.len() implies (
    #[trigger] after.shortlist[i]).id != (#[trigger] after.shortlist[j]).id by {
        assert(all[i].id != all[j].id);
    }
    assert(nearest_first(after.shortlist, after.target)) by {
        assert forall|i: int, j: int| 0 <= i < j < after.shortlist.len() implies key(
            #[trigger] after.shortlist[i],
        ) <= key(#[trigger] after.shortlist[j]) by {
            assert(key(all[i]) <= key(all[j]));
        }
    }
    if after.shortlist.len() > 0 {
        assert(after.shortlist[0] == all[0]);
        if lookup.shortlist.len() > 0 {
            let first = lookup.shortlist[0];
            assert(wide.shortlist[0] == wide.shortlist.take(lookup.shortlist.len() as int)[0]);
            assert(wide.shortlist.contains(first));
            assert(all.contains(first));
            let m = choose|m: int| 0 <= m < all.len() && all[m] == first;
            assert(key(all[0]) <= key(all[m]));
        } else {
            lemma_farthest(all[0].id, wide.target);
        }
    }
}

proof fn lemma_advanced(lookup: LookupView, self_id: NodeId)
    requires
        lookup.wf(),
    ensures
        ({
            let (after, contact) = lookup.advanced(self_id);
            &&& after.wf()
            &&& after == (LookupView { batch: after.batch, queried: after.queried, ..lookup })
            &&& lookup.queried.subset_of(after.queried)
            &&& after.batch.len() <= lookup.batch.len()
            &&& contact is None ==> after.batch.len() == 0
            &&& contact matches Some(c) ==> {
                &&& c.id != self_id
                &&& !lookup.queried.contains(c.id)
                &&& after.queried.contains(c.id)
                &&& after.batch.len() < lookup.batch.len()
            }
        }),
    decreases lookup.batch.len(),
{
    if lookup.batch.len() > 0 {
        let contact = lookup.batch[0];
        let after = LookupView {
            batch: lookup.batch.drop_first(),
            queried: lookup.queried.insert(contact.id),
            ..lookup
        };
        lemma_asked_wf(lookup);
        assert(!lookup.queried.contains(lookup.batch[0].id));
        if contact.id == self_id {
            lemma_advanced(after, self_id);
        }
    }
}

/// Whoever a lookup says to ask is neither the node itself nor anybody that was asked before,
/// and counts as asked from then on. What was found stays as it is.
pub proof fn lemma_polled(lookup: LookupView, node: NodeView)
    requires
        lookup.wf(),
    ensures
        ({
            let (after, contact) = lookup.polled(node);
            &&& after.wf()
            &&& after == (LookupView {
                batch: after.batch,
                queried: after.queried,
                closer: after.closer,
                ..lookup
            })
            &&& lookup.queried.subset_of(after.queried)
            &&& contact matches Some(c) ==> c.id != node.id && !lookup.queried.contains(c.id)
                && after.queried.contains(c.id)
        }),
{
    lemma_advanced(lookup, node.id);
    let (rest, contact) = lookup.advanced(node.id);
    if contact is None && rest.closer {
        lemma_next_round_wf(rest, node);
        lemma_advanced(rest.next_round(node), node.id);
    }
}

/// Once a lookup says to ask nobody, it says so whenever it is asked again.
pub proof fn lemma_over_is_over(lookup: LookupView, node: NodeView)
    requires
        lookup.wf(),
        lookup.polled(node).1 is None,
    ensures
        lookup.polled(node).0.polled(node) == (
            lookup.polled(node).0,
            None::<Contact>,
        ),
{
    lemma_advanced(lookup, node.id);
    let (rest, contact) = lookup.advanced(node.id);
    if rest.closer {
        lemma_next_round_wf(rest, node);
        lemma_advanced(rest.next_round(node), node.id);
    }
}

impl LookupView {
    /// How far a lookup is from its end: the distance to the target that is left, and whether
    /// another round is called for.
    pub open spec fn remaining(self) -> nat {
        2 * self.best + if self.closer {
            1nat
        } else {
            0nat
        }
    }
}

/// A lookup ends. Whenever it says to ask somebody, there is less left of this round or of the
/// way to the target; an answer never makes it more. A new round begins only after an answer
/// that brought the lookup strictly nearer.
pub proof fn lemma_lookup_ends(
    lookup: LookupView,
    node: NodeView,
    nodes: Seq<Contact>,
)
    requires
        lookup.wf(),
        node.params.k > 0,
    ensures
        ({
            let (after, contact) = lookup.polled(node);
            contact is Some ==> after.remaining() < lookup.remaining() || (after.remaining()
                == lookup.remaining() && after.batch.len() < lookup.batch.len())
        }),
        ({
            let after = lookup.answered(node, nodes);
            &&& after.remaining() <= lookup.remaining()
            &&& after.batch == lookup.batch
            &&& after.best <= lookup.best
            &&& after.closer == (lookup.closer || after.best < lookup.best)
        }),
        lookup.refused().remaining() == lookup.remaining(),
        lookup.refused().batch == lookup.batch,
{
    lemma_advanced(lookup, node.id);
    let (rest, contact) = lookup.advanced(node.id);
    if contact is None && rest.closer {
        lemma_next_round_wf(rest, node);
        lemma_advanced(rest.next_round(node), node.id);
    }
    lemma_extended(LookupView { succeeded: true, ..lookup }, node, nodes);
}

/// An answer keeps the lookup's invariant, what is looked for and who was asked; nobody who
/// was named is forgotten, and the shortlist is cut to the bucket size.
pub proof fn lemma_answered(lookup: LookupView, node: NodeView, nodes: Seq<Contact>)
    requires
        lookup.wf(),
        node.params.k > 0,
    ensures
        ({
            let after = lookup.answered(node, nodes);
            &&& after.wf()
            &&& after.target == lookup.target
            &&& after.level == lookup.level
            &&& after.queried == lookup.queried
            &&& after.batch == lookup.batch
            &&& lookup.seen.subset_of(after.seen)
            &&& after.shortlist.len() <= node.params.k
        }),
{
    let begun = LookupView { succeeded: true, ..lookup };
    lemma_extended(begun, node, nodes);
    lemma_narrowed_wf(begun, node, nodes);
}

/// The end of a lookup keeps the node's invariant, its peers' tiers and its values.
pub proof fn lemma_finished_wf(lookup: LookupView, node: NodeView)
    requires
        node.wf(),
    ensures
        lookup.finished(node).wf(),
        lookup.finished(node).store == node.store,
        lookup.finished(node).tiering == node.tiering,
{
    lemma_adjusted(node, true);
    lemma_adjusted(node, false);
}

/// One step of a lookup.
pub enum LookupStep {
    /// The lookup was asked whom to ask; `node` is the node that asks.
    Poll { node: NodeView },
    /// A contact answered with other contacts; `node` is the node after it took note of it.
    Answer { node: NodeView, nodes: Seq<Contact> },
    /// A contact failed to answer.
    Refusal,
}

impl LookupView {
    /// The lookup after a step.
    pub open spec fn stepped(self, step: LookupStep) -> LookupView {
        match step {
            LookupStep::Poll { node } => self.polled(node).0,
            LookupStep::Answer { node, nodes } => self.answered(node, nodes),
            LookupStep::Refusal => self.refused(),
        }
    }

    /// The lookup after some steps.
    pub open spec fn ran(self, steps: Seq<LookupStep>) -> LookupView
        decreases steps.len(),
    {
        if steps.len() == 0 {
            self
        } else {
            self.ran(steps.drop_last()).stepped(steps.last())
        }
    }

    /// Whoever the lookup said to ask in the course of some steps.
    pub open spec fn asked(self, steps: Seq<LookupStep>) -> Seq<Contact>
        decreases steps.len(),
    {
        if steps.len() == 0 {
            Seq::empty()
        } else {
            let before = self.asked(steps.drop_last());
            match steps.last() {
                LookupStep::Poll { node } => match self.ran(steps.drop_last()).polled(node).1 {
                    Some(c) => before.push(c),
                    None => before,
                },
                _ => before,
            }
        }
    }

    /// The contacts that the lookup started from and those that answers added in the course of
    /// some steps.
    pub open spec fn found(self, steps: Seq<LookupStep>) -> Seq<Contact>
        decreases steps.len(),
    {
        if steps.len() == 0 {
            self.shortlist
        } else {
            let before = self.found(steps.drop_last());
            match steps.last() {
                LookupStep::Answer { node, nodes } => {
                    let here = self.ran(steps.drop_last());
                    before + here.extended(node, nodes).shortlist.skip(here.shortlist.len() as int)
                },
                _ => before,
            }
        }
    }
}

/// Whether the bucket size is `k` at every answer.
pub open spec fn keeps_k(steps: Seq<LookupStep>, k: nat) -> bool {
    forall|i: int|
        0 <= i < steps.len() ==> (#[trigger] steps[i] matches LookupStep::Answer { node, nodes }
            ==> node.params.k == k)
}

proof fn lemma_keeps_k_front(steps: Seq<LookupStep>, k: nat)
    requires
        steps.len() > 0,
        keeps_k(steps, k),
    ensures
        keeps_k(steps.drop_last(), k),
{
    let front = steps.drop_last();
    assert forall|i: int| 0 <= i < front.len() implies (
    #[trigger] front[i] matches LookupStep::Answer { node, nodes } ==> node.params.k == k) by {
        assert(front[i] == steps[i]);
    }
}

/// Whether the node that asks is the one with this identifier whenever a lookup is asked whom to
/// ask.
pub open spec fn driven_by(steps: Seq<LookupStep>, self_id: NodeId) -> bool {
    forall|i: int|
        0 <= i < steps.len() ==> (#[trigger] steps[i] matches LookupStep::Poll { node } ==> node.id
            == self_id)
}

proof fn lemma_ran_wf(lookup: LookupView, steps: Seq<LookupStep>, k: nat)
    requires
        lookup.wf(),
        k > 0,
        keeps_k(steps, k),
    ensures
        lookup.ran(steps).wf(),
    decreases steps.len(),
{
    if steps.len() > 0 {
        let front = steps.drop_last();
        lemma_keeps_k_front(steps, k);
        lemma_ran_wf(lookup, front, k);
        assert(steps[steps.len() - 1] == steps.last());
        match steps.last() {
            LookupStep::Poll { node } => {
                lemma_polled(lookup.ran(front), node);
            },
            LookupStep::Answer { node, nodes } => {
                lemma_answered(lookup.ran(front), node, nodes);
            },
            LookupStep::Refusal => {},
        }
    }
}

/// In the course of a lookup nobody is asked twice, and the node never asks itself.
pub proof fn lemma_asks_nobody_twice(
    lookup: LookupView,
    self_id: NodeId,
    steps: Seq<LookupStep>,
    k: nat,
)
    requires
        lookup.wf(),
        k > 0,
        keeps_k(steps, k),
        driven_by(steps, self_id),
    ensures
        lookup.ran(steps).wf(),
        distinct_ids(lookup.asked(steps)),
        forall|i: int|
            0 <= i < lookup.asked(steps).len() ==> (#[trigger] lookup.asked(steps)[i]).id
                != self_id && !lookup.queried.contains(lookup.asked(steps)[i].id) && lookup.ran(
                steps,
            ).queried.contains(lookup.asked(steps)[i].id),
        lookup.queried.subset_of(lookup.ran(steps).queried),
    decreases steps.len(),
{
    if steps.len() > 0 {
        let front = steps.drop_last();
        lemma_keeps_k_front(steps, k);
        assert(driven_by(front, self_id)) by {
            assert forall|i: int| 0 <= i < front.len() implies (
            #[trigger] front[i] matches LookupStep::Poll { node } ==> node.id == self_id) by {
                assert(front[i] == steps[i]);
            }
        }
        lemma_asks_nobody_twice(lookup, self_id, front, k);
        let here = lookup.ran(front);
        assert(steps[steps.len() - 1] == steps.last());
        match steps.last() {
            LookupStep::Poll { node } => {
                lemma_polled(here, node);
            },
            LookupStep::Answer { node, nodes } => {
                lemma_answered(here, node, nodes);
            },
            LookupStep::Refusal => {},
        }
    }
}

/// A lookup yields the `k` contacts nearest to its target out of all that it started from or
/// was told of, in the right tier, while the bucket size stays `k`.
pub proof fn lemma_yields_the_nearest(
    lookup: LookupView,
    steps: Seq<LookupStep>,
    k: nat,
)
    requires
        lookup.wf(),
        k > 0,
        lookup.shortlist.len() <= k,
        keeps_k(steps, k),
    ensures
        lookup.ran(steps).target == lookup.target,
        lookup.ran(steps).shortlist == first_of(
            by_distance(lookup.found(steps), lookup.target),
            k,
        ),
    decreases steps.len(),
{
    let target = lookup.target;
    let key = distance_key(target);
    if steps.len() == 0 {
        lemma_sort_by_sorted(lookup.shortlist, key);
    } else {
        let front = steps.drop_last();
        lemma_keeps_k_front(steps, k);
        lemma_yields_the_nearest(lookup, front, k);
        lemma_ran_wf(lookup, front, k);
        let here = lookup.ran(front);
        assert(steps[steps.len() - 1] == steps.last());
        match steps.last() {
            LookupStep::Poll { node } => {
                lemma_polled(here, node);
            },
            LookupStep::Answer { node, nodes } => {
                let begun = LookupView { succeeded: true, ..here };
                lemma_extended(begun, node, nodes);
                lemma_extended(here, node, nodes);
                lemma_extended_shortlist(here, begun, node, nodes);
                let wide = here.extended(node, nodes).shortlist;
                let more = wide.skip(here.shortlist.len() as int);
                assert(wide =~= here.shortlist + more);
                lemma_first_of_sorted_sum(lookup.found(front), more, key, k);
            },
            LookupStep::Refusal => {},
        }
    }
}

proof fn lemma_extended_shortlist(
    a: LookupView,
    b: LookupView,
    node: NodeView,
    nodes: Seq<Contact>,
)
    requires
        a.shortlist == b.shortlist,
        a.seen == b.seen,
        a.level == b.level,
    ensures
        a.extended(node, nodes).shortlist == b.extended(node, nodes).shortlist,
        a.extended(node, nodes).seen == b.extended(node, nodes).seen,
    decreases nodes.len(),
{
    if nodes.len() > 0 {
        lemma_extended_shortlist(a, b, node, nodes.drop_last());
    }
}

/// Whether a peer was in the given tier, if one is given, when a lookup started from `node` or at
/// one of the answers since.
pub open spec fn was_in_tier(
    node: NodeView,
    steps: Seq<LookupStep>,
    level: Option<nat>,
    id: NodeId,
) -> bool {
    ||| node.matches(level, id)
    ||| exists|i: int|
        0 <= i < steps.len() && answer_matches(#[trigger] steps[i], level, id)
}

/// Whether a step is an answer at which a peer was in the given tier, if one is given.
pub open spec fn answer_matches(step: LookupStep, level: Option<nat>, id: NodeId) -> bool {
    step matches LookupStep::Answer { node, nodes } && node.matches(level, id)
}

/// Whether all contacts were in the given tier when they were admitted.
pub open spec fn all_in_tier(
    node: NodeView,
    steps: Seq<LookupStep>,
    level: Option<nat>,
    contacts: Seq<Contact>,
) -> bool {
    forall|i: int|
        0 <= i < contacts.len() ==> was_in_tier(node, steps, level, (#[trigger] contacts[i]).id)
}

proof fn lemma_in_tier_later(
    node: NodeView,
    steps: Seq<LookupStep>,
    level: Option<nat>,
    contacts: Seq<Contact>,
)
    requires
        steps.len() > 0,
        all_in_tier(node, steps.drop_last(), level, contacts),
    ensures
        all_in_tier(node, steps, level, contacts),
{
    let front = steps.drop_last();
    assert forall|i: int| 0 <= i < contacts.len() implies was_in_tier(
        node,
        steps,
        level,
        (#[trigger] contacts[i]).id,
    ) by {
        let id = contacts[i].id;
        assert(was_in_tier(node, front, level, id));
        if !node.matches(level, id) {
            let m = choose|m: int|
                0 <= m < front.len() && answer_matches(#[trigger] front[m], level, id);
            assert(answer_matches(steps[m], level, id));
        }
    }
}

/// Whether all contacts satisfy a condition.
pub open spec fn all_satisfy(contacts: Seq<Contact>, ok: spec_fn(Contact) -> bool) -> bool {
    forall|i: int| 0 <= i < contacts.len() ==> ok(#[trigger] contacts[i])
}

proof fn lemma_advanced_among(lookup: LookupView, self_id: NodeId, ok: spec_fn(Contact) -> bool)
    requires
        all_satisfy(lookup.batch, ok),
    ensures
        ({
            let (after, contact) = lookup.advanced(self_id);
            &&& after == (LookupView { batch: after.batch, queried: after.queried, ..lookup })
            &&& all_satisfy(after.batch, ok)
            &&& contact matches Some(c) ==> ok(c)
        }),
    decreases lookup.batch.len(),
{
    if lookup.batch.len() > 0 {
        let contact = lookup.batch[0];
        let after = LookupView {
            batch: lookup.batch.drop_first(),
            queried: lookup.queried.insert(contact.id),
            ..lookup
        };
        assert(ok(lookup.batch[0]));
        assert forall|i: int| 0 <= i < after.batch.len() implies ok(#[trigger] after.batch[i]) by {
            assert(after.batch[i] == lookup.batch[i + 1]);
        }
        if contact.id == self_id {
            lemma_advanced_among(after, self_id, ok);
        }
    }
}

/// Whatever holds of all contacts that a lookup found holds of whoever it says to ask.
pub proof fn lemma_polled_among(lookup: LookupView, node: NodeView, ok: spec_fn(Contact) -> bool)
    requires
        all_satisfy(lookup.batch, ok),
        all_satisfy(lookup.shortlist, ok),
    ensures
        ({
            let (after, contact) = lookup.polled(node);
            &&& after.level == lookup.level
            &&& after.target == lookup.target
            &&& after.shortlist == lookup.shortlist
            &&& all_satisfy(after.batch, ok)
            &&& contact matches Some(c) ==> ok(c)
        }),
{
    lemma_advanced_among(lookup, node.id, ok);
    let (rest, contact) = lookup.advanced(node.id);
    if contact is None && rest.closer {
        let round = rest.next_round(node);
        assert forall|i: int| 0 <= i < round.batch.len() implies ok(#[trigger] round.batch[i]) by {
            lemma_candidate(node, rest.shortlist, rest.queried, i);
            let m = choose|m: int|
                0 <= m < rest.shortlist.len() && rest.shortlist[m] == round.batch[i];
            assert(ok(lookup.shortlist[m]));
        }
        lemma_advanced_among(round, node.id, ok);
    }
}

/// Whatever holds of all contacts of a tier holds of those that a lookup in the tier starts from.
pub proof fn lemma_started_among(
    node: NodeView,
    target: NodeId,
    level: Option<nat>,
    ok: spec_fn(Contact) -> bool,
)
    requires
        forall|c: Contact| node.matches(level, c.id) ==> #[trigger] ok(c),
    ensures
        all_satisfy(LookupView::started(node, target, level).shortlist, ok),
        LookupView::started(node, target, level).batch.len() == 0,
{
    let lookup = LookupView::started(node, target, level);
    let pred = |c: Contact| node.matches(level, c.id);
    let kept = node.matching(level, node.closest(target));
    lemma_sort_by(kept, distance_key(target));
    assert forall|i: int| 0 <= i < lookup.shortlist.len() implies ok(
        #[trigger] lookup.shortlist[i],
    ) by {
        assert(lookup.shortlist.contains(lookup.shortlist[i]));
        assert(kept.contains(lookup.shortlist[i]));
        let m = choose|m: int| 0 <= m < kept.len() && kept[m] == lookup.shortlist[i];
        lemma_filter_members(node.closest(target), pred, m);
    }
}

/// Whatever holds of all contacts that a lookup found, and of all contacts of its tier, holds of
/// those that it keeps after an answer.
pub proof fn lemma_answered_among(
    lookup: LookupView,
    node: NodeView,
    nodes: Seq<Contact>,
    ok: spec_fn(Contact) -> bool,
)
    requires
        all_satisfy(lookup.shortlist, ok),
        forall|c: Contact| node.matches(lookup.level, c.id) ==> #[trigger] ok(c),
    ensures
        ({
            let after = lookup.answered(node, nodes);
            &&& all_satisfy(after.shortlist, ok)
            &&& after.batch == lookup.batch
            &&& after.level == lookup.level
            &&& after.target == lookup.target
        }),
{
    let begun = LookupView { succeeded: true, ..lookup };
    let wide = begun.extended(node, nodes);
    let after = lookup.answered(node, nodes);
    lemma_extended_frame(begun, node, nodes);
    lemma_sort_by(wide.shortlist, distance_key(wide.target));
    assert forall|i: int| 0 <= i < after.shortlist.len() implies ok(
        #[trigger] after.shortlist[i],
    ) by {
        let all = by_distance(wide.shortlist, wide.target);
        assert(after.shortlist[i] == all[i]);
        assert(all.contains(all[i]));
        assert(wide.shortlist.contains(all[i]));
        let m = choose|m: int| 0 <= m < wide.shortlist.len() && wide.shortlist[m] == all[i];
        lemma_extended_in_tier(begun, node, nodes, m);
        if m < lookup.shortlist.len() {
            assert(ok(lookup.shortlist[m]));
        }
    }
}

proof fn lemma_filter_source(s: Seq<Contact>, pred: spec_fn(Contact) -> bool, i: int) -> (m: int)
    requires
        0 <= i < s.filter(pred).len(),
    ensures
        0 <= m < s.len(),
        s[m] == s.filter(pred)[i],
    decreases s.len(),
{
    reveal(Seq::filter);
    let front = s.drop_last().filter(pred);
    if i < front.len() {
        lemma_filter_source(s.drop_last(), pred, i)
    } else {
        s.len() - 1
    }
}

proof fn lemma_extended_in_tier(lookup: LookupView, node: NodeView, nodes: Seq<Contact>, m: int)
    requires
        0 <= m < lookup.extended(node, nodes).shortlist.len(),
    ensures
        ({
            let wide = lookup.extended(node, nodes);
            &&& wide == (LookupView { shortlist: wide.shortlist, seen: wide.seen, ..lookup })
            &&& lookup.shortlist.len() <= wide.shortlist.len()
            &&& if m < lookup.shortlist.len() {
                wide.shortlist[m] == lookup.shortlist[m]
            } else {
                node.matches(lookup.level, wide.shortlist[m].id)
            }
        }),
    decreases nodes.len(),
{
    if nodes.len() > 0 {
        let front = lookup.extended(node, nodes.drop_last());
        if m < front.shortlist.len() {
            lemma_extended_in_tier(lookup, node, nodes.drop_last(), m);
        } else {
            lemma_extended_frame(lookup, node, nodes.drop_last());
        }
    }
}

proof fn lemma_extended_frame(lookup: LookupView, node: NodeView, nodes: Seq<Contact>)
    ensures
        ({
            let wide = lookup.extended(node, nodes);
            &&& wide == (LookupView { shortlist: wide.shortlist, seen: wide.seen, ..lookup })
            &&& lookup.shortlist.len() <= wide.shortlist.len()
        }),
    decreases nodes.len(),
{
    if nodes.len() > 0 {
        lemma_extended_frame(lookup, node, nodes.drop_last());
    }
}

proof fn lemma_advanced_in_tier(
    lookup: LookupView,
    self_id: NodeId,
    node: NodeView,
    steps: Seq<LookupStep>,
)
    requires
        all_in_tier(node, steps, lookup.level, lookup.batch),
    ensures
        ({
            let (after, contact) = lookup.advanced(self_id);
            &&& after == (LookupView { batch: after.batch, queried: after.queried, ..lookup })
            &&& all_in_tier(node, steps, lookup.level, after.batch)
            &&& contact matches Some(c) ==> was_in_tier(node, steps, lookup.level, c.id)
        }),
    decreases lookup.batch.len(),
{
    if lookup.batch.len() > 0 {
        let contact = lookup.batch[0];
        let after = LookupView {
            batch: lookup.batch.drop_first(),
            queried: lookup.queried.insert(contact.id),
            ..lookup
        };
        assert(was_in_tier(node, steps, lookup.level, lookup.batch[0].id));
        assert forall|i: int| 0 <= i < after.batch.len() implies was_in_tier(
            node,
            steps,
            lookup.level,
            (#[trigger] after.batch[i]).id,
        ) by {
            assert(after.batch[i] == lookup.batch[i + 1]);
        }
        if contact.id == self_id {
            lemma_advanced_in_tier(after, self_id, node, steps);
        }
    }
}

proof fn lemma_polled_in_tier(
    lookup: LookupView,
    polling: NodeView,
    node: NodeView,
    steps: Seq<LookupStep>,
)
    requires
        all_in_tier(node, steps, lookup.level, lookup.batch),
        all_in_tier(node, steps, lookup.level, lookup.shortlist),
    ensures
        ({
            let (after, contact) = lookup.polled(polling);
            &&& after.level == lookup.level
            &&& after.shortlist == lookup.shortlist
            &&& all_in_tier(node, steps, lookup.level, after.batch)
            &&& contact matches Some(c) ==> was_in_tier(node, steps, lookup.level, c.id)
        }),
{
    lemma_advanced_in_tier(lookup, polling.id, node, steps);
    let (rest, contact) = lookup.advanced(polling.id);
    if contact is None && rest.closer {
        let round = rest.next_round(polling);
        assert forall|i: int| 0 <= i < round.batch.len() implies was_in_tier(
            node,
            steps,
            lookup.level,
            (#[trigger] round.batch[i]).id,
        ) by {
            lemma_candidate(polling, rest.shortlist, rest.queried, i);
            let m = choose|m: int|
                0 <= m < rest.shortlist.len() && rest.shortlist[m] == round.batch[i];
            assert(was_in_tier(node, steps, lookup.level, lookup.shortlist[m].id));
        }
        lemma_advanced_in_tier(round, polling.id, node, steps);
    }
}

/// A lookup in a tier keeps to it: whoever it says to ask, and whoever it yields, was in the tier
/// when the lookup came to know them, at its start or at an answer. One without a tier admits
/// everybody.
pub proof fn lemma_stays_in_tier(
    node: NodeView,
    target: NodeId,
    level: Option<nat>,
    steps: Seq<LookupStep>,
)
    ensures
        ({
            let lookup = LookupView::started(node, target, level);
            let after = lookup.ran(steps);
            &&& after.level == level
            &&& all_in_tier(node, steps, level, after.shortlist)
            &&& all_in_tier(node, steps, level, after.batch)
            &&& all_in_tier(node, steps, level, lookup.asked(steps))
        }),
    decreases steps.len(),
{
    let lookup = LookupView::started(node, target, level);
    if steps.len() == 0 {
        let pred = |c: Contact| node.matches(level, c.id);
        let kept = node.matching(level, node.closest(target));
        lemma_sort_by(kept, distance_key(target));
        assert forall|i: int| 0 <= i < lookup.shortlist.len() implies was_in_tier(
            node,
            steps,
            level,
            (#[trigger] lookup.shortlist[i]).id,
        ) by {
            assert(lookup.shortlist.contains(lookup.shortlist[i]));
            assert(kept.contains(lookup.shortlist[i]));
            let m = choose|m: int| 0 <= m < kept.len() && kept[m] == lookup.shortlist[i];
            lemma_filter_members(node.closest(target), pred, m);
        }
    } else {
        let front = steps.drop_last();
        lemma_stays_in_tier(node, target, level, front);
        let here = lookup.ran(front);
        lemma_in_tier_later(node, steps, level, here.shortlist);
        lemma_in_tier_later(node, steps, level, here.batch);
        lemma_in_tier_later(node, steps, level, lookup.asked(front));
        match steps.last() {
            LookupStep::Poll { node: polling } => {
                lemma_polled_in_tier(here, polling, node, steps);
            },
            LookupStep::Answer { node: heard, nodes } => {
                let begun = LookupView { succeeded: true, ..here };
                let wide = begun.extended(heard, nodes);
                let after = here.answered(heard, nodes);
                lemma_extended_frame(begun, heard, nodes);
                lemma_sort_by(wide.shortlist, distance_key(wide.target));
                assert forall|i: int| 0 <= i < after.shortlist.len() implies was_in_tier(
                    node,
                    steps,
                    level,
                    (#[trigger] after.shortlist[i]).id,
                ) by {
                    let all = by_distance(wide.shortlist, wide.target);
                    assert(after.shortlist[i] == all[i]);
                    assert(all.contains(all[i]));
                    assert(wide.shortlist.contains(all[i]));
                    let m = choose|m: int|
                        0 <= m < wide.shortlist.len() && wide.shortlist[m] == all[i];
                    lemma_extended_in_tier(begun, heard, nodes, m);
                    if m < here.shortlist.len() {
                        assert(was_in_tier(node, steps, level, here.shortlist[m].id));
                    } else {
                        assert(answer_matches(steps[steps.len() - 1], level, all[i].id));
                    }
                }
            },
            LookupStep::Refusal => {},
        }
    }
}

proof fn lemma_filter_sorted(
    s: Seq<Contact>,
    pred: spec_fn(Contact) -> bool,
    key: spec_fn(Contact) -> int,
)
    requires
        sorted_by(s, key),
    ensures
        sorted_by(s.filter(pred), key),
    decreases s.len(),
{
    reveal(Seq::filter);
    if s.len() > 0 {
        let front = s.drop_last();
        assert forall|i: int, j: int| 0 <= i < j < front.len() implies key(#[trigger] front[i])
            <= key(#[trigger] front[j]) by {
            assert(key(s[i]) <= key(s[j]));
        }
        lemma_filter_sorted(front, pred, key);
        let kept = front.filter(pred);
        let all = s.filter(pred);
        assert forall|i: int, j: int| 0 <= i < j < all.len() implies key(#[trigger] all[i]) <= key(
            #[trigger] all[j],
        ) by {
            assert(all[i] == kept[i]);
            if j < kept.len() {
                assert(all[j] == kept[j]);
            } else {
                let m = lemma_filter_source(front, pred, i);
                assert(key(s[m]) <= key(s[s.len() - 1]));
            }
        }
    }
}

proof fn lemma_filter_keeps(s: Seq<Contact>, pred: spec_fn(Contact) -> bool, m: int) -> (i: int)
    requires
        0 <= m < s.len(),
        pred(s[m]),
    ensures
        0 <= i < s.filter(pred).len(),
        s.filter(pred)[i] == s[m],
    decreases s.len(),
{
    reveal(Seq::filter);
    let kept = s.drop_last().filter(pred);
    if m == s.len() - 1 {
        kept.len() as int
    } else {
        lemma_filter_keeps(s.drop_last(), pred, m)
    }
}

/// A lookup prefers fast peers. In a round it asks contacts of its shortlist that were not asked
/// yet, as many as the parallelism or all that there are. It asks those of faster tiers first and
/// those of one tier from the nearest on; whoever is left out is in no faster tier, and in the
/// same tier no nearer.
pub proof fn lemma_prefers_fast_peers(lookup: LookupView, node: NodeView)
    requires
        lookup.wf(),
    ensures
        ({
            let batch = lookup.next_round(node).batch;
            let left = unasked(lookup.shortlist, lookup.queried);
            let tier = tier_key(node);
            let far = distance_key(lookup.target);
            &&& batch.len() == if left.len() < node.params.alpha {
                left.len()
            } else {
                node.params.alpha
            }
            &&& forall|i: int|
                0 <= i < batch.len() ==> lookup.shortlist.contains(#[trigger] batch[i])
                    && !lookup.queried.contains(batch[i].id)
            &&& forall|i: int, j: int|
                0 <= i < j < batch.len() ==> comes_first(
                    tier,
                    far,
                    #[trigger] batch[i],
                    #[trigger] batch[j],
                )
            &&& forall|i: int, c: Contact|
                0 <= i < batch.len() && #[trigger] lookup.shortlist.contains(c)
                    && !lookup.queried.contains(c.id) && !batch.contains(c) ==> comes_first(
                    tier,
                    far,
                    #[trigger] batch[i],
                    c,
                )
        }),
{
    let pred = |c: Contact| !lookup.queried.contains(c.id);
    let left = unasked(lookup.shortlist, lookup.queried);
    let tier = tier_key(node);
    let far = distance_key(lookup.target);
    let sorted = sort_by(left, tier);
    let batch = lookup.next_round(node).batch;
    lemma_filter_sorted(lookup.shortlist, pred, far);
    lemma_sort_by(left, tier);
    lemma_sort_by_stable(left, tier, far);
    assert forall|i: int, j: int| 0 <= i < j < sorted.len() implies comes_first(
        tier,
        far,
        #[trigger] sorted[i],
        #[trigger] sorted[j],
    ) by {
        assert(tier(sorted[i]) <= tier(sorted[j]));
    }
    assert forall|i: int| 0 <= i < batch.len() implies lookup.shortlist.contains(
        #[trigger] batch[i],
    ) && !lookup.queried.contains(batch[i].id) && batch[i] == sorted[i] by {
        lemma_candidate(node, lookup.shortlist, lookup.queried, i);
    }
    assert forall|i: int, c: Contact|
        0 <= i < batch.len() && #[trigger] lookup.shortlist.contains(c)
            && !lookup.queried.contains(c.id) && !batch.contains(c) implies comes_first(
        tier,
        far,
        #[trigger] batch[i],
        c,
    ) by {
        let m = choose|m: int| 0 <= m < lookup.shortlist.len() && lookup.shortlist[m] == c;
        let p = lemma_filter_keeps(lookup.shortlist, pred, m);
        assert(left.contains(left[p]));
        assert(sorted.contains(c));
        let q = choose|q: int| 0 <= q < sorted.len() && sorted[q] == c;
        if q < batch.len() {
            assert(batch[q] == c);
        }
        assert(batch[i] == sorted[i]);
    }
}

/// Whether a contact is in a faster tier than another, or in the same one and no farther away.
pub open spec fn comes_first(
    tier: spec_fn(Contact) -> int,
    far: spec_fn(Contact) -> int,
    a: Contact,
    b: Contact,
) -> bool {
    tier(a) < tier(b) || (tier(a) == tier(b) && far(a) <= far(b))
}

/// A lookup ends after a round that brought it no nearer, and a round is of at most as many
/// contacts as the parallelism.
pub proof fn lemma_ends_after_fruitless_round(lookup: LookupView, node: NodeView)
    requires
        lookup.batch.len() == 0,
    ensures
        !lookup.closer ==> lookup.polled(node) == (lookup, None::<Contact>),
        lookup.closer ==> lookup.polled(node) == lookup.next_round(node).advanced(node.id),
        lookup.next_round(node).batch.len() <= node.params.alpha,
        !lookup.next_round(node).closer,
{
}

/// How many contacts answered or failed to in the course of some steps.
pub open spec fn outcomes(steps: Seq<LookupStep>) -> nat
    decreases steps.len(),
{
    if steps.len() == 0 {
        0
    } else {
        outcomes(steps.drop_last()) + if steps.last() is Poll {
            0nat
        } else {
            1nat
        }
    }
}

impl LookupView {
    /// Whether steps can be those of this lookup: nobody answers, or fails to, who was not asked.
    pub open spec fn is_course(self, steps: Seq<LookupStep>) -> bool
        decreases steps.len(),
    {
        steps.len() > 0 ==> {
            &&& self.is_course(steps.drop_last())
            &&& steps.last() !is Poll ==> outcomes(steps.drop_last()) < self.asked(
                steps.drop_last(),
            ).len()
        }
    }
}

/// Whether the parallelism is zero whenever a lookup is asked whom to ask.
pub open spec fn never_parallel(steps: Seq<LookupStep>) -> bool {
    forall|i: int|
        0 <= i < steps.len() ==> (#[trigger] steps[i] matches LookupStep::Poll { node }
            ==> node.params.alpha == 0)
}

proof fn lemma_asks_nobody_at_all(lookup: LookupView, steps: Seq<LookupStep>)
    requires
        lookup.batch.len() == 0,
        lookup.shortlist.len() == 0 || never_parallel(steps),
        lookup.is_course(steps),
    ensures
        lookup.asked(steps).len() == 0,
        lookup.ran(steps) == (LookupView {
            batch: lookup.ran(steps).batch,
            closer: lookup.ran(steps).closer,
            ..lookup
        }),
        lookup.ran(steps).batch.len() == 0,
    decreases steps.len(),
{
    if steps.len() > 0 {
        let front = steps.drop_last();
        if never_parallel(steps) {
            assert forall|i: int| 0 <= i < front.len() implies (
            #[trigger] front[i] matches LookupStep::Poll { node } ==> node.params.alpha == 0) by {
                assert(front[i] == steps[i]);
            }
        }
        lemma_asks_nobody_at_all(lookup, front);
        assert(steps[steps.len() - 1] == steps.last());
        let here = lookup.ran(front);
        if let LookupStep::Poll { node } = steps.last() {
            let pred = |c: Contact| !here.queried.contains(c.id);
            lemma_filter_len(here.shortlist, pred);
            lemma_sort_by(unasked(here.shortlist, here.queried), tier_key(node));
            assert(here.next_round(node).batch.len() == 0);
        }
    }
}

/// The course of a lookup that nothing else disturbs. What is looked for stays the same. Nobody is
/// asked twice, and the node never asks itself. With a tier, only contacts that were in it when
/// they were admitted are asked or yielded. Where the node knows no such contact to start from, or
/// the parallelism is zero, nobody is asked at all.
pub proof fn lemma_course_of_a_lookup(
    node: NodeView,
    target: NodeId,
    level: Option<nat>,
    steps: Seq<LookupStep>,
)
    requires
        node.wf(),
        driven_by(steps, node.id),
        keeps_k(steps, node.params.k),
        LookupView::started(node, target, level).is_course(steps),
    ensures
        ({
            let lookup = LookupView::started(node, target, level);
            let after = lookup.ran(steps);
            let asked = lookup.asked(steps);
            &&& after.target == target
            &&& distinct_ids(asked)
            &&& forall|i: int| 0 <= i < asked.len() ==> (#[trigger] asked[i]).id != node.id
            &&& all_in_tier(node, steps, level, asked)
            &&& all_in_tier(node, steps, level, after.shortlist)
            &&& lookup.shortlist.len() == 0 || never_parallel(steps) ==> asked.len() == 0
        }),
{
    let lookup = LookupView::started(node, target, level);
    lemma_started_wf(node, target, level);
    lemma_stays_in_tier(node, target, level, steps);
    if lookup.shortlist.len() == 0 || never_parallel(steps) {
        lemma_asks_nobody_at_all(lookup, steps);
    } else {
        lemma_asks_nobody_twice(lookup, node.id, steps, node.params.k);
        lemma_yields_the_nearest(lookup, steps, node.params.k);
    }
}

/// A round is asked to its end. While a contact of the round other than the node itself is still to
/// be asked, the lookup says to ask the first such contact, whatever was answered before, and those
/// behind it stay to be asked.
pub proof fn lemma_asks_the_whole_round(lookup: LookupView, node: NodeView, p: int) -> (q: int)
    requires
        0 <= p < lookup.batch.len(),
        lookup.batch[p].id != node.id,
    ensures
        0 <= q <= p,
        lookup.batch[q].id != node.id,
        forall|j: int| 0 <= j < q ==> (#[trigger] lookup.batch[j]).id == node.id,
        lookup.polled(node).1 == Some(lookup.batch[q]),
        lookup.polled(node).0.batch == lookup.batch.skip(q + 1),
{
    lemma_advances_to_first(lookup, node.id, p)
}

proof fn lemma_advances_to_first(lookup: LookupView, self_id: NodeId, p: int) -> (q: int)
    requires
        0 <= p < lookup.batch.len(),
        lookup.batch[p].id != self_id,
    ensures
        0 <= q <= p,
        lookup.batch[q].id != self_id,
        forall|j: int| 0 <= j < q ==> (#[trigger] lookup.batch[j]).id == self_id,
        lookup.advanced(self_id).1 == Some(lookup.batch[q]),
        lookup.advanced(self_id).0.batch == lookup.batch.skip(q + 1),
    decreases p,
{
    if lookup.batch[0].id != self_id {
        assert(lookup.batch.drop_first() =~= lookup.batch.skip(1));
        0
    } else {
        let rest = LookupView {
            batch: lookup.batch.drop_first(),
            queried: lookup.queried.insert(lookup.batch[0].id),
            ..lookup
        };
        assert(rest.batch[p - 1] == lookup.batch[p]);
        let q = lemma_advances_to_first(rest, self_id, p - 1);
        assert(rest.batch.skip(q + 1) =~= lookup.batch.skip(q + 2));
        assert forall|j: int| 0 <= j < q + 1 implies (#[trigger] lookup.batch[j]).id
            == self_id by {
            if j > 0 {
                assert(rest.batch[j - 1].id == self_id);
            }
        }
        q + 1
    }
}

/// A lookup says to ask nobody only once everybody of the round was asked, and then only if the
/// last round brought it no nearer or everybody that it found was asked. Nobody counts but others
/// than the node itself. A parallelism of one may be spent on the node itself if somebody named it.
pub proof fn lemma_over_only_when_exhausted(lookup: LookupView, node: NodeView)
    requires
        lookup.wf(),
        lookup.polled(node).1 is None,
    ensures
        forall|p: int| 0 <= p < lookup.batch.len() ==> (#[trigger] lookup.batch[p]).id == node.id,
        lookup.closer && (node.params.alpha >= 2 || (node.params.alpha == 1 && !has_id(
            lookup.shortlist,
            node.id,
        ))) ==> forall|p: int|
            0 <= p < lookup.shortlist.len() ==> (#[trigger] lookup.shortlist[p]).id == node.id
                || lookup.queried.contains(lookup.shortlist[p].id),
{
    assert forall|p: int| 0 <= p < lookup.batch.len() implies (#[trigger] lookup.batch[p]).id
        == node.id by {
        if lookup.batch[p].id != node.id {
            let _ = lemma_asks_the_whole_round(lookup, node, p);
        }
    }
    if lookup.closer && (node.params.alpha >= 2 || (node.params.alpha == 1 && !has_id(
        lookup.shortlist,
        node.id,
    ))) {
        lemma_advanced(lookup, node.id);
        let rest = lookup.advanced(node.id).0;
        lemma_passed_over_self(lookup, node.id);
        let round = rest.next_round(node);
        lemma_next_round_wf(rest, node);
        lemma_prefers_fast_peers(rest, node);
        assert forall|p: int| 0 <= p < lookup.shortlist.len() implies (
        #[trigger] lookup.shortlist[p]).id == node.id || lookup.queried.contains(
            lookup.shortlist[p].id,
        ) by {
            let c = lookup.shortlist[p];
            if c.id != node.id && !lookup.queried.contains(c.id) {
                let pred = |c: Contact| !rest.queried.contains(c.id);
                assert(!rest.queried.contains(c.id));
                let m = lemma_filter_keeps(rest.shortlist, pred, p);
                assert(rest.shortlist.contains(c));
                assert forall|i: int| 0 <= i < round.batch.len() implies (
                #[trigger] round.batch[i]).id == node.id by {
                    if round.batch[i].id != node.id {
                        let _ = lemma_advances_to_first(round, node.id, i);
                    }
                }
                if round.batch.len() >= 2 {
                    assert(round.batch[0].id != round.batch[1].id);
                }
                assert(round.batch.len() == 1);
                lemma_candidate(node, rest.shortlist, rest.queried, 0);
                if node.params.alpha == 1 {
                    let b = choose|b: int|
                        0 <= b < rest.shortlist.len() && rest.shortlist[b] == round.batch[0];
                    assert(lookup.shortlist[b].id == node.id);
                }
                assert(unasked(rest.shortlist, rest.queried).len() == 1);
                assert(unasked(rest.shortlist, rest.queried)[m] == c);
            }
        }
    }
}

proof fn lemma_passed_over_self(lookup: LookupView, self_id: NodeId)
    requires
        lookup.advanced(self_id).1 is None,
    ensures
        forall|id: NodeId|
            id != self_id ==> (#[trigger] lookup.advanced(self_id).0.queried.contains(id)
                <==> lookup.queried.contains(id)),
    decreases lookup.batch.len(),
{
    if lookup.batch.len() > 0 {
        let rest = LookupView {
            batch: lookup.batch.drop_first(),
            queried: lookup.queried.insert(lookup.batch[0].id),
            ..lookup
        };
        lemma_passed_over_self(rest, self_id);
    }
}

/// A lookup starts from exactly those of the node's closest contacts that are in the tier, if one
/// is given.
pub proof fn lemma_starts_from_the_closest(
    node: NodeView,
    target: NodeId,
    level: Option<nat>,
    c: Contact,
)
    ensures
        LookupView::started(node, target, level).shortlist.contains(c) <==> node.closest(
            target,
        ).contains(c) && node.matches(level, c.id),
        LookupView::started(node, target, level).seen.contains(c.id) <==> has_id(
            LookupView::started(node, target, level).shortlist,
            c.id,
        ),
{
    let pred = |c: Contact| node.matches(level, c.id);
    let known = node.closest(target);
    let kept = node.matching(level, known);
    lemma_sort_by(kept, distance_key(target));
    if kept.contains(c) {
        let m = choose|m: int| 0 <= m < kept.len() && kept[m] == c;
        lemma_filter_members(known, pred, m);
        let p = lemma_filter_source(known, pred, m);
        assert(known[p] == c);
    }
    if known.contains(c) && node.matches(level, c.id) {
        let p = choose|p: int| 0 <= p < known.len() && known[p] == c;
        let m = lemma_filter_keeps(known, pred, p);
        assert(kept[m] == c);
    }
}

proof fn lemma_extended_members(lookup: LookupView, node: NodeView, nodes: Seq<Contact>)
    ensures
        ({
            let wide = lookup.extended(node, nodes);
            &&& forall|c: Contact| #[trigger]
                lookup.shortlist.contains(c) ==> wide.shortlist.contains(c)
            &&& forall|c: Contact| #[trigger]
                wide.shortlist.contains(c) ==> lookup.shortlist.contains(c) || (nodes.contains(c)
                    && !lookup.seen.contains(c.id) && node.matches(lookup.level, c.id))
            &&& forall|c: Contact| #[trigger]
                nodes.contains(c) && !lookup.seen.contains(c.id) && node.matches(
                    lookup.level,
                    c.id,
                ) ==> has_id(wide.shortlist, c.id)
            &&& forall|id: NodeId| #[trigger]
                wide.seen.contains(id) <==> lookup.seen.contains(id) || has_id(nodes, id)
        }),
    decreases nodes.len(),
{
    let wide = lookup.extended(node, nodes);
    if nodes.len() > 0 {
        let head = nodes.drop_last();
        let front = lookup.extended(node, head);
        let last = nodes.last();
        lemma_extended_members(lookup, node, head);
        lemma_extended_frame(lookup, node, head);
        assert forall|c: Contact| #[trigger]
            nodes.contains(c) <==> head.contains(c) || c == last by {
            if nodes.contains(c) {
                let i = choose|i: int| 0 <= i < nodes.len() && nodes[i] == c;
                if i < head.len() {
                    assert(head[i] == c);
                }
            }
            if head.contains(c) {
                let i = choose|i: int| 0 <= i < head.len() && head[i] == c;
                assert(nodes[i] == c);
            }
            assert(nodes[nodes.len() - 1] == last);
        }
        assert forall|c: Contact| front.shortlist.contains(c) implies #[trigger]
            wide.shortlist.contains(c) by {
            let i = choose|i: int| 0 <= i < front.shortlist.len() && front.shortlist[i] == c;
            assert(wide.shortlist[i] == c);
        }
        assert forall|id: NodeId| has_id(front.shortlist, id) implies #[trigger] has_id(
            wide.shortlist,
            id,
        ) by {
            let i = choose|i: int|
                0 <= i < front.shortlist.len() && (#[trigger] front.shortlist[i]).id == id;
            assert(wide.shortlist[i].id == id);
        }
        assert forall|id: NodeId| #[trigger]
            has_id(nodes, id) <==> has_id(head, id) || id == last.id by {
            if has_id(nodes, id) {
                let i = choose|i: int| 0 <= i < nodes.len() && (#[trigger] nodes[i]).id == id;
                if i < head.len() {
                    assert(head[i].id == id);
                }
            }
            if has_id(head, id) {
                let i = choose|i: int| 0 <= i < head.len() && (#[trigger] head[i]).id == id;
                assert(nodes[i].id == id);
            }
            assert(nodes[nodes.len() - 1] == last);
        }
        assert forall|c: Contact| #[trigger] wide.shortlist.contains(c) implies
            front.shortlist.contains(c) || (c == last && !front.seen.contains(c.id)
            && node.matches(lookup.level, c.id)) by {
            let i = choose|i: int| 0 <= i < wide.shortlist.len() && wide.shortlist[i] == c;
            if i < front.shortlist.len() {
                assert(front.shortlist[i] == c);
            }
        }
        assert forall|c: Contact| #[trigger]
            nodes.contains(c) && !lookup.seen.contains(c.id) && node.matches(
                lookup.level,
                c.id,
            ) implies has_id(wide.shortlist, c.id) by {
            if head.contains(c) {
                assert(has_id(front.shortlist, c.id));
            } else if front.seen.contains(c.id) {
                assert(has_id(head, c.id));
                let i = choose|i: int| 0 <= i < head.len() && (#[trigger] head[i]).id == c.id;
                assert(head.contains(head[i]));
                assert(has_id(front.shortlist, head[i].id));
            } else {
                assert(wide.shortlist[front.shortlist.len() as int] == last);
            }
        }
    }
}

/// Whether a contact of this identifier is among some, or these are `k` that are all as near to the
/// target.
pub open spec fn kept_or_outdone(
    contacts: Seq<Contact>,
    target: NodeId,
    k: nat,
    id: NodeId,
) -> bool {
    ||| has_id(contacts, id)
    ||| contacts.len() == k && forall|i: int|
        0 <= i < contacts.len() ==> dist((#[trigger] contacts[i]).id, target) <= dist(id, target)
}

/// An answer adds what it names. Everybody who was kept, and everybody in the answer whom nobody
/// named before and who is in the tier, is kept afterwards unless as many contacts as the bucket
/// size are at least as near. Nobody else is added. Whoever the answer names counts as named.
pub proof fn lemma_answer_adds_what_it_names(
    lookup: LookupView,
    node: NodeView,
    nodes: Seq<Contact>,
    c: Contact,
)
    ensures
        ({
            let after = lookup.answered(node, nodes);
            let fresh = nodes.contains(c) && !lookup.seen.contains(c.id) && node.matches(
                lookup.level,
                c.id,
            );
            &&& after.shortlist.contains(c) ==> lookup.shortlist.contains(c) || fresh
            &&& lookup.shortlist.contains(c) || fresh ==> kept_or_outdone(
                after.shortlist,
                lookup.target,
                node.params.k,
                c.id,
            )
            &&& after.seen.contains(c.id) <==> lookup.seen.contains(c.id) || has_id(nodes, c.id)
            &&& after.succeeded
            &&& after.failed == lookup.failed
        }),
{
    let begun = LookupView { succeeded: true, ..lookup };
    let wide = begun.extended(node, nodes);
    let after = lookup.answered(node, nodes);
    let key = distance_key(lookup.target);
    lemma_extended_members(begun, node, nodes);
    lemma_extended_frame(begun, node, nodes);
    lemma_sort_by(wide.shortlist, key);
    let all = by_distance(wide.shortlist, wide.target);
    if after.shortlist.contains(c) {
        let i = choose|i: int| 0 <= i < after.shortlist.len() && after.shortlist[i] == c;
        assert(all[i] == c);
        assert(all.contains(c));
        assert(wide.shortlist.contains(c));
        assert(lookup.shortlist.contains(c) ==> begun.shortlist.contains(c));
    }
    let fresh = nodes.contains(c) && !lookup.seen.contains(c.id) && node.matches(
        lookup.level,
        c.id,
    );
    if lookup.shortlist.contains(c) || fresh {
        if lookup.shortlist.contains(c) {
            assert(begun.shortlist.contains(c));
            assert(wide.shortlist.contains(c));
            let m = choose|m: int| 0 <= m < wide.shortlist.len() && wide.shortlist[m] == c;
            assert(wide.shortlist[m].id == c.id);
        }
        assert(has_id(wide.shortlist, c.id));
        let m = choose|m: int|
            0 <= m < wide.shortlist.len() && (#[trigger] wide.shortlist[m]).id == c.id;
        let d = wide.shortlist[m];
        assert(wide.shortlist.contains(d));
        assert(all.contains(d));
        let p = choose|p: int| 0 <= p < all.len() && all[p] == d;
        if p < after.shortlist.len() {
            assert(after.shortlist[p].id == c.id);
        } else {
            assert forall|i: int| 0 <= i < after.shortlist.len() implies dist(
                (#[trigger] after.shortlist[i]).id,
                lookup.target,
            ) <= dist(c.id, lookup.target) by {
                assert(after.shortlist[i] == all[i]);
                assert(key(all[i]) <= key(all[p]));
            }
        }
    }
}

/// A lookup succeeded once anybody answered, and failed in part once anybody failed to.
pub proof fn lemma_outcomes_of_a_lookup(lookup: LookupView, steps: Seq<LookupStep>)
    ensures
        lookup.ran(steps).succeeded <==> lookup.succeeded || exists|i: int|
            0 <= i < steps.len() && #[trigger] steps[i] is Answer,
        lookup.ran(steps).failed <==> lookup.failed || exists|i: int|
            0 <= i < steps.len() && #[trigger] steps[i] is Refusal,
    decreases steps.len(),
{
    if steps.len() > 0 {
        let front = steps.drop_last();
        let here = lookup.ran(front);
        lemma_outcomes_of_a_lookup(lookup, front);
        let n = steps.len() - 1;
        assert(steps[n] == steps.last());
        if exists|i: int| 0 <= i < front.len() && #[trigger] front[i] is Answer {
            let i = choose|i: int| 0 <= i < front.len() && #[trigger] front[i] is Answer;
            assert(steps[i] is Answer);
        }
        if exists|i: int| 0 <= i < front.len() && #[trigger] front[i] is Refusal {
            let i = choose|i: int| 0 <= i < front.len() && #[trigger] front[i] is Refusal;
            assert(steps[i] is Refusal);
        }
        if exists|i: int| 0 <= i < n && #[trigger] steps[i] is Answer {
            let i = choose|i: int| 0 <= i < n && #[trigger] steps[i] is Answer;
            assert(front[i] is Answer);
        }
        if exists|i: int| 0 <= i < n && #[trigger] steps[i] is Refusal {
            let i = choose|i: int| 0 <= i < n && #[trigger] steps[i] is Refusal;
            assert(front[i] is Refusal);
        }
        match steps.last() {
            LookupStep::Poll { node } => {
                lemma_polled_frame(here, node);
            },
            LookupStep::Answer { node, nodes } => {
                lemma_extended_frame(LookupView { succeeded: true, ..here }, node, nodes);
            },
            LookupStep::Refusal => {},
        }
    }
}

proof fn lemma_advanced_frame(lookup: LookupView, self_id: NodeId)
    ensures
        ({
            let after = lookup.advanced(self_id).0;
            after == (LookupView { batch: after.batch, queried: after.queried, ..lookup })
        }),
    decreases lookup.batch.len(),
{
    if lookup.batch.len() > 0 {
        lemma_advanced_frame(
            LookupView {
                batch: lookup.batch.drop_first(),
                queried: lookup.queried.insert(lookup.batch[0].id),
                ..lookup
            },
            self_id,
        );
    }
}

proof fn lemma_polled_frame(lookup: LookupView, node: NodeView)
    ensures
        ({
            let after = lookup.polled(node).0;
            after == (LookupView {
                batch: after.batch,
                queried: after.queried,
                closer: after.closer,
                ..lookup
            })
        }),
{
    lemma_advanced_frame(lookup, node.id);
    lemma_advanced_frame(lookup.advanced(node.id).0.next_round(node), node.id);
}

/// The end of a lookup is recorded as the outcome of one call: a success if anybody answered, and
/// else a failure if anybody was asked at all.
pub proof fn lemma_lookup_is_recorded(lookup: LookupView, node: NodeView)
    requires
        node.wf(),
    ensures
        ({
            let after = lookup.finished(node);
            &&& lookup.succeeded ==> after.params.history == latest_outcomes(
                node.params.history.push(true),
            )
            &&& !lookup.succeeded && lookup.failed ==> after.params.history == latest_outcomes(
                node.params.history.push(false),
            )
            &&& !lookup.succeeded && !lookup.failed ==> after == node
        }),
{
    lemma_adjusted(node, true);
    lemma_adjusted(node, false);
}

impl ValueLookupView {
    /// The lookup once it was driven for some turns. In each one it is asked whom to ask by the
    /// first node of the turn, and whoever is asked answers with a value, or none, and contacts;
    /// the second node of the turn is the node after it took note of the answer.
    pub open spec fn driven(
        self,
        turns: Seq<(NodeView, NodeView)>,
        replies: spec_fn(Contact) -> (Option<Seq<u8>>, Seq<Contact>),
    ) -> ValueLookupView
        decreases turns.len(),
    {
        if turns.len() == 0 {
            self
        } else {
            let (here, contact) = self.polled(turns[0].0);
            let next = match contact {
                Some(c) => here.answered(turns[0].1, replies(c).0, replies(c).1),
                None => here,
            };
            next.driven(turns.drop_first(), replies)
        }
    }
}

/// Whether all turns are of a node with this identifier whose buckets have room.
pub open spec fn turns_of(turns: Seq<(NodeView, NodeView)>, self_id: NodeId) -> bool {
    forall|i: int|
        0 <= i < turns.len() ==> (#[trigger] turns[i]).0.id == self_id && turns[i].1.params.k > 0
}

/// While its value was not found, a lookup of a value says to ask whom the lookup of the contacts
/// says to ask, and nobody else; once it was found, nobody.
pub proof fn lemma_value_lookup_asks_like_node_lookup(lookup: ValueLookupView, node: NodeView)
    ensures
        lookup.value is None ==> {
            &&& lookup.polled(node).1 == lookup.lookup.polled(node).1
            &&& lookup.polled(node).0.lookup == lookup.lookup.polled(node).0
            &&& lookup.polled(node).0.value is None
        },
        lookup.value is Some ==> lookup.polled(node) == (lookup, None::<Contact>),
{
}

/// A lookup of a value gives up only where the lookup of the contacts is over: everybody of the
/// round was asked, and the last round brought it no nearer or everybody that it found was asked.
pub proof fn lemma_gives_up_only_when_exhausted(lookup: ValueLookupView, node: NodeView)
    requires
        lookup.wf(),
        lookup.value is None,
        lookup.polled(node).1 is None,
    ensures
        forall|p: int|
            0 <= p < lookup.lookup.batch.len() ==> (#[trigger] lookup.lookup.batch[p]).id
                == node.id,
        !lookup.lookup.closer || node.params.alpha <= 1 || forall|p: int|
            0 <= p < lookup.lookup.shortlist.len() ==> (#[trigger] lookup.lookup.shortlist[p]).id
                == node.id || lookup.lookup.queried.contains(lookup.lookup.shortlist[p].id),
{
    lemma_over_only_when_exhausted(lookup.lookup, node);
}

proof fn lemma_found_stays_found(
    lookup: ValueLookupView,
    turns: Seq<(NodeView, NodeView)>,
    replies: spec_fn(Contact) -> (Option<Seq<u8>>, Seq<Contact>),
)
    requires
        lookup.value is Some,
    ensures
        lookup.driven(turns, replies) == lookup,
    decreases turns.len(),
{
    if turns.len() > 0 {
        lemma_found_stays_found(lookup, turns.drop_first(), replies);
    }
}

/// A value that somebody of the round holds is found. If a contact that is still to be asked in
/// this round answers with a value that the key stands for, then the lookup has such a value after
/// at most as many turns as there are contacts up to that one, whatever the others answer. If nobody
/// before it has such a value, it is this one.
pub proof fn lemma_value_of_the_round_is_found(
    lookup: ValueLookupView,
    turns: Seq<(NodeView, NodeView)>,
    replies: spec_fn(Contact) -> (Option<Seq<u8>>, Seq<Contact>),
    self_id: NodeId,
    p: int,
    value: Seq<u8>,
)
    requires
        lookup.wf(),
        lookup.value is None,
        turns_of(turns, self_id),
        0 <= p < lookup.lookup.batch.len(),
        p < turns.len(),
        lookup.lookup.batch[p].id != self_id,
        replies(lookup.lookup.batch[p]).0 == Some(value),
        blake3(value) == lookup.lookup.target,
    ensures
        lookup.driven(turns, replies).value matches Some(v) && blake3(v) == lookup.lookup.target,
        (forall|j: int|
            0 <= j < p ==> (replies(#[trigger] lookup.lookup.batch[j]).0 matches Some(v) ==> blake3(
                v,
            ) != lookup.lookup.target)) ==> lookup.driven(turns, replies).value == Some(value),
    decreases p,
{
    let first = turns[0].0;
    assert(turns[0].0.id == self_id && turns[0].1.params.k > 0);
    let batch = lookup.lookup.batch;
    let q = lemma_asks_the_whole_round(lookup.lookup, first, p);
    lemma_polled(lookup.lookup, first);
    lemma_polled_frame(lookup.lookup, first);
    let here = lookup.polled(first).0;
    let c = batch[q];
    let next = here.answered(turns[0].1, replies(c).0, replies(c).1);
    lemma_answered(here.lookup, turns[0].1, replies(c).1);
    let rest = turns.drop_first();
    if next.value is Some {
        lemma_found_stays_found(next, rest, replies);
        if q < p {
            assert(replies(batch[q]).0 == next.value);
        }
    } else {
        assert(q < p);
        assert(next.lookup.batch == batch.skip(q + 1));
        assert(turns_of(rest, self_id)) by {
            assert forall|i: int| 0 <= i < rest.len() implies (#[trigger] rest[i]).0.id == self_id
                && rest[i].1.params.k > 0 by {
                assert(rest[i] == turns[i + 1]);
            }
        }
        assert(next.lookup.batch[p - q - 1] == batch[p]);
        lemma_value_of_the_round_is_found(next, rest, replies, self_id, p - q - 1, value);
        if forall|j: int|
            0 <= j < p ==> (replies(#[trigger] batch[j]).0 matches Some(v) ==> blake3(v)
                != lookup.lookup.target) {
            assert forall|j: int| 0 <= j < p - q - 1 implies (
            replies(#[trigger] next.lookup.batch[j]).0 matches Some(v) ==> blake3(v)
                != next.lookup.target) by {
                assert(next.lookup.batch[j] == batch[j + q + 1]);
            }
        }
    }
}

/// A value that somebody of the next round holds is found as well: once a round is over that
/// brought the lookup nearer, the lookup goes on with the next.
pub proof fn lemma_value_of_the_next_round_is_found(
    lookup: ValueLookupView,
    turns: Seq<(NodeView, NodeView)>,
    replies: spec_fn(Contact) -> (Option<Seq<u8>>, Seq<Contact>),
    self_id: NodeId,
    p: int,
    value: Seq<u8>,
)
    requires
        lookup.wf(),
        lookup.value is None,
        lookup.lookup.batch.len() == 0,
        lookup.lookup.closer,
        turns_of(turns, self_id),
        turns.len() > 0,
        0 <= p < lookup.lookup.next_round(turns[0].0).batch.len(),
        p < turns.len(),
        lookup.lookup.next_round(turns[0].0).batch[p].id != self_id,
        replies(lookup.lookup.next_round(turns[0].0).batch[p]).0 == Some(value),
        blake3(value) == lookup.lookup.target,
    ensures
        lookup.driven(turns, replies).value matches Some(v) && blake3(v) == lookup.lookup.target,
{
    let first = turns[0].0;
    assert(turns[0].0.id == self_id);
    let round = ValueLookupView { lookup: lookup.lookup.next_round(first), ..lookup };
    lemma_next_round_wf(lookup.lookup, first);
    let q = lemma_asks_the_whole_round(round.lookup, first, p);
    let _ = lemma_advances_to_first(round.lookup, self_id, p);
    assert(lookup.polled(first) == round.polled(first));
    lemma_value_of_the_round_is_found(round, turns, replies, self_id, p, value);
}

/// Only a value that the key stands for counts as found, and an answer without one leaves the
/// lookup of the contacts as any answer does.
pub proof fn lemma_only_authentic_values_are_found(
    lookup: ValueLookupView,
    node: NodeView,
    value: Option<Seq<u8>>,
    nodes: Seq<Contact>,
)
    requires
        lookup.value is None,
    ensures
        ({
            let after = lookup.answered(node, value, nodes);
            &&& after.value matches Some(v) ==> value == Some(v) && blake3(v)
                == lookup.lookup.target
            &&& value matches Some(v) ==> (blake3(v) == lookup.lookup.target ==> after.value
                == value)
            &&& after.lookup == lookup.lookup.answered(node, nodes)
        }),
{
}

/// A lookup begins whenever there is somebody to begin with: if one of the node's closest contacts
/// is in the tier, if one is given, the lookup says to ask one of them.
pub proof fn lemma_lookup_begins(
    node: NodeView,
    target: NodeId,
    level: Option<nat>,
    c: Contact,
)
    requires
        node.wf(),
        node.params.alpha > 0,
        node.closest(target).contains(c),
        node.matches(level, c.id),
    ensures
        ({
            let (after, contact) = LookupView::started(node, target, level).polled(node);
            contact matches Some(first) && node.closest(target).contains(first) && node.matches(
                level,
                first.id,
            )
        }),
{
    let lookup = LookupView::started(node, target, level);
    lemma_started_wf(node, target, level);
    lemma_starts_from_the_closest(node, target, level, c);
    let round = lookup.next_round(node);
    lemma_next_round_wf(lookup, node);
    lemma_prefers_fast_peers(lookup, node);
    let m = choose|m: int| 0 <= m < lookup.shortlist.len() && lookup.shortlist[m] == c;
    let pred = |c: Contact| !lookup.queried.contains(c.id);
    let _ = lemma_filter_keeps(lookup.shortlist, pred, m);
    assert(round.batch.len() > 0);
    let first = round.batch[0];
    lemma_candidate(node, lookup.shortlist, lookup.queried, 0);
    lemma_starts_from_the_closest(node, target, level, first);
    assert(lookup.shortlist.contains(first));
    lemma_closest_are_nearest(node.routing, target, node.params.k);
    lemma_contacts(node.routing);
    assert(node.routing.contacts().contains(first)) by {
        let i = choose|i: int|
            0 <= i < node.closest(target).len() && node.closest(target)[i] == first;
        assert(node.routing.contacts().contains(node.closest(target)[i]));
    }
    assert(first.id != node.id);
    let _ = lemma_advances_to_first(round, node.id, 0);
}

} // verus!
