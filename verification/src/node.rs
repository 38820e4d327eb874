//! The state of a DHT node, and how requests and observations change it.
//!
//! A node does no input or output itself. Whoever drives it hands in what arrived, with the
//! time in nanoseconds, and carries out what comes back: contacts to ping, values to pass on.

use vstd::prelude::*;

use crate::adaptive::{
    latest_outcomes, lemma_churned_window, lemma_k_stays_in_range, AdaptiveParams, ParamsView,
    MAX_ALPHA, MAX_K, MIN_ALPHA, MIN_K,
};
use crate::contact::Contact;
use crate::distance::{bucket_of, lemma_bucket_covers_distance_range};
use crate::hash::{blake3, same_id, verify_key_value_pair, Key, NodeId};
use crate::lru_cache::{has_key, key_index};
use crate::pressure::{default_pressure, lemma_new_request_counts, saturated_sum};
use crate::routing::{
    lemma_seen_forgets_nobody, lemma_seen_wf, lemma_with_k_wf, PendingBucketUpdate, RoutingTable,
    RoutingView,
};
use crate::store::{
    lemma_read_wf, lemma_stored_keeps_requests, lemma_stored_or_spilled, lemma_stored_subset,
    lemma_value_at, pairs, value_of, LocalStore, StoreView, LOCAL_STORE_MAX_ENTRIES,
};
use crate::tiering::{
    averages, has_peer, lemma_recomputed, lemma_recomputed_samples, lemma_registered,
    lemma_registered_peers, lemma_registered_samples, lemma_sampled_peers, lemma_sampled_wf,
    lemma_samples_keep_latest, level_count, TieringLevel, TieringManager, TieringView,
};

verus! {

/// What a node looks like from outside at one moment.
#[derive(Clone, Debug)]
pub struct TelemetrySnapshot {
    /// The centroid of each latency tier in nanoseconds, fastest first.
    pub tier_centroids: Vec<u64>,
    /// The number of peers of each tier.
    pub tier_counts: Vec<usize>,
    /// The resource pressure in billionths; none where it means nothing.
    pub pressure: Option<u64>,
    /// The number of stored values.
    pub stored_keys: usize,
    /// The current bucket size and replication factor.
    pub replication_factor: usize,
    /// The current number of candidates of a lookup round.
    pub concurrency: usize,
}

impl Default for TelemetrySnapshot {
    /// A snapshot of nothing.
    fn default() -> (snapshot: Self)
        ensures
            snapshot.tier_centroids@.len() == 0,
            snapshot.tier_counts@.len() == 0,
            snapshot.pressure == Some(0u64),
            snapshot.stored_keys == 0,
            snapshot.replication_factor == 0,
            snapshot.concurrency == 0,
    {
        TelemetrySnapshot {
            tier_centroids: Vec::new(),
            tier_counts: Vec::new(),
            pressure: Some(0),
            stored_keys: 0,
            replication_factor: 0,
            concurrency: 0,
        }
    }
}

/// Whether every entry's key is the digest of its value.
pub open spec fn authentic(entries: Seq<(Key, Seq<u8>)>) -> bool {
    forall|i: int| 0 <= i < entries.len() ==> blake3((#[trigger] entries[i]).1) == entries[i].0
}

/// The index of a tier, if one is given.
pub open spec fn level_index(level: Option<TieringLevel>) -> Option<nat> {
    match level {
        Some(l) => Some(l@),
        None => None,
    }
}

/// What a node holds.
#[verifier::ext_equal]
pub struct NodeView {
    /// The node's identifier.
    pub id: NodeId,
    /// What other nodes are told to reach this one by.
    pub self_contact: Contact,
    /// The peers.
    pub routing: RoutingView,
    /// The values.
    pub store: StoreView,
    /// The adaptive parameters.
    pub params: ParamsView,
    /// The latency tiers.
    pub tiering: TieringView,
}

impl NodeView {
    /// The parts are well-formed, the routing table is this node's and has its bucket size, and
    /// every stored value is the one that its key stands for.
    pub open spec fn wf(self) -> bool {
        &&& self.routing.wf()
        &&& self.store.wf()
        &&& self.params.wf()
        &&& self.tiering.wf()
        &&& self.routing.self_id == self.id
        &&& self.routing.k == self.params.k
        &&& authentic(self.store.entries)
    }

    /// Whether the node can take note of a contact: its buckets have room for somebody, or
    /// the contact is the node itself, of which no note is taken.
    pub open spec fn can_observe(self, contact: Contact) -> bool {
        self.params.k > 0 || contact.id == self.id
    }

    /// The routing table with the current bucket size.
    pub open spec fn resized(self) -> RoutingView {
        self.routing.with_k(self.params.k)
    }

    /// The node once it met a contact.
    pub open spec fn observed(self, contact: Contact) -> NodeView {
        if contact.id == self.id {
            self
        } else {
            NodeView {
                tiering: self.tiering.registered(contact.id),
                routing: self.resized().seen(contact),
                ..self
            }
        }
    }

    /// Whether meeting a contact leaves a full bucket to be sorted out.
    pub open spec fn is_crowded_for(self, contact: Contact) -> bool {
        contact.id != self.id && self.resized().is_crowded_for(contact)
    }

    /// The update that meeting a contact leaves to do, if its bucket is full.
    pub open spec fn pending(self, contact: Contact) -> Option<PendingBucketUpdate> {
        if self.is_crowded_for(contact) {
            Some(
                PendingBucketUpdate {
                    bucket_index: bucket_of(self.id, contact.id) as usize,
                    oldest: self.resized().bucket_for(contact.id)[0],
                    new_contact: contact,
                },
            )
        } else {
            None
        }
    }

    /// The node once it met some contacts, one after the other.
    pub open spec fn observed_all(self, contacts: Seq<Contact>) -> NodeView
        decreases contacts.len(),
    {
        if contacts.len() == 0 {
            self
        } else {
            self.observed_all(contacts.drop_last()).observed(contacts.last())
        }
    }

    /// The updates that meeting some contacts, one after the other, leaves to do.
    pub open spec fn pendings(self, contacts: Seq<Contact>) -> Seq<PendingBucketUpdate>
        decreases contacts.len(),
    {
        if contacts.len() == 0 {
            Seq::empty()
        } else {
            let front = contacts.drop_last();
            match self.observed_all(front).pending(contacts.last()) {
                Some(p) => self.pendings(front).push(p),
                None => self.pendings(front),
            }
        }
    }

    /// The node once a value was offered to its store. A value that its key does not stand
    /// for is ignored.
    pub open spec fn stored_local(self, key: Key, value: Seq<u8>, now: u64) -> NodeView {
        if blake3(value) == key {
            NodeView { store: self.store.requested(now).stored(key, value), ..self }
        } else {
            self
        }
    }

    /// The entries that leave the store when a value is offered to it.
    pub open spec fn spilled_local(self, key: Key, value: Seq<u8>, now: u64) -> Seq<(Key, Seq<u8>)> {
        if blake3(value) == key {
            self.store.requested(now).spilled(key, value)
        } else {
            Seq::empty()
        }
    }

    /// The node once a value was looked for in its store.
    pub open spec fn read_local(self, key: Key, now: u64) -> NodeView {
        NodeView { store: self.store.requested(now).read(key), ..self }
    }

    /// The value that the store holds under a key.
    pub open spec fn local_value(self, key: Key) -> Option<Seq<u8>> {
        value_of(self.store.entries, key)
    }

    /// The contacts nearest to a target, as many as the current bucket size.
    pub open spec fn closest(self, target: NodeId) -> Seq<Contact> {
        self.routing.closest(target, self.params.k)
    }

    /// Whether a peer is in the given tier, if one is given.
    pub open spec fn matches(self, level: Option<nat>, id: NodeId) -> bool {
        level matches Some(l) ==> self.tiering.level_of(id) == l
    }

    /// The contacts that are in the given tier, if one is given.
    pub open spec fn matching(self, level: Option<nat>, contacts: Seq<Contact>) -> Seq<Contact> {
        contacts.filter(|c: Contact| self.matches(level, c.id))
    }

    /// The node once a round-trip time of a contact was measured.
    pub open spec fn timed(self, contact: Contact, elapsed: u64, now: u64, tier_penalty: nat) -> NodeView {
        if contact.id == self.id {
            self
        } else {
            NodeView {
                tiering: self.tiering.sampled(contact.id, elapsed).recomputed(now, tier_penalty),
                ..self
            }
        }
    }

    /// The node once the outcome of a remote call or a lookup was observed.
    pub open spec fn adjusted(self, success: bool) -> NodeView {
        let params = self.params.churned(success);
        NodeView {
            params,
            routing: if params.k != self.params.k {
                self.routing.with_k(params.k)
            } else {
                self.routing
            },
            ..self
        }
    }

    /// The node once a contact answered with other contacts.
    pub open spec fn heard_from(
        self,
        contact: Contact,
        nodes: Seq<Contact>,
        elapsed: u64,
        now: u64,
        tier_penalty: nat,
    ) -> NodeView {
        self.timed(contact, elapsed, now, tier_penalty).observed_all(seq![contact] + nodes)
    }

    /// The node once a contact accepted a value after `elapsed` nanoseconds, or failed to.
    pub open spec fn reported(
        self,
        contact: Contact,
        elapsed: Option<u64>,
        now: u64,
        tier_penalty: nat,
    ) -> NodeView {
        match elapsed {
            Some(t) => self.timed(contact, t, now, tier_penalty).adjusted(true).observed(contact),
            None => self.adjusted(false),
        }
    }
}

/// A DHT node: routing table, content-addressed store, adaptive parameters and tiers.
pub struct DhtNode {
    id: NodeId,
    self_contact: Contact,
    routing: RoutingTable,
    store: LocalStore,
    params: AdaptiveParams,
    tiering: TieringManager,
}

impl View for DhtNode {
    type V = NodeView;

    closed spec fn view(&self) -> NodeView {
        NodeView {
            id: self.id,
            self_contact: self.self_contact,
            routing: self.routing@,
            store: self.store@,
            params: self.params@,
            tiering: self.tiering@,
        }
    }
}

impl DhtNode {
    /// The node's invariant.
    pub open spec fn wf(&self) -> bool {
        self@.wf()
    }

    /// Creates a node that knows nobody and stores nothing.
    pub fn new(id: NodeId, self_contact: Contact, k: usize, alpha: usize) -> (node: Self)
        ensures
            node.wf(),
            node@.id == id,
            node@.self_contact == self_contact,
            node@.routing == RoutingView::empty(id, k as nat),
            node@.store.entries == Seq::<(Key, Seq<u8>)>::empty(),
            node@.store.capacity == LOCAL_STORE_MAX_ENTRIES,
            node@.store.pressure == default_pressure(),
            node@.params == (ParamsView {
                k: k as nat,
                alpha: alpha as nat,
                history: Seq::empty(),
            }),
            node@.tiering == TieringView::initial(),
    {
        DhtNode {
            id,
            self_contact,
            routing: RoutingTable::new(id, k),
            store: LocalStore::new(),
            params: AdaptiveParams::new(k, alpha),
            tiering: TieringManager::new(),
        }
    }

    /// The node's identifier.
    pub fn node_id(&self) -> (id: NodeId)
        ensures
            id == self@.id,
    {
        self.id
    }

    /// What other nodes are told to reach this one by.
    pub fn contact(&self) -> (contact: Contact)
        ensures
            contact == self@.self_contact,
    {
        self.self_contact.clone()
    }

    /// Takes note of a contact. When its bucket is full, the update that is left to do is
    /// returned: the oldest contact of the bucket is to be pinged and the outcome reported
    /// to `apply_ping_result`.
    pub fn observe_contact(&mut self, contact: Contact) -> (pending: Option<PendingBucketUpdate>)
        requires
            old(self).wf(),
            old(self)@.can_observe(contact),
        ensures
            final(self).wf(),
            final(self)@ == old(self)@.observed(contact),
            pending == old(self)@.pending(contact),
            pending matches Some(p) ==> p.is_for(old(self)@.id),
    {
        if same_id(&contact.id, &self.id) {
            return None;
        }
        let _ = self.tiering.register_contact(&contact.id);
        let k = self.params.current_k();
        self.routing.set_k(k);
        self.routing.update_with_pending(contact)
    }

    /// Applies the outcome of pinging the oldest contact of a full bucket.
    pub fn apply_ping_result(&mut self, pending: PendingBucketUpdate, oldest_alive: bool)
        requires
            old(self).wf(),
            pending.is_for(old(self)@.id),
        ensures
            final(self).wf(),
            final(self)@ == (NodeView {
                routing: old(self)@.routing.pinged(pending, oldest_alive),
                ..old(self)@
            }),
    {
        self.routing.apply_ping_result(pending, oldest_alive);
    }

    /// Stores a value if `key` is its digest, and returns the entries that had to leave for
    /// it. They are to be passed on to nodes of the slowest tier.
    pub fn store_local(&mut self, key: Key, value: &Vec<u8>, now: u64) -> (spilled: Vec<
        (Key, Vec<u8>),
    >)
        requires
            old(self).wf(),
        ensures
            final(self).wf(),
            final(self)@ == old(self)@.stored_local(key, value@, now),
            pairs(spilled@) == old(self)@.spilled_local(key, value@, now),
            authentic(pairs(spilled@)),
    {
        let ghost before = self@;
        if !verify_key_value_pair(&key, value.as_slice()) {
            let spilled: Vec<(Key, Vec<u8>)> = Vec::new();
            assert(pairs(spilled@) =~= Seq::empty());
            return spilled;
        }
        self.store.record_request(now);
        let spilled = self.store.store(key, value.as_slice());
        proof {
            lemma_stored_local_wf(before, key, value@, now);
        }
        spilled
    }

    /// Reads a value from the local store.
    pub fn get_local(&mut self, key: &Key, now: u64) -> (value: Option<Vec<u8>>)
        requires
            old(self).wf(),
        ensures
            final(self).wf(),
            final(self)@ == old(self)@.read_local(*key, now),
            match value {
                Some(v) => old(self)@.local_value(*key) == Some(v@),
                None => old(self)@.local_value(*key) is None,
            },
    {
        let ghost before = self@;
        self.store.record_request(now);
        let value = self.store.get(key);
        proof {
            lemma_read_local_wf(before, *key, now);
        }
        value
    }

    /// Replaces the limits that the resource pressure is measured against.
    pub fn override_pressure_limits(
        &mut self,
        disk_limit: usize,
        memory_limit: usize,
        request_limit: usize,
    )
        requires
            old(self).wf(),
        ensures
            final(self).wf(),
            final(self)@ == (NodeView {
                store: old(self)@.store.with_limits(
                    disk_limit as nat,
                    memory_limit as nat,
                    request_limit as nat,
                ),
                ..old(self)@
            }),
    {
        self.store.override_limits(disk_limit, memory_limit, request_limit);
    }

    /// Answers a request for the contacts nearest to a target, after taking note of who
    /// asks.
    pub fn handle_find_node_request(&mut self, from: &Contact, target: &NodeId) -> (reply: (
        Vec<Contact>,
        Option<PendingBucketUpdate>,
    ))
        requires
            old(self).wf(),
            old(self)@.can_observe(*from),
        ensures
            final(self).wf(),
            final(self)@ == old(self)@.observed(*from),
            reply.0@ == old(self)@.observed(*from).closest(*target),
            reply.1 == old(self)@.pending(*from),
            reply.1 matches Some(p) ==> p.is_for(old(self)@.id),
    {
        let pending = self.observe_contact(from.clone());
        let k = self.params.current_k();
        (self.routing.closest(target, k), pending)
    }

    /// Answers a request for a value with the value or, where it is not stored here, with the
    /// contacts nearest to its key, after taking note of who asks.
    pub fn handle_find_value_request(&mut self, from: &Contact, key: &Key, now: u64) -> (reply: (
        Option<Vec<u8>>,
        Vec<Contact>,
        Option<PendingBucketUpdate>,
    ))
        requires
            old(self).wf(),
            old(self)@.can_observe(*from),
        ensures
            final(self).wf(),
            final(self)@ == old(self)@.observed(*from).read_local(*key, now),
            match reply.0 {
                Some(v) => old(self)@.local_value(*key) == Some(v@) && reply.1@ == Seq::<
                    Contact,
                >::empty(),
                None => old(self)@.local_value(*key) is None && reply.1@ == old(self)@.observed(
                    *from,
                ).closest(*key),
            },
            reply.2 == old(self)@.pending(*from),
            reply.2 matches Some(p) ==> p.is_for(old(self)@.id),
    {
        let pending = self.observe_contact(from.clone());
        match self.get_local(key, now) {
            Some(value) => (Some(value), Vec::new(), pending),
            None => {
                let k = self.params.current_k();
                (None, self.routing.closest(key, k), pending)
            },
        }
    }

    /// Handles a request to store a value, after taking note of who asks. Returns the entries
    /// that had to leave the store for it.
    pub fn handle_store_request(&mut self, from: &Contact, key: Key, value: &Vec<u8>, now: u64) -> (reply:
        (Vec<(Key, Vec<u8>)>, Option<PendingBucketUpdate>))
        requires
            old(self).wf(),
            old(self)@.can_observe(*from),
        ensures
            final(self).wf(),
            final(self)@ == old(self)@.observed(*from).stored_local(key, value@, now),
            pairs(reply.0@) == old(self)@.observed(*from).spilled_local(key, value@, now),
            authentic(pairs(reply.0@)),
            reply.1 == old(self)@.pending(*from),
            reply.1 matches Some(p) ==> p.is_for(old(self)@.id),
    {
        let pending = self.observe_contact(from.clone());
        (self.store_local(key, value, now), pending)
    }

    /// Whether a peer is in the given tier, if one is given.
    pub fn level_matches(&self, node: &NodeId, level_filter: Option<TieringLevel>) -> (matches: bool)
        requires
            self.wf(),
        ensures
            matches == self@.matches(level_index(level_filter), *node),
    {
        match level_filter {
            Some(level) => self.tiering.level_for(node).index() == level.index(),
            None => true,
        }
    }

    /// The tier of a peer.
    pub fn level_for(&self, node: &NodeId) -> (level: TieringLevel)
        requires
            self.wf(),
        ensures
            level@ == self@.tiering.level_of(*node),
    {
        self.tiering.level_for(node)
    }

    /// The contacts that are in the given tier, if one is given.
    pub fn filter_contacts(&self, contacts: Vec<Contact>, level_filter: Option<TieringLevel>) -> (kept:
        Vec<Contact>)
        requires
            self.wf(),
        ensures
            kept@ == self@.matching(level_index(level_filter), contacts@),
    {
        let ghost level = level_index(level_filter);
        let ghost pred = |c: Contact| self@.matches(level, c.id);
        let mut kept: Vec<Contact> = Vec::new();
        proof {
            reveal(Seq::filter);
            assert(contacts@.take(0) =~= Seq::empty());
        }
        for i in 0..contacts.len()
            invariant
                self.wf(),
                level == level_index(level_filter),
                pred == (|c: Contact| self@.matches(level, c.id)),
                kept@ == contacts@.take(i as int).filter(pred),
        {
            proof {
                reveal(Seq::filter);
                assert(contacts@.take(i + 1).drop_last() =~= contacts@.take(i as int));
            }
            if self.level_matches(&contacts[i].id, level_filter) {
                kept.push(contacts[i].clone());
            }
        }
        assert(contacts@.take(contacts@.len() as int) =~= contacts@);
        kept
    }

    /// How many peers have round-trip times once there is one of `contact`. The penalty that
    /// `record_rtt` takes grows with it.
    pub fn sampled_peers_with(&self, contact: &Contact) -> (count: usize)
        requires
            self.wf(),
        ensures
            count == saturated_sum(
                averages(self@.tiering.peers).len(),
                if self@.tiering.has_samples(contact.id) {
                    0
                } else {
                    1
                },
            ),
    {
        self.tiering.sampled_peers_with(&contact.id)
    }

    /// Records a round-trip time of a contact.
    pub fn record_rtt(&mut self, contact: &Contact, elapsed: u64, now: u64, tier_penalty: u128)
        requires
            old(self).wf(),
        ensures
            final(self).wf(),
            final(self)@ == old(self)@.timed(*contact, elapsed, now, tier_penalty as nat),
    {
        if same_id(&contact.id, &self.id) {
            return;
        }
        self.tiering.record_sample(&contact.id, elapsed, now, tier_penalty);
    }

    /// Records whether remote calls succeed and adapts the bucket size and the lookup parallelism
    /// to it.
    pub fn adjust_k(&mut self, success: bool)
        requires
            old(self).wf(),
        ensures
            final(self).wf(),
            final(self)@ == old(self)@.adjusted(success),
    {
        let changed = self.params.record_churn(success);
        if changed {
            let k = self.params.current_k();
            self.routing.set_k(k);
        }
    }

    /// The current bucket size and replication factor.
    pub fn current_k(&self) -> (k: usize)
        ensures
            k == self@.params.k,
    {
        self.params.current_k()
    }

    /// The current number of candidates of a lookup round.
    pub fn current_alpha(&self) -> (alpha: usize)
        ensures
            alpha == self@.params.alpha,
    {
        self.params.current_alpha()
    }

    /// The contacts nearest to a target, as many as the current bucket size.
    pub fn closest(&self, target: &NodeId) -> (nearest: Vec<Contact>)
        ensures
            nearest@ == self@.closest(*target),
    {
        self.routing.closest(target, self.params.current_k())
    }

    /// The slowest tier.
    pub fn slowest_level(&self) -> (level: TieringLevel)
        ensures
            level@ == self@.tiering.slowest_level(),
    {
        self.tiering.slowest_level()
    }

    /// Takes note that a contact answered with other contacts: of its round-trip time, of the
    /// contact, and of those it named. Returns the updates that are left to do.
    pub fn heard_from(
        &mut self,
        contact: &Contact,
        nodes: &Vec<Contact>,
        elapsed: u64,
        now: u64,
        tier_penalty: u128,
    ) -> (pendings: Vec<PendingBucketUpdate>)
        requires
            old(self).wf(),
            old(self)@.params.k > 0,
        ensures
            final(self).wf(),
            final(self)@ == old(self)@.heard_from(
                *contact,
                nodes@,
                elapsed,
                now,
                tier_penalty as nat,
            ),
            final(self)@.params == old(self)@.params,
            pendings@ == old(self)@.timed(*contact, elapsed, now, tier_penalty as nat).pendings(
                seq![*contact] + nodes@,
            ),
            forall|i: int|
                0 <= i < pendings@.len() ==> (#[trigger] pendings@[i]).is_for(old(self)@.id),
    {
        let ghost id = self@.id;
        let ghost k = self@.params.k;
        self.record_rtt(contact, elapsed, now, tier_penalty);
        let ghost timed = self@;
        let ghost one = seq![*contact];
        let mut pendings: Vec<PendingBucketUpdate> = Vec::new();
        let first = self.observe_contact(contact.clone());
        proof {
            assert(one.drop_last() =~= Seq::empty());
            assert(timed.observed_all(Seq::empty()) == timed);
            assert(timed.pendings(Seq::empty()) == Seq::<PendingBucketUpdate>::empty());
            assert(timed.observed_all(one) == timed.observed(*contact));
        }
        match first {
            Some(p) => {
                pendings.push(p);
            },
            None => {},
        }
        assert(pendings@ =~= timed.pendings(one));
        assert(one + nodes@.take(0) =~= one);
        for i in 0..nodes.len()
            invariant
                self.wf(),
                self@.id == id,
                self@.params.k == k,
                k > 0,
                one == seq![*contact],
                self@ == timed.observed_all(one + nodes@.take(i as int)),
                pendings@ == timed.pendings(one + nodes@.take(i as int)),
                forall|j: int| 0 <= j < pendings@.len() ==> (#[trigger] pendings@[j]).is_for(id),
        {
            let ghost all = one + nodes@.take(i + 1);
            assert(all.drop_last() =~= one + nodes@.take(i as int));
            assert(all.last() == nodes@[i as int]);
            match self.observe_contact(nodes[i].clone()) {
                Some(p) => {
                    pendings.push(p);
                },
                None => {},
            }
        }
        assert(nodes@.take(nodes@.len() as int) =~= nodes@);
        proof {
            lemma_observed_all_keeps_params(timed, one + nodes@);
        }
        pendings
    }

    /// Takes note of how a request to store a value went: a contact accepted the value after
    /// `elapsed` nanoseconds, or failed to.
    pub fn on_store_result(
        &mut self,
        contact: &Contact,
        elapsed: Option<u64>,
        now: u64,
        tier_penalty: u128,
    ) -> (pending: Option<PendingBucketUpdate>)
        requires
            old(self).wf(),
        ensures
            final(self).wf(),
            match elapsed {
                Some(t) => {
                    let adapted = old(self)@.timed(*contact, t, now, tier_penalty as nat).adjusted(
                        true,
                    );
                    &&& final(self)@ == adapted.observed(*contact)
                    &&& pending == adapted.pending(*contact)
                },
                None => final(self)@ == old(self)@.adjusted(false) && pending is None,
            },
            pending matches Some(p) ==> p.is_for(old(self)@.id),
            final(self)@ == old(self)@.reported(*contact, elapsed, now, tier_penalty as nat),
            final(self)@.params.history == latest_outcomes(
                old(self)@.params.history.push(elapsed is Some),
            ),
    {
        proof {
            lemma_churned_window(self@.params, elapsed is Some);
        }
        match elapsed {
            Some(t) => {
                self.record_rtt(contact, t, now, tier_penalty);
                proof {
                    lemma_k_stays_in_range(self@.params, true);
                }
                self.adjust_k(true);
                self.observe_contact(contact.clone())
            },
            None => {
                self.adjust_k(false);
                None
            },
        }
    }

    /// What the node looks like now.
    pub fn telemetry_snapshot(&self) -> (snapshot: TelemetrySnapshot)
        ensures
            snapshot.tier_centroids@ == self@.tiering.centroids,
            snapshot.tier_counts@.len() == self@.tiering.centroids.len(),
            forall|t: int|
                0 <= t < self@.tiering.centroids.len() ==> #[trigger] snapshot.tier_counts@[t]
                    == level_count(self@.tiering.peers, t, self@.tiering.peers.len()),
            match snapshot.pressure {
                Some(p) => self@.store.pressure.pressure == Some(p as nat),
                None => self@.store.pressure.pressure is None,
            },
            snapshot.stored_keys == self@.store.entries.len(),
            snapshot.replication_factor == self@.params.k,
            snapshot.concurrency == self@.params.alpha,
    {
        let stats = self.tiering.stats();
        TelemetrySnapshot {
            tier_centroids: stats.centroids,
            tier_counts: stats.counts,
            pressure: self.store.current_pressure(),
            stored_keys: self.store.len(),
            replication_factor: self.params.current_k(),
            concurrency: self.params.current_alpha(),
        }
    }
}

/// Offering a value to the store keeps the node's invariant: what is stored, and what leaves
/// the store, are values under the keys that stand for them.
pub proof fn lemma_stored_local_wf(node: NodeView, key: Key, value: Seq<u8>, now: u64)
    requires
        node.wf(),
    ensures
        node.stored_local(key, value, now).wf(),
        authentic(node.spilled_local(key, value, now)),
{
    if blake3(value) == key {
        let store = node.store.requested(now);
        lemma_stored_or_spilled(store, key, value);
        lemma_stored_subset(store, key, value);
        let after = store.stored(key, value).entries;
        let spilled = store.spilled(key, value);
        assert forall|i: int| 0 <= i < after.len() implies blake3((#[trigger] after[i]).1)
            == after[i].0 by {
            assert(after.contains(after[i]));
            if after[i] != (key, value) {
                assert(store.entries.contains(after[i]));
            }
        }
        assert forall|i: int| 0 <= i < spilled.len() implies blake3((#[trigger] spilled[i]).1)
            == spilled[i].0 by {
            assert(spilled.contains(spilled[i]));
            if spilled[i] != (key, value) {
                assert(store.entries.contains(spilled[i]));
            }
        }
    }
}

/// Looking for a value keeps the node's invariant and every stored value.
pub proof fn lemma_read_local_wf(node: NodeView, key: Key, now: u64)
    requires
        node.wf(),
    ensures
        node.read_local(key, now).wf(),
        forall|k: Key| #[trigger]
            node.read_local(key, now).local_value(k) == node.local_value(k),
{
    let store = node.store.requested(now);
    lemma_read_wf(store, key);
    let after = store.read(key).entries;
    assert forall|i: int| 0 <= i < after.len() implies blake3((#[trigger] after[i]).1)
        == after[i].0 by {
        lemma_value_at(after, i);
        assert(value_of(after, after[i].0) == value_of(store.entries, after[i].0));
        let j = key_index(store.entries, after[i].0);
        assert(blake3(store.entries[j].1) == store.entries[j].0);
    }
}

/// A value that the store holds is the one that its key stands for.
pub proof fn lemma_local_value_is_authentic(node: NodeView, key: Key)
    requires
        node.wf(),
    ensures
        node.local_value(key) matches Some(v) ==> blake3(v) == key,
{
    if has_key(node.store.entries, key) {
        let i = key_index(node.store.entries, key);
        assert(blake3(node.store.entries[i].1) == node.store.entries[i].0);
    }
}

proof fn lemma_observed_all_keeps_params(node: NodeView, contacts: Seq<Contact>)
    ensures
        node.observed_all(contacts).params == node.params,
        node.observed_all(contacts).id == node.id,
        node.observed_all(contacts).self_contact == node.self_contact,
        node.observed_all(contacts).store == node.store,
    decreases contacts.len(),
{
    if contacts.len() > 0 {
        lemma_observed_all_keeps_params(node, contacts.drop_last());
    }
}

/// Taking note of an answer changes neither the store nor the parameters of the node.
pub proof fn lemma_heard_from(
    node: NodeView,
    contact: Contact,
    nodes: Seq<Contact>,
    elapsed: u64,
    now: u64,
    tier_penalty: nat,
)
    ensures
        ({
            let after = node.heard_from(contact, nodes, elapsed, now, tier_penalty);
            &&& after.id == node.id
            &&& after.self_contact == node.self_contact
            &&& after.store == node.store
            &&& after.params == node.params
        }),
{
    lemma_observed_all_keeps_params(
        node.timed(contact, elapsed, now, tier_penalty),
        seq![contact] + nodes,
    );
}

/// A value that was accepted is served to whoever asks for it next, unless the store is under
/// so much pressure that nothing stays in it; the value is then the last of the entries to be
/// passed on.
pub proof fn lemma_stored_value_is_served(
    node: NodeView,
    from: Contact,
    key: Key,
    value: Seq<u8>,
    now: u64,
    asker: Contact,
)
    requires
        node.wf(),
        blake3(value) == key,
    ensures
        ({
            let after = node.observed(from).stored_local(key, value, now);
            let spilled = node.observed(from).spilled_local(key, value, now);
            if after.store.entries.len() > 0 {
                after.observed(asker).local_value(key) == Some(value)
            } else {
                spilled.len() > 0 && spilled.last() == (key, value)
            }
        }),
{
    lemma_stored_or_spilled(node.store.requested(now), key, value);
}

/// A value that was put is what the node itself gets back, unless the store is under so much
/// pressure that nothing stays in it; the value is then the last of the entries to be passed
/// on.
pub proof fn lemma_put_value_is_read_back(node: NodeView, value: Seq<u8>, now: u64)
    requires
        node.wf(),
    ensures
        ({
            let key = blake3(value);
            let after = node.stored_local(key, value, now);
            let spilled = node.spilled_local(key, value, now);
            if after.store.entries.len() > 0 {
                after.local_value(key) == Some(value)
            } else {
                spilled.len() > 0 && spilled.last() == (key, value)
            }
        }),
{
    lemma_stored_or_spilled(node.store.requested(now), blake3(value), value);
}

/// A value that its key does not stand for is ignored: the node is as if it had only met the
/// sender.
pub proof fn lemma_unverified_value_is_ignored(
    node: NodeView,
    from: Contact,
    key: Key,
    value: Seq<u8>,
    now: u64,
)
    requires
        blake3(value) != key,
    ensures
        node.observed(from).stored_local(key, value, now) == node.observed(from),
        node.observed(from).spilled_local(key, value, now).len() == 0,
{
}

/// Meeting a contact keeps the node's invariant and forgets nobody. The contact is known from
/// then on, unless its bucket is full; then nobody's place changes until the oldest contact of
/// the bucket was pinged.
pub proof fn lemma_observing_forgets_nobody(node: NodeView, contact: Contact, id: NodeId)
    requires
        node.wf(),
        id != node.id,
    ensures
        node.observed(contact).wf(),
        node.routing.knows(id) ==> node.observed(contact).routing.knows(id),
        id == contact.id && node.pending(contact) is None ==> node.observed(
            contact,
        ).routing.knows(id),
        node.pending(contact) is Some ==> node.observed(contact).routing == node.routing,
{
    lemma_resized_is_same(node);
    lemma_seen_forgets_nobody(node.routing, contact, id);
    lemma_seen_wf(node.routing, contact);
    lemma_registered(node.tiering, contact.id);
}

proof fn lemma_resized_is_same(node: NodeView)
    requires
        node.wf(),
    ensures
        node.resized() == node.routing,
{
    assert forall|b: int| 0 <= b < 256 implies #[trigger] node.resized().buckets[b]
        == node.routing.buckets[b] by {
        assert(node.routing.bucket_wf(b, node.routing.buckets[b]));
    }
    assert(node.resized().buckets =~= node.routing.buckets);
}

/// Every outcome that is observed keeps the node's invariant and leaves the bucket size between
/// 10 and 30 and the number of candidates of a lookup round between 2 and 5.
pub proof fn lemma_adjusted(node: NodeView, success: bool)
    requires
        node.wf(),
    ensures
        node.adjusted(success).wf(),
        MIN_K <= node.adjusted(success).params.k <= MAX_K,
        MIN_ALPHA <= node.adjusted(success).params.alpha <= MAX_ALPHA,
        node.adjusted(success).params.history == latest_outcomes(
            node.params.history.push(success),
        ),
        node.adjusted(success).store == node.store,
        node.adjusted(success).tiering == node.tiering,
{
    lemma_k_stays_in_range(node.params, success);
    lemma_churned_window(node.params, success);
    lemma_with_k_wf(node.routing, node.params.churned(success).k);
}

/// What meeting a contact does. Meeting itself leaves a node as it was. Any other contact is a peer
/// from then on, its place in the routing table the one of a contact that was just seen, and no
/// peer's tier or round-trip times change. An update is left to do exactly if the contact is not
/// known and its bucket holds as many as the bucket size: the oldest of the bucket is to be pinged
/// then, and the contact may take its place.
pub proof fn lemma_meeting(node: NodeView, contact: Contact, id: NodeId)
    requires
        node.wf(),
    ensures
        contact.id == node.id ==> node.observed(contact) == node && node.pending(contact) is None,
        contact.id != node.id ==> {
            let after = node.observed(contact);
            let bucket = node.routing.bucket_for(contact.id);
            &&& has_peer(after.tiering.peers, id) <==> has_peer(node.tiering.peers, id) || id
                == contact.id
            &&& after.tiering.level_of(id) == node.tiering.level_of(id)
            &&& after.tiering.samples_of(id) == node.tiering.samples_of(id)
            &&& after.routing == node.routing.seen(contact)
            &&& after == (NodeView { tiering: after.tiering, routing: after.routing, ..node })
            &&& node.pending(contact) is Some <==> !node.routing.knows(contact.id) && bucket.len()
                == node.params.k
            &&& node.pending(contact) matches Some(p) ==> p.new_contact == contact && p.oldest
                == bucket[0] && p.is_for(node.id)
        },
{
    lemma_resized_is_same(node);
    lemma_registered(node.tiering, contact.id);
    lemma_registered_samples(node.tiering, contact.id);
    lemma_registered_peers(node.tiering, contact.id, id);
    if contact.id != node.id {
        lemma_bucket_covers_distance_range(node.id, contact.id);
        let b = bucket_of(node.id, contact.id) as int;
        assert(node.routing.bucket_wf(b, node.routing.buckets[b]));
        let after = node.observed(contact);
        assert(after.tiering.level_of(id) == node.tiering.level_of(id));
        assert(after.tiering.samples_of(id) == node.tiering.samples_of(id));
    }
}

/// What measuring a round-trip time does. The time is the latest that is known of the contact, and
/// no other peer's times change; neither do the routing table, the values and the parameters. The
/// tiers are computed anew if that is due, and else stay as they are. A node takes no times of
/// itself.
pub proof fn lemma_timing(
    node: NodeView,
    contact: Contact,
    elapsed: u64,
    now: u64,
    tier_penalty: nat,
    id: NodeId,
)
    requires
        node.wf(),
        node.tiering.peers.len() < usize::MAX,
    ensures
        ({
            let after = node.timed(contact, elapsed, now, tier_penalty);
            &&& after.wf()
            &&& after.tiering.peers.len() <= node.tiering.peers.len() + 1
            &&& after == (NodeView { tiering: after.tiering, ..node })
            &&& contact.id == node.id ==> after == node
            &&& contact.id != node.id ==> {
                &&& has_peer(after.tiering.peers, contact.id)
                &&& after.tiering.samples_of(contact.id).len() > 0
                &&& after.tiering.samples_of(contact.id).last() == elapsed
            }
            &&& id != contact.id ==> after.tiering.samples_of(id) == node.tiering.samples_of(id)
            &&& has_peer(node.tiering.peers, id) ==> has_peer(after.tiering.peers, id)
            &&& contact.id != node.id ==> {
                let sampled = node.tiering.sampled(contact.id, elapsed);
                if sampled.is_due(now) {
                    after.tiering.last_recompute == Some(now)
                } else {
                    after.tiering == sampled
                }
            }
        }),
{
    if contact.id != node.id {
        let sampled = node.tiering.sampled(contact.id, elapsed);
        lemma_samples_keep_latest(node.tiering, contact.id, elapsed);
        lemma_sampled_wf(node.tiering, contact.id, elapsed);
        lemma_sampled_peers(node.tiering, contact.id, elapsed, id);
        lemma_recomputed(sampled, now, tier_penalty);
        lemma_recomputed_samples(sampled, now, tier_penalty, contact.id);
        lemma_recomputed_samples(sampled, now, tier_penalty, id);
        let kept = sampled.samples_of(contact.id);
        assert(kept[kept.len() - 1] == elapsed);
    }
}

/// Whether an update that is left to do would add this contact.
pub open spec fn is_pending(pendings: Seq<PendingBucketUpdate>, contact: Contact) -> bool {
    exists|p: int| 0 <= p < pendings.len() && (#[trigger] pendings[p]).new_contact == contact
}

/// Everybody is met: each of some contacts other than the node itself is a peer afterwards, and is
/// in the routing table or waits for a place in it. Nobody who was known is forgotten.
pub proof fn lemma_everybody_is_met(node: NodeView, contacts: Seq<Contact>, i: int, id: NodeId)
    requires
        node.wf(),
        0 <= i < contacts.len() ==> contacts[i].id != node.id,
        id != node.id,
    ensures
        node.observed_all(contacts).wf(),
        node.observed_all(contacts).id == node.id,
        0 <= i < contacts.len() ==> {
            let after = node.observed_all(contacts);
            &&& has_peer(after.tiering.peers, contacts[i].id)
            &&& after.routing.knows(contacts[i].id) || is_pending(
                node.pendings(contacts),
                contacts[i],
            )
        },
        node.routing.knows(id) ==> node.observed_all(contacts).routing.knows(id),
        has_peer(node.tiering.peers, id) ==> has_peer(
            node.observed_all(contacts).tiering.peers,
            id,
        ),
        node.observed_all(contacts).tiering.samples_of(id) == node.tiering.samples_of(id),
        node.observed_all(contacts).tiering.level_of(id) == node.tiering.level_of(id),
        node.pendings(contacts).len() <= contacts.len(),
    decreases contacts.len(),
{
    if contacts.len() > 0 {
        let front = contacts.drop_last();
        let here = node.observed_all(front);
        let last = contacts.last();
        lemma_everybody_is_met(node, front, i, id);
        lemma_meeting(here, last, id);
        lemma_observing_forgets_nobody(here, last, id);
        let pendings = node.pendings(contacts);
        if 0 <= i < front.len() {
            lemma_meeting(here, last, contacts[i].id);
            lemma_observing_forgets_nobody(here, last, contacts[i].id);
            if is_pending(node.pendings(front), contacts[i]) {
                let p = choose|p: int|
                    0 <= p < node.pendings(front).len() && (#[trigger] node.pendings(
                        front,
                    )[p]).new_contact == contacts[i];
                assert(pendings[p].new_contact == contacts[i]);
            }
        } else if i == contacts.len() - 1 {
            lemma_meeting(here, last, last.id);
            lemma_observing_forgets_nobody(here, last, last.id);
            if here.pending(last) is Some {
                assert(pendings[pendings.len() - 1].new_contact == last);
            }
        }
    }
}

/// An answer is taken note of in full: of the round-trip time, which is the latest that is known of
/// the contact, and of the contact and everybody whom it named, who are peers from then on, and in
/// the routing table unless their place is yet to be decided. Nobody who was known is forgotten.
pub proof fn lemma_answer_is_noted(
    node: NodeView,
    contact: Contact,
    nodes: Seq<Contact>,
    elapsed: u64,
    now: u64,
    tier_penalty: nat,
    met: Contact,
    id: NodeId,
)
    requires
        node.wf(),
        node.tiering.peers.len() < usize::MAX,
        met == contact || nodes.contains(met),
        met.id != node.id,
        id != node.id,
    ensures
        ({
            let after = node.heard_from(contact, nodes, elapsed, now, tier_penalty);
            let pendings = node.timed(contact, elapsed, now, tier_penalty).pendings(
                seq![contact] + nodes,
            );
            &&& after.wf()
            &&& has_peer(after.tiering.peers, met.id)
            &&& after.routing.knows(met.id) || is_pending(pendings, met)
            &&& node.routing.knows(id) ==> after.routing.knows(id)
            &&& contact.id != node.id ==> after.tiering.samples_of(contact.id).len() > 0
                && after.tiering.samples_of(contact.id).last() == elapsed
            &&& id != contact.id ==> after.tiering.samples_of(id) == node.tiering.samples_of(id)
        }),
{
    let all = seq![contact] + nodes;
    let timed = node.timed(contact, elapsed, now, tier_penalty);
    lemma_timing(node, contact, elapsed, now, tier_penalty, id);
    let i = if met == contact {
        0
    } else {
        let j = choose|j: int| 0 <= j < nodes.len() && nodes[j] == met;
        assert(all[j + 1] == met);
        j + 1
    };
    assert(all[i] == met);
    lemma_everybody_is_met(timed, all, i, id);
    if contact.id != node.id {
        lemma_everybody_is_met(timed, all, i, contact.id);
    }
}

/// The outcome of every request to store is remembered as the latest, and a contact that accepted
/// a value was met and timed; one that failed to is not forgotten on that account alone: only the
/// parameters and the bucket size change.
pub proof fn lemma_store_outcome_is_noted(
    node: NodeView,
    contact: Contact,
    elapsed: Option<u64>,
    now: u64,
    tier_penalty: nat,
)
    requires
        node.wf(),
        node.tiering.peers.len() < usize::MAX,
    ensures
        ({
            let after = node.reported(contact, elapsed, now, tier_penalty);
            &&& after.wf()
            &&& after.store == node.store
            &&& after.params.history == latest_outcomes(node.params.history.push(elapsed is Some))
            &&& elapsed is None ==> after.tiering == node.tiering && after.routing
                == node.routing.with_k(after.params.k)
            &&& elapsed matches Some(t) ==> (contact.id != node.id ==> {
                &&& has_peer(after.tiering.peers, contact.id)
                &&& after.tiering.samples_of(contact.id).len() > 0
                &&& after.tiering.samples_of(contact.id).last() == t
                &&& after.routing == node.routing.with_k(after.params.k).seen(contact)
            })
        }),
{
    match elapsed {
        Some(t) => {
            let timed = node.timed(contact, t, now, tier_penalty);
            lemma_timing(node, contact, t, now, tier_penalty, contact.id);
            lemma_adjusted(timed, true);
            lemma_resized_is_same(timed);
            lemma_meeting(timed.adjusted(true), contact, contact.id);
            lemma_observing_wf(timed.adjusted(true), contact);
        },
        None => {
            lemma_adjusted(node, false);
            lemma_resized_is_same(node);
        },
    }
}

/// Meeting a contact keeps the node's invariant.
pub proof fn lemma_observing_wf(node: NodeView, contact: Contact)
    requires
        node.wf(),
    ensures
        node.observed(contact).wf(),
{
    if contact.id != node.id {
        lemma_observing_forgets_nobody(node, contact, contact.id);
    }
}

/// Every look into the store counts as a request at that moment, and so does every value that is
/// offered, if its key stands for it.
pub proof fn lemma_local_access_is_a_request(node: NodeView, key: Key, value: Seq<u8>, now: u64)
    ensures
        ({
            let requests = node.read_local(key, now).store.pressure.requests;
            requests.len() > 0 && requests.last() == now
        }),
        blake3(value) == key ==> {
            let requests = node.stored_local(key, value, now).store.pressure.requests;
            requests.len() > 0 && requests.last() == now
        },
{
    lemma_new_request_counts(node.store.pressure, now);
    lemma_stored_keeps_requests(node.store.requested(now), key, value);
}

} // verus!
