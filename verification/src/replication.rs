//! Passing values on to other nodes.
//!
//! A value goes to the nodes nearest to its key, found by a lookup. Values that had to leave
//! the local store go to nodes of the slowest tier first. As with a lookup, `next` says what
//! to send, and the outcome is reported back.

use std::collections::VecDeque;
use vstd::prelude::*;
use vstd::slice::slice_to_vec;

use crate::adaptive::latest_outcomes;
use crate::contact::{has_id, Contact};
use crate::hash::{blake3, hash_content, Key, NodeId};
use crate::lookup::{
    all_satisfy, lemma_answer_adds_what_it_names, lemma_answered, lemma_answered_among,
    lemma_finished_wf, lemma_lookup_is_recorded, lemma_polled, lemma_polled_among,
    lemma_started_among, lemma_started_wf, LookupView, NodeLookup,
};
use crate::node::{
    authentic, lemma_heard_from, lemma_stored_local_wf, level_index, DhtNode, NodeView,
};
use crate::order::first_of;
use crate::routing::PendingBucketUpdate;
use crate::store::{lemma_stored_subset, pairs};
use crate::tiering::TieringLevel;

verus! {

/// Something to send to another node.
#[derive(Debug)]
pub enum Request {
    /// Ask a contact for the contacts nearest to a target.
    FindNode { to: Contact, target: NodeId },
    /// Ask a contact to store a value.
    Store { to: Contact, key: Key, value: Vec<u8> },
}

/// What a request says.
pub enum RequestView {
    /// Ask a contact for the contacts nearest to a target.
    FindNode { to: Contact, target: NodeId },
    /// Ask a contact to store a value.
    Store { to: Contact, key: Key, value: Seq<u8> },
}

impl View for Request {
    type V = RequestView;

    open spec fn view(&self) -> RequestView {
        match self {
            Request::FindNode { to, target } => RequestView::FindNode { to: *to, target: *target },
            Request::Store { to, key, value } => RequestView::Store {
                to: *to,
                key: *key,
                value: value@,
            },
        }
    }
}

/// What an optional request says.
pub open spec fn request_view(request: Option<Request>) -> Option<RequestView> {
    match request {
        Some(r) => Some(r@),
        None => None,
    }
}

/// Whether a request is about a value: it asks for the contacts nearest to the key, or to store
/// the value under the key.
pub open spec fn carries(request: RequestView, about: Key, content: Seq<u8>) -> bool {
    match request {
        RequestView::FindNode { to, target } => target == about,
        RequestView::Store { to, key, value } => key == about && value == content,
    }
}

/// Whom a request goes to.
pub open spec fn recipient(request: RequestView) -> Contact {
    match request {
        RequestView::FindNode { to, target } => to,
        RequestView::Store { to, key, value } => to,
    }
}

/// What a replication holds.
#[verifier::ext_equal]
pub struct ReplicationView {
    /// The key of the value.
    pub key: Key,
    /// The value.
    pub value: Seq<u8>,
    /// The lookup of the nodes to send it to.
    pub lookup: LookupView,
    /// The nodes it is still to be sent to, once the lookup is over.
    pub targets: Option<Seq<Contact>>,
}

impl ReplicationView {
    /// The lookup is for the key, which stands for the value.
    pub open spec fn wf(self) -> bool {
        &&& self.lookup.wf()
        &&& self.lookup.target == self.key
        &&& blake3(self.value) == self.key
    }

    /// A replication that starts with a lookup from the contacts that a node knows.
    pub open spec fn started(node: NodeView, item: ItemView) -> ReplicationView {
        ReplicationView {
            key: item.key,
            value: item.value,
            lookup: LookupView::started(node, item.key, item.level),
            targets: None,
        }
    }

    /// The replication once the next store request was taken from it, and that request.
    pub open spec fn sent(self, targets: Seq<Contact>) -> (ReplicationView, Option<RequestView>) {
        if targets.len() == 0 {
            (ReplicationView { targets: Some(targets), ..self }, None)
        } else {
            (
                ReplicationView { targets: Some(targets.drop_first()), ..self },
                Some(RequestView::Store { to: targets[0], key: self.key, value: self.value }),
            )
        }
    }

    /// The replication and the node once it was asked what to send, and the answer. The lookup
    /// comes first. Once it is over, and the bucket size is adapted to how it went, the value
    /// goes to as many of the nodes found as the bucket size.
    pub open spec fn polled(self, node: NodeView) -> (ReplicationView, NodeView, Option<RequestView>) {
        match self.targets {
            Some(targets) => {
                let (after, request) = self.sent(targets);
                (after, node, request)
            },
            None => {
                let (lookup, contact) = self.lookup.polled(node);
                let here = ReplicationView { lookup, ..self };
                match contact {
                    Some(to) => (
                        here,
                        node,
                        Some(RequestView::FindNode { to, target: self.key }),
                    ),
                    None => {
                        let adapted = lookup.finished(node);
                        let (after, request) = here.sent(
                            first_of(lookup.shortlist, adapted.params.k),
                        );
                        (after, adapted, request)
                    },
                }
            },
        }
    }
}

/// A value being passed on to the nodes nearest to its key.
pub struct Replication {
    key: Key,
    value: Vec<u8>,
    lookup: NodeLookup,
    targets: Option<VecDeque<Contact>>,
}

impl View for Replication {
    type V = ReplicationView;

    closed spec fn view(&self) -> ReplicationView {
        ReplicationView {
            key: self.key,
            value: self.value@,
            lookup: self.lookup@,
            targets: match self.targets {
                Some(t) => Some(t@),
                None => None,
            },
        }
    }
}

fn first_contacts(contacts: &Vec<Contact>, n: usize) -> (first: VecDeque<Contact>)
    ensures
        first@ == first_of(contacts@, n as nat),
{
    let mut first: VecDeque<Contact> = VecDeque::new();
    let mut i: usize = 0;
    while i < contacts.len() && i < n
        invariant
            i <= contacts@.len(),
            i <= n,
            first@ == contacts@.take(i as int),
        decreases contacts@.len() - i,
    {
        first.push_back(contacts[i].clone());
        i = i + 1;
        assert(contacts@.take(i as int) =~= contacts@.take(i - 1).push(contacts@[i - 1]));
    }
    assert(contacts@.take(contacts@.len() as int) =~= contacts@);
    first
}

impl Replication {
    /// The replication's invariant.
    pub open spec fn wf(&self) -> bool {
        self@.wf()
    }

    /// Starts passing on a value to nodes of a tier, if one is given.
    pub fn start(node: &DhtNode, key: Key, value: Vec<u8>, level_filter: Option<TieringLevel>) -> (replication:
        Self)
        requires
            node.wf(),
            blake3(value@) == key,
        ensures
            replication.wf(),
            replication@ == ReplicationView::started(
                node@,
                (ItemView { key, value: value@, level: level_index(level_filter) }),
            ),
    {
        let lookup = NodeLookup::start(node, &key, level_filter);
        Replication { key, value, lookup, targets: None }
    }

    fn send(&mut self) -> (request: Option<Request>)
        requires
            old(self).wf(),
            old(self)@.targets is Some,
        ensures
            final(self).wf(),
            (final(self)@, request_view(request)) == old(self)@.sent(old(self)@.targets->0),
    {
        let ghost before = self@;
        let ghost targets = before.targets->0;
        let taken = match &mut self.targets {
            Some(left) => left.pop_front(),
            None => None,
        };
        match taken {
            Some(to) => {
                let request = Request::Store {
                    to,
                    key: self.key,
                    value: slice_to_vec(self.value.as_slice()),
                };
                assert(self@.targets->0 =~= targets.drop_first());
                assert(self@ =~= (ReplicationView {
                    targets: Some(targets.drop_first()),
                    ..before
                }));
                Some(request)
            },
            None => {
                assert(self@.targets->0 =~= targets);
                assert(self@ =~= before);
                None
            },
        }
    }

    /// Says what to send next; nothing once the value was sent to everybody.
    pub fn next(&mut self, node: &mut DhtNode) -> (request: Option<Request>)
        requires
            old(self).wf(),
            old(node).wf(),
        ensures
            final(self).wf(),
            final(node).wf(),
            (final(self)@, final(node)@, request_view(request)) == old(self)@.polled(old(node)@),
            request_view(request) matches Some(r) ==> carries(r, old(self)@.key, old(self)@.value),
    {
        let ghost before = self@;
        if self.targets.is_some() {
            return self.send();
        }
        proof {
            lemma_polled(before.lookup, node@);
        }
        match self.lookup.next(node) {
            Some(to) => Some(Request::FindNode { to, target: self.key }),
            None => {
                self.lookup.conclude(node);
                let k = node.current_k();
                self.targets = Some(first_contacts(self.lookup.contacts(), k));
                self.send()
            },
        }
    }

    /// Takes note of the contacts that a contact answered with.
    pub fn on_response(
        &mut self,
        node: &mut DhtNode,
        contact: &Contact,
        nodes: &Vec<Contact>,
        elapsed: u64,
        now: u64,
        tier_penalty: u128,
    ) -> (pendings: Vec<PendingBucketUpdate>)
        requires
            old(self).wf(),
            old(node).wf(),
            old(node)@.params.k > 0,
        ensures
            final(self).wf(),
            final(node).wf(),
            final(node)@ == old(node)@.heard_from(
                *contact,
                nodes@,
                elapsed,
                now,
                tier_penalty as nat,
            ),
            final(node)@.params == old(node)@.params,
            final(self)@ == (ReplicationView {
                lookup: old(self)@.lookup.answered(final(node)@, nodes@),
                ..old(self)@
            }),
            pendings@ == old(node)@.timed(*contact, elapsed, now, tier_penalty as nat).pendings(
                seq![*contact] + nodes@,
            ),
            forall|i: int|
                0 <= i < pendings@.len() ==> (#[trigger] pendings@[i]).is_for(old(node)@.id),
    {
        let ghost was = node@;
        let ghost before = self@;
        let pendings = self.lookup.on_response(node, contact, nodes, elapsed, now, tier_penalty);
        proof {
            lemma_heard_from(was, *contact, nodes@, elapsed, now, tier_penalty as nat);
            lemma_answered(before.lookup, node@, nodes@);
        }
        pendings
    }

    /// Takes note that a contact failed to answer with contacts.
    pub fn on_failure(&mut self)
        requires
            old(self).wf(),
        ensures
            final(self).wf(),
            final(self)@ == (ReplicationView {
                lookup: old(self)@.lookup.refused(),
                ..old(self)@
            }),
    {
        self.lookup.on_failure();
    }
}

/// A value that waits to be passed on.
#[verifier::ext_equal]
pub struct ItemView {
    /// The key of the value.
    pub key: Key,
    /// The value.
    pub value: Seq<u8>,
    /// The tier of the nodes to pass it on to, if any.
    pub level: Option<nat>,
}

impl ItemView {
    /// The key stands for the value.
    pub open spec fn wf(self) -> bool {
        blake3(self.value) == self.key
    }
}

/// The entries that left a store, to be passed on to nodes of a tier.
pub open spec fn items(entries: Seq<(Key, Seq<u8>)>, level: nat) -> Seq<ItemView> {
    Seq::new(
        entries.len(),
        |i: int| ItemView { key: entries[i].0, value: entries[i].1, level: Some(level) },
    )
}

/// Whether all values are to be passed on to nodes of a tier, and to no others.
pub open spec fn all_for_tier(waiting: Seq<ItemView>, tier: nat) -> bool {
    forall|i: int| 0 <= i < waiting.len() ==> (#[trigger] waiting[i]).level == Some(tier)
}

/// What an upload holds.
#[verifier::ext_equal]
pub struct UploadView {
    /// The values that wait for their turn.
    pub waiting: Seq<ItemView>,
    /// The value that is being passed on.
    pub current: Option<ReplicationView>,
}

impl UploadView {
    /// All values are the ones that their keys stand for.
    pub open spec fn wf(self) -> bool {
        &&& forall|i: int| 0 <= i < self.waiting.len() ==> (#[trigger] self.waiting[i]).wf()
        &&& self.current matches Some(r) ==> r.wf()
    }

    /// The upload and the node once it was asked what to send, and the answer. The values are
    /// passed on one after the other, each one's lookup starting when its turn comes.
    pub open spec fn polled(self, node: NodeView) -> (UploadView, NodeView, Option<RequestView>)
        decreases
                self.waiting.len(),
                if self.current is Some {
                    1nat
                } else {
                    0nat
                },
    {
        match self.current {
            Some(replication) => {
                let (after, adapted, request) = replication.polled(node);
                if request is Some {
                    (UploadView { current: Some(after), ..self }, adapted, request)
                } else {
                    (UploadView { current: None, ..self }).polled(adapted)
                }
            },
            None => if self.waiting.len() == 0 {
                (self, node, None)
            } else {
                (UploadView {
                    waiting: self.waiting.drop_first(),
                    current: Some(ReplicationView::started(node, self.waiting[0])),
                }).polled(node)
            },
        }
    }
}

impl UploadView {
    /// The upload once a contact answered the value's lookup with contacts.
    pub open spec fn answered(self, node: NodeView, nodes: Seq<Contact>) -> UploadView {
        UploadView {
            current: match self.current {
                Some(r) => Some(ReplicationView { lookup: r.lookup.answered(node, nodes), ..r }),
                None => None,
            },
            ..self
        }
    }

    /// The upload once a contact failed to answer the value's lookup.
    pub open spec fn refused(self) -> UploadView {
        UploadView {
            current: match self.current {
                Some(r) => Some(ReplicationView { lookup: r.lookup.refused(), ..r }),
                None => None,
            },
            ..self
        }
    }
}

struct Item {
    key: Key,
    value: Vec<u8>,
    level: Option<TieringLevel>,
}

impl View for Item {
    type V = ItemView;

    closed spec fn view(&self) -> ItemView {
        ItemView { key: self.key, value: self.value@, level: level_index(self.level) }
    }
}

/// Values being passed on to other nodes, one after the other.
pub struct Upload {
    waiting: VecDeque<Item>,
    current: Option<Replication>,
}

impl View for Upload {
    type V = UploadView;

    closed spec fn view(&self) -> UploadView {
        UploadView {
            waiting: Seq::new(self.waiting@.len(), |i: int| self.waiting@[i]@),
            current: match self.current {
                Some(r) => Some(r@),
                None => None,
            },
        }
    }
}

impl Upload {
    /// The upload's invariant.
    pub open spec fn wf(&self) -> bool {
        self@.wf()
    }

    /// Nothing to pass on.
    pub fn empty() -> (upload: Self)
        ensures
            upload.wf(),
            upload@ == (UploadView { waiting: Seq::empty(), current: None }),
    {
        let upload = Upload { waiting: VecDeque::new(), current: None };
        assert(upload@.waiting =~= Seq::empty());
        upload
    }

    fn queue(spilled: Vec<(Key, Vec<u8>)>, level: TieringLevel) -> (upload: Self)
        requires
            authentic(pairs(spilled@)),
        ensures
            upload.wf(),
            upload@ == (UploadView { waiting: items(pairs(spilled@), level@), current: None }),
            all_for_tier(upload@.waiting, level@),
    {
        let mut waiting: VecDeque<Item> = VecDeque::new();
        for i in 0..spilled.len()
            invariant
                waiting@.len() == i,
                forall|j: int|
                    0 <= j < i ==> (#[trigger] waiting@[j])@ == items(pairs(spilled@), level@)[j],
        {
            waiting.push_back(
                Item {
                    key: spilled[i].0,
                    value: slice_to_vec(spilled[i].1.as_slice()),
                    level: Some(level),
                },
            );
        }
        let upload = Upload { waiting, current: None };
        proof {
            assert(upload@.waiting =~= items(pairs(spilled@), level@));
            assert forall|i: int| 0 <= i < upload@.waiting.len() implies (
            #[trigger] upload@.waiting[i]).wf() by {
                assert(blake3(pairs(spilled@)[i].1) == pairs(spilled@)[i].0);
            }
        }
        upload
    }

    /// Says what to send next; nothing once everything was sent to everybody.
    pub fn next(&mut self, node: &mut DhtNode) -> (request: Option<Request>)
        requires
            old(self).wf(),
            old(node).wf(),
        ensures
            final(self).wf(),
            final(node).wf(),
            (final(self)@, final(node)@, request_view(request)) == old(self)@.polled(old(node)@),
    {
        let ghost goal = self@.polled(node@);
        loop
            invariant
                self.wf(),
                node.wf(),
                goal == old(self)@.polled(old(node)@),
                goal == self@.polled(node@),
            decreases
                    self@.waiting.len(),
                    if self@.current is Some {
                        1nat
                    } else {
                        0nat
                    },
        {
            let ghost here = self@;
            match self.current.take() {
                Some(replication) => {
                    let mut replication = replication;
                    let request = replication.next(node);
                    if request.is_some() {
                        self.current = Some(replication);
                        assert(self@ =~= (UploadView { current: Some(replication@), ..here }));
                        return request;
                    }
                    assert(self@ =~= (UploadView { current: None, ..here }));
                },
                None => match self.waiting.pop_front() {
                    Some(item) => {
                        proof {
                            assert(here.waiting[0] == item@);
                            assert(here.waiting[0].wf());
                            assert forall|i: int| 0 <= i < self@.waiting.len() implies (
                            #[trigger] self@.waiting[i]).wf() by {
                                assert(self@.waiting[i] == here.waiting[i + 1]);
                            }
                        }
                        self.current = Some(
                            Replication::start(node, item.key, item.value, item.level),
                        );
                        assert(self@ =~= (UploadView {
                            waiting: here.waiting.drop_first(),
                            current: Some(ReplicationView::started(node@, here.waiting[0])),
                        }));
                    },
                    None => {
                        assert(self@ =~= here);
                        return None;
                    },
                },
            }
        }
    }

    /// Takes note of the contacts that a contact answered with.
    pub fn on_response(
        &mut self,
        node: &mut DhtNode,
        contact: &Contact,
        nodes: &Vec<Contact>,
        elapsed: u64,
        now: u64,
        tier_penalty: u128,
    ) -> (pendings: Vec<PendingBucketUpdate>)
        requires
            old(self).wf(),
            old(node).wf(),
            old(node)@.params.k > 0,
        ensures
            final(self).wf(),
            final(node).wf(),
            final(node)@ == old(node)@.heard_from(
                *contact,
                nodes@,
                elapsed,
                now,
                tier_penalty as nat,
            ),
            final(node)@.params == old(node)@.params,
            final(self)@ == old(self)@.answered(final(node)@, nodes@),
            final(self)@ == (UploadView {
                current: match old(self)@.current {
                    Some(r) => Some(
                        ReplicationView { lookup: r.lookup.answered(final(node)@, nodes@), ..r },
                    ),
                    None => None,
                },
                ..old(self)@
            }),
            pendings@ == old(node)@.timed(*contact, elapsed, now, tier_penalty as nat).pendings(
                seq![*contact] + nodes@,
            ),
            forall|i: int|
                0 <= i < pendings@.len() ==> (#[trigger] pendings@[i]).is_for(old(node)@.id),
    {
        match &mut self.current {
            Some(replication) => replication.on_response(
                node,
                contact,
                nodes,
                elapsed,
                now,
                tier_penalty,
            ),
            None => node.heard_from(contact, nodes, elapsed, now, tier_penalty),
        }
    }

    /// Takes note that a contact failed to answer with contacts.
    pub fn on_lookup_failure(&mut self)
        requires
            old(self).wf(),
        ensures
            final(self).wf(),
            final(self)@ == old(self)@.refused(),
            final(self)@ == (UploadView {
                current: match old(self)@.current {
                    Some(r) => Some(ReplicationView { lookup: r.lookup.refused(), ..r }),
                    None => None,
                },
                ..old(self)@
            }),
    {
        match &mut self.current {
            Some(replication) => {
                replication.on_failure();
            },
            None => {},
        }
    }
}

impl NodeView {
    /// The values that are to be passed on once a value was put: the entries that leave the store
    /// for it, and then the value itself.
    pub open spec fn to_replicate(self, value: Seq<u8>, now: u64) -> UploadView {
        UploadView {
            waiting: items(
                self.spilled_local(blake3(value), value, now),
                self.tiering.slowest_level(),
            ).push(ItemView { key: blake3(value), value, level: None }),
            current: None,
        }
    }
}

impl DhtNode {
    /// Starts passing on the entries that had to leave the store to nodes of the slowest tier.
    pub fn offload_spilled(&self, spilled: Vec<(Key, Vec<u8>)>) -> (upload: Upload)
        requires
            authentic(pairs(spilled@)),
        ensures
            upload.wf(),
            upload@ == (UploadView {
                waiting: items(pairs(spilled@), self@.tiering.slowest_level()),
                current: None,
            }),
            all_for_tier(upload@.waiting, self@.tiering.slowest_level()),
    {
        Upload::queue(spilled, self.slowest_level())
    }

    /// Stores a value here and starts passing it on to the nodes nearest to its key, after the
    /// entries that had to leave the store for it. Returns the key: the digest of the value.
    pub fn put(&mut self, value: Vec<u8>, now: u64) -> (result: (Key, Upload))
        requires
            old(self).wf(),
        ensures
            final(self).wf(),
            final(self)@ == old(self)@.stored_local(blake3(value@), value@, now),
            result.0 == blake3(value@),
            result.1.wf(),
            result.1@ == (UploadView {
                waiting: items(
                    old(self)@.spilled_local(blake3(value@), value@, now),
                    old(self)@.tiering.slowest_level(),
                ).push(ItemView { key: blake3(value@), value: value@, level: None }),
                current: None,
            }),
            result.1@ == old(self)@.to_replicate(value@, now),
            all_for_tier(
                result.1@.waiting.drop_last(),
                old(self)@.tiering.slowest_level(),
            ),
            result.1@.waiting.last().level is None,
    {
        let key = hash_content(value.as_slice());
        let spilled = self.store_local(key, &value, now);
        let mut upload = self.offload_spilled(spilled);
        let ghost before = upload@;
        upload.waiting.push_back(Item { key, value, level: None });
        proof {
            let all = before.waiting.push(
                ItemView { key: blake3(value@), value: value@, level: None },
            );
            assert(upload@.waiting =~= all);
            assert(all.drop_last() =~= before.waiting);
            assert forall|i: int| 0 <= i < all.len() implies (#[trigger] all[i]).wf() by {
                if i < before.waiting.len() {
                    assert(before.waiting[i].wf());
                }
            }
        }
        (key, upload)
    }
}

/// Whether a request to store, if this is one, carries a value that its key stands for.
pub open spec fn is_authentic(request: Option<RequestView>) -> bool {
    request matches Some(RequestView::Store { to, key, value }) ==> blake3(value) == key
}

/// Only values that their keys stand for are passed on.
pub proof fn lemma_only_authentic_values_are_sent(upload: UploadView, node: NodeView)
    requires
        upload.wf(),
        node.wf(),
    ensures
        is_authentic(upload.polled(node).2),
    decreases
            upload.waiting.len(),
            if upload.current is Some {
                1nat
            } else {
                0nat
            },
{
    match upload.current {
        Some(replication) => {
            let (after, adapted, request) = replication.polled(node);
            if request is None {
                if replication.targets is None {
                    lemma_finished_wf(
                        replication.lookup.polled(node).0,
                        node,
                    );
                }
                lemma_only_authentic_values_are_sent(
                    UploadView { current: None, ..upload },
                    adapted,
                );
            }
        },
        None => {
            if upload.waiting.len() > 0 {
                let next = UploadView {
                    waiting: upload.waiting.drop_first(),
                    current: Some(ReplicationView::started(node, upload.waiting[0])),
                };
                assert(upload.waiting[0].wf());
                lemma_started_wf(node, upload.waiting[0].key, upload.waiting[0].level);
                assert forall|i: int| 0 <= i < next.waiting.len() implies (
                #[trigger] next.waiting[i]).wf() by {
                    assert(upload.waiting[i + 1].wf());
                }
                lemma_only_authentic_values_are_sent(next, node);
            }
        },
    }
}

impl ReplicationView {
    /// The requests of `n` polls of a replication whose lookup is over, and the replication
    /// after them.
    pub open spec fn sends(self, node: NodeView, n: nat) -> (ReplicationView, Seq<RequestView>)
        decreases n,
    {
        if n == 0 {
            (self, Seq::empty())
        } else {
            let (here, before) = self.sends(node, (n - 1) as nat);
            let (after, _, request) = here.polled(node);
            (
                after,
                match request {
                    Some(r) => before.push(r),
                    None => before,
                },
            )
        }
    }
}

/// Once the lookup is over, the value is sent to each of the chosen nodes, in their order, once.
pub proof fn lemma_sends_to_each_target_once(
    replication: ReplicationView,
    node: NodeView,
    targets: Seq<Contact>,
)
    requires
        replication.targets == Some(targets),
    ensures
        ({
            let (after, requests) = replication.sends(node, targets.len());
            &&& requests == stores(replication, targets)
            &&& after.polled(node).2 is None
        }),
{
    lemma_sends(replication, node, targets, targets.len());
    assert(targets.take(targets.len() as int) =~= targets);
}

/// The store requests that send the value of a replication to some nodes.
pub open spec fn stores(replication: ReplicationView, targets: Seq<Contact>) -> Seq<RequestView> {
    Seq::new(
        targets.len(),
        |i: int|
            RequestView::Store {
                to: targets[i],
                key: replication.key,
                value: replication.value,
            },
    )
}

/// A value goes to the nodes nearest to its key, out of all that the lookup found, nearest
/// first: as many as the bucket size is when the lookup is over.
pub proof fn lemma_replicates_to_the_nearest(replication: ReplicationView, node: NodeView)
    requires
        replication.wf(),
        replication.targets is None,
        replication.lookup.polled(node).1 is None,
    ensures
        ({
            let lookup = replication.lookup.polled(node).0;
            let targets = first_of(lookup.shortlist, lookup.finished(node).params.k);
            let (after, adapted, request) = replication.polled(node);
            &&& targets.len() <= adapted.params.k
            &&& targets.len() == 0 ==> request is None
            &&& targets.len() > 0 ==> request == Some(stores(replication, targets)[0])
                && after.sends(adapted, (targets.len() - 1) as nat).1 == stores(
                replication,
                targets,
            ).drop_first()
        }),
{
    let lookup = replication.lookup.polled(node).0;
    let targets = first_of(lookup.shortlist, lookup.finished(node).params.k);
    let (after, adapted, request) = replication.polled(node);
    if targets.len() > 0 {
        lemma_sends_to_each_target_once(after, adapted, targets.drop_first());
        assert(stores(after, targets.drop_first()) =~= stores(replication, targets).drop_first());
    }
}

proof fn lemma_sends(
    replication: ReplicationView,
    node: NodeView,
    targets: Seq<Contact>,
    n: nat,
)
    requires
        replication.targets == Some(targets),
        n <= targets.len(),
    ensures
        replication.sends(node, n).0 == (ReplicationView {
            targets: Some(targets.skip(n as int)),
            ..replication
        }),
        replication.sends(node, n).1 == stores(replication, targets.take(n as int)),
    decreases n,
{
    if n == 0 {
        assert(targets.skip(0) =~= targets);
        assert(replication.sends(node, 0).1 =~= stores(replication, targets.take(0)));
    } else {
        let m = (n - 1) as nat;
        lemma_sends(replication, node, targets, m);
        assert(targets.skip(m as int).drop_first() =~= targets.skip(n as int));
        assert(replication.sends(node, n).1 =~= stores(replication, targets.take(n as int)));
    }
}

/// Whoever a replication asks is asked for the nodes nearest to the key of the value that is
/// passed on, which is also what its lookup is for; it is the contact that the lookup says to ask.
/// Whatever it sends to be stored is that value, under that key.
pub proof fn lemma_asks_for_the_key(replication: ReplicationView, node: NodeView)
    requires
        replication.wf(),
    ensures
        ({
            let (after, adapted, request) = replication.polled(node);
            &&& after.key == replication.key && after.value == replication.value
            &&& after.lookup.target == replication.key
            &&& request matches Some(RequestView::FindNode { to, target }) ==> {
                &&& target == blake3(replication.value)
                &&& target == replication.lookup.target
                &&& replication.lookup.polled(node).1 == Some(to)
                &&& to.id != node.id
            }
            &&& request matches Some(RequestView::Store { to, key, value }) ==> {
                &&& key == blake3(value)
                &&& value == replication.value
                &&& replication.targets is Some || replication.lookup.polled(node).1 is None
            }
        }),
{
    lemma_polled(replication.lookup, node);
}

/// A replication asks exactly when its lookup does: as long as that says to ask somebody, the
/// same contact is asked, and nothing is stored before it is over.
pub proof fn lemma_looks_up_before_it_sends(replication: ReplicationView, node: NodeView)
    requires
        replication.targets is None,
    ensures
        replication.lookup.polled(node).1 matches Some(c) ==> {
            let (after, adapted, request) = replication.polled(node);
            &&& request is Some && request->0 is FindNode && recipient(request->0) == c
            &&& after.targets is None
            &&& after.lookup == replication.lookup.polled(node).0
            &&& adapted == node
        },
{
}

/// What an upload sends is about the value that is being passed on: a request for contacts asks
/// for those nearest to its key, which is what its lookup is for, and a request to store carries it
/// under its key. Nothing is sent only once nothing is left.
pub proof fn lemma_requests_are_about_the_current_value(upload: UploadView, node: NodeView)
    requires
        upload.wf(),
        node.wf(),
    ensures
        ({
            let (after, adapted, request) = upload.polled(node);
            &&& request matches Some(r) ==> after.current is Some && carries(
                r,
                after.current->0.key,
                after.current->0.value,
            )
            &&& request matches Some(RequestView::FindNode { to, target }) ==> {
                &&& target == after.current->0.key
                &&& target == after.current->0.lookup.target
                &&& target == blake3(after.current->0.value)
                &&& to.id != node.id
            }
            &&& request is None ==> after.waiting.len() == 0 && after.current is None
        }),
    decreases
            upload.waiting.len(),
            if upload.current is Some {
                1nat
            } else {
                0nat
            },
{
    match upload.current {
        Some(replication) => {
            let (after, adapted, request) = replication.polled(node);
            lemma_asks_for_the_key(replication, node);
            if request is None {
                if replication.targets is None {
                    lemma_finished_wf(replication.lookup.polled(node).0, node);
                }
                lemma_requests_are_about_the_current_value(
                    UploadView { current: None, ..upload },
                    adapted,
                );
            }
        },
        None => {
            if upload.waiting.len() > 0 {
                let next = UploadView {
                    waiting: upload.waiting.drop_first(),
                    current: Some(ReplicationView::started(node, upload.waiting[0])),
                };
                assert(upload.waiting[0].wf());
                lemma_started_wf(node, upload.waiting[0].key, upload.waiting[0].level);
                assert forall|i: int| 0 <= i < next.waiting.len() implies (
                #[trigger] next.waiting[i]).wf() by {
                    assert(upload.waiting[i + 1].wf());
                }
                lemma_requests_are_about_the_current_value(next, node);
            }
        },
    }
}

/// The values are passed on in the order in which they wait. When nothing is being passed on, the
/// one that waits longest is looked up next, among the nodes of its tier if it has one: if the
/// lookup of its key has somebody to ask, that contact is asked for the nodes nearest to its key,
/// and the other values go on waiting. If it has nobody to ask, the value goes to the nearest of
/// those who are known.
pub proof fn lemma_first_waits_least(upload: UploadView, node: NodeView)
    requires
        upload.current is None,
        upload.waiting.len() > 0,
    ensures
        ({
            let first = upload.waiting[0];
            let (lookup, contact) = LookupView::started(node, first.key, first.level).polled(node);
            let (after, adapted, request) = upload.polled(node);
            &&& contact matches Some(c) ==> {
                &&& request == Some(RequestView::FindNode { to: c, target: first.key })
                &&& after.waiting == upload.waiting.skip(1)
                &&& after.current is Some && after.current->0.value == first.value
                    && after.current->0.lookup == lookup
            }
            &&& contact is None && lookup.shortlist.len() > 0 && lookup.finished(node).params.k > 0
                ==> {
                &&& request == Some(
                    RequestView::Store {
                        to: lookup.shortlist[0],
                        key: first.key,
                        value: first.value,
                    },
                )
                &&& after.waiting == upload.waiting.skip(1)
            }
        }),
{
    let first = upload.waiting[0];
    let next = UploadView {
        waiting: upload.waiting.drop_first(),
        current: Some(ReplicationView::started(node, first)),
    };
    assert(upload.waiting.skip(1) =~= upload.waiting.drop_first());
    assert(upload.polled(node) == next.polled(node));
}

/// A value is passed on to the end before the next has its turn: as long as it has something to
/// send, that is sent and the others wait; else the upload goes on as if it had been passed on.
pub proof fn lemma_current_value_goes_first(upload: UploadView, node: NodeView)
    requires
        upload.current is Some,
    ensures
        ({
            let replication = upload.current->0;
            let (after, adapted, request) = replication.polled(node);
            &&& request is Some ==> upload.polled(node) == (
                UploadView { waiting: upload.waiting, current: Some(after) },
                adapted,
                request,
            )
            &&& request is None ==> upload.polled(node) == (UploadView {
                waiting: upload.waiting,
                current: None,
            }).polled(adapted)
        }),
{
}

/// Every entry that left a store waits, under its key and in the same order, for nodes of the
/// given tier and of no other.
pub proof fn lemma_items_are_for_the_tier(entries: Seq<(Key, Seq<u8>)>, tier: nat)
    ensures
        items(entries, tier).len() == entries.len(),
        forall|i: int|
            0 <= i < entries.len() ==> {
                &&& (#[trigger] items(entries, tier)[i]).key == entries[i].0
                &&& items(entries, tier)[i].value == entries[i].1
                &&& items(entries, tier)[i].level == Some(tier)
            },
        all_for_tier(items(entries, tier), tier),
{
}

/// One step of an upload.
pub enum UploadStep {
    /// The upload was asked what to send, by a node in this state.
    Poll { node: NodeView },
    /// A contact answered with these contacts; the node is in this state after taking note.
    Answer { node: NodeView, nodes: Seq<Contact> },
    /// A contact failed to answer.
    Refusal,
}

impl UploadView {
    /// The upload after a step, and what it had to send.
    pub open spec fn stepped(self, step: UploadStep) -> (UploadView, Option<RequestView>) {
        match step {
            UploadStep::Poll { node } => (self.polled(node).0, self.polled(node).2),
            UploadStep::Answer { node, nodes } => (self.answered(node, nodes), None),
            UploadStep::Refusal => (self.refused(), None),
        }
    }

    /// The upload after some steps.
    pub open spec fn ran(self, steps: Seq<UploadStep>) -> UploadView
        decreases steps.len(),
    {
        if steps.len() == 0 {
            self
        } else {
            self.ran(steps.drop_last()).stepped(steps.last()).0
        }
    }

    /// What an upload had to send in the course of some steps, in this order.
    pub open spec fn requests(self, steps: Seq<UploadStep>) -> Seq<RequestView>
        decreases steps.len(),
    {
        if steps.len() == 0 {
            Seq::empty()
        } else {
            let before = self.requests(steps.drop_last());
            match self.ran(steps.drop_last()).stepped(steps.last()).1 {
                Some(r) => before.push(r),
                None => before,
            }
        }
    }
}

/// Whether a peer is in a tier, if one is given, for the node of a step.
pub open spec fn admits(step: UploadStep, tier: Option<nat>, id: NodeId) -> bool {
    match step {
        UploadStep::Poll { node } => tier is None || node.tiering.level_of(id) == tier->0,
        UploadStep::Answer { node, nodes } => tier is None || node.tiering.level_of(id) == tier->0,
        UploadStep::Refusal => false,
    }
}

/// Whether a peer was in a tier, if one is given, at one of some steps.
pub open spec fn was_admitted(steps: Seq<UploadStep>, tier: Option<nat>, id: NodeId) -> bool {
    exists|j: int| 0 <= j < steps.len() && #[trigger] admits(steps[j], tier, id)
}

/// Whether a request is about the value of an item and goes to somebody who was in its tier.
pub open spec fn serves(request: RequestView, item: ItemView, steps: Seq<UploadStep>) -> bool {
    carries(request, item.key, item.value) && was_admitted(steps, item.level, recipient(request).id)
}

/// Whether a request is about one of some items and goes to somebody who was in its tier.
pub open spec fn serves_one(
    request: RequestView,
    waiting: Seq<ItemView>,
    steps: Seq<UploadStep>,
) -> bool {
    exists|i: int| 0 <= i < waiting.len() && serves(request, #[trigger] waiting[i], steps)
}

spec fn admitted(steps: Seq<UploadStep>, tier: Option<nat>) -> spec_fn(Contact) -> bool {
    |c: Contact| was_admitted(steps, tier, c.id)
}

spec fn is_serving(
    replication: ReplicationView,
    item: ItemView,
    steps: Seq<UploadStep>,
) -> bool {
    &&& replication.key == item.key
    &&& replication.value == item.value
    &&& replication.lookup.level == item.level
    &&& all_satisfy(replication.lookup.shortlist, admitted(steps, item.level))
    &&& all_satisfy(replication.lookup.batch, admitted(steps, item.level))
    &&& replication.targets matches Some(t) ==> all_satisfy(t, admitted(steps, item.level))
}

spec fn is_at(upload: UploadView, all: Seq<ItemView>, n: int, steps: Seq<UploadStep>) -> bool {
    &&& 0 <= n <= all.len()
    &&& upload.waiting == all.skip(n)
    &&& upload.current matches Some(r) ==> n > 0 && is_serving(r, all[n - 1], steps)
}

proof fn lemma_sent_serves(
    replication: ReplicationView,
    targets: Seq<Contact>,
    item: ItemView,
    steps: Seq<UploadStep>,
)
    requires
        is_serving(replication, item, steps),
        all_satisfy(targets, admitted(steps, item.level)),
    ensures
        is_serving(replication.sent(targets).0, item, steps),
        replication.sent(targets).1 matches Some(r) ==> serves(r, item, steps),
{
    let ok = admitted(steps, item.level);
    if targets.len() > 0 {
        assert(ok(targets[0]));
        let left = targets.drop_first();
        assert forall|i: int| 0 <= i < left.len() implies ok(#[trigger] left[i]) by {
            assert(ok(targets[i + 1]));
        }
    }
}

proof fn lemma_replication_serves(
    replication: ReplicationView,
    node: NodeView,
    item: ItemView,
    steps: Seq<UploadStep>,
)
    requires
        is_serving(replication, item, steps),
    ensures
        is_serving(replication.polled(node).0, item, steps),
        replication.polled(node).1.tiering == node.tiering,
        replication.polled(node).2 matches Some(r) ==> serves(r, item, steps),
{
    let ok = admitted(steps, item.level);
    match replication.targets {
        Some(targets) => {
            lemma_sent_serves(replication, targets, item, steps);
        },
        None => {
            lemma_polled_among(replication.lookup, node, ok);
            let (lookup, contact) = replication.lookup.polled(node);
            let here = ReplicationView { lookup, ..replication };
            if let Some(c) = contact {
                assert(ok(c));
            } else {
                let targets = first_of(lookup.shortlist, lookup.finished(node).params.k);
                assert forall|i: int| 0 <= i < targets.len() implies ok(#[trigger] targets[i]) by {
                    assert(ok(lookup.shortlist[i]));
                }
                lemma_sent_serves(here, targets, item, steps);
            }
        },
    }
}

proof fn lemma_upload_serves(
    upload: UploadView,
    node: NodeView,
    all: Seq<ItemView>,
    n: int,
    steps: Seq<UploadStep>,
    j: int,
) -> (m: int)
    requires
        is_at(upload, all, n, steps),
        0 <= j < steps.len(),
        steps[j] matches UploadStep::Poll { node: polling } && polling.tiering == node.tiering,
    ensures
        n <= m,
        is_at(upload.polled(node).0, all, m, steps),
        upload.polled(node).2 matches Some(r) ==> m > 0 && serves(r, all[m - 1], steps),
    decreases
            upload.waiting.len(),
            if upload.current is Some {
                1nat
            } else {
                0nat
            },
{
    match upload.current {
        Some(replication) => {
            let (after, adapted, request) = replication.polled(node);
            lemma_replication_serves(replication, node, all[n - 1], steps);
            if request is Some {
                n
            } else {
                lemma_upload_serves(
                    UploadView { current: None, ..upload },
                    adapted,
                    all,
                    n,
                    steps,
                    j,
                )
            }
        },
        None => {
            if upload.waiting.len() == 0 {
                n
            } else {
                let item = upload.waiting[0];
                let ok = admitted(steps, item.level);
                let next = UploadView {
                    waiting: upload.waiting.drop_first(),
                    current: Some(ReplicationView::started(node, item)),
                };
                assert(item == all[n]);
                assert forall|c: Contact| node.matches(item.level, c.id) implies #[trigger] ok(
                    c,
                ) by {
                    assert(admits(steps[j], item.level, c.id));
                }
                lemma_started_among(node, item.key, item.level, ok);
                assert(next.waiting =~= all.skip(n + 1));
                lemma_upload_serves(next, node, all, n + 1, steps, j)
            }
        },
    }
}

proof fn lemma_admitted_later(steps: Seq<UploadStep>, tier: Option<nat>, id: NodeId)
    requires
        steps.len() > 0,
        was_admitted(steps.drop_last(), tier, id),
    ensures
        was_admitted(steps, tier, id),
{
    let front = steps.drop_last();
    let j = choose|j: int| 0 <= j < front.len() && #[trigger] admits(front[j], tier, id);
    assert(admits(steps[j], tier, id));
}

proof fn lemma_serving_later(replication: ReplicationView, item: ItemView, steps: Seq<UploadStep>)
    requires
        steps.len() > 0,
        is_serving(replication, item, steps.drop_last()),
    ensures
        is_serving(replication, item, steps),
{
    let was = admitted(steps.drop_last(), item.level);
    let ok = admitted(steps, item.level);
    assert forall|c: Contact| #[trigger] was(c) implies ok(c) by {
        lemma_admitted_later(steps, item.level, c.id);
    }
    let lookup = replication.lookup;
    assert forall|i: int| 0 <= i < lookup.shortlist.len() implies ok(
        #[trigger] lookup.shortlist[i],
    ) by {
        assert(was(lookup.shortlist[i]));
    }
    assert forall|i: int| 0 <= i < lookup.batch.len() implies ok(#[trigger] lookup.batch[i]) by {
        assert(was(lookup.batch[i]));
    }
    if let Some(targets) = replication.targets {
        assert forall|i: int| 0 <= i < targets.len() implies ok(#[trigger] targets[i]) by {
            assert(was(targets[i]));
        }
    }
}

proof fn lemma_upload_course(upload: UploadView, steps: Seq<UploadStep>) -> (n: int)
    requires
        upload.current is None,
    ensures
        is_at(upload.ran(steps), upload.waiting, n, steps),
        forall|i: int|
            0 <= i < upload.requests(steps).len() ==> serves_one(
                #[trigger] upload.requests(steps)[i],
                upload.waiting,
                steps,
            ),
    decreases steps.len(),
{
    let all = upload.waiting;
    if steps.len() == 0 {
        assert(all.skip(0) =~= all);
        0
    } else {
        let front = steps.drop_last();
        let last = steps.len() - 1;
        let n = lemma_upload_course(upload, front);
        let here = upload.ran(front);
        if let Some(r) = here.current {
            lemma_serving_later(r, all[n - 1], steps);
        }
        assert(is_at(here, all, n, steps));
        let before = upload.requests(front);
        assert forall|i: int| 0 <= i < before.len() implies serves_one(
            #[trigger] before[i],
            all,
            steps,
        ) by {
            assert(serves_one(before[i], all, front));
            let p = choose|p: int| 0 <= p < all.len() && serves(before[i], #[trigger] all[p], front);
            lemma_admitted_later(steps, all[p].level, recipient(before[i]).id);
            assert(serves(before[i], all[p], steps));
        }
        match steps.last() {
            UploadStep::Poll { node } => {
                let m = lemma_upload_serves(here, node, all, n, steps, last);
                if let Some(r) = here.polled(node).2 {
                    assert(serves(r, all[m - 1], steps));
                    assert(serves_one(r, all, steps));
                }
                m
            },
            UploadStep::Answer { node, nodes } => {
                if let Some(r) = here.current {
                    let ok = admitted(steps, all[n - 1].level);
                    assert forall|c: Contact| node.matches(
                        all[n - 1].level,
                        c.id,
                    ) implies #[trigger] ok(c) by {
                        assert(admits(steps[last], all[n - 1].level, c.id));
                    }
                    lemma_answered_among(r.lookup, node, nodes, ok);
                }
                n
            },
            UploadStep::Refusal => n,
        }
    }
}

/// Whatever an upload sends in the course of its life is about one of the values that it was given
/// to pass on, and goes to somebody who was in the tier of that value, if it has one, when the
/// node was asked for contacts or took note of them.
pub proof fn lemma_upload_serves_what_it_was_given(upload: UploadView, steps: Seq<UploadStep>)
    requires
        upload.current is None,
    ensures
        forall|i: int|
            0 <= i < upload.requests(steps).len() ==> serves_one(
                #[trigger] upload.requests(steps)[i],
                upload.waiting,
                steps,
            ),
{
    let _ = lemma_upload_course(upload, steps);
}

/// What left a store goes to one tier only. Every request that passes on such entries, whether it
/// asks for contacts or to store a value, goes to a peer who was in that tier when the lookup took
/// it in, and asks for the key of one of the entries or carries that entry.
pub proof fn lemma_offloads_to_one_tier(
    entries: Seq<(Key, Seq<u8>)>,
    tier: nat,
    steps: Seq<UploadStep>,
    i: int,
)
    requires
        0 <= i < (UploadView { waiting: items(entries, tier), current: None }).requests(
            steps,
        ).len(),
    ensures
        ({
            let upload = UploadView { waiting: items(entries, tier), current: None };
            let request = upload.requests(steps)[i];
            &&& was_admitted(steps, Some(tier), recipient(request).id)
            &&& exists|e: int|
                0 <= e < entries.len() && carries(
                    request,
                    (#[trigger] entries[e]).0,
                    entries[e].1,
                )
        }),
{
    let all = items(entries, tier);
    let upload = UploadView { waiting: all, current: None };
    lemma_items_are_for_the_tier(entries, tier);
    lemma_upload_serves_what_it_was_given(upload, steps);
    let request = upload.requests(steps)[i];
    assert(serves_one(request, all, steps));
    let p = choose|p: int| 0 <= p < all.len() && serves(request, #[trigger] all[p], steps);
    assert(carries(request, entries[p].0, entries[p].1));
}

/// The value that is being passed on takes note of what its lookup is told: an answer makes for a
/// success and a contact that fails to answer for a failure, and neither changes what is passed on
/// or what waits.
pub proof fn lemma_upload_takes_note(upload: UploadView, node: NodeView, nodes: Seq<Contact>)
    ensures
        upload.answered(node, nodes).waiting == upload.waiting,
        upload.refused().waiting == upload.waiting,
        upload.current is None ==> upload.answered(node, nodes) == upload && upload.refused()
            == upload,
        upload.current matches Some(r) ==> {
            let heard = upload.answered(node, nodes).current;
            let missed = upload.refused().current;
            &&& heard is Some && missed is Some
            &&& heard->0.key == r.key && missed->0.key == r.key
            &&& heard->0.value == r.value && missed->0.value == r.value
            &&& heard->0.targets == r.targets && missed->0.targets == r.targets
            &&& heard->0.lookup.succeeded && heard->0.lookup.failed == r.lookup.failed
            &&& missed->0.lookup.failed && missed->0.lookup.succeeded == r.lookup.succeeded
            &&& missed->0.lookup.shortlist == r.lookup.shortlist
            &&& forall|i: int|
                0 <= i < nodes.len() ==> heard->0.lookup.seen.contains((#[trigger] nodes[i]).id)
        },
{
    if let Some(r) = upload.current {
        let heard = upload.answered(node, nodes).current->0;
        assert forall|i: int| 0 <= i < nodes.len() implies heard.lookup.seen.contains(
            (#[trigger] nodes[i]).id,
        ) by {
            lemma_answer_adds_what_it_names(r.lookup, node, nodes, nodes[i]);
            assert(has_id(nodes, nodes[i].id));
        }
        if nodes.len() == 0 {
            assert(heard.lookup.succeeded);
        } else {
            lemma_answer_adds_what_it_names(r.lookup, node, nodes, nodes[0]);
        }
    }
}

/// A value that is put is itself passed on, under its digest and to nodes of any tier, after what
/// left the store for it, which goes to nodes of the slowest tier. Each of those was stored before
/// or is the value itself.
pub proof fn lemma_put_value_is_replicated(node: NodeView, value: Seq<u8>, now: u64, i: int)
    requires
        node.wf(),
        0 <= i < node.to_replicate(value, now).waiting.len(),
    ensures
        ({
            let upload = node.to_replicate(value, now);
            let n = upload.waiting.len() - 1;
            let item = upload.waiting[i];
            &&& upload.current is None
            &&& n == node.spilled_local(blake3(value), value, now).len()
            &&& blake3(item.value) == item.key
            &&& i == n ==> item.value == value && item.level is None
            &&& i < n ==> {
                &&& item.level matches Some(l) && l + 1 == node.tiering.centroids.len()
                &&& item.value == value || node.store.entries.contains((item.key, item.value))
            }
        }),
{
    let spilled = node.spilled_local(blake3(value), value, now);
    lemma_items_are_for_the_tier(spilled, node.tiering.slowest_level());
    lemma_stored_local_wf(node, blake3(value), value, now);
    lemma_stored_subset(node.store.requested(now), blake3(value), value);
    if i < spilled.len() {
        assert(spilled.contains(spilled[i]));
        assert(blake3(spilled[i].1) == spilled[i].0);
    }
}

/// The lookup of a replication counts as one call: when it is over, the node remembers it as a
/// success if anybody answered, and else as a failure if anybody was asked. Nothing else that a
/// replication is asked for changes the node.
pub proof fn lemma_replication_is_recorded(replication: ReplicationView, node: NodeView)
    requires
        node.wf(),
        replication.wf(),
    ensures
        ({
            let lookup = replication.lookup;
            let (after, adapted, request) = replication.polled(node);
            if replication.targets is None && lookup.polled(node).1 is None {
                &&& after.targets is Some
                &&& lookup.succeeded ==> adapted.params.history == latest_outcomes(
                    node.params.history.push(true),
                )
                &&& !lookup.succeeded && lookup.failed ==> adapted.params.history
                    == latest_outcomes(node.params.history.push(false))
                &&& !lookup.succeeded && !lookup.failed ==> adapted == node
            } else {
                adapted == node
            }
        }),
{
    lemma_polled(replication.lookup, node);
    lemma_lookup_is_recorded(replication.lookup.polled(node).0, node);
}

} // verus!
