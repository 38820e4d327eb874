//! The messages between nodes, and how a node answers them.

use vstd::prelude::*;

use crate::contact::{distance_key, distinct_ids, Contact};
use crate::distance::dist;
use crate::hash::{blake3, Key, NodeId};
use crate::lookup::{bytes_of, ValueLookupView};
use crate::node::{
    lemma_local_value_is_authentic, lemma_meeting, lemma_observing_forgets_nobody,
    lemma_observing_wf, lemma_read_local_wf, lemma_stored_local_wf, lemma_stored_value_is_served,
    lemma_unverified_value_is_ignored, DhtNode, NodeView,
};
use crate::replication::{items, lemma_items_are_for_the_tier, Upload, UploadView};
use crate::routing::{
    lemma_closest_are_nearest, lemma_contacts, lemma_seen_adds_only_the_contact,
    PendingBucketUpdate,
};
use crate::store::lemma_stored_subset;
use crate::tiering::has_peer;

verus! {

/// Asks whether a node is responsive.
#[derive(Clone, Debug)]
pub struct PingRequest {
    /// Who asks.
    pub from: Contact,
}

/// Asks for the contacts nearest to a target.
#[derive(Clone, Debug)]
pub struct FindNodeRequest {
    /// Who asks.
    pub from: Contact,
    /// The target.
    pub target: NodeId,
}

/// Asks for a value or, where it is not stored, for contacts nearer to its key.
#[derive(Clone, Debug)]
pub struct FindValueRequest {
    /// Who asks.
    pub from: Contact,
    /// The key.
    pub key: Key,
}

/// Asks to store a value.
#[derive(Clone, Debug)]
pub struct StoreRequest {
    /// Who asks.
    pub from: Contact,
    /// The key.
    pub key: Key,
    /// The value.
    pub value: Vec<u8>,
}

/// The answer to a request for a value.
#[derive(Clone, Debug)]
pub struct FindValueResponse {
    /// The value, if it is stored.
    pub value: Option<Vec<u8>>,
    /// Contacts to continue with, if it is not.
    pub closer: Vec<Contact>,
}

/// A request to a node.
#[derive(Debug)]
pub enum DhtProtocol {
    /// Answered with a list of contacts.
    FindNode(FindNodeRequest),
    /// Answered with a value or a list of contacts.
    FindValue(FindValueRequest),
    /// Answered with an acknowledgment.
    Store(StoreRequest),
    /// Answered with an acknowledgment.
    Ping(PingRequest),
}

/// The answer to a request.
#[derive(Debug)]
pub enum Reply {
    /// The contacts nearest to a target.
    Nodes(Vec<Contact>),
    /// A value or contacts nearer to its key.
    Value(FindValueResponse),
    /// An acknowledgment.
    Done,
}

/// The answer to a request, and what it leaves to do.
pub struct Answer {
    /// What to send back.
    pub reply: Reply,
    /// The update of a full bucket that is left to do.
    pub pending: Option<PendingBucketUpdate>,
    /// The values to pass on before the reply is sent.
    pub upload: Upload,
}

impl DhtProtocol {
    /// Who sent a request.
    pub open spec fn sender(self) -> Contact {
        match self {
            DhtProtocol::FindNode(r) => r.from,
            DhtProtocol::FindValue(r) => r.from,
            DhtProtocol::Store(r) => r.from,
            DhtProtocol::Ping(r) => r.from,
        }
    }
}

/// An upload of nothing.
pub open spec fn nothing_to_pass_on() -> UploadView {
    UploadView { waiting: Seq::empty(), current: None }
}

impl NodeView {
    /// The node after it answered a request. A ping leaves it as it was.
    pub open spec fn after_message(self, message: DhtProtocol, now: u64) -> NodeView {
        match message {
            DhtProtocol::FindNode(r) => self.observed(r.from),
            DhtProtocol::FindValue(r) => self.observed(r.from).read_local(r.key, now),
            DhtProtocol::Store(r) => self.observed(r.from).stored_local(r.key, r.value@, now),
            DhtProtocol::Ping(_) => self,
        }
    }

    /// Whether a reply is the one that a request is owed.
    pub open spec fn owes(self, message: DhtProtocol, reply: Reply) -> bool {
        match message {
            DhtProtocol::FindNode(r) => reply matches Reply::Nodes(nodes) && nodes@
                == self.observed(r.from).closest(r.target),
            DhtProtocol::FindValue(r) => reply matches Reply::Value(response) && {
                &&& bytes_of(response.value) == self.local_value(r.key)
                &&& response.closer@ == if self.local_value(r.key) is Some {
                    Seq::empty()
                } else {
                    self.observed(r.from).closest(r.key)
                }
            },
            DhtProtocol::Store(_) => reply is Done,
            DhtProtocol::Ping(_) => reply is Done,
        }
    }

    /// The values that are to be passed on after a request.
    pub open spec fn to_pass_on(self, message: DhtProtocol, now: u64) -> UploadView {
        match message {
            DhtProtocol::Store(r) => UploadView {
                waiting: items(
                    self.observed(r.from).spilled_local(r.key, r.value@, now),
                    self.after_message(message, now).tiering.slowest_level(),
                ),
                current: None,
            },
            _ => nothing_to_pass_on(),
        }
    }
}

impl DhtNode {
    /// Answers a request that arrived at `now`.
    pub fn handle_message(&mut self, message: DhtProtocol, now: u64) -> (answer: Answer)
        requires
            old(self).wf(),
            message is Ping || old(self)@.can_observe(message.sender()),
        ensures
            final(self).wf(),
            final(self)@ == old(self)@.after_message(message, now),
            old(self)@.owes(message, answer.reply),
            answer.pending == if message is Ping {
                None
            } else {
                old(self)@.pending(message.sender())
            },
            answer.pending matches Some(p) ==> p.is_for(old(self)@.id),
            answer.upload.wf(),
            answer.upload@ == old(self)@.to_pass_on(message, now),
    {
        match message {
            DhtProtocol::FindNode(request) => {
                let (nodes, pending) = self.handle_find_node_request(
                    &request.from,
                    &request.target,
                );
                Answer { reply: Reply::Nodes(nodes), pending, upload: Upload::empty() }
            },
            DhtProtocol::FindValue(request) => {
                let (value, closer, pending) = self.handle_find_value_request(
                    &request.from,
                    &request.key,
                    now,
                );
                Answer {
                    reply: Reply::Value(FindValueResponse { value, closer }),
                    pending,
                    upload: Upload::empty(),
                }
            },
            DhtProtocol::Store(request) => {
                let (spilled, pending) = self.handle_store_request(
                    &request.from,
                    request.key,
                    &request.value,
                    now,
                );
                Answer { reply: Reply::Done, pending, upload: self.offload_spilled(spilled) }
            },
            DhtProtocol::Ping(_) => Answer {
                reply: Reply::Done,
                pending: None,
                upload: Upload::empty(),
            },
        }
    }
}

/// What a store request brought is what the next request for it is answered with, unless the
/// store is under so much pressure that nothing stays in it.
pub proof fn lemma_find_after_store(
    node: NodeView,
    store: StoreRequest,
    find: FindValueRequest,
    now: u64,
    reply: Reply,
)
    requires
        node.wf(),
        blake3(store.value@) == store.key,
        find.key == store.key,
        node.after_message(DhtProtocol::Store(store), now).store.entries.len() > 0,
        node.after_message(DhtProtocol::Store(store), now).owes(
            DhtProtocol::FindValue(find),
            reply,
        ),
    ensures
        reply matches Reply::Value(response) && bytes_of(response.value) == Some(store.value@)
            && response.closer@.len() == 0,
{
    lemma_stored_value_is_served(node, store.from, store.key, store.value@, now, find.from);
}

/// What one node stored at another reaches whoever looks it up there: the answer that the
/// holder owes ends the lookup with the value.
pub proof fn lemma_stored_value_reaches_reader(
    holder: NodeView,
    store: StoreRequest,
    find: FindValueRequest,
    now: u64,
    response: FindValueResponse,
    lookup: ValueLookupView,
    reader: NodeView,
)
    requires
        holder.wf(),
        blake3(store.value@) == store.key,
        find.key == store.key,
        lookup.lookup.target == store.key,
        holder.after_message(DhtProtocol::Store(store), now).store.entries.len() > 0,
        holder.after_message(DhtProtocol::Store(store), now).owes(
            DhtProtocol::FindValue(find),
            Reply::Value(response),
        ),
    ensures
        ({
            let after = lookup.answered(reader, bytes_of(response.value), response.closer@);
            &&& after.value == Some(store.value@)
            &&& after.polled(reader) == (after, None::<Contact>)
        }),
{
    lemma_find_after_store(holder, store, find, now, Reply::Value(response));
}

/// A request to store a value that its key does not stand for is acknowledged like any other,
/// but leaves the stored values as they were.
pub proof fn lemma_unverified_store_is_ignored(
    node: NodeView,
    store: StoreRequest,
    now: u64,
    key: Key,
)
    requires
        blake3(store.value@) != store.key,
    ensures
        node.owes(DhtProtocol::Store(store), Reply::Done),
        node.after_message(DhtProtocol::Store(store), now).store == node.store,
        node.after_message(DhtProtocol::Store(store), now).local_value(key) == node.local_value(key),
        node.to_pass_on(DhtProtocol::Store(store), now) == nothing_to_pass_on(),
{
    lemma_unverified_value_is_ignored(node, store.from, store.key, store.value@, now);
    assert(node.to_pass_on(DhtProtocol::Store(store), now).waiting =~= Seq::empty());
}

/// Whether some contacts are the answer to who is nearest to a target: contacts that the node
/// knows, none of them twice and nearest first, as many as the bucket size allows, and whoever else
/// the node knows is farther than all of them.
pub open spec fn are_nearest(node: NodeView, target: NodeId, nodes: Seq<Contact>) -> bool {
    &&& distinct_ids(nodes)
    &&& nodes.len() <= node.params.k
    &&& forall|i: int, j: int|
        0 <= i <= j < nodes.len() ==> dist((#[trigger] nodes[i]).id, target) <= dist(
            (#[trigger] nodes[j]).id,
            target,
        )
    &&& forall|i: int|
        0 <= i < nodes.len() ==> (#[trigger] nodes[i]).id != node.id && node.routing.bucket_for(
            nodes[i].id,
        ).contains(nodes[i])
    &&& forall|c: Contact|
        c.id != node.id && #[trigger] node.routing.bucket_for(c.id).contains(c) && !nodes.contains(
            c,
        ) ==> is_outdone(node, target, nodes, c)
}

/// Whether there are as many contacts as the bucket size, all of them nearer than this one.
pub open spec fn is_outdone(
    node: NodeView,
    target: NodeId,
    nodes: Seq<Contact>,
    c: Contact,
) -> bool {
    nodes.len() == node.params.k && forall|i: int|
        0 <= i < nodes.len() ==> dist((#[trigger] nodes[i]).id, target) < dist(c.id, target)
}

proof fn lemma_closest_answers(node: NodeView, target: NodeId)
    requires
        node.wf(),
    ensures
        are_nearest(node, target, node.closest(target)),
{
    let nodes = node.closest(target);
    let known = node.routing.contacts();
    let key = distance_key(target);
    lemma_closest_are_nearest(node.routing, target, node.params.k);
    lemma_contacts(node.routing);
    assert forall|i: int, j: int| 0 <= i <= j < nodes.len() implies dist(
        (#[trigger] nodes[i]).id,
        target,
    ) <= dist((#[trigger] nodes[j]).id, target) by {
        assert(key(nodes[i]) <= key(nodes[j]));
    }
    assert forall|c: Contact|
        c.id != node.id && #[trigger] node.routing.bucket_for(c.id).contains(c) && !nodes.contains(
            c,
        ) implies is_outdone(node, target, nodes, c) by {
        assert(known.contains(c));
        if nodes.len() == known.len() {
            lemma_all_found(known, nodes, c);
        }
    }
}

proof fn lemma_all_found(known: Seq<Contact>, found: Seq<Contact>, c: Contact)
    requires
        distinct_ids(known),
        distinct_ids(found),
        found.len() == known.len(),
        forall|i: int| 0 <= i < found.len() ==> known.contains(#[trigger] found[i]),
        known.contains(c),
    ensures
        found.contains(c),
{
    assert(known.no_duplicates());
    assert(found.no_duplicates());
    known.unique_seq_to_set();
    found.unique_seq_to_set();
    assert(found.to_set().subset_of(known.to_set())) by {
        assert forall|x: Contact| found.to_set().contains(x) implies known.to_set().contains(x) by {
            let i = choose|i: int| 0 <= i < found.len() && found[i] == x;
            assert(known.contains(found[i]));
        }
    }
    vstd::set_lib::lemma_subset_equality(found.to_set(), known.to_set());
    assert(known.to_set().contains(c));
    assert(found.to_set().contains(c));
}

/// Whoever asks for the contacts nearest to a target is told the nearest that the node knows, the
/// sender among them.
pub proof fn lemma_find_node_is_answered(node: NodeView, request: FindNodeRequest, reply: Reply)
    requires
        node.wf(),
        node.owes(DhtProtocol::FindNode(request), reply),
    ensures
        reply matches Reply::Nodes(nodes) && are_nearest(
            node.after_message(DhtProtocol::FindNode(request), 0),
            request.target,
            nodes@,
        ),
{
    lemma_observing_wf(node, request.from);
    lemma_closest_answers(node.observed(request.from), request.target);
}

/// Whoever asks for a value that the node holds is given it, and nothing else; it is the value that
/// the key stands for. Whoever asks for another is told the contacts nearest to the key.
pub proof fn lemma_find_value_is_answered(
    node: NodeView,
    request: FindValueRequest,
    response: FindValueResponse,
    now: u64,
)
    requires
        node.wf(),
        node.owes(DhtProtocol::FindValue(request), Reply::Value(response)),
    ensures
        bytes_of(response.value) == node.local_value(request.key),
        response.value matches Some(v) ==> blake3(v@) == request.key && response.closer@.len() == 0,
        response.value is None ==> are_nearest(
            node.after_message(DhtProtocol::FindValue(request), now),
            request.key,
            response.closer@,
        ),
{
    lemma_local_value_is_authentic(node, request.key);
    lemma_observing_wf(node, request.from);
    lemma_closest_answers(node.observed(request.from), request.key);
    let met = node.observed(request.from);
    let after = node.after_message(DhtProtocol::FindValue(request), now);
    assert(after.routing == met.routing && after.params == met.params && after.id == met.id);
    if response.value is None {
        assert forall|c: Contact|
            c.id != after.id && #[trigger] after.routing.bucket_for(c.id).contains(c)
                && !response.closer@.contains(c) implies is_outdone(
            after,
            request.key,
            response.closer@,
            c,
        ) by {
            assert(met.routing.bucket_for(c.id).contains(c));
            assert(is_outdone(met, request.key, response.closer@, c));
        }
    }
}

/// The sender of every request but a ping is met: it is a peer from then on, and in the routing
/// table unless the full bucket is yet to be sorted out. Nobody is forgotten. A ping leaves no
/// trace.
pub proof fn lemma_sender_is_met(node: NodeView, message: DhtProtocol, now: u64, id: NodeId)
    requires
        node.wf(),
        id != node.id,
    ensures
        ({
            let after = node.after_message(message, now);
            &&& after.wf()
            &&& message is Ping ==> after == node
            &&& !(message is Ping) && message.sender().id != node.id ==> {
                &&& has_peer(after.tiering.peers, message.sender().id)
                &&& after.routing.knows(message.sender().id) || node.pending(
                    message.sender(),
                ) is Some
            }
            &&& node.routing.knows(id) ==> after.routing.knows(id)
            &&& id != message.sender().id ==> (after.routing.knows(id) ==> node.routing.knows(id))
            &&& after.params == node.params
        }),
{
    let from = message.sender();
    let met = node.observed(from);
    lemma_observing_wf(node, from);
    lemma_meeting(node, from, from.id);
    lemma_observing_forgets_nobody(node, from, id);
    if from.id != node.id {
        lemma_observing_forgets_nobody(node, from, from.id);
    }
    if id != from.id {
        lemma_seen_adds_only_the_contact(node.routing, from, id);
    }
    match message {
        DhtProtocol::FindValue(r) => {
            lemma_read_local_wf(met, r.key, now);
        },
        DhtProtocol::Store(r) => {
            lemma_stored_local_wf(met, r.key, r.value@, now);
        },
        _ => {},
    }
}

/// Only a request to store changes what is stored.
pub proof fn lemma_reading_changes_no_value(
    node: NodeView,
    message: DhtProtocol,
    now: u64,
    key: Key,
)
    requires
        node.wf(),
        !(message is Store),
    ensures
        node.after_message(message, now).local_value(key) == node.local_value(key),
        node.to_pass_on(message, now).waiting.len() == 0,
        node.to_pass_on(message, now).current is None,
{
    lemma_observing_wf(node, message.sender());
    if let DhtProtocol::FindValue(r) = message {
        let met = node.observed(r.from);
        lemma_read_local_wf(met, r.key, now);
        assert(met.read_local(r.key, now).local_value(key) == met.local_value(key));
    }
}

/// Whatever a request to store drives out of the store is passed on, each entry under its key to
/// nodes of the slowest tier and no others. It was stored before or is what the request brought,
/// and it is what its key stands for.
pub proof fn lemma_what_leaves_is_passed_on(node: NodeView, request: StoreRequest, now: u64, i: int)
    requires
        node.wf(),
        0 <= i < node.to_pass_on(DhtProtocol::Store(request), now).waiting.len(),
    ensures
        ({
            let item = node.to_pass_on(DhtProtocol::Store(request), now).waiting[i];
            let tiers = node.tiering.centroids.len();
            &&& item.level matches Some(l) && l + 1 == tiers
            &&& blake3(item.value) == item.key
            &&& node.store.entries.contains((item.key, item.value)) || (item.key == request.key
                && item.value == request.value@)
        }),
        node.to_pass_on(DhtProtocol::Store(request), now).current is None,
        node.to_pass_on(DhtProtocol::Store(request), now).waiting.len() == node.observed(
            request.from,
        ).spilled_local(request.key, request.value@, now).len(),
{
    let met = node.observed(request.from);
    lemma_observing_wf(node, request.from);
    lemma_stored_local_wf(met, request.key, request.value@, now);
    let spilled = met.spilled_local(request.key, request.value@, now);
    lemma_items_are_for_the_tier(spilled, met.tiering.slowest_level());
    lemma_stored_subset(met.store.requested(now), request.key, request.value@);
    assert(spilled.contains(spilled[i]));
    assert(blake3(spilled[i].1) == spilled[i].0);
}

/// A value that a node holds reaches whoever looks it up there: the answer that the holder owes
/// ends the lookup with the value.
pub proof fn lemma_held_value_reaches_reader(
    holder: NodeView,
    find: FindValueRequest,
    response: FindValueResponse,
    lookup: ValueLookupView,
    reader: NodeView,
)
    requires
        holder.wf(),
        holder.local_value(find.key) is Some,
        holder.owes(DhtProtocol::FindValue(find), Reply::Value(response)),
        lookup.lookup.target == find.key,
    ensures
        ({
            let after = lookup.answered(reader, bytes_of(response.value), response.closer@);
            &&& after.value == holder.local_value(find.key)
            &&& after.value matches Some(v) && blake3(v) == find.key
            &&& after.polled(reader).1 is None
        }),
{
    lemma_local_value_is_authentic(holder, find.key);
}

} // verus!
