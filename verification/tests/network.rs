use std::collections::{HashMap, HashSet};

use iroh_sdht::protocol::{
    DhtProtocol, FindNodeRequest, FindValueRequest, Reply, StoreRequest,
};
use iroh_sdht::{
    hash_content, verify_key_value_pair, Contact, DhtNode, Key, NodeId, PendingBucketUpdate,
    Request, Retrieval, TelemetrySnapshot, TieringLevel, Upload, ValueLookup,
};

const MS: u64 = 1_000_000;

/// Nodes that reach each other without a wire.
#[derive(Default)]
struct Network {
    nodes: HashMap<NodeId, DhtNode>,
    failing: HashSet<NodeId>,
    latencies: HashMap<NodeId, u64>,
    store_calls: Vec<(Contact, Key, usize)>,
    find_calls: Vec<NodeId>,
    now: u64,
}

fn make_node_id(seed: u8) -> NodeId {
    [seed; 32]
}

fn make_contact(seed: u8) -> Contact {
    Contact {
        id: make_node_id(seed),
        addr: format!("node-{seed}"),
    }
}

fn penalty(peers: usize) -> u128 {
    ((peers as f64).ln().max(1.0) * 1.5 * 1e12) as u128
}

impl Network {
    fn add(&mut self, seed: u8, k: usize, alpha: usize) -> Contact {
        let contact = make_contact(seed);
        self.nodes.insert(
            contact.id,
            DhtNode::new(contact.id, contact.clone(), k, alpha),
        );
        contact
    }

    fn node(&mut self, contact: &Contact) -> &mut DhtNode {
        self.nodes.get_mut(&contact.id).expect("a registered node")
    }

    fn introduce(&mut self, a: &Contact, b: &Contact) {
        self.observe(a, b.clone());
        self.observe(b, a.clone());
    }

    fn observe(&mut self, at: &Contact, contact: Contact) {
        let pending = self.node(at).observe_contact(contact);
        self.ping(at, pending.into_iter().collect());
    }

    fn ping(&mut self, at: &Contact, updates: Vec<PendingBucketUpdate>) {
        for update in updates {
            let alive = self.reachable(&update.oldest);
            self.node(at).apply_ping_result(update, alive);
        }
    }

    fn reachable(&self, contact: &Contact) -> bool {
        self.nodes.contains_key(&contact.id) && !self.failing.contains(&contact.id)
    }

    fn elapse(&mut self, to: &Contact) -> u64 {
        let elapsed = *self.latencies.get(&to.id).unwrap_or(&MS);
        self.now += elapsed;
        elapsed
    }

    fn request(&mut self, to: &Contact, message: DhtProtocol) -> Option<(Reply, u64)> {
        if !self.reachable(to) {
            return None;
        }
        let elapsed = self.elapse(to);
        let now = self.now;
        let answer = self.node(to).handle_message(message, now);
        self.ping(to, answer.pending.into_iter().collect());
        self.drive(to, answer.upload);
        Some((answer.reply, elapsed))
    }

    fn find_node(&mut self, from: &Contact, to: &Contact, target: NodeId) -> Option<(Vec<Contact>, u64)> {
        self.find_calls.push(to.id);
        let message = DhtProtocol::FindNode(FindNodeRequest {
            from: from.clone(),
            target,
        });
        match self.request(to, message)? {
            (Reply::Nodes(nodes), elapsed) => Some((nodes, elapsed)),
            other => panic!("{other:?}"),
        }
    }

    fn store(&mut self, from: &Contact, to: &Contact, key: Key, value: Vec<u8>) -> Option<u64> {
        self.store_calls.push((to.clone(), key, value.len()));
        if to.id == from.id {
            return None;
        }
        let message = DhtProtocol::Store(StoreRequest {
            from: from.clone(),
            key,
            value,
        });
        self.request(to, message).map(|(_, elapsed)| elapsed)
    }

    fn iterative_find_node(&mut self, at: &Contact, target: NodeId) -> Vec<Contact> {
        self.iterative_find_node_with_level(at, target, None)
    }

    fn iterative_find_node_with_level(
        &mut self,
        at: &Contact,
        target: NodeId,
        level: Option<TieringLevel>,
    ) -> Vec<Contact> {
        let mut lookup = self.node(at).iterative_find_node_with_level(&target, level);
        while let Some(to) = lookup.next(self.node(at)) {
            match self.find_node(at, &to, target) {
                Some((nodes, elapsed)) => {
                    let now = self.now;
                    let node = self.node(at);
                    let penalty = penalty(node.sampled_peers_with(&to));
                    let updates = lookup.on_response(node, &to, &nodes, elapsed, now, penalty);
                    self.ping(at, updates);
                }
                None => lookup.on_failure(),
            }
        }
        lookup.finish(self.node(at))
    }

    fn search(&mut self, at: &Contact, key: Key, mut lookup: ValueLookup) -> (Option<Vec<u8>>, Vec<Contact>) {
        while let Some(to) = lookup.next(self.node(at)) {
            let message = DhtProtocol::FindValue(FindValueRequest {
                from: at.clone(),
                key,
            });
            match self.request(&to, message) {
                Some((Reply::Value(response), elapsed)) => {
                    let now = self.now;
                    let node = self.node(at);
                    let penalty = penalty(node.sampled_peers_with(&to));
                    let updates = lookup.on_response(
                        node,
                        &to,
                        response.value,
                        &response.closer,
                        elapsed,
                        now,
                        penalty,
                    );
                    self.ping(at, updates);
                }
                Some(other) => panic!("{other:?}"),
                None => lookup.on_failure(),
            }
        }
        lookup.finish(self.node(at))
    }

    fn iterative_find_value(&mut self, at: &Contact, key: Key) -> (Option<Vec<u8>>, Vec<Contact>) {
        let lookup = self.node(at).iterative_find_value(&key);
        self.search(at, key, lookup)
    }

    fn get(&mut self, at: &Contact, key: Key) -> Option<Vec<u8>> {
        let now = self.now;
        match self.node(at).get(&key, now) {
            Retrieval::Local(value) => Some(value),
            Retrieval::Search(lookup) => self.search(at, key, lookup).0,
        }
    }

    fn drive(&mut self, at: &Contact, mut upload: Upload) {
        while let Some(request) = upload.next(self.node(at)) {
            match request {
                Request::FindNode { to, target } => match self.find_node(at, &to, target) {
                    Some((nodes, elapsed)) => {
                        let now = self.now;
                        let node = self.node(at);
                        let penalty = penalty(node.sampled_peers_with(&to));
                        let updates = upload.on_response(node, &to, &nodes, elapsed, now, penalty);
                        self.ping(at, updates);
                    }
                    None => upload.on_lookup_failure(),
                },
                Request::Store { to, key, value } => {
                    assert!(verify_key_value_pair(&key, &value));
                    let elapsed = self.store(at, &to, key, value);
                    let now = self.now;
                    let node = self.node(at);
                    let penalty = penalty(node.sampled_peers_with(&to));
                    let update = node.on_store_result(&to, elapsed, now, penalty);
                    self.ping(at, update.into_iter().collect());
                }
            }
        }
    }

    fn put(&mut self, at: &Contact, value: Vec<u8>) -> Key {
        let now = self.now;
        let (key, upload) = self.node(at).put(value, now);
        self.drive(at, upload);
        key
    }

    fn handle_store_request(&mut self, at: &Contact, from: &Contact, key: Key, value: Vec<u8>) {
        let now = self.now;
        let node = self.node(at);
        let (spilled, pending) = node.handle_store_request(from, key, &value, now);
        let upload = node.offload_spilled(spilled);
        self.ping(at, pending.into_iter().collect());
        self.drive(at, upload);
    }

    fn snapshot(&mut self, at: &Contact) -> TelemetrySnapshot {
        self.node(at).telemetry_snapshot()
    }
}

fn check_lookup_returns_expected_contacts() {
    let mut network = Network::default();
    let main = network.add(0x10, 20, 3);
    let peer_one = network.add(0x11, 20, 3);
    let peer_two = network.add(0x12, 20, 3);

    for peer in [&peer_one, &peer_two] {
        network.introduce(&main, peer);
    }

    let target = peer_two.id;
    let results = network.iterative_find_node(&main, target);

    assert_eq!(results.first().map(|c| c.id), Some(peer_two.id));
    assert!(results.iter().any(|c| c.id == peer_one.id));
}

fn check_adaptive_k() {
    let mut network = Network::default();
    let main = network.add(0x30, 10, 3);
    let peer = network.add(0x31, 10, 3);
    network.introduce(&main, &peer);

    network.failing.insert(peer.id);
    let target = make_node_id(0xAA);
    let _ = network.iterative_find_node(&main, target);
    assert_eq!(network.snapshot(&main).replication_factor, 30);

    network.failing.remove(&peer.id);
    let _ = network.iterative_find_node(&main, target);
    assert_eq!(network.snapshot(&main).replication_factor, 20);
}

fn check_backpressure() {
    let mut network = Network::default();
    let node = network.add(0x01, 20, 3);

    let peer = make_contact(0x02);
    let value = vec![42u8; 12 * 1024 * 1024];
    let key = hash_content(&value);

    network.handle_store_request(&node, &peer, key, value.clone());

    let snapshot = network.snapshot(&node);
    let pressure = snapshot.pressure.expect("a pressure") as f64 / 1e9;
    assert!(pressure >= 0.99);
    assert_eq!(snapshot.stored_keys, 0);

    let calls = &network.store_calls;
    assert!(!calls.is_empty());
    let (contact, stored_key, len) = &calls[0];
    assert_eq!(contact.id, peer.id);
    assert_eq!(*stored_key, key);
    assert_eq!(*len, value.len());
}

fn check_tiering() {
    let mut network = Network::default();
    let main = network.add(0x01, 20, 3);
    let fast = network.add(0x02, 20, 3);
    let medium = network.add(0x03, 20, 3);
    let slow = network.add(0x04, 20, 3);

    for peer in [&fast, &medium, &slow] {
        network.introduce(&main, peer);
    }

    network.latencies.insert(fast.id, 5 * MS);
    network.latencies.insert(medium.id, 25 * MS);
    network.latencies.insert(slow.id, 50 * MS);

    let target = make_node_id(0x99);
    let _ = network.iterative_find_node(&main, target);

    let snapshot = network.snapshot(&main);
    assert!(snapshot.tier_centroids.len() >= 2);
    assert_eq!(snapshot.tier_counts.iter().sum::<usize>(), 3);
    assert!(snapshot.tier_centroids.first().unwrap() < snapshot.tier_centroids.last().unwrap());
}

#[test]
fn dht_end_to_end_iterative_find_node_returns_expected_contacts() {
    check_lookup_returns_expected_contacts();
}

#[test]
fn integration_iterative_find_node_returns_expected_contacts() {
    check_lookup_returns_expected_contacts();
}

#[test]
fn dht_end_to_end_adaptive_k_tracks_network_successes_and_failures() {
    check_adaptive_k();
}

#[test]
fn integration_adaptive_k_tracks_network_successes_and_failures() {
    check_adaptive_k();
}

#[test]
fn backpressure_backpressure_spills_large_values_and_records_pressure() {
    check_backpressure();
}

#[test]
fn integration_backpressure_spills_large_values_and_records_pressure() {
    check_backpressure();
}

#[test]
fn tiering_tiering_clusters_contacts_by_latency() {
    check_tiering();
}

#[test]
fn integration_tiering_clusters_contacts_by_latency() {
    check_tiering();
}

#[test]
fn iterative_find_value_fetches_remote_payload() {
    let mut network = Network::default();
    let main = network.add(0x20, 20, 3);
    let holder = network.add(0x21, 20, 3);
    network.introduce(&main, &holder);

    let value = b"hello routing".to_vec();
    let key = hash_content(&value);
    network.handle_store_request(&holder, &main, key, value.clone());

    let (result, _closer) = network.iterative_find_value(&main, key);
    assert_eq!(result, Some(value));
}

#[test]
fn put_and_get_flow_stores_and_retrieves_content() {
    let mut network = Network::default();
    let writer = network.add(0x40, 20, 3);
    let peer = network.add(0x41, 20, 3);
    network.introduce(&writer, &peer);

    let payload = b"end-to-end test".to_vec();
    let key = network.put(&writer, payload.clone());

    let reader = network.add(0x42, 20, 3);
    network.observe(&reader, peer.clone());
    network.observe(&reader, writer.clone());

    let retrieved = network.get(&reader, key);
    assert_eq!(retrieved, Some(payload.clone()));

    let now = network.now;
    let (value_at_peer, _closer, _) =
        network.node(&peer).handle_find_value_request(&writer, &key, now);
    assert_eq!(value_at_peer, Some(payload));
}

#[test]
fn a_local_value_is_not_looked_for() {
    let mut network = Network::default();
    let node = network.add(0x40, 20, 3);
    let key = network.put(&node, b"mine".to_vec());
    assert_eq!(network.get(&node, key), Some(b"mine".to_vec()));
    assert!(network.find_calls.is_empty());
}

#[test]
fn a_value_that_nobody_has_is_not_found() {
    let mut network = Network::default();
    let main = network.add(0x20, 20, 3);
    let peer = network.add(0x21, 20, 3);
    network.introduce(&main, &peer);
    let key = hash_content(b"nowhere");
    assert_eq!(network.get(&main, key), None);
    let (value, closer) = network.iterative_find_value(&main, key);
    assert_eq!(value, None);
    assert!(closer.iter().any(|c| c.id == peer.id));
}

#[test]
fn a_forged_value_is_not_accepted() {
    let mut node = DhtNode::new(make_node_id(1), make_contact(1), 20, 3);
    node.observe_contact(make_contact(2));
    let key = hash_content(b"genuine");
    let mut lookup = node.iterative_find_value(&key);
    let to = lookup.next(&node).expect("somebody to ask");
    assert_eq!(to, make_contact(2));
    lookup.on_response(&mut node, &to, Some(b"forged".to_vec()), &vec![], 5, 5, 0);
    assert!(lookup.next(&node).is_none());
    let (value, contacts) = lookup.finish(&mut node);
    assert_eq!(value, None);
    assert_eq!(contacts, vec![make_contact(2)]);
}

#[test]
fn a_genuine_value_ends_the_lookup() {
    let mut node = DhtNode::new(make_node_id(1), make_contact(1), 20, 3);
    node.observe_contact(make_contact(2));
    node.observe_contact(make_contact(3));
    let key = hash_content(b"genuine");
    let mut lookup = node.iterative_find_value(&key);
    let to = lookup.next(&node).expect("somebody to ask");
    lookup.on_response(&mut node, &to, Some(b"genuine".to_vec()), &vec![], 5, 5, 0);
    assert!(lookup.next(&node).is_none());
    let (value, _) = lookup.finish(&mut node);
    assert_eq!(value, Some(b"genuine".to_vec()));
}

#[test]
fn a_lookup_walks_towards_its_target() {
    let mut network = Network::default();
    let main = network.add(0xf0, 20, 1);
    let far = network.add(0x80, 20, 1);
    let near = network.add(0x08, 20, 1);
    let nearest = network.add(0x01, 20, 1);
    network.observe(&main, far.clone());
    network.observe(&far, near.clone());
    network.observe(&near, nearest.clone());

    let found = network.iterative_find_node(&main, make_node_id(0));
    let ids: Vec<NodeId> = found.iter().map(|c| c.id).collect();
    assert_eq!(ids, vec![nearest.id, near.id, far.id, main.id]);
    // nobody is asked twice, and the node does not ask itself
    assert_eq!(network.find_calls, vec![far.id, near.id, nearest.id]);
    assert_eq!(network.snapshot(&main).replication_factor, 10);
}

#[test]
fn a_lookup_stops_when_it_comes_no_nearer() {
    let mut network = Network::default();
    let main = network.add(0xf0, 20, 1);
    let near = network.add(0x01, 20, 1);
    let far = network.add(0x80, 20, 1);
    network.observe(&main, near.clone());
    network.observe(&near, far.clone());
    let found = network.iterative_find_node(&main, make_node_id(0));
    assert!(found.iter().any(|c| c.id == far.id));
    assert_eq!(network.find_calls, vec![near.id]);
}

#[test]
fn a_lookup_keeps_the_nearest_contacts() {
    let mut node = DhtNode::new(make_node_id(0xff), make_contact(0xff), 2, 3);
    node.observe_contact(make_contact(0x40));
    let target = make_node_id(0);
    let mut lookup = node.iterative_find_node(&target);
    let to = lookup.next(&node).expect("somebody to ask");
    let named = vec![make_contact(0x20), make_contact(0x10), make_contact(0x30)];
    lookup.on_response(&mut node, &to, &named, 5, 5, 0);
    assert_eq!(
        lookup.finish(&mut node),
        vec![make_contact(0x10), make_contact(0x20)]
    );
    // the lookup succeeded, so there is no churn
    assert_eq!(node.current_k(), 10);
}

#[test]
fn a_lookup_of_a_lonely_node_ends_at_once() {
    let mut node = DhtNode::new(make_node_id(1), make_contact(1), 20, 3);
    let mut lookup = node.iterative_find_node(&make_node_id(9));
    assert!(lookup.next(&node).is_none());
    assert!(lookup.next(&node).is_none());
    assert!(lookup.finish(&mut node).is_empty());
    // neither success nor failure
    assert_eq!(node.current_k(), 20);
}

#[test]
fn one_answer_outweighs_failures() {
    let mut network = Network::default();
    let main = network.add(0x30, 20, 3);
    let up = network.add(0x31, 20, 3);
    let down = network.add(0x32, 20, 3);
    network.introduce(&main, &up);
    network.introduce(&main, &down);
    network.failing.insert(down.id);
    let found = network.iterative_find_node(&main, make_node_id(0x33));
    assert_eq!(found[0].id, down.id);
    assert_eq!(network.snapshot(&main).replication_factor, 10);
}

#[test]
fn a_lookup_in_a_tier_asks_only_that_tier() {
    let mut network = Network::default();
    let main = network.add(0x01, 20, 3);
    let fast = network.add(0x02, 20, 3);
    let slow = network.add(0x04, 20, 3);
    network.introduce(&main, &fast);
    network.introduce(&main, &slow);
    network.latencies.insert(fast.id, 5 * MS);
    network.latencies.insert(slow.id, 50 * MS);
    let _ = network.iterative_find_node(&main, make_node_id(0x99));
    let level = network.node(&main).slowest_level();
    assert_eq!(level.index(), 1);
    network.find_calls.clear();
    let found = network.iterative_find_node_with_level(&main, make_node_id(0x99), Some(level));
    assert_eq!(network.find_calls, vec![slow.id]);
    assert!(found.iter().any(|c| c.id == slow.id));
    assert!(found.iter().all(|c| c.id != fast.id));
}

#[test]
fn a_lookup_asks_fast_peers_first() {
    let mut node = DhtNode::new(make_node_id(0xff), make_contact(0xff), 20, 3);
    // the nearer a peer is to the target, the slower it is
    for (seed, latency) in [(1u8, 90 * MS), (4, 50 * MS), (8, 10 * MS)] {
        let peer = make_contact(seed);
        node.observe_contact(peer.clone());
        node.record_rtt(&peer, latency, 0, penalty(3));
    }
    node.record_rtt(&make_contact(8), 10 * MS, 60_000 * MS, penalty(3));
    // nothing is known of this one, so it is in the middle tier
    node.observe_contact(make_contact(2));
    let levels: Vec<usize> = [1u8, 2, 4, 8]
        .iter()
        .map(|seed| node.level_for(&make_node_id(*seed)).index())
        .collect();
    assert_eq!(levels, vec![2, 1, 1, 0]);

    let mut lookup = node.iterative_find_node(&make_node_id(0));
    for seed in [8u8, 2, 4] {
        assert_eq!(lookup.next(&node), Some(make_contact(seed)));
        lookup.on_failure();
    }
    assert!(lookup.next(&node).is_none());
    let found: Vec<NodeId> = lookup.finish(&mut node).iter().map(|c| c.id).collect();
    assert_eq!(
        found,
        vec![make_node_id(1), make_node_id(2), make_node_id(4), make_node_id(8)]
    );
}

#[test]
fn a_lookup_without_parallelism_asks_nobody() {
    let mut node = DhtNode::new(make_node_id(1), make_contact(1), 20, 0);
    node.observe_contact(make_contact(2));
    let mut lookup = node.iterative_find_node(&make_node_id(9));
    assert!(lookup.next(&node).is_none());
    assert_eq!(lookup.finish(&mut node), vec![make_contact(2)]);
}

#[test]
fn a_value_is_stored_at_the_nearest_nodes() {
    let mut network = Network::default();
    let writer = network.add(0x40, 20, 3);
    let peers: Vec<Contact> = (0x41..0x46).map(|seed| network.add(seed, 20, 3)).collect();
    for peer in &peers {
        network.introduce(&writer, peer);
    }
    let key = network.put(&writer, b"spread".to_vec());
    for peer in &peers {
        assert_eq!(network.snapshot(peer).stored_keys, 1);
        assert_eq!(
            network
                .store_calls
                .iter()
                .filter(|(to, stored, _)| to.id == peer.id && *stored == key)
                .count(),
            1
        );
    }
}

#[test]
fn failed_stores_count_as_churn() {
    let mut network = Network::default();
    let writer = network.add(0x40, 20, 3);
    let peer = network.add(0x41, 20, 3);
    network.introduce(&writer, &peer);
    network.failing.insert(peer.id);
    network.put(&writer, b"lost".to_vec());
    // the lookup failed, and so did the store
    assert_eq!(network.snapshot(&writer).replication_factor, 30);
    assert_eq!(network.store_calls.len(), 1);
}

#[test]
fn spilled_entries_are_passed_on_before_a_new_value() {
    let mut network = Network::default();
    let writer = network.add(0x40, 20, 3);
    let peer = network.add(0x41, 20, 3);
    network.introduce(&writer, &peer);
    network.node(&writer).override_pressure_limits(100, 100, 1000);
    let first = network.put(&writer, vec![1; 70]);
    network.store_calls.clear();
    let second = network.put(&writer, vec![2; 70]);
    let keys: Vec<Key> = network.store_calls.iter().map(|(_, key, _)| *key).collect();
    assert_eq!(keys[0], first);
    assert_eq!(*keys.last().unwrap(), second);
    assert_eq!(network.snapshot(&writer).stored_keys, 1);
}

#[test]
fn spilled_entries_reach_peers_of_one_latency() {
    let mut network = Network::default();
    let writer = network.add(0x40, 20, 3);
    let one = network.add(0x41, 20, 3);
    let other = network.add(0x42, 20, 3);
    network.introduce(&writer, &one);
    network.introduce(&writer, &other);
    let _ = network.iterative_find_node(&writer, make_node_id(0x99));
    let snapshot = network.snapshot(&writer);
    assert_eq!(snapshot.tier_centroids, vec![MS, MS]);
    assert_eq!(snapshot.tier_counts, vec![1, 1]);
    assert_eq!(snapshot.concurrency, 2);

    network.node(&writer).override_pressure_limits(10, 10, 1000);
    let value = vec![7u8; 100];
    let key = hash_content(&value);
    network.handle_store_request(&writer, &one, key, value);
    assert!(network
        .store_calls
        .iter()
        .any(|(to, stored, _)| *stored == key && to.id != writer.id));
}

#[test]
fn a_new_node_has_nothing_to_tell() {
    let node = DhtNode::new(make_node_id(1), make_contact(1), 20, 3);
    assert_eq!(node.node_id(), make_node_id(1));
    assert_eq!(node.contact(), make_contact(1));
    let snapshot = node.telemetry_snapshot();
    assert_eq!(snapshot.tier_centroids, vec![150 * MS]);
    assert_eq!(snapshot.tier_counts, vec![0]);
    assert_eq!(snapshot.pressure, Some(0));
    assert_eq!(snapshot.stored_keys, 0);
    assert_eq!(snapshot.replication_factor, 20);
    assert_eq!(snapshot.concurrency, 3);
    let nothing = TelemetrySnapshot::default();
    assert_eq!(nothing.pressure, Some(0));
    assert!(nothing.tier_counts.is_empty());
}

#[test]
fn pressure_limits_can_be_lifted() {
    let mut node = DhtNode::new(make_node_id(1), make_contact(1), 20, 3);
    node.override_pressure_limits(usize::MAX, usize::MAX, usize::MAX);
    let value = vec![42u8; 12 * 1024 * 1024];
    let key = hash_content(&value);
    let (spilled, _) = node.handle_store_request(&make_contact(2), key, &value, 0);
    assert!(spilled.is_empty());
    assert_eq!(node.telemetry_snapshot().stored_keys, 1);
    assert_eq!(node.get_local(&key, 1), Some(value));
    assert_eq!(node.get_local(&make_node_id(0), 1), None);
}
