//! Latency tiers: peers grouped by the round-trip times seen of them.

use std::collections::VecDeque;
use vstd::prelude::*;

use crate::hash::{same_id, NodeId};
use crate::kmeans::{
    best_clustering, clustering, costs_no_more, dynamic_kmeans, has_member, latency_key,
    lemma_best_clustering, lemma_best_is_cheapest,
};
use crate::order::sorted_by;
use crate::pressure::{minus, saturated_sum};

verus! {

/// How long tiers stay as they are, in nanoseconds (30 seconds).
pub const TIERING_RECOMPUTE_INTERVAL: u64 = 30_000_000_000;

/// How many round-trip times are kept of a peer.
pub const MAX_RTT_SAMPLES_PER_NODE: usize = 32;

/// The fewest tiers that peers are grouped into.
pub const MIN_LATENCY_TIERS: usize = 2;

/// The most tiers that peers are grouped into.
pub const MAX_LATENCY_TIERS: usize = 5;

/// The centroid of the single tier to start with, in nanoseconds (150 ms).
pub const DEFAULT_LATENCY: u64 = 150_000_000;

/// The tier of a peer: 0 is the fastest.
#[derive(Clone, Copy, Debug, PartialEq, Eq, Structural, Hash)]
pub struct TieringLevel(usize);

impl View for TieringLevel {
    type V = nat;

    closed spec fn view(&self) -> nat {
        self.0 as nat
    }
}

impl TieringLevel {
    /// The tier with this index.
    pub fn new(index: usize) -> (level: Self)
        ensures
            level@ == index,
    {
        TieringLevel(index)
    }

    /// The index of the tier, from 0 for the fastest.
    pub fn index(self) -> (index: usize)
        ensures
            index == self@,
    {
        self.0
    }
}

/// How the peers are spread over the tiers.
#[derive(Clone, Debug, Default)]
pub struct TieringStats {
    /// The centroid of each tier in nanoseconds, fastest first.
    pub centroids: Vec<u64>,
    /// The number of peers of each tier.
    pub counts: Vec<usize>,
}

/// What is known of a peer.
#[verifier::ext_equal]
pub struct PeerView {
    /// The peer's identifier.
    pub id: NodeId,
    /// The index of its tier.
    pub level: nat,
    /// Its latest round-trip times in nanoseconds, oldest first.
    pub samples: Seq<u64>,
}

/// Whether `i` is the position of the peer with this identifier.
pub open spec fn is_peer(peers: Seq<PeerView>, id: NodeId, i: int) -> bool {
    0 <= i < peers.len() && peers[i].id == id
}

/// Whether some peer has this identifier.
pub open spec fn has_peer(peers: Seq<PeerView>, id: NodeId) -> bool {
    exists|i: int| is_peer(peers, id, i)
}

/// The position of the peer with this identifier.
pub open spec fn peer_index(peers: Seq<PeerView>, id: NodeId) -> int {
    choose|i: int| is_peer(peers, id, i)
}

/// The sum of latencies.
pub open spec fn total(samples: Seq<u64>) -> nat
    decreases samples.len(),
{
    if samples.len() == 0 {
        0
    } else {
        total(samples.drop_last()) + samples.last() as nat
    }
}

/// The mean of latencies, rounded down.
pub open spec fn average(samples: Seq<u64>) -> u64 {
    (total(samples) / samples.len()) as u64
}

/// The mean latencies of the peers that have samples, in the order of the peers.
pub open spec fn averages(peers: Seq<PeerView>) -> Seq<u64>
    decreases peers.len(),
{
    if peers.len() == 0 {
        Seq::empty()
    } else {
        let front = averages(peers.drop_last());
        if peers.last().samples.len() > 0 {
            front.push(average(peers.last().samples))
        } else {
            front
        }
    }
}

/// The peers once the `n`-th of those with samples is in tier `assignments[n]`. Peers
/// without samples stay in their tiers.
pub open spec fn reassigned(peers: Seq<PeerView>, assignments: Seq<usize>) -> Seq<PeerView> {
    Seq::new(
        peers.len(),
        |i: int|
            if peers[i].samples.len() > 0 {
                PeerView { level: assignments[averages(peers.take(i)).len() as int] as nat, ..peers[i] }
            } else {
                peers[i]
            },
    )
}

/// The latest samples with one more; of too many the oldest is dropped.
pub open spec fn with_sample(samples: Seq<u64>, rtt: u64) -> Seq<u64> {
    if samples.len() == MAX_RTT_SAMPLES_PER_NODE {
        samples.drop_first().push(rtt)
    } else {
        samples.push(rtt)
    }
}

/// How many of the first `n` peers are in a tier.
pub open spec fn level_count(peers: Seq<PeerView>, level: int, n: nat) -> nat
    decreases n,
{
    if n == 0 {
        0
    } else {
        level_count(peers, level, (n - 1) as nat) + if peers[n - 1].level == level {
            1nat
        } else {
            0nat
        }
    }
}

/// What a tiering manager holds.
#[verifier::ext_equal]
pub struct TieringView {
    /// The known peers, in the order in which they became known.
    pub peers: Seq<PeerView>,
    /// The centroid of each tier in nanoseconds, fastest first.
    pub centroids: Seq<u64>,
    /// When the tiers were computed last; none if they never were.
    pub last_recompute: Option<u64>,
}

impl TieringView {
    /// No peer is known twice, none has more samples than are kept, and there are tiers, not
    /// too many of them, ordered from the fastest to the slowest. Once they were computed there
    /// are not too few either.
    pub open spec fn wf(self) -> bool {
        &&& forall|i: int, j: int|
            0 <= i < j < self.peers.len() ==> (#[trigger] self.peers[i]).id != (
            #[trigger] self.peers[j]).id
        &&& forall|i: int|
            0 <= i < self.peers.len() ==> (#[trigger] self.peers[i]).samples.len()
                <= MAX_RTT_SAMPLES_PER_NODE
        &&& 0 < self.centroids.len() <= MAX_LATENCY_TIERS
        &&& self.last_recompute is Some ==> self.centroids.len() >= MIN_LATENCY_TIERS
        &&& sorted_by(self.centroids, latency_key())
    }

    /// A manager that knows nobody, with a single tier.
    pub open spec fn initial() -> TieringView {
        TieringView {
            peers: Seq::empty(),
            centroids: seq![DEFAULT_LATENCY],
            last_recompute: None,
        }
    }

    /// The tier for peers of which nothing is known: the middle one.
    pub open spec fn default_level(self) -> nat {
        self.centroids.len() / 2
    }

    /// The slowest tier.
    pub open spec fn slowest_level(self) -> nat {
        minus(self.centroids.len() as int, 1)
    }

    /// The tier of a peer.
    pub open spec fn level_of(self, id: NodeId) -> nat {
        if has_peer(self.peers, id) {
            self.peers[peer_index(self.peers, id)].level
        } else {
            self.default_level()
        }
    }

    /// Whether a round-trip time of this peer is known.
    pub open spec fn has_samples(self, id: NodeId) -> bool {
        has_peer(self.peers, id) && self.peers[peer_index(self.peers, id)].samples.len() > 0
    }

    /// The round-trip times that are known of a peer, oldest first.
    pub open spec fn samples_of(self, id: NodeId) -> Seq<u64> {
        if has_peer(self.peers, id) {
            self.peers[peer_index(self.peers, id)].samples
        } else {
            Seq::empty()
        }
    }

    /// The manager once a peer is known; a new one is in the default tier.
    pub open spec fn registered(self, id: NodeId) -> TieringView {
        if has_peer(self.peers, id) {
            self
        } else {
            TieringView {
                peers: self.peers.push(
                    PeerView { id, level: self.default_level(), samples: Seq::empty() },
                ),
                ..self
            }
        }
    }

    /// The manager with one more round-trip time of a peer, the tiers as they were.
    pub open spec fn sampled(self, id: NodeId, rtt: u64) -> TieringView {
        let known = self.registered(id);
        let i = peer_index(known.peers, id);
        TieringView {
            peers: known.peers.update(
                i,
                PeerView {
                    samples: with_sample(known.peers[i].samples, rtt),
                    ..known.peers[i]
                },
            ),
            ..known
        }
    }

    /// Whether it is time to compute the tiers anew, and enough peers have samples.
    pub open spec fn is_due(self, now: u64) -> bool {
        &&& match self.last_recompute {
            Some(last) => minus(now as int, last as int) >= TIERING_RECOMPUTE_INTERVAL,
            None => true,
        }
        &&& averages(self.peers).len() >= MIN_LATENCY_TIERS
    }

    /// The most tiers there can be: no more than peers with samples, nor than allowed.
    pub open spec fn most_tiers(self) -> nat {
        if averages(self.peers).len() < MAX_LATENCY_TIERS {
            averages(self.peers).len()
        } else {
            MAX_LATENCY_TIERS as nat
        }
    }

    /// Whether a peer with samples is in a tier.
    pub open spec fn has_sampled_peer(self, level: int) -> bool {
        exists|i: int|
            0 <= i < self.peers.len() && self.peers[i].samples.len() > 0 && (
            #[trigger] self.peers[i]).level == level
    }

    /// The manager once the tiers were computed anew, if that is due: the peers with samples
    /// are clustered by their mean latency.
    pub open spec fn recomputed(self, now: u64, tier_penalty: nat) -> TieringView {
        if self.is_due(now) {
            let (centroids, assignments) = best_clustering(
                averages(self.peers),
                MIN_LATENCY_TIERS as nat,
                self.most_tiers(),
                tier_penalty,
            );
            TieringView {
                peers: reassigned(self.peers, assignments),
                centroids,
                last_recompute: Some(now),
            }
        } else {
            self
        }
    }
}

struct Peer {
    id: NodeId,
    level: TieringLevel,
    samples: VecDeque<u64>,
}

impl View for Peer {
    type V = PeerView;

    closed spec fn view(&self) -> PeerView {
        PeerView { id: self.id, level: self.level@, samples: self.samples@ }
    }
}

/// Groups peers into latency tiers by k-means clustering of their mean round-trip times.
pub struct TieringManager {
    peers: Vec<Peer>,
    centroids: Vec<u64>,
    last_recompute: Option<u64>,
}

impl View for TieringManager {
    type V = TieringView;

    closed spec fn view(&self) -> TieringView {
        TieringView {
            peers: Seq::new(self.peers@.len(), |i: int| self.peers@[i]@),
            centroids: self.centroids@,
            last_recompute: self.last_recompute,
        }
    }
}

fn average_of(samples: &VecDeque<u64>) -> (mean: u64)
    requires
        0 < samples@.len() <= MAX_RTT_SAMPLES_PER_NODE,
    ensures
        mean == average(samples@),
{
    let ghost all = samples@;
    let mut sum: u128 = 0;
    assert(all.take(0) =~= Seq::empty());
    for i in 0..samples.len()
        invariant
            all == samples@,
            all.len() <= MAX_RTT_SAMPLES_PER_NODE,
            sum == total(all.take(i as int)),
            sum <= i * 0xffff_ffff_ffff_ffff,
    {
        assert(all.take(i + 1).drop_last() =~= all.take(i as int));
        sum = sum + samples[i] as u128;
    }
    assert(all.take(all.len() as int) =~= all);
    let n = samples.len() as u128;
    assert(sum / n <= 0xffff_ffff_ffff_ffff) by (nonlinear_arith)
        requires
            n > 0,
            sum <= n * 0xffff_ffff_ffff_ffff,
    ;
    (sum / n) as u64
}

impl TieringManager {
    /// The manager's invariant.
    pub open spec fn wf(&self) -> bool {
        self@.wf()
    }

    /// Creates a manager that knows nobody.
    pub fn new() -> (manager: Self)
        ensures
            manager.wf(),
            manager@ == TieringView::initial(),
    {
        let manager = TieringManager {
            peers: Vec::new(),
            centroids: vec![DEFAULT_LATENCY],
            last_recompute: None,
        };
        assert(manager@ =~= TieringView::initial());
        manager
    }

    fn find(&self, node: &NodeId) -> (position: Option<usize>)
        requires
            self.wf(),
        ensures
            match position {
                Some(i) => is_peer(self@.peers, *node, i as int) && has_peer(self@.peers, *node)
                    && peer_index(self@.peers, *node) == i,
                None => !has_peer(self@.peers, *node),
            },
    {
        for i in 0..self.peers.len()
            invariant
                self.wf(),
                forall|j: int| 0 <= j < i ==> !(#[trigger] is_peer(self@.peers, *node, j)),
        {
            assert(self@.peers[i as int] == self.peers@[i as int]@);
            if same_id(&self.peers[i].id, node) {
                proof {
                    assert(is_peer(self@.peers, *node, i as int));
                    lemma_peer_index(self@, *node, i as int);
                }
                return Some(i);
            }
        }
        None
    }

    /// Makes a peer known, in the default tier if it is new, and returns its tier.
    pub fn register_contact(&mut self, node: &NodeId) -> (level: TieringLevel)
        requires
            old(self).wf(),
        ensures
            final(self).wf(),
            final(self)@ == old(self)@.registered(*node),
            level@ == final(self)@.level_of(*node),
    {
        let ghost before = self@;
        match self.find(node) {
            Some(i) => self.peers[i].level,
            None => {
                let level = self.default_level();
                self.peers.push(Peer { id: *node, level, samples: VecDeque::new() });
                proof {
                    assert(self@ =~= before.registered(*node));
                    lemma_registered(before, *node);
                }
                level
            },
        }
    }

    /// How many peers have samples once `node` has one.
    pub fn sampled_peers_with(&self, node: &NodeId) -> (count: usize)
        requires
            self.wf(),
        ensures
            count == saturated_sum(
                averages(self@.peers).len(),
                if self@.has_samples(*node) {
                    0
                } else {
                    1
                },
            ),
    {
        let mut count: usize = 0;
        let n = self.peers.len();
        assert(self@.peers.take(0) =~= Seq::empty());
        for i in 0..n
            invariant
                n == self.peers@.len(),
                count <= i,
                count == averages(self@.peers.take(i as int)).len(),
        {
            assert(self@.peers.take(i + 1).drop_last() =~= self@.peers.take(i as int));
            assert(self@.peers[i as int] == self.peers@[i as int]@);
            if self.peers[i].samples.len() > 0 {
                count = count + 1;
            }
        }
        assert(self@.peers.take(n as int) =~= self@.peers);
        let known = match self.find(node) {
            Some(i) => self.peers[i].samples.len() > 0,
            None => false,
        };
        if known {
            count
        } else {
            count.saturating_add(1)
        }
    }

    /// Records a round-trip time of a peer, and computes the tiers anew if that is due.
    pub fn record_sample(&mut self, node: &NodeId, rtt: u64, now: u64, tier_penalty: u128)
        requires
            old(self).wf(),
        ensures
            final(self).wf(),
            final(self)@ == old(self)@.sampled(*node, rtt).recomputed(now, tier_penalty as nat),
    {
        let ghost before = self@;
        let _ = self.register_contact(node);
        let ghost known = self@;
        proof {
            lemma_registered(before, *node);
        }
        match self.find(node) {
            Some(i) => {
                let ghost samples = self.peers@[i as int].samples@;
                if self.peers[i].samples.len() == MAX_RTT_SAMPLES_PER_NODE {
                    let _ = self.peers[i].samples.pop_front();
                    assert(self.peers@[i as int].samples@ =~= samples.drop_first());
                }
                self.peers[i].samples.push_back(rtt);
                assert(self.peers@[i as int].samples@ =~= with_sample(samples, rtt));
                assert(self@ =~= before.sampled(*node, rtt));
            },
            None => {
                assert(false);
            },
        }
        proof {
            lemma_sampled_wf(before, *node, rtt);
        }
        self.recompute_if_needed(now, tier_penalty);
    }

    /// The tier of a peer.
    pub fn level_for(&self, node: &NodeId) -> (level: TieringLevel)
        requires
            self.wf(),
        ensures
            level@ == self@.level_of(*node),
    {
        match self.find(node) {
            Some(i) => self.peers[i].level,
            None => self.default_level(),
        }
    }

    /// How the peers are spread over the tiers; peers in a tier that no longer exists are
    /// not counted.
    pub fn stats(&self) -> (stats: TieringStats)
        ensures
            stats.centroids@ == self@.centroids,
            stats.counts@.len() == self@.centroids.len(),
            forall|t: int|
                0 <= t < self@.centroids.len() ==> #[trigger] stats.counts@[t] == level_count(
                    self@.peers,
                    t,
                    self@.peers.len(),
                ),
    {
        let tiers = self.centroids.len();
        let mut centroids: Vec<u64> = Vec::new();
        for t in 0..tiers
            invariant
                tiers == self.centroids@.len(),
                centroids@ == self.centroids@.take(t as int),
        {
            centroids.push(self.centroids[t]);
            assert(self.centroids@.take(t + 1) =~= self.centroids@.take(t as int).push(
                self.centroids@[t as int],
            ));
        }
        assert(self.centroids@.take(tiers as int) =~= self.centroids@);
        let mut counts: Vec<usize> = vec![0usize; tiers];
        for i in 0..self.peers.len()
            invariant
                tiers == self@.centroids.len(),
                counts@.len() == tiers,
                forall|t: int|
                    0 <= t < tiers ==> #[trigger] counts@[t] == level_count(
                        self@.peers,
                        t,
                        i as nat,
                    ),
                forall|t: int| 0 <= t < tiers ==> #[trigger] counts@[t] <= i,
        {
            let ghost before = counts@;
            let level = self.peers[i].level.index();
            assert(self@.peers[i as int] == self.peers@[i as int]@);
            if level < tiers {
                counts[level] = counts[level] + 1;
            }
            proof {
                assert forall|t: int| 0 <= t < tiers implies #[trigger] counts@[t] == level_count(
                    self@.peers,
                    t,
                    (i + 1) as nat,
                ) && counts@[t] <= i + 1 by {
                    assert(before[t] == level_count(self@.peers, t, i as nat));
                }
            }
        }
        TieringStats { centroids, counts }
    }

    /// Computes the tiers anew if the interval is over and enough peers have samples.
    pub fn recompute_if_needed(&mut self, now: u64, tier_penalty: u128)
        requires
            old(self).wf(),
        ensures
            final(self).wf(),
            final(self)@ == old(self)@.recomputed(now, tier_penalty as nat),
    {
        let ghost before = self@;
        match self.last_recompute {
            Some(last) => {
                if now.saturating_sub(last) < TIERING_RECOMPUTE_INTERVAL {
                    return;
                }
            },
            None => {},
        }
        let n = self.peers.len();
        let mut means: Vec<u64> = Vec::new();
        assert(before.peers.take(0) =~= Seq::empty());
        for i in 0..n
            invariant
                self.wf(),
                self@ == before,
                n == self.peers@.len(),
                means@ == averages(before.peers.take(i as int)),
                means@.len() <= i,
        {
            assert(before.peers.take(i + 1).drop_last() =~= before.peers.take(i as int));
            assert(before.peers[i as int] == self.peers@[i as int]@);
            if self.peers[i].samples.len() > 0 {
                means.push(average_of(&self.peers[i].samples));
            }
        }
        assert(before.peers.take(n as int) =~= before.peers);
        if means.len() < MIN_LATENCY_TIERS {
            return;
        }
        let most = if means.len() < MAX_LATENCY_TIERS {
            means.len()
        } else {
            MAX_LATENCY_TIERS
        };
        let (centroids, assignments) = dynamic_kmeans(&means, MIN_LATENCY_TIERS, most, tier_penalty);
        let mut next: usize = 0;
        let ghost after = reassigned(before.peers, assignments@);
        for i in 0..n
            invariant
                n == self.peers@.len(),
                n == before.peers.len(),
                means@ == averages(before.peers),
                assignments@.len() == means@.len(),
                after == reassigned(before.peers, assignments@),
                next == averages(before.peers.take(i as int)).len(),
                next <= i,
                forall|j: int| 0 <= j < i ==> (#[trigger] self.peers@[j])@ == after[j],
                forall|j: int| i <= j < n ==> (#[trigger] self.peers@[j])@ == before.peers[j],
        {
            proof {
                assert(before.peers.take(i + 1).drop_last() =~= before.peers.take(i as int));
                lemma_averages_prefix(before.peers, i + 1);
            }
            assert(self.peers@[i as int]@ == before.peers[i as int]);
            if self.peers[i].samples.len() > 0 {
                self.peers[i].level = TieringLevel::new(assignments[next]);
                next = next + 1;
            }
        }
        self.centroids = centroids;
        self.last_recompute = Some(now);
        assert(self@ =~= before.recomputed(now, tier_penalty as nat));
    }

    /// The tier for peers of which nothing is known: the middle one.
    pub fn default_level(&self) -> (level: TieringLevel)
        ensures
            level@ == self@.default_level(),
    {
        TieringLevel::new(self.centroids.len() / 2)
    }

    /// The slowest tier.
    pub fn slowest_level(&self) -> (level: TieringLevel)
        ensures
            level@ == self@.slowest_level(),
    {
        if self.centroids.len() == 0 {
            TieringLevel::new(0)
        } else {
            TieringLevel::new(self.centroids.len() - 1)
        }
    }
}

proof fn lemma_peer_index(tiering: TieringView, id: NodeId, i: int)
    requires
        tiering.wf(),
        is_peer(tiering.peers, id, i),
    ensures
        peer_index(tiering.peers, id) == i,
        has_peer(tiering.peers, id),
{
    let j = peer_index(tiering.peers, id);
    assert(is_peer(tiering.peers, id, j));
    if i < j {
        assert(tiering.peers[i].id != tiering.peers[j].id);
    }
    if j < i {
        assert(tiering.peers[j].id != tiering.peers[i].id);
    }
}

proof fn lemma_averages_prefix(peers: Seq<PeerView>, n: int)
    requires
        0 <= n <= peers.len(),
    ensures
        averages(peers.take(n)).len() <= averages(peers).len(),
        averages(peers.take(n)) == averages(peers).take(averages(peers.take(n)).len() as int),
    decreases peers.len() - n,
{
    if n == peers.len() {
        assert(peers.take(n) =~= peers);
        assert(averages(peers).take(averages(peers).len() as int) =~= averages(peers));
    } else {
        lemma_averages_prefix(peers, n + 1);
        assert(peers.take(n + 1).drop_last() =~= peers.take(n));
        let m = averages(peers.take(n)).len() as int;
        assert(averages(peers.take(n)) =~= averages(peers).take(m));
    }
}

/// Making a peer known keeps the invariant; the peer is then known, in the tier that it had
/// or else the default one, and the other peers are where they were.
pub proof fn lemma_registered(tiering: TieringView, id: NodeId)
    requires
        tiering.wf(),
    ensures
        tiering.registered(id).wf(),
        has_peer(tiering.registered(id).peers, id),
        tiering.registered(id).level_of(id) == tiering.level_of(id),
        forall|other: NodeId| #[trigger]
            tiering.registered(id).level_of(other) == tiering.level_of(other),
{
    let after = tiering.registered(id);
    if !has_peer(tiering.peers, id) {
        let n = tiering.peers.len() as int;
        assert(is_peer(after.peers, id, n));
        assert forall|i: int| 0 <= i < n implies #[trigger] tiering.peers[i] == after.peers[i]
            && after.peers[i].id != id by {
            assert(!is_peer(tiering.peers, id, i));
        }
        assert(after.wf()) by {
            assert forall|i: int, j: int| 0 <= i < j < after.peers.len() implies (
            #[trigger] after.peers[i]).id != (#[trigger] after.peers[j]).id by {
                assert(tiering.peers[i] == after.peers[i]);
                if j < n {
                    assert(tiering.peers[j] == after.peers[j]);
                    assert(tiering.peers[i].id != tiering.peers[j].id);
                }
            }
            assert forall|i: int| 0 <= i < after.peers.len() implies (
            #[trigger] after.peers[i]).samples.len() <= MAX_RTT_SAMPLES_PER_NODE by {
                if i < n {
                    assert(tiering.peers[i] == after.peers[i]);
                }
            }
        }
        lemma_peer_index(after, id, n);
        assert forall|other: NodeId| #[trigger] after.level_of(other) == tiering.level_of(other) by {
            if has_peer(tiering.peers, other) {
                let i = peer_index(tiering.peers, other);
                assert(is_peer(tiering.peers, other, i));
                assert(tiering.peers[i] == after.peers[i]);
                assert(is_peer(after.peers, other, i));
                lemma_peer_index(after, other, i);
            } else if has_peer(after.peers, other) {
                let i = peer_index(after.peers, other);
                assert(is_peer(after.peers, other, i));
                if i < n {
                    assert(tiering.peers[i] == after.peers[i]);
                    assert(is_peer(tiering.peers, other, i));
                }
            }
        }
    }
}

/// Recording a round-trip time keeps the invariant.
pub proof fn lemma_sampled_wf(tiering: TieringView, id: NodeId, rtt: u64)
    requires
        tiering.wf(),
    ensures
        tiering.sampled(id, rtt).wf(),
{
    lemma_registered(tiering, id);
    let known = tiering.registered(id);
    let after = tiering.sampled(id, rtt);
    let p = peer_index(known.peers, id);
    assert(is_peer(known.peers, id, p));
    assert forall|i: int| 0 <= i < after.peers.len() implies (#[trigger] after.peers[i]).id
        == known.peers[i].id && after.peers[i].samples.len() <= MAX_RTT_SAMPLES_PER_NODE by {
        assert(known.peers[i].samples.len() <= MAX_RTT_SAMPLES_PER_NODE);
    }
    assert forall|i: int, j: int| 0 <= i < j < after.peers.len() implies (
    #[trigger] after.peers[i]).id != (#[trigger] after.peers[j]).id by {
        assert(known.peers[i].id != known.peers[j].id);
    }
}

proof fn lemma_averages_update_len(peers: Seq<PeerView>, p: int, peer: PeerView)
    requires
        0 <= p < peers.len(),
        peer.samples.len() > 0,
    ensures
        averages(peers.update(p, peer)).len() == averages(peers).len() + if peers[p].samples.len()
            == 0 {
            1nat
        } else {
            0nat
        },
    decreases peers.len(),
{
    let after = peers.update(p, peer);
    if p == peers.len() - 1 {
        assert(after.drop_last() =~= peers.drop_last());
    } else {
        lemma_averages_update_len(peers.drop_last(), p, peer);
        assert(after.drop_last() =~= peers.drop_last().update(p, peer));
    }
}

/// A first round-trip time makes one more peer with samples; any other leaves their number
/// as it was.
pub proof fn lemma_sampled_count(tiering: TieringView, id: NodeId, rtt: u64)
    requires
        tiering.wf(),
    ensures
        averages(tiering.sampled(id, rtt).peers).len() == averages(tiering.peers).len()
            + if tiering.has_samples(id) {
            0nat
        } else {
            1nat
        },
{
    lemma_registered(tiering, id);
    let known = tiering.registered(id);
    let p = peer_index(known.peers, id);
    assert(is_peer(known.peers, id, p));
    if !has_peer(tiering.peers, id) {
        assert(known.peers.drop_last() =~= tiering.peers);
        assert(is_peer(known.peers, id, tiering.peers.len() as int));
        lemma_peer_index(known, id, tiering.peers.len() as int);
    }
    lemma_averages_update_len(
        known.peers,
        p,
        PeerView { samples: with_sample(known.peers[p].samples, rtt), ..known.peers[p] },
    );
}

proof fn lemma_average_at(peers: Seq<PeerView>, i: int)
    requires
        0 <= i < peers.len(),
        peers[i].samples.len() > 0,
    ensures
        averages(peers.take(i)).len() < averages(peers).len(),
        averages(peers)[averages(peers.take(i)).len() as int] == average(peers[i].samples),
{
    let m = averages(peers.take(i)).len() as int;
    assert(peers.take(i + 1).drop_last() =~= peers.take(i));
    lemma_averages_prefix(peers, i + 1);
    assert(averages(peers.take(i + 1))[m] == average(peers[i].samples));
}

proof fn lemma_averages_len(peers: Seq<PeerView>)
    ensures
        averages(peers).len() <= peers.len(),
    decreases peers.len(),
{
    if peers.len() > 0 {
        lemma_averages_len(peers.drop_last());
    }
}

proof fn lemma_average_of_peer(peers: Seq<PeerView>, m: int) -> (i: int)
    requires
        0 <= m < averages(peers).len(),
    ensures
        0 <= i < peers.len(),
        peers[i].samples.len() > 0,
        averages(peers.take(i)).len() == m,
    decreases peers.len(),
{
    let front = peers.drop_last();
    let last = peers.len() - 1;
    if m == averages(front).len() {
        assert(peers.take(last) =~= front);
        last
    } else {
        let i = lemma_average_of_peer(front, m);
        assert(peers.take(i) =~= front.take(i));
        i
    }
}

/// Computing the tiers keeps the invariant. It is done only once the interval is over; then
/// every peer with samples is in one of the tiers, every tier has such a peer, and of two such
/// peers the one with the lower mean latency is never in a slower tier. There are at least two
/// tiers, and no more than five or than peers with samples.
pub proof fn lemma_recomputed(tiering: TieringView, now: u64, tier_penalty: nat)
    requires
        tiering.wf(),
        tiering.peers.len() <= usize::MAX,
    ensures
        tiering.recomputed(now, tier_penalty).wf(),
        !tiering.is_due(now) ==> tiering.recomputed(now, tier_penalty) == tiering,
        tiering.is_due(now) ==> {
            let after = tiering.recomputed(now, tier_penalty);
            &&& after.last_recompute == Some(now)
            &&& after.peers.len() == tiering.peers.len()
            &&& forall|i: int|
                0 <= i < tiering.peers.len() ==> (#[trigger] after.peers[i]).id
                    == tiering.peers[i].id && after.peers[i].samples == tiering.peers[i].samples
            &&& forall|i: int|
                0 <= i < tiering.peers.len() && tiering.peers[i].samples.len() == 0 ==> (
                #[trigger] after.peers[i]).level == tiering.peers[i].level
            &&& MIN_LATENCY_TIERS <= after.centroids.len() <= tiering.most_tiers()
            &&& forall|i: int|
                0 <= i < tiering.peers.len() && tiering.peers[i].samples.len() > 0 ==> (
                #[trigger] after.peers[i]).level < after.centroids.len()
            &&& forall|t: int|
                0 <= t < after.centroids.len() ==> #[trigger] after.has_sampled_peer(t)
            &&& forall|i: int, j: int|
                0 <= i < tiering.peers.len() && 0 <= j < tiering.peers.len()
                    && tiering.peers[i].samples.len() > 0 && tiering.peers[j].samples.len() > 0
                    && average(tiering.peers[i].samples) < average(tiering.peers[j].samples) ==> (
                #[trigger] after.peers[i]).level <= (#[trigger] after.peers[j]).level
        },
{
    if tiering.is_due(now) {
        let peers = tiering.peers;
        let means = averages(peers);
        lemma_averages_len(peers);
        lemma_best_clustering(
            means,
            MIN_LATENCY_TIERS as nat,
            tiering.most_tiers(),
            tier_penalty,
        );
        let assignments = best_clustering(
            means,
            MIN_LATENCY_TIERS as nat,
            tiering.most_tiers(),
            tier_penalty,
        ).1;
        let after = tiering.recomputed(now, tier_penalty);
        assert forall|i: int| 0 <= i < peers.len() implies (#[trigger] after.peers[i]).id
            == peers[i].id && after.peers[i].samples == peers[i].samples by {}
        assert forall|i: int|
            0 <= i < peers.len() && peers[i].samples.len() > 0 implies (
        #[trigger] after.peers[i]).level < after.centroids.len() by {
            lemma_average_at(peers, i);
            assert(assignments[averages(peers.take(i)).len() as int] < after.centroids.len());
        }
        assert forall|t: int|
            0 <= t < after.centroids.len() implies #[trigger] after.has_sampled_peer(t) by {
            assert(has_member(assignments, t));
            let m = choose|m: int| 0 <= m < assignments.len() && #[trigger] assignments[m] == t;
            let i = lemma_average_of_peer(peers, m);
            assert(after.peers[i].level == t);
        }
        assert forall|i: int, j: int|
            0 <= i < peers.len() && 0 <= j < peers.len() && peers[i].samples.len() > 0
                && peers[j].samples.len() > 0 && average(peers[i].samples) < average(
                peers[j].samples,
            ) implies (#[trigger] after.peers[i]).level <= (#[trigger] after.peers[j]).level by {
            lemma_average_at(peers, i);
            lemma_average_at(peers, j);
            let m = averages(peers.take(i)).len() as int;
            let n = averages(peers.take(j)).len() as int;
            assert(assignments[m] <= assignments[n]);
        }
        assert forall|i: int, j: int| 0 <= i < j < after.peers.len() implies (
        #[trigger] after.peers[i]).id != (#[trigger] after.peers[j]).id by {
            assert(peers[i].id != peers[j].id);
        }
        assert forall|i: int| 0 <= i < after.peers.len() implies (
        #[trigger] after.peers[i]).samples.len() <= MAX_RTT_SAMPLES_PER_NODE by {
            assert(peers[i].samples.len() <= MAX_RTT_SAMPLES_PER_NODE);
        }
    }
}

/// The default tier and the slowest one are tiers that exist. None is slower than the slowest, and
/// as many are faster than the default one as are slower, or one more.
pub proof fn lemma_default_level_exists(tiering: TieringView, level: nat)
    requires
        tiering.wf(),
        level < tiering.centroids.len(),
    ensures
        tiering.default_level() < tiering.centroids.len(),
        tiering.slowest_level() < tiering.centroids.len(),
        level <= tiering.slowest_level(),
        tiering.centroids.len() - 1 <= 2 * tiering.default_level() <= tiering.centroids.len(),
{
}

/// How many of the first `n` peers are in the first tiers.
pub open spec fn peers_below(peers: Seq<PeerView>, tiers: nat, n: nat) -> nat
    decreases tiers,
{
    if tiers == 0 {
        0
    } else {
        peers_below(peers, (tiers - 1) as nat, n) + level_count(peers, tiers - 1, n)
    }
}

/// Where every peer is in a tier that exists, the counts of the tiers add up to the number
/// of peers.
pub proof fn lemma_counts_add_up(tiering: TieringView)
    requires
        forall|i: int|
            0 <= i < tiering.peers.len() ==> (#[trigger] tiering.peers[i]).level
                < tiering.centroids.len(),
    ensures
        peers_below(tiering.peers, tiering.centroids.len(), tiering.peers.len())
            == tiering.peers.len(),
{
    lemma_counts_partition(tiering.peers, tiering.centroids.len(), tiering.peers.len());
}

proof fn lemma_counts_partition(peers: Seq<PeerView>, tiers: nat, n: nat)
    requires
        n <= peers.len(),
        forall|i: int| 0 <= i < n ==> (#[trigger] peers[i]).level < tiers,
    ensures
        peers_below(peers, tiers, n) == n,
    decreases n,
{
    if n == 0 {
        lemma_none_counted(peers, tiers);
    } else {
        lemma_counts_partition(peers, tiers, (n - 1) as nat);
        lemma_one_more_counted(peers, tiers, n);
        assert(peers[n - 1].level < tiers);
    }
}

proof fn lemma_none_counted(peers: Seq<PeerView>, tiers: nat)
    ensures
        peers_below(peers, tiers, 0) == 0,
    decreases tiers,
{
    if tiers > 0 {
        lemma_none_counted(peers, (tiers - 1) as nat);
    }
}

proof fn lemma_one_more_counted(peers: Seq<PeerView>, tiers: nat, n: nat)
    requires
        0 < n <= peers.len(),
    ensures
        peers_below(peers, tiers, n) == peers_below(peers, tiers, (n - 1) as nat) + if peers[n
            - 1].level < tiers {
            1nat
        } else {
            0nat
        },
    decreases tiers,
{
    if tiers > 0 {
        lemma_one_more_counted(peers, (tiers - 1) as nat, n);
    }
}

/// Of a peer's round-trip times the latest thirty-two are kept, in their order, a new one last. The
/// times of other peers, everybody's tier and the tiers themselves stay as they are.
pub proof fn lemma_samples_keep_latest(tiering: TieringView, id: NodeId, rtt: u64)
    requires
        tiering.wf(),
    ensures
        ({
            let after = tiering.sampled(id, rtt);
            let all = tiering.samples_of(id).push(rtt);
            let kept = after.samples_of(id);
            &&& has_peer(after.peers, id)
            &&& kept.len() == if all.len() < 32 {
                all.len()
            } else {
                32
            }
            &&& forall|i: int|
                0 <= i < kept.len() ==> #[trigger] kept[i] == all[i + all.len() - kept.len()]
            &&& forall|other: NodeId|
                other != id ==> #[trigger] after.samples_of(other) == tiering.samples_of(other)
            &&& forall|other: NodeId| #[trigger] after.level_of(other) == tiering.level_of(other)
            &&& after.centroids == tiering.centroids
            &&& after.last_recompute == tiering.last_recompute
        }),
{
    lemma_registered(tiering, id);
    lemma_registered_samples(tiering, id);
    lemma_sampled_wf(tiering, id, rtt);
    let known = tiering.registered(id);
    let after = tiering.sampled(id, rtt);
    let p = peer_index(known.peers, id);
    assert(is_peer(known.peers, id, p));
    assert(known.peers[p].samples.len() <= MAX_RTT_SAMPLES_PER_NODE);
    assert(is_peer(after.peers, id, p));
    lemma_peer_index(after, id, p);
    assert forall|other: NodeId| #[trigger] after.level_of(other) == tiering.level_of(other) by {
        lemma_same_place(known, after, other);
        assert(known.level_of(other) == tiering.level_of(other));
    }
    assert forall|other: NodeId| other != id implies #[trigger] after.samples_of(other)
        == tiering.samples_of(other) by {
        lemma_same_place(known, after, other);
        assert(known.samples_of(other) == tiering.samples_of(other));
    }
    assert(known.samples_of(id) == tiering.samples_of(id));
}

proof fn lemma_same_place(a: TieringView, b: TieringView, id: NodeId)
    requires
        a.wf(),
        b.wf(),
        a.peers.len() == b.peers.len(),
        forall|i: int| 0 <= i < a.peers.len() ==> (#[trigger] a.peers[i]).id == b.peers[i].id,
    ensures
        has_peer(a.peers, id) <==> has_peer(b.peers, id),
        has_peer(a.peers, id) ==> {
            &&& peer_index(a.peers, id) == peer_index(b.peers, id)
            &&& is_peer(a.peers, id, peer_index(a.peers, id))
        },
{
    if has_peer(a.peers, id) {
        let i = peer_index(a.peers, id);
        assert(is_peer(a.peers, id, i));
        assert(a.peers[i].id == b.peers[i].id);
        assert(is_peer(b.peers, id, i));
        lemma_peer_index(b, id, i);
    }
    if has_peer(b.peers, id) {
        let i = peer_index(b.peers, id);
        assert(is_peer(b.peers, id, i));
        assert(a.peers[i].id == b.peers[i].id);
        assert(is_peer(a.peers, id, i));
    }
}

/// Getting to know a peer changes no round-trip times.
pub proof fn lemma_registered_samples(tiering: TieringView, id: NodeId)
    requires
        tiering.wf(),
    ensures
        forall|other: NodeId| #[trigger]
            tiering.registered(id).samples_of(other) == tiering.samples_of(other),
{
    lemma_registered(tiering, id);
    let after = tiering.registered(id);
    if !has_peer(tiering.peers, id) {
        let n = tiering.peers.len() as int;
        assert(is_peer(after.peers, id, n));
        lemma_peer_index(after, id, n);
        assert forall|other: NodeId| #[trigger] after.samples_of(other) == tiering.samples_of(
            other,
        ) by {
            if has_peer(tiering.peers, other) {
                let i = peer_index(tiering.peers, other);
                assert(is_peer(tiering.peers, other, i));
                assert(is_peer(after.peers, other, i));
                lemma_peer_index(after, other, i);
            } else if has_peer(after.peers, other) {
                let i = peer_index(after.peers, other);
                assert(is_peer(after.peers, other, i));
                if i < n {
                    assert(is_peer(tiering.peers, other, i));
                }
                assert(after.samples_of(other) =~= Seq::empty());
            }
        }
    }
}

/// The mean latencies are those of the peers with samples, in the order of the peers.
pub proof fn lemma_averages_of_sampled_peers(peers: Seq<PeerView>)
    ensures
        averages(peers) == peers.filter(|p: PeerView| p.samples.len() > 0).map_values(
            |p: PeerView| average(p.samples),
        ),
        averages(peers).len() == peers.filter(|p: PeerView| p.samples.len() > 0).len(),
    decreases peers.len(),
{
    reveal(Seq::filter);
    let pred = |p: PeerView| p.samples.len() > 0;
    let mean = |p: PeerView| average(p.samples);
    if peers.len() > 0 {
        let front = peers.drop_last();
        lemma_averages_of_sampled_peers(front);
        assert(averages(peers) =~= peers.filter(pred).map_values(mean));
    } else {
        assert(averages(peers) =~= peers.filter(pred).map_values(mean));
    }
}

/// The sum of latencies adds up.
pub proof fn lemma_total(a: Seq<u64>, b: Seq<u64>, x: u64)
    ensures
        total(seq![x]) == x,
        total(a + b) == total(a) + total(b),
    decreases b.len(),
{
    assert(seq![x].drop_last() =~= Seq::empty());
    assert(total(seq![x].drop_last()) == 0);
    if b.len() == 0 {
        assert(a + b =~= a);
    } else {
        lemma_total(a, b.drop_last(), x);
        assert((a + b).drop_last() =~= a + b.drop_last());
    }
}

/// A mean latency is the sum of the latencies by their number, rounded down.
pub proof fn lemma_average(samples: Seq<u64>)
    requires
        samples.len() > 0,
    ensures
        samples.len() * average(samples) <= total(samples) < samples.len() * (average(samples) + 1),
{
    lemma_total_bound(samples);
    let n = samples.len() as int;
    let t = total(samples) as int;
    assert(0 <= t / n <= u64::MAX) by (nonlinear_arith)
        requires
            n > 0,
            0 <= t <= n * u64::MAX,
    ;
    assert(n * (t / n) <= t < n * (t / n + 1)) by (nonlinear_arith)
        requires
            n > 0,
            0 <= t,
    ;
}

proof fn lemma_total_bound(samples: Seq<u64>)
    ensures
        total(samples) <= samples.len() * u64::MAX,
    decreases samples.len(),
{
    if samples.len() > 0 {
        lemma_total_bound(samples.drop_last());
    }
}

/// The count of a tier is the number of its peers.
pub proof fn lemma_level_count(peers: Seq<PeerView>, level: int)
    ensures
        level_count(peers, level, peers.len()) == peers.filter(
            |p: PeerView| p.level == level,
        ).len(),
    decreases peers.len(),
{
    reveal(Seq::filter);
    if peers.len() > 0 {
        let front = peers.drop_last();
        lemma_level_count(front, level);
        lemma_level_count_prefix(peers, front, level, front.len());
    }
}

proof fn lemma_level_count_prefix(a: Seq<PeerView>, b: Seq<PeerView>, level: int, n: nat)
    requires
        n <= a.len(),
        n <= b.len(),
        forall|i: int| 0 <= i < n ==> #[trigger] a[i] == b[i],
    ensures
        level_count(a, level, n) == level_count(b, level, n),
    decreases n,
{
    if n > 0 {
        lemma_level_count_prefix(a, b, level, (n - 1) as nat);
        assert(a[n - 1] == b[n - 1]);
    }
}

/// Tiers are computed anew exactly when half a minute went by since they were, or they never were,
/// and at least two peers have samples. Until then nothing changes.
pub proof fn lemma_recomputes_after_half_a_minute(tiering: TieringView, now: u64, tier_penalty: nat)
    ensures
        ({
            let sampled = tiering.peers.filter(|p: PeerView| p.samples.len() > 0).len();
            let waits = tiering.last_recompute matches Some(last) && now - last < 30_000_000_000;
            let after = tiering.recomputed(now, tier_penalty);
            if waits || sampled < 2 {
                after == tiering
            } else {
                after.last_recompute == Some(now)
            }
        }),
{
    lemma_averages_of_sampled_peers(tiering.peers);
}

/// Computing the tiers anew changes neither who is known nor any round-trip times.
pub proof fn lemma_recomputed_samples(
    tiering: TieringView,
    now: u64,
    tier_penalty: nat,
    id: NodeId,
)
    requires
        tiering.wf(),
        tiering.peers.len() <= usize::MAX,
    ensures
        has_peer(tiering.recomputed(now, tier_penalty).peers, id) <==> has_peer(tiering.peers, id),
        tiering.recomputed(now, tier_penalty).samples_of(id) == tiering.samples_of(id),
{
    lemma_recomputed(tiering, now, tier_penalty);
    if tiering.is_due(now) {
        lemma_same_place(tiering, tiering.recomputed(now, tier_penalty), id);
    }
}

/// Who is known stays known.
pub proof fn lemma_registered_peers(tiering: TieringView, id: NodeId, other: NodeId)
    ensures
        has_peer(tiering.registered(id).peers, other) <==> has_peer(tiering.peers, other) || other
            == id,
        tiering.registered(id).peers.len() <= tiering.peers.len() + 1,
{
    let after = tiering.registered(id).peers;
    if !has_peer(tiering.peers, id) {
        let n = tiering.peers.len() as int;
        assert(is_peer(after, id, n));
        if has_peer(tiering.peers, other) {
            let i = peer_index(tiering.peers, other);
            assert(is_peer(tiering.peers, other, i));
            assert(is_peer(after, other, i));
        } else if has_peer(after, other) {
            let i = peer_index(after, other);
            assert(is_peer(after, other, i));
            if i < n {
                assert(is_peer(tiering.peers, other, i));
            }
        }
    }
}

/// A peer whose round-trip time is recorded is known from then on; nobody else comes or goes.
pub proof fn lemma_sampled_peers(tiering: TieringView, id: NodeId, rtt: u64, other: NodeId)
    requires
        tiering.wf(),
    ensures
        has_peer(tiering.sampled(id, rtt).peers, other) <==> has_peer(tiering.peers, other) || other
            == id,
        tiering.sampled(id, rtt).peers.len() <= tiering.peers.len() + 1,
{
    lemma_registered(tiering, id);
    lemma_registered_peers(tiering, id, other);
    lemma_sampled_wf(tiering, id, rtt);
    let known = tiering.registered(id);
    assert(is_peer(known.peers, id, peer_index(known.peers, id)));
    lemma_same_place(known, tiering.sampled(id, rtt), other);
}

/// When the tiers are computed anew, they are those of a cheapest clustering of the mean latencies
/// into two to five tiers, and no more than there are sampled peers, where each tier costs the
/// penalty: no other number of tiers would cost less, and no smaller one as little. The tier of a
/// sampled peer is its cluster.
pub proof fn lemma_recomputed_at_lowest_cost(
    tiering: TieringView,
    now: u64,
    tier_penalty: nat,
    j: nat,
    i: int,
)
    requires
        tiering.wf(),
        tiering.peers.len() <= usize::MAX,
        tiering.is_due(now),
        2 <= j <= 5,
        j <= averages(tiering.peers).len(),
        0 <= i < tiering.peers.len(),
        tiering.peers[i].samples.len() > 0,
    ensures
        ({
            let means = averages(tiering.peers);
            let after = tiering.recomputed(now, tier_penalty);
            let n = after.centroids.len();
            &&& after.centroids == clustering(means, n).centers
            &&& after.peers[i].level == clustering(means, n).assignments[averages(
                tiering.peers.take(i),
            ).len() as int]
            &&& 2 <= n <= 5 && n <= means.len()
            &&& costs_no_more(means, tier_penalty, n, j)
            &&& j < n ==> !costs_no_more(means, tier_penalty, j, n)
        }),
{
    let means = averages(tiering.peers);
    lemma_averages_len(tiering.peers);
    let _ = lemma_best_is_cheapest(
        means,
        MIN_LATENCY_TIERS as nat,
        tiering.most_tiers(),
        tier_penalty,
        j,
    );
}

/// A manager that knows nobody has a single tier, of 150 milliseconds.
pub proof fn lemma_initial()
    ensures
        TieringView::initial().wf(),
        TieringView::initial().peers.len() == 0,
        TieringView::initial().centroids == seq![150_000_000u64],
        TieringView::initial().last_recompute is None,
        TieringView::initial().slowest_level() == 0,
{
}

/// A peer of which nothing is known is in the middle tier, and stays there when it becomes known:
/// as many tiers are faster as are slower, or one more.
pub proof fn lemma_unknown_peer_is_in_the_middle(tiering: TieringView, id: NodeId)
    requires
        tiering.wf(),
        !has_peer(tiering.peers, id),
    ensures
        ({
            let faster = tiering.level_of(id) as int;
            let slower = tiering.centroids.len() - 1 - faster;
            &&& slower <= faster <= slower + 1
            &&& tiering.registered(id).level_of(id) == faster
            &&& tiering.registered(id).centroids == tiering.centroids
        }),
{
    lemma_registered(tiering, id);
}

} // verus!
