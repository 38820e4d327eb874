//! The Kademlia routing table: 256 buckets of peers, one per bit of the distance.

use vstd::prelude::*;

use crate::contact::{
    by_distance, distance_key, distinct_ids, first_with, has_id, insert_by_distance, is_first_with,
    lemma_sort_by_distinct, lemma_first_with_unique, lemma_has_id_first, nearest_first,
    position_of, Contact,
};
use crate::distance::{
    bucket_index, bucket_of, dist, lemma_bucket_covers_distance_range, lemma_distance_unique,
};
use crate::hash::{same_id, NodeId};
use crate::order::{
    first_of, lemma_filter_all, lemma_filter_one, lemma_first_of_insert, lemma_sort_by, sort_by,
};

verus! {

/// The contacts of a bucket once the one with this identifier was seen again: it moves to
/// the end, behind all that were seen before it.
pub open spec fn refreshed(contacts: Seq<Contact>, id: NodeId) -> Seq<Contact> {
    if has_id(contacts, id) {
        let i = first_with(contacts, id);
        contacts.remove(i).push(contacts[i])
    } else {
        contacts
    }
}

/// The contacts of a bucket without the one that has this identifier.
pub open spec fn without_id(contacts: Seq<Contact>, id: NodeId) -> Seq<Contact> {
    if has_id(contacts, id) {
        contacts.remove(first_with(contacts, id))
    } else {
        contacts
    }
}

/// The contacts of a bucket of size `k` once `contact` was seen: a known one moves to the
/// end, a new one is added while there is room, and a full bucket stays as it is.
pub open spec fn touched(contacts: Seq<Contact>, contact: Contact, k: nat) -> Seq<Contact> {
    if has_id(contacts, contact.id) {
        refreshed(contacts, contact.id)
    } else if contacts.len() < k {
        contacts.push(contact)
    } else {
        contacts
    }
}

/// The contacts that stay when a bucket shrinks to `k`: the `k` seen last.
pub open spec fn trimmed(contacts: Seq<Contact>, k: nat) -> Seq<Contact> {
    if contacts.len() > k {
        contacts.skip(contacts.len() - k)
    } else {
        contacts
    }
}

/// The contacts of all buckets, in the order of the buckets.
pub open spec fn gathered(buckets: Seq<Seq<Contact>>) -> Seq<Contact>
    decreases buckets.len(),
{
    if buckets.len() == 0 {
        Seq::empty()
    } else {
        gathered(buckets.drop_last()) + buckets.last()
    }
}

/// A single routing bucket: contacts from the one seen longest ago to the one seen last.
#[derive(Debug, Default, Clone)]
pub struct Bucket {
    contacts: Vec<Contact>,
}

impl View for Bucket {
    type V = Seq<Contact>;

    closed spec fn view(&self) -> Seq<Contact> {
        self.contacts@
    }
}

/// What became of a contact that was shown to a bucket.
#[derive(Debug)]
pub enum BucketTouchOutcome {
    /// The contact was added.
    Inserted,
    /// The contact was known and moved to the end.
    Refreshed,
    /// The bucket is full; its oldest contact may have to make room.
    Full { new_contact: Contact, oldest: Contact },
}

/// An update of a full bucket that waits for its oldest contact to be pinged.
#[derive(Clone, Debug)]
pub struct PendingBucketUpdate {
    /// The bucket that is full.
    pub bucket_index: usize,
    /// The contact to ping.
    pub oldest: Contact,
    /// The contact that takes the place of `oldest` if that one is gone.
    pub new_contact: Contact,
}

impl PendingBucketUpdate {
    /// Whether the update is one for the table of `self_id`.
    pub open spec fn is_for(self, self_id: NodeId) -> bool {
        &&& self.new_contact.id != self_id
        &&& self.bucket_index == bucket_of(self_id, self.new_contact.id)
        &&& self.bucket_index < 256
    }
}

impl Bucket {
    /// Creates an empty bucket.
    pub fn new() -> (bucket: Self)
        ensures
            bucket@ == Seq::<Contact>::empty(),
    {
        Bucket { contacts: Vec::new() }
    }

    /// Adds a contact or moves it to the end; a full bucket is left alone and reports its
    /// oldest contact.
    pub fn touch(&mut self, contact: Contact, k: usize) -> (outcome: BucketTouchOutcome)
        requires
            k > 0 || old(self)@.len() > 0,
        ensures
            final(self)@ == touched(old(self)@, contact, k as nat),
            match outcome {
                BucketTouchOutcome::Refreshed => has_id(old(self)@, contact.id),
                BucketTouchOutcome::Inserted => !has_id(old(self)@, contact.id) && old(self)@.len()
                    < k,
                BucketTouchOutcome::Full { new_contact, oldest } => {
                    &&& !has_id(old(self)@, contact.id)
                    &&& old(self)@.len() >= k
                    &&& new_contact == contact
                    &&& oldest == old(self)@[0]
                },
            },
    {
        if self.refresh(&contact.id) {
            return BucketTouchOutcome::Refreshed;
        }
        if self.contacts.len() < k {
            self.contacts.push(contact);
            BucketTouchOutcome::Inserted
        } else {
            BucketTouchOutcome::Full { new_contact: contact, oldest: self.contacts[0].clone() }
        }
    }

    /// Moves a contact to the end of the bucket and tells whether it was there.
    pub fn refresh(&mut self, id: &NodeId) -> (found: bool)
        ensures
            found == has_id(old(self)@, *id),
            final(self)@ == refreshed(old(self)@, *id),
    {
        match position_of(&self.contacts, id) {
            Some(i) => {
                let existing = self.contacts.remove(i);
                self.contacts.push(existing);
                true
            },
            None => false,
        }
    }

    /// Removes a contact from the bucket and tells whether it was there.
    pub fn remove(&mut self, id: &NodeId) -> (found: bool)
        ensures
            found == has_id(old(self)@, *id),
            final(self)@ == without_id(old(self)@, *id),
    {
        match position_of(&self.contacts, id) {
            Some(i) => {
                let _ = self.contacts.remove(i);
                true
            },
            None => false,
        }
    }

    /// Drops the oldest contacts until at most `k` are left.
    fn trim(&mut self, k: usize)
        ensures
            final(self)@ == trimmed(old(self)@, k as nat),
    {
        let ghost all = self.contacts@;
        assert(all.skip(0) =~= all);
        while self.contacts.len() > k
            invariant
                self.contacts.len() <= all.len(),
                self.contacts@ == all.skip(all.len() - self.contacts.len()),
                self.contacts.len() < all.len() ==> self.contacts.len() >= k,
            decreases self.contacts.len(),
        {
            let ghost n = self.contacts.len();
            let _ = self.contacts.remove(0);
            assert(self.contacts@ =~= all.skip(all.len() - n + 1));
        }
    }
}

/// What a routing table holds.
#[verifier::ext_equal]
pub struct RoutingView {
    /// The identifier of the node that owns the table.
    pub self_id: NodeId,
    /// The number of contacts that a bucket may hold.
    pub k: nat,
    /// The contacts of each bucket, oldest first.
    pub buckets: Seq<Seq<Contact>>,
}

impl RoutingView {
    /// There are 256 buckets, none over its size; every contact stands in the bucket of its
    /// distance, at most once, and the owner in none.
    pub open spec fn wf(self) -> bool {
        &&& self.buckets.len() == 256
        &&& forall|b: int| 0 <= b < 256 ==> self.bucket_wf(b, #[trigger] self.buckets[b])
    }

    /// What `wf` asks of bucket `b`.
    pub open spec fn bucket_wf(self, b: int, contacts: Seq<Contact>) -> bool {
        &&& contacts.len() <= self.k
        &&& distinct_ids(contacts)
        &&& forall|i: int|
            0 <= i < contacts.len() ==> (#[trigger] contacts[i]).id != self.self_id && bucket_of(
                self.self_id,
                contacts[i].id,
            ) == b
    }

    /// The bucket that an identifier belongs to.
    pub open spec fn bucket_for(self, id: NodeId) -> Seq<Contact> {
        self.buckets[bucket_of(self.self_id, id)]
    }

    /// All contacts of the table.
    pub open spec fn contacts(self) -> Seq<Contact> {
        gathered(self.buckets)
    }

    /// Whether some bucket holds this identifier.
    pub open spec fn knows(self, id: NodeId) -> bool {
        has_id(self.bucket_for(id), id)
    }

    /// The table of an owner that knows nobody.
    pub open spec fn empty(self_id: NodeId, k: nat) -> RoutingView {
        RoutingView { self_id, k, buckets: Seq::new(256, |b: int| Seq::empty()) }
    }

    /// The table once its buckets may hold `k` contacts.
    pub open spec fn with_k(self, k: nat) -> RoutingView {
        RoutingView {
            self_id: self.self_id,
            k,
            buckets: Seq::new(self.buckets.len(), |b: int| trimmed(self.buckets[b], k)),
        }
    }

    /// The table once a contact was seen.
    pub open spec fn seen(self, contact: Contact) -> RoutingView {
        if contact.id == self.self_id {
            self
        } else {
            let b = bucket_of(self.self_id, contact.id);
            RoutingView {
                buckets: self.buckets.update(b, touched(self.buckets[b], contact, self.k)),
                ..self
            }
        }
    }

    /// Whether a contact finds its bucket full and is not in it.
    pub open spec fn is_crowded_for(self, contact: Contact) -> bool {
        &&& contact.id != self.self_id
        &&& !has_id(self.bucket_for(contact.id), contact.id)
        &&& self.bucket_for(contact.id).len() >= self.k
    }

    /// The table once the oldest contact of a full bucket answered a ping or failed to.
    pub open spec fn pinged(self, pending: PendingBucketUpdate, oldest_alive: bool) -> RoutingView {
        let b = pending.bucket_index as int;
        let before = self.buckets[b];
        let after = if oldest_alive {
            refreshed(before, pending.oldest.id)
        } else {
            let left = without_id(before, pending.oldest.id);
            if has_id(left, pending.new_contact.id) || left.len() >= self.k {
                left
            } else {
                left.push(pending.new_contact)
            }
        };
        RoutingView { buckets: self.buckets.update(b, after), ..self }
    }

    /// The `n` contacts nearest to a target, nearest first.
    pub open spec fn closest(self, target: NodeId, n: nat) -> Seq<Contact> {
        first_of(by_distance(self.contacts(), target), n)
    }
}

/// A Kademlia routing table with 256 buckets for 256-bit identifiers.
#[derive(Debug)]
pub struct RoutingTable {
    self_id: NodeId,
    k: usize,
    buckets: Vec<Bucket>,
}

impl View for RoutingTable {
    type V = RoutingView;

    closed spec fn view(&self) -> RoutingView {
        RoutingView {
            self_id: self.self_id,
            k: self.k as nat,
            buckets: Seq::new(self.buckets@.len(), |b: int| self.buckets@[b]@),
        }
    }
}

impl RoutingTable {
    /// The table's invariant.
    pub open spec fn wf(&self) -> bool {
        self@.wf()
    }

    /// Creates the table of a node that knows nobody yet.
    pub fn new(self_id: NodeId, k: usize) -> (table: Self)
        ensures
            table.wf(),
            table@ == RoutingView::empty(self_id, k as nat),
    {
        let mut buckets: Vec<Bucket> = Vec::with_capacity(256);
        for i in 0..256usize
            invariant
                buckets.len() == i,
                forall|b: int| 0 <= b < i ==> (#[trigger] buckets@[b])@ == Seq::<Contact>::empty(),
        {
            buckets.push(Bucket::new());
        }
        let table = RoutingTable { self_id, k, buckets };
        assert(table@ =~= RoutingView::empty(self_id, k as nat));
        table
    }

    /// Changes how many contacts a bucket may hold; a bucket that holds more drops its
    /// oldest.
    pub fn set_k(&mut self, k: usize)
        requires
            old(self).wf(),
        ensures
            final(self).wf(),
            final(self)@ == old(self)@.with_k(k as nat),
    {
        let ghost before = self@;
        self.k = k;
        let n = self.buckets.len();
        for i in 0..n
            invariant
                n == self.buckets@.len(),
                self.k == k,
                self.self_id == before.self_id,
                self.buckets@.len() == before.buckets.len(),
                forall|b: int|
                    0 <= b < i ==> (#[trigger] self.buckets@[b])@ == trimmed(
                        before.buckets[b],
                        k as nat,
                    ),
                forall|b: int|
                    i <= b < self.buckets@.len() ==> (#[trigger] self.buckets@[b])@
                        == before.buckets[b],
        {
            self.buckets[i].trim(k);
        }
        assert(self@ =~= before.with_k(k as nat));
        proof {
            lemma_with_k_wf(before, k as nat);
        }
    }

    /// Adds or refreshes a contact.
    pub fn update(&mut self, contact: Contact)
        requires
            old(self).wf(),
            old(self)@.k > 0 || contact.id == old(self)@.self_id,
        ensures
            final(self).wf(),
            final(self)@ == old(self)@.seen(contact),
    {
        let _ = self.update_with_pending(contact);
    }

    /// Adds or refreshes a contact. When its bucket is full, the update that is left to do
    /// is returned: whoever pings the oldest contact of the bucket then reports the outcome
    /// to `apply_ping_result`.
    pub fn update_with_pending(&mut self, contact: Contact) -> (pending: Option<
        PendingBucketUpdate,
    >)
        requires
            old(self).wf(),
            old(self)@.k > 0 || contact.id == old(self)@.self_id,
        ensures
            final(self).wf(),
            final(self)@ == old(self)@.seen(contact),
            match pending {
                Some(p) => {
                    &&& old(self)@.is_crowded_for(contact)
                    &&& p.is_for(old(self)@.self_id)
                    &&& p.bucket_index == bucket_of(old(self)@.self_id, contact.id)
                    &&& p.oldest == old(self)@.bucket_for(contact.id)[0]
                    &&& p.new_contact == contact
                },
                None => !old(self)@.is_crowded_for(contact),
            },
    {
        let ghost before = self@;
        if same_id(&contact.id, &self.self_id) {
            return None;
        }
        let idx = bucket_index(&self.self_id, &contact.id);
        let k = self.k;
        let outcome = self.buckets[idx].touch(contact, k);
        proof {
            assert(self@ =~= before.seen(contact));
            lemma_seen_wf(before, contact);
        }
        match outcome {
            BucketTouchOutcome::Inserted => None,
            BucketTouchOutcome::Refreshed => None,
            BucketTouchOutcome::Full { new_contact, oldest } => Some(
                PendingBucketUpdate { bucket_index: idx, oldest, new_contact },
            ),
        }
    }

    /// Finds the `k` contacts nearest to a target, nearest first.
    pub fn closest(&self, target: &NodeId, k: usize) -> (nearest: Vec<Contact>)
        ensures
            nearest@ == self@.closest(*target, k as nat),
    {
        let ghost key = distance_key(*target);
        let ghost buckets = self@.buckets;
        let mut nearest: Vec<Contact> = Vec::new();
        assert(buckets.take(0) =~= Seq::empty());
        for b in 0..self.buckets.len()
            invariant
                buckets == self@.buckets,
                key == distance_key(*target),
                nearest@ == first_of(sort_by(gathered(buckets.take(b as int)), key), k as nat),
        {
            let bucket = &self.buckets[b];
            let ghost before = gathered(buckets.take(b as int));
            assert(buckets[b as int] == bucket.contacts@);
            assert(before + bucket.contacts@.take(0) =~= before);
            for i in 0..bucket.contacts.len()
                invariant
                    key == distance_key(*target),
                    nearest@ == first_of(
                        sort_by(before + bucket.contacts@.take(i as int), key),
                        k as nat,
                    ),
            {
                let ghost s = before + bucket.contacts@.take(i as int);
                let ghost c = bucket.contacts@[i as int];
                assert((before + bucket.contacts@.take(i + 1)) =~= s.push(c));
                assert(s.push(c).drop_last() =~= s);
                insert_by_distance(&mut nearest, bucket.contacts[i].clone(), target);
                proof {
                    lemma_sort_by(s, key);
                    lemma_first_of_insert(sort_by(s, key), c, key, k as nat);
                }
                if nearest.len() > k {
                    let _ = nearest.pop();
                }
            }
            assert(bucket.contacts@.take(bucket.contacts@.len() as int) =~= bucket.contacts@);
            assert(buckets.take(b + 1).drop_last() =~= buckets.take(b as int));
        }
        assert(buckets.take(buckets.len() as int) =~= buckets);
        nearest
    }

    /// Applies the outcome of pinging the oldest contact of a full bucket. An oldest contact
    /// that is alive is refreshed and the new one is dropped; one that is gone is replaced by
    /// the new one.
    pub fn apply_ping_result(&mut self, pending: PendingBucketUpdate, oldest_alive: bool)
        requires
            old(self).wf(),
            pending.is_for(old(self)@.self_id),
        ensures
            final(self).wf(),
            final(self)@ == old(self)@.pinged(pending, oldest_alive),
    {
        let ghost before = self@;
        let k = self.k;
        let b = pending.bucket_index;
        proof {
            lemma_pinged_wf(before, pending, oldest_alive);
        }
        if oldest_alive {
            let _ = self.buckets[b].refresh(&pending.oldest.id);
        } else {
            let _ = self.buckets[b].remove(&pending.oldest.id);
            match position_of(&self.buckets[b].contacts, &pending.new_contact.id) {
                Some(_) => {},
                None => {
                    if self.buckets[b].contacts.len() < k {
                        self.buckets[b].contacts.push(pending.new_contact);
                    }
                },
            }
        }
        assert(self@ =~= before.pinged(pending, oldest_alive));
    }
}

proof fn lemma_refreshed_wf(table: RoutingView, b: int, contacts: Seq<Contact>, id: NodeId)
    requires
        table.bucket_wf(b, contacts),
    ensures
        table.bucket_wf(b, refreshed(contacts, id)),
{
    if has_id(contacts, id) {
        lemma_has_id_first(contacts, id);
        let i = first_with(contacts, id);
        let after = refreshed(contacts, id);
        let n = contacts.len();
        assert forall|j: int| 0 <= j < n implies #[trigger] after[j] == contacts[if j < i {
            j
        } else if j < n - 1 {
            j + 1
        } else {
            i
        }] by {}
    }
}

proof fn lemma_without_id_wf(table: RoutingView, b: int, contacts: Seq<Contact>, id: NodeId)
    requires
        table.bucket_wf(b, contacts),
    ensures
        table.bucket_wf(b, without_id(contacts, id)),
        !has_id(without_id(contacts, id), id),
        has_id(contacts, id) ==> without_id(contacts, id).len() == contacts.len() - 1,
{
    if has_id(contacts, id) {
        lemma_has_id_first(contacts, id);
        let i = first_with(contacts, id);
        let after = without_id(contacts, id);
        assert forall|j: int| 0 <= j < after.len() implies #[trigger] after[j] == contacts[if j
            < i {
            j
        } else {
            j + 1
        }] by {}
        assert forall|j: int| 0 <= j < after.len() implies (#[trigger] after[j]).id != id by {
            assert(contacts[i].id == id);
            let m = if j < i { j } else { j + 1 };
            assert(after[j] == contacts[m]);
        }
    }
}

proof fn lemma_replaced_bucket_wf(table: RoutingView, b: int, contacts: Seq<Contact>)
    requires
        table.wf(),
        0 <= b < 256,
        table.bucket_wf(b, contacts),
    ensures
        (RoutingView { buckets: table.buckets.update(b, contacts), ..table }).wf(),
{
    let after = RoutingView { buckets: table.buckets.update(b, contacts), ..table };
    assert forall|m: int| 0 <= m < 256 implies after.bucket_wf(m, #[trigger] after.buckets[m]) by {
        assert(table.bucket_wf(m, table.buckets[m]));
    }
}

/// Seeing a contact keeps the table's invariant.
pub proof fn lemma_seen_wf(table: RoutingView, contact: Contact)
    requires
        table.wf(),
    ensures
        table.seen(contact).wf(),
{
    if contact.id != table.self_id {
        lemma_bucket_covers_distance_range(table.self_id, contact.id);
        let b = bucket_of(table.self_id, contact.id);
        let contacts = table.buckets[b];
        assert(table.bucket_wf(b, contacts));
        lemma_refreshed_wf(table, b, contacts, contact.id);
        lemma_replaced_bucket_wf(table, b, touched(contacts, contact, table.k));
    }
}

/// The outcome of a ping keeps the table's invariant.
pub proof fn lemma_pinged_wf(table: RoutingView, pending: PendingBucketUpdate, oldest_alive: bool)
    requires
        table.wf(),
        pending.is_for(table.self_id),
    ensures
        table.pinged(pending, oldest_alive).wf(),
{
    let b = pending.bucket_index as int;
    let contacts = table.buckets[b];
    assert(table.bucket_wf(b, contacts));
    lemma_refreshed_wf(table, b, contacts, pending.oldest.id);
    lemma_without_id_wf(table, b, contacts, pending.oldest.id);
    lemma_replaced_bucket_wf(table, b, table.pinged(pending, oldest_alive).buckets[b]);
}

/// Changing the bucket size keeps the table's invariant.
pub proof fn lemma_with_k_wf(table: RoutingView, k: nat)
    requires
        table.wf(),
    ensures
        table.with_k(k).wf(),
{
    let after = table.with_k(k);
    assert forall|b: int| 0 <= b < 256 implies after.bucket_wf(b, #[trigger] after.buckets[b]) by {
        let old_bucket = table.buckets[b];
        assert(table.bucket_wf(b, old_bucket));
        let contacts = after.buckets[b];
        let d = old_bucket.len() - contacts.len();
        assert forall|i: int| 0 <= i < contacts.len() implies #[trigger] contacts[i]
            == old_bucket[i + d] by {}
    }
}

proof fn lemma_gathered_contains(buckets: Seq<Seq<Contact>>, c: Contact)
    ensures
        gathered(buckets).contains(c) <==> exists|b: int|
            0 <= b < buckets.len() && (#[trigger] buckets[b]).contains(c),
    decreases buckets.len(),
{
    if buckets.len() > 0 {
        let front = buckets.drop_last();
        let last = buckets.last();
        lemma_gathered_contains(front, c);
        let all = gathered(buckets);
        assert(all =~= gathered(front) + last);
        if all.contains(c) {
            let i = choose|i: int| 0 <= i < all.len() && all[i] == c;
            if i < gathered(front).len() {
                assert(gathered(front)[i] == c);
                let b = choose|b: int| 0 <= b < front.len() && (#[trigger] front[b]).contains(c);
                assert(buckets[b].contains(c));
            } else {
                assert(last[i - gathered(front).len()] == c);
                assert(buckets[buckets.len() - 1].contains(c));
            }
        }
        if exists|b: int| 0 <= b < buckets.len() && (#[trigger] buckets[b]).contains(c) {
            let b = choose|b: int| 0 <= b < buckets.len() && (#[trigger] buckets[b]).contains(c);
            if b < front.len() {
                assert(front[b].contains(c));
                let i = choose|i: int| 0 <= i < gathered(front).len() && gathered(front)[i] == c;
                assert(all[i] == c);
            } else {
                let i = choose|i: int| 0 <= i < last.len() && last[i] == c;
                assert(all[gathered(front).len() + i] == c);
            }
        }
    }
}

proof fn lemma_gathered_distinct(table: RoutingView, n: int)
    requires
        table.wf(),
        0 <= n <= 256,
    ensures
        distinct_ids(gathered(table.buckets.take(n))),
    decreases n,
{
    if n > 0 {
        lemma_gathered_distinct(table, n - 1);
        let buckets = table.buckets.take(n);
        let front = gathered(table.buckets.take(n - 1));
        let last = table.buckets[n - 1];
        assert(buckets.drop_last() =~= table.buckets.take(n - 1));
        assert(table.bucket_wf(n - 1, last));
        let all = gathered(buckets);
        assert(all =~= front + last);
        assert forall|i: int, j: int| 0 <= i < j < all.len() implies (#[trigger] all[i]).id != (
        #[trigger] all[j]).id by {
            if j < front.len() {
                assert(front[i].id != front[j].id);
            } else if i >= front.len() {
                assert(last[i - front.len()].id != last[j - front.len()].id);
            } else {
                let c = front[i];
                assert(front.contains(c));
                lemma_gathered_contains(table.buckets.take(n - 1), c);
                let b = choose|b: int|
                    0 <= b < n - 1 && (#[trigger] table.buckets.take(n - 1)[b]).contains(c);
                assert(table.bucket_wf(b, table.buckets[b]));
                let m = choose|m: int|
                    0 <= m < table.buckets[b].len() && table.buckets[b][m] == c;
                assert(bucket_of(table.self_id, table.buckets[b][m].id) == b);
                assert(bucket_of(table.self_id, last[j - front.len()].id) == n - 1);
            }
        }
    }
}

/// A contact stands in the table exactly when the bucket of its identifier holds it, and
/// nobody stands in it twice.
pub proof fn lemma_contacts(table: RoutingView)
    requires
        table.wf(),
    ensures
        distinct_ids(table.contacts()),
        forall|c: Contact| #[trigger]
            table.contacts().contains(c) <==> c.id != table.self_id && table.bucket_for(
                c.id,
            ).contains(c),
        forall|id: NodeId| #[trigger]
            has_id(table.contacts(), id) <==> id != table.self_id && table.knows(id),
{
    assert(table.buckets.take(256) =~= table.buckets);
    lemma_gathered_distinct(table, 256);
    let all = table.contacts();
    assert forall|c: Contact| #[trigger] all.contains(c) <==> c.id != table.self_id
        && table.bucket_for(c.id).contains(c) by {
        lemma_gathered_contains(table.buckets, c);
        if all.contains(c) {
            let b = choose|b: int| 0 <= b < 256 && (#[trigger] table.buckets[b]).contains(c);
            assert(table.bucket_wf(b, table.buckets[b]));
            let m = choose|m: int| 0 <= m < table.buckets[b].len() && table.buckets[b][m] == c;
            assert(table.buckets[b][m].id == c.id);
        }
        if c.id != table.self_id {
            lemma_bucket_covers_distance_range(table.self_id, c.id);
        }
    }
    assert forall|id: NodeId| #[trigger]
        has_id(all, id) <==> id != table.self_id && table.knows(id) by {
        if has_id(all, id) {
            let i = choose|i: int| 0 <= i < all.len() && (#[trigger] all[i]).id == id;
            assert(all.contains(all[i]));
            let bucket = table.bucket_for(id);
            let m = choose|m: int| 0 <= m < bucket.len() && bucket[m] == all[i];
            assert(bucket[m].id == id);
        }
        if id != table.self_id && table.knows(id) {
            let bucket = table.bucket_for(id);
            let m = choose|m: int| 0 <= m < bucket.len() && (#[trigger] bucket[m]).id == id;
            assert(bucket.contains(bucket[m]));
            assert(all.contains(bucket[m]));
            let i = choose|i: int| 0 <= i < all.len() && all[i] == bucket[m];
            assert(all[i].id == id);
        }
    }
}

/// A search for the `n` closest contacts finds as many as the table holds, up to `n`; they
/// are contacts of the table, none twice, nearest first, and whoever is left out is farther
/// away than all of them.
pub proof fn lemma_closest_are_nearest(table: RoutingView, target: NodeId, n: nat)
    requires
        table.wf(),
    ensures
        ({
            let found = table.closest(target, n);
            &&& found.len() == if n < table.contacts().len() { n } else { table.contacts().len() }
            &&& distinct_ids(found)
            &&& nearest_first(found, target)
            &&& forall|i: int| 0 <= i < found.len() ==> table.contacts().contains(#[trigger] found[i])
            &&& forall|c: Contact, i: int|
                table.contacts().contains(c) && !found.contains(c) && 0 <= i < found.len()
                    ==> dist((#[trigger] found[i]).id, target) < dist((#[trigger] c.id), target)
        }),
{
    let all = table.contacts();
    let key = distance_key(target);
    let ordered = by_distance(all, target);
    let found = table.closest(target, n);
    lemma_contacts(table);
    lemma_sort_by(all, key);
    lemma_sort_by_distinct(all, distance_key(target));
    assert forall|i: int| 0 <= i < found.len() implies #[trigger] found[i] == ordered[i]
        && all.contains(found[i]) by {
        assert(ordered.contains(ordered[i]));
    }
    assert(distinct_ids(found)) by {
        assert forall|i: int, j: int| 0 <= i < j < found.len() implies (#[trigger] found[i]).id != (
        #[trigger] found[j]).id by {
            assert(ordered[i].id != ordered[j].id);
        }
    }
    assert(nearest_first(found, target)) by {
        assert forall|i: int, j: int| 0 <= i < j < found.len() implies key(#[trigger] found[i])
            <= key(#[trigger] found[j]) by {
            assert(key(ordered[i]) <= key(ordered[j]));
        }
    }
    assert forall|c: Contact, i: int|
        all.contains(c) && !found.contains(c) && 0 <= i < found.len() implies dist(
        (#[trigger] found[i]).id,
        target,
    ) < dist((#[trigger] c.id), target) by {
        assert(ordered.contains(c));
        let m = choose|m: int| 0 <= m < ordered.len() && ordered[m] == c;
        if m < found.len() {
            assert(found[m] == c);
        }
        assert(key(ordered[i]) <= key(ordered[m]));
        assert(ordered[i].id != ordered[m].id);
        lemma_distance_unique(ordered[i].id, ordered[m].id, target);
    }
}

/// Seeing a contact forgets nobody, and makes it known unless its bucket is full.
pub proof fn lemma_seen_forgets_nobody(table: RoutingView, contact: Contact, id: NodeId)
    requires
        table.wf(),
        id != table.self_id,
    ensures
        table.knows(id) ==> table.seen(contact).knows(id),
        id == contact.id && !table.is_crowded_for(contact) ==> table.seen(contact).knows(id),
        table.is_crowded_for(contact) ==> table.seen(contact) == table,
{
    lemma_bucket_covers_distance_range(table.self_id, id);
    if contact.id != table.self_id {
        lemma_bucket_covers_distance_range(table.self_id, contact.id);
        let b = bucket_of(table.self_id, contact.id);
        let before = table.buckets[b];
        let after = touched(before, contact, table.k);
        if has_id(before, contact.id) {
            lemma_refreshed_members(before, contact.id, id);
            lemma_refreshed_members(before, contact.id, contact.id);
        } else if before.len() < table.k {
            assert(after[before.len() as int] == contact);
            if has_id(before, id) {
                let i = choose|i: int| 0 <= i < before.len() && (#[trigger] before[i]).id == id;
                assert(after[i].id == id);
            }
        } else {
            assert(table.seen(contact).buckets =~= table.buckets);
        }
    }
}

proof fn lemma_refreshed_members(contacts: Seq<Contact>, moved: NodeId, id: NodeId)
    ensures
        has_id(refreshed(contacts, moved), id) <==> has_id(contacts, id),
{
    if has_id(contacts, moved) {
        lemma_has_id_first(contacts, moved);
        let p = first_with(contacts, moved);
        let after = refreshed(contacts, moved);
        let n = contacts.len();
        if has_id(contacts, id) {
            let i = choose|i: int| 0 <= i < n && (#[trigger] contacts[i]).id == id;
            let j = if i < p {
                i
            } else if i == p {
                n - 1
            } else {
                i - 1
            };
            assert(after[j].id == id);
        }
        if has_id(after, id) {
            let j = choose|j: int| 0 <= j < n && (#[trigger] after[j]).id == id;
            let i = if j < p {
                j
            } else if j < n - 1 {
                j + 1
            } else {
                p
            };
            assert(contacts[i].id == id);
        }
    }
}

/// A full bucket prefers its long-lived contacts. Its oldest contact gives way to a new one
/// only once it fails a ping: if it answers, the bucket knows the same contacts as before and
/// the new one stays out; if it does not, the new one is known in its place.
pub proof fn lemma_ping_before_evict(table: RoutingView, pending: PendingBucketUpdate, id: NodeId)
    requires
        table.wf(),
        table.k > 0,
        table.is_crowded_for(pending.new_contact),
        pending.is_for(table.self_id),
        pending.oldest == table.bucket_for(pending.new_contact.id)[0],
        id != table.self_id,
    ensures
        table.pinged(pending, true).knows(id) <==> table.knows(id),
        !table.pinged(pending, true).knows(pending.new_contact.id),
        table.pinged(pending, false).knows(id) <==> id == pending.new_contact.id || (table.knows(id)
            && id != pending.oldest.id),
        table.pinged(pending, true).bucket_for(pending.new_contact.id).last() == pending.oldest,
        table.pinged(pending, false).bucket_for(pending.new_contact.id).last()
            == pending.new_contact,
{
    let b = pending.bucket_index as int;
    let before = table.buckets[b];
    let fresh = pending.new_contact;
    assert(table.bucket_wf(b, before));
    lemma_bucket_covers_distance_range(table.self_id, id);
    lemma_refreshed_members(before, pending.oldest.id, id);
    lemma_refreshed_members(before, pending.oldest.id, fresh.id);
    assert(is_first_with(before, pending.oldest.id, 0));
    lemma_first_with_unique(before, pending.oldest.id, 0);
    let left = without_id(before, pending.oldest.id);
    assert(left =~= before.drop_first());
    lemma_without_id_wf(table, b, before, pending.oldest.id);
    assert(!has_id(left, fresh.id)) by {
        assert forall|i: int| 0 <= i < left.len() implies (#[trigger] left[i]).id != fresh.id by {
            assert(before[i + 1].id != fresh.id);
        }
    }
    let after = left.push(fresh);
    assert(table.pinged(pending, false).buckets[b] == after);
    if bucket_of(table.self_id, id) == b {
        if has_id(before, id) && id != pending.oldest.id {
            let i = choose|i: int| 0 <= i < before.len() && (#[trigger] before[i]).id == id;
            assert(after[i - 1].id == id);
        }
        if id == fresh.id {
            assert(after[left.len() as int].id == id);
        }
        if has_id(after, id) && id != fresh.id {
            let i = choose|i: int| 0 <= i < after.len() && (#[trigger] after[i]).id == id;
            assert(before[i + 1].id == id);
            assert(left[i].id == id);
        }
    }
    assert(table.buckets[bucket_of(table.self_id, pending.oldest.id)] == before) by {
        assert(bucket_of(table.self_id, before[0].id) == b);
    }
}

/// The contacts with other identifiers than this one, in their order.
pub open spec fn others_than(contacts: Seq<Contact>, id: NodeId) -> Seq<Contact> {
    contacts.filter(|c: Contact| c.id != id)
}

proof fn lemma_others_than(contacts: Seq<Contact>, id: NodeId)
    requires
        distinct_ids(contacts),
    ensures
        without_id(contacts, id) == others_than(contacts, id),
        has_id(contacts, id) ==> refreshed(contacts, id) == others_than(contacts, id).push(
            contacts[first_with(contacts, id)],
        ),
{
    let pred = |c: Contact| c.id != id;
    if has_id(contacts, id) {
        lemma_has_id_first(contacts, id);
        let p = first_with(contacts, id);
        assert forall|i: int| 0 <= i < contacts.len() && i != p implies pred(
            #[trigger] contacts[i],
        ) by {
            if i < p {
                assert(contacts[i].id != contacts[p].id);
            } else {
                assert(contacts[p].id != contacts[i].id);
            }
        }
        lemma_filter_one(contacts, pred, p);
    } else {
        assert forall|i: int| 0 <= i < contacts.len() implies pred(#[trigger] contacts[i]) by {
            assert(contacts[i].id != id || has_id(contacts, id));
        }
        lemma_filter_all(contacts, pred);
    }
}

/// Seeing a contact puts it at the end of its bucket, behind all others, which stay in their order,
/// unless the bucket is full of others. A known contact stays as it is known; a new one is added as
/// it was seen. No other bucket changes.
pub proof fn lemma_seen_moves_to_the_end(table: RoutingView, contact: Contact)
    requires
        table.wf(),
        contact.id != table.self_id,
    ensures
        ({
            let after = table.seen(contact);
            let before = table.bucket_for(contact.id);
            let others = others_than(before, contact.id);
            let bucket = after.bucket_for(contact.id);
            &&& after.k == table.k
            &&& after.self_id == table.self_id
            &&& forall|b: int|
                0 <= b < 256 && b != bucket_of(table.self_id, contact.id)
                    ==> #[trigger] after.buckets[b] == table.buckets[b]
            &&& if has_id(before, contact.id) {
                &&& bucket == others.push(bucket.last())
                &&& before.contains(bucket.last())
                &&& bucket.last().id == contact.id
            } else if before.len() < table.k {
                bucket == others.push(contact)
            } else {
                bucket == before
            }
        }),
{
    lemma_bucket_covers_distance_range(table.self_id, contact.id);
    let b = bucket_of(table.self_id, contact.id);
    let before = table.buckets[b];
    assert(table.bucket_wf(b, before));
    lemma_others_than(before, contact.id);
    if has_id(before, contact.id) {
        lemma_has_id_first(before, contact.id);
        assert(table.seen(contact).bucket_for(contact.id).last() == before[first_with(
            before,
            contact.id,
        )]);
    }
}

/// Nobody becomes known by seeing somebody else.
pub proof fn lemma_seen_adds_only_the_contact(table: RoutingView, contact: Contact, id: NodeId)
    requires
        table.wf(),
        id != table.self_id,
        id != contact.id,
    ensures
        table.seen(contact).knows(id) <==> table.knows(id),
{
    lemma_seen_forgets_nobody(table, contact, id);
    lemma_bucket_covers_distance_range(table.self_id, id);
    if contact.id != table.self_id {
        lemma_bucket_covers_distance_range(table.self_id, contact.id);
        let b = bucket_of(table.self_id, contact.id);
        let before = table.buckets[b];
        let after = touched(before, contact, table.k);
        if has_id(before, contact.id) {
            lemma_refreshed_members(before, contact.id, id);
        } else if before.len() < table.k {
            if has_id(after, id) {
                let i = choose|i: int| 0 <= i < after.len() && (#[trigger] after[i]).id == id;
                assert(before[i].id == id);
            }
        }
    }
}

/// A smaller bucket size leaves in each bucket the contacts that were seen last, as many as it
/// allows; a bucket that has no more stays as it is.
pub proof fn lemma_with_k_keeps_the_latest(table: RoutingView, k: nat, b: int)
    requires
        table.wf(),
        0 <= b < 256,
    ensures
        ({
            let before = table.buckets[b];
            let after = table.with_k(k).buckets[b];
            let dropped = before.len() - after.len();
            &&& after.len() == if before.len() < k {
                before.len()
            } else {
                k
            }
            &&& forall|i: int| 0 <= i < after.len() ==> #[trigger] after[i] == before[i + dropped]
        }),
        table.with_k(k).k == k,
        table.with_k(k).self_id == table.self_id,
{
}

/// The outcome of a ping concerns the oldest contact and the new one alone: whoever else is known
/// stays known, and nobody else becomes known. An oldest contact that is gone is known no more.
pub proof fn lemma_ping_concerns_two(
    table: RoutingView,
    pending: PendingBucketUpdate,
    alive: bool,
    id: NodeId,
)
    requires
        table.wf(),
        pending.is_for(table.self_id),
        bucket_of(table.self_id, pending.oldest.id) == pending.bucket_index,
        pending.oldest.id != pending.new_contact.id,
        id != table.self_id,
    ensures
        id != pending.oldest.id && id != pending.new_contact.id ==> (table.pinged(
            pending,
            alive,
        ).knows(id) <==> table.knows(id)),
        alive ==> (table.pinged(pending, alive).knows(id) <==> table.knows(id)),
        !alive ==> !table.pinged(pending, alive).knows(pending.oldest.id),
{
    let b = pending.bucket_index as int;
    let before = table.buckets[b];
    let old_id = pending.oldest.id;
    let fresh = pending.new_contact;
    assert(table.bucket_wf(b, before));
    lemma_bucket_covers_distance_range(table.self_id, id);
    lemma_refreshed_members(before, old_id, id);
    lemma_without_id_wf(table, b, before, old_id);
    let left = without_id(before, old_id);
    lemma_without_members(before, old_id, id);
    let after = table.pinged(pending, false).buckets[b];
    if after != left {
        assert(after == left.push(fresh));
        if has_id(after, id) && id != fresh.id {
            let i = choose|i: int| 0 <= i < after.len() && (#[trigger] after[i]).id == id;
            assert(left[i].id == id);
        }
        if has_id(left, id) {
            let i = choose|i: int| 0 <= i < left.len() && (#[trigger] left[i]).id == id;
            assert(after[i].id == id);
        }
        if has_id(after, old_id) {
            let i = choose|i: int| 0 <= i < after.len() && (#[trigger] after[i]).id == old_id;
            assert(left[i].id == old_id);
        }
    }
}

proof fn lemma_without_members(contacts: Seq<Contact>, gone: NodeId, id: NodeId)
    requires
        distinct_ids(contacts),
    ensures
        id != gone ==> (has_id(without_id(contacts, gone), id) <==> has_id(contacts, id)),
{
    if has_id(contacts, gone) && id != gone {
        lemma_has_id_first(contacts, gone);
        let p = first_with(contacts, gone);
        let left = without_id(contacts, gone);
        if has_id(contacts, id) {
            let i = choose|i: int| 0 <= i < contacts.len() && (#[trigger] contacts[i]).id == id;
            let j = if i < p { i } else { i - 1 };
            assert(left[j].id == id);
        }
        if has_id(left, id) {
            let j = choose|j: int| 0 <= j < left.len() && (#[trigger] left[j]).id == id;
            let i = if j < p { j } else { j + 1 };
            assert(contacts[i].id == id);
        }
    }
}

} // verus!
