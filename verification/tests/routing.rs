use iroh_sdht::routing::{Bucket, BucketTouchOutcome};
use iroh_sdht::{Contact, NodeId, PendingBucketUpdate, RoutingTable};

fn id(first: u8, last: u8) -> NodeId {
    let mut id = [0u8; 32];
    id[0] = first;
    id[31] = last;
    id
}

fn contact(first: u8, last: u8) -> Contact {
    Contact {
        id: id(first, last),
        addr: format!("{first}:{last}"),
    }
}

fn ids(contacts: &[Contact]) -> Vec<NodeId> {
    contacts.iter().map(|c| c.id).collect()
}

fn pending(table: &mut RoutingTable, contact: Contact) -> PendingBucketUpdate {
    table
        .update_with_pending(contact)
        .expect("the bucket is full")
}

#[test]
fn closest_orders_by_distance_and_truncates() {
    let mut table = RoutingTable::new(id(0, 0), 20);
    for last in [9u8, 3, 5, 12] {
        table.update(contact(0x80, last));
    }
    let found = table.closest(&id(0x80, 4), 3);
    assert_eq!(ids(&found), vec![id(0x80, 5), id(0x80, 3), id(0x80, 12)]);
    assert_eq!(table.closest(&id(0x80, 4), 10).len(), 4);
    assert_eq!(table.closest(&id(0x80, 4), 0).len(), 0);
}

#[test]
fn the_owner_is_never_added() {
    let mut table = RoutingTable::new(id(1, 1), 20);
    table.update(contact(1, 1));
    assert!(table.closest(&id(0, 0), 20).is_empty());
}

#[test]
fn an_empty_table_finds_nobody() {
    let table = RoutingTable::new(id(1, 1), 20);
    assert!(table.closest(&id(7, 7), 20).is_empty());
}

#[test]
fn a_known_contact_keeps_its_address() {
    let mut table = RoutingTable::new(id(0, 0), 20);
    table.update(contact(0x80, 1));
    table.update(Contact {
        id: id(0x80, 1),
        addr: "elsewhere".to_string(),
    });
    let found = table.closest(&id(0x80, 1), 20);
    assert_eq!(found, vec![contact(0x80, 1)]);
}

#[test]
fn a_full_bucket_reports_its_oldest_contact() {
    let mut table = RoutingTable::new(id(0, 0), 2);
    assert!(table.update_with_pending(contact(0x80, 1)).is_none());
    assert!(table.update_with_pending(contact(0x80, 2)).is_none());
    let update = pending(&mut table, contact(0x80, 3));
    assert_eq!(update.bucket_index, 0);
    assert_eq!(update.oldest, contact(0x80, 1));
    assert_eq!(update.new_contact, contact(0x80, 3));
    assert!(table.update_with_pending(contact(0x40, 3)).is_none());
}

#[test]
fn an_oldest_contact_that_answers_stays() {
    let mut table = RoutingTable::new(id(0, 0), 2);
    table.update(contact(0x80, 1));
    table.update(contact(0x80, 2));
    let update = pending(&mut table, contact(0x80, 3));
    table.apply_ping_result(update, true);
    assert_eq!(
        ids(&table.closest(&id(0x80, 0), 20)),
        vec![id(0x80, 1), id(0x80, 2)]
    );
    let update = pending(&mut table, contact(0x80, 3));
    assert_eq!(update.oldest, contact(0x80, 2));
}

#[test]
fn an_oldest_contact_that_is_gone_is_replaced() {
    let mut table = RoutingTable::new(id(0, 0), 2);
    table.update(contact(0x80, 1));
    table.update(contact(0x80, 2));
    let update = pending(&mut table, contact(0x80, 3));
    table.apply_ping_result(update, false);
    assert_eq!(
        ids(&table.closest(&id(0x80, 0), 20)),
        vec![id(0x80, 2), id(0x80, 3)]
    );
}

#[test]
fn a_late_ping_result_adds_nobody_twice() {
    let mut table = RoutingTable::new(id(0, 0), 2);
    table.update(contact(0x80, 1));
    table.update(contact(0x80, 2));
    let first = pending(&mut table, contact(0x80, 3));
    let second = pending(&mut table, contact(0x80, 3));
    table.apply_ping_result(first, false);
    table.apply_ping_result(second, false);
    assert_eq!(
        ids(&table.closest(&id(0x80, 0), 20)),
        vec![id(0x80, 2), id(0x80, 3)]
    );
}

#[test]
fn shrinking_drops_the_oldest_contacts() {
    let mut table = RoutingTable::new(id(0, 0), 4);
    for last in 1u8..=4 {
        table.update(contact(0x80, last));
    }
    table.update(contact(0x80, 1));
    table.set_k(2);
    assert_eq!(
        ids(&table.closest(&id(0x80, 0), 20)),
        vec![id(0x80, 1), id(0x80, 4)]
    );
}

#[test]
fn a_bucket_tells_what_became_of_a_contact() {
    let mut bucket = Bucket::new();
    assert!(matches!(
        bucket.touch(contact(1, 1), 1),
        BucketTouchOutcome::Inserted
    ));
    assert!(matches!(
        bucket.touch(contact(1, 1), 1),
        BucketTouchOutcome::Refreshed
    ));
    match bucket.touch(contact(1, 2), 1) {
        BucketTouchOutcome::Full {
            new_contact,
            oldest,
        } => {
            assert_eq!(new_contact, contact(1, 2));
            assert_eq!(oldest, contact(1, 1));
        }
        other => panic!("{other:?}"),
    }
    assert!(!bucket.refresh(&id(1, 2)));
    assert!(bucket.refresh(&id(1, 1)));
    assert!(bucket.remove(&id(1, 1)));
    assert!(!bucket.remove(&id(1, 1)));
}
