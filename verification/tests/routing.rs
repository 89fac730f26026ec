use coreoverlay::routing::{
    insert_closest, refresh_target, to_pairs, KBucket, NodeInfo, RoutingTable, SocketAddress, UpdateOutcome,
};
use coreoverlay::types::{Distance, NodeId};

fn id(first: u8, last: u8) -> NodeId {
    let mut bytes = [0u8; 20];
    bytes[0] = first;
    bytes[19] = last;
    NodeId::new(bytes)
}

fn contact(first: u8, last: u8, seen: u64) -> NodeInfo {
    NodeInfo {
        node_id: id(first, last),
        sock_addr: SocketAddress::V4(0x7f00_0001, 8000 + last as u16),
        last_seen: seen,
    }
}

fn ids(contacts: &[NodeInfo]) -> Vec<NodeId> {
    contacts.iter().map(|c| c.node_id).collect()
}

#[test]
fn new_bucket_is_empty() {
    let b = KBucket::new();
    assert_eq!(b.len(), 0);
    assert_eq!(b.position(&id(1, 1)), None);
}

#[test]
fn bucket_appends_new_contacts_in_order() {
    let mut b = KBucket::with_capacity(3);
    assert_eq!(b.update(contact(1, 1, 10)), UpdateOutcome::Inserted);
    assert_eq!(b.update(contact(1, 2, 11)), UpdateOutcome::Inserted);
    assert_eq!(b.len(), 2);
    assert_eq!(b.get(0), contact(1, 1, 10));
    assert_eq!(b.get(1), contact(1, 2, 11));
    assert_eq!(b.position(&id(1, 2)), Some(1));
}

#[test]
fn same_contact_twice_is_held_once_and_is_most_recent() {
    let mut b = KBucket::with_capacity(4);
    b.update(contact(1, 1, 10));
    b.update(contact(1, 2, 11));
    b.update(contact(1, 3, 12));
    assert_eq!(b.update(contact(1, 1, 20)), UpdateOutcome::Refreshed);
    assert_eq!(b.len(), 3);
    assert_eq!(b.get(0), contact(1, 2, 11));
    assert_eq!(b.get(1), contact(1, 3, 12));
    assert_eq!(b.get(2), contact(1, 1, 20));
    assert_eq!(b.update(contact(1, 1, 20)), UpdateOutcome::Refreshed);
    assert_eq!(b.len(), 3);
    assert_eq!(b.get(2), contact(1, 1, 20));
    assert_eq!(b.position(&id(1, 1)), Some(2));
}

#[test]
fn full_bucket_keeps_its_contacts_and_names_the_oldest() {
    let mut b = KBucket::with_capacity(2);
    b.update(contact(1, 1, 10));
    b.update(contact(1, 2, 11));
    assert_eq!(b.update(contact(1, 3, 12)), UpdateOutcome::Full(contact(1, 1, 10)));
    assert_eq!(b.len(), 2);
    assert_eq!(b.get(0), contact(1, 1, 10));
    assert_eq!(b.get(1), contact(1, 2, 11));
    assert_eq!(b.update(contact(1, 2, 30)), UpdateOutcome::Refreshed);
    assert_eq!(b.get(1), contact(1, 2, 30));
}

#[test]
fn eviction_replaces_the_least_recently_seen() {
    let mut b = KBucket::with_capacity(2);
    b.update(contact(1, 1, 10));
    b.update(contact(1, 2, 11));
    b.update_evicting(contact(1, 3, 12));
    assert_eq!(b.len(), 2);
    assert_eq!(b.get(0), contact(1, 2, 11));
    assert_eq!(b.get(1), contact(1, 3, 12));
    b.update_evicting(contact(1, 2, 13));
    assert_eq!(b.get(0), contact(1, 3, 12));
    assert_eq!(b.get(1), contact(1, 2, 13));
}

#[test]
fn bucket_without_room_ignores_everything() {
    let mut b = KBucket::with_capacity(0);
    assert_eq!(b.update(contact(1, 1, 10)), UpdateOutcome::Ignored);
    b.update_evicting(contact(1, 1, 10));
    assert_eq!(b.len(), 0);
}

#[test]
fn table_places_contacts_by_shared_prefix() {
    let local = id(0, 0);
    let mut t = RoutingTable::new(local);
    assert_eq!(t.bucket_index(&id(0x80, 0)), 0);
    assert_eq!(t.bucket_index(&id(0x40, 0)), 1);
    assert_eq!(t.bucket_index(&id(0x01, 0)), 7);
    assert_eq!(t.bucket_index(&id(0, 1)), 159);
    assert_eq!(t.bucket_index(&id(0, 2)), 158);
    assert_eq!(t.bucket_index(&local), 159);
    assert_eq!(t.update(contact(0x80, 0, 1)), UpdateOutcome::Inserted);
    assert_eq!(t.update(contact(0, 1, 2)), UpdateOutcome::Inserted);
    assert_eq!(t.bucket_contacts(0), vec![contact(0x80, 0, 1)]);
    assert_eq!(t.bucket_contacts(159), vec![contact(0, 1, 2)]);
    assert_eq!(t.bucket_contacts(7), vec![]);
    assert_eq!(t.find(&id(0x80, 0)), Some(contact(0x80, 0, 1)));
    assert_eq!(t.find(&id(0x80, 1)), None);
}

#[test]
fn table_never_holds_its_own_identifier() {
    let local = id(9, 9);
    let mut t = RoutingTable::new(local);
    assert_eq!(t.update(contact(9, 9, 5)), UpdateOutcome::Ignored);
    t.update_evicting(contact(9, 9, 6));
    assert_eq!(t.find(&local), None);
    assert_eq!(t.closest_nodes(&local, 20), vec![]);
    for i in 0..160 {
        assert_eq!(t.bucket_contacts(i).len(), 0);
    }
}

#[test]
fn table_update_twice_does_not_duplicate() {
    let mut t = RoutingTable::new(id(0, 0));
    assert_eq!(t.update(contact(0x80, 1, 1)), UpdateOutcome::Inserted);
    assert_eq!(t.update(contact(0x80, 2, 2)), UpdateOutcome::Inserted);
    assert_eq!(t.update(contact(0x80, 1, 3)), UpdateOutcome::Refreshed);
    assert_eq!(t.update(contact(0x80, 1, 3)), UpdateOutcome::Refreshed);
    assert_eq!(t.bucket_contacts(0), vec![contact(0x80, 2, 2), contact(0x80, 1, 3)]);
    assert_eq!(t.closest_nodes(&id(0, 0), 20).len(), 2);
}

#[test]
fn full_table_bucket_asks_for_a_probe_and_evicts_on_failure() {
    let mut t = RoutingTable::with_bucket_size(id(0, 0), 2);
    t.update(contact(0x80, 1, 1));
    t.update(contact(0x81, 2, 2));
    assert_eq!(t.update(contact(0x82, 3, 3)), UpdateOutcome::Full(contact(0x80, 1, 1)));
    assert_eq!(t.bucket_contacts(0), vec![contact(0x80, 1, 1), contact(0x81, 2, 2)]);
    assert_eq!(t.find(&id(0x82, 3)), None);
    assert_eq!(t.update(contact(0x40, 3, 3)), UpdateOutcome::Inserted);
    t.update_evicting(contact(0x82, 3, 4));
    assert_eq!(t.bucket_contacts(0), vec![contact(0x81, 2, 2), contact(0x82, 3, 4)]);
    assert_eq!(t.find(&id(0x80, 1)), None);
    assert_eq!(t.bucket_contacts(1), vec![contact(0x40, 3, 3)]);
}

#[test]
fn closest_nodes_come_sorted_by_distance() {
    let mut t = RoutingTable::new(id(0, 0));
    for (first, last) in [(0x80, 1), (0x01, 2), (0x40, 3), (0x00, 4), (0x08, 5), (0xff, 6)] {
        t.update(contact(first, last, 1));
    }
    let target = id(0x41, 0);
    let all = t.closest_nodes(&target, 20);
    assert_eq!(
        ids(&all),
        vec![id(0x40, 3), id(0x01, 2), id(0x00, 4), id(0x08, 5), id(0xff, 6), id(0x80, 1)]
    );
    for pair in all.windows(2) {
        let a = Distance::between(&pair[0].node_id, &target);
        let b = Distance::between(&pair[1].node_id, &target);
        assert!(a < b);
    }
    let three = t.closest_nodes(&target, 3);
    assert_eq!(ids(&three), vec![id(0x40, 3), id(0x01, 2), id(0x00, 4)]);
    assert_eq!(t.closest_nodes(&target, 0), vec![]);
    assert_eq!(t.closest_nodes(&target, 6).len(), 6);
    assert_eq!(t.closest_nodes(&target, usize::MAX).len(), 6);
}

#[test]
fn closest_nodes_never_more_than_asked() {
    let mut t = RoutingTable::new(id(0, 0));
    let mut held = 0;
    for i in 1..=60u8 {
        if t.update(contact(i.wrapping_mul(37), i, i as u64)) == UpdateOutcome::Inserted {
            held += 1;
        }
    }
    assert!(held > 20);
    let target = id(0x33, 0x33);
    for count in [0usize, 1, 5, 20, 59, 60, 61, 100] {
        let r = t.closest_nodes(&target, count);
        assert!(r.len() <= count);
        assert_eq!(r.len(), count.min(held));
        for pair in r.windows(2) {
            assert!(
                Distance::between(&pair[0].node_id, &target)
                    < Distance::between(&pair[1].node_id, &target)
            );
        }
    }
    let twenty = t.closest_nodes(&target, 20);
    let all = t.closest_nodes(&target, 100);
    assert_eq!(&all[..20], &twenty[..]);
}

#[test]
fn selection_keeps_the_closest() {
    let target = id(0, 0);
    let mut out: Vec<NodeInfo> = Vec::new();
    insert_closest(&mut out, contact(0x10, 1, 0), &target, 2);
    insert_closest(&mut out, contact(0x20, 2, 0), &target, 2);
    assert_eq!(ids(&out), vec![id(0x10, 1), id(0x20, 2)]);
    insert_closest(&mut out, contact(0x30, 3, 0), &target, 2);
    assert_eq!(ids(&out), vec![id(0x10, 1), id(0x20, 2)]);
    insert_closest(&mut out, contact(0x08, 4, 0), &target, 2);
    assert_eq!(ids(&out), vec![id(0x08, 4), id(0x10, 1)]);
    insert_closest(&mut out, contact(0x0c, 5, 0), &target, 2);
    assert_eq!(ids(&out), vec![id(0x08, 4), id(0x0c, 5)]);
}

#[test]
fn pairs_of_contacts() {
    let contacts = vec![contact(1, 1, 5), contact(2, 2, 6)];
    assert_eq!(
        to_pairs(&contacts),
        vec![
            (id(1, 1), SocketAddress::V4(0x7f00_0001, 8001)),
            (id(2, 2), SocketAddress::V4(0x7f00_0001, 8002)),
        ]
    );
    assert_eq!(to_pairs(&vec![]), vec![]);
}

#[test]
fn refresh_target_falls_in_its_bucket() {
    let locals = [id(0, 0), id(0xff, 0xff), id(0xa5, 0x3c), NodeId::random()];
    let fillers = [id(0, 0), id(0xff, 0xff), NodeId::random()];
    for local in locals {
        let t = RoutingTable::new(local);
        for filler in fillers {
            for bucket in 0..160 {
                let target = refresh_target(&local, bucket, &filler);
                assert_eq!(t.bucket_index(&target), bucket);
                assert_eq!(Distance::between(&local, &target).leading_zeros(), bucket as u32);
                assert_ne!(target, local);
            }
        }
    }
}

#[test]
fn refresh_target_flips_one_bit_and_fills_the_rest() {
    let local = id(0b1010_0000, 0x0f);
    let ones = NodeId::new([0xff; 20]);
    let zeros = NodeId::new([0; 20]);
    let mut expected = [0xffu8; 20];
    expected[0] = 0b1011_1111;
    assert_eq!(refresh_target(&local, 3, &ones), NodeId::new(expected));
    assert_eq!(local.diverging_at(3, &ones), NodeId::new(expected));
    let mut expected = [0u8; 20];
    expected[0] = 0b1011_0000;
    assert_eq!(refresh_target(&local, 3, &zeros), NodeId::new(expected));
    let mut expected = [0u8; 20];
    expected[0] = 0b1010_0000;
    expected[19] = 0x0e;
    assert_eq!(refresh_target(&local, 159, &ones), NodeId::new(expected));
    let mut expected = [0xffu8; 20];
    expected[0] = 0b0111_1111;
    assert_eq!(refresh_target(&local, 0, &ones), NodeId::new(expected));
}
