use coreoverlay::storage::{
    append_bytes, bytes_equal, entry_expired, expiry_after, frame_entry, read_entry,
    unframe_entry, Store, DEFAULT_TTL,
};

#[test]
fn stored_value_is_there_before_expiry_and_gone_after() {
    let mut s = Store::with_ttl(100);
    s.insert(b"key".to_vec(), b"hello".to_vec(), 1000);
    assert_eq!(s.get(b"key", 1000), Some(&b"hello".to_vec()));
    assert_eq!(s.get(b"key", 1099), Some(&b"hello".to_vec()));
    assert_eq!(s.get(b"key", 1100), None);
    assert_eq!(s.get(b"key", 5000), None);
    assert_eq!(s.get(b"other", 1000), None);
    assert_eq!(s.len(), 1);
}

#[test]
fn cleanup_drops_what_has_expired() {
    let mut s = Store::new();
    s.store(b"a".to_vec(), b"1".to_vec(), 10, 0);
    s.store(b"b".to_vec(), b"2".to_vec(), 20, 0);
    s.store(b"c".to_vec(), b"3".to_vec(), 30, 0);
    assert_eq!(s.len(), 3);
    s.cleanup(9);
    assert_eq!(s.len(), 3);
    s.cleanup(10);
    assert_eq!(s.len(), 2);
    assert_eq!(s.get(b"a", 0), None);
    assert_eq!(s.get(b"b", 10), Some(&b"2".to_vec()));
    s.cleanup(25);
    assert_eq!(s.len(), 1);
    assert_eq!(s.get(b"c", 25), Some(&b"3".to_vec()));
    s.cleanup(30);
    assert_eq!(s.len(), 0);
    s.cleanup(31);
    assert_eq!(s.len(), 0);
}

#[test]
fn get_does_not_drop_expired_entries() {
    let mut s = Store::with_ttl(5);
    s.insert(b"k".to_vec(), b"v".to_vec(), 0);
    assert_eq!(s.get(b"k", 100), None);
    assert_eq!(s.len(), 1);
    assert_eq!(s.get(b"k", 4), Some(&b"v".to_vec()));
}

#[test]
fn storing_again_replaces_value_and_expiry() {
    let mut s = Store::with_ttl(10);
    s.insert(b"k".to_vec(), b"old".to_vec(), 0);
    s.insert(b"k".to_vec(), b"new".to_vec(), 8);
    assert_eq!(s.len(), 1);
    assert_eq!(s.get(b"k", 12), Some(&b"new".to_vec()));
    assert_eq!(s.get(b"k", 17), Some(&b"new".to_vec()));
    assert_eq!(s.get(b"k", 18), None);
    s.store(b"k".to_vec(), Vec::new(), 1, 20);
    assert_eq!(s.get(b"k", 20), Some(&Vec::new()));
    assert_eq!(s.get(b"k", 21), None);
}

#[test]
fn default_store_keeps_values_for_a_day() {
    assert_eq!(DEFAULT_TTL, 86400);
    let mut s = Store::new();
    s.insert(vec![1, 2, 3], vec![4, 5], 50);
    assert_eq!(s.get(&[1, 2, 3], 50 + 86399), Some(&vec![4, 5]));
    assert_eq!(s.get(&[1, 2, 3], 50 + 86400), None);
}

#[test]
fn zero_time_to_live_is_expired_at_once() {
    let mut s = Store::with_ttl(0);
    s.insert(b"k".to_vec(), b"v".to_vec(), 7);
    assert_eq!(s.get(b"k", 7), None);
    s.cleanup(7);
    assert_eq!(s.len(), 0);
}

#[test]
fn expiry_stops_at_the_last_time() {
    assert_eq!(expiry_after(10, 5), 15);
    assert_eq!(expiry_after(0, 0), 0);
    assert_eq!(expiry_after(u64::MAX, 0), u64::MAX);
    assert_eq!(expiry_after(u64::MAX - 1, 1), u64::MAX);
    assert_eq!(expiry_after(u64::MAX - 1, 2), u64::MAX);
    assert_eq!(expiry_after(u64::MAX, u64::MAX), u64::MAX);
    let mut s = Store::with_ttl(u64::MAX);
    s.insert(b"k".to_vec(), b"v".to_vec(), 100);
    assert_eq!(s.get(b"k", u64::MAX - 1), Some(&b"v".to_vec()));
    assert_eq!(s.get(b"k", u64::MAX), None);
}

#[test]
fn keys_are_told_apart_byte_by_byte() {
    let mut s = Store::new();
    s.insert(vec![], b"empty".to_vec(), 0);
    s.insert(vec![0], b"zero".to_vec(), 0);
    s.insert(vec![0, 0], b"zeros".to_vec(), 0);
    assert_eq!(s.len(), 3);
    assert_eq!(s.get(&[], 1), Some(&b"empty".to_vec()));
    assert_eq!(s.get(&[0], 1), Some(&b"zero".to_vec()));
    assert_eq!(s.get(&[0, 0], 1), Some(&b"zeros".to_vec()));
    assert_eq!(s.get(&[1], 1), None);
    assert!(bytes_equal(&[1, 2], &[1, 2]));
    assert!(!bytes_equal(&[1, 2], &[1, 3]));
    assert!(!bytes_equal(&[1, 2], &[1]));
    assert!(bytes_equal(&[], &[]));
}

#[test]
fn record_holds_expiry_then_value() {
    assert_eq!(
        frame_entry(b"hi", 0x0102_0304_0506_0708),
        vec![8, 7, 6, 5, 4, 3, 2, 1, b'h', b'i']
    );
    assert_eq!(frame_entry(&[], 1), vec![1, 0, 0, 0, 0, 0, 0, 0]);
    assert_eq!(
        unframe_entry(&[8, 7, 6, 5, 4, 3, 2, 1, b'h', b'i']),
        Some((0x0102_0304_0506_0708, b"hi".to_vec()))
    );
    assert_eq!(unframe_entry(&[1, 0, 0, 0, 0, 0, 0, 0]), Some((1, vec![])));
    assert_eq!(unframe_entry(&[1, 2, 3, 4, 5, 6, 7]), None);
    assert_eq!(unframe_entry(&[]), None);
    let record = frame_entry(b"value", 77);
    assert_eq!(unframe_entry(&record), Some((77, b"value".to_vec())));
}

#[test]
fn record_is_read_until_it_expires() {
    let record = frame_entry(b"value", 100);
    assert_eq!(read_entry(&record, 0), Some(b"value".to_vec()));
    assert_eq!(read_entry(&record, 99), Some(b"value".to_vec()));
    assert_eq!(read_entry(&record, 100), None);
    assert_eq!(read_entry(&[1, 2, 3], 0), None);
    assert!(!entry_expired(&record, 99));
    assert!(entry_expired(&record, 100));
    assert!(entry_expired(&record, 101));
    assert!(!entry_expired(&[1, 2, 3], 1000));
}

#[test]
fn bytes_are_appended_in_order() {
    let mut out = vec![1u8, 2];
    append_bytes(&mut out, &[3, 4, 5]);
    append_bytes(&mut out, &[]);
    assert_eq!(out, vec![1, 2, 3, 4, 5]);
}

#[test]
fn live_entries_are_those_not_expired() {
    let mut s = Store::new();
    s.store(b"a".to_vec(), b"1".to_vec(), 10, 0);
    s.store(b"b".to_vec(), b"2".to_vec(), 20, 0);
    s.store(b"c".to_vec(), b"3".to_vec(), 30, 0);
    s.store(b"b".to_vec(), b"22".to_vec(), 20, 1);
    let mut live = s.live_entries(15);
    live.sort();
    assert_eq!(live, vec![(b"b".to_vec(), b"22".to_vec()), (b"c".to_vec(), b"3".to_vec())]);
    assert_eq!(s.live_entries(0).len(), 3);
    assert_eq!(s.live_entries(30), vec![]);
    assert_eq!(Store::new().live_entries(0), vec![]);
}
