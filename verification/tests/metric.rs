use coreoverlay::types::{Distance, NodeId};

fn id(first: u8, last: u8) -> NodeId {
    let mut bytes = [0u8; 20];
    bytes[0] = first;
    bytes[19] = last;
    NodeId::new(bytes)
}

#[test]
fn identifier_keeps_its_bytes() {
    let mut bytes = [0u8; 20];
    for (i, b) in bytes.iter_mut().enumerate() {
        *b = i as u8 * 3;
    }
    let id = NodeId::new(bytes);
    assert_eq!(id.as_bytes(), &bytes[..]);
    assert_eq!(id.as_bytes().len(), 20);
    assert!(id.same(&NodeId::new(bytes)));
    assert_eq!(id, NodeId::new(bytes));
}

#[test]
fn distance_to_self_is_zero() {
    for x in [id(0, 0), id(0xff, 0xff), id(0x12, 0x34), NodeId::random()] {
        let d = Distance::between(&x, &x);
        assert_eq!(d.as_bytes(), &[0u8; 20][..]);
        assert_eq!(d.leading_zeros(), 160);
    }
}

#[test]
fn distance_between_different_identifiers_is_positive() {
    let zero = Distance::between(&id(0, 0), &id(0, 0));
    let pairs = [(id(0, 0), id(0, 1)), (id(1, 0), id(0, 0)), (id(0xff, 0xff), id(0xff, 0xfe))];
    for (x, y) in pairs {
        let d = Distance::between(&x, &y);
        assert!(zero.is_less(&d));
        assert!(!d.is_less(&zero));
        assert!(zero < d);
        assert!(d.leading_zeros() < 160);
    }
}

#[test]
fn distance_is_the_same_both_ways() {
    let x = id(0xa5, 0x0f);
    let y = id(0x5a, 0xf1);
    assert_eq!(Distance::between(&x, &y), Distance::between(&y, &x));
    let a = NodeId::random();
    let b = NodeId::random();
    assert_eq!(Distance::between(&a, &b), Distance::between(&b, &a));
}

#[test]
fn distance_is_bytewise_xor() {
    let x = id(0b1100_1010, 0x0f);
    let y = id(0b1010_0110, 0xf0);
    let d = Distance::between(&x, &y);
    let mut expected = [0u8; 20];
    expected[0] = 0b0110_1100;
    expected[19] = 0xff;
    assert_eq!(d.as_bytes(), &expected[..]);
    assert_eq!(x.distance(&y).as_bytes(), &expected[..]);
    assert_eq!(x.distance(&x), id(0, 0));
}

#[test]
fn leading_zeros_of_lowest_bit_is_159() {
    let x = id(0x77, 0x10);
    let y = id(0x77, 0x11);
    assert_eq!(Distance::between(&x, &y).leading_zeros(), 159);
    assert_eq!(Distance::between(&id(0, 0), &id(0, 1)).leading_zeros(), 159);
}

#[test]
fn leading_zeros_counts_bits_before_the_first_set_one() {
    let zero = id(0, 0);
    assert_eq!(Distance::between(&zero, &id(0x80, 0)).leading_zeros(), 0);
    assert_eq!(Distance::between(&zero, &id(0x01, 0)).leading_zeros(), 7);
    assert_eq!(Distance::between(&zero, &id(0x01, 0xff)).leading_zeros(), 7);
    assert_eq!(Distance::between(&zero, &id(0, 0x80)).leading_zeros(), 152);
    let mut bytes = [0u8; 20];
    bytes[1] = 0x10;
    assert_eq!(Distance::between(&zero, &NodeId::new(bytes)).leading_zeros(), 11);
}

#[test]
fn distances_are_ordered_as_numbers() {
    let zero = id(0, 0);
    let small = Distance::between(&zero, &id(0, 0xff));
    let mid = Distance::between(&zero, &id(1, 0));
    let big = Distance::between(&zero, &id(0x80, 0));
    assert!(small.is_less(&mid));
    assert!(mid.is_less(&big));
    assert!(small.is_less(&big));
    assert!(!big.is_less(&small));
    assert!(!mid.is_less(&mid));
    assert!(small < mid && mid < big);
    assert!(big > small);
    assert!(mid <= mid && mid >= mid);
    let mut sorted = vec![big, small, mid];
    sorted.sort();
    assert_eq!(sorted, vec![small, mid, big]);
}

#[test]
fn random_identifiers_differ() {
    let a = NodeId::random();
    let b = NodeId::random();
    assert_eq!(a.as_bytes().len(), 20);
    assert_ne!(a, b);
    assert!(!a.same(&b));
}
