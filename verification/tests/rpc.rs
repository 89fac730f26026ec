use coreoverlay::routing::SocketAddress;
use coreoverlay::rpc::{
    find_node_outcome, find_node_request, find_value_outcome, find_value_request, ping_outcome,
    ping_request, store_outcome, store_request, RpcMessage, RpcResponse, MAX_FRAME,
};
use coreoverlay::types::NodeId;

fn id(seed: u8) -> NodeId {
    let mut bytes = [0u8; 20];
    for (i, b) in bytes.iter_mut().enumerate() {
        *b = seed.wrapping_add(i as u8);
    }
    NodeId::new(bytes)
}

fn round_trip_message(m: RpcMessage) {
    let bytes = m.encode().unwrap();
    assert!(bytes.len() <= MAX_FRAME);
    assert_eq!(RpcMessage::decode(&bytes), Some(m));
}

fn round_trip_response(r: RpcResponse) {
    let bytes = r.encode().unwrap();
    assert!(bytes.len() <= MAX_FRAME);
    assert_eq!(RpcResponse::decode(&bytes), Some(r));
}

#[test]
fn every_request_kind_survives_the_wire() {
    round_trip_message(RpcMessage::Ping { sender: id(1) });
    round_trip_message(RpcMessage::Store { sender: id(1), key: id(2), value: b"hello".to_vec() });
    round_trip_message(RpcMessage::Store { sender: id(1), key: id(2), value: vec![] });
    round_trip_message(RpcMessage::Store { sender: id(1), key: id(2), value: vec![0xab; 4096] });
    round_trip_message(RpcMessage::FindNode { sender: id(3), target: id(4) });
    round_trip_message(RpcMessage::FindValue { sender: id(5), key: id(6) });
}

#[test]
fn every_response_kind_survives_the_wire() {
    round_trip_response(RpcResponse::Pong { responder: id(1) });
    round_trip_response(RpcResponse::NodesFound { responder: id(1), nodes: vec![] });
    round_trip_response(RpcResponse::NodesFound {
        responder: id(1),
        nodes: vec![
            (id(2), SocketAddress::V4(0x7f00_0001, 8000)),
            (id(3), SocketAddress::V6(0x2001_0db8_0000_0000_0000_0000_0000_0001, 65535)),
            (id(4), SocketAddress::V4(0, 0)),
            (id(5), SocketAddress::V6(u128::MAX, 1)),
        ],
    });
    round_trip_response(RpcResponse::ValueFound { responder: id(7), value: b"hello".to_vec() });
    round_trip_response(RpcResponse::ValueFound { responder: id(7), value: vec![] });
    round_trip_response(RpcResponse::Stored { responder: id(8), success: true });
    round_trip_response(RpcResponse::Stored { responder: id(8), success: false });
}

#[test]
fn ping_is_kind_then_sender() {
    let mut expected = vec![0u8, 0, 0, 0];
    expected.extend_from_slice(id(9).as_bytes());
    assert_eq!(RpcMessage::Ping { sender: id(9) }.encode(), Some(expected.clone()));
    assert_eq!(ping_request(id(9)), expected);
    assert_eq!(expected.len(), 24);
}

#[test]
fn store_carries_length_before_value() {
    let mut expected = vec![1u8, 0, 0, 0];
    expected.extend_from_slice(id(1).as_bytes());
    expected.extend_from_slice(id(2).as_bytes());
    expected.extend_from_slice(&[3, 0, 0, 0, 0, 0, 0, 0]);
    expected.extend_from_slice(b"abc");
    let m = RpcMessage::Store { sender: id(1), key: id(2), value: b"abc".to_vec() };
    assert_eq!(m.encode(), Some(expected.clone()));
    assert_eq!(store_request(id(1), id(2), b"abc".to_vec()), Some(expected));
}

#[test]
fn find_requests_carry_sender_then_target() {
    let mut node = vec![2u8, 0, 0, 0];
    node.extend_from_slice(id(1).as_bytes());
    node.extend_from_slice(id(2).as_bytes());
    assert_eq!(find_node_request(id(1), id(2)), node);
    let mut value = vec![3u8, 0, 0, 0];
    value.extend_from_slice(id(1).as_bytes());
    value.extend_from_slice(id(2).as_bytes());
    assert_eq!(find_value_request(id(1), id(2)), value);
    assert_eq!(
        RpcMessage::decode(&node),
        Some(RpcMessage::FindNode { sender: id(1), target: id(2) })
    );
    assert_eq!(
        RpcMessage::decode(&value),
        Some(RpcMessage::FindValue { sender: id(1), key: id(2) })
    );
}

#[test]
fn nodes_found_lists_each_contact_with_its_address() {
    let r = RpcResponse::NodesFound {
        responder: id(1),
        nodes: vec![
            (id(2), SocketAddress::V4(0x0a00_0001, 0x1f40)),
            (id(3), SocketAddress::V6(1, 2)),
        ],
    };
    let mut expected = vec![1u8, 0, 0, 0];
    expected.extend_from_slice(id(1).as_bytes());
    expected.extend_from_slice(&[2, 0, 0, 0, 0, 0, 0, 0]);
    expected.extend_from_slice(id(2).as_bytes());
    expected.extend_from_slice(&[0, 0, 0, 0, 1, 0, 0, 0x0a, 0x40, 0x1f]);
    expected.extend_from_slice(id(3).as_bytes());
    expected.extend_from_slice(&[1, 0, 0, 0]);
    expected.extend_from_slice(&[1, 0, 0, 0, 0, 0, 0, 0, 0, 0, 0, 0, 0, 0, 0, 0]);
    expected.extend_from_slice(&[2, 0]);
    assert_eq!(r.encode(), Some(expected));
}

#[test]
fn stored_ends_in_one_byte() {
    let mut yes = vec![3u8, 0, 0, 0];
    yes.extend_from_slice(id(4).as_bytes());
    yes.push(1);
    assert_eq!(RpcResponse::Stored { responder: id(4), success: true }.encode(), Some(yes.clone()));
    let mut no = yes.clone();
    no[24] = 0;
    assert_eq!(RpcResponse::decode(&no), Some(RpcResponse::Stored { responder: id(4), success: false }));
    let mut bad = yes.clone();
    bad[24] = 2;
    assert_eq!(RpcResponse::decode(&bad), None);
}

#[test]
fn malformed_requests_are_refused() {
    assert_eq!(RpcMessage::decode(&[]), None);
    assert_eq!(RpcMessage::decode(&[0, 0, 0]), None);
    assert_eq!(RpcMessage::decode(&[0, 0, 0, 0]), None);
    let ping = ping_request(id(1));
    assert_eq!(RpcMessage::decode(&ping[..23]), None);
    let mut longer = ping.clone();
    longer.push(0);
    assert_eq!(RpcMessage::decode(&longer), None);
    let mut unknown = ping.clone();
    unknown[0] = 4;
    assert_eq!(RpcMessage::decode(&unknown), None);
    let mut high = ping.clone();
    high[3] = 1;
    assert_eq!(RpcMessage::decode(&high), None);
    let store = store_request(id(1), id(2), b"abc".to_vec()).unwrap();
    assert_eq!(RpcMessage::decode(&store[..store.len() - 1]), None);
    let mut lying = store.clone();
    lying[44] = 4;
    assert_eq!(RpcMessage::decode(&lying), None);
    let mut huge = store.clone();
    huge[51] = 0xff;
    assert_eq!(RpcMessage::decode(&huge), None);
    let find = find_node_request(id(1), id(2));
    assert_eq!(RpcMessage::decode(&find[..43]), None);
}

#[test]
fn malformed_responses_are_refused() {
    assert_eq!(RpcResponse::decode(&[]), None);
    assert_eq!(RpcResponse::decode(&[1, 0, 0, 0]), None);
    let nodes = RpcResponse::NodesFound {
        responder: id(1),
        nodes: vec![(id(2), SocketAddress::V4(1, 2))],
    }
    .encode()
    .unwrap();
    assert_eq!(RpcResponse::decode(&nodes[..nodes.len() - 1]), None);
    let mut more = nodes.clone();
    more[24] = 2;
    assert_eq!(RpcResponse::decode(&more), None);
    let mut fewer = nodes.clone();
    fewer[24] = 0;
    assert_eq!(RpcResponse::decode(&fewer), None);
    let mut kind = nodes.clone();
    kind[52] = 2;
    assert_eq!(RpcResponse::decode(&kind), None);
    let mut endless = nodes.clone();
    for b in &mut endless[24..32] {
        *b = 0xff;
    }
    assert_eq!(RpcResponse::decode(&endless), None);
    let mut unknown = nodes.clone();
    unknown[0] = 9;
    assert_eq!(RpcResponse::decode(&unknown), None);
    let request = ping_request(id(1));
    assert_eq!(RpcResponse::decode(&request), Some(RpcResponse::Pong { responder: id(1) }));
}

#[test]
fn a_request_that_does_not_fit_is_refused() {
    let fits = RpcMessage::Store { sender: id(1), key: id(2), value: vec![7; MAX_FRAME - 52] };
    let bytes = fits.encode().unwrap();
    assert_eq!(bytes.len(), MAX_FRAME);
    assert_eq!(RpcMessage::decode(&bytes), Some(fits));
    let too_long = RpcMessage::Store { sender: id(1), key: id(2), value: vec![7; MAX_FRAME - 51] };
    assert_eq!(too_long.encode(), None);
    assert_eq!(store_request(id(1), id(2), vec![7; MAX_FRAME]), None);
    let value = RpcResponse::ValueFound { responder: id(1), value: vec![1; MAX_FRAME - 32] };
    assert_eq!(value.encode().unwrap().len(), MAX_FRAME);
    let value = RpcResponse::ValueFound { responder: id(1), value: vec![1; MAX_FRAME - 31] };
    assert_eq!(value.encode(), None);
    let many: Vec<(NodeId, SocketAddress)> =
        (0..2000).map(|i| (id(i as u8), SocketAddress::V6(i, 1))).collect();
    assert_eq!(RpcResponse::NodesFound { responder: id(1), nodes: many }.encode(), None);
}

#[test]
fn sender_and_responder_are_read_from_any_kind() {
    assert_eq!(RpcMessage::Ping { sender: id(1) }.sender(), id(1));
    assert_eq!(RpcMessage::Store { sender: id(2), key: id(9), value: vec![] }.sender(), id(2));
    assert_eq!(RpcMessage::FindNode { sender: id(3), target: id(9) }.sender(), id(3));
    assert_eq!(RpcMessage::FindValue { sender: id(4), key: id(9) }.sender(), id(4));
    assert_eq!(RpcResponse::Pong { responder: id(5) }.responder(), id(5));
    assert_eq!(RpcResponse::NodesFound { responder: id(6), nodes: vec![] }.responder(), id(6));
    assert_eq!(RpcResponse::ValueFound { responder: id(7), value: vec![] }.responder(), id(7));
    assert_eq!(RpcResponse::Stored { responder: id(8), success: true }.responder(), id(8));
}

#[test]
fn outcomes_of_calls() {
    let pong = RpcResponse::Pong { responder: id(1) }.encode().unwrap();
    let stored = RpcResponse::Stored { responder: id(1), success: true }.encode().unwrap();
    let refused = RpcResponse::Stored { responder: id(1), success: false }.encode().unwrap();
    let found = vec![(id(2), SocketAddress::V4(1, 2))];
    let nodes = RpcResponse::NodesFound { responder: id(1), nodes: found.clone() }.encode().unwrap();
    let value = RpcResponse::ValueFound { responder: id(1), value: b"v".to_vec() }.encode().unwrap();
    let junk = vec![0xffu8; 10];

    assert_eq!(ping_outcome(&pong), Some(true));
    assert_eq!(ping_outcome(&stored), Some(false));
    assert_eq!(ping_outcome(&junk), None);

    assert_eq!(store_outcome(&stored), Some(true));
    assert_eq!(store_outcome(&refused), Some(false));
    assert_eq!(store_outcome(&pong), Some(false));
    assert_eq!(store_outcome(&junk), None);

    assert_eq!(find_node_outcome(&nodes), Some(found.clone()));
    assert_eq!(find_node_outcome(&pong), Some(vec![]));
    assert_eq!(find_node_outcome(&value), Some(vec![]));
    assert_eq!(find_node_outcome(&junk), None);

    assert_eq!(find_value_outcome(&value), Some(Ok(b"v".to_vec())));
    assert_eq!(find_value_outcome(&nodes), Some(Err(found)));
    assert_eq!(find_value_outcome(&pong), Some(Err(vec![])));
    assert_eq!(find_value_outcome(&junk), None);
}
