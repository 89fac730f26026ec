use coreoverlay::hash::generate_key_from_string;
use coreoverlay::lookup::{Lookup, LookupResult};
use coreoverlay::node::{Config, Node, Probe};
use coreoverlay::routing::{NodeInfo, SocketAddress};
use coreoverlay::rpc::{
    find_node_request, find_value_request, ping_outcome, ping_request, store_outcome,
    RpcMessage, RpcResponse, MAX_FRAME,
};
use coreoverlay::types::{Distance, NodeId};

fn addr(i: usize) -> SocketAddress {
    SocketAddress::V4(0x0a00_0000 + i as u32, 4000)
}

fn network(n: usize, config: Config) -> Vec<Node> {
    (0..n)
        .map(|i| Node::with_id(generate_key_from_string(&format!("node-{}", i)), addr(i), config))
        .collect()
}

fn index_of(nodes: &[Node], to: SocketAddress) -> Option<usize> {
    nodes.iter().position(|n| n.address() == to)
}

fn call(nodes: &mut [Node], from: usize, to: SocketAddress, request: &[u8], now: u64) -> Option<Vec<u8>> {
    let source = nodes[from].address();
    let target = index_of(nodes, to)?;
    nodes[target].handle_datagram(request, source, now)?.datagram
}

fn ping(nodes: &mut [Node], from: usize, to: usize, now: u64) -> bool {
    let to_id = nodes[to].node_id();
    let request = ping_request(nodes[from].node_id());
    match call(nodes, from, addr(to), &request, now) {
        Some(reply) => {
            nodes[from].observe(to_id, addr(to), now);
            ping_outcome(&reply) == Some(true)
        }
        None => false,
    }
}

fn run(nodes: &mut [Node], who: usize, lookup: &mut Lookup, want_value: bool, target: NodeId, now: u64) -> usize {
    let me = nodes[who].node_id();
    let mut rounds = 0;
    while !lookup.is_finished() {
        let probes = lookup.next_probes();
        if probes.is_empty() {
            break;
        }
        rounds += 1;
        for (id, to) in probes {
            let request = if want_value {
                find_value_request(me, target)
            } else {
                find_node_request(me, target)
            };
            let reply = call(nodes, who, to, &request, now).and_then(|b| RpcResponse::decode(&b));
            match reply {
                Some(response) => {
                    nodes[who].on_response(lookup, id, to, response, now);
                }
                None => nodes[who].on_timeout(lookup, id),
            }
        }
    }
    rounds
}

fn store_value(nodes: &mut [Node], who: usize, key: NodeId, value: &[u8], now: u64) -> usize {
    let mut lookup = nodes[who].store(key, value.to_vec(), now);
    run(nodes, who, &mut lookup, false, key, now);
    let closest = match lookup.result() {
        LookupResult::Closest(c) => c,
        LookupResult::Found(_) => unreachable!(),
    };
    let mut stored = 0;
    for (to, message) in nodes[who].replication(key, &value.to_vec(), &closest) {
        let request = message.encode().unwrap();
        if let Some(reply) = call(nodes, who, to, &request, now) {
            if store_outcome(&reply) == Some(true) {
                stored += 1;
            }
        }
    }
    stored
}

fn fetch_value(nodes: &mut [Node], who: usize, key: NodeId, now: u64) -> LookupResult {
    let mut lookup = nodes[who].fetch_value(key);
    run(nodes, who, &mut lookup, true, key, now);
    lookup.result()
}

#[test]
fn default_configuration() {
    let c = Config::default();
    assert_eq!(c.k, 20);
    assert_eq!(c.alpha, 3);
    assert_eq!(c.ttl, 86400);
    assert_eq!(c.republish_interval, 3600);
    assert_eq!(c.bucket_refresh_interval, 3600);
    assert_eq!(coreoverlay::K, 20);
    assert_eq!(coreoverlay::ALPHA, 3);
    assert_eq!(coreoverlay::KEY_SIZE, 160);
    assert_eq!(coreoverlay::ID_BYTES, 20);
    assert_eq!(MAX_FRAME, 65536);
}

#[test]
fn new_node_knows_nobody_and_holds_nothing() {
    let n = Node::new(addr(1), Config::default());
    assert_eq!(n.address(), addr(1));
    assert_eq!(n.local_store().len(), 0);
    assert_eq!(n.routing_table().closest_nodes(&n.node_id(), 20), vec![]);
    let m = Node::new(addr(2), Config::default());
    assert_ne!(n.node_id(), m.node_id());
}

#[test]
fn every_request_records_its_sender() {
    let me = generate_key_from_string("me");
    let key = generate_key_from_string("key");
    let mut n = Node::with_id(me, addr(0), Config::default());
    let senders: Vec<NodeId> = (1..=4).map(|i| generate_key_from_string(&format!("s{}", i))).collect();
    let requests = vec![
        RpcMessage::Ping { sender: senders[0] },
        RpcMessage::Store { sender: senders[1], key, value: b"v".to_vec() },
        RpcMessage::FindNode { sender: senders[2], target: key },
        RpcMessage::FindValue { sender: senders[3], key },
    ];
    for (i, request) in requests.into_iter().enumerate() {
        let reply = n.handle_message(request, addr(i + 1), 100 + i as u64);
        assert_eq!(reply.probe, None);
        assert_eq!(reply.response.responder(), me);
        assert_eq!(
            n.routing_table().find(&senders[i]),
            Some(NodeInfo { node_id: senders[i], sock_addr: addr(i + 1), last_seen: 100 + i as u64 })
        );
    }
}

#[test]
fn answers_to_each_request() {
    let me = generate_key_from_string("me");
    let peer = generate_key_from_string("peer");
    let key = generate_key_from_string("key");
    let mut n = Node::with_id(me, addr(0), Config { ttl: 50, ..Config::default() });

    let reply = n.handle_message(RpcMessage::Ping { sender: peer }, addr(1), 10);
    assert_eq!(reply.response, RpcResponse::Pong { responder: me });

    let reply = n.handle_message(RpcMessage::FindValue { sender: peer, key }, addr(1), 10);
    assert_eq!(reply.response, RpcResponse::NodesFound { responder: me, nodes: vec![(peer, addr(1))] });

    let reply = n.handle_message(
        RpcMessage::Store { sender: peer, key, value: b"hello".to_vec() },
        addr(1),
        10,
    );
    assert_eq!(reply.response, RpcResponse::Stored { responder: me, success: true });
    assert_eq!(n.local_store().get(key.as_bytes(), 59), Some(&b"hello".to_vec()));
    assert_eq!(n.local_store().get(key.as_bytes(), 60), None);

    let reply = n.handle_message(RpcMessage::FindValue { sender: peer, key }, addr(1), 59);
    assert_eq!(reply.response, RpcResponse::ValueFound { responder: me, value: b"hello".to_vec() });
    let reply = n.handle_message(RpcMessage::FindValue { sender: peer, key }, addr(1), 60);
    assert_eq!(reply.response, RpcResponse::NodesFound { responder: me, nodes: vec![(peer, addr(1))] });

    let reply = n.handle_message(RpcMessage::FindNode { sender: peer, target: key }, addr(1), 11);
    assert_eq!(reply.response, RpcResponse::NodesFound { responder: me, nodes: vec![(peer, addr(1))] });

    let reply = n.handle_find_node(me, addr(0), key, 12);
    assert_eq!(reply.response, RpcResponse::NodesFound { responder: me, nodes: vec![(peer, addr(1))] });
    assert_eq!(n.routing_table().find(&me), None);

    assert_eq!(n.load_local(key, 59), Some(b"hello".to_vec()));
    assert_eq!(n.load_local(key, 60), None);
    n.store_local(peer, b"own".to_vec(), 5, 100);
    assert_eq!(n.load_local(peer, 104), Some(b"own".to_vec()));
    assert_eq!(n.load_local(peer, 105), None);
    assert_eq!(n.configuration().ttl, 50);
    n.cleanup(59);
    assert_eq!(n.local_store().len(), 2);
    n.cleanup(60);
    assert_eq!(n.local_store().len(), 1);
    n.cleanup(105);
    assert_eq!(n.local_store().len(), 0);
}

#[test]
fn find_node_answers_with_the_k_closest_in_order() {
    let me = generate_key_from_string("me");
    let mut n = Node::with_id(me, addr(0), Config { k: 4, ..Config::default() });
    for i in 1..=12 {
        n.observe(generate_key_from_string(&format!("peer-{}", i)), addr(i), i as u64);
    }
    let target = generate_key_from_string("target");
    let asker = generate_key_from_string("asker");
    let reply = n.handle_find_node(asker, addr(99), target, 50);
    let nodes = match reply.response {
        RpcResponse::NodesFound { responder, nodes } => {
            assert_eq!(responder, me);
            nodes
        }
        other => panic!("{:?}", other),
    };
    assert_eq!(nodes.len(), 4);
    let all = n.routing_table().closest_nodes(&target, 100);
    assert!(all.len() >= 4);
    for (i, (id, a)) in nodes.iter().enumerate() {
        assert_eq!((*id, *a), (all[i].node_id, all[i].sock_addr));
    }
    for pair in nodes.windows(2) {
        assert!(Distance::between(&pair[0].0, &target) < Distance::between(&pair[1].0, &target));
    }
}

#[test]
fn malformed_datagram_is_dropped() {
    let mut n = Node::with_id(generate_key_from_string("me"), addr(0), Config::default());
    assert!(n.handle_datagram(&[], addr(1), 0).is_none());
    assert!(n.handle_datagram(&[9, 9, 9, 9, 9], addr(1), 0).is_none());
    let pong = RpcResponse::Pong { responder: generate_key_from_string("x") }.encode().unwrap();
    let mut junk = pong.clone();
    junk[0] = 7;
    assert!(n.handle_datagram(&junk, addr(1), 0).is_none());
    assert_eq!(n.routing_table().closest_nodes(&n.node_id(), 20), vec![]);
    assert_eq!(n.local_store().len(), 0);
    let ping = ping_request(generate_key_from_string("x"));
    let reply = n.handle_datagram(&ping, addr(1), 0).unwrap();
    assert_eq!(
        RpcResponse::decode(&reply.datagram.unwrap()),
        Some(RpcResponse::Pong { responder: n.node_id() })
    );
    assert_eq!(reply.probe, None);
    assert_eq!(n.routing_table().closest_nodes(&n.node_id(), 20).len(), 1);
}

#[test]
fn a_response_too_long_for_a_datagram_is_not_sent() {
    let me = generate_key_from_string("me");
    let key = generate_key_from_string("key");
    let mut n = Node::with_id(me, addr(0), Config::default());
    let _ = n.store(key, vec![1; MAX_FRAME], 0);
    let request = find_value_request(generate_key_from_string("x"), key);
    let reply = n.handle_datagram(&request, addr(1), 1).unwrap();
    assert_eq!(reply.datagram, None);
    assert!(n.routing_table().find(&generate_key_from_string("x")).is_some());
}

#[test]
fn full_bucket_asks_for_a_probe_of_its_oldest() {
    let mut me_bytes = [0u8; 20];
    me_bytes[0] = 0;
    let me = NodeId::new(me_bytes);
    let mut n = Node::with_id(me, addr(0), Config { k: 2, ..Config::default() });
    let far = |last: u8| {
        let mut b = [0u8; 20];
        b[0] = 0x80;
        b[19] = last;
        NodeId::new(b)
    };
    assert_eq!(n.observe(far(1), addr(1), 1), None);
    assert_eq!(n.observe(far(2), addr(2), 2), None);
    let oldest = NodeInfo { node_id: far(1), sock_addr: addr(1), last_seen: 1 };
    let reply = n.handle_message(RpcMessage::Ping { sender: far(3) }, addr(3), 3);
    let newcomer = NodeInfo { node_id: far(3), sock_addr: addr(3), last_seen: 3 };
    assert_eq!(reply.probe, Some(Probe { oldest, newcomer }));
    assert_eq!(reply.response, RpcResponse::Pong { responder: me });
    assert_eq!(n.routing_table().find(&far(3)), None);
    assert_eq!(n.observe(far(1), addr(1), 4), None);
    assert_eq!(
        n.routing_table().bucket_contacts(0),
        vec![
            NodeInfo { node_id: far(2), sock_addr: addr(2), last_seen: 2 },
            NodeInfo { node_id: far(1), sock_addr: addr(1), last_seen: 4 },
        ]
    );
    n.probe_failed(NodeInfo { node_id: far(3), sock_addr: addr(3), last_seen: 5 });
    assert_eq!(
        n.routing_table().bucket_contacts(0),
        vec![
            NodeInfo { node_id: far(1), sock_addr: addr(1), last_seen: 4 },
            NodeInfo { node_id: far(3), sock_addr: addr(3), last_seen: 5 },
        ]
    );
}

#[test]
fn stored_value_is_fetched_by_another_node() {
    let mut nodes = network(3, Config::default());
    let (a, b, c) = (0, 1, 2);
    assert!(ping(&mut nodes, a, c, 1));
    assert!(ping(&mut nodes, b, c, 2));
    let a_id = nodes[a].node_id();
    assert_eq!(nodes[b].routing_table().find(&a_id), None);

    let key = generate_key_from_string("K");
    let stored = store_value(&mut nodes, a, key, b"hello", 10);
    assert!(stored >= 1);
    assert_eq!(nodes[a].local_store().get(key.as_bytes(), 11), Some(&b"hello".to_vec()));

    assert_eq!(fetch_value(&mut nodes, b, key, 20), LookupResult::Found(b"hello".to_vec()));
    let known = nodes[b].routing_table().find(&a_id).unwrap();
    assert_eq!(known.sock_addr, addr(a));
}

#[test]
fn value_held_only_by_its_owner_is_found_through_a_third_node() {
    let mut nodes = network(3, Config::default());
    let (a, b, c) = (0, 1, 2);
    assert!(ping(&mut nodes, a, c, 1));
    assert!(ping(&mut nodes, b, c, 2));
    let key = generate_key_from_string("K");
    let _ = nodes[a].store(key, b"hello".to_vec(), 10);
    let a_id = nodes[a].node_id();
    assert_eq!(fetch_value(&mut nodes, b, key, 20), LookupResult::Found(b"hello".to_vec()));
    assert_eq!(nodes[b].routing_table().find(&a_id).map(|c| c.sock_addr), Some(addr(a)));
    assert_eq!(
        fetch_value(&mut nodes, b, key, 10 + 86400),
        LookupResult::Closest({
            let mut l = nodes[b].lookup_nodes(key);
            run(&mut nodes, b, &mut l, false, key, 10 + 86400);
            match l.result() {
                LookupResult::Closest(c) => c,
                LookupResult::Found(_) => unreachable!(),
            }
        })
    );
}

#[test]
fn absent_key_is_not_found_and_candidates_are_named() {
    let mut nodes = network(3, Config::default());
    assert!(ping(&mut nodes, 0, 2, 1));
    assert!(ping(&mut nodes, 1, 2, 2));
    let key = generate_key_from_string("nobody stored this");
    match fetch_value(&mut nodes, 1, key, 5) {
        LookupResult::Closest(candidates) => {
            assert!(!candidates.is_empty());
            for pair in candidates.windows(2) {
                assert!(Distance::between(&pair[0].0, &key) < Distance::between(&pair[1].0, &key));
            }
        }
        LookupResult::Found(v) => panic!("{:?}", v),
    }
    let mut alone = network(1, Config::default());
    assert_eq!(fetch_value(&mut alone, 0, key, 5), LookupResult::Closest(vec![]));
}

#[test]
fn unreachable_nodes_do_not_stop_a_lookup() {
    let mut nodes = network(4, Config::default());
    for i in 1..4 {
        assert!(ping(&mut nodes, 0, i, 1));
    }
    let ghost = generate_key_from_string("ghost");
    nodes[0].observe(ghost, addr(77), 2);
    let key = generate_key_from_string("K");
    let mut lookup = nodes[0].lookup_nodes(key);
    run(&mut nodes, 0, &mut lookup, false, key, 3);
    assert!(lookup.is_finished());
    match lookup.result() {
        LookupResult::Closest(c) => assert!(c.iter().any(|(id, _)| *id == ghost)),
        LookupResult::Found(_) => unreachable!(),
    }
    assert!(nodes[0].routing_table().find(&ghost).is_some());
}

#[test]
fn lookup_in_a_full_mesh_returns_every_node_in_few_rounds() {
    let n = 20;
    let mut nodes = network(n, Config::default());
    for i in 0..n {
        for j in 0..n {
            if i != j {
                let (id, a) = (nodes[j].node_id(), nodes[j].address());
                assert_eq!(nodes[i].observe(id, a, 1), None);
            }
        }
    }
    for target_name in ["t1", "t2", "t3"] {
        let target = generate_key_from_string(target_name);
        let mut lookup = nodes[0].lookup_nodes(target);
        let rounds = run(&mut nodes, 0, &mut lookup, false, target, 2);
        assert!(lookup.is_finished());
        assert!(rounds <= 7);
        let found = match lookup.result() {
            LookupResult::Closest(c) => c,
            LookupResult::Found(_) => unreachable!(),
        };
        assert_eq!(found.len(), n);
        let mut expected: Vec<(NodeId, SocketAddress)> =
            nodes.iter().map(|x| (x.node_id(), x.address())).collect();
        expected.sort_by_key(|(id, _)| Distance::between(id, &target));
        assert_eq!(found, expected);
    }
}

#[test]
fn replication_asks_each_of_the_closest() {
    let me = generate_key_from_string("me");
    let n = Node::with_id(me, addr(0), Config::default());
    let key = generate_key_from_string("key");
    let closest = vec![(generate_key_from_string("a"), addr(1)), (generate_key_from_string("b"), addr(2))];
    let out = n.replication(key, &b"v".to_vec(), &closest);
    assert_eq!(
        out,
        vec![
            (addr(1), RpcMessage::Store { sender: me, key, value: b"v".to_vec() }),
            (addr(2), RpcMessage::Store { sender: me, key, value: b"v".to_vec() }),
        ]
    );
    assert_eq!(n.replication(key, &vec![], &vec![]), vec![]);
}

#[test]
fn held_values_are_what_is_to_be_republished() {
    let mut n = Node::with_id(generate_key_from_string("me"), addr(0), Config::default());
    let (k1, k2) = (generate_key_from_string("k1"), generate_key_from_string("k2"));
    n.store_local(k1, b"one".to_vec(), 10, 0);
    n.store_local(k2, b"two".to_vec(), 20, 0);
    let mut held = n.held_values(5);
    held.sort_by_key(|(_, v)| v.clone());
    assert_eq!(held, vec![(k1, b"one".to_vec()), (k2, b"two".to_vec())]);
    assert_eq!(n.held_values(10), vec![(k2, b"two".to_vec())]);
    assert_eq!(n.held_values(20), vec![]);
}

#[test]
fn refreshing_a_bucket_looks_up_an_identifier_of_that_bucket() {
    let me = generate_key_from_string("me");
    let mut n = Node::with_id(me, addr(0), Config::default());
    let peer = generate_key_from_string("peer");
    n.observe(peer, addr(1), 1);
    for bucket in [0usize, 1, 7, 8, 80, 158, 159] {
        let (target, lookup) = n.refresh_bucket(bucket, &NodeId::random());
        assert_eq!(n.routing_table().bucket_index(&target), bucket);
        assert!(!lookup.is_finished());
        assert_eq!(lookup.result(), LookupResult::Closest(vec![(peer, addr(1))]));
    }
}
