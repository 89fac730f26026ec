use coreoverlay::lookup::{Candidate, Lookup, LookupResult, ProbeState};
use coreoverlay::routing::SocketAddress;
use coreoverlay::types::NodeId;

fn id(first: u8) -> NodeId {
    let mut bytes = [0u8; 20];
    bytes[0] = first;
    NodeId::new(bytes)
}

fn at(first: u8) -> (NodeId, SocketAddress) {
    (id(first), SocketAddress::V4(first as u32, 9000))
}

fn states(l: &Lookup) -> Vec<(u8, ProbeState)> {
    l.candidate_list().iter().map(|c| (c.node_id.as_bytes()[0], c.state)).collect()
}

#[test]
fn seeds_are_sorted_deduplicated_and_cut_to_k() {
    let seeds = vec![at(0x40), at(0x10), at(0x80), at(0x10), at(0x20)];
    let l = Lookup::new(id(0), &seeds, 3, 2, false);
    assert_eq!(
        l.candidate_list(),
        vec![
            Candidate { node_id: id(0x10), sock_addr: SocketAddress::V4(0x10, 9000), state: ProbeState::Unqueried },
            Candidate { node_id: id(0x20), sock_addr: SocketAddress::V4(0x20, 9000), state: ProbeState::Unqueried },
            Candidate { node_id: id(0x40), sock_addr: SocketAddress::V4(0x40, 9000), state: ProbeState::Unqueried },
        ]
    );
    assert!(!l.is_finished());
    assert_eq!(l.result(), LookupResult::Closest(vec![at(0x10), at(0x20), at(0x40)]));
}

#[test]
fn lookup_without_candidates_is_over_at_once() {
    let mut l = Lookup::new(id(0), &vec![], 20, 3, false);
    assert!(l.is_finished());
    assert_eq!(l.next_probes(), vec![]);
    assert_eq!(l.result(), LookupResult::Closest(vec![]));
    let mut none = Lookup::new(id(0), &vec![at(1), at(2)], 0, 3, true);
    assert!(none.is_finished());
    assert_eq!(none.next_probes(), vec![]);
}

#[test]
fn a_round_probes_the_nearest_unqueried() {
    let seeds = vec![at(0x50), at(0x10), at(0x30), at(0x20), at(0x40)];
    let mut l = Lookup::new(id(0), &seeds, 20, 3, false);
    assert_eq!(l.next_probes(), vec![at(0x10), at(0x20), at(0x30)]);
    assert_eq!(
        states(&l),
        vec![
            (0x10, ProbeState::Pending),
            (0x20, ProbeState::Pending),
            (0x30, ProbeState::Pending),
            (0x40, ProbeState::Unqueried),
            (0x50, ProbeState::Unqueried),
        ]
    );
    assert_eq!(l.next_probes(), vec![at(0x40), at(0x50)]);
    assert_eq!(l.next_probes(), vec![]);
    assert!(!l.is_finished());
}

#[test]
fn answers_merge_new_candidates_and_mark_the_responder() {
    let mut l = Lookup::new(id(0), &vec![at(0x40), at(0x20)], 3, 1, false);
    assert_eq!(l.next_probes(), vec![at(0x20)]);
    l.record_nodes(&id(0x20), &vec![at(0x30), at(0x40), at(0x10), at(0x30)]);
    assert_eq!(
        states(&l),
        vec![
            (0x10, ProbeState::Unqueried),
            (0x20, ProbeState::Contacted),
            (0x30, ProbeState::Unqueried),
        ]
    );
    assert_eq!(l.next_probes(), vec![at(0x10)]);
    l.record_failure(&id(0x10));
    assert_eq!(l.next_probes(), vec![at(0x30)]);
    l.record_nodes(&id(0x30), &vec![at(0x20), at(0x50)]);
    assert!(l.is_finished());
    assert_eq!(l.result(), LookupResult::Closest(vec![at(0x10), at(0x20), at(0x30)]));
}

#[test]
fn known_candidate_keeps_its_address_and_state() {
    let mut l = Lookup::new(id(0), &vec![at(0x20)], 5, 3, false);
    l.next_probes();
    l.record_nodes(&id(0x20), &vec![(id(0x20), SocketAddress::V4(77, 1))]);
    assert_eq!(
        l.candidate_list(),
        vec![Candidate {
            node_id: id(0x20),
            sock_addr: SocketAddress::V4(0x20, 9000),
            state: ProbeState::Contacted,
        }]
    );
}

#[test]
fn a_value_ends_a_lookup_that_wants_one() {
    let mut l = Lookup::new(id(0), &vec![at(0x10), at(0x20), at(0x30), at(0x40)], 20, 3, true);
    l.next_probes();
    l.record_nodes(&id(0x10), &vec![at(0x50)]);
    assert!(!l.is_finished());
    l.record_value(&id(0x20), b"hello".to_vec());
    assert!(l.is_finished());
    assert_eq!(l.result(), LookupResult::Found(b"hello".to_vec()));
    l.record_value(&id(0x30), b"other".to_vec());
    assert_eq!(l.result(), LookupResult::Found(b"hello".to_vec()));
    assert_eq!(l.next_probes(), vec![]);
}

#[test]
fn a_value_means_nothing_to_a_lookup_for_nodes() {
    let mut l = Lookup::new(id(0), &vec![at(0x10)], 20, 3, false);
    l.next_probes();
    l.record_value(&id(0x10), b"hello".to_vec());
    assert!(l.is_finished());
    assert_eq!(l.result(), LookupResult::Closest(vec![at(0x10)]));
}

#[test]
fn no_probes_when_a_round_sends_none() {
    let mut l = Lookup::new(id(0), &vec![at(0x10)], 20, 0, false);
    assert_eq!(l.next_probes(), vec![]);
    assert!(!l.is_finished());
}

#[test]
fn a_stranger_answering_changes_no_state() {
    let mut l = Lookup::new(id(0), &vec![at(0x10)], 20, 3, false);
    l.record_failure(&id(0x99));
    assert_eq!(states(&l), vec![(0x10, ProbeState::Unqueried)]);
}
