//! Why a lookup comes to an end: in a network of no more nodes than a
//! lookup keeps, every round that has something to probe contacts a node
//! that was not contacted before.

use crate::lookup::{
    after_pick, all_contacted, candidates_sorted, closer_count, contacted, knows,
    lemma_insert_sorted, lemma_picks_prefix, merged, picked, picks, unqueried_count,
    with_candidate, Candidate, ProbeState,
};
use crate::routing::{
    distance_to, ids_sorted, lemma_distinct_subset_len, lemma_sorted_ids_unique, SocketAddress,
};
use crate::types::NodeId;
use vstd::prelude::*;

verus! {

/// A candidate's identifier with its address.
pub open spec fn pair_of(c: Candidate) -> (NodeId, SocketAddress) {
    (c.node_id, c.sock_addr)
}

/// A position in `s` of the candidate with the identifier `id`.
pub open spec fn index_of(s: Seq<Candidate>, id: NodeId) -> int {
    choose|i: int| 0 <= i < s.len() && (#[trigger] s[i]).node_id == id
}

/// How far the lookup has got with the node `id`; none if it is no
/// candidate.
pub open spec fn state_of(s: Seq<Candidate>, id: NodeId) -> Option<ProbeState> {
    if knows(s, id) {
        Some(s[index_of(s, id)].state)
    } else {
        None
    }
}

/// No two nodes of `net` have the same identifier.
pub open spec fn distinct_nodes(net: Seq<(NodeId, SocketAddress)>) -> bool {
    forall|i: int, j: int| 0 <= i < j < net.len() ==> (#[trigger] net[i]).0 != (#[trigger] net[j]).0
}

/// Every candidate is a node of `net`.
pub open spec fn within(s: Seq<Candidate>, net: Seq<(NodeId, SocketAddress)>) -> bool {
    forall|i: int| 0 <= i < s.len() ==> net.contains(pair_of(#[trigger] s[i]))
}

/// Every node in `nodes` is a node of `net`.
pub open spec fn listed(
    nodes: Seq<(NodeId, SocketAddress)>,
    net: Seq<(NodeId, SocketAddress)>,
) -> bool {
    forall|j: int| 0 <= j < nodes.len() ==> net.contains(#[trigger] nodes[j])
}

/// No candidate has a probe on its way.
pub open spec fn no_pending(s: Seq<Candidate>) -> bool {
    forall|i: int| 0 <= i < s.len() ==> !((#[trigger] s[i]).state is Pending)
}

/// The candidates are sorted and all from the network `net`, which has no
/// more nodes than the lookup keeps.
pub open spec fn closed(
    s: Seq<Candidate>,
    net: Seq<(NodeId, SocketAddress)>,
    target: NodeId,
    k: nat,
) -> bool {
    &&& candidates_sorted(s, target)
    &&& distinct_nodes(net)
    &&& net.len() <= k
    &&& within(s, net)
}

/// In a sorted list no identifier occurs twice.
pub proof fn lemma_sorted_distinct(s: Seq<Candidate>, target: NodeId, i: int, j: int)
    requires
        candidates_sorted(s, target),
        0 <= i < s.len(),
        0 <= j < s.len(),
        s[i].node_id == s[j].node_id,
    ensures
        i == j,
{
    if i < j {
        assert(distance_to(s[i].node_id, target) < distance_to(
            s[j].node_id,
            target,
        ));
    } else if j < i {
        assert(distance_to(s[j].node_id, target) < distance_to(
            s[i].node_id,
            target,
        ));
    }
}

/// The state of the candidate at position `i` of a sorted list.
pub proof fn lemma_state_at(s: Seq<Candidate>, target: NodeId, i: int)
    requires
        candidates_sorted(s, target),
        0 <= i < s.len(),
    ensures
        knows(s, s[i].node_id),
        index_of(s, s[i].node_id) == i,
        state_of(s, s[i].node_id) == Some(s[i].state),
{
    lemma_sorted_distinct(s, target, i, index_of(s, s[i].node_id));
}

/// Sorted candidates from a network are no more than the network's nodes.
pub proof fn lemma_closed_size(
    s: Seq<Candidate>,
    net: Seq<(NodeId, SocketAddress)>,
    target: NodeId,
)
    requires
        candidates_sorted(s, target),
        within(s, net),
    ensures
        s.len() <= net.len(),
{
    let ids = Seq::new(s.len(), |i: int| s[i].node_id);
    let net_ids = Seq::new(net.len(), |j: int| net[j].0);
    assert forall|i: int, j: int| 0 <= i < ids.len() && 0 <= j < ids.len() && i != j implies ids[i]
        != ids[j] by {
        if ids[i] == ids[j] {
            lemma_sorted_distinct(s, target, i, j);
        }
    }
    assert forall|i: int| 0 <= i < ids.len() implies net_ids.contains(#[trigger] ids[i]) by {
        assert(net.contains(pair_of(s[i])));
        let j = choose|j: int| 0 <= j < net.len() && net[j] == pair_of(s[i]);
        assert(net_ids[j] == ids[i]);
    }
    lemma_distinct_subset_len(ids, net_ids);
}

/// In a network of no more nodes than the lookup keeps, hearing of one of
/// its nodes drops no candidate: those known keep their state, and the node
/// heard of is a candidate, unqueried if it is new.
pub proof fn lemma_with_candidate_closed(
    s: Seq<Candidate>,
    id: NodeId,
    addr: SocketAddress,
    net: Seq<(NodeId, SocketAddress)>,
    target: NodeId,
    k: nat,
)
    requires
        closed(s, net, target, k),
        net.contains((id, addr)),
    ensures
        closed(with_candidate(s, id, addr, target, k), net, target, k),
        forall|x: NodeId|
            knows(s, x) ==> #[trigger] state_of(with_candidate(s, id, addr, target, k), x)
                == state_of(s, x),
        forall|x: NodeId|
            !knows(s, x) ==> #[trigger] state_of(with_candidate(s, id, addr, target, k), x) == (if x
                == id {
                Some(ProbeState::Unqueried)
            } else {
                None
            }),
        knows(with_candidate(s, id, addr, target, k), id),
{
    let r = with_candidate(s, id, addr, target, k);
    if !knows(s, id) {
        let c = Candidate { node_id: id, sock_addr: addr, state: ProbeState::Unqueried };
        lemma_insert_sorted(s, id, addr, target);
        let pos = closer_count(s, id, target) as int;
        let grown = s.insert(pos, c);
        assert forall|i: int| 0 <= i < grown.len() implies net.contains(
            pair_of(#[trigger] grown[i]),
        ) by {
            if i < pos {
                assert(grown[i] == s[i]);
            } else if i > pos {
                assert(grown[i] == s[i - 1]);
            }
        }
        lemma_closed_size(grown, net, target);
        assert(r == grown);
        assert(grown[pos] == c);
        lemma_state_at(grown, target, pos);
        assert forall|x: NodeId| knows(s, x) implies #[trigger] state_of(r, x) == state_of(
            s,
            x,
        ) by {
            let i = index_of(s, x);
            lemma_state_at(s, target, i);
            let gi = if i < pos { i } else { i + 1 };
            assert(grown[gi] == s[i]);
            lemma_state_at(grown, target, gi);
        }
        assert forall|x: NodeId| !knows(s, x) implies #[trigger] state_of(r, x) == (if x == id {
            Some(ProbeState::Unqueried)
        } else {
            None
        }) by {
            if x != id && knows(grown, x) {
                let gi = index_of(grown, x);
                let i = if gi < pos { gi } else { gi - 1 };
                assert(grown[gi] == s[i]);
                assert(false);
            }
        }
    } else {
        assert(r == s);
    }
}

/// In a network of no more nodes than the lookup keeps, hearing of some of
/// its nodes drops no candidate: those known keep their state, those heard
/// of are candidates, and the new ones are unqueried.
pub proof fn lemma_merged_closed(
    s: Seq<Candidate>,
    nodes: Seq<(NodeId, SocketAddress)>,
    net: Seq<(NodeId, SocketAddress)>,
    target: NodeId,
    k: nat,
)
    requires
        closed(s, net, target, k),
        listed(nodes, net),
    ensures
        closed(merged(s, nodes, target, k), net, target, k),
        forall|x: NodeId|
            knows(s, x) ==> #[trigger] state_of(merged(s, nodes, target, k), x) == state_of(s, x),
        forall|x: NodeId|
            !knows(s, x) ==> #[trigger] state_of(merged(s, nodes, target, k), x) is None
                || state_of(merged(s, nodes, target, k), x) == Some(ProbeState::Unqueried),
        forall|j: int|
            0 <= j < nodes.len() ==> knows(merged(s, nodes, target, k), (#[trigger] nodes[j]).0),
    decreases nodes.len(),
{
    if nodes.len() > 0 {
        let first = nodes[0];
        let s1 = with_candidate(s, first.0, first.1, target, k);
        let rest = nodes.skip(1);
        let r = merged(s, nodes, target, k);
        assert(net.contains(nodes[0]));
        lemma_with_candidate_closed(s, first.0, first.1, net, target, k);
        assert forall|j: int| 0 <= j < rest.len() implies net.contains(#[trigger] rest[j]) by {
            assert(rest[j] == nodes[j + 1]);
        }
        lemma_merged_closed(s1, rest, net, target, k);
        assert(r == merged(s1, rest, target, k));
        assert forall|x: NodeId| knows(s, x) implies #[trigger] state_of(r, x) == state_of(
            s,
            x,
        ) by {
            assert(state_of(s1, x) == state_of(s, x));
            assert(knows(s1, x));
        }
        assert forall|x: NodeId| !knows(s, x) implies #[trigger] state_of(r, x) is None || state_of(
            r,
            x,
        ) == Some(ProbeState::Unqueried) by {
            if knows(s1, x) {
                assert(state_of(s1, x) == Some(ProbeState::Unqueried));
                assert(state_of(r, x) == state_of(s1, x));
            }
        }
        assert forall|j: int| 0 <= j < nodes.len() implies knows(r, (#[trigger] nodes[j]).0) by {
            if j == 0 {
                assert(knows(s1, first.0));
                assert(state_of(r, first.0) == state_of(s1, first.0));
            } else {
                assert(rest[j - 1] == nodes[j]);
            }
        }
    }
}


/// Marking a node as contacted changes its state and nothing else.
pub proof fn lemma_contacted_closed(
    s: Seq<Candidate>,
    id: NodeId,
    net: Seq<(NodeId, SocketAddress)>,
    target: NodeId,
    k: nat,
)
    requires
        closed(s, net, target, k),
    ensures
        closed(contacted(s, id), net, target, k),
        forall|x: NodeId| knows(contacted(s, id), x) == knows(s, x),
        forall|x: NodeId| #[trigger]
            state_of(contacted(s, id), x) == (if x == id && knows(s, id) {
                Some(ProbeState::Contacted)
            } else {
                state_of(s, x)
            }),
{
    let r = contacted(s, id);
    assert forall|i: int, j: int| 0 <= i < j < r.len() implies distance_to(
        (#[trigger] r[i]).node_id,
        target,
    ) < distance_to((#[trigger] r[j]).node_id, target) by {
        assert(r[i].node_id == s[i].node_id);
        assert(r[j].node_id == s[j].node_id);
    }
    assert forall|i: int| 0 <= i < r.len() implies net.contains(pair_of(#[trigger] r[i])) by {
        assert(pair_of(r[i]) == pair_of(s[i]));
    }
    assert forall|x: NodeId| knows(r, x) == knows(s, x) by {
        if knows(s, x) {
            let i = index_of(s, x);
            assert(r[i].node_id == x);
        }
        if knows(r, x) {
            let i = index_of(r, x);
            assert(s[i].node_id == x);
        }
    }
    assert forall|x: NodeId| #[trigger]
        state_of(r, x) == (if x == id && knows(s, id) {
            Some(ProbeState::Contacted)
        } else {
            state_of(s, x)
        }) by {
        if knows(s, x) {
            let i = index_of(s, x);
            lemma_state_at(s, target, i);
            assert(r[i].node_id == x);
            lemma_state_at(r, target, i);
        }
    }
}

/// Whether a round with `budget` probes picks the node `id`.
pub open spec fn probed(s: Seq<Candidate>, budget: nat, id: NodeId) -> bool {
    knows(s, id) && picked(s, index_of(s, id), budget)
}

/// Picking the candidates of a round changes their state and nothing else.
pub proof fn lemma_after_pick_closed(
    s: Seq<Candidate>,
    budget: nat,
    net: Seq<(NodeId, SocketAddress)>,
    target: NodeId,
    k: nat,
)
    requires
        closed(s, net, target, k),
    ensures
        closed(after_pick(s, budget), net, target, k),
        forall|x: NodeId| knows(after_pick(s, budget), x) == knows(s, x),
        forall|x: NodeId| #[trigger]
            state_of(after_pick(s, budget), x) == (if probed(s, budget, x) {
                Some(ProbeState::Pending)
            } else {
                state_of(s, x)
            }),
{
    let r = after_pick(s, budget);
    assert forall|i: int, j: int| 0 <= i < j < r.len() implies distance_to(
        (#[trigger] r[i]).node_id,
        target,
    ) < distance_to((#[trigger] r[j]).node_id, target) by {
        assert(r[i].node_id == s[i].node_id);
        assert(r[j].node_id == s[j].node_id);
    }
    assert forall|i: int| 0 <= i < r.len() implies net.contains(pair_of(#[trigger] r[i])) by {
        assert(pair_of(r[i]) == pair_of(s[i]));
    }
    assert forall|x: NodeId| knows(r, x) == knows(s, x) by {
        if knows(s, x) {
            let i = index_of(s, x);
            assert(r[i].node_id == x);
        }
        if knows(r, x) {
            let i = index_of(r, x);
            assert(s[i].node_id == x);
        }
    }
    assert forall|x: NodeId| #[trigger]
        state_of(r, x) == (if probed(s, budget, x) {
            Some(ProbeState::Pending)
        } else {
            state_of(s, x)
        }) by {
        if knows(s, x) {
            let i = index_of(s, x);
            lemma_state_at(s, target, i);
            assert(r[i].node_id == x);
            lemma_state_at(r, target, i);
        }
    }
}

/// The nodes that a round picks are the candidates it picks, each once.
pub proof fn lemma_picks_are_probed(s: Seq<Candidate>, budget: nat, target: NodeId)
    requires
        candidates_sorted(s, target),
    ensures
        forall|j: int|
            0 <= j < picks(s, budget).len() ==> probed(s, budget, (#[trigger] picks(s, budget)[j]).0),
        forall|x: NodeId|
            probed(s, budget, x) ==> exists|j: int|
                0 <= j < picks(s, budget).len() && (#[trigger] picks(s, budget)[j]).0 == x,
    decreases s.len(),
{
    if s.len() > 0 {
        let p = s.drop_last();
        let last = s.len() - 1;
        assert forall|i: int, j: int| 0 <= i < j < p.len() implies distance_to(
            (#[trigger] p[i]).node_id,
            target,
        ) < distance_to((#[trigger] p[j]).node_id, target) by {
            assert(p[i] == s[i]);
            assert(p[j] == s[j]);
        }
        lemma_picks_are_probed(p, budget, target);
        assert(p =~= s.take(p.len() as int));
        lemma_picks_prefix(p, s, budget);
        let before = picks(p, budget);
        let all = picks(s, budget);
        assert forall|x: NodeId| probed(p, budget, x) implies probed(s, budget, x) by {
            let i = index_of(p, x);
            lemma_state_at(p, target, i);
            assert(s[i] == p[i]);
            lemma_state_at(s, target, i);
            assert(picked(p, i, budget) == picked(s, i, budget));
        }
        assert forall|j: int| 0 <= j < all.len() implies probed(
            s,
            budget,
            (#[trigger] all[j]).0,
        ) by {
            if j < before.len() {
                assert(all[j] == before[j]);
                assert(probed(p, budget, before[j].0));
            } else {
                lemma_state_at(s, target, last);
            }
        }
        assert forall|x: NodeId| probed(s, budget, x) implies exists|j: int|
            0 <= j < all.len() && (#[trigger] all[j]).0 == x by {
            let i = index_of(s, x);
            lemma_state_at(s, target, i);
            if i < last {
                assert(p[i] == s[i]);
                lemma_state_at(p, target, i);
                assert(picked(p, i, budget) == picked(s, i, budget));
                assert(probed(p, budget, x));
                let j = choose|j: int| 0 <= j < before.len() && (#[trigger] before[j]).0 == x;
                assert(all[j] == before[j]);
            } else {
                lemma_state_at(s, target, last);
                assert(all[all.len() - 1].0 == x);
            }
        }
    }
}

/// The candidates after each node of `probes`, in turn, has answered with
/// the nodes that `responses` gives for it; a node that fails to answer
/// gives none.
pub open spec fn answered(
    s: Seq<Candidate>,
    probes: Seq<(NodeId, SocketAddress)>,
    responses: spec_fn(NodeId) -> Seq<(NodeId, SocketAddress)>,
    target: NodeId,
    k: nat,
) -> Seq<Candidate>
    decreases probes.len(),
{
    if probes.len() == 0 {
        s
    } else {
        answered(
            merged(contacted(s, probes[0].0), responses(probes[0].0), target, k),
            probes.skip(1),
            responses,
            target,
            k,
        )
    }
}

/// The candidates after one round: the nearest unqueried candidates are
/// picked, as many as a round probes, and each has answered.
pub open spec fn after_round(
    s: Seq<Candidate>,
    alpha: nat,
    responses: spec_fn(NodeId) -> Seq<(NodeId, SocketAddress)>,
    target: NodeId,
    k: nat,
) -> Seq<Candidate> {
    answered(after_pick(s, alpha), picks(s, alpha), responses, target, k)
}

/// The candidates after `n` rounds.
pub open spec fn after_rounds(
    s: Seq<Candidate>,
    n: nat,
    alpha: nat,
    responses: spec_fn(NodeId) -> Seq<(NodeId, SocketAddress)>,
    target: NodeId,
    k: nat,
) -> Seq<Candidate>
    decreases n,
{
    if n == 0 {
        s
    } else {
        after_round(
            after_rounds(s, (n - 1) as nat, alpha, responses, target, k),
            alpha,
            responses,
            target,
            k,
        )
    }
}

/// Whether `id` is among the nodes `probes`.
pub open spec fn among(probes: Seq<(NodeId, SocketAddress)>, id: NodeId) -> bool {
    exists|j: int| 0 <= j < probes.len() && (#[trigger] probes[j]).0 == id
}

/// After the probed nodes have answered, each of them is contacted, the
/// other candidates are as they were, and the nodes heard of are candidates,
/// the new ones unqueried.
pub proof fn lemma_answered_closed(
    s: Seq<Candidate>,
    probes: Seq<(NodeId, SocketAddress)>,
    responses: spec_fn(NodeId) -> Seq<(NodeId, SocketAddress)>,
    net: Seq<(NodeId, SocketAddress)>,
    target: NodeId,
    k: nat,
)
    requires
        closed(s, net, target, k),
        forall|id: NodeId| listed(#[trigger] responses(id), net),
        forall|j: int| 0 <= j < probes.len() ==> knows(s, (#[trigger] probes[j]).0),
    ensures
        closed(answered(s, probes, responses, target, k), net, target, k),
        forall|x: NodeId|
            knows(s, x) ==> #[trigger] state_of(answered(s, probes, responses, target, k), x) == (
            if among(probes, x) {
                Some(ProbeState::Contacted)
            } else {
                state_of(s, x)
            }),
        forall|x: NodeId|
            !knows(s, x) ==> #[trigger] state_of(answered(s, probes, responses, target, k), x)
                is None || state_of(answered(s, probes, responses, target, k), x) == Some(
                ProbeState::Unqueried,
            ),
        forall|j: int, i: int|
            0 <= j < probes.len() && 0 <= i < responses(probes[j].0).len() ==> knows(
                answered(s, probes, responses, target, k),
                (#[trigger] responses((#[trigger] probes[j]).0)[i]).0,
            ),
    decreases probes.len(),
{
    let r = answered(s, probes, responses, target, k);
    if probes.len() > 0 {
        let first = probes[0].0;
        let s1 = contacted(s, first);
        let s2 = merged(s1, responses(first), target, k);
        let rest = probes.skip(1);
        lemma_contacted_closed(s, first, net, target, k);
        assert(listed(responses(first), net));
        lemma_merged_closed(s1, responses(first), net, target, k);
        assert forall|x: NodeId| knows(s, x) implies knows(s2, x) by {
            assert(knows(s1, x));
            assert(state_of(s2, x) == state_of(s1, x));
        }
        assert forall|j: int| 0 <= j < rest.len() implies knows(s2, (#[trigger] rest[j]).0) by {
            assert(rest[j] == probes[j + 1]);
        }
        lemma_answered_closed(s2, rest, responses, net, target, k);
        assert(r == answered(s2, rest, responses, target, k));
        assert forall|x: NodeId| knows(s, x) implies #[trigger] state_of(r, x) == (if among(
            probes,
            x,
        ) {
            Some(ProbeState::Contacted)
        } else {
            state_of(s, x)
        }) by {
            assert(knows(s1, x));
            assert(knows(s2, x));
            assert(state_of(s2, x) == state_of(s1, x));
            assert(knows(s, first));
            if among(rest, x) {
                let j = choose|j: int| 0 <= j < rest.len() && (#[trigger] rest[j]).0 == x;
                assert(probes[j + 1] == rest[j]);
                assert(among(probes, x));
            } else if x == first {
                assert(among(probes, x));
                assert(state_of(s1, x) == Some(ProbeState::Contacted));
            } else {
                if among(probes, x) {
                    let j = choose|j: int| 0 <= j < probes.len() && (#[trigger] probes[j]).0 == x;
                    assert(j > 0);
                    assert(rest[j - 1] == probes[j]);
                    assert(false);
                }
            }
        }
        assert forall|x: NodeId| !knows(s, x) implies #[trigger] state_of(r, x) is None || state_of(
            r,
            x,
        ) == Some(ProbeState::Unqueried) by {
            assert(!knows(s1, x));
            if knows(s2, x) {
                if among(rest, x) {
                    let j = choose|j: int| 0 <= j < rest.len() && (#[trigger] rest[j]).0 == x;
                    assert(probes[j + 1] == rest[j]);
                    assert(knows(s, probes[j + 1].0));
                    assert(false);
                }
            }
        }
        assert forall|j: int, i: int|
            0 <= j < probes.len() && 0 <= i < responses(probes[j].0).len() implies knows(
            r,
            (#[trigger] responses((#[trigger] probes[j]).0)[i]).0,
        ) by {
            if j == 0 {
                let y = responses(first)[i];
                assert(knows(s2, y.0));
                if among(rest, y.0) {
                    assert(state_of(r, y.0) == Some(ProbeState::Contacted));
                } else {
                    assert(state_of(r, y.0) == state_of(s2, y.0));
                }
            } else {
                assert(rest[j - 1] == probes[j]);
            }
        }
    }
}


/// What one round does in a network of no more nodes than the lookup
/// keeps: the candidates it picks are contacted, the others are as they
/// were, no probe is left on its way, and the nodes that the picked ones
/// answered with are candidates, the new ones unqueried.
pub proof fn lemma_after_round(
    s: Seq<Candidate>,
    alpha: nat,
    responses: spec_fn(NodeId) -> Seq<(NodeId, SocketAddress)>,
    net: Seq<(NodeId, SocketAddress)>,
    target: NodeId,
    k: nat,
)
    requires
        closed(s, net, target, k),
        no_pending(s),
        forall|id: NodeId| listed(#[trigger] responses(id), net),
    ensures
        closed(after_round(s, alpha, responses, target, k), net, target, k),
        no_pending(after_round(s, alpha, responses, target, k)),
        forall|x: NodeId|
            knows(s, x) ==> #[trigger] state_of(after_round(s, alpha, responses, target, k), x) == (
            if probed(s, alpha, x) {
                Some(ProbeState::Contacted)
            } else {
                state_of(s, x)
            }),
        forall|x: NodeId|
            !knows(s, x) ==> #[trigger] state_of(after_round(s, alpha, responses, target, k), x)
                is None || state_of(after_round(s, alpha, responses, target, k), x) == Some(
                ProbeState::Unqueried,
            ),
        forall|x: NodeId, i: int|
            probed(s, alpha, x) && 0 <= i < responses(x).len() ==> knows(
                after_round(s, alpha, responses, target, k),
                (#[trigger] responses(x)[i]).0,
            ),
        (forall|x: NodeId| !probed(s, alpha, x)) ==> after_round(s, alpha, responses, target, k)
            == after_pick(s, alpha),
{
    let s1 = after_pick(s, alpha);
    let p = picks(s, alpha);
    let r = after_round(s, alpha, responses, target, k);
    lemma_after_pick_closed(s, alpha, net, target, k);
    lemma_picks_are_probed(s, alpha, target);
    assert forall|j: int| 0 <= j < p.len() implies knows(s1, (#[trigger] p[j]).0) by {
        assert(probed(s, alpha, p[j].0));
        assert(knows(s1, p[j].0) == knows(s, p[j].0));
    }
    lemma_answered_closed(s1, p, responses, net, target, k);
    assert forall|x: NodeId| knows(s, x) implies #[trigger] state_of(r, x) == (if probed(
        s,
        alpha,
        x,
    ) {
        Some(ProbeState::Contacted)
    } else {
        state_of(s, x)
    }) by {
        assert(knows(s1, x) == knows(s, x));
        if among(p, x) {
            let j = choose|j: int| 0 <= j < p.len() && (#[trigger] p[j]).0 == x;
            assert(probed(s, alpha, p[j].0));
        }
    }
    assert forall|x: NodeId| !knows(s, x) implies #[trigger] state_of(r, x) is None || state_of(
        r,
        x,
    ) == Some(ProbeState::Unqueried) by {
        assert(knows(s1, x) == knows(s, x));
    }
    assert forall|i: int| 0 <= i < r.len() implies !((#[trigger] r[i]).state is Pending) by {
        let x = r[i].node_id;
        lemma_state_at(r, target, i);
        if knows(s, x) {
            if !probed(s, alpha, x) {
                let si = index_of(s, x);
                lemma_state_at(s, target, si);
            }
        }
    }
    assert forall|x: NodeId, i: int|
        probed(s, alpha, x) && 0 <= i < responses(x).len() implies knows(
        r,
        (#[trigger] responses(x)[i]).0,
    ) by {
        let j = choose|j: int| 0 <= j < p.len() && (#[trigger] p[j]).0 == x;
        assert(knows(r, responses(p[j].0)[i].0));
    }
    if forall|x: NodeId| !probed(s, alpha, x) {
        if p.len() > 0 {
            assert(probed(s, alpha, p[0].0));
        }
    }
}

/// The number of nodes of `net` that the lookup has not contacted.
pub open spec fn uncontacted(s: Seq<Candidate>, net: Seq<(NodeId, SocketAddress)>) -> nat
    decreases net.len(),
{
    if net.len() == 0 {
        0
    } else {
        uncontacted(s, net.drop_last()) + if state_of(s, net.last().0) == Some(
            ProbeState::Contacted,
        ) {
            0nat
        } else {
            1nat
        }
    }
}

/// Where every node contacted before is contacted after, no more nodes are
/// left to contact; and fewer are if the node at position `j` was contacted
/// in between.
pub proof fn lemma_uncontacted_shrinks(
    s: Seq<Candidate>,
    r: Seq<Candidate>,
    net: Seq<(NodeId, SocketAddress)>,
    j: int,
)
    requires
        forall|x: NodeId|
            state_of(s, x) == Some(ProbeState::Contacted) ==> #[trigger] state_of(r, x) == Some(
                ProbeState::Contacted,
            ),
    ensures
        uncontacted(r, net) <= uncontacted(s, net) <= net.len(),
        0 <= j < net.len() && state_of(s, net[j].0) != Some(ProbeState::Contacted) && state_of(
            r,
            net[j].0,
        ) == Some(ProbeState::Contacted) ==> uncontacted(r, net) < uncontacted(s, net),
    decreases net.len(),
{
    if net.len() > 0 {
        let p = net.drop_last();
        lemma_uncontacted_shrinks(s, r, p, j);
        if 0 <= j < p.len() {
            assert(p[j] == net[j]);
        }
    }
}

/// Where no node of `net` is left to contact, every candidate from it has
/// been contacted.
pub proof fn lemma_uncontacted_none(
    s: Seq<Candidate>,
    net: Seq<(NodeId, SocketAddress)>,
    target: NodeId,
)
    requires
        candidates_sorted(s, target),
        within(s, net),
        uncontacted(s, net) == 0,
    ensures
        all_contacted(s),
    decreases net.len(),
{
    lemma_all_of_net_contacted(s, net);
    assert forall|i: int| 0 <= i < s.len() implies (#[trigger] s[i]).state is Contacted by {
        assert(net.contains(pair_of(s[i])));
        let j = choose|j: int| 0 <= j < net.len() && net[j] == pair_of(s[i]);
        lemma_state_at(s, target, i);
        assert(state_of(s, net[j].0) == Some(ProbeState::Contacted));
    }
}

/// Where no node of `net` is left to contact, each is contacted.
pub proof fn lemma_all_of_net_contacted(s: Seq<Candidate>, net: Seq<(NodeId, SocketAddress)>)
    requires
        uncontacted(s, net) == 0,
    ensures
        forall|j: int|
            0 <= j < net.len() ==> state_of(s, (#[trigger] net[j]).0) == Some(
                ProbeState::Contacted,
            ),
    decreases net.len(),
{
    if net.len() > 0 {
        let p = net.drop_last();
        lemma_all_of_net_contacted(s, p);
        assert forall|j: int| 0 <= j < net.len() implies state_of(s, (#[trigger] net[j]).0)
            == Some(ProbeState::Contacted) by {
            if j < p.len() {
                assert(p[j] == net[j]);
            }
        }
    }
}

/// Candidates of which none is unqueried count no unqueried one.
pub proof fn lemma_none_unqueried(s: Seq<Candidate>)
    requires
        forall|i: int| 0 <= i < s.len() ==> !((#[trigger] s[i]).state is Unqueried),
    ensures
        unqueried_count(s) == 0,
    decreases s.len(),
{
    if s.len() > 0 {
        let p = s.drop_last();
        assert forall|i: int| 0 <= i < p.len() implies !((#[trigger] p[i]).state is Unqueried) by {
            assert(p[i] == s[i]);
        }
        lemma_none_unqueried(p);
    }
}

/// The first unqueried candidate: no unqueried one comes before it, so a
/// round that probes at all picks it.
pub proof fn lemma_first_unqueried(s: Seq<Candidate>) -> (i: int)
    requires
        exists|i: int| 0 <= i < s.len() && (#[trigger] s[i]).state is Unqueried,
    ensures
        0 <= i < s.len(),
        s[i].state is Unqueried,
        unqueried_count(s.take(i)) == 0,
    decreases s.len(),
{
    let p = s.drop_last();
    let last = s.len() - 1;
    if exists|i: int| 0 <= i < p.len() && (#[trigger] p[i]).state is Unqueried {
        let i = lemma_first_unqueried(p);
        assert(p.take(i) =~= s.take(i));
        assert(p[i] == s[i]);
        i
    } else {
        let w = choose|i: int| 0 <= i < s.len() && (#[trigger] s[i]).state is Unqueried;
        if w < last {
            assert(p[w] == s[w]);
            assert(false);
        }
        assert(s.take(last) =~= p);
        lemma_none_unqueried(p);
        last
    }
}

/// A round keeps what is contacted; and unless every candidate is
/// contacted already, it contacts a node that was not.
pub proof fn lemma_round_progress(
    s: Seq<Candidate>,
    alpha: nat,
    responses: spec_fn(NodeId) -> Seq<(NodeId, SocketAddress)>,
    net: Seq<(NodeId, SocketAddress)>,
    target: NodeId,
    k: nat,
)
    requires
        closed(s, net, target, k),
        no_pending(s),
        alpha >= 1,
        forall|id: NodeId| listed(#[trigger] responses(id), net),
    ensures
        closed(after_round(s, alpha, responses, target, k), net, target, k),
        no_pending(after_round(s, alpha, responses, target, k)),
        forall|x: NodeId|
            knows(s, x) ==> knows(after_round(s, alpha, responses, target, k), x),
        all_contacted(s) ==> all_contacted(after_round(s, alpha, responses, target, k)),
        !all_contacted(s) ==> uncontacted(after_round(s, alpha, responses, target, k), net)
            < uncontacted(s, net),
        uncontacted(after_round(s, alpha, responses, target, k), net) <= uncontacted(s, net),
{
    let r = after_round(s, alpha, responses, target, k);
    lemma_after_round(s, alpha, responses, net, target, k);
    assert forall|x: NodeId| knows(s, x) implies knows(r, x) by {
        assert(state_of(r, x) is Some);
    }
    assert forall|x: NodeId|
        state_of(s, x) == Some(ProbeState::Contacted) implies #[trigger] state_of(r, x) == Some(
        ProbeState::Contacted,
    ) by {
        assert(knows(s, x));
    }
    lemma_uncontacted_shrinks(s, r, net, -1);
    if all_contacted(s) {
        assert forall|x: NodeId| !probed(s, alpha, x) by {
            if probed(s, alpha, x) {
                assert(s[index_of(s, x)].state is Contacted);
            }
        }
        lemma_after_pick_closed(s, alpha, net, target, k);
        assert forall|i: int| 0 <= i < r.len() implies (#[trigger] r[i]).state is Contacted by {
            let x = r[i].node_id;
            lemma_state_at(r, target, i);
            assert(knows(s, x));
            let si = index_of(s, x);
            lemma_state_at(s, target, si);
        }
    } else {
        assert(exists|i: int| 0 <= i < s.len() && (#[trigger] s[i]).state is Unqueried) by {
            let w = choose|i: int| 0 <= i < s.len() && !((#[trigger] s[i]).state is Contacted);
            assert(!(s[w].state is Pending));
        }
        let i = lemma_first_unqueried(s);
        let x = s[i].node_id;
        lemma_state_at(s, target, i);
        assert(picked(s, i, alpha));
        assert(probed(s, alpha, x));
        assert(net.contains(pair_of(s[i])));
        let j = choose|j: int| 0 <= j < net.len() && net[j] == pair_of(s[i]);
        assert(state_of(r, net[j].0) == Some(ProbeState::Contacted));
        lemma_uncontacted_shrinks(s, r, net, j);
    }
}

/// What holds after any number of rounds: the candidates are still from
/// the network, none is lost, and either all are contacted or each round
/// has contacted a node more.
pub proof fn lemma_rounds_progress(
    s: Seq<Candidate>,
    n: nat,
    alpha: nat,
    responses: spec_fn(NodeId) -> Seq<(NodeId, SocketAddress)>,
    net: Seq<(NodeId, SocketAddress)>,
    target: NodeId,
    k: nat,
)
    requires
        closed(s, net, target, k),
        no_pending(s),
        alpha >= 1,
        forall|id: NodeId| listed(#[trigger] responses(id), net),
    ensures
        closed(after_rounds(s, n, alpha, responses, target, k), net, target, k),
        no_pending(after_rounds(s, n, alpha, responses, target, k)),
        forall|x: NodeId|
            knows(s, x) ==> knows(after_rounds(s, n, alpha, responses, target, k), x),
        all_contacted(after_rounds(s, n, alpha, responses, target, k)) || uncontacted(
            after_rounds(s, n, alpha, responses, target, k),
            net,
        ) + n <= uncontacted(s, net),
    decreases n,
{
    if n > 0 {
        let m = (n - 1) as nat;
        let before = after_rounds(s, m, alpha, responses, target, k);
        lemma_rounds_progress(s, m, alpha, responses, net, target, k);
        lemma_round_progress(before, alpha, responses, net, target, k);
    }
}

/// In a network of no more nodes than a lookup keeps, whose nodes answer
/// with nodes of the network or not at all, a lookup for nodes is over
/// after as many rounds as the network has nodes: every candidate is
/// contacted, and the candidates are nodes of the network in growing
/// distance from the target.
pub proof fn lookup_ends_in_closed_network(
    s: Seq<Candidate>,
    alpha: nat,
    responses: spec_fn(NodeId) -> Seq<(NodeId, SocketAddress)>,
    net: Seq<(NodeId, SocketAddress)>,
    target: NodeId,
    k: nat,
)
    requires
        closed(s, net, target, k),
        no_pending(s),
        alpha >= 1,
        forall|id: NodeId| listed(#[trigger] responses(id), net),
    ensures
        all_contacted(after_rounds(s, net.len(), alpha, responses, target, k)),
        candidates_sorted(after_rounds(s, net.len(), alpha, responses, target, k), target),
        within(after_rounds(s, net.len(), alpha, responses, target, k), net),
        forall|x: NodeId|
            knows(s, x) ==> knows(after_rounds(s, net.len(), alpha, responses, target, k), x),
{
    let r = after_rounds(s, net.len(), alpha, responses, target, k);
    lemma_rounds_progress(s, net.len(), alpha, responses, net, target, k);
    if !all_contacted(r) {
        assert forall|x: NodeId|
            state_of(s, x) == Some(ProbeState::Contacted) implies #[trigger] state_of(s, x)
            == Some(ProbeState::Contacted) by {}
        lemma_uncontacted_shrinks(s, s, net, -1);
        assert(uncontacted(r, net) == 0);
        lemma_uncontacted_none(r, net, target);
    }
}


/// Whether `node` is a candidate, with its address.
pub open spec fn has_node(s: Seq<Candidate>, node: (NodeId, SocketAddress)) -> bool {
    exists|i: int| 0 <= i < s.len() && pair_of(#[trigger] s[i]) == node
}

/// One round and then `n` more are `n` rounds and then one more.
pub proof fn lemma_rounds_shift(
    s: Seq<Candidate>,
    n: nat,
    alpha: nat,
    responses: spec_fn(NodeId) -> Seq<(NodeId, SocketAddress)>,
    target: NodeId,
    k: nat,
)
    ensures
        after_rounds(s, n + 1, alpha, responses, target, k) == after_rounds(
            after_round(s, alpha, responses, target, k),
            n,
            alpha,
            responses,
            target,
            k,
        ),
    decreases n,
{
    if n > 0 {
        lemma_rounds_shift(s, (n - 1) as nat, alpha, responses, target, k);
    } else {
        assert(after_rounds(s, 0, alpha, responses, target, k) == s);
    }
}

/// The identifiers of the candidates, in order.
pub open spec fn ids_of(s: Seq<Candidate>) -> Seq<NodeId> {
    Seq::new(s.len(), |i: int| s[i].node_id)
}

/// Every node of `net` is a candidate.
pub open spec fn knows_all(s: Seq<Candidate>, net: Seq<(NodeId, SocketAddress)>) -> bool {
    forall|j: int| 0 <= j < net.len() ==> knows(s, (#[trigger] net[j]).0)
}

/// Once every node of the network is a candidate, a round changes no
/// candidate's place: it only marks those it picks as contacted.
pub proof fn lemma_round_in_place(
    s: Seq<Candidate>,
    alpha: nat,
    responses: spec_fn(NodeId) -> Seq<(NodeId, SocketAddress)>,
    net: Seq<(NodeId, SocketAddress)>,
    target: NodeId,
    k: nat,
)
    requires
        closed(s, net, target, k),
        no_pending(s),
        knows_all(s, net),
        forall|id: NodeId| listed(#[trigger] responses(id), net),
    ensures
        closed(after_round(s, alpha, responses, target, k), net, target, k),
        no_pending(after_round(s, alpha, responses, target, k)),
        knows_all(after_round(s, alpha, responses, target, k), net),
        after_round(s, alpha, responses, target, k).len() == s.len(),
        forall|i: int|
            0 <= i < s.len() ==> (#[trigger] after_round(s, alpha, responses, target, k)[i]).state
                == (if picked(s, i, alpha) {
                ProbeState::Contacted
            } else {
                s[i].state
            }),
{
    let r = after_round(s, alpha, responses, target, k);
    lemma_after_round(s, alpha, responses, net, target, k);
    assert forall|j: int| 0 <= j < net.len() implies knows(r, (#[trigger] net[j]).0) by {
        assert(knows(s, net[j].0));
        assert(state_of(r, net[j].0) is Some);
    }
    let a = ids_of(r);
    let b = ids_of(s);
    assert forall|i: int| 0 <= i < a.len() implies b.contains(#[trigger] a[i]) by {
        assert(net.contains(pair_of(r[i])));
        let j = choose|j: int| 0 <= j < net.len() && net[j] == pair_of(r[i]);
        assert(knows(s, net[j].0));
        let x = index_of(s, net[j].0);
        assert(b[x] == a[i]);
    }
    assert forall|j: int| 0 <= j < b.len() implies a.contains(#[trigger] b[j]) by {
        lemma_state_at(s, target, j);
        assert(state_of(r, s[j].node_id) is Some);
        let x = index_of(r, s[j].node_id);
        assert(a[x] == b[j]);
    }
    assert(ids_sorted(a, target)) by {
        assert forall|i: int, j: int| 0 <= i < j < a.len() implies distance_to(
            #[trigger] a[i],
            target,
        ) < distance_to(#[trigger] a[j], target) by {
            assert(distance_to(r[i].node_id, target) < distance_to(r[j].node_id, target));
        }
    }
    assert(ids_sorted(b, target)) by {
        assert forall|i: int, j: int| 0 <= i < j < b.len() implies distance_to(
            #[trigger] b[i],
            target,
        ) < distance_to(#[trigger] b[j], target) by {
            assert(distance_to(s[i].node_id, target) < distance_to(s[j].node_id, target));
        }
    }
    lemma_sorted_ids_unique(a, b, target);
    assert(r.len() == s.len()) by {
        assert(a.len() == b.len());
    }
    assert forall|i: int| 0 <= i < s.len() implies (#[trigger] r[i]).state == (if picked(
        s,
        i,
        alpha,
    ) {
        ProbeState::Contacted
    } else {
        s[i].state
    }) by {
        assert(a[i] == b[i]);
        lemma_state_at(s, target, i);
        lemma_state_at(r, target, i);
    }
}

/// Where a round has marked the candidates it picked and changed nothing
/// else, it has taken as many from the unqueried ones as it probes, or all
/// of them.
pub proof fn lemma_count_after_round(s: Seq<Candidate>, r: Seq<Candidate>, alpha: nat, m: int)
    requires
        r.len() == s.len(),
        0 <= m <= s.len(),
        forall|i: int|
            0 <= i < s.len() ==> (#[trigger] r[i]).state == (if picked(s, i, alpha) {
                ProbeState::Contacted
            } else {
                s[i].state
            }),
    ensures
        unqueried_count(r.take(m)) == (if unqueried_count(s.take(m)) <= alpha {
            0
        } else {
            unqueried_count(s.take(m)) - alpha
        }),
    decreases m,
{
    if m > 0 {
        lemma_count_after_round(s, r, alpha, m - 1);
        assert(r.take(m).drop_last() =~= r.take(m - 1));
        assert(s.take(m).drop_last() =~= s.take(m - 1));
        assert(r.take(m).last() == r[m - 1]);
        assert(s.take(m).last() == s[m - 1]);
    }
}

/// Candidates that count no unqueried one have none.
pub proof fn lemma_count_zero(s: Seq<Candidate>)
    requires
        unqueried_count(s) == 0,
    ensures
        forall|i: int| 0 <= i < s.len() ==> !((#[trigger] s[i]).state is Unqueried),
    decreases s.len(),
{
    if s.len() > 0 {
        let p = s.drop_last();
        lemma_count_zero(p);
        assert forall|i: int| 0 <= i < s.len() implies !((#[trigger] s[i]).state is Unqueried) by {
            if i < p.len() {
                assert(p[i] == s[i]);
            }
        }
    }
}

/// Once every node of the network is a candidate, `n` rounds take `n`
/// times what a round probes from the unqueried candidates, or all of
/// them.
pub proof fn lemma_rounds_count(
    s: Seq<Candidate>,
    n: nat,
    alpha: nat,
    responses: spec_fn(NodeId) -> Seq<(NodeId, SocketAddress)>,
    net: Seq<(NodeId, SocketAddress)>,
    target: NodeId,
    k: nat,
)
    requires
        closed(s, net, target, k),
        no_pending(s),
        knows_all(s, net),
        forall|id: NodeId| listed(#[trigger] responses(id), net),
    ensures
        closed(after_rounds(s, n, alpha, responses, target, k), net, target, k),
        no_pending(after_rounds(s, n, alpha, responses, target, k)),
        knows_all(after_rounds(s, n, alpha, responses, target, k), net),
        unqueried_count(after_rounds(s, n, alpha, responses, target, k)) == (if unqueried_count(s)
            <= n * alpha {
            0
        } else {
            unqueried_count(s) - n * alpha
        }),
    decreases n,
{
    if n > 0 {
        let m = (n - 1) as nat;
        let before = after_rounds(s, m, alpha, responses, target, k);
        let r = after_round(before, alpha, responses, target, k);
        lemma_rounds_count(s, m, alpha, responses, net, target, k);
        lemma_round_in_place(before, alpha, responses, net, target, k);
        lemma_count_after_round(before, r, alpha, before.len() as int);
        assert(before.take(before.len() as int) =~= before);
        assert(r.take(before.len() as int) =~= r);
        assert(n * alpha == m * alpha + alpha) by (nonlinear_arith)
            requires
                n == m + 1,
        ;
    } else {
        assert(n * alpha == 0) by (nonlinear_arith)
            requires
                n == 0,
        ;
    }
}

/// Once every node of a network of no more nodes than a lookup keeps is a
/// candidate, the lookup is over after as many rounds as it takes to probe
/// the unqueried candidates, so many at a time as a round probes.
pub proof fn lookup_ends_at_the_rate_of_a_round(
    s: Seq<Candidate>,
    n: nat,
    alpha: nat,
    responses: spec_fn(NodeId) -> Seq<(NodeId, SocketAddress)>,
    net: Seq<(NodeId, SocketAddress)>,
    target: NodeId,
    k: nat,
)
    requires
        closed(s, net, target, k),
        no_pending(s),
        knows_all(s, net),
        forall|id: NodeId| listed(#[trigger] responses(id), net),
        n * alpha >= unqueried_count(s),
    ensures
        all_contacted(after_rounds(s, n, alpha, responses, target, k)),
        closed(after_rounds(s, n, alpha, responses, target, k), net, target, k),
        knows_all(after_rounds(s, n, alpha, responses, target, k), net),
{
    let r = after_rounds(s, n, alpha, responses, target, k);
    lemma_rounds_count(s, n, alpha, responses, net, target, k);
    lemma_count_zero(r);
    assert forall|i: int| 0 <= i < r.len() implies (#[trigger] r[i]).state is Contacted by {
        assert(!(r[i].state is Pending));
        assert(!(r[i].state is Unqueried));
    }
}

/// Where some candidates, at the places `marks`, are not unqueried, the
/// unqueried ones are at most the others.
pub proof fn lemma_count_marks(s: Seq<Candidate>, marks: Seq<int>)
    requires
        forall|j: int| 0 <= j < marks.len() ==> 0 <= #[trigger] marks[j] < s.len(),
        forall|a: int, b: int| 0 <= a < b < marks.len() ==> #[trigger] marks[a] < #[trigger] marks[b],
        forall|j: int| 0 <= j < marks.len() ==> !(s[#[trigger] marks[j]].state is Unqueried),
    ensures
        unqueried_count(s) + marks.len() <= s.len(),
    decreases s.len(),
{
    if s.len() == 0 {
        if marks.len() > 0 {
            assert(0 <= marks[0] < s.len());
        }
    } else {
        let p = s.drop_last();
        let last = s.len() - 1;
        if marks.len() > 0 && marks[marks.len() - 1] == last {
            let rest = marks.drop_last();
            assert forall|j: int| 0 <= j < rest.len() implies 0 <= #[trigger] rest[j] < p.len() by {
                assert(rest[j] == marks[j]);
                assert(marks[j] < marks[marks.len() - 1]);
            }
            assert forall|j: int| 0 <= j < rest.len() implies !(p[#[trigger] rest[j]].state
                is Unqueried) by {
                assert(rest[j] == marks[j]);
                assert(marks[j] < marks[marks.len() - 1]);
                assert(p[rest[j]] == s[marks[j]]);
            }
            assert forall|a: int, b: int| 0 <= a < b < rest.len() implies #[trigger] rest[a]
                < #[trigger] rest[b] by {
                assert(rest[a] == marks[a] && rest[b] == marks[b]);
            }
            lemma_count_marks(p, rest);
            assert(s.last() == s[marks[marks.len() - 1]]);
        } else {
            assert forall|j: int| 0 <= j < marks.len() implies 0 <= #[trigger] marks[j]
                < p.len() by {
                if j < marks.len() - 1 {
                    assert(marks[j] < marks[marks.len() - 1]);
                }
            }
            assert forall|j: int| 0 <= j < marks.len() implies !(p[#[trigger] marks[j]].state
                is Unqueried) by {
                assert(p[marks[j]] == s[marks[j]]);
            }
            lemma_count_marks(p, marks);
        }
    }
}

/// Candidates that are all unqueried count as many unqueried ones as they
/// are.
pub proof fn lemma_all_unqueried(s: Seq<Candidate>)
    requires
        forall|i: int| 0 <= i < s.len() ==> (#[trigger] s[i]).state is Unqueried,
    ensures
        unqueried_count(s) == s.len(),
    decreases s.len(),
{
    if s.len() > 0 {
        let p = s.drop_last();
        assert forall|i: int| 0 <= i < p.len() implies (#[trigger] p[i]).state is Unqueried by {
            assert(p[i] == s[i]);
        }
        lemma_all_unqueried(p);
    }
}

/// Every node of the network answers with all the others.
pub open spec fn full_mesh(
    responses: spec_fn(NodeId) -> Seq<(NodeId, SocketAddress)>,
    net: Seq<(NodeId, SocketAddress)>,
) -> bool {
    &&& forall|id: NodeId| listed(#[trigger] responses(id), net)
    &&& forall|a: int, b: int|
        0 <= a < net.len() && 0 <= b < net.len() && a != b ==> responses(
            (#[trigger] net[a]).0,
        ).contains(#[trigger] net[b])
}

/// A lookup that has probed nothing yet: every candidate is unqueried.
pub open spec fn fresh(s: Seq<Candidate>) -> bool {
    forall|i: int| 0 <= i < s.len() ==> (#[trigger] s[i]).state is Unqueried
}

/// Where every node answers with all the others, the first round of a
/// lookup that starts from any of them makes every node a candidate.
pub proof fn lemma_first_round_knows_all(
    s: Seq<Candidate>,
    alpha: nat,
    responses: spec_fn(NodeId) -> Seq<(NodeId, SocketAddress)>,
    net: Seq<(NodeId, SocketAddress)>,
    target: NodeId,
    k: nat,
)
    requires
        closed(s, net, target, k),
        fresh(s),
        s.len() > 0,
        alpha >= 1,
        full_mesh(responses, net),
    ensures
        closed(after_round(s, alpha, responses, target, k), net, target, k),
        no_pending(after_round(s, alpha, responses, target, k)),
        knows_all(after_round(s, alpha, responses, target, k), net),
{
    let r1 = after_round(s, alpha, responses, target, k);
    assert(no_pending(s)) by {
        assert forall|i: int| 0 <= i < s.len() implies !((#[trigger] s[i]).state is Pending) by {
            assert(s[i].state is Unqueried);
        }
    }
    lemma_after_round(s, alpha, responses, net, target, k);
    lemma_state_at(s, target, 0);
    let x0 = s[0].node_id;
    assert(s.take(0) =~= Seq::<Candidate>::empty());
    assert(picked(s, 0, alpha));
    assert(probed(s, alpha, x0));
    assert(net.contains(pair_of(s[0])));
    let a0 = choose|a: int| 0 <= a < net.len() && net[a] == pair_of(s[0]);
    assert forall|b: int| 0 <= b < net.len() implies knows(r1, (#[trigger] net[b]).0) by {
        if b == a0 {
            assert(state_of(r1, x0) is Some);
        } else {
            assert(responses(net[a0].0).contains(net[b]));
            let answer = responses(x0);
            let i = choose|i: int| 0 <= i < answer.len() && #[trigger] answer[i] == net[b];
            assert(knows(r1, responses(x0)[i].0));
        }
    }
}

/// The first round of a lookup that starts from as many nodes as a round
/// probes, or more, contacts that many.
pub proof fn lemma_first_round_contacts(
    s: Seq<Candidate>,
    alpha: nat,
    responses: spec_fn(NodeId) -> Seq<(NodeId, SocketAddress)>,
    net: Seq<(NodeId, SocketAddress)>,
    target: NodeId,
    k: nat,
)
    requires
        closed(s, net, target, k),
        fresh(s),
        s.len() >= alpha,
        forall|id: NodeId| listed(#[trigger] responses(id), net),
    ensures
        unqueried_count(after_round(s, alpha, responses, target, k)) + alpha <= after_round(
            s,
            alpha,
            responses,
            target,
            k,
        ).len(),
{
    let r1 = after_round(s, alpha, responses, target, k);
    assert(no_pending(s)) by {
        assert forall|i: int| 0 <= i < s.len() implies !((#[trigger] s[i]).state is Pending) by {
            assert(s[i].state is Unqueried);
        }
    }
    lemma_after_round(s, alpha, responses, net, target, k);
    let marks = Seq::new(alpha, |j: int| index_of(r1, s[j].node_id));
    assert forall|j: int| 0 <= j < marks.len() implies 0 <= #[trigger] marks[j] < r1.len()
        && r1[marks[j]].node_id == s[j].node_id && !(r1[marks[j]].state is Unqueried) by {
        lemma_picked_in_fresh(s, alpha, j);
        lemma_state_at(s, target, j);
        assert(probed(s, alpha, s[j].node_id));
        assert(state_of(r1, s[j].node_id) == Some(ProbeState::Contacted));
    }
    assert forall|a: int, b: int| 0 <= a < b < marks.len() implies #[trigger] marks[a]
        < #[trigger] marks[b] by {
        assert(distance_to(s[a].node_id, target) < distance_to(s[b].node_id, target));
        assert(r1[marks[a]].node_id == s[a].node_id);
        assert(r1[marks[b]].node_id == s[b].node_id);
        if marks[b] < marks[a] {
            assert(distance_to(r1[marks[b]].node_id, target) < distance_to(
                r1[marks[a]].node_id,
                target,
            ));
        }
    }
    lemma_count_marks(r1, marks);
}

/// A round of a lookup that has probed nothing yet picks the first
/// candidates, as many as it probes.
pub proof fn lemma_picked_in_fresh(s: Seq<Candidate>, alpha: nat, j: int)
    requires
        fresh(s),
        0 <= j < s.len(),
        j < alpha,
    ensures
        picked(s, j, alpha),
{
    let p = s.take(j);
    assert forall|i: int| 0 <= i < p.len() implies (#[trigger] p[i]).state is Unqueried by {
        assert(p[i] == s[i]);
    }
    lemma_all_unqueried(p);
}

/// Candidates from a network that has each of its nodes among them are the
/// nodes of the network, each once.
pub proof fn lemma_candidates_are_network(
    r: Seq<Candidate>,
    net: Seq<(NodeId, SocketAddress)>,
    target: NodeId,
    k: nat,
)
    requires
        closed(r, net, target, k),
        knows_all(r, net),
    ensures
        r.len() == net.len(),
        forall|j: int| 0 <= j < net.len() ==> has_node(r, #[trigger] net[j]),
{
    assert forall|j: int| 0 <= j < net.len() implies has_node(r, #[trigger] net[j]) by {
        assert(knows(r, net[j].0));
        let i = index_of(r, net[j].0);
        assert(net.contains(pair_of(r[i])));
        let j2 = choose|j2: int| 0 <= j2 < net.len() && net[j2] == pair_of(r[i]);
        if j2 < j {
            assert(net[j2].0 != net[j].0);
        } else if j < j2 {
            assert(net[j].0 != net[j2].0);
        }
        assert(pair_of(r[i]) == net[j]);
    }
    lemma_closed_size(r, net, target);
    let ids = ids_of(r);
    let net_ids = Seq::new(net.len(), |j: int| net[j].0);
    assert forall|i: int, j: int|
        0 <= i < net_ids.len() && 0 <= j < net_ids.len() && i != j implies net_ids[i]
        != net_ids[j] by {
        if i < j {
            assert(net[i].0 != net[j].0);
        } else {
            assert(net[j].0 != net[i].0);
        }
    }
    assert forall|j: int| 0 <= j < net_ids.len() implies ids.contains(#[trigger] net_ids[j]) by {
        assert(has_node(r, net[j]));
        let i = choose|i: int| 0 <= i < r.len() && pair_of(#[trigger] r[i]) == net[j];
        assert(ids[i] == net_ids[j]);
    }
    lemma_distinct_subset_len(net_ids, ids);
}

/// In a network of no more nodes than a lookup keeps, in which every node
/// answers with all the others, a lookup that starts from any of them, with
/// nothing probed yet, is over after one round more than the network has
/// nodes, and its candidates are then the nodes of the network, each once,
/// in growing distance from the target.
pub proof fn lookup_finds_every_node(
    s: Seq<Candidate>,
    alpha: nat,
    responses: spec_fn(NodeId) -> Seq<(NodeId, SocketAddress)>,
    net: Seq<(NodeId, SocketAddress)>,
    target: NodeId,
    k: nat,
)
    requires
        closed(s, net, target, k),
        fresh(s),
        s.len() > 0,
        alpha >= 1,
        full_mesh(responses, net),
    ensures
        all_contacted(after_rounds(s, net.len() + 1, alpha, responses, target, k)),
        candidates_sorted(after_rounds(s, net.len() + 1, alpha, responses, target, k), target),
        within(after_rounds(s, net.len() + 1, alpha, responses, target, k), net),
        after_rounds(s, net.len() + 1, alpha, responses, target, k).len() == net.len(),
        forall|j: int|
            0 <= j < net.len() ==> has_node(
                after_rounds(s, net.len() + 1, alpha, responses, target, k),
                #[trigger] net[j],
            ),
{
    let r1 = after_round(s, alpha, responses, target, k);
    let r = after_rounds(s, net.len() + 1, alpha, responses, target, k);
    lemma_first_round_knows_all(s, alpha, responses, net, target, k);
    lemma_rounds_shift(s, net.len(), alpha, responses, target, k);
    lookup_ends_in_closed_network(r1, alpha, responses, net, target, k);
    assert(knows_all(r, net)) by {
        assert forall|j: int| 0 <= j < net.len() implies knows(r, (#[trigger] net[j]).0) by {
            assert(knows(r1, net[j].0));
        }
    }
    lemma_candidates_are_network(r, net, target, k);
}

/// In a network of no more nodes than a lookup keeps, in which every node
/// answers with all the others, a lookup that starts from as many of them
/// as a round probes, or more, with nothing probed yet, is over after any
/// number of rounds in which it could have probed every node of the
/// network; and its candidates are then the nodes of the network, each
/// once, in growing distance from the target.
pub proof fn lookup_in_full_mesh(
    s: Seq<Candidate>,
    n: nat,
    alpha: nat,
    responses: spec_fn(NodeId) -> Seq<(NodeId, SocketAddress)>,
    net: Seq<(NodeId, SocketAddress)>,
    target: NodeId,
    k: nat,
)
    requires
        closed(s, net, target, k),
        fresh(s),
        alpha >= 1,
        s.len() >= alpha,
        full_mesh(responses, net),
        n * alpha >= net.len(),
    ensures
        all_contacted(after_rounds(s, n, alpha, responses, target, k)),
        candidates_sorted(after_rounds(s, n, alpha, responses, target, k), target),
        within(after_rounds(s, n, alpha, responses, target, k), net),
        after_rounds(s, n, alpha, responses, target, k).len() == net.len(),
        forall|j: int|
            0 <= j < net.len() ==> has_node(
                after_rounds(s, n, alpha, responses, target, k),
                #[trigger] net[j],
            ),
{
    lemma_closed_size(s, net, target);
    assert(n >= 1) by (nonlinear_arith)
        requires
            n * alpha >= net.len(),
            net.len() >= alpha,
            alpha >= 1,
    ;
    let m = (n - 1) as nat;
    let r1 = after_round(s, alpha, responses, target, k);
    lemma_first_round_knows_all(s, alpha, responses, net, target, k);
    lemma_first_round_contacts(s, alpha, responses, net, target, k);
    lemma_closed_size(r1, net, target);
    assert(m * alpha + alpha == n * alpha) by (nonlinear_arith)
        requires
            n == m + 1,
    ;
    lemma_rounds_shift(s, m, alpha, responses, target, k);
    lookup_ends_at_the_rate_of_a_round(r1, m, alpha, responses, net, target, k);
    lemma_candidates_are_network(
        after_rounds(s, n, alpha, responses, target, k),
        net,
        target,
        k,
    );
}

} // verus!
