//! The iterative lookup: rounds of probes that close in on the contacts
//! nearest to a target, or on a value stored under it.

use crate::routing::{distance_to, lemma_distance_injective, SocketAddress};
use crate::types::{Distance, NodeId};
use vstd::prelude::*;

verus! {

/// How far a lookup has got with a candidate.
#[derive(Clone, Copy, Debug, PartialEq, Eq, Structural)]
pub enum ProbeState {
    /// No probe has been sent to it.
    Unqueried,
    /// A probe of the current round is on its way to it.
    Pending,
    /// It has answered, or failed to.
    Contacted,
}

/// A node that a lookup knows of.
#[derive(Clone, Copy, Debug, PartialEq, Eq)]
pub struct Candidate {
    /// The node's identifier.
    pub node_id: NodeId,
    /// The node's address.
    pub sock_addr: SocketAddress,
    /// How far the lookup has got with it.
    pub state: ProbeState,
}

/// What a lookup has come to.
#[derive(Clone, Debug, PartialEq, Eq)]
pub enum LookupResult {
    /// A node gave the value under the target.
    Found(Vec<u8>),
    /// The closest nodes known, nearest first.
    Closest(Vec<(NodeId, SocketAddress)>),
}

/// Whether a candidate in `s` has the identifier `id`.
pub open spec fn knows(s: Seq<Candidate>, id: NodeId) -> bool {
    exists|i: int| 0 <= i < s.len() && (#[trigger] s[i]).node_id == id
}

/// The candidates in `s` come in strictly growing distance from `target`.
pub open spec fn candidates_sorted(s: Seq<Candidate>, target: NodeId) -> bool {
    forall|i: int, j: int|
        0 <= i < j < s.len() ==> distance_to((#[trigger] s[i]).node_id, target) < distance_to(
            (#[trigger] s[j]).node_id,
            target,
        )
}

/// The number of candidates in `s` that are closer to `target` than `id`.
pub open spec fn closer_count(s: Seq<Candidate>, id: NodeId, target: NodeId) -> nat
    decreases s.len(),
{
    if s.len() == 0 {
        0
    } else {
        closer_count(s.drop_last(), id, target) + if distance_to(s.last().node_id, target)
            < distance_to(id, target) {
            1nat
        } else {
            0nat
        }
    }
}

/// The candidates after the lookup has heard of the node `id` at `addr`: a
/// node it knows changes nothing; a new one takes its place by distance,
/// unqueried, and the farthest candidates beyond the first `k` leave.
pub open spec fn with_candidate(
    s: Seq<Candidate>,
    id: NodeId,
    addr: SocketAddress,
    target: NodeId,
    k: nat,
) -> Seq<Candidate> {
    if knows(s, id) {
        s
    } else {
        let grown = s.insert(
            closer_count(s, id, target) as int,
            Candidate { node_id: id, sock_addr: addr, state: ProbeState::Unqueried },
        );
        if grown.len() > k {
            grown.take(k as int)
        } else {
            grown
        }
    }
}

/// The candidates after the lookup has heard of each of `nodes` in turn.
pub open spec fn merged(
    s: Seq<Candidate>,
    nodes: Seq<(NodeId, SocketAddress)>,
    target: NodeId,
    k: nat,
) -> Seq<Candidate>
    decreases nodes.len(),
{
    if nodes.len() == 0 {
        s
    } else {
        merged(with_candidate(s, nodes[0].0, nodes[0].1, target, k), nodes.skip(1), target, k)
    }
}

/// The candidates with the node `id`, if it is among them, marked as
/// contacted.
pub open spec fn contacted(s: Seq<Candidate>, id: NodeId) -> Seq<Candidate> {
    Seq::new(
        s.len(),
        |i: int|
            if s[i].node_id == id {
                Candidate { state: ProbeState::Contacted, ..s[i] }
            } else {
                s[i]
            },
    )
}

/// The number of unqueried candidates in `s`.
pub open spec fn unqueried_count(s: Seq<Candidate>) -> nat
    decreases s.len(),
{
    if s.len() == 0 {
        0
    } else {
        unqueried_count(s.drop_last()) + if s.last().state is Unqueried {
            1nat
        } else {
            0nat
        }
    }
}

/// Whether a round with `budget` probes picks the candidate at position
/// `i`: it does if the candidate is unqueried and fewer than `budget`
/// unqueried candidates come before it.
pub open spec fn picked(s: Seq<Candidate>, i: int, budget: nat) -> bool {
    s[i].state is Unqueried && unqueried_count(s.take(i)) < budget
}

/// The candidates after a round with `budget` probes has picked its
/// candidates: those are pending.
pub open spec fn after_pick(s: Seq<Candidate>, budget: nat) -> Seq<Candidate> {
    Seq::new(
        s.len(),
        |i: int|
            if picked(s, i, budget) {
                Candidate { state: ProbeState::Pending, ..s[i] }
            } else {
                s[i]
            },
    )
}

/// The nodes that a round with `budget` probes picks, nearest first.
pub open spec fn picks(s: Seq<Candidate>, budget: nat) -> Seq<(NodeId, SocketAddress)>
    decreases s.len(),
{
    if s.len() == 0 {
        Seq::empty()
    } else {
        let before = picks(s.drop_last(), budget);
        if picked(s, s.len() - 1, budget) {
            before.push((s.last().node_id, s.last().sock_addr))
        } else {
            before
        }
    }
}

/// Every candidate in `s` has been contacted.
pub open spec fn all_contacted(s: Seq<Candidate>) -> bool {
    forall|i: int| 0 <= i < s.len() ==> (#[trigger] s[i]).state is Contacted
}

/// The candidates as identifiers with their addresses.
pub open spec fn candidate_pairs(s: Seq<Candidate>) -> Seq<(NodeId, SocketAddress)> {
    Seq::new(s.len(), |i: int| (s[i].node_id, s[i].sock_addr))
}

/// In a sorted list, the candidates closer than `id` are those before the
/// first that is not.
pub proof fn lemma_closer_count_sorted(s: Seq<Candidate>, id: NodeId, target: NodeId, pos: int)
    requires
        0 <= pos <= s.len(),
        forall|j: int|
            0 <= j < pos ==> distance_to((#[trigger] s[j]).node_id, target) < distance_to(
                id,
                target,
            ),
        forall|j: int|
            pos <= j < s.len() ==> distance_to((#[trigger] s[j]).node_id, target) >= distance_to(
                id,
                target,
            ),
    ensures
        closer_count(s, id, target) == pos,
    decreases s.len(),
{
    if s.len() > 0 {
        let p = s.drop_last();
        let last = s.len() - 1;
        assert(s.last() == s[last]);
        if pos == s.len() {
            assert forall|j: int| 0 <= j < pos - 1 implies distance_to(
                (#[trigger] p[j]).node_id,
                target,
            ) < distance_to(id, target) by {
                assert(p[j] == s[j]);
            }
            lemma_closer_count_sorted(p, id, target, pos - 1);
        } else {
            assert forall|j: int| 0 <= j < pos implies distance_to(
                (#[trigger] p[j]).node_id,
                target,
            ) < distance_to(id, target) by {
                assert(p[j] == s[j]);
            }
            assert forall|j: int| pos <= j < p.len() implies distance_to(
                (#[trigger] p[j]).node_id,
                target,
            ) >= distance_to(id, target) by {
                assert(p[j] == s[j]);
            }
            lemma_closer_count_sorted(p, id, target, pos);
        }
    }
}

/// A new node put at its place by distance keeps the candidates sorted.
pub proof fn lemma_insert_sorted(
    s: Seq<Candidate>,
    id: NodeId,
    addr: SocketAddress,
    target: NodeId,
)
    requires
        candidates_sorted(s, target),
        !knows(s, id),
    ensures
        0 <= closer_count(s, id, target) <= s.len(),
        candidates_sorted(
            s.insert(
                closer_count(s, id, target) as int,
                Candidate { node_id: id, sock_addr: addr, state: ProbeState::Unqueried },
            ),
            target,
        ),
{
    let c = Candidate { node_id: id, sock_addr: addr, state: ProbeState::Unqueried };
    let pos = lemma_rank(s, id, target);
    let grown = s.insert(pos, c);
    assert forall|i: int, j: int| 0 <= i < j < grown.len() implies distance_to(
        (#[trigger] grown[i]).node_id,
        target,
    ) < distance_to((#[trigger] grown[j]).node_id, target) by {
        let bi = if i < pos { i } else { i - 1 };
        let bj = if j < pos { j } else { j - 1 };
        if i != pos {
            assert(grown[i] == s[bi]);
        }
        if j != pos {
            assert(grown[j] == s[bj]);
        }
        if i == pos {
            assert(pos <= bj < s.len());
            assert(distance_to(s[bj].node_id, target) >= distance_to(id, target));
            if distance_to(s[bj].node_id, target) == distance_to(id, target) {
                lemma_distance_injective(s[bj].node_id, id, target);
            }
        }
    }
}

/// Hearing of a node keeps the candidates sorted and no more than `k`.
pub proof fn lemma_with_candidate_wf(
    s: Seq<Candidate>,
    id: NodeId,
    addr: SocketAddress,
    target: NodeId,
    k: nat,
)
    requires
        candidates_sorted(s, target),
        s.len() <= k,
    ensures
        candidates_sorted(with_candidate(s, id, addr, target, k), target),
        with_candidate(s, id, addr, target, k).len() <= k,
        with_candidate(s, id, addr, target, k).len() >= s.len(),
{
    if !knows(s, id) {
        let c = Candidate { node_id: id, sock_addr: addr, state: ProbeState::Unqueried };
        lemma_insert_sorted(s, id, addr, target);
        let grown = s.insert(closer_count(s, id, target) as int, c);
        let res = with_candidate(s, id, addr, target, k);
        if grown.len() > k {
            assert forall|i: int, j: int| 0 <= i < j < res.len() implies distance_to(
                (#[trigger] res[i]).node_id,
                target,
            ) < distance_to((#[trigger] res[j]).node_id, target) by {
                assert(res[i] == grown[i]);
                assert(res[j] == grown[j]);
            }
        }
    }
}

/// The place of a new node in a sorted list: all before it are closer, all
/// from it on are not.
pub proof fn lemma_rank(s: Seq<Candidate>, id: NodeId, target: NodeId) -> (pos: int)
    requires
        candidates_sorted(s, target),
    ensures
        0 <= pos <= s.len(),
        pos == closer_count(s, id, target),
        forall|j: int|
            0 <= j < pos ==> distance_to((#[trigger] s[j]).node_id, target) < distance_to(
                id,
                target,
            ),
        forall|j: int|
            pos <= j < s.len() ==> distance_to((#[trigger] s[j]).node_id, target) >= distance_to(
                id,
                target,
            ),
    decreases s.len(),
{
    if s.len() == 0 {
        0
    } else {
        let p = s.drop_last();
        let last = s.len() - 1;
        assert forall|i: int, j: int| 0 <= i < j < p.len() implies distance_to(
            (#[trigger] p[i]).node_id,
            target,
        ) < distance_to((#[trigger] p[j]).node_id, target) by {
            assert(p[i] == s[i]);
            assert(p[j] == s[j]);
        }
        let q = lemma_rank(p, id, target);
        assert forall|j: int| 0 <= j < q implies distance_to((#[trigger] s[j]).node_id, target)
            < distance_to(id, target) by {
            assert(p[j] == s[j]);
        }
        if distance_to(s[last].node_id, target) < distance_to(id, target) {
            assert forall|j: int| 0 <= j < s.len() implies distance_to(
                (#[trigger] s[j]).node_id,
                target,
            ) < distance_to(id, target) by {
                if j < last {
                    assert(distance_to(s[j].node_id, target) < distance_to(
                        s[last].node_id,
                        target,
                    ));
                }
            }
            if q < last {
                assert(p[q] == s[q]);
                assert(false);
            }
            lemma_closer_count_sorted(s, id, target, s.len() as int);
            s.len() as int
        } else {
            assert forall|j: int| q <= j < s.len() implies distance_to(
                (#[trigger] s[j]).node_id,
                target,
            ) >= distance_to(id, target) by {
                if j < last {
                    assert(p[j] == s[j]);
                }
            }
            lemma_closer_count_sorted(s, id, target, q);
            q
        }
    }
}

/// One lookup in progress: the target, the candidates known so far in
/// growing distance from it, and the value if one was found.
pub struct Lookup {
    target: NodeId,
    k: usize,
    alpha: usize,
    want_value: bool,
    candidates: Vec<Candidate>,
    found: Option<Vec<u8>>,
}

impl Lookup {
    /// The identifier that the lookup closes in on.
    pub closed spec fn target(&self) -> NodeId {
        self.target
    }

    /// The number of candidates that the lookup keeps.
    pub closed spec fn k(&self) -> nat {
        self.k as nat
    }

    /// The number of probes that a round sends.
    pub closed spec fn alpha(&self) -> nat {
        self.alpha as nat
    }

    /// Whether the lookup is after the value under the target.
    pub closed spec fn want_value(&self) -> bool {
        self.want_value
    }

    /// The candidates, nearest first.
    pub closed spec fn candidates(&self) -> Seq<Candidate> {
        self.candidates@
    }

    /// The value found, if any.
    pub closed spec fn found(&self) -> Option<Seq<u8>> {
        match self.found {
            Some(v) => Some(v@),
            None => None,
        }
    }

    /// The candidates are in strictly growing distance from the target, and
    /// no more than `k`; only a lookup after a value has found one.
    pub open spec fn wf(&self) -> bool {
        &&& candidates_sorted(self.candidates(), self.target())
        &&& self.candidates().len() <= self.k()
        &&& self.found() is Some ==> self.want_value()
    }

    /// The lookup is over: a value was found, or every candidate has been
    /// contacted.
    pub open spec fn finished(&self) -> bool {
        self.found() is Some || all_contacted(self.candidates())
    }

    /// A lookup for `target` that starts from the nodes `seeds`, keeps the
    /// `k` closest candidates and probes `alpha` of them in a round.
    pub fn new(
        target: NodeId,
        seeds: &Vec<(NodeId, SocketAddress)>,
        k: usize,
        alpha: usize,
        want_value: bool,
    ) -> (l: Lookup)
        ensures
            l.wf(),
            l.target() == target,
            l.k() == k,
            l.alpha() == alpha,
            l.want_value() == want_value,
            l.found() is None,
            l.candidates() == merged(Seq::empty(), seeds@, target, k as nat),
    {
        let mut l = Lookup {
            target,
            k,
            alpha,
            want_value,
            candidates: Vec::new(),
            found: None,
        };
        l.merge(seeds);
        l
    }

    fn position(&self, id: &NodeId) -> (r: Option<usize>)
        ensures
            match r {
                Some(i) => i < self.candidates@.len() && self.candidates@[i as int].node_id == *id,
                None => !knows(self.candidates@, *id),
            },
    {
        let n = self.candidates.len();
        let mut i: usize = 0;
        while i < n
            invariant
                i <= n,
                n == self.candidates@.len(),
                forall|j: int| 0 <= j < i ==> (#[trigger] self.candidates@[j]).node_id != *id,
            decreases n - i,
        {
            if self.candidates[i].node_id.same(id) {
                return Some(i);
            }
            i += 1;
        }
        None
    }

    fn learn(&mut self, id: NodeId, addr: SocketAddress)
        requires
            old(self).wf(),
        ensures
            final(self).wf(),
            final(self).candidates() == with_candidate(
                old(self).candidates(),
                id,
                addr,
                old(self).target(),
                old(self).k(),
            ),
            final(self).target() == old(self).target(),
            final(self).k() == old(self).k(),
            final(self).alpha() == old(self).alpha(),
            final(self).want_value() == old(self).want_value(),
            final(self).found() == old(self).found(),
    {
        proof {
            lemma_with_candidate_wf(self.candidates@, id, addr, self.target, self.k as nat);
        }
        if self.position(&id).is_some() {
            return;
        }
        let d = Distance::between(&id, &self.target);
        let n = self.candidates.len();
        let mut pos: usize = 0;
        while pos < n
            invariant
                pos <= n,
                n == self.candidates@.len(),
                self.candidates@ == old(self).candidates@,
                self.target == old(self).target,
                d.value() == distance_to(id, self.target),
                candidates_sorted(self.candidates@, self.target),
                !knows(self.candidates@, id),
                forall|j: int|
                    0 <= j < pos ==> distance_to(
                        (#[trigger] self.candidates@[j]).node_id,
                        self.target,
                    ) < d.value(),
            ensures
                pos <= n,
                forall|j: int|
                    0 <= j < pos ==> distance_to(
                        (#[trigger] self.candidates@[j]).node_id,
                        self.target,
                    ) < d.value(),
                forall|j: int|
                    pos <= j < n ==> distance_to(
                        (#[trigger] self.candidates@[j]).node_id,
                        self.target,
                    ) >= d.value(),
            decreases n - pos,
        {
            let e = Distance::between(&self.candidates[pos].node_id, &self.target);
            if d.is_less(&e) {
                proof {
                    assert forall|j: int| pos <= j < n implies distance_to(
                        (#[trigger] self.candidates@[j]).node_id,
                        self.target,
                    ) >= d.value() by {
                        if pos < j {
                            assert(distance_to(self.candidates@[pos as int].node_id, self.target)
                                < distance_to(self.candidates@[j].node_id, self.target));
                        }
                    }
                }
                break;
            }
            proof {
                if e.value() == d.value() {
                    lemma_distance_injective(
                        self.candidates@[pos as int].node_id,
                        id,
                        self.target,
                    );
                    assert(false);
                }
            }
            pos += 1;
        }
        proof {
            lemma_closer_count_sorted(self.candidates@, id, self.target, pos as int);
        }
        self.candidates.insert(
            pos,
            Candidate { node_id: id, sock_addr: addr, state: ProbeState::Unqueried },
        );
        if self.candidates.len() > self.k {
            self.candidates.truncate(self.k);
        }
    }

    fn merge(&mut self, nodes: &Vec<(NodeId, SocketAddress)>)
        requires
            old(self).wf(),
        ensures
            final(self).wf(),
            final(self).candidates() == merged(
                old(self).candidates(),
                nodes@,
                old(self).target(),
                old(self).k(),
            ),
            final(self).target() == old(self).target(),
            final(self).k() == old(self).k(),
            final(self).alpha() == old(self).alpha(),
            final(self).want_value() == old(self).want_value(),
            final(self).found() == old(self).found(),
    {
        let mut i: usize = 0;
        assert(nodes@.skip(0) =~= nodes@);
        while i < nodes.len()
            invariant
                i <= nodes@.len(),
                self.wf(),
                self.target() == old(self).target(),
                self.k() == old(self).k(),
                self.alpha() == old(self).alpha(),
                self.want_value() == old(self).want_value(),
                self.found() == old(self).found(),
                merged(self.candidates(), nodes@.skip(i as int), self.target(), self.k())
                    == merged(old(self).candidates(), nodes@, old(self).target(), old(self).k()),
            decreases nodes@.len() - i,
        {
            let (id, addr) = nodes[i];
            proof {
                let rest = nodes@.skip(i as int);
                assert(rest[0] == nodes@[i as int]);
                assert(rest.skip(1) =~= nodes@.skip(i + 1));
            }
            self.learn(id, addr);
            i += 1;
        }
    }

    fn mark_contacted(&mut self, id: &NodeId)
        requires
            old(self).wf(),
        ensures
            final(self).wf(),
            final(self).candidates() == contacted(old(self).candidates(), *id),
            final(self).target() == old(self).target(),
            final(self).k() == old(self).k(),
            final(self).alpha() == old(self).alpha(),
            final(self).want_value() == old(self).want_value(),
            final(self).found() == old(self).found(),
    {
        match self.position(id) {
            Some(i) => {
                let c = self.candidates[i];
                self.candidates[i] = Candidate { state: ProbeState::Contacted, ..c };
                proof {
                    let before = old(self).candidates@;
                    let after = self.candidates@;
                    assert forall|j: int| 0 <= j < before.len() && j != i implies (
                    #[trigger] before[j]).node_id != *id by {
                        if j < i {
                            assert(distance_to(before[j].node_id, self.target) < distance_to(
                                before[i as int].node_id,
                                self.target,
                            ));
                        } else {
                            assert(distance_to(before[i as int].node_id, self.target)
                                < distance_to(before[j].node_id, self.target));
                        }
                    }
                    assert(after =~= contacted(before, *id));
                    assert forall|a: int, b: int| 0 <= a < b < after.len() implies distance_to(
                        (#[trigger] after[a]).node_id,
                        self.target,
                    ) < distance_to((#[trigger] after[b]).node_id, self.target) by {
                        assert(after[a].node_id == before[a].node_id);
                        assert(after[b].node_id == before[b].node_id);
                    }
                }
            },
            None => {
                assert(self.candidates@ =~= contacted(self.candidates@, *id));
            },
        }
    }

    /// Starts a round: picks the nearest unqueried candidates, as many as a
    /// round probes, marks them pending and hands them back to be probed. A
    /// lookup that has found its value picks none.
    pub fn next_probes(&mut self) -> (probes: Vec<(NodeId, SocketAddress)>)
        requires
            old(self).wf(),
        ensures
            final(self).wf(),
            final(self).target() == old(self).target(),
            final(self).k() == old(self).k(),
            final(self).alpha() == old(self).alpha(),
            final(self).want_value() == old(self).want_value(),
            final(self).found() == old(self).found(),
            old(self).found() is Some ==> probes@.len() == 0 && final(self).candidates() == old(
                self,
            ).candidates(),
            old(self).found() is None ==> probes@ == picks(
                old(self).candidates(),
                old(self).alpha(),
            ) && final(self).candidates() == after_pick(old(self).candidates(), old(self).alpha()),
            probes@.len() <= old(self).alpha(),
            old(self).found() is None ==> probes@.len() == (if unqueried_count(
                old(self).candidates(),
            ) < old(self).alpha() {
                unqueried_count(old(self).candidates())
            } else {
                old(self).alpha()
            }),
    {
        let mut probes: Vec<(NodeId, SocketAddress)> = Vec::new();
        if self.found.is_some() {
            return probes;
        }
        let ghost before = self.candidates@;
        let ghost budget = self.alpha as nat;
        let n = self.candidates.len();
        let mut i: usize = 0;
        assert(before.take(0) =~= Seq::empty());
        while i < n
            invariant
                i <= n,
                n == before.len(),
                self.candidates@.len() == n,
                probes@.len() <= i,
                probes@.len() <= self.alpha,
                budget == self.alpha,
                self.target == old(self).target,
                self.k == old(self).k,
                self.alpha == old(self).alpha,
                self.want_value == old(self).want_value,
                self.found == old(self).found,
                probes@.len() == if unqueried_count(before.take(i as int)) < budget {
                    unqueried_count(before.take(i as int))
                } else {
                    budget
                },
                probes@ == picks(before.take(i as int), budget),
                forall|j: int| 0 <= j < i ==> self.candidates@[j] == after_pick(before, budget)[j],
                forall|j: int| i <= j < n ==> self.candidates@[j] == before[j],
            decreases n - i,
        {
            let c = self.candidates[i];
            proof {
                let t1 = before.take(i + 1);
                assert(t1.drop_last() =~= before.take(i as int));
                assert(t1.last() == before[i as int]);
                assert(t1.take(i as int) =~= before.take(i as int));
                lemma_picks_prefix(before.take(i as int), before, budget);
                lemma_picks_prefix(t1, before, budget);
                assert(picked(t1, i as int, budget) == picked(before, i as int, budget));
            }
            if probes.len() < self.alpha && c.state == ProbeState::Unqueried {
                self.candidates[i] = Candidate { state: ProbeState::Pending, ..c };
                probes.push((c.node_id, c.sock_addr));
            }
            i += 1;
        }
        proof {
            assert(before.take(n as int) =~= before);
            let after = self.candidates@;
            assert(after =~= after_pick(before, budget));
            assert forall|a: int, b: int| 0 <= a < b < after.len() implies distance_to(
                (#[trigger] after[a]).node_id,
                self.target,
            ) < distance_to((#[trigger] after[b]).node_id, self.target) by {
                assert(after[a].node_id == before[a].node_id);
                assert(after[b].node_id == before[b].node_id);
            }
        }
        probes
    }

    /// Records that the node `from` answered a probe with the contacts
    /// `nodes`: it is contacted, and the lookup has heard of each of them.
    pub fn record_nodes(&mut self, from: &NodeId, nodes: &Vec<(NodeId, SocketAddress)>)
        requires
            old(self).wf(),
        ensures
            final(self).wf(),
            final(self).target() == old(self).target(),
            final(self).k() == old(self).k(),
            final(self).alpha() == old(self).alpha(),
            final(self).want_value() == old(self).want_value(),
            final(self).found() == old(self).found(),
            final(self).candidates() == merged(
                contacted(old(self).candidates(), *from),
                nodes@,
                old(self).target(),
                old(self).k(),
            ),
    {
        self.mark_contacted(from);
        self.merge(nodes);
    }

    /// Records that the node `from` answered a probe with the value under
    /// the target: it is contacted, and a lookup that is after the value and
    /// has none yet has found it.
    pub fn record_value(&mut self, from: &NodeId, value: Vec<u8>)
        requires
            old(self).wf(),
        ensures
            final(self).wf(),
            final(self).target() == old(self).target(),
            final(self).k() == old(self).k(),
            final(self).alpha() == old(self).alpha(),
            final(self).want_value() == old(self).want_value(),
            final(self).candidates() == contacted(old(self).candidates(), *from),
            final(self).found() == if old(self).want_value() && old(self).found() is None {
                Some(value@)
            } else {
                old(self).found()
            },
    {
        self.mark_contacted(from);
        if self.want_value && self.found.is_none() {
            self.found = Some(value);
        }
    }

    /// Records that the node `from` did not answer a probe, or not as it
    /// should: it is contacted, and nothing else changes.
    pub fn record_failure(&mut self, from: &NodeId)
        requires
            old(self).wf(),
        ensures
            final(self).wf(),
            final(self).target() == old(self).target(),
            final(self).k() == old(self).k(),
            final(self).alpha() == old(self).alpha(),
            final(self).want_value() == old(self).want_value(),
            final(self).found() == old(self).found(),
            final(self).candidates() == contacted(old(self).candidates(), *from),
    {
        self.mark_contacted(from);
    }

    /// The candidates, nearest first.
    pub fn candidate_list(&self) -> (r: Vec<Candidate>)
        ensures
            r@ == self.candidates(),
    {
        let mut out: Vec<Candidate> = Vec::new();
        let n = self.candidates.len();
        let mut i: usize = 0;
        while i < n
            invariant
                i <= n,
                n == self.candidates@.len(),
                out@ == self.candidates@.take(i as int),
            decreases n - i,
        {
            out.push(self.candidates[i]);
            assert(out@ =~= self.candidates@.take(i + 1));
            i += 1;
        }
        assert(self.candidates@.take(n as int) =~= self.candidates@);
        out
    }

    /// Whether the lookup is over.
    pub fn is_finished(&self) -> (r: bool)
        ensures
            r == self.finished(),
    {
        if self.found.is_some() {
            return true;
        }
        let n = self.candidates.len();
        let mut i: usize = 0;
        while i < n
            invariant
                i <= n,
                n == self.candidates@.len(),
                self.found is None,
                forall|j: int| 0 <= j < i ==> (#[trigger] self.candidates@[j]).state is Contacted,
            decreases n - i,
        {
            if self.candidates[i].state != ProbeState::Contacted {
                assert(!(self.candidates@[i as int].state is Contacted));
                return false;
            }
            i += 1;
        }
        true
    }

    /// What the lookup has come to so far: the value, if one was found, or
    /// else the candidates, nearest first.
    pub fn result(&self) -> (r: LookupResult)
        ensures
            match r {
                LookupResult::Found(v) => self.found() == Some(v@),
                LookupResult::Closest(nodes) => self.found() is None && nodes@ == candidate_pairs(
                    self.candidates(),
                ),
            },
    {
        match &self.found {
            Some(v) => {
                let mut copy: Vec<u8> = Vec::new();
                crate::storage::append_bytes(&mut copy, v.as_slice());
                assert(copy@ =~= v@);
                LookupResult::Found(copy)
            },
            None => {
                let mut nodes: Vec<(NodeId, SocketAddress)> = Vec::new();
                let n = self.candidates.len();
                let mut i: usize = 0;
                while i < n
                    invariant
                        i <= n,
                        n == self.candidates@.len(),
                        nodes@ == candidate_pairs(self.candidates@.take(i as int)),
                    decreases n - i,
                {
                    let c = self.candidates[i];
                    nodes.push((c.node_id, c.sock_addr));
                    assert(nodes@ =~= candidate_pairs(self.candidates@.take(i + 1)));
                    i += 1;
                }
                assert(self.candidates@.take(n as int) =~= self.candidates@);
                LookupResult::Closest(nodes)
            },
        }
    }
}

/// What a round picks among the first candidates does not depend on those
/// that follow.
pub proof fn lemma_picks_prefix(prefix: Seq<Candidate>, s: Seq<Candidate>, budget: nat)
    requires
        prefix.len() <= s.len(),
        prefix =~= s.take(prefix.len() as int),
    ensures
        forall|i: int|
            0 <= i < prefix.len() ==> #[trigger] picked(prefix, i, budget) == picked(s, i, budget),
{
    assert forall|i: int| 0 <= i < prefix.len() implies #[trigger] picked(prefix, i, budget)
        == picked(s, i, budget) by {
        assert(prefix.take(i) =~= s.take(i));
        assert(prefix[i] == s[i]);
    }
}

} // verus!
