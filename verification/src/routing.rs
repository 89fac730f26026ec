//! The routing table: one bucket of contacts for each length of the prefix
//! that a contact's identifier shares with the local one.

use crate::types::{
    be_value, leading_zero_bits, lemma_be_value_injective, lemma_xor_cancels, xor_bytes, Distance,
    NodeId,
};
use std::collections::VecDeque;
use vstd::prelude::*;
use vstd::seq_lib::seq_to_set_is_finite;
use vstd::set_lib::lemma_len_subset;

verus! {

/// The address at which a node receives datagrams.
#[derive(Clone, Copy, Debug, PartialEq, Eq, Hash, Structural)]
pub enum SocketAddress {
    /// An IPv4 address, as the number its four bytes denote, and a port.
    V4(u32, u16),
    /// An IPv6 address, as the number its sixteen bytes denote, and a port.
    V6(u128, u16),
}

/// What is known of another node: its identifier, its address, and when it
/// was last heard from.
#[derive(Clone, Copy, Debug, PartialEq, Eq)]
pub struct NodeInfo {
    /// The node's identifier.
    pub node_id: NodeId,
    /// The address the node was last heard from.
    pub sock_addr: SocketAddress,
    /// The time at which the node was last heard from.
    pub last_seen: u64,
}

/// Whether some contact in `s` has the identifier `id`.
pub open spec fn has_id(s: Seq<NodeInfo>, id: NodeId) -> bool {
    exists|i: int| 0 <= i < s.len() && (#[trigger] s[i]).node_id == id
}

/// A position in `s` of a contact with the identifier `id`.
pub open spec fn index_of_id(s: Seq<NodeInfo>, id: NodeId) -> int {
    choose|i: int| 0 <= i < s.len() && (#[trigger] s[i]).node_id == id
}

/// No two contacts in `s` have the same identifier.
pub open spec fn distinct_ids(s: Seq<NodeInfo>) -> bool {
    forall|i: int, j: int|
        0 <= i < j < s.len() ==> (#[trigger] s[i]).node_id != (#[trigger] s[j]).node_id
}

/// A bucket after it has heard of `node`, short of evicting anyone: a contact
/// known already moves to the most recently seen end, a new one is appended
/// while there is room, and a full bucket stays as it is.
pub open spec fn bucket_after_update(s: Seq<NodeInfo>, node: NodeInfo, k: nat) -> Seq<NodeInfo> {
    if has_id(s, node.node_id) {
        s.remove(index_of_id(s, node.node_id)).push(node)
    } else if s.len() < k {
        s.push(node)
    } else {
        s
    }
}

/// A bucket after it has heard of `node` and its least recently seen contact
/// is known not to answer: as `bucket_after_update`, but a full bucket drops
/// its least recently seen contact to make room.
pub open spec fn bucket_after_eviction(s: Seq<NodeInfo>, node: NodeInfo, k: nat) -> Seq<NodeInfo> {
    if has_id(s, node.node_id) || s.len() < k || s.len() == 0 {
        bucket_after_update(s, node, k)
    } else {
        s.remove(0).push(node)
    }
}

/// What became of a contact that a bucket or a table heard of.
#[derive(Clone, Copy, Debug, PartialEq, Eq)]
pub enum UpdateOutcome {
    /// Nothing was recorded: the contact is the local node itself, or the
    /// buckets hold nothing at all.
    Ignored,
    /// The contact was new and is now the most recently seen.
    Inserted,
    /// The contact was known and is now the most recently seen.
    Refreshed,
    /// The bucket is full and unchanged. The contact given is its least
    /// recently seen one: it is to be probed, and evicted in favour of the new
    /// contact only if it does not answer.
    Full(NodeInfo),
}

/// Up to `capacity` contacts, ordered from least to most recently seen.
pub struct KBucket {
    nodes: VecDeque<NodeInfo>,
    capacity: usize,
}

impl View for KBucket {
    type V = Seq<NodeInfo>;

    closed spec fn view(&self) -> Seq<NodeInfo> {
        self.nodes@
    }
}

impl KBucket {
    /// The number of contacts that the bucket can hold.
    pub closed spec fn capacity(&self) -> nat {
        self.capacity as nat
    }

    /// The bucket holds no more than its capacity, and no identifier twice.
    pub open spec fn wf(&self) -> bool {
        &&& self@.len() <= self.capacity()
        &&& distinct_ids(self@)
    }

    /// An empty bucket for up to `K` contacts.
    pub fn new() -> (b: KBucket)
        ensures
            b@.len() == 0,
            b.capacity() == crate::K,
            b.wf(),
    {
        KBucket { nodes: VecDeque::with_capacity(crate::K), capacity: crate::K }
    }

    /// An empty bucket for up to `capacity` contacts.
    pub fn with_capacity(capacity: usize) -> (b: KBucket)
        ensures
            b@.len() == 0,
            b.capacity() == capacity,
            b.wf(),
    {
        KBucket { nodes: VecDeque::new(), capacity }
    }

    /// The number of contacts in the bucket.
    pub fn len(&self) -> (n: usize)
        ensures
            n == self@.len(),
    {
        self.nodes.len()
    }

    /// The contact at position `i`, counted from the least recently seen.
    pub fn get(&self, i: usize) -> (c: NodeInfo)
        requires
            i < self@.len(),
        ensures
            c == self@[i as int],
    {
        self.nodes[i]
    }

    /// The position of the contact with identifier `id`, if there is one.
    pub fn position(&self, id: &NodeId) -> (r: Option<usize>)
        ensures
            match r {
                Some(i) => i < self@.len() && self@[i as int].node_id == *id,
                None => !has_id(self@, *id),
            },
    {
        let n = self.nodes.len();
        let mut i: usize = 0;
        while i < n
            invariant
                i <= n,
                n == self.nodes@.len(),
                forall|j: int| 0 <= j < i ==> self.nodes@[j].node_id != *id,
            decreases n - i,
        {
            if self.nodes[i].node_id.same(id) {
                return Some(i);
            }
            i += 1;
        }
        None
    }

    /// Records that `node` was heard from. A known contact, or a new one for
    /// which there is room, becomes the most recently seen. A full bucket is
    /// left as it is, and its least recently seen contact is handed back to be
    /// probed.
    pub fn update(&mut self, node: NodeInfo) -> (outcome: UpdateOutcome)
        requires
            old(self).wf(),
        ensures
            final(self).wf(),
            final(self).capacity() == old(self).capacity(),
            final(self)@ == bucket_after_update(old(self)@, node, old(self).capacity()),
            outcome is Refreshed <==> has_id(old(self)@, node.node_id),
            outcome is Inserted <==> !has_id(old(self)@, node.node_id) && old(self)@.len() < old(
                self,
            ).capacity(),
            outcome is Ignored <==> old(self).capacity() == 0,
            outcome matches UpdateOutcome::Full(oldest) ==> oldest == old(self)@[0],
    {
        match self.position(&node.node_id) {
            Some(pos) => {
                proof {
                    lemma_index_of_id_unique(self@, node.node_id, pos as int);
                    lemma_refresh_keeps_distinct(self@, node, pos as int);
                }
                self.nodes.remove(pos);
                self.nodes.push_back(node);
                UpdateOutcome::Refreshed
            },
            None => {
                if self.nodes.len() < self.capacity {
                    proof {
                        lemma_push_keeps_distinct(self@, node);
                    }
                    self.nodes.push_back(node);
                    UpdateOutcome::Inserted
                } else if self.nodes.len() == 0 {
                    UpdateOutcome::Ignored
                } else {
                    UpdateOutcome::Full(self.nodes[0])
                }
            },
        }
    }

    /// Records that `node` was heard from after the least recently seen
    /// contact failed to answer a probe: as `update`, but where the bucket is
    /// full its least recently seen contact is dropped to make room.
    pub fn update_evicting(&mut self, node: NodeInfo)
        requires
            old(self).wf(),
        ensures
            final(self).wf(),
            final(self).capacity() == old(self).capacity(),
            final(self)@ == bucket_after_eviction(old(self)@, node, old(self).capacity()),
    {
        let outcome = self.update(node);
        match outcome {
            UpdateOutcome::Full(_) => {
                proof {
                    lemma_evict_keeps_distinct(self@, node);
                }
                self.nodes.pop_front();
                self.nodes.push_back(node);
                assert(self.nodes@ =~= old(self)@.remove(0).push(node));
            },
            _ => {},
        }
    }
}

/// Where no identifier occurs twice, the position of an identifier is the
/// only one that holds it.
pub proof fn lemma_index_of_id_unique(s: Seq<NodeInfo>, id: NodeId, pos: int)
    requires
        distinct_ids(s),
        0 <= pos < s.len(),
        s[pos].node_id == id,
    ensures
        has_id(s, id),
        index_of_id(s, id) == pos,
{
    let i = index_of_id(s, id);
    if i < pos {
        assert(s[i].node_id != s[pos].node_id);
    } else if pos < i {
        assert(s[pos].node_id != s[i].node_id);
    }
}

/// Moving a contact to the end keeps the identifiers distinct.
pub proof fn lemma_refresh_keeps_distinct(s: Seq<NodeInfo>, node: NodeInfo, pos: int)
    requires
        distinct_ids(s),
        0 <= pos < s.len(),
        s[pos].node_id == node.node_id,
    ensures
        distinct_ids(s.remove(pos).push(node)),
        s.remove(pos).push(node).len() == s.len(),
{
    let r = s.remove(pos);
    let t = r.push(node);
    assert forall|i: int, j: int| 0 <= i < j < t.len() implies (#[trigger] t[i]).node_id != (
    #[trigger] t[j]).node_id by {
        let si = if i < pos { i } else { i + 1 };
        assert(t[i] == s[si]);
        if j < r.len() {
            let sj = if j < pos { j } else { j + 1 };
            assert(t[j] == s[sj]);
            assert(s[si].node_id != s[sj].node_id);
        } else {
            if si < pos {
                assert(s[si].node_id != s[pos].node_id);
            } else {
                assert(s[pos].node_id != s[si].node_id);
            }
        }
    }
}

/// Appending a contact whose identifier is new keeps the identifiers distinct.
pub proof fn lemma_push_keeps_distinct(s: Seq<NodeInfo>, node: NodeInfo)
    requires
        distinct_ids(s),
        !has_id(s, node.node_id),
    ensures
        distinct_ids(s.push(node)),
{
    let t = s.push(node);
    assert forall|i: int, j: int| 0 <= i < j < t.len() implies (#[trigger] t[i]).node_id != (
    #[trigger] t[j]).node_id by {
        if j < s.len() {
            assert(s[i].node_id != s[j].node_id);
        } else {
            assert(s[i].node_id != node.node_id);
        }
    }
}

/// Replacing the first contact by a new one at the end keeps the identifiers
/// distinct.
pub proof fn lemma_evict_keeps_distinct(s: Seq<NodeInfo>, node: NodeInfo)
    requires
        distinct_ids(s),
        s.len() > 0,
        !has_id(s, node.node_id),
    ensures
        distinct_ids(s.remove(0).push(node)),
        s.remove(0).push(node).len() == s.len(),
{
    let t = s.remove(0).push(node);
    assert forall|i: int, j: int| 0 <= i < j < t.len() implies (#[trigger] t[i]).node_id != (
    #[trigger] t[j]).node_id by {
        assert(t[i] == s[i + 1]);
        if j < s.len() - 1 {
            assert(t[j] == s[j + 1]);
            assert(s[i + 1].node_id != s[j + 1].node_id);
        } else {
            assert(s[i + 1].node_id != node.node_id);
        }
    }
}


/// The bucket in which a table with the identifier `local` keeps the contact
/// `id`: the number of leading bits the two share, at most 159.
pub open spec fn bucket_index_of(local: NodeId, id: NodeId) -> int {
    let zeros = leading_zero_bits(xor_bytes(local@, id@));
    if zeros >= 160 {
        159
    } else {
        zeros as int
    }
}

/// An identifier that belongs in the bucket number `bucket` of the table
/// of `local`: one to look up when that bucket is to be refreshed. Its bits
/// past the first that differs are those of `filler`.
pub fn refresh_target(local: &NodeId, bucket: usize, filler: &NodeId) -> (target: NodeId)
    requires
        bucket < 160,
    ensures
        bucket_index_of(*local, target) == bucket,
        target != *local,
{
    let target = local.diverging_at(bucket, filler);
    proof {
        if target == *local {
            crate::types::leading_zeros_of_zero_distance(*local);
        }
    }
    target
}

/// The distance from `id` to `target`, as a number.
pub open spec fn distance_to(id: NodeId, target: NodeId) -> nat {
    be_value(xor_bytes(id@, target@))
}

/// What the table with identifier `local` asks of its bucket number `i`: no
/// more than `k` contacts, no identifier twice, and only contacts that
/// belong there.
pub open spec fn bucket_ok(b: Seq<NodeInfo>, i: int, local: NodeId, k: nat) -> bool {
    &&& b.len() <= k
    &&& distinct_ids(b)
    &&& forall|j: int|
        0 <= j < b.len() ==> (#[trigger] b[j]).node_id != local && bucket_index_of(
            local,
            b[j].node_id,
        ) == i
}

/// The buckets after the table has heard of `node`, short of evicting anyone.
pub open spec fn table_after_update(
    buckets: Seq<Seq<NodeInfo>>,
    local: NodeId,
    node: NodeInfo,
    k: nat,
) -> Seq<Seq<NodeInfo>> {
    if node.node_id == local {
        buckets
    } else {
        let i = bucket_index_of(local, node.node_id);
        buckets.update(i, bucket_after_update(buckets[i], node, k))
    }
}

/// The buckets after the table has heard of `node` and evicts the least
/// recently seen contact of a full bucket.
pub open spec fn table_after_eviction(
    buckets: Seq<Seq<NodeInfo>>,
    local: NodeId,
    node: NodeInfo,
    k: nat,
) -> Seq<Seq<NodeInfo>> {
    if node.node_id == local {
        buckets
    } else {
        let i = bucket_index_of(local, node.node_id);
        buckets.update(i, bucket_after_eviction(buckets[i], node, k))
    }
}

/// The contacts a node knows, in 160 buckets by shared prefix length.
pub struct RoutingTable {
    node_id: NodeId,
    buckets: Vec<KBucket>,
    bucket_size: usize,
}

impl RoutingTable {
    /// The identifier of the node that owns the table.
    pub closed spec fn local_id(&self) -> NodeId {
        self.node_id
    }

    /// The number of contacts that each bucket can hold.
    pub closed spec fn bucket_size(&self) -> nat {
        self.bucket_size as nat
    }

    /// The buckets' contents, each from least to most recently seen.
    pub closed spec fn buckets(&self) -> Seq<Seq<NodeInfo>> {
        Seq::new(self.buckets@.len(), |i: int| self.buckets@[i]@)
    }

    /// Whether `sel` is the selection of the `count` contacts closest to
    /// `target`: contacts of the table in strictly growing distance, no more
    /// than `count`, and none of the table's contacts left out unless the
    /// selection is full of closer ones.
    pub open spec fn is_closest(&self, sel: Seq<NodeInfo>, target: NodeId, count: nat) -> bool {
        &&& sorted_by_distance(sel, target)
        &&& sel.len() <= count
        &&& forall|j: int| 0 <= j < sel.len() ==> self.contains(#[trigger] sel[j])
        &&& forall|c: NodeInfo| self.contains(c) ==> accounts_for(sel, c, target, count)
    }

    /// Whether the table holds the contact `c`.
    pub open spec fn contains(&self, c: NodeInfo) -> bool {
        exists|i: int, j: int|
            0 <= i < self.buckets().len() && 0 <= j < self.buckets()[i].len()
                && #[trigger] self.buckets()[i][j] == c
    }

    /// The table has 160 buckets, each as `bucket_ok` asks.
    pub closed spec fn wf(&self) -> bool {
        &&& self.buckets@.len() == 160
        &&& forall|i: int|
            0 <= i < 160 ==> (#[trigger] self.buckets@[i]).capacity() == self.bucket_size
        &&& forall|i: int|
            0 <= i < 160 ==> bucket_ok(
                #[trigger] self.buckets()[i],
                i,
                self.node_id,
                self.bucket_size as nat,
            )
    }

    /// What a well-formed table is, in terms of its buckets.
    pub proof fn lemma_wf(&self)
        requires
            self.wf(),
        ensures
            self.buckets().len() == 160,
            forall|i: int|
                0 <= i < 160 ==> bucket_ok(
                    #[trigger] self.buckets()[i],
                    i,
                    self.local_id(),
                    self.bucket_size(),
                ),
    {
    }

    /// An empty table for the node `node_id`, with buckets of `K` contacts.
    pub fn new(node_id: NodeId) -> (t: RoutingTable)
        ensures
            t.wf(),
            t.local_id() == node_id,
            t.bucket_size() == crate::K,
            forall|i: int| 0 <= i < 160 ==> (#[trigger] t.buckets()[i]).len() == 0,
    {
        RoutingTable::with_bucket_size(node_id, crate::K)
    }

    /// An empty table for the node `node_id`, with buckets of `bucket_size`
    /// contacts.
    pub fn with_bucket_size(node_id: NodeId, bucket_size: usize) -> (t: RoutingTable)
        ensures
            t.wf(),
            t.local_id() == node_id,
            t.bucket_size() == bucket_size,
            forall|i: int| 0 <= i < 160 ==> (#[trigger] t.buckets()[i]).len() == 0,
    {
        let mut buckets: Vec<KBucket> = Vec::new();
        let mut i: usize = 0;
        while i < 160
            invariant
                i <= 160,
                buckets@.len() == i,
                forall|j: int|
                    0 <= j < i ==> (#[trigger] buckets@[j])@.len() == 0 && buckets@[j].capacity()
                        == bucket_size,
            decreases 160 - i,
        {
            buckets.push(KBucket::with_capacity(bucket_size));
            i += 1;
        }
        RoutingTable { node_id, buckets, bucket_size }
    }

    /// The number of the bucket in which `node` belongs.
    pub fn bucket_index(&self, node: &NodeId) -> (i: usize)
        ensures
            i == bucket_index_of(self.local_id(), *node),
            i < 160,
    {
        let zeros = Distance::between(&self.node_id, node).leading_zeros();
        if zeros >= 160 {
            159
        } else {
            zeros as usize
        }
    }

    /// Records that `node` was heard from, in the bucket where it belongs.
    /// The local node itself is never recorded. Where the bucket is full, the
    /// table stays as it is and the bucket's least recently seen contact is
    /// handed back to be probed.
    pub fn update(&mut self, node: NodeInfo) -> (outcome: UpdateOutcome)
        requires
            old(self).wf(),
        ensures
            final(self).wf(),
            final(self).local_id() == old(self).local_id(),
            final(self).bucket_size() == old(self).bucket_size(),
            final(self).buckets() == table_after_update(
                old(self).buckets(),
                old(self).local_id(),
                node,
                old(self).bucket_size(),
            ),
            outcome == update_outcome(
                old(self).buckets(),
                old(self).local_id(),
                node,
                old(self).bucket_size(),
            ),
    {
        if node.node_id.same(&self.node_id) {
            return UpdateOutcome::Ignored;
        }
        let idx = self.bucket_index(&node.node_id);
        let outcome = self.buckets[idx].update(node);
        proof {
            assert(final(self).buckets() =~= table_after_update(
                old(self).buckets(),
                old(self).local_id(),
                node,
                old(self).bucket_size(),
            ));
        }
        outcome
    }
}

/// The contacts as identifiers with their addresses.
pub open spec fn contact_pairs(s: Seq<NodeInfo>) -> Seq<(NodeId, SocketAddress)> {
    Seq::new(s.len(), |i: int| (s[i].node_id, s[i].sock_addr))
}

/// The identifiers and addresses of the given contacts.
pub fn to_pairs(contacts: &Vec<NodeInfo>) -> (pairs: Vec<(NodeId, SocketAddress)>)
    ensures
        pairs@ == contact_pairs(contacts@),
{
    let mut pairs: Vec<(NodeId, SocketAddress)> = Vec::new();
    let mut i: usize = 0;
    while i < contacts.len()
        invariant
            i <= contacts@.len(),
            pairs@ == contact_pairs(contacts@.take(i as int)),
        decreases contacts@.len() - i,
    {
        let c = contacts[i];
        pairs.push((c.node_id, c.sock_addr));
        assert(pairs@ =~= contact_pairs(contacts@.take(i + 1)));
        i += 1;
    }
    assert(contacts@.take(contacts@.len() as int) =~= contacts@);
    pairs
}

/// What `update` answers.
pub open spec fn update_outcome(
    buckets: Seq<Seq<NodeInfo>>,
    local: NodeId,
    node: NodeInfo,
    k: nat,
) -> UpdateOutcome {
    let b = buckets[bucket_index_of(local, node.node_id)];
    if node.node_id == local || k == 0 {
        UpdateOutcome::Ignored
    } else if has_id(b, node.node_id) {
        UpdateOutcome::Refreshed
    } else if b.len() < k {
        UpdateOutcome::Inserted
    } else {
        UpdateOutcome::Full(b[0])
    }
}


/// The contacts in `s` come in strictly growing distance from `target`.
pub open spec fn sorted_by_distance(s: Seq<NodeInfo>, target: NodeId) -> bool {
    forall|i: int, j: int|
        0 <= i < j < s.len() ==> distance_to((#[trigger] s[i]).node_id, target) < distance_to(
            (#[trigger] s[j]).node_id,
            target,
        )
}

/// The selection `r` of at most `count` contacts does not wrong the contact
/// `c`: either `c` is in it, or it is full and all in it are closer to
/// `target` than `c`.
pub open spec fn accounts_for(r: Seq<NodeInfo>, c: NodeInfo, target: NodeId, count: nat) -> bool {
    r.contains(c) || (r.len() == count && forall|j: int|
        0 <= j < r.len() ==> distance_to((#[trigger] r[j]).node_id, target) < distance_to(
            c.node_id,
            target,
        ))
}

/// Different identifiers are at different distances from a target.
pub proof fn lemma_distance_injective(a: NodeId, b: NodeId, target: NodeId)
    requires
        distance_to(a, target) == distance_to(b, target),
    ensures
        a == b,
{
    a.lemma_len();
    b.lemma_len();
    target.lemma_len();
    lemma_be_value_injective(xor_bytes(a@, target@), xor_bytes(b@, target@));
    lemma_xor_cancels(a@, b@, target@);
    a.lemma_ext(b);
}

/// Puts `c` into a selection of the at most `count` contacts closest to
/// `target`, kept in growing distance; the farthest leaves if there are then
/// too many.
pub fn insert_closest(out: &mut Vec<NodeInfo>, c: NodeInfo, target: &NodeId, count: usize)
    requires
        sorted_by_distance(old(out)@, *target),
        old(out)@.len() <= count,
        !has_id(old(out)@, c.node_id),
    ensures
        sorted_by_distance(final(out)@, *target),
        final(out)@.len() <= count,
        final(out)@.len() >= old(out)@.len(),
        forall|e: NodeInfo| #[trigger] final(out)@.contains(e) ==> old(out)@.contains(e) || e == c,
        accounts_for(final(out)@, c, *target, count as nat),
        forall|x: NodeInfo|
            accounts_for(old(out)@, x, *target, count as nat) ==> #[trigger] accounts_for(
                final(out)@,
                x,
                *target,
                count as nat,
            ),
{
    let dc = Distance::between(&c.node_id, target);
    let n = out.len();
    let mut pos: usize = 0;
    while pos < n
        invariant
            pos <= n,
            n == out@.len(),
            out@ == old(out)@,
            dc.value() == distance_to(c.node_id, *target),
            forall|j: int|
                0 <= j < pos ==> distance_to((#[trigger] out@[j]).node_id, *target) < dc.value(),
            !has_id(out@, c.node_id),
        ensures
            pos <= n,
            forall|j: int|
                0 <= j < pos ==> distance_to((#[trigger] out@[j]).node_id, *target) < dc.value(),
            pos < n ==> dc.value() < distance_to(out@[pos as int].node_id, *target),
        decreases n - pos,
    {
        let de = Distance::between(&out[pos].node_id, target);
        if dc.is_less(&de) {
            break;
        }
        proof {
            if de.value() == dc.value() {
                lemma_distance_injective(out@[pos as int].node_id, c.node_id, *target);
                assert(false);
            }
        }
        pos += 1;
    }
    let ghost before = out@;
    if pos == n && n >= count {
        return;
    }
    out.insert(pos, c);
    let ghost mid = out@;
    proof {
        assert(mid[pos as int] == c);
        assert forall|i: int, j: int| 0 <= i < j < mid.len() implies distance_to(
            (#[trigger] mid[i]).node_id,
            *target,
        ) < distance_to((#[trigger] mid[j]).node_id, *target) by {
            let bi = if i < pos { i } else { i - 1 };
            let bj = if j < pos { j } else { j - 1 };
            if i != pos {
                assert(mid[i] == before[bi]);
            }
            if j != pos {
                assert(mid[j] == before[bj]);
            }
            if i != pos && j != pos {
                assert(bi < bj);
            } else if i == pos {
                assert(pos as int <= bj);
                if (pos as int) < bj {
                    assert(distance_to(before[pos as int].node_id, *target) < distance_to(
                        before[bj].node_id,
                        *target,
                    ));
                }
            }
        }
        assert forall|e: NodeInfo| before.contains(e) implies mid.contains(e) by {
            let i = choose|i: int| 0 <= i < before.len() && before[i] == e;
            let mi = if i < pos { i } else { i + 1 };
            assert(mid[mi] == e);
        }
        assert forall|e: NodeInfo| mid.contains(e) implies before.contains(e) || e == c by {
            let i = choose|i: int| 0 <= i < mid.len() && mid[i] == e;
            if i != pos {
                let bi = if i < pos { i } else { i - 1 };
                assert(before[bi] == e);
            }
        }
    }
    if out.len() > count {
        out.pop();
        proof {
            let fin = out@;
            assert(fin =~= mid.drop_last());
            assert(fin.len() == count);
            assert forall|e: NodeInfo| fin.contains(e) implies mid.contains(e) by {
                let i = choose|i: int| 0 <= i < fin.len() && fin[i] == e;
                assert(mid[i] == e);
            }
            assert forall|x: NodeInfo| mid.contains(x) implies accounts_for(
                fin,
                x,
                *target,
                count as nat,
            ) by {
                let i = choose|i: int| 0 <= i < mid.len() && mid[i] == x;
                if i < fin.len() {
                    assert(fin[i] == x);
                } else {
                    assert forall|j: int| 0 <= j < fin.len() implies distance_to(
                        (#[trigger] fin[j]).node_id,
                        *target,
                    ) < distance_to(x.node_id, *target) by {
                        assert(fin[j] == mid[j]);
                    }
                }
            }
            assert forall|x: NodeInfo|
                accounts_for(before, x, *target, count as nat) implies #[trigger] accounts_for(
                fin,
                x,
                *target,
                count as nat,
            ) by {
                if !before.contains(x) {
                    assert(pos < n);
                    assert forall|j: int| 0 <= j < fin.len() implies distance_to(
                        (#[trigger] fin[j]).node_id,
                        *target,
                    ) < distance_to(x.node_id, *target) by {
                        assert(fin[j] == mid[j]);
                        if j == pos {
                            assert(distance_to(before[pos as int].node_id, *target) < distance_to(
                                x.node_id,
                                *target,
                            ));
                        } else {
                            let bj = if j < pos { j } else { j - 1 };
                            assert(mid[j] == before[bj]);
                        }
                    }
                }
            }
            assert(mid.contains(c));
        }
    } else {
        proof {
            assert(mid.contains(c));
            assert forall|x: NodeInfo|
                accounts_for(before, x, *target, count as nat) implies #[trigger] accounts_for(
                mid,
                x,
                *target,
                count as nat,
            ) by {
                if !before.contains(x) {
                    assert(before.len() == count);
                    assert(false);
                }
            }
        }
    }
}


impl RoutingTable {
    /// Records that `node` was heard from after the least recently seen
    /// contact of its bucket failed to answer a probe: as `update`, but a full
    /// bucket drops that contact to make room.
    pub fn update_evicting(&mut self, node: NodeInfo)
        requires
            old(self).wf(),
        ensures
            final(self).wf(),
            final(self).local_id() == old(self).local_id(),
            final(self).bucket_size() == old(self).bucket_size(),
            final(self).buckets() == table_after_eviction(
                old(self).buckets(),
                old(self).local_id(),
                node,
                old(self).bucket_size(),
            ),
    {
        if node.node_id.same(&self.node_id) {
            return;
        }
        let idx = self.bucket_index(&node.node_id);
        assert(bucket_ok(
            self.buckets()[idx as int],
            idx as int,
            self.node_id,
            self.bucket_size as nat,
        ));
        self.buckets[idx].update_evicting(node);
        proof {
            assert(final(self).buckets() =~= table_after_eviction(
                old(self).buckets(),
                old(self).local_id(),
                node,
                old(self).bucket_size(),
            ));
        }
    }

    /// The contacts closest to `target`, nearest first, `count` of them or
    /// all that the table holds if those are fewer.
    pub fn closest_nodes(&self, target: &NodeId, count: usize) -> (r: Vec<NodeInfo>)
        requires
            self.wf(),
        ensures
            self.is_closest(r@, *target, count as nat),
            r@ == self.closest(*target, count as nat),
    {
        let mut out: Vec<NodeInfo> = Vec::new();
        let mut i: usize = 0;
        while i < 160
            invariant
                i <= 160,
                self.wf(),
                sorted_by_distance(out@, *target),
                out@.len() <= count,
                forall|e: NodeInfo| #[trigger]
                    out@.contains(e) ==> exists|a: int, b: int|
                        0 <= a < i && 0 <= b < self.buckets()[a].len()
                            && #[trigger] self.buckets()[a][b] == e,
                forall|a: int, b: int|
                    0 <= a < i && 0 <= b < self.buckets()[a].len() ==> accounts_for(
                        out@,
                        #[trigger] self.buckets()[a][b],
                        *target,
                        count as nat,
                    ),
            decreases 160 - i,
        {
            let n = self.buckets[i].len();
            let mut j: usize = 0;
            while j < n
                invariant
                    i < 160,
                    j <= n,
                    n == self.buckets()[i as int].len(),
                    self.wf(),
                    sorted_by_distance(out@, *target),
                    out@.len() <= count,
                    forall|e: NodeInfo| #[trigger]
                        out@.contains(e) ==> exists|a: int, b: int|
                            0 <= a <= i && 0 <= b < self.buckets()[a].len() && (a == i ==> b < j)
                                && #[trigger] self.buckets()[a][b] == e,
                    forall|a: int, b: int|
                        0 <= a <= i && 0 <= b < self.buckets()[a].len() && (a == i ==> b < j)
                            ==> accounts_for(
                            out@,
                            #[trigger] self.buckets()[a][b],
                            *target,
                            count as nat,
                        ),
                decreases n - j,
            {
                let c = self.buckets[i].get(j);
                proof {
                    assert(c == self.buckets()[i as int][j as int]);
                    if has_id(out@, c.node_id) {
                        let p = choose|p: int| 0 <= p < out@.len() && out@[p].node_id == c.node_id;
                        let e = out@[p];
                        assert(out@.contains(e));
                        let (a, b) = choose|a: int, b: int|
                            0 <= a <= i && 0 <= b < self.buckets()[a].len() && (a == i ==> b < j)
                                && #[trigger] self.buckets()[a][b] == e;
                        let ba = self.buckets()[a];
                        let bi = self.buckets()[i as int];
                        assert(bucket_ok(ba, a, self.node_id, self.bucket_size as nat));
                        assert(bucket_ok(bi, i as int, self.node_id, self.bucket_size as nat));
                        assert(ba[b].node_id == bi[j as int].node_id);
                        assert(false);
                    }
                }
                let ghost before = out@;
                insert_closest(&mut out, c, target, count);
                proof {
                    assert forall|a: int, b: int|
                        0 <= a <= i && 0 <= b < self.buckets()[a].len() && (a == i ==> b < j + 1)
                        implies accounts_for(
                        out@,
                        #[trigger] self.buckets()[a][b],
                        *target,
                        count as nat,
                    ) by {
                        if a == i && b == j {
                        } else {
                            assert(accounts_for(before, self.buckets()[a][b], *target, count as nat));
                        }
                    }
                }
                j += 1;
            }
            i += 1;
        }
        proof {
            assert forall|j: int| 0 <= j < out@.len() implies self.contains(#[trigger] out@[j]) by {
                assert(out@.contains(out@[j]));
            }
            assert(self.is_closest(out@, *target, count as nat));
            self.lemma_closest_unique(
                out@,
                self.closest(*target, count as nat),
                *target,
                count as nat,
            );
        }
        out
    }

    /// The contacts of the bucket number `i`, from least to most recently
    /// seen.
    pub fn bucket_contacts(&self, i: usize) -> (r: Vec<NodeInfo>)
        requires
            self.wf(),
            i < 160,
        ensures
            r@ == self.buckets()[i as int],
    {
        let mut out: Vec<NodeInfo> = Vec::new();
        let n = self.buckets[i].len();
        let mut j: usize = 0;
        while j < n
            invariant
                i < 160,
                self.wf(),
                j <= n,
                n == self.buckets()[i as int].len(),
                out@ == self.buckets()[i as int].take(j as int),
            decreases n - j,
        {
            out.push(self.buckets[i].get(j));
            assert(out@ =~= self.buckets()[i as int].take(j + 1));
            j += 1;
        }
        assert(self.buckets()[i as int].take(n as int) =~= self.buckets()[i as int]);
        out
    }

    /// The contact with the identifier `id`, if the table holds one.
    pub fn find(&self, id: &NodeId) -> (r: Option<NodeInfo>)
        requires
            self.wf(),
        ensures
            match r {
                Some(c) => self.contains(c) && c.node_id == *id,
                None => forall|c: NodeInfo| self.contains(c) ==> c.node_id != *id,
            },
    {
        if id.same(&self.node_id) {
            proof {
                assert forall|c: NodeInfo| self.contains(c) implies c.node_id != *id by {
                    let (i, j) = choose|i: int, j: int|
                        0 <= i < self.buckets().len() && 0 <= j < self.buckets()[i].len()
                            && #[trigger] self.buckets()[i][j] == c;
                    assert(bucket_ok(self.buckets()[i], i, self.node_id, self.bucket_size as nat));
                }
            }
            return None;
        }
        let idx = self.bucket_index(id);
        match self.buckets[idx].position(id) {
            Some(pos) => {
                let c = self.buckets[idx].get(pos);
                assert(self.buckets()[idx as int][pos as int] == c);
                Some(c)
            },
            None => {
                proof {
                    assert forall|c: NodeInfo| self.contains(c) implies c.node_id != *id by {
                        let (i, j) = choose|i: int, j: int|
                            0 <= i < self.buckets().len() && 0 <= j < self.buckets()[i].len()
                                && #[trigger] self.buckets()[i][j] == c;
                        assert(bucket_ok(
                            self.buckets()[i],
                            i,
                            self.node_id,
                            self.bucket_size as nat,
                        ));
                        if c.node_id == *id {
                            assert(i == idx);
                            assert(self.buckets()[i][j].node_id == *id);
                            assert(self.buckets@[idx as int]@[j].node_id == *id);
                            assert(false);
                        }
                    }
                }
                None
            },
        }
    }
}

/// Hearing of a contact never puts its identifier into a bucket twice; the
/// contact, once placed, is the most recently seen; and hearing of it a
/// second time changes nothing more.
pub proof fn update_places_once(s: Seq<NodeInfo>, node: NodeInfo, k: nat)
    requires
        distinct_ids(s),
        s.len() <= k,
    ensures
        distinct_ids(bucket_after_update(s, node, k)),
        bucket_after_update(s, node, k).len() <= k,
        has_id(s, node.node_id) || s.len() < k ==> bucket_after_update(s, node, k).last() == node,
        bucket_after_update(bucket_after_update(s, node, k), node, k) == bucket_after_update(
            s,
            node,
            k,
        ),
{
    let once = bucket_after_update(s, node, k);
    if has_id(s, node.node_id) {
        let p = index_of_id(s, node.node_id);
        lemma_refresh_keeps_distinct(s, node, p);
    } else if s.len() < k {
        lemma_push_keeps_distinct(s, node);
    }
    if has_id(s, node.node_id) || s.len() < k {
        let last = once.len() - 1;
        assert(once[last] == node);
        lemma_index_of_id_unique(once, node.node_id, last);
        assert(once.remove(last).push(node) =~= once);
    } else {
        assert(!has_id(once, node.node_id));
    }
}

/// As `update_places_once`, where a full bucket evicts its least recently
/// seen contact: the new contact is then always placed.
pub proof fn eviction_places_once(s: Seq<NodeInfo>, node: NodeInfo, k: nat)
    requires
        distinct_ids(s),
        s.len() <= k,
        k > 0,
    ensures
        distinct_ids(bucket_after_eviction(s, node, k)),
        bucket_after_eviction(s, node, k).len() <= k,
        bucket_after_eviction(s, node, k).last() == node,
        bucket_after_eviction(bucket_after_eviction(s, node, k), node, k) == bucket_after_eviction(
            s,
            node,
            k,
        ),
{
    let once = bucket_after_eviction(s, node, k);
    if has_id(s, node.node_id) || s.len() < k {
        update_places_once(s, node, k);
    } else {
        lemma_evict_keeps_distinct(s, node);
    }
    let last = once.len() - 1;
    assert(once[last] == node);
    lemma_index_of_id_unique(once, node.node_id, last);
    assert(once.remove(last).push(node) =~= once);
}


/// Identifiers that are all different and all among those of `b` are no
/// more than those of `b`.
pub proof fn lemma_distinct_subset_len(a: Seq<NodeId>, b: Seq<NodeId>)
    requires
        a.no_duplicates(),
        forall|i: int| 0 <= i < a.len() ==> b.contains(#[trigger] a[i]),
    ensures
        a.len() <= b.len(),
{
    a.unique_seq_to_set();
    b.lemma_cardinality_of_set();
    seq_to_set_is_finite(b);
    assert forall|x: NodeId| a.to_set().contains(x) implies b.to_set().contains(x) by {
        let i = choose|i: int| 0 <= i < a.len() && a[i] == x;
        assert(b.contains(a[i]));
    }
    lemma_len_subset(a.to_set(), b.to_set());
}

/// The identifiers come in strictly growing distance from `target`.
pub open spec fn ids_sorted(ids: Seq<NodeId>, target: NodeId) -> bool {
    forall|i: int, j: int|
        0 <= i < j < ids.len() ==> distance_to(#[trigger] ids[i], target) < distance_to(
            #[trigger] ids[j],
            target,
        )
}

/// Two lists of the same identifiers, each in strictly growing distance
/// from `target`, are the same list.
pub proof fn lemma_sorted_ids_unique(a: Seq<NodeId>, b: Seq<NodeId>, target: NodeId)
    requires
        ids_sorted(a, target),
        ids_sorted(b, target),
        forall|i: int| 0 <= i < a.len() ==> b.contains(#[trigger] a[i]),
        forall|j: int| 0 <= j < b.len() ==> a.contains(#[trigger] b[j]),
    ensures
        a == b,
    decreases a.len(),
{
    if a.len() == 0 {
        if b.len() > 0 {
            assert(a.contains(b[0]));
        }
        assert(a =~= b);
    } else {
        assert(b.contains(a[0]));
        let la = a.len() - 1;
        let lb = b.len() - 1;
        assert(b.contains(a[la]));
        let j = choose|j: int| 0 <= j < b.len() && b[j] == a[la];
        assert(a.contains(b[lb]));
        let i = choose|i: int| 0 <= i < a.len() && a[i] == b[lb];
        if j < lb {
            assert(distance_to(b[j], target) < distance_to(b[lb], target));
        }
        if i < la {
            assert(distance_to(a[i], target) < distance_to(a[la], target));
        }
        assert(a[la] == b[lb]);
        let pa = a.drop_last();
        let pb = b.drop_last();
        assert forall|x: int| 0 <= x < pa.len() implies pb.contains(#[trigger] pa[x]) by {
            assert(pa[x] == a[x]);
            assert(b.contains(a[x]));
            let y = choose|y: int| 0 <= y < b.len() && b[y] == a[x];
            assert(distance_to(a[x], target) < distance_to(a[la], target));
            assert(y < lb);
            assert(pb[y] == a[x]);
        }
        assert forall|y: int| 0 <= y < pb.len() implies pa.contains(#[trigger] pb[y]) by {
            assert(pb[y] == b[y]);
            assert(a.contains(b[y]));
            let x = choose|x: int| 0 <= x < a.len() && a[x] == b[y];
            assert(distance_to(b[y], target) < distance_to(b[lb], target));
            assert(x < la);
            assert(pa[x] == b[y]);
        }
        assert forall|x: int, y: int| 0 <= x < y < pa.len() implies distance_to(
            #[trigger] pa[x],
            target,
        ) < distance_to(#[trigger] pa[y], target) by {
            assert(pa[x] == a[x] && pa[y] == a[y]);
        }
        assert forall|x: int, y: int| 0 <= x < y < pb.len() implies distance_to(
            #[trigger] pb[x],
            target,
        ) < distance_to(#[trigger] pb[y], target) by {
            assert(pb[x] == b[x] && pb[y] == b[y]);
        }
        lemma_sorted_ids_unique(pa, pb, target);
        assert(a =~= pa.push(a[la]));
        assert(b =~= pb.push(b[lb]));
    }
}

/// The identifiers of the contacts, in order.
pub open spec fn contact_ids(s: Seq<NodeInfo>) -> Seq<NodeId> {
    Seq::new(s.len(), |i: int| s[i].node_id)
}

impl RoutingTable {
    /// The selection of the `count` contacts closest to `target`.
    pub open spec fn closest(&self, target: NodeId, count: nat) -> Seq<NodeInfo> {
        choose|sel: Seq<NodeInfo>| self.is_closest(sel, target, count)
    }

    /// Of two selections of the closest contacts, each holds the contacts
    /// of the other.
    pub proof fn lemma_closest_subset(
        &self,
        r1: Seq<NodeInfo>,
        r2: Seq<NodeInfo>,
        target: NodeId,
        count: nat,
    )
        requires
            self.is_closest(r1, target, count),
            self.is_closest(r2, target, count),
        ensures
            forall|i: int| 0 <= i < r1.len() ==> r2.contains(#[trigger] r1[i]),
    {
        assert forall|i: int| 0 <= i < r1.len() implies r2.contains(#[trigger] r1[i]) by {
            let e = r1[i];
            assert(self.contains(e));
            assert(accounts_for(r2, e, target, count));
            if !r2.contains(e) {
                let ids1 = contact_ids(r1);
                let more = contact_ids(r2).push(e.node_id);
                assert forall|x: int| 0 <= x < more.len() implies ids1.contains(
                    #[trigger] more[x],
                ) by {
                    if x < r2.len() {
                        let f = r2[x];
                        assert(self.contains(f));
                        assert(accounts_for(r1, f, target, count));
                        assert(distance_to(f.node_id, target) < distance_to(e.node_id, target));
                        if !r1.contains(f) {
                            assert(distance_to(r1[i].node_id, target) < distance_to(
                                f.node_id,
                                target,
                            ));
                        }
                        let y = choose|y: int| 0 <= y < r1.len() && r1[y] == f;
                        assert(ids1[y] == more[x]);
                    } else {
                        assert(ids1[i] == more[x]);
                    }
                }
                assert forall|x: int, y: int|
                    0 <= x < more.len() && 0 <= y < more.len() && x != y implies more[x]
                    != more[y] by {
                    let (lo, hi) = if x < y { (x, y) } else { (y, x) };
                    if hi < r2.len() {
                        assert(distance_to(r2[lo].node_id, target) < distance_to(
                            r2[hi].node_id,
                            target,
                        ));
                    } else {
                        assert(distance_to(r2[lo].node_id, target) < distance_to(
                            e.node_id,
                            target,
                        ));
                    }
                }
                lemma_distinct_subset_len(more, ids1);
                assert(false);
            }
        }
    }

    /// There is one selection of the closest contacts and no other.
    pub proof fn lemma_closest_unique(
        &self,
        r1: Seq<NodeInfo>,
        r2: Seq<NodeInfo>,
        target: NodeId,
        count: nat,
    )
        requires
            self.is_closest(r1, target, count),
            self.is_closest(r2, target, count),
        ensures
            r1 == r2,
    {
        self.lemma_closest_subset(r1, r2, target, count);
        self.lemma_closest_subset(r2, r1, target, count);
        let a = contact_ids(r1);
        let b = contact_ids(r2);
        assert forall|i: int| 0 <= i < a.len() implies b.contains(#[trigger] a[i]) by {
            assert(r2.contains(r1[i]));
            let j = choose|j: int| 0 <= j < r2.len() && r2[j] == r1[i];
            assert(b[j] == a[i]);
        }
        assert forall|j: int| 0 <= j < b.len() implies a.contains(#[trigger] b[j]) by {
            assert(r1.contains(r2[j]));
            let i = choose|i: int| 0 <= i < r1.len() && r1[i] == r2[j];
            assert(a[i] == b[j]);
        }
        assert(ids_sorted(a, target)) by {
            assert forall|i: int, j: int| 0 <= i < j < a.len() implies distance_to(
                #[trigger] a[i],
                target,
            ) < distance_to(#[trigger] a[j], target) by {
                assert(distance_to(r1[i].node_id, target) < distance_to(r1[j].node_id, target));
            }
        }
        assert(ids_sorted(b, target)) by {
            assert forall|i: int, j: int| 0 <= i < j < b.len() implies distance_to(
                #[trigger] b[i],
                target,
            ) < distance_to(#[trigger] b[j], target) by {
                assert(distance_to(r2[i].node_id, target) < distance_to(r2[j].node_id, target));
            }
        }
        lemma_sorted_ids_unique(a, b, target);
        assert(r1.len() == r2.len()) by {
            assert(a.len() == b.len());
        }
        assert forall|i: int| 0 <= i < r1.len() implies r1[i] == r2[i] by {
            assert(r2.contains(r1[i]));
            let j = choose|j: int| 0 <= j < r2.len() && r2[j] == r1[i];
            assert(a[i] == b[i]);
            assert(r2[i].node_id == r2[j].node_id);
            if i < j {
                assert(distance_to(r2[i].node_id, target) < distance_to(r2[j].node_id, target));
            } else if j < i {
                assert(distance_to(r2[j].node_id, target) < distance_to(r2[i].node_id, target));
            }
        }
        assert(r1 =~= r2);
    }
}

} // verus!
