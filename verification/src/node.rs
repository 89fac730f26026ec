//! A node: its identity, its routing table and its store, what it answers
//! to each request, and how it drives its lookups.

use crate::lookup::{contacted, merged, Candidate, Lookup};
use crate::routing::{
    contact_pairs, table_after_eviction, table_after_update, to_pairs, update_outcome, NodeInfo,
    RoutingTable, SocketAddress, UpdateOutcome,
};
use crate::rpc::{
    nodes_view, parse_message, response_bytes, MessageView, ResponseView, RpcMessage, RpcResponse,
    MAX_FRAME,
};
use crate::storage::{append_bytes, expiry_at, live_value, swept, Entries, Store};
use crate::types::NodeId;
use vstd::prelude::*;

verus! {

/// What a node is made with.
#[derive(Clone, Copy, Debug)]
pub struct Config {
    /// The number of contacts in a bucket, and of nodes in a lookup's result.
    pub k: usize,
    /// The number of probes that a lookup round sends.
    pub alpha: usize,
    /// The time, in seconds, for which a value is kept.
    pub ttl: u64,
    /// The time, in seconds, after which held values are stored again.
    pub republish_interval: u64,
    /// The time, in seconds, after which a bucket is refreshed.
    pub bucket_refresh_interval: u64,
}

impl Default for Config {
    /// Buckets of twenty, three probes a round, values kept for a day,
    /// and an hour between republishing and between refreshes.
    fn default() -> (c: Config)
        ensures
            c.k == crate::K,
            c.alpha == crate::ALPHA,
            c.ttl == crate::storage::DEFAULT_TTL,
            c.republish_interval == crate::REPUBLISH_INTERVAL,
            c.bucket_refresh_interval == crate::BUCKET_REFRESH_INTERVAL,
    {
        Config {
            k: crate::K,
            alpha: crate::ALPHA,
            ttl: crate::storage::DEFAULT_TTL,
            republish_interval: crate::REPUBLISH_INTERVAL,
            bucket_refresh_interval: crate::BUCKET_REFRESH_INTERVAL,
        }
    }
}

/// A probe that is due: the least recently seen contact of a full bucket
/// is to be pinged, and gives way to the newcomer only if it does not
/// answer.
#[derive(Clone, Copy, Debug, PartialEq, Eq)]
pub struct Probe {
    /// The contact to ping.
    pub oldest: NodeInfo,
    /// The contact that found the bucket full.
    pub newcomer: NodeInfo,
}

/// What a node does about a request: the response to send back and the
/// probe that is due, if any.
#[derive(Debug, PartialEq, Eq)]
pub struct Reply {
    /// The response to the request.
    pub response: RpcResponse,
    /// The probe that is due, if any.
    pub probe: Option<Probe>,
}

/// What a node does about a datagram that carried a request: the datagram
/// to send back, if the response fits in one, and the probe that is due, if
/// any.
#[derive(Debug, PartialEq, Eq)]
pub struct DatagramReply {
    /// The response as a datagram; none where it would be too long.
    pub datagram: Option<Vec<u8>>,
    /// The probe that is due, if any.
    pub probe: Option<Probe>,
}

/// The probe that is due after `newcomer` was heard of with the given
/// outcome.
pub open spec fn probe_for(outcome: UpdateOutcome, newcomer: NodeInfo) -> Option<Probe> {
    match outcome {
        UpdateOutcome::Full(oldest) => Some(Probe { oldest, newcomer }),
        _ => None,
    }
}

/// The node that sent the request.
pub open spec fn sender_of(m: RpcMessage) -> NodeId {
    match m {
        RpcMessage::Ping { sender } => sender,
        RpcMessage::Store { sender, .. } => sender,
        RpcMessage::FindNode { sender, .. } => sender,
        RpcMessage::FindValue { sender, .. } => sender,
    }
}

/// What a response means to the lookup that asked for it: the responder is
/// contacted, and the contacts in the response, if it holds any, join the
/// candidates.
pub open spec fn lookup_after_response(
    candidates: Seq<Candidate>,
    from: NodeId,
    response: RpcResponse,
    target: NodeId,
    k: nat,
) -> Seq<Candidate> {
    match response {
        RpcResponse::NodesFound { nodes, .. } => merged(
            contacted(candidates, from),
            nodes@,
            target,
            k,
        ),
        _ => contacted(candidates, from),
    }
}

/// A node of the table.
pub struct Node {
    id: NodeId,
    addr: SocketAddress,
    routing_table: RoutingTable,
    storage: Store,
    config: Config,
}

impl Node {
    /// The node's identifier.
    pub closed spec fn id(&self) -> NodeId {
        self.id
    }

    /// The address at which the node listens.
    pub closed spec fn addr(&self) -> SocketAddress {
        self.addr
    }

    /// What the node was made with.
    pub closed spec fn config(&self) -> Config {
        self.config
    }

    /// The node's routing table.
    pub closed spec fn routing(&self) -> RoutingTable {
        self.routing_table
    }

    /// The node's store.
    pub closed spec fn storage(&self) -> Store {
        self.storage
    }

    /// The table and the store are well formed, and the table is the node's
    /// own.
    pub open spec fn wf(&self) -> bool {
        &&& self.routing().wf()
        &&& self.storage().wf()
        &&& self.routing().local_id() == self.id()
        &&& self.routing().bucket_size() == self.config().k
        &&& forall|key: Seq<u8>| #[trigger] self.storage()@.dom().contains(key) ==> key.len() == 20
    }

    /// Whether `after` is this node with nothing changed but the table and
    /// the store.
    pub open spec fn same_node(&self, after: Node) -> bool {
        &&& after.wf()
        &&& after.id() == self.id()
        &&& after.addr() == self.addr()
        &&& after.config() == self.config()
    }

    /// Whether `after` is this node's table once it has heard of `contact`,
    /// and `probe` the probe that is then due.
    pub open spec fn heard(&self, after: Node, contact: NodeInfo, probe: Option<Probe>) -> bool {
        &&& after.routing().buckets() == table_after_update(
            self.routing().buckets(),
            self.id(),
            contact,
            self.config().k as nat,
        )
        &&& probe == probe_for(
            update_outcome(
                self.routing().buckets(),
                self.id(),
                contact,
                self.config().k as nat,
            ),
            contact,
        )
    }

    /// Whether `response` is what the node says to a request for the
    /// contacts closest to `target`: the closest that its table holds, as
    /// many as a bucket holds.
    pub open spec fn answers_with_closest(&self, response: RpcResponse, target: NodeId) -> bool {
        response@ == (ResponseView::NodesFound {
            responder: self.id()@,
            nodes: nodes_view(
                contact_pairs(self.routing().closest(target, self.config().k as nat)),
            ),
        })
    }

    /// Whether a node in this state that gets `message` from `source` at the
    /// time `now` comes to be `after`, with `response` to send and `probe`
    /// due: whatever the request, the sender is recorded in the table; a
    /// value to keep is stored for the configured time; a value asked for
    /// is given if the store has it at that time; and otherwise, or when
    /// contacts are asked for, the closest contacts of the table are
    /// given.
    pub open spec fn answers_message(
        &self,
        message: RpcMessage,
        source: SocketAddress,
        now: u64,
        after: Node,
        response: RpcResponse,
        probe: Option<Probe>,
    ) -> bool {
        &&& self.heard(
            after,
            NodeInfo { node_id: sender_of(message), sock_addr: source, last_seen: now },
            probe,
        )
        &&& match message {
            RpcMessage::Ping { .. } => {
                &&& after.storage() == self.storage()
                &&& response@ == (ResponseView::Pong { responder: self.id()@ })
            },
            RpcMessage::Store { key, value, .. } => {
                &&& after.storage()@ == self.storage()@.insert(
                    key@,
                    (value@, expiry_at(now, self.config().ttl)),
                )
                &&& response@ == (ResponseView::Stored { responder: self.id()@, success: true })
            },
            RpcMessage::FindNode { target, .. } => {
                &&& after.storage() == self.storage()
                &&& after.answers_with_closest(response, target)
            },
            RpcMessage::FindValue { key, .. } => {
                &&& after.storage() == self.storage()
                &&& match live_value(self.storage()@, key@, now) {
                    Some(value) => response@ == (ResponseView::ValueFound {
                        responder: self.id()@,
                        value,
                    }),
                    None => after.answers_with_closest(response, key),
                }
            },
        }
    }

    /// Whether a node in this state that gets the request in `datagram`
    /// comes to be `after`, with `response` to send and `probe` due.
    pub open spec fn answers(
        &self,
        datagram: Seq<u8>,
        source: SocketAddress,
        now: u64,
        after: Node,
        response: RpcResponse,
        probe: Option<Probe>,
    ) -> bool {
        exists|message: RpcMessage| #[trigger]
            parse_message(datagram) == Some(message@) && self.answers_message(
                message,
                source,
                now,
                after,
                response,
                probe,
            )
    }

    /// Whether `l` is a lookup for `target` that this node has just started:
    /// nothing is found or probed yet, and the candidates are the closest
    /// contacts of the table.
    pub open spec fn starts(&self, l: Lookup, target: NodeId, want_value: bool) -> bool {
        &&& l.wf()
        &&& l.target() == target
        &&& l.k() == self.config().k
        &&& l.alpha() == self.config().alpha
        &&& l.want_value() == want_value
        &&& l.found() is None
        &&& l.candidates() == merged(
            Seq::empty(),
            contact_pairs(self.routing().closest(target, self.config().k as nat)),
            target,
            self.config().k as nat,
        )
    }

    /// A node with the identifier `id` that listens at `addr`, with an empty
    /// table and an empty store.
    pub fn with_id(id: NodeId, addr: SocketAddress, config: Config) -> (n: Node)
        ensures
            n.wf(),
            n.id() == id,
            n.addr() == addr,
            n.config() == config,
            n.storage()@ == Entries::empty(),
            forall|i: int| 0 <= i < 160 ==> (#[trigger] n.routing().buckets()[i]).len() == 0,
    {
        Node {
            id,
            addr,
            routing_table: RoutingTable::with_bucket_size(id, config.k),
            storage: Store::with_ttl(config.ttl),
            config,
        }
    }

    /// A node with an identifier drawn at random that listens at `addr`,
    /// with an empty table and an empty store.
    pub fn new(addr: SocketAddress, config: Config) -> (n: Node)
        ensures
            n.wf(),
            n.addr() == addr,
            n.config() == config,
            n.storage()@ == Entries::empty(),
            forall|i: int| 0 <= i < 160 ==> (#[trigger] n.routing().buckets()[i]).len() == 0,
    {
        Node::with_id(NodeId::random(), addr, config)
    }

    /// The node's identifier.
    pub fn node_id(&self) -> (id: NodeId)
        ensures
            id == self.id(),
    {
        self.id
    }

    /// The address at which the node listens.
    pub fn address(&self) -> (addr: SocketAddress)
        ensures
            addr == self.addr(),
    {
        self.addr
    }

    /// What the node was made with.
    pub fn configuration(&self) -> (config: Config)
        ensures
            config == self.config(),
    {
        self.config
    }

    /// The node's routing table.
    pub fn routing_table(&self) -> (t: &RoutingTable)
        ensures
            *t == self.routing(),
    {
        &self.routing_table
    }

    /// The node's store.
    pub fn local_store(&self) -> (s: &Store)
        ensures
            *s == self.storage(),
    {
        &self.storage
    }

    /// Records that the node `sender` was heard from at `source` at the time
    /// `now`, and says which probe is due, if any.
    pub fn observe(&mut self, sender: NodeId, source: SocketAddress, now: u64) -> (probe: Option<
        Probe,
    >)
        requires
            old(self).wf(),
        ensures
            old(self).same_node(*final(self)),
            final(self).storage() == old(self).storage(),
            old(self).heard(
                *final(self),
                NodeInfo { node_id: sender, sock_addr: source, last_seen: now },
                probe,
            ),
    {
        let newcomer = NodeInfo { node_id: sender, sock_addr: source, last_seen: now };
        match self.routing_table.update(newcomer) {
            UpdateOutcome::Full(oldest) => Some(Probe { oldest, newcomer }),
            _ => None,
        }
    }

    /// Takes in that the least recently seen contact of a full bucket did
    /// not answer its probe: it leaves, and `newcomer`, on whose account it
    /// was probed, takes a place as the most recently seen.
    pub fn probe_failed(&mut self, newcomer: NodeInfo)
        requires
            old(self).wf(),
        ensures
            old(self).same_node(*final(self)),
            final(self).storage() == old(self).storage(),
            final(self).routing().buckets() == table_after_eviction(
                old(self).routing().buckets(),
                old(self).id(),
                newcomer,
                old(self).config().k as nat,
            ),
    {
        self.routing_table.update_evicting(newcomer);
    }

    /// Puts `value` under `key` in the node's own store at the time `now`,
    /// for `ttl` seconds.
    pub fn store_local(&mut self, key: NodeId, value: Vec<u8>, ttl: u64, now: u64)
        requires
            old(self).wf(),
        ensures
            old(self).same_node(*final(self)),
            final(self).routing() == old(self).routing(),
            final(self).storage()@ == old(self).storage()@.insert(
                key@,
                (value@, expiry_at(now, ttl)),
            ),
    {
        let mut k: Vec<u8> = Vec::new();
        append_bytes(&mut k, key.as_bytes());
        assert(k@ =~= key@);
        self.storage.store(k, value, ttl, now);
        proof {
            key.lemma_len();
            assert forall|x: Seq<u8>| #[trigger]
                self.storage()@.dom().contains(x) implies x.len() == 20 by {
                if x != key@ {
                    assert(old(self).storage()@.dom().contains(x));
                }
            }
        }
    }

    /// The value that the node's own store gives under `key` at the time
    /// `now`.
    pub fn load_local(&self, key: NodeId, now: u64) -> (r: Option<Vec<u8>>)
        requires
            self.wf(),
        ensures
            match r {
                Some(v) => live_value(self.storage()@, key@, now) == Some(v@),
                None => live_value(self.storage()@, key@, now) is None,
            },
    {
        match self.storage.get(key.as_bytes(), now) {
            Some(v) => {
                let mut value: Vec<u8> = Vec::new();
                append_bytes(&mut value, v.as_slice());
                assert(value@ =~= v@);
                Some(value)
            },
            None => None,
        }
    }

    /// Drops from the store every value that has expired at the time `now`.
    pub fn cleanup(&mut self, now: u64)
        requires
            old(self).wf(),
        ensures
            old(self).same_node(*final(self)),
            final(self).routing() == old(self).routing(),
            final(self).storage()@ == swept(old(self).storage()@, now),
    {
        self.storage.cleanup(now);
    }

    /// The values that the node holds at the time `now`, each with its key:
    /// what is to be stored again when values are republished.
    pub fn held_values(&self, now: u64) -> (r: Vec<(NodeId, Vec<u8>)>)
        requires
            self.wf(),
        ensures
            forall|i: int|
                0 <= i < r@.len() ==> live_value(self.storage()@, (#[trigger] r@[i]).0@, now)
                    == Some(r@[i].1@),
            forall|key: Seq<u8>|
                live_value(self.storage()@, key, now) is Some ==> exists|i: int|
                    0 <= i < r@.len() && (#[trigger] r@[i]).0@ == key,
            forall|i: int, j: int|
                0 <= i < j < r@.len() ==> (#[trigger] r@[i]).0 != (#[trigger] r@[j]).0,
    {
        let mut entries = self.storage.live_entries(now);
        let ghost all = entries@;
        let mut out: Vec<(NodeId, Vec<u8>)> = Vec::new();
        while entries.len() > 0
            invariant
                self.wf(),
                entries@.len() <= all.len(),
                entries@ =~= all.take(entries@.len() as int),
                out@.len() == all.len() - entries@.len(),
                forall|i: int|
                    0 <= i < all.len() ==> live_value(
                        self.storage()@,
                        (#[trigger] all[i]).0@,
                        now,
                    ) == Some(all[i].1@),
                forall|j: int|
                    0 <= j < out@.len() ==> (#[trigger] out@[j]).0@ == all[all.len() - 1 - j].0@
                        && out@[j].1@ == all[all.len() - 1 - j].1@,
            decreases entries@.len(),
        {
            let ghost at = entries@.len() - 1;
            let (key, value) = entries.pop().unwrap();
            assert(key == all[at].0 && value == all[at].1);
            assert(self.storage()@.dom().contains(key@));
            let mut raw = [0u8; 20];
            let mut i: usize = 0;
            while i < 20
                invariant
                    i <= 20,
                    key@.len() == 20,
                    forall|j: int| 0 <= j < i ==> raw@[j] == key@[j],
                decreases 20 - i,
            {
                raw[i] = key[i];
                i += 1;
            }
            let id = NodeId::new(raw);
            assert(id@ =~= key@);
            out.push((id, value));
        }
        proof {
            assert forall|key: Seq<u8>|
                live_value(self.storage()@, key, now) is Some implies exists|i: int|
                0 <= i < out@.len() && (#[trigger] out@[i]).0@ == key by {
                let a = choose|a: int| 0 <= a < all.len() && (#[trigger] all[a]).0@ == key;
                assert(out@[all.len() - 1 - a].0@ == key);
            }
            assert forall|i: int, j: int| 0 <= i < j < out@.len() implies (
            #[trigger] out@[i]).0 != (#[trigger] out@[j]).0 by {
                assert(all[all.len() - 1 - j].0@ != all[all.len() - 1 - i].0@);
            }
        }
        out
    }

    /// Starts the lookup that refreshes the bucket number `bucket`: a lookup
    /// of an identifier that belongs in that bucket, whose bits past the
    /// first that differs from the node's own are those of `filler`.
    pub fn refresh_bucket(&self, bucket: usize, filler: &NodeId) -> (r: (NodeId, Lookup))
        requires
            self.wf(),
            bucket < 160,
        ensures
            crate::routing::bucket_index_of(self.id(), r.0) == bucket,
            self.starts(r.1, r.0, false),
    {
        let target = crate::routing::refresh_target(&self.id, bucket, filler);
        let lookup = self.begin_lookup(target, false);
        (target, lookup)
    }

    fn closest_response(&self, target: NodeId) -> (response: RpcResponse)
        requires
            self.wf(),
        ensures
            self.answers_with_closest(response, target),
    {
        let closest = self.routing_table.closest_nodes(&target, self.config.k);
        let nodes = to_pairs(&closest);
        RpcResponse::NodesFound { responder: self.id, nodes }
    }

    /// Answers a request to keep `value` under `key`: the sender is
    /// recorded, the value is stored for the configured time, and the answer
    /// says that it was.
    pub fn handle_store(
        &mut self,
        sender: NodeId,
        source: SocketAddress,
        key: NodeId,
        value: Vec<u8>,
        now: u64,
    ) -> (reply: Reply)
        requires
            old(self).wf(),
        ensures
            old(self).same_node(*final(self)),
            old(self).answers_message(
                RpcMessage::Store { sender, key, value },
                source,
                now,
                *final(self),
                reply.response,
                reply.probe,
            ),
    {
        let probe = self.observe(sender, source, now);
        let ttl = self.config.ttl;
        self.store_local(key, value, ttl, now);
        Reply { response: RpcResponse::Stored { responder: self.id, success: true }, probe }
    }

    /// Answers a request for the contacts closest to `target`: the sender
    /// is recorded, and the answer holds the closest contacts of the table,
    /// as many as a bucket holds.
    pub fn handle_find_node(
        &mut self,
        sender: NodeId,
        source: SocketAddress,
        target: NodeId,
        now: u64,
    ) -> (reply: Reply)
        requires
            old(self).wf(),
        ensures
            old(self).same_node(*final(self)),
            old(self).answers_message(
                RpcMessage::FindNode { sender, target },
                source,
                now,
                *final(self),
                reply.response,
                reply.probe,
            ),
    {
        let probe = self.observe(sender, source, now);
        let response = self.closest_response(target);
        Reply { response, probe }
    }

    /// Answers a request for the value under `key`: the sender is recorded,
    /// and the answer holds the value if the store gives one at the time
    /// `now`, or else the closest contacts as for `handle_find_node`.
    pub fn handle_find_value(
        &mut self,
        sender: NodeId,
        source: SocketAddress,
        key: NodeId,
        now: u64,
    ) -> (reply: Reply)
        requires
            old(self).wf(),
        ensures
            old(self).same_node(*final(self)),
            old(self).answers_message(
                RpcMessage::FindValue { sender, key },
                source,
                now,
                *final(self),
                reply.response,
                reply.probe,
            ),
    {
        let probe = self.observe(sender, source, now);
        match self.load_local(key, now) {
            Some(value) => Reply {
                response: RpcResponse::ValueFound { responder: self.id, value },
                probe,
            },
            None => {
                let response = self.closest_response(key);
                Reply { response, probe }
            },
        }
    }

    /// Answers a request that came from `source` at the time `now`.
    pub fn handle_message(&mut self, message: RpcMessage, source: SocketAddress, now: u64) -> (reply:
        Reply)
        requires
            old(self).wf(),
        ensures
            old(self).same_node(*final(self)),
            old(self).answers_message(
                message,
                source,
                now,
                *final(self),
                reply.response,
                reply.probe,
            ),
    {
        match message {
            RpcMessage::Ping { sender } => {
                let probe = self.observe(sender, source, now);
                Reply { response: RpcResponse::Pong { responder: self.id }, probe }
            },
            RpcMessage::Store { sender, key, value } => self.handle_store(
                sender,
                source,
                key,
                value,
                now,
            ),
            RpcMessage::FindNode { sender, target } => self.handle_find_node(
                sender,
                source,
                target,
                now,
            ),
            RpcMessage::FindValue { sender, key } => self.handle_find_value(
                sender,
                source,
                key,
                now,
            ),
        }
    }

    /// Answers a datagram that came from `source` at the time `now`. A
    /// datagram that is no request is dropped: nothing changes and nothing
    /// is sent back. Otherwise the request is answered as by
    /// `handle_message`, and the response goes back as a datagram if it fits
    /// in one.
    pub fn handle_datagram(&mut self, datagram: &[u8], source: SocketAddress, now: u64) -> (r:
        Option<DatagramReply>)
        requires
            old(self).wf(),
        ensures
            old(self).same_node(*final(self)),
            r is None <==> parse_message(datagram@) is None,
            r is None ==> *final(self) == *old(self),
            r matches Some(reply) ==> exists|response: RpcResponse| #[trigger]
                old(self).answers(
                    datagram@,
                    source,
                    now,
                    *final(self),
                    response,
                    reply.probe,
                ) && (match reply.datagram {
                    Some(bytes) => bytes@ == response_bytes(response@) && bytes@.len()
                        <= MAX_FRAME,
                    None => response_bytes(response@).len() > MAX_FRAME,
                }),
    {
        match RpcMessage::decode(datagram) {
            None => None,
            Some(message) => {
                let ghost m = message;
                let reply = self.handle_message(message, source, now);
                let datagram_out = reply.response.encode();
                proof {
                    assert(old(self).answers_message(
                        m,
                        source,
                        now,
                        *final(self),
                        reply.response,
                        reply.probe,
                    ));
                    assert(old(self).answers(
                        datagram@,
                        source,
                        now,
                        *final(self),
                        reply.response,
                        reply.probe,
                    ));
                }
                Some(DatagramReply { datagram: datagram_out, probe: reply.probe })
            },
        }
    }

    fn begin_lookup(&self, target: NodeId, want_value: bool) -> (l: Lookup)
        requires
            self.wf(),
        ensures
            self.starts(l, target, want_value),
    {
        let closest = self.routing_table.closest_nodes(&target, self.config.k);
        let seeds = to_pairs(&closest);
        Lookup::new(target, &seeds, self.config.k, self.config.alpha, want_value)
    }

    /// Starts a lookup of the nodes closest to `key`, from the closest
    /// contacts of the table.
    pub fn lookup_nodes(&self, key: NodeId) -> (l: Lookup)
        requires
            self.wf(),
        ensures
            self.starts(l, key, false),
    {
        self.begin_lookup(key, false)
    }

    /// Starts a lookup of the value under `key`, from the closest contacts
    /// of the table.
    pub fn fetch_value(&self, key: NodeId) -> (l: Lookup)
        requires
            self.wf(),
        ensures
            self.starts(l, key, true),
    {
        self.begin_lookup(key, true)
    }

    /// Stores `value` under `key` in the node's own store at the time `now`,
    /// for the configured time, and starts the lookup of the nodes that are
    /// to hold copies.
    pub fn store(&mut self, key: NodeId, value: Vec<u8>, now: u64) -> (l: Lookup)
        requires
            old(self).wf(),
        ensures
            old(self).same_node(*final(self)),
            final(self).routing() == old(self).routing(),
            final(self).storage()@ == old(self).storage()@.insert(
                key@,
                (value@, expiry_at(now, old(self).config().ttl)),
            ),
            final(self).starts(l, key, false),
    {
        let ttl = self.config.ttl;
        self.store_local(key, value, ttl, now);
        self.begin_lookup(key, false)
    }

    /// The requests that ask each of `closest` to keep `value` under `key`,
    /// each with the address it goes to.
    pub fn replication(&self, key: NodeId, value: &Vec<u8>, closest: &Vec<(NodeId, SocketAddress)>)
        -> (out: Vec<(SocketAddress, RpcMessage)>)
        ensures
            out@.len() == closest@.len(),
            forall|i: int|
                0 <= i < out@.len() ==> (#[trigger] out@[i]).0 == closest@[i].1 && out@[i].1@
                    == (MessageView::Store { sender: self.id()@, key: key@, value: value@ }),
    {
        let mut out: Vec<(SocketAddress, RpcMessage)> = Vec::new();
        let mut i: usize = 0;
        while i < closest.len()
            invariant
                i <= closest@.len(),
                out@.len() == i,
                forall|j: int|
                    0 <= j < i ==> (#[trigger] out@[j]).0 == closest@[j].1 && out@[j].1@
                        == (MessageView::Store { sender: self.id()@, key: key@, value: value@ }),
            decreases closest@.len() - i,
        {
            let mut copy: Vec<u8> = Vec::new();
            append_bytes(&mut copy, value.as_slice());
            assert(copy@ =~= value@);
            out.push((closest[i].1, RpcMessage::Store { sender: self.id, key, value: copy }));
            i += 1;
        }
        out
    }

    /// Takes in the response that the node `from` at `source` gave to a
    /// probe of `lookup` at the time `now`. The responder is recorded in the
    /// routing table and is contacted; contacts in the response join the
    /// candidates; a value completes a lookup that is after one and has
    /// none. A response of another kind counts as an empty one.
    pub fn on_response(
        &mut self,
        lookup: &mut Lookup,
        from: NodeId,
        source: SocketAddress,
        response: RpcResponse,
        now: u64,
    ) -> (probe: Option<Probe>)
        requires
            old(self).wf(),
            old(lookup).wf(),
        ensures
            old(self).same_node(*final(self)),
            final(self).storage() == old(self).storage(),
            old(self).heard(
                *final(self),
                NodeInfo { node_id: from, sock_addr: source, last_seen: now },
                probe,
            ),
            final(lookup).wf(),
            final(lookup).target() == old(lookup).target(),
            final(lookup).k() == old(lookup).k(),
            final(lookup).alpha() == old(lookup).alpha(),
            final(lookup).want_value() == old(lookup).want_value(),
            final(lookup).candidates() == lookup_after_response(
                old(lookup).candidates(),
                from,
                response,
                old(lookup).target(),
                old(lookup).k(),
            ),
            final(lookup).found() == (match response {
                RpcResponse::ValueFound { value, .. } => if old(lookup).want_value() && old(
                    lookup,
                ).found() is None {
                    Some(value@)
                } else {
                    old(lookup).found()
                },
                _ => old(lookup).found(),
            }),
    {
        let probe = self.observe(from, source, now);
        match response {
            RpcResponse::NodesFound { responder, nodes } => {
                lookup.record_nodes(&from, &nodes);
            },
            RpcResponse::ValueFound { responder, value } => {
                lookup.record_value(&from, value);
            },
            _ => {
                lookup.record_failure(&from);
            },
        }
        probe
    }

    /// Takes in that a probe of `lookup` to the node `from` got no answer:
    /// the node is contacted, and stays in the routing table.
    pub fn on_timeout(&self, lookup: &mut Lookup, from: NodeId)
        requires
            old(lookup).wf(),
        ensures
            final(lookup).wf(),
            final(lookup).target() == old(lookup).target(),
            final(lookup).k() == old(lookup).k(),
            final(lookup).alpha() == old(lookup).alpha(),
            final(lookup).want_value() == old(lookup).want_value(),
            final(lookup).found() == old(lookup).found(),
            final(lookup).candidates() == contacted(old(lookup).candidates(), from),
    {
        lookup.record_failure(&from);
    }
}

} // verus!
