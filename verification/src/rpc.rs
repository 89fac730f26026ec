//! The datagram protocol: the four requests, their responses, and the bytes
//! that carry them.

use crate::routing::SocketAddress;
use crate::storage::append_bytes;
use crate::types::NodeId;
use vstd::bytes::{
    lemma_auto_spec_u128_to_from_le_bytes, lemma_auto_spec_u16_to_from_le_bytes,
    lemma_auto_spec_u32_to_from_le_bytes, lemma_auto_spec_u64_to_from_le_bytes,
    spec_u128_from_le_bytes, spec_u128_to_le_bytes, spec_u16_from_le_bytes, spec_u16_to_le_bytes,
    spec_u32_from_le_bytes, spec_u32_to_le_bytes, spec_u64_from_le_bytes, spec_u64_to_le_bytes,
    u128_from_le_bytes, u128_to_le_bytes, u16_from_le_bytes, u16_to_le_bytes, u32_from_le_bytes,
    u32_to_le_bytes, u64_from_le_bytes, u64_to_le_bytes,
};
use vstd::prelude::*;
use vstd::slice::{slice_subrange, slice_to_vec};

verus! {

/// The largest datagram, in bytes.
pub const MAX_FRAME: usize = 65536;

/// A request.
#[derive(Clone, Debug, PartialEq, Eq)]
pub enum RpcMessage {
    /// Asks whether a node is there.
    Ping { sender: NodeId },
    /// Asks a node to keep a value under a key.
    Store { sender: NodeId, key: NodeId, value: Vec<u8> },
    /// Asks for the contacts closest to a target.
    FindNode { sender: NodeId, target: NodeId },
    /// Asks for the value under a key, or else the contacts closest to it.
    FindValue { sender: NodeId, key: NodeId },
}

/// A response.
#[derive(Clone, Debug, PartialEq, Eq)]
pub enum RpcResponse {
    /// Answers a ping.
    Pong { responder: NodeId },
    /// The contacts closest to what was asked for.
    NodesFound { responder: NodeId, nodes: Vec<(NodeId, SocketAddress)> },
    /// The value under the key asked for.
    ValueFound { responder: NodeId, value: Vec<u8> },
    /// Whether a value was stored.
    Stored { responder: NodeId, success: bool },
}

/// What a request says, identifiers and values as byte strings.
pub enum MessageView {
    Ping { sender: Seq<u8> },
    Store { sender: Seq<u8>, key: Seq<u8>, value: Seq<u8> },
    FindNode { sender: Seq<u8>, target: Seq<u8> },
    FindValue { sender: Seq<u8>, key: Seq<u8> },
}

/// What a response says, identifiers and values as byte strings.
pub enum ResponseView {
    Pong { responder: Seq<u8> },
    NodesFound { responder: Seq<u8>, nodes: Seq<(Seq<u8>, SocketAddress)> },
    ValueFound { responder: Seq<u8>, value: Seq<u8> },
    Stored { responder: Seq<u8>, success: bool },
}

impl View for RpcMessage {
    type V = MessageView;

    open spec fn view(&self) -> MessageView {
        match *self {
            RpcMessage::Ping { sender } => MessageView::Ping { sender: sender@ },
            RpcMessage::Store { sender, key, value } => MessageView::Store {
                sender: sender@,
                key: key@,
                value: value@,
            },
            RpcMessage::FindNode { sender, target } => MessageView::FindNode {
                sender: sender@,
                target: target@,
            },
            RpcMessage::FindValue { sender, key } => MessageView::FindValue {
                sender: sender@,
                key: key@,
            },
        }
    }
}

/// A list of contacts, identifiers as byte strings.
pub open spec fn nodes_view(nodes: Seq<(NodeId, SocketAddress)>) -> Seq<(Seq<u8>, SocketAddress)> {
    Seq::new(nodes.len(), |i: int| (nodes[i].0@, nodes[i].1))
}

impl View for RpcResponse {
    type V = ResponseView;

    open spec fn view(&self) -> ResponseView {
        match *self {
            RpcResponse::Pong { responder } => ResponseView::Pong { responder: responder@ },
            RpcResponse::NodesFound { responder, nodes } => ResponseView::NodesFound {
                responder: responder@,
                nodes: nodes_view(nodes@),
            },
            RpcResponse::ValueFound { responder, value } => ResponseView::ValueFound {
                responder: responder@,
                value: value@,
            },
            RpcResponse::Stored { responder, success } => ResponseView::Stored {
                responder: responder@,
                success,
            },
        }
    }
}

/// The bytes of an address: a kind in four bytes (0 for IPv4, 1 for IPv6),
/// the address in four or sixteen, the port in two; numbers least
/// significant byte first.
pub open spec fn addr_bytes(addr: SocketAddress) -> Seq<u8> {
    match addr {
        SocketAddress::V4(ip, port) => spec_u32_to_le_bytes(0) + spec_u32_to_le_bytes(ip)
            + spec_u16_to_le_bytes(port),
        SocketAddress::V6(ip, port) => spec_u32_to_le_bytes(1) + spec_u128_to_le_bytes(ip)
            + spec_u16_to_le_bytes(port),
    }
}

/// The bytes of a contact: its identifier, then its address.
pub open spec fn node_bytes(node: (Seq<u8>, SocketAddress)) -> Seq<u8> {
    node.0 + addr_bytes(node.1)
}

/// The bytes of a list of contacts, one after the other.
pub open spec fn nodes_bytes(nodes: Seq<(Seq<u8>, SocketAddress)>) -> Seq<u8>
    decreases nodes.len(),
{
    if nodes.len() == 0 {
        Seq::empty()
    } else {
        node_bytes(nodes[0]) + nodes_bytes(nodes.skip(1))
    }
}

/// The bytes of a byte string of any length: the length in eight bytes,
/// then the string.
pub open spec fn blob_bytes(value: Seq<u8>) -> Seq<u8> {
    spec_u64_to_le_bytes(value.len() as u64) + value
}

/// The bytes of a request: its kind in four bytes (0 ping, 1 store, 2 find
/// node, 3 find value), then its fields in order.
pub open spec fn message_bytes(m: MessageView) -> Seq<u8> {
    match m {
        MessageView::Ping { sender } => spec_u32_to_le_bytes(0) + sender,
        MessageView::Store { sender, key, value } => spec_u32_to_le_bytes(1) + sender + key
            + blob_bytes(value),
        MessageView::FindNode { sender, target } => spec_u32_to_le_bytes(2) + sender + target,
        MessageView::FindValue { sender, key } => spec_u32_to_le_bytes(3) + sender + key,
    }
}

/// The bytes of a response: its kind in four bytes (0 pong, 1 nodes found,
/// 2 value found, 3 stored), then its fields in order; a list of contacts
/// is preceded by its length in eight bytes, and a truth value is one byte,
/// 1 or 0.
pub open spec fn response_bytes(r: ResponseView) -> Seq<u8> {
    match r {
        ResponseView::Pong { responder } => spec_u32_to_le_bytes(0) + responder,
        ResponseView::NodesFound { responder, nodes } => spec_u32_to_le_bytes(1) + responder
            + spec_u64_to_le_bytes(nodes.len() as u64) + nodes_bytes(nodes),
        ResponseView::ValueFound { responder, value } => spec_u32_to_le_bytes(2) + responder
            + blob_bytes(value),
        ResponseView::Stored { responder, success } => spec_u32_to_le_bytes(3) + responder + seq![
            if success {
                1u8
            } else {
                0u8
            },
        ],
    }
}

/// The bytes of a list of contacts with one more at its end.
pub proof fn lemma_nodes_bytes_push(
    nodes: Seq<(Seq<u8>, SocketAddress)>,
    node: (Seq<u8>, SocketAddress),
)
    ensures
        nodes_bytes(nodes.push(node)) == nodes_bytes(nodes) + node_bytes(node),
    decreases nodes.len(),
{
    let all = nodes.push(node);
    if nodes.len() == 0 {
        assert(all.skip(1) =~= Seq::empty());
        assert(nodes_bytes(all.skip(1)) =~= Seq::empty());
        assert(nodes_bytes(all) =~= node_bytes(node));
        assert(nodes_bytes(nodes) + node_bytes(node) =~= node_bytes(node));
    } else {
        lemma_nodes_bytes_push(nodes.skip(1), node);
        assert(all.skip(1) =~= nodes.skip(1).push(node));
        assert(nodes_bytes(all) =~= nodes_bytes(nodes) + node_bytes(node));
    }
}

fn put_u32(out: &mut Vec<u8>, x: u32)
    ensures
        final(out)@ == old(out)@ + spec_u32_to_le_bytes(x),
{
    let b = u32_to_le_bytes(x);
    append_bytes(out, b.as_slice());
}

fn put_u64(out: &mut Vec<u8>, x: u64)
    ensures
        final(out)@ == old(out)@ + spec_u64_to_le_bytes(x),
{
    let b = u64_to_le_bytes(x);
    append_bytes(out, b.as_slice());
}

fn put_blob(out: &mut Vec<u8>, value: &[u8])
    ensures
        final(out)@ == old(out)@ + blob_bytes(value@),
{
    put_u64(out, value.len() as u64);
    append_bytes(out, value);
    assert(out@ =~= old(out)@ + blob_bytes(value@));
}

fn put_addr(out: &mut Vec<u8>, addr: &SocketAddress)
    ensures
        final(out)@ == old(out)@ + addr_bytes(*addr),
{
    match addr {
        SocketAddress::V4(ip, port) => {
            put_u32(out, 0);
            put_u32(out, *ip);
            let p = u16_to_le_bytes(*port);
            append_bytes(out, p.as_slice());
        },
        SocketAddress::V6(ip, port) => {
            put_u32(out, 1);
            let a = u128_to_le_bytes(*ip);
            append_bytes(out, a.as_slice());
            let p = u16_to_le_bytes(*port);
            append_bytes(out, p.as_slice());
        },
    }
    assert(out@ =~= old(out)@ + addr_bytes(*addr));
}

fn put_nodes(out: &mut Vec<u8>, nodes: &Vec<(NodeId, SocketAddress)>)
    ensures
        final(out)@ == old(out)@ + nodes_bytes(nodes_view(nodes@)),
{
    let ghost all = nodes_view(nodes@);
    let mut i: usize = 0;
    assert(all.take(0) =~= Seq::empty());
    assert(out@ =~= old(out)@ + nodes_bytes(all.take(0)));
    while i < nodes.len()
        invariant
            i <= nodes@.len(),
            all == nodes_view(nodes@),
            out@ == old(out)@ + nodes_bytes(all.take(i as int)),
        decreases nodes@.len() - i,
    {
        let ghost before = out@;
        append_bytes(out, nodes[i].0.as_bytes());
        put_addr(out, &nodes[i].1);
        proof {
            lemma_nodes_bytes_push(all.take(i as int), all[i as int]);
            assert(all.take(i + 1) =~= all.take(i as int).push(all[i as int]));
            assert(out@ =~= before + node_bytes(all[i as int]));
            assert(out@ =~= old(out)@ + nodes_bytes(all.take(i + 1)));
        }
        i += 1;
    }
    assert(all.take(nodes@.len() as int) =~= all);
}

impl RpcMessage {
    /// The node that sent the request.
    pub fn sender(&self) -> (id: NodeId)
        ensures
            id@ == match self@ {
                MessageView::Ping { sender } => sender,
                MessageView::Store { sender, .. } => sender,
                MessageView::FindNode { sender, .. } => sender,
                MessageView::FindValue { sender, .. } => sender,
            },
    {
        match self {
            RpcMessage::Ping { sender } => *sender,
            RpcMessage::Store { sender, .. } => *sender,
            RpcMessage::FindNode { sender, .. } => *sender,
            RpcMessage::FindValue { sender, .. } => *sender,
        }
    }

    /// The request as a datagram; none if it would be longer than
    /// `MAX_FRAME`.
    pub fn encode(&self) -> (r: Option<Vec<u8>>)
        ensures
            match r {
                Some(bytes) => bytes@ == message_bytes(self@) && bytes@.len() <= MAX_FRAME,
                None => message_bytes(self@).len() > MAX_FRAME,
            },
    {
        let mut out: Vec<u8> = Vec::new();
        match self {
            RpcMessage::Ping { sender } => {
                put_u32(&mut out, 0);
                append_bytes(&mut out, sender.as_bytes());
            },
            RpcMessage::Store { sender, key, value } => {
                put_u32(&mut out, 1);
                append_bytes(&mut out, sender.as_bytes());
                append_bytes(&mut out, key.as_bytes());
                put_blob(&mut out, value.as_slice());
            },
            RpcMessage::FindNode { sender, target } => {
                put_u32(&mut out, 2);
                append_bytes(&mut out, sender.as_bytes());
                append_bytes(&mut out, target.as_bytes());
            },
            RpcMessage::FindValue { sender, key } => {
                put_u32(&mut out, 3);
                append_bytes(&mut out, sender.as_bytes());
                append_bytes(&mut out, key.as_bytes());
            },
        }
        assert(out@ =~= message_bytes(self@));
        if out.len() > MAX_FRAME {
            None
        } else {
            Some(out)
        }
    }
}

impl RpcResponse {
    /// The node that sent the response.
    pub fn responder(&self) -> (id: NodeId)
        ensures
            id@ == match self@ {
                ResponseView::Pong { responder } => responder,
                ResponseView::NodesFound { responder, .. } => responder,
                ResponseView::ValueFound { responder, .. } => responder,
                ResponseView::Stored { responder, .. } => responder,
            },
    {
        match self {
            RpcResponse::Pong { responder } => *responder,
            RpcResponse::NodesFound { responder, .. } => *responder,
            RpcResponse::ValueFound { responder, .. } => *responder,
            RpcResponse::Stored { responder, .. } => *responder,
        }
    }

    /// The response as a datagram; none if it would be longer than
    /// `MAX_FRAME`.
    pub fn encode(&self) -> (r: Option<Vec<u8>>)
        ensures
            match r {
                Some(bytes) => bytes@ == response_bytes(self@) && bytes@.len() <= MAX_FRAME,
                None => response_bytes(self@).len() > MAX_FRAME,
            },
    {
        let mut out: Vec<u8> = Vec::new();
        match self {
            RpcResponse::Pong { responder } => {
                put_u32(&mut out, 0);
                append_bytes(&mut out, responder.as_bytes());
            },
            RpcResponse::NodesFound { responder, nodes } => {
                put_u32(&mut out, 1);
                append_bytes(&mut out, responder.as_bytes());
                put_u64(&mut out, nodes.len() as u64);
                put_nodes(&mut out, nodes);
            },
            RpcResponse::ValueFound { responder, value } => {
                put_u32(&mut out, 2);
                append_bytes(&mut out, responder.as_bytes());
                put_blob(&mut out, value.as_slice());
            },
            RpcResponse::Stored { responder, success } => {
                put_u32(&mut out, 3);
                append_bytes(&mut out, responder.as_bytes());
                out.push(if *success {
                    1u8
                } else {
                    0u8
                });
            },
        }
        assert(out@ =~= response_bytes(self@));
        if out.len() > MAX_FRAME {
            None
        } else {
            Some(out)
        }
    }
}


/// The number in the first two bytes of `b`, and what follows them.
pub open spec fn take_u16(b: Seq<u8>) -> Option<(u16, Seq<u8>)> {
    if b.len() < 2 {
        None
    } else {
        Some((spec_u16_from_le_bytes(b.take(2)), b.skip(2)))
    }
}

/// The number in the first four bytes of `b`, and what follows them.
pub open spec fn take_u32(b: Seq<u8>) -> Option<(u32, Seq<u8>)> {
    if b.len() < 4 {
        None
    } else {
        Some((spec_u32_from_le_bytes(b.take(4)), b.skip(4)))
    }
}

/// The number in the first eight bytes of `b`, and what follows them.
pub open spec fn take_u64(b: Seq<u8>) -> Option<(u64, Seq<u8>)> {
    if b.len() < 8 {
        None
    } else {
        Some((spec_u64_from_le_bytes(b.take(8)), b.skip(8)))
    }
}

/// The number in the first sixteen bytes of `b`, and what follows them.
pub open spec fn take_u128(b: Seq<u8>) -> Option<(u128, Seq<u8>)> {
    if b.len() < 16 {
        None
    } else {
        Some((spec_u128_from_le_bytes(b.take(16)), b.skip(16)))
    }
}

/// The first `n` bytes of `b`, and what follows them.
pub open spec fn take_bytes(b: Seq<u8>, n: nat) -> Option<(Seq<u8>, Seq<u8>)> {
    if b.len() < n {
        None
    } else {
        Some((b.take(n as int), b.skip(n as int)))
    }
}

/// The byte string that `b` starts with, its length first, and what follows.
pub open spec fn take_blob(b: Seq<u8>) -> Option<(Seq<u8>, Seq<u8>)> {
    match take_u64(b) {
        Some((n, rest)) => take_bytes(rest, n as nat),
        None => None,
    }
}

/// The address that `b` starts with, and what follows it.
pub open spec fn take_addr(b: Seq<u8>) -> Option<(SocketAddress, Seq<u8>)> {
    match take_u32(b) {
        Some((kind, r0)) => if kind == 0 {
            match take_u32(r0) {
                Some((ip, r1)) => match take_u16(r1) {
                    Some((port, r2)) => Some((SocketAddress::V4(ip, port), r2)),
                    None => None,
                },
                None => None,
            }
        } else if kind == 1 {
            match take_u128(r0) {
                Some((ip, r1)) => match take_u16(r1) {
                    Some((port, r2)) => Some((SocketAddress::V6(ip, port), r2)),
                    None => None,
                },
                None => None,
            }
        } else {
            None
        },
        None => None,
    }
}

/// The contact that `b` starts with, and what follows it.
pub open spec fn take_node(b: Seq<u8>) -> Option<((Seq<u8>, SocketAddress), Seq<u8>)> {
    match take_bytes(b, 20) {
        Some((id, r0)) => match take_addr(r0) {
            Some((addr, r1)) => Some(((id, addr), r1)),
            None => None,
        },
        None => None,
    }
}

/// The `count` contacts that `b` starts with, and what follows them.
pub open spec fn take_nodes(b: Seq<u8>, count: nat) -> Option<
    (Seq<(Seq<u8>, SocketAddress)>, Seq<u8>),
>
    decreases count,
{
    if count == 0 {
        Some((Seq::empty(), b))
    } else {
        match take_node(b) {
            Some((node, r0)) => match take_nodes(r0, (count - 1) as nat) {
                Some((nodes, r1)) => Some((seq![node] + nodes, r1)),
                None => None,
            },
            None => None,
        }
    }
}

/// The request that the datagram `b` carries; none where `b` is not a
/// request and nothing more.
pub open spec fn parse_message(b: Seq<u8>) -> Option<MessageView> {
    match take_u32(b) {
        Some((kind, r0)) => match take_bytes(r0, 20) {
            Some((sender, r1)) => if kind == 0 {
                if r1.len() == 0 {
                    Some(MessageView::Ping { sender })
                } else {
                    None
                }
            } else if kind == 1 {
                match take_bytes(r1, 20) {
                    Some((key, r2)) => match take_blob(r2) {
                        Some((value, r3)) => if r3.len() == 0 {
                            Some(MessageView::Store { sender, key, value })
                        } else {
                            None
                        },
                        None => None,
                    },
                    None => None,
                }
            } else if kind == 2 {
                match take_bytes(r1, 20) {
                    Some((target, r2)) => if r2.len() == 0 {
                        Some(MessageView::FindNode { sender, target })
                    } else {
                        None
                    },
                    None => None,
                }
            } else if kind == 3 {
                match take_bytes(r1, 20) {
                    Some((key, r2)) => if r2.len() == 0 {
                        Some(MessageView::FindValue { sender, key })
                    } else {
                        None
                    },
                    None => None,
                }
            } else {
                None
            },
            None => None,
        },
        None => None,
    }
}

/// The response that the datagram `b` carries; none where `b` is not a
/// response and nothing more.
pub open spec fn parse_response(b: Seq<u8>) -> Option<ResponseView> {
    match take_u32(b) {
        Some((kind, r0)) => match take_bytes(r0, 20) {
            Some((responder, r1)) => if kind == 0 {
                if r1.len() == 0 {
                    Some(ResponseView::Pong { responder })
                } else {
                    None
                }
            } else if kind == 1 {
                match take_u64(r1) {
                    Some((count, r2)) => match take_nodes(r2, count as nat) {
                        Some((nodes, r3)) => if r3.len() == 0 {
                            Some(ResponseView::NodesFound { responder, nodes })
                        } else {
                            None
                        },
                        None => None,
                    },
                    None => None,
                }
            } else if kind == 2 {
                match take_blob(r1) {
                    Some((value, r2)) => if r2.len() == 0 {
                        Some(ResponseView::ValueFound { responder, value })
                    } else {
                        None
                    },
                    None => None,
                }
            } else if kind == 3 {
                if r1.len() == 1 && r1[0] <= 1 {
                    Some(ResponseView::Stored { responder, success: r1[0] == 1 })
                } else {
                    None
                }
            } else {
                None
            },
            None => None,
        },
        None => None,
    }
}


fn get_u16(bytes: &[u8], pos: usize) -> (r: Option<(u16, usize)>)
    requires
        pos <= bytes@.len(),
    ensures
        match r {
            Some((v, next)) => pos <= next <= bytes@.len() && take_u16(bytes@.skip(pos as int))
                == Some((v, bytes@.skip(next as int))),
            None => take_u16(bytes@.skip(pos as int)) is None,
        },
{
    if bytes.len() - pos < 2 {
        return None;
    }
    let v = u16_from_le_bytes(slice_subrange(bytes, pos, pos + 2));
    proof {
        assert(bytes@.subrange(pos as int, pos + 2) =~= bytes@.skip(pos as int).take(2));
        assert(bytes@.skip(pos as int).skip(2) =~= bytes@.skip(pos + 2));
    }
    Some((v, pos + 2))
}

fn get_u32(bytes: &[u8], pos: usize) -> (r: Option<(u32, usize)>)
    requires
        pos <= bytes@.len(),
    ensures
        match r {
            Some((v, next)) => pos <= next <= bytes@.len() && take_u32(bytes@.skip(pos as int))
                == Some((v, bytes@.skip(next as int))),
            None => take_u32(bytes@.skip(pos as int)) is None,
        },
{
    if bytes.len() - pos < 4 {
        return None;
    }
    let v = u32_from_le_bytes(slice_subrange(bytes, pos, pos + 4));
    proof {
        assert(bytes@.subrange(pos as int, pos + 4) =~= bytes@.skip(pos as int).take(4));
        assert(bytes@.skip(pos as int).skip(4) =~= bytes@.skip(pos + 4));
    }
    Some((v, pos + 4))
}

fn get_u64(bytes: &[u8], pos: usize) -> (r: Option<(u64, usize)>)
    requires
        pos <= bytes@.len(),
    ensures
        match r {
            Some((v, next)) => pos <= next <= bytes@.len() && take_u64(bytes@.skip(pos as int))
                == Some((v, bytes@.skip(next as int))),
            None => take_u64(bytes@.skip(pos as int)) is None,
        },
{
    if bytes.len() - pos < 8 {
        return None;
    }
    let v = u64_from_le_bytes(slice_subrange(bytes, pos, pos + 8));
    proof {
        assert(bytes@.subrange(pos as int, pos + 8) =~= bytes@.skip(pos as int).take(8));
        assert(bytes@.skip(pos as int).skip(8) =~= bytes@.skip(pos + 8));
    }
    Some((v, pos + 8))
}

fn get_u128(bytes: &[u8], pos: usize) -> (r: Option<(u128, usize)>)
    requires
        pos <= bytes@.len(),
    ensures
        match r {
            Some((v, next)) => pos <= next <= bytes@.len() && take_u128(bytes@.skip(pos as int))
                == Some((v, bytes@.skip(next as int))),
            None => take_u128(bytes@.skip(pos as int)) is None,
        },
{
    if bytes.len() - pos < 16 {
        return None;
    }
    let v = u128_from_le_bytes(slice_subrange(bytes, pos, pos + 16));
    proof {
        assert(bytes@.subrange(pos as int, pos + 16) =~= bytes@.skip(pos as int).take(16));
        assert(bytes@.skip(pos as int).skip(16) =~= bytes@.skip(pos + 16));
    }
    Some((v, pos + 16))
}

fn get_id(bytes: &[u8], pos: usize) -> (r: Option<(NodeId, usize)>)
    requires
        pos <= bytes@.len(),
    ensures
        match r {
            Some((id, next)) => pos <= next <= bytes@.len() && take_bytes(
                bytes@.skip(pos as int),
                20,
            ) == Some((id@, bytes@.skip(next as int))),
            None => take_bytes(bytes@.skip(pos as int), 20) is None,
        },
{
    if bytes.len() - pos < 20 {
        return None;
    }
    let mut raw = [0u8; 20];
    let mut i: usize = 0;
    while i < 20
        invariant
            i <= 20,
            pos + 20 <= bytes@.len() <= usize::MAX,
            forall|j: int| 0 <= j < i ==> raw@[j] == bytes@[pos + j],
        decreases 20 - i,
    {
        raw[i] = bytes[pos + i];
        i += 1;
    }
    let id = NodeId::new(raw);
    proof {
        assert(id@ =~= bytes@.skip(pos as int).take(20));
        assert(bytes@.skip(pos as int).skip(20) =~= bytes@.skip(pos + 20));
    }
    Some((id, pos + 20))
}

fn get_blob(bytes: &[u8], pos: usize) -> (r: Option<(Vec<u8>, usize)>)
    requires
        pos <= bytes@.len(),
    ensures
        match r {
            Some((v, next)) => pos <= next <= bytes@.len() && take_blob(bytes@.skip(pos as int))
                == Some((v@, bytes@.skip(next as int))),
            None => take_blob(bytes@.skip(pos as int)) is None,
        },
{
    match get_u64(bytes, pos) {
        None => None,
        Some((n, at)) => {
            if n > (bytes.len() - at) as u64 {
                return None;
            }
            let len = n as usize;
            let v = slice_to_vec(slice_subrange(bytes, at, at + len));
            proof {
                assert(bytes@.subrange(at as int, at + len) =~= bytes@.skip(at as int).take(
                    len as int,
                ));
                assert(bytes@.skip(at as int).skip(len as int) =~= bytes@.skip(at + len));
            }
            Some((v, at + len))
        },
    }
}

fn get_addr(bytes: &[u8], pos: usize) -> (r: Option<(SocketAddress, usize)>)
    requires
        pos <= bytes@.len(),
    ensures
        match r {
            Some((a, next)) => pos <= next <= bytes@.len() && take_addr(bytes@.skip(pos as int))
                == Some((a, bytes@.skip(next as int))),
            None => take_addr(bytes@.skip(pos as int)) is None,
        },
{
    match get_u32(bytes, pos) {
        None => None,
        Some((kind, at)) => {
            if kind == 0 {
                match get_u32(bytes, at) {
                    None => None,
                    Some((ip, at2)) => match get_u16(bytes, at2) {
                        None => None,
                        Some((port, next)) => Some((SocketAddress::V4(ip, port), next)),
                    },
                }
            } else if kind == 1 {
                match get_u128(bytes, at) {
                    None => None,
                    Some((ip, at2)) => match get_u16(bytes, at2) {
                        None => None,
                        Some((port, next)) => Some((SocketAddress::V6(ip, port), next)),
                    },
                }
            } else {
                None
            }
        },
    }
}

fn get_node(bytes: &[u8], pos: usize) -> (r: Option<((NodeId, SocketAddress), usize)>)
    requires
        pos <= bytes@.len(),
    ensures
        match r {
            Some((n, next)) => pos <= next <= bytes@.len() && take_node(bytes@.skip(pos as int))
                == Some(((n.0@, n.1), bytes@.skip(next as int))),
            None => take_node(bytes@.skip(pos as int)) is None,
        },
{
    match get_id(bytes, pos) {
        None => None,
        Some((id, at)) => match get_addr(bytes, at) {
            None => None,
            Some((addr, next)) => Some(((id, addr), next)),
        },
    }
}

/// A parse of contacts, with the contacts `acc` put before those it found.
pub open spec fn prepend_nodes(
    acc: Seq<(Seq<u8>, SocketAddress)>,
    r: Option<(Seq<(Seq<u8>, SocketAddress)>, Seq<u8>)>,
) -> Option<(Seq<(Seq<u8>, SocketAddress)>, Seq<u8>)> {
    match r {
        Some((nodes, rest)) => Some((acc + nodes, rest)),
        None => None,
    }
}

fn get_nodes(bytes: &[u8], start: usize, count: u64) -> (r: Option<
    (Vec<(NodeId, SocketAddress)>, usize),
>)
    requires
        start <= bytes@.len(),
    ensures
        match r {
            Some((nodes, next)) => start <= next <= bytes@.len() && take_nodes(
                bytes@.skip(start as int),
                count as nat,
            ) == Some((nodes_view(nodes@), bytes@.skip(next as int))),
            None => take_nodes(bytes@.skip(start as int), count as nat) is None,
        },
{
    let mut nodes: Vec<(NodeId, SocketAddress)> = Vec::new();
    let mut pos = start;
    let mut i: u64 = 0;
    proof {
        let whole = take_nodes(bytes@.skip(start as int), count as nat);
        assert(prepend_nodes(nodes_view(nodes@), whole) == whole) by {
            if let Some((ns, rest)) = whole {
                assert(nodes_view(nodes@) + ns =~= ns);
            }
        }
    }
    while i < count
        invariant
            start <= pos <= bytes@.len(),
            i <= count,
            take_nodes(bytes@.skip(start as int), count as nat) == prepend_nodes(
                nodes_view(nodes@),
                take_nodes(bytes@.skip(pos as int), (count - i) as nat),
            ),
        decreases count - i,
    {
        let ghost acc = nodes_view(nodes@);
        match get_node(bytes, pos) {
            None => {
                return None;
            },
            Some((node, next)) => {
                nodes.push(node);
                proof {
                    let tail = take_nodes(bytes@.skip(next as int), (count - i - 1) as nat);
                    assert(nodes_view(nodes@) =~= acc.push((node.0@, node.1)));
                    if let Some((ns, rest)) = tail {
                        assert(acc + (seq![(node.0@, node.1)] + ns) =~= nodes_view(nodes@) + ns);
                    }
                }
                pos = next;
            },
        }
        i += 1;
    }
    proof {
        assert(nodes_view(nodes@) + Seq::empty() =~= nodes_view(nodes@));
    }
    Some((nodes, pos))
}

impl RpcMessage {
    /// The request that a datagram carries; none where the datagram is not
    /// a request and nothing more.
    pub fn decode(bytes: &[u8]) -> (r: Option<RpcMessage>)
        ensures
            match r {
                Some(m) => parse_message(bytes@) == Some(m@),
                None => parse_message(bytes@) is None,
            },
    {
        assert(bytes@.skip(0) =~= bytes@);
        let (kind, at) = match get_u32(bytes, 0) {
            None => {
                return None;
            },
            Some(x) => x,
        };
        let (sender, at1) = match get_id(bytes, at) {
            None => {
                return None;
            },
            Some(x) => x,
        };
        if kind == 0 {
            if at1 == bytes.len() {
                Some(RpcMessage::Ping { sender })
            } else {
                None
            }
        } else if kind == 1 {
            match get_id(bytes, at1) {
                None => None,
                Some((key, at2)) => match get_blob(bytes, at2) {
                    None => None,
                    Some((value, at3)) => if at3 == bytes.len() {
                        Some(RpcMessage::Store { sender, key, value })
                    } else {
                        None
                    },
                },
            }
        } else if kind == 2 {
            match get_id(bytes, at1) {
                None => None,
                Some((target, at2)) => if at2 == bytes.len() {
                    Some(RpcMessage::FindNode { sender, target })
                } else {
                    None
                },
            }
        } else if kind == 3 {
            match get_id(bytes, at1) {
                None => None,
                Some((key, at2)) => if at2 == bytes.len() {
                    Some(RpcMessage::FindValue { sender, key })
                } else {
                    None
                },
            }
        } else {
            None
        }
    }
}

impl RpcResponse {
    /// The response that a datagram carries; none where the datagram is not
    /// a response and nothing more.
    pub fn decode(bytes: &[u8]) -> (r: Option<RpcResponse>)
        ensures
            match r {
                Some(m) => parse_response(bytes@) == Some(m@),
                None => parse_response(bytes@) is None,
            },
    {
        assert(bytes@.skip(0) =~= bytes@);
        let (kind, at) = match get_u32(bytes, 0) {
            None => {
                return None;
            },
            Some(x) => x,
        };
        let (responder, at1) = match get_id(bytes, at) {
            None => {
                return None;
            },
            Some(x) => x,
        };
        if kind == 0 {
            if at1 == bytes.len() {
                Some(RpcResponse::Pong { responder })
            } else {
                None
            }
        } else if kind == 1 {
            match get_u64(bytes, at1) {
                None => None,
                Some((count, at2)) => match get_nodes(bytes, at2, count) {
                    None => None,
                    Some((nodes, at3)) => if at3 == bytes.len() {
                        Some(RpcResponse::NodesFound { responder, nodes })
                    } else {
                        None
                    },
                },
            }
        } else if kind == 2 {
            match get_blob(bytes, at1) {
                None => None,
                Some((value, at2)) => if at2 == bytes.len() {
                    Some(RpcResponse::ValueFound { responder, value })
                } else {
                    None
                },
            }
        } else if kind == 3 {
            if bytes.len() - at1 == 1 && bytes[at1] <= 1 {
                assert(bytes@.skip(at1 as int)[0] == bytes@[at1 as int]);
                Some(RpcResponse::Stored { responder, success: bytes[at1] == 1 })
            } else {
                assert(bytes@.skip(at1 as int).len() == 1 ==> bytes@.skip(at1 as int)[0]
                    == bytes@[at1 as int]);
                None
            }
        } else {
            None
        }
    }
}


impl MessageView {
    /// Identifiers have twenty bytes, and a value's length fits in the
    /// eight bytes that announce it.
    pub open spec fn wf(self) -> bool {
        match self {
            MessageView::Ping { sender } => sender.len() == 20,
            MessageView::Store { sender, key, value } => sender.len() == 20 && key.len() == 20
                && value.len() <= u64::MAX,
            MessageView::FindNode { sender, target } => sender.len() == 20 && target.len() == 20,
            MessageView::FindValue { sender, key } => sender.len() == 20 && key.len() == 20,
        }
    }
}

impl ResponseView {
    /// Identifiers have twenty bytes, and the length of a value or of a
    /// list fits in the eight bytes that announce it.
    pub open spec fn wf(self) -> bool {
        match self {
            ResponseView::Pong { responder } => responder.len() == 20,
            ResponseView::NodesFound { responder, nodes } => responder.len() == 20 && nodes.len()
                <= u64::MAX && forall|i: int| 0 <= i < nodes.len() ==> (#[trigger] nodes[i]).0.len()
                == 20,
            ResponseView::ValueFound { responder, value } => responder.len() == 20 && value.len()
                <= u64::MAX,
            ResponseView::Stored { responder, .. } => responder.len() == 20,
        }
    }
}

impl RpcMessage {
    /// What a request says is always well formed.
    pub proof fn lemma_view_wf(&self)
        ensures
            self@.wf(),
    {
        match *self {
            RpcMessage::Ping { sender } => {
                sender.lemma_len();
            },
            RpcMessage::Store { sender, key, value } => {
                sender.lemma_len();
                key.lemma_len();
                assert(value@.len() == value.len());
            },
            RpcMessage::FindNode { sender, target } => {
                sender.lemma_len();
                target.lemma_len();
            },
            RpcMessage::FindValue { sender, key } => {
                sender.lemma_len();
                key.lemma_len();
            },
        }
    }
}

impl RpcResponse {
    /// What a response says is always well formed.
    pub proof fn lemma_view_wf(&self)
        ensures
            self@.wf(),
    {
        match *self {
            RpcResponse::Pong { responder } => {
                responder.lemma_len();
            },
            RpcResponse::NodesFound { responder, nodes } => {
                responder.lemma_len();
                assert(nodes@.len() == nodes.len());
                let ns = nodes_view(nodes@);
                assert forall|i: int| 0 <= i < ns.len() implies (#[trigger] ns[i]).0.len()
                    == 20 by {
                    nodes@[i].0.lemma_len();
                }
            },
            RpcResponse::ValueFound { responder, value } => {
                responder.lemma_len();
                assert(value@.len() == value.len());
            },
            RpcResponse::Stored { responder, success } => {
                responder.lemma_len();
            },
        }
    }
}

/// Reading a two-byte number gives back the number written.
pub proof fn lemma_take_u16(x: u16, tail: Seq<u8>)
    ensures
        take_u16(spec_u16_to_le_bytes(x) + tail) == Some((x, tail)),
{
    lemma_auto_spec_u16_to_from_le_bytes();
    let b = spec_u16_to_le_bytes(x) + tail;
    assert(b.take(2) =~= spec_u16_to_le_bytes(x));
    assert(b.skip(2) =~= tail);
}

/// Reading a four-byte number gives back the number written.
pub proof fn lemma_take_u32(x: u32, tail: Seq<u8>)
    ensures
        take_u32(spec_u32_to_le_bytes(x) + tail) == Some((x, tail)),
{
    lemma_auto_spec_u32_to_from_le_bytes();
    let b = spec_u32_to_le_bytes(x) + tail;
    assert(b.take(4) =~= spec_u32_to_le_bytes(x));
    assert(b.skip(4) =~= tail);
}

/// Reading an eight-byte number gives back the number written.
pub proof fn lemma_take_u64(x: u64, tail: Seq<u8>)
    ensures
        take_u64(spec_u64_to_le_bytes(x) + tail) == Some((x, tail)),
{
    lemma_auto_spec_u64_to_from_le_bytes();
    let b = spec_u64_to_le_bytes(x) + tail;
    assert(b.take(8) =~= spec_u64_to_le_bytes(x));
    assert(b.skip(8) =~= tail);
}

/// Reading a sixteen-byte number gives back the number written.
pub proof fn lemma_take_u128(x: u128, tail: Seq<u8>)
    ensures
        take_u128(spec_u128_to_le_bytes(x) + tail) == Some((x, tail)),
{
    lemma_auto_spec_u128_to_from_le_bytes();
    let b = spec_u128_to_le_bytes(x) + tail;
    assert(b.take(16) =~= spec_u128_to_le_bytes(x));
    assert(b.skip(16) =~= tail);
}

/// Reading as many bytes as were written gives them back.
pub proof fn lemma_take_bytes(s: Seq<u8>, tail: Seq<u8>)
    ensures
        take_bytes(s + tail, s.len()) == Some((s, tail)),
{
    let b = s + tail;
    assert(b.take(s.len() as int) =~= s);
    assert(b.skip(s.len() as int) =~= tail);
}

/// Reading a byte string gives back the one written.
pub proof fn lemma_take_blob(value: Seq<u8>, tail: Seq<u8>)
    requires
        value.len() <= u64::MAX,
    ensures
        take_blob(blob_bytes(value) + tail) == Some((value, tail)),
{
    let n = value.len() as u64;
    assert(blob_bytes(value) + tail =~= spec_u64_to_le_bytes(n) + (value + tail));
    lemma_take_u64(n, value + tail);
    lemma_take_bytes(value, tail);
}

/// Reading an address gives back the one written.
pub proof fn lemma_take_addr(addr: SocketAddress, tail: Seq<u8>)
    ensures
        take_addr(addr_bytes(addr) + tail) == Some((addr, tail)),
{
    match addr {
        SocketAddress::V4(ip, port) => {
            let t1 = spec_u16_to_le_bytes(port) + tail;
            let t0 = spec_u32_to_le_bytes(ip) + t1;
            assert(addr_bytes(addr) + tail =~= spec_u32_to_le_bytes(0) + t0);
            lemma_take_u32(0, t0);
            lemma_take_u32(ip, t1);
            lemma_take_u16(port, tail);
        },
        SocketAddress::V6(ip, port) => {
            let t1 = spec_u16_to_le_bytes(port) + tail;
            let t0 = spec_u128_to_le_bytes(ip) + t1;
            assert(addr_bytes(addr) + tail =~= spec_u32_to_le_bytes(1) + t0);
            lemma_take_u32(1, t0);
            lemma_take_u128(ip, t1);
            lemma_take_u16(port, tail);
        },
    }
}

/// Reading a contact gives back the one written.
pub proof fn lemma_take_node(node: (Seq<u8>, SocketAddress), tail: Seq<u8>)
    requires
        node.0.len() == 20,
    ensures
        take_node(node_bytes(node) + tail) == Some((node, tail)),
{
    assert(node_bytes(node) + tail =~= node.0 + (addr_bytes(node.1) + tail));
    lemma_take_bytes(node.0, addr_bytes(node.1) + tail);
    lemma_take_addr(node.1, tail);
}

/// Reading a list of contacts gives back the one written.
pub proof fn lemma_take_nodes(nodes: Seq<(Seq<u8>, SocketAddress)>, tail: Seq<u8>)
    requires
        forall|i: int| 0 <= i < nodes.len() ==> (#[trigger] nodes[i]).0.len() == 20,
    ensures
        take_nodes(nodes_bytes(nodes) + tail, nodes.len()) == Some((nodes, tail)),
    decreases nodes.len(),
{
    if nodes.len() == 0 {
        assert(nodes_bytes(nodes) + tail =~= tail);
        assert(nodes =~= Seq::empty());
    } else {
        let rest = nodes.skip(1);
        let t0 = nodes_bytes(rest) + tail;
        assert(nodes_bytes(nodes) + tail =~= node_bytes(nodes[0]) + t0);
        lemma_take_node(nodes[0], t0);
        assert forall|i: int| 0 <= i < rest.len() implies (#[trigger] rest[i]).0.len() == 20 by {
            assert(rest[i] == nodes[i + 1]);
        }
        lemma_take_nodes(rest, tail);
        assert(seq![nodes[0]] + rest =~= nodes);
    }
}

/// A request that is written as a datagram and read back is the same
/// request.
pub proof fn message_round_trip(m: MessageView)
    requires
        m.wf(),
    ensures
        parse_message(message_bytes(m)) == Some(m),
{
    let e = Seq::<u8>::empty();
    match m {
        MessageView::Ping { sender } => {
            assert(message_bytes(m) =~= spec_u32_to_le_bytes(0) + (sender + e));
            lemma_take_u32(0, sender + e);
            lemma_take_bytes(sender, e);
        },
        MessageView::Store { sender, key, value } => {
            let t2 = blob_bytes(value) + e;
            let t1 = key + t2;
            let t0 = sender + t1;
            assert(message_bytes(m) =~= spec_u32_to_le_bytes(1) + t0);
            lemma_take_u32(1, t0);
            lemma_take_bytes(sender, t1);
            lemma_take_bytes(key, t2);
            lemma_take_blob(value, e);
        },
        MessageView::FindNode { sender, target } => {
            let t1 = target + e;
            let t0 = sender + t1;
            assert(message_bytes(m) =~= spec_u32_to_le_bytes(2) + t0);
            lemma_take_u32(2, t0);
            lemma_take_bytes(sender, t1);
            lemma_take_bytes(target, e);
        },
        MessageView::FindValue { sender, key } => {
            let t1 = key + e;
            let t0 = sender + t1;
            assert(message_bytes(m) =~= spec_u32_to_le_bytes(3) + t0);
            lemma_take_u32(3, t0);
            lemma_take_bytes(sender, t1);
            lemma_take_bytes(key, e);
        },
    }
}

/// A response that is written as a datagram and read back is the same
/// response.
pub proof fn response_round_trip(r: ResponseView)
    requires
        r.wf(),
    ensures
        parse_response(response_bytes(r)) == Some(r),
{
    let e = Seq::<u8>::empty();
    match r {
        ResponseView::Pong { responder } => {
            assert(response_bytes(r) =~= spec_u32_to_le_bytes(0) + (responder + e));
            lemma_take_u32(0, responder + e);
            lemma_take_bytes(responder, e);
        },
        ResponseView::NodesFound { responder, nodes } => {
            let n = nodes.len() as u64;
            let t2 = nodes_bytes(nodes) + e;
            let t1 = spec_u64_to_le_bytes(n) + t2;
            let t0 = responder + t1;
            assert(response_bytes(r) =~= spec_u32_to_le_bytes(1) + t0);
            lemma_take_u32(1, t0);
            lemma_take_bytes(responder, t1);
            lemma_take_u64(n, t2);
            lemma_take_nodes(nodes, e);
        },
        ResponseView::ValueFound { responder, value } => {
            let t1 = blob_bytes(value) + e;
            let t0 = responder + t1;
            assert(response_bytes(r) =~= spec_u32_to_le_bytes(2) + t0);
            lemma_take_u32(2, t0);
            lemma_take_bytes(responder, t1);
            lemma_take_blob(value, e);
        },
        ResponseView::Stored { responder, success } => {
            let flag = seq![
                if success {
                    1u8
                } else {
                    0u8
                },
            ];
            let t0 = responder + flag;
            assert(response_bytes(r) =~= spec_u32_to_le_bytes(3) + t0);
            lemma_take_u32(3, t0);
            lemma_take_bytes(responder, flag);
        },
    }
}


/// The datagram that asks a node whether it is there.
pub fn ping_request(sender: NodeId) -> (bytes: Vec<u8>)
    ensures
        bytes@ == message_bytes(MessageView::Ping { sender: sender@ }),
        bytes@.len() <= MAX_FRAME,
{
    let mut out: Vec<u8> = Vec::new();
    put_u32(&mut out, 0);
    append_bytes(&mut out, sender.as_bytes());
    proof {
        lemma_auto_spec_u32_to_from_le_bytes();
        sender.lemma_len();
    }
    out
}

/// The datagram that asks a node for the contacts closest to `target`.
pub fn find_node_request(sender: NodeId, target: NodeId) -> (bytes: Vec<u8>)
    ensures
        bytes@ == message_bytes(MessageView::FindNode { sender: sender@, target: target@ }),
        bytes@.len() <= MAX_FRAME,
{
    let mut out: Vec<u8> = Vec::new();
    put_u32(&mut out, 2);
    append_bytes(&mut out, sender.as_bytes());
    append_bytes(&mut out, target.as_bytes());
    proof {
        lemma_auto_spec_u32_to_from_le_bytes();
        sender.lemma_len();
        target.lemma_len();
    }
    out
}

/// The datagram that asks a node for the value under `key`.
pub fn find_value_request(sender: NodeId, key: NodeId) -> (bytes: Vec<u8>)
    ensures
        bytes@ == message_bytes(MessageView::FindValue { sender: sender@, key: key@ }),
        bytes@.len() <= MAX_FRAME,
{
    let mut out: Vec<u8> = Vec::new();
    put_u32(&mut out, 3);
    append_bytes(&mut out, sender.as_bytes());
    append_bytes(&mut out, key.as_bytes());
    proof {
        lemma_auto_spec_u32_to_from_le_bytes();
        sender.lemma_len();
        key.lemma_len();
    }
    out
}

/// The datagram that asks a node to keep `value` under `key`; none where
/// the value is too long for one datagram.
pub fn store_request(sender: NodeId, key: NodeId, value: Vec<u8>) -> (r: Option<Vec<u8>>)
    ensures
        match r {
            Some(bytes) => bytes@ == message_bytes(
                MessageView::Store { sender: sender@, key: key@, value: value@ },
            ) && bytes@.len() <= MAX_FRAME,
            None => message_bytes(
                MessageView::Store { sender: sender@, key: key@, value: value@ },
            ).len() > MAX_FRAME,
        },
{
    let m = RpcMessage::Store { sender, key, value };
    m.encode()
}

/// What a ping came to, given the datagram that came back: whether it was
/// a pong. None where the datagram is no response: the node counts as
/// unreachable.
pub fn ping_outcome(reply: &[u8]) -> (r: Option<bool>)
    ensures
        match parse_response(reply@) {
            Some(v) => r == Some(v is Pong),
            None => r is None,
        },
{
    match RpcResponse::decode(reply) {
        Some(RpcResponse::Pong { .. }) => Some(true),
        Some(_) => Some(false),
        None => None,
    }
}

/// What a store request came to, given the datagram that came back:
/// whether the node says it stored the value; a response of another kind
/// says it did not. None where the datagram is no response: the node counts
/// as unreachable.
pub fn store_outcome(reply: &[u8]) -> (r: Option<bool>)
    ensures
        match parse_response(reply@) {
            Some(ResponseView::Stored { success, .. }) => r == Some(success),
            Some(_) => r == Some(false),
            None => r is None,
        },
{
    match RpcResponse::decode(reply) {
        Some(RpcResponse::Stored { success, .. }) => Some(success),
        Some(_) => Some(false),
        None => None,
    }
}

/// What a request for contacts came to, given the datagram that came back:
/// the contacts in it; a response of another kind holds none. None where
/// the datagram is no response: the node counts as unreachable.
pub fn find_node_outcome(reply: &[u8]) -> (r: Option<Vec<(NodeId, SocketAddress)>>)
    ensures
        match parse_response(reply@) {
            Some(ResponseView::NodesFound { nodes, .. }) => r matches Some(found) && nodes_view(
                found@,
            ) == nodes,
            Some(_) => r matches Some(found) && found@.len() == 0,
            None => r is None,
        },
{
    match RpcResponse::decode(reply) {
        Some(RpcResponse::NodesFound { nodes, .. }) => Some(nodes),
        Some(_) => Some(Vec::new()),
        None => None,
    }
}

/// What a request for a value came to, given the datagram that came back:
/// the value, or else the contacts in the response; a response of another
/// kind holds neither. None where the datagram is no response: the node
/// counts as unreachable.
pub fn find_value_outcome(reply: &[u8]) -> (r: Option<
    Result<Vec<u8>, Vec<(NodeId, SocketAddress)>>,
>)
    ensures
        match parse_response(reply@) {
            Some(ResponseView::ValueFound { value, .. }) => r matches Some(Ok(found)) && found@
                == value,
            Some(ResponseView::NodesFound { nodes, .. }) => r matches Some(Err(found))
                && nodes_view(found@) == nodes,
            Some(_) => r matches Some(Err(found)) && found@.len() == 0,
            None => r is None,
        },
{
    match RpcResponse::decode(reply) {
        Some(RpcResponse::ValueFound { value, .. }) => Some(Ok(value)),
        Some(RpcResponse::NodesFound { nodes, .. }) => Some(Err(nodes)),
        Some(_) => Some(Err(Vec::new())),
        None => None,
    }
}

} // verus!
