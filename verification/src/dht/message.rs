//! Messages between nodes.
//!
//! A message is: version (1 byte), message id (16), type (1, with the high-order
//! bit set in a response), sender (32), payload length (3), payload, and an
//! Ed25519 signature (64) over all that precedes it, or 64 zero bytes.
use crate::bytes;
use crate::bytes::{array_at, copy_range, push_bytes, push_u16, push_u24, push_u32, read_u16};
use crate::bytes::{read_u24, read_u32};
use crate::capabilities::Capabilities;
use crate::dht::record;
use crate::dht::record::{expiry_after, KeptRecordView, PeerRecord};
use crate::dht::routing::BucketEntry;
use crate::directory;
use crate::directory::{DhtMessage, DhtMsgType, MessageView, RecordView};
use crate::endpoint;
use crate::endpoint::{decode_address, encode_address, AddrView, Endpoint, EndpointKind};
use crate::endpoint::{EndpointView, SocketAddr};
use crate::peer::PeerId;
use crate::primitives;
use crate::primitives::{ed25519_sign, random_16};
use crate::PROTOCOL_VERSION;
use vstd::prelude::*;

verus! {

/// The secret key to sign with, as a value.
pub open spec fn seed_view(seed: Option<&[u8; 32]>) -> Option<Seq<u8>> {
    match seed {
        Some(s) => Some(s@),
        None => None,
    }
}

/// The part of a message that a signature covers.
pub open spec fn message_body(
    sender: Seq<u8>,
    message_id: Seq<u8>,
    msg_type: DhtMsgType,
    is_response: bool,
    payload: Seq<u8>,
) -> Seq<u8> {
    seq![PROTOCOL_VERSION] + message_id + seq![
        (msg_type.spec_code() + if is_response {
            128int
        } else {
            0int
        }) as u8,
    ] + sender + bytes::be_bytes(payload.len(), 3) + payload
}

/// What stands behind the body: its signature under the seed, or zero bytes.
pub open spec fn signature_of(seed: Option<Seq<u8>>, body: Seq<u8>) -> Seq<u8> {
    match seed {
        Some(s) => primitives::ed25519_signature(s, body),
        None => Seq::new(64, |i: int| 0u8),
    }
}

/// The bytes of a message.
pub open spec fn message_bytes(
    sender: Seq<u8>,
    message_id: Seq<u8>,
    msg_type: DhtMsgType,
    is_response: bool,
    payload: Seq<u8>,
    seed: Option<Seq<u8>>,
) -> Seq<u8> {
    let body = message_body(sender, message_id, msg_type, is_response, payload);
    body + signature_of(seed, body)
}

/// The message that some bytes hold. Nothing, where they are shorter than a
/// header or than the payload that it announces, of another version, or of no
/// type. The signature is there where 64 bytes follow the payload.
pub open spec fn decoded(data: Seq<u8>) -> Option<MessageView> {
    if data.len() < 53 || data[0] != PROTOCOL_VERSION {
        None
    } else {
        match directory::msg_type_of(data[17]) {
            None => None,
            Some(t) => {
                let end = 53 + bytes::be_nat(data.subrange(50, 53)) as int;
                if data.len() < end {
                    None
                } else {
                    Some(
                        MessageView {
                            version: data[0],
                            message_id: data.subrange(1, 17),
                            msg_type: t,
                            is_response: data[17] >= 128,
                            sender_id: data.subrange(18, 50),
                            payload: data.subrange(53, end),
                            signature: if data.len() >= end + 64 {
                                Some(data.subrange(end, end + 64))
                            } else {
                                None
                            },
                        },
                    )
                }
            },
        }
    }
}

/// Whether some bytes are a request in another version of the protocol, as far as
/// their header tells.
pub open spec fn is_foreign_request(data: Seq<u8>) -> bool {
    data.len() >= 53 && data[0] != PROTOCOL_VERSION && data[17] < 128
}

/// The id of a request in another version of the protocol.
pub fn foreign_request_id(data: &[u8]) -> (r: Option<[u8; 16]>)
    ensures
        match r {
            Some(id) => is_foreign_request(data@) && id@ == data@.subrange(1, 17),
            None => !is_foreign_request(data@),
        },
{
    if data.len() < 53 || data[0] == PROTOCOL_VERSION || DhtMsgType::is_response(data[17]) {
        return None;
    }
    Some(array_at(data, 1))
}

/// Signs `data` with the key whose seed is given.
pub fn sign_with_seed(seed: &[u8; 32], data: &[u8]) -> (r: [u8; 64])
    ensures
        r@ == primitives::ed25519_signature(seed@, data@),
        primitives::own_signature_holds(seed@, data@, r@),
{
    ed25519_sign(seed, data)
}

/// The message that was written, as whoever reads it sees it.
pub open spec fn written(
    sender: Seq<u8>,
    message_id: Seq<u8>,
    msg_type: DhtMsgType,
    is_response: bool,
    payload: Seq<u8>,
    seed: Option<Seq<u8>>,
) -> MessageView {
    MessageView {
        version: PROTOCOL_VERSION,
        message_id,
        msg_type,
        is_response,
        sender_id: sender,
        payload,
        signature: Some(
            signature_of(seed, message_body(sender, message_id, msg_type, is_response, payload)),
        ),
    }
}

/// Whether some bytes are the message with these parts. Whoever reads it sees what was
/// written, provided that the payload fits the three bytes of its length, and a
/// signature under the seed holds unless it is degenerate.
pub open spec fn is_message(
    data: Seq<u8>,
    sender: Seq<u8>,
    message_id: Seq<u8>,
    msg_type: DhtMsgType,
    is_response: bool,
    payload: Seq<u8>,
    seed: Option<Seq<u8>>,
) -> bool {
    let body = message_body(sender, message_id, msg_type, is_response, payload);
    &&& data == message_bytes(sender, message_id, msg_type, is_response, payload, seed)
    &&& payload.len() < 0x100_0000 ==> decoded(data) == Some(
        written(sender, message_id, msg_type, is_response, payload, seed),
    )
    &&& seed matches Some(s) ==> primitives::own_signature_holds(
        s,
        body,
        signature_of(seed, body),
    )
}

/// Writes a message.
pub fn encode_message(
    sender_id: PeerId,
    message_id: [u8; 16],
    msg_type: DhtMsgType,
    is_response: bool,
    payload: &[u8],
    sign_seed: Option<&[u8; 32]>,
) -> (msg: Vec<u8>)
    ensures
        is_message(
            msg@,
            sender_id@,
            message_id@,
            msg_type,
            is_response,
            payload@,
            seed_view(sign_seed),
        ),
{
    let mut msg: Vec<u8> = Vec::with_capacity(payload.len());
    msg.push(PROTOCOL_VERSION);
    push_bytes(&mut msg, message_id.as_slice());
    let type_byte: u8 = msg_type.code() + if is_response {
        128
    } else {
        0
    };
    msg.push(type_byte);
    push_bytes(&mut msg, sender_id.0.as_slice());
    push_u24(&mut msg, (payload.len() % 0x100_0000) as u32);
    proof {
        bytes::lemma_be_bytes_mod(payload@.len());
    }
    push_bytes(&mut msg, payload);
    let ghost body = message_body(sender_id@, message_id@, msg_type, is_response, payload@);
    assert(msg@ =~= body);
    let sig: [u8; 64] = match sign_seed {
        Some(seed) => sign_with_seed(seed, msg.as_slice()),
        None => [0u8; 64],
    };
    assert(sig@ =~= signature_of(seed_view(sign_seed), body));
    push_bytes(&mut msg, sig.as_slice());
    proof {
        if payload@.len() < 0x100_0000 {
            law_message_roundtrip(
                sender_id@,
                message_id@,
                msg_type,
                is_response,
                payload@,
                seed_view(sign_seed),
            );
        }
    }
    msg
}

/// Reads a message.
pub fn decode_message(data: &[u8]) -> (r: Option<DhtMessage>)
    ensures
        match r {
            Some(m) => decoded(data@) == Some(m@),
            None => decoded(data@) is None,
        },
{
    if data.len() < 53 {
        return None;
    }
    let version: u8 = data[0];
    if version != PROTOCOL_VERSION {
        return None;
    }
    let message_id: [u8; 16] = array_at(data, 1);
    let type_byte: u8 = data[17];
    let msg_type: DhtMsgType = match DhtMsgType::from_u8(type_byte) {
        None => {
            return None;
        },
        Some(t) => t,
    };
    let is_response: bool = DhtMsgType::is_response(type_byte);
    let sender: [u8; 32] = array_at(data, 18);
    let payload_len: usize = read_u24(data, 50) as usize;
    let payload_end: usize = 53 + payload_len;
    if data.len() < payload_end {
        return None;
    }
    let payload: Vec<u8> = copy_range(data, 53, payload_end);
    let signature: Option<[u8; 64]> = if data.len() - payload_end >= 64 {
        let sig: [u8; 64] = array_at(data, payload_end);
        Some(sig)
    } else {
        None
    };
    Some(
        DhtMessage {
            version,
            message_id,
            msg_type,
            is_response,
            sender_id: PeerId(sender),
            payload,
            signature,
        },
    )
}

/// The identifier and address of a node, as a value.
pub open spec fn node_view(e: BucketEntry) -> (Seq<u8>, AddrView) {
    (e.node_id@, e.address@)
}

/// The identifiers and addresses of nodes, as values.
pub open spec fn node_views(nodes: Seq<BucketEntry>) -> Seq<(Seq<u8>, AddrView)> {
    nodes.map_values(|e: BucketEntry| node_view(e))
}

/// The wire form of nodes: for each its identifier and its address.
pub open spec fn nodes_bytes(nodes: Seq<(Seq<u8>, AddrView)>) -> Seq<u8>
    decreases nodes.len(),
{
    if nodes.len() == 0 {
        Seq::empty()
    } else {
        nodes[0].0 + endpoint::address_bytes(nodes[0].1) + nodes_bytes(nodes.drop_first())
    }
}

/// The first 255 of the nodes.
pub open spec fn listed(nodes: Seq<(Seq<u8>, AddrView)>) -> Seq<(Seq<u8>, AddrView)> {
    if nodes.len() <= 255 {
        nodes
    } else {
        nodes.subrange(0, 255)
    }
}

/// A list of nodes as a payload: their number in one byte, and the nodes. A list
/// holds no more than the number can say.
pub open spec fn node_list(nodes: Seq<(Seq<u8>, AddrView)>) -> Seq<u8> {
    seq![listed(nodes).len() as u8] + nodes_bytes(listed(nodes))
}

/// Up to `count` nodes from offset `at` on. The list ends early where no
/// identifier is left; an identifier without an address spoils it.
pub open spec fn nodes_at(payload: Seq<u8>, at: int, count: nat) -> Option<
    Seq<(Seq<u8>, AddrView)>,
>
    decreases count,
{
    if count == 0 || at + 32 > payload.len() {
        Some(Seq::empty())
    } else {
        match endpoint::address_at(payload, at + 32) {
            None => None,
            Some((addr, next)) => prepend(
                seq![(payload.subrange(at, at + 32), addr)],
                nodes_at(payload, next, (count - 1) as nat),
            ),
        }
    }
}

/// A list with others in front of it, where there is a list.
pub open spec fn prepend<T>(front: Seq<T>, rest: Option<Seq<T>>) -> Option<Seq<T>> {
    match rest {
        None => None,
        Some(s) => Some(front + s),
    }
}

/// The nodes that a payload lists.
pub open spec fn parsed_nodes(payload: Seq<u8>) -> Option<Seq<(Seq<u8>, AddrView)>> {
    if payload.len() == 0 {
        Some(Seq::empty())
    } else {
        nodes_at(payload, 1, payload[0] as nat)
    }
}

/// The identifiers and addresses of parsed nodes, as values.
pub open spec fn pair_views(nodes: Seq<(PeerId, SocketAddr)>) -> Seq<(Seq<u8>, AddrView)> {
    nodes.map_values(|n: (PeerId, SocketAddr)| (n.0@, n.1@))
}

/// Appends the wire form of a list of nodes.
fn push_node_list(buf: &mut Vec<u8>, nodes: &[BucketEntry])
    ensures
        final(buf)@ == old(buf)@ + node_list(node_views(nodes@)),
{
    let n: usize = if nodes.len() < 255 {
        nodes.len()
    } else {
        255
    };
    let ghost all = listed(node_views(nodes@));
    buf.push(n as u8);
    let mut i: usize = 0;
    assert(all.skip(0) =~= all);
    while i < n
        invariant
            i <= n,
            n <= nodes@.len(),
            all.len() == n,
            forall|j: int| 0 <= j < n ==> all[j] == node_view(#[trigger] nodes@[j]),
            buf@ + nodes_bytes(all.skip(i as int)) == old(buf)@ + seq![n as u8] + nodes_bytes(all),
        decreases n - i,
    {
        let entry: BucketEntry = nodes[i];
        push_bytes(buf, entry.node_id.0.as_slice());
        encode_address(buf, &entry.address);
        proof {
            assert(all.skip(i as int).drop_first() =~= all.skip(i + 1));
            assert(all.skip(i as int)[0] == node_view(nodes@[i as int]));
            assert(buf@ + nodes_bytes(all.skip(i + 1)) =~= old(buf)@ + seq![n as u8] + nodes_bytes(
                all,
            ));
        }
        i = i + 1;
    }
    assert(nodes_bytes(all.skip(n as int)) =~= Seq::<u8>::empty());
    assert(buf@ =~= old(buf)@ + node_list(node_views(nodes@)));
}

/// A list of nodes as a payload.
fn encode_node_list(nodes: &[BucketEntry]) -> (payload: Vec<u8>)
    ensures
        payload@ == node_list(node_views(nodes@)),
{
    let mut payload: Vec<u8> = Vec::new();
    push_node_list(&mut payload, nodes);
    assert(payload@ =~= node_list(node_views(nodes@)));
    payload
}

/// Reads a list of nodes from a payload.
pub fn parse_nodes_from_payload(payload: &[u8]) -> (r: Option<Vec<(PeerId, SocketAddr)>>)
    ensures
        match r {
            Some(nodes) => parsed_nodes(payload@) == Some(pair_views(nodes@)),
            None => parsed_nodes(payload@) is None,
        },
{
    let mut nodes: Vec<(PeerId, SocketAddr)> = Vec::new();
    if payload.len() == 0 {
        assert(pair_views(nodes@) =~= Seq::<(Seq<u8>, AddrView)>::empty());
        return Some(nodes);
    }
    let count: usize = payload[0] as usize;
    let len: usize = payload.len();
    let mut offset: usize = 1;
    let mut left: usize = count;
    proof {
        let rest = nodes_at(payload@, 1, count as nat);
        if let Some(s) = rest {
            assert(pair_views(nodes@) + s =~= s);
        }
    }
    while left > 0 && len - offset >= 32
        invariant
            len == payload@.len(),
            count == payload@[0],
            0 < offset <= len,
            left <= count,
            nodes_at(payload@, 1, count as nat) == prepend(
                pair_views(nodes@),
                nodes_at(payload@, offset as int, left as nat),
            ),
        decreases left,
    {
        let id: [u8; 32] = array_at(payload, offset);
        let ghost before = pair_views(nodes@);
        match decode_address(payload, offset + 32) {
            None => {
                return None;
            },
            Some((addr, next)) => {
                nodes.push((PeerId(id), addr));
                proof {
                    let item = seq![(id@, addr@)];
                    assert(pair_views(nodes@) =~= before + item);
                    if let Some(s) = nodes_at(payload@, next as int, (left - 1) as nat) {
                        assert(before + (item + s) =~= (before + item) + s);
                    }
                }
                offset = next;
            },
        }
        left = left - 1;
    }
    proof {
        let none = Seq::<(Seq<u8>, AddrView)>::empty();
        assert(pair_views(nodes@) + none =~= pair_views(nodes@));
    }
    Some(nodes)
}

/// Reading a list of nodes that was written gives the nodes, for up to 255 of
/// them.
pub proof fn law_node_list_roundtrip(nodes: Seq<(Seq<u8>, AddrView)>)
    requires
        nodes.len() <= 255,
        forall|i: int| 0 <= i < nodes.len() ==> (#[trigger] nodes[i]).0.len() == 32,
        forall|i: int| 0 <= i < nodes.len() ==> (#[trigger] nodes[i]).1.on_wire(),
    ensures
        parsed_nodes(node_list(nodes)) == Some(nodes),
{
    let pre = seq![nodes.len() as u8];
    lemma_nodes_roundtrip(pre, nodes);
}

/// The nodes behind some other bytes are read back.
proof fn lemma_nodes_roundtrip(pre: Seq<u8>, nodes: Seq<(Seq<u8>, AddrView)>)
    requires
        forall|i: int| 0 <= i < nodes.len() ==> (#[trigger] nodes[i]).0.len() == 32,
        forall|i: int| 0 <= i < nodes.len() ==> (#[trigger] nodes[i]).1.on_wire(),
    ensures
        nodes_at(pre + nodes_bytes(nodes), pre.len() as int, nodes.len()) == Some(nodes),
    decreases nodes.len(),
{
    if nodes.len() > 0 {
        let (id, addr) = nodes[0];
        let more = nodes.drop_first();
        let rest = nodes_bytes(more);
        let item = id + endpoint::address_bytes(addr);
        assert forall|i: int| 0 <= i < more.len() implies (#[trigger] more[i]).0.len() == 32
            && more[i].1.on_wire() by {
            assert(more[i] == nodes[i + 1]);
        }
        let s = pre + nodes_bytes(nodes);
        endpoint::law_address_roundtrip(pre + id, addr, rest);
        assert(s =~= pre + id + endpoint::address_bytes(addr) + rest);
        assert(s.subrange(pre.len() as int, pre.len() as int + 32) =~= id);
        lemma_nodes_roundtrip(pre + item, more);
        assert(pre + item + rest =~= s);
        assert(seq![(id, addr)] + more =~= nodes);
    } else {
        assert(nodes =~= Seq::empty());
    }
}

/// The wire form of one endpoint: its address, its kind, and its time to live.
pub open spec fn endpoint_bytes(e: EndpointView) -> Seq<u8> {
    endpoint::address_bytes(e.addr) + seq![e.kind.spec_code()] + bytes::be_bytes(
        e.ttl_seconds as nat,
        4,
    )
}

/// The wire form of endpoints, one after the other.
pub open spec fn endpoints_bytes(eps: Seq<EndpointView>) -> Seq<u8>
    decreases eps.len(),
{
    if eps.len() == 0 {
        Seq::empty()
    } else {
        endpoint_bytes(eps[0]) + endpoints_bytes(eps.drop_first())
    }
}

/// The kind that a byte stands for here: one that stands for none is STUN.
pub open spec fn endpoint_kind_or_stun(v: u8) -> EndpointKind {
    match endpoint::endpoint_kind_of(v) {
        Some(k) => k,
        None => EndpointKind::STUN,
    }
}

/// The endpoints from offset `at` up to `end`. They stop where fewer than seven
/// bytes are left, where no address is to be read, or where the address leaves
/// no room for kind and time to live.
pub open spec fn endpoints_at(data: Seq<u8>, at: int, end: int) -> Seq<EndpointView>
    decreases end - at,
{
    if at + 7 > end {
        Seq::empty()
    } else {
        match endpoint::address_at(data, at) {
            None => Seq::empty(),
            Some((addr, next)) => if next + 5 > end || next <= at {
                Seq::empty()
            } else {
                seq![
                    EndpointView {
                        addr,
                        kind: endpoint_kind_or_stun(data[next]),
                        ttl_seconds: bytes::be_nat(data.subrange(next + 1, next + 5)) as u32,
                    },
                ] + endpoints_at(data, next + 5, end)
            },
        }
    }
}

/// The endpoints in the first `len` bytes of `data`.
pub open spec fn parsed_endpoints(data: Seq<u8>, len: nat) -> Seq<EndpointView> {
    endpoints_at(
        data,
        0,
        if len < data.len() {
            len as int
        } else {
            data.len() as int
        },
    )
}

/// The wire form of a record: time to live, the two keys, capabilities, the
/// length of the endpoints in two bytes, and the endpoints.
pub open spec fn record_bytes(r: RecordView) -> Seq<u8> {
    bytes::be_bytes(r.ttl_remaining as nat, 4) + r.pubkey + r.noise_pubkey + seq![r.capabilities]
        + bytes::be_bytes(endpoints_bytes(r.endpoints).len(), 2) + endpoints_bytes(r.endpoints)
}

/// The record that some bytes hold; 71 bytes at least.
pub open spec fn parsed_record(payload: Seq<u8>) -> Option<RecordView> {
    if payload.len() < 71 {
        None
    } else {
        Some(
            RecordView {
                ttl_remaining: bytes::be_nat(payload.subrange(0, 4)) as u32,
                pubkey: payload.subrange(4, 36),
                noise_pubkey: payload.subrange(36, 68),
                capabilities: payload[68],
                endpoints: parsed_endpoints(
                    payload.skip(71),
                    bytes::be_nat(payload.subrange(69, 71)),
                ),
            },
        )
    }
}

/// Appends the wire form of an endpoint.
fn encode_endpoint(buf: &mut Vec<u8>, ep: &Endpoint)
    ensures
        final(buf)@ == old(buf)@ + endpoint_bytes(ep@),
{
    encode_address(buf, &ep.addr);
    buf.push(ep.kind.code());
    push_u32(buf, ep.ttl_seconds);
    assert(buf@ =~= old(buf)@ + endpoint_bytes(ep@));
}

/// The wire form of endpoints.
fn encode_endpoints(endpoints: &[Endpoint]) -> (out: Vec<u8>)
    ensures
        out@ == endpoints_bytes(endpoint::endpoint_views(endpoints@)),
{
    let ghost all = endpoint::endpoint_views(endpoints@);
    let mut out: Vec<u8> = Vec::new();
    let mut i: usize = 0;
    assert(all.skip(0) =~= all);
    assert(out@ + endpoints_bytes(all) =~= endpoints_bytes(all));
    while i < endpoints.len()
        invariant
            i <= endpoints@.len(),
            all == endpoint::endpoint_views(endpoints@),
            out@ + endpoints_bytes(all.skip(i as int)) == endpoints_bytes(all),
        decreases endpoints@.len() - i,
    {
        let ghost before = out@;
        encode_endpoint(&mut out, &endpoints[i]);
        proof {
            let rest = endpoints_bytes(all.skip(i + 1));
            assert(all.skip(i as int).drop_first() =~= all.skip(i + 1));
            assert(all.skip(i as int)[0] == endpoints@[i as int]@);
            assert(out@ + rest =~= before + (endpoint_bytes(endpoints@[i as int]@) + rest));
        }
        i = i + 1;
    }
    assert(endpoints_bytes(all.skip(i as int)) =~= Seq::<u8>::empty());
    assert(out@ =~= endpoints_bytes(all));
    out
}

/// Appends the wire form of a record.
fn push_record(
    buf: &mut Vec<u8>,
    ttl: u32,
    pubkey: &[u8; 32],
    noise_pubkey: &[u8; 32],
    capabilities: Capabilities,
    endpoints: &[Endpoint],
)
    ensures
        final(buf)@ == old(buf)@ + record_bytes(
            record_view(ttl, pubkey, noise_pubkey, capabilities, endpoints),
        ),
{
    push_u32(buf, ttl);
    push_bytes(buf, pubkey.as_slice());
    push_bytes(buf, noise_pubkey.as_slice());
    buf.push(capabilities.bits);
    let data: Vec<u8> = encode_endpoints(endpoints);
    push_u16(buf, (data.len() % 0x1_0000) as u16);
    proof {
        bytes::lemma_be_bytes_mod(data@.len());
    }
    push_bytes(buf, data.as_slice());
    assert(buf@ =~= old(buf)@ + record_bytes(
        record_view(ttl, pubkey, noise_pubkey, capabilities, endpoints),
    ));
}

/// A record as a value, from its parts.
pub open spec fn record_view(
    ttl: u32,
    pubkey: &[u8; 32],
    noise_pubkey: &[u8; 32],
    capabilities: Capabilities,
    endpoints: &[Endpoint],
) -> RecordView {
    RecordView {
        pubkey: pubkey@,
        noise_pubkey: noise_pubkey@,
        endpoints: endpoint::endpoint_views(endpoints@),
        capabilities: capabilities.bits,
        ttl_remaining: ttl,
    }
}

/// Reads the endpoints in the first `ep_data_len` bytes.
pub fn parse_endpoints(data: &[u8], ep_data_len: usize) -> (out: Vec<Endpoint>)
    ensures
        endpoint::endpoint_views(out@) == parsed_endpoints(data@, ep_data_len as nat),
{
    let end: usize = if ep_data_len < data.len() {
        ep_data_len
    } else {
        data.len()
    };
    let mut out: Vec<Endpoint> = Vec::new();
    let mut offset: usize = 0;
    let ghost all = endpoints_at(data@, 0, end as int);
    assert(endpoint::endpoint_views(out@) + all =~= all);
    loop
        invariant
            offset <= end <= data@.len(),
            all == endpoint::endpoint_views(out@) + endpoints_at(data@, offset as int, end as int),
        ensures
            all == endpoint::endpoint_views(out@),
        decreases end - offset,
    {
        let ghost none = Seq::<EndpointView>::empty();
        let ghost before = endpoint::endpoint_views(out@);
        assert(before + none =~= before);
        if end - offset < 7 {
            break;
        }
        match decode_address(data, offset) {
            None => {
                break;
            },
            Some((addr, next)) => {
                if next > end || end - next < 5 {
                    break;
                }
                let kind: EndpointKind = match EndpointKind::from_code(data[next]) {
                    Some(k) => k,
                    None => EndpointKind::STUN,
                };
                let ttl_seconds: u32 = read_u32(data, next + 1);
                let e: Endpoint = Endpoint { addr, kind, ttl_seconds };
                out.push(e);
                proof {
                    let rest = endpoints_at(data@, next + 5, end as int);
                    assert(endpoint::endpoint_views(out@) =~= before + seq![e@]);
                    assert(before + (seq![e@] + rest) =~= before + seq![e@] + rest);
                }
                offset = next + 5;
            },
        }
    }
    out
}

/// Reads a record; it ends its time to live after `now`.
pub fn parse_record_from_payload(payload: &[u8], now: u64) -> (r: Option<PeerRecord>)
    ensures
        match r {
            Some(rec) => {
                &&& parsed_record(payload@) == Some(rec@.record)
                &&& rec@.expires_at == record::expiry(now, rec@.record.ttl_remaining)
            },
            None => parsed_record(payload@) is None,
        },
{
    if payload.len() < 71 {
        return None;
    }
    let ttl_remaining: u32 = read_u32(payload, 0);
    let pubkey: [u8; 32] = array_at(payload, 4);
    let noise_pubkey: [u8; 32] = array_at(payload, 36);
    let capabilities: Capabilities = Capabilities { bits: payload[68] };
    let ep_len: usize = read_u16(payload, 69) as usize;
    let tail: &[u8] = &payload[71..payload.len()];
    assert(tail@ =~= payload@.skip(71));
    let endpoints: Vec<Endpoint> = parse_endpoints(tail, ep_len);
    let expires_at: u128 = expiry_after(now, ttl_remaining);
    Some(
        PeerRecord { pubkey, noise_pubkey, endpoints, capabilities, ttl_remaining, expires_at },
    )
}

/// The payload of a STORE request: the key, and the record.
pub open spec fn store_payload(key: Seq<u8>, r: RecordView) -> Seq<u8> {
    key + record_bytes(r)
}

/// The payload of a FIND_VALUE response that found the record.
pub open spec fn found_payload(r: RecordView) -> Seq<u8> {
    seq![1u8] + record_bytes(r)
}

/// The payload of a FIND_VALUE response that did not find it.
pub open spec fn not_found_payload(nodes: Seq<(Seq<u8>, AddrView)>) -> Seq<u8> {
    seq![0u8] + node_list(nodes)
}

/// A PING request without a signature.
pub fn encode_ping_request(sender_id: PeerId, message_id: [u8; 16]) -> (r: Vec<u8>)
    ensures
        is_message(
            r@,
            sender_id@,
            message_id@,
            DhtMsgType::Ping,
            false,
            Seq::<u8>::empty(),
            None,
        ),
{
    encode_ping_request_signed(sender_id, message_id, None)
}

/// A PING request.
pub fn encode_ping_request_signed(
    sender_id: PeerId,
    message_id: [u8; 16],
    seed: Option<&[u8; 32]>,
) -> (r: Vec<u8>)
    ensures
        is_message(
            r@,
            sender_id@,
            message_id@,
            DhtMsgType::Ping,
            false,
            Seq::<u8>::empty(),
            seed_view(seed),
        ),
{
    let payload: Vec<u8> = Vec::new();
    encode_message(sender_id, message_id, DhtMsgType::Ping, false, payload.as_slice(), seed)
}

/// A FIND_NODE request without a signature.
pub fn encode_find_node_request(
    sender_id: PeerId,
    message_id: [u8; 16],
    target_id: PeerId,
) -> (r: Vec<u8>)
    ensures
        is_message(
            r@,
            sender_id@,
            message_id@,
            DhtMsgType::FindNode,
            false,
            target_id@,
            None,
        ),
{
    encode_find_node_request_signed(sender_id, message_id, target_id, None)
}

/// A FIND_NODE request.
pub fn encode_find_node_request_signed(
    sender_id: PeerId,
    message_id: [u8; 16],
    target_id: PeerId,
    seed: Option<&[u8; 32]>,
) -> (r: Vec<u8>)
    ensures
        is_message(
            r@,
            sender_id@,
            message_id@,
            DhtMsgType::FindNode,
            false,
            target_id@,
            seed_view(seed),
        ),
{
    encode_message(
        sender_id,
        message_id,
        DhtMsgType::FindNode,
        false,
        target_id.0.as_slice(),
        seed,
    )
}

/// A FIND_VALUE request without a signature.
pub fn encode_find_value_request(
    sender_id: PeerId,
    message_id: [u8; 16],
    key: &[u8; 32],
) -> (r: Vec<u8>)
    ensures
        is_message(r@, sender_id@, message_id@, DhtMsgType::FindValue, false, key@, None),
{
    encode_find_value_request_signed(sender_id, message_id, key, None)
}

/// A FIND_VALUE request.
pub fn encode_find_value_request_signed(
    sender_id: PeerId,
    message_id: [u8; 16],
    key: &[u8; 32],
    seed: Option<&[u8; 32]>,
) -> (r: Vec<u8>)
    ensures
        is_message(
            r@,
            sender_id@,
            message_id@,
            DhtMsgType::FindValue,
            false,
            key@,
            seed_view(seed),
        ),
{
    encode_message(sender_id, message_id, DhtMsgType::FindValue, false, key.as_slice(), seed)
}

/// A STORE request.
pub fn encode_store_request_signed(
    sender_id: PeerId,
    message_id: [u8; 16],
    key: &[u8; 32],
    ttl: u32,
    pubkey: &[u8; 32],
    noise_pubkey: &[u8; 32],
    capabilities: Capabilities,
    endpoints: &[Endpoint],
    seed: Option<&[u8; 32]>,
) -> (r: Vec<u8>)
    ensures
        is_message(
            r@,
            sender_id@,
            message_id@,
            DhtMsgType::Store,
            false,
            store_payload(
                key@,
                record_view(ttl, pubkey, noise_pubkey, capabilities, endpoints),
            ),
            seed_view(seed),
        ),
{
    let mut payload: Vec<u8> = Vec::new();
    push_bytes(&mut payload, key.as_slice());
    assert(payload@ =~= key@);
    push_record(&mut payload, ttl, pubkey, noise_pubkey, capabilities, endpoints);
    encode_message(sender_id, message_id, DhtMsgType::Store, false, payload.as_slice(), seed)
}

/// A STORE request without a signature, under a random message id.
pub fn encode_store_request(
    sender_id: PeerId,
    key: &[u8; 32],
    ttl: u32,
    pubkey: &[u8; 32],
    noise_pubkey: &[u8; 32],
    capabilities: Capabilities,
    endpoints: &[Endpoint],
) -> (r: Vec<u8>)
    ensures
        exists|id: Seq<u8>|
            id.len() == 16 && #[trigger] is_message(
                r@,
                sender_id@,
                id,
                DhtMsgType::Store,
                false,
                store_payload(
                    key@,
                    record_view(ttl, pubkey, noise_pubkey, capabilities, endpoints),
                ),
                None,
            ),
{
    let id: [u8; 16] = random_16();
    encode_store_request_signed(
        sender_id,
        id,
        key,
        ttl,
        pubkey,
        noise_pubkey,
        capabilities,
        endpoints,
        None,
    )
}

/// A PING response: the nodes closest to the one that asked.
pub fn encode_ping_response(
    sender_id: PeerId,
    message_id: [u8; 16],
    nodes: &[BucketEntry],
    seed: Option<&[u8; 32]>,
) -> (r: Vec<u8>)
    ensures
        is_message(
            r@,
            sender_id@,
            message_id@,
            DhtMsgType::Ping,
            true,
            node_list(node_views(nodes@)),
            seed_view(seed),
        ),
{
    let payload: Vec<u8> = encode_node_list(nodes);
    encode_message(sender_id, message_id, DhtMsgType::Ping, true, payload.as_slice(), seed)
}

/// A FIND_NODE response.
pub fn encode_find_node_response(
    sender_id: PeerId,
    message_id: [u8; 16],
    nodes: &[BucketEntry],
    seed: Option<&[u8; 32]>,
) -> (r: Vec<u8>)
    ensures
        is_message(
            r@,
            sender_id@,
            message_id@,
            DhtMsgType::FindNode,
            true,
            node_list(node_views(nodes@)),
            seed_view(seed),
        ),
{
    let payload: Vec<u8> = encode_node_list(nodes);
    encode_message(sender_id, message_id, DhtMsgType::FindNode, true, payload.as_slice(), seed)
}

/// A STORE response: the record was taken.
pub fn encode_store_ack(
    sender_id: PeerId,
    message_id: [u8; 16],
    seed: Option<&[u8; 32]>,
) -> (r: Vec<u8>)
    ensures
        is_message(
            r@,
            sender_id@,
            message_id@,
            DhtMsgType::Store,
            true,
            seq![0u8],
            seed_view(seed),
        ),
{
    let mut payload: Vec<u8> = Vec::new();
    payload.push(0);
    assert(payload@ =~= seq![0u8]);
    encode_message(sender_id, message_id, DhtMsgType::Store, true, payload.as_slice(), seed)
}

/// The code of an ERROR response to a request in another version of the protocol.
pub const UNSUPPORTED_VERSION: u8 = 1;

/// An ERROR response with a code.
pub fn encode_error_response(
    sender_id: PeerId,
    message_id: [u8; 16],
    code: u8,
    seed: Option<&[u8; 32]>,
) -> (r: Vec<u8>)
    ensures
        is_message(
            r@,
            sender_id@,
            message_id@,
            DhtMsgType::Error,
            true,
            seq![code],
            seed_view(seed),
        ),
{
    let mut payload: Vec<u8> = Vec::new();
    payload.push(code);
    assert(payload@ =~= seq![code]);
    encode_message(sender_id, message_id, DhtMsgType::Error, true, payload.as_slice(), seed)
}

/// A FIND_VALUE response with the record.
pub fn encode_find_value_response_with_record(
    sender_id: PeerId,
    message_id: [u8; 16],
    record: &PeerRecord,
    seed: Option<&[u8; 32]>,
) -> (r: Vec<u8>)
    ensures
        is_message(
            r@,
            sender_id@,
            message_id@,
            DhtMsgType::FindValue,
            true,
            found_payload(record@.record),
            seed_view(seed),
        ),
{
    let mut payload: Vec<u8> = Vec::new();
    payload.push(1);
    assert(payload@ =~= seq![1u8]);
    push_record(
        &mut payload,
        record.ttl_remaining,
        &record.pubkey,
        &record.noise_pubkey,
        record.capabilities,
        record.endpoints.as_slice(),
    );
    encode_message(sender_id, message_id, DhtMsgType::FindValue, true, payload.as_slice(), seed)
}

/// A FIND_VALUE response without the record: the nodes closest to the key.
pub fn encode_find_value_response_not_found(
    sender_id: PeerId,
    message_id: [u8; 16],
    nodes: &[BucketEntry],
    seed: Option<&[u8; 32]>,
) -> (r: Vec<u8>)
    ensures
        is_message(
            r@,
            sender_id@,
            message_id@,
            DhtMsgType::FindValue,
            true,
            not_found_payload(node_views(nodes@)),
            seed_view(seed),
        ),
{
    let mut payload: Vec<u8> = Vec::new();
    payload.push(0);
    assert(payload@ =~= seq![0u8]);
    push_node_list(&mut payload, nodes);
    encode_message(sender_id, message_id, DhtMsgType::FindValue, true, payload.as_slice(), seed)
}

/// An ADDR_REFLECT request.
pub fn encode_addr_reflect_request(sender_id: PeerId, message_id: [u8; 16]) -> (r: Vec<u8>)
    ensures
        is_message(
            r@,
            sender_id@,
            message_id@,
            DhtMsgType::AddrReflect,
            false,
            Seq::<u8>::empty(),
            None,
        ),
{
    let payload: Vec<u8> = Vec::new();
    encode_message(sender_id, message_id, DhtMsgType::AddrReflect, false, payload.as_slice(), None)
}

/// An ADDR_REFLECT response: the address that the request came from.
pub fn encode_addr_reflect_response(
    sender_id: PeerId,
    message_id: [u8; 16],
    observed_addr: &SocketAddr,
    seed: Option<&[u8; 32]>,
) -> (r: Vec<u8>)
    ensures
        is_message(
            r@,
            sender_id@,
            message_id@,
            DhtMsgType::AddrReflect,
            true,
            endpoint::address_bytes(observed_addr@),
            seed_view(seed),
        ),
{
    let mut payload: Vec<u8> = Vec::new();
    encode_address(&mut payload, observed_addr);
    assert(payload@ =~= endpoint::address_bytes(observed_addr@));
    encode_message(sender_id, message_id, DhtMsgType::AddrReflect, true, payload.as_slice(), seed)
}

/// A RELAY_NEEDED request.
pub fn encode_relay_needed_request(sender_id: PeerId, message_id: [u8; 16]) -> (r: Vec<u8>)
    ensures
        is_message(
            r@,
            sender_id@,
            message_id@,
            DhtMsgType::RelayNeeded,
            false,
            Seq::<u8>::empty(),
            None,
        ),
{
    let payload: Vec<u8> = Vec::new();
    encode_message(sender_id, message_id, DhtMsgType::RelayNeeded, false, payload.as_slice(), None)
}

/// A RELAY_NEEDED response: nodes that may relay.
pub fn encode_relay_needed_response(
    sender_id: PeerId,
    message_id: [u8; 16],
    relays: &[BucketEntry],
    seed: Option<&[u8; 32]>,
) -> (r: Vec<u8>)
    ensures
        is_message(
            r@,
            sender_id@,
            message_id@,
            DhtMsgType::RelayNeeded,
            true,
            node_list(node_views(relays@)),
            seed_view(seed),
        ),
{
    let payload: Vec<u8> = encode_node_list(relays);
    encode_message(sender_id, message_id, DhtMsgType::RelayNeeded, true, payload.as_slice(), seed)
}

/// Reading a message that was written gives back every part of it, and the
/// signature covers exactly the bytes before it. The payload must fit the three
/// bytes of its length.
pub proof fn law_message_roundtrip(
    sender: Seq<u8>,
    message_id: Seq<u8>,
    msg_type: DhtMsgType,
    is_response: bool,
    payload: Seq<u8>,
    seed: Option<Seq<u8>>,
)
    requires
        sender.len() == 32,
        message_id.len() == 16,
        payload.len() < 0x100_0000,
    ensures
        ({
            let data = message_bytes(sender, message_id, msg_type, is_response, payload, seed);
            let body = message_body(sender, message_id, msg_type, is_response, payload);
            &&& decoded(data) == Some(
                written(sender, message_id, msg_type, is_response, payload, seed),
            )
            &&& data.subrange(0, data.len() - 64) == body
        }),
{
    let data = message_bytes(sender, message_id, msg_type, is_response, payload, seed);
    let body = message_body(sender, message_id, msg_type, is_response, payload);
    let sig = signature_of(seed, body);
    assert(sig.len() == 64);
    bytes::lemma_pow256();
    bytes::lemma_be_nat_of_bytes(payload.len(), 3);
    assert(data.subrange(1, 17) =~= message_id);
    assert(data.subrange(18, 50) =~= sender);
    assert(data.subrange(50, 53) =~= bytes::be_bytes(payload.len(), 3));
    let end = 53 + payload.len() as int;
    assert(data.subrange(53, end) =~= payload);
    assert(data.subrange(end, end + 64) =~= sig);
    assert(data.subrange(0, data.len() - 64) =~= body);
}

/// The endpoints behind some other bytes are read back.
proof fn lemma_endpoints_roundtrip(pre: Seq<u8>, eps: Seq<EndpointView>, rest: Seq<u8>)
    requires
        forall|i: int| 0 <= i < eps.len() ==> (#[trigger] eps[i]).addr.on_wire(),
    ensures
        endpoints_at(
            pre + endpoints_bytes(eps) + rest,
            pre.len() as int,
            (pre.len() + endpoints_bytes(eps).len()) as int,
        ) == eps,
    decreases eps.len(),
{
    let s = pre + endpoints_bytes(eps) + rest;
    if eps.len() > 0 {
        let e = eps[0];
        let more = eps.drop_first();
        let item = endpoint_bytes(e);
        let addr = endpoint::address_bytes(e.addr);
        let tail = seq![e.kind.spec_code()] + bytes::be_bytes(e.ttl_seconds as nat, 4)
            + endpoints_bytes(more) + rest;
        assert forall|i: int| 0 <= i < more.len() implies (#[trigger] more[i]).addr.on_wire() by {
            assert(more[i] == eps[i + 1]);
        }
        endpoint::law_address_roundtrip(pre, e.addr, tail);
        assert(s =~= pre + addr + tail);
        bytes::lemma_pow256();
        bytes::lemma_be_nat_of_bytes(e.ttl_seconds as nat, 4);
        let next = (pre.len() + addr.len()) as int;
        assert(s[next] == e.kind.spec_code());
        assert(s.subrange(next + 1, next + 5) =~= bytes::be_bytes(e.ttl_seconds as nat, 4));
        lemma_endpoints_roundtrip(pre + item, more, rest);
        assert(pre + item + endpoints_bytes(more) + rest =~= s);
        assert(seq![e] + more =~= eps);
    } else {
        assert(eps =~= Seq::empty());
    }
}

/// Reading endpoints that were written gives the endpoints, whatever follows.
pub proof fn law_endpoints_roundtrip(eps: Seq<EndpointView>, rest: Seq<u8>)
    requires
        forall|i: int| 0 <= i < eps.len() ==> (#[trigger] eps[i]).addr.on_wire(),
    ensures
        parsed_endpoints(endpoints_bytes(eps) + rest, endpoints_bytes(eps).len()) == eps,
{
    let none = Seq::<u8>::empty();
    lemma_endpoints_roundtrip(none, eps, rest);
    assert(none + endpoints_bytes(eps) + rest =~= endpoints_bytes(eps) + rest);
}

/// Reading a record that was written gives the record. The endpoints must fit
/// the two bytes of their length.
pub proof fn law_record_roundtrip(r: RecordView)
    requires
        r.pubkey.len() == 32,
        r.noise_pubkey.len() == 32,
        forall|i: int| 0 <= i < r.endpoints.len() ==> (#[trigger] r.endpoints[i]).addr.on_wire(),
        endpoints_bytes(r.endpoints).len() < 0x1_0000,
    ensures
        parsed_record(record_bytes(r)) == Some(r),
{
    let s = record_bytes(r);
    let e = endpoints_bytes(r.endpoints);
    bytes::lemma_pow256();
    bytes::lemma_be_nat_of_bytes(r.ttl_remaining as nat, 4);
    bytes::lemma_be_nat_of_bytes(e.len(), 2);
    assert(s.subrange(0, 4) =~= bytes::be_bytes(r.ttl_remaining as nat, 4));
    assert(s.subrange(4, 36) =~= r.pubkey);
    assert(s.subrange(36, 68) =~= r.noise_pubkey);
    assert(s.subrange(69, 71) =~= bytes::be_bytes(e.len(), 2));
    assert(s.skip(71) =~= e + Seq::<u8>::empty());
    law_endpoints_roundtrip(r.endpoints, Seq::empty());
}

/// A node as the wire has it: without the flow label and the scope of an IPv6 address.
pub open spec fn on_the_wire(node: (Seq<u8>, AddrView)) -> (Seq<u8>, AddrView) {
    (node.0, node.1.ip_at(node.1.port()))
}

proof fn lemma_nodes_bytes_wire(nodes: Seq<(Seq<u8>, AddrView)>)
    ensures
        nodes_bytes(nodes.map_values(|n: (Seq<u8>, AddrView)| on_the_wire(n))) == nodes_bytes(
            nodes,
        ),
    decreases nodes.len(),
{
    let w = nodes.map_values(|n: (Seq<u8>, AddrView)| on_the_wire(n));
    if nodes.len() > 0 {
        lemma_nodes_bytes_wire(nodes.drop_first());
        assert(w.drop_first() =~= nodes.drop_first().map_values(
            |n: (Seq<u8>, AddrView)| on_the_wire(n),
        ));
    }
}

/// Reading a list that was written of any nodes gives the first 255 of them, as the
/// wire has them.
pub proof fn lemma_node_list_read(nodes: Seq<(Seq<u8>, AddrView)>)
    requires
        forall|i: int| 0 <= i < nodes.len() ==> (#[trigger] nodes[i]).0.len() == 32,
        forall|i: int|
            0 <= i < nodes.len() ==> on_the_wire(#[trigger] nodes[i]).1.on_wire(),
    ensures
        parsed_nodes(node_list(nodes)) == Some(
            listed(nodes).map_values(|n: (Seq<u8>, AddrView)| on_the_wire(n)),
        ),
        node_list(nodes).len() < 0x1_0000,
{
    let l = listed(nodes);
    let w = l.map_values(|n: (Seq<u8>, AddrView)| on_the_wire(n));
    lemma_nodes_bytes_wire(l);
    assert(listed(w) =~= w);
    assert(node_list(w) == node_list(nodes));
    assert forall|i: int| 0 <= i < w.len() implies (#[trigger] w[i]).0.len() == 32
        && w[i].1.on_wire() by {
        assert(l[i] == nodes[i]);
    }
    law_node_list_roundtrip(w);
    lemma_nodes_bytes_len(w);
}

proof fn lemma_nodes_bytes_len(nodes: Seq<(Seq<u8>, AddrView)>)
    requires
        forall|i: int| 0 <= i < nodes.len() ==> (#[trigger] nodes[i]).0.len() == 32,
        forall|i: int| 0 <= i < nodes.len() ==> (#[trigger] nodes[i]).1.on_wire(),
    ensures
        nodes_bytes(nodes).len() <= 51 * nodes.len(),
    decreases nodes.len(),
{
    if nodes.len() > 0 {
        let more = nodes.drop_first();
        assert forall|i: int| 0 <= i < more.len() implies (#[trigger] more[i]).0.len() == 32
            && more[i].1.on_wire() by {
            assert(more[i] == nodes[i + 1]);
        }
        lemma_nodes_bytes_len(more);
        bytes::lemma_be_bytes_len(nodes[0].1.port() as nat, 2);
    }
}

/// A message of the directory has, from its first byte on, the version 1, the message id in
/// sixteen bytes, the number of its type with the highest bit set in a response, the sender
/// in 32 bytes, the length of its payload in three, and the payload; and then a signature
/// in 64, of all bytes before it where there is a key to sign with, and zero otherwise.
pub proof fn law_message_layout(
    sender: Seq<u8>,
    message_id: Seq<u8>,
    msg_type: DhtMsgType,
    is_response: bool,
    payload: Seq<u8>,
    seed: Option<Seq<u8>>,
)
    requires
        sender.len() == 32,
        message_id.len() == 16,
        payload.len() < 0x100_0000,
    ensures
        ({
            let d = message_bytes(sender, message_id, msg_type, is_response, payload, seed);
            let n = 53 + payload.len() as int;
            let number: int = match msg_type {
                DhtMsgType::Ping => 0,
                DhtMsgType::Store => 1,
                DhtMsgType::FindValue => 2,
                DhtMsgType::FindNode => 3,
                DhtMsgType::RelayNeeded => 4,
                DhtMsgType::Error => 5,
                DhtMsgType::AddrReflect => 6,
            };
            &&& d.len() == n + 64
            &&& d[0] == 1
            &&& d.subrange(1, 17) == message_id
            &&& d[17] == if is_response {
                128 + number
            } else {
                number
            }
            &&& d.subrange(18, 50) == sender
            &&& bytes::be_nat(d.subrange(50, 53)) == payload.len()
            &&& d.subrange(53, n) == payload
            &&& seed matches Some(s) ==> d.subrange(n, n + 64) == primitives::ed25519_signature(
                s,
                d.subrange(0, n),
            )
            &&& seed is None ==> forall|i: int| n <= i < n + 64 ==> #[trigger] d[i] == 0
        }),
{
    let d = message_bytes(sender, message_id, msg_type, is_response, payload, seed);
    let body = message_body(sender, message_id, msg_type, is_response, payload);
    let n = 53 + payload.len() as int;
    bytes::lemma_pow256();
    bytes::lemma_be_nat_of_bytes(payload.len(), 3);
    bytes::lemma_be_bytes_len(payload.len(), 3);
    assert(signature_of(seed, body).len() == 64);
    assert(d.subrange(1, 17) =~= message_id);
    assert(d.subrange(18, 50) =~= sender);
    assert(d.subrange(50, 53) =~= bytes::be_bytes(payload.len(), 3));
    assert(d.subrange(53, n) =~= payload);
    assert(d.subrange(0, n) =~= body);
    assert(d.subrange(n, n + 64) =~= signature_of(seed, body));
    if seed is None {
        assert forall|i: int| n <= i < n + 64 implies #[trigger] d[i] == 0 by {
            assert(d.subrange(n, n + 64)[i - n] == d[i]);
        }
    }
}

/// Bytes are read as a message exactly where they are 53 at least, start with the version
/// 1, name one of the seven types and hold all of the payload that they announce.
pub proof fn law_message_read(data: Seq<u8>)
    ensures
        decoded(data) is Some <==> data.len() >= 53 && data[0] == 1 && data[17] % 128 <= 6
            && data.len() >= 53 + bytes::be_nat(data.subrange(50, 53)),
        decoded(data) matches Some(m) ==> m.message_id == data.subrange(1, 17) && m.sender_id
            == data.subrange(18, 50) && (m.is_response <==> data[17] >= 128) && m.payload
            == data.subrange(53, 53 + bytes::be_nat(data.subrange(50, 53)) as int) && (m.signature is Some
            <==> data.len() >= 117 + bytes::be_nat(data.subrange(50, 53))),
{
}

/// A list of nodes starts with how many there are, and for each has 32 bytes, and then a 0
/// and four bytes of an IPv4 address or a 1 and sixteen of an IPv6 address, and its port
/// in two bytes. Of more than 255 nodes the first 255 are listed.
pub proof fn law_node_list_layout(nodes: Seq<(Seq<u8>, AddrView)>)
    requires
        nodes.len() > 0,
        nodes[0].0.len() == 32,
        nodes[0].1.on_wire(),
    ensures
        ({
            let d = node_list(nodes);
            &&& d[0] == if nodes.len() < 255 {
                nodes.len()
            } else {
                255
            }
            &&& d.subrange(1, 33) == nodes[0].0
            &&& match nodes[0].1 {
                AddrView::V4 { octets, port } => d[33] == 0 && d.subrange(34, 38) == octets
                    && bytes::be_nat(d.subrange(38, 40)) == port,
                AddrView::V6 { octets, port, flowinfo, scope_id } => d[33] == 1 && d.subrange(
                    34,
                    50,
                ) == octets && bytes::be_nat(d.subrange(50, 52)) == port,
            }
        }),
{
    let d = node_list(nodes);
    let l = listed(nodes);
    let p = nodes[0].1.port() as nat;
    bytes::lemma_pow256();
    bytes::lemma_be_nat_of_bytes(p, 2);
    bytes::lemma_be_bytes_len(p, 2);
    assert(l[0] == nodes[0]);
    let item = nodes[0].0 + endpoint::address_bytes(nodes[0].1);
    assert(d =~= seq![l.len() as u8] + item + nodes_bytes(l.drop_first()));
    assert(d.subrange(1, 33) =~= nodes[0].0);
    match nodes[0].1 {
        AddrView::V4 { octets, port } => {
            assert(d.subrange(34, 38) =~= octets);
            assert(d.subrange(38, 40) =~= bytes::be_bytes(p, 2));
        },
        AddrView::V6 { octets, port, flowinfo, scope_id } => {
            assert(d.subrange(34, 50) =~= octets);
            assert(d.subrange(50, 52) =~= bytes::be_bytes(p, 2));
        },
    }
}

/// A record has its time to live in four bytes, its two keys, its capabilities, the length
/// of its endpoints in two bytes, and these. In a STORE the key stands before it, and in the
/// answer to a FIND_VALUE a 1; where there is no record, a 0 and the closest nodes.
pub proof fn law_record_layout(key: Seq<u8>, r: RecordView, nodes: Seq<(Seq<u8>, AddrView)>)
    requires
        key.len() == 32,
        r.pubkey.len() == 32,
        r.noise_pubkey.len() == 32,
        endpoints_bytes(r.endpoints).len() < 0x1_0000,
        r.endpoints.len() > 0 ==> r.endpoints[0].addr.on_wire(),
    ensures
        ({
            let d = record_bytes(r);
            let e = d.skip(71);
            &&& d.len() >= 71
            &&& bytes::be_nat(d.subrange(0, 4)) == r.ttl_remaining
            &&& d.subrange(4, 36) == r.pubkey
            &&& d.subrange(36, 68) == r.noise_pubkey
            &&& d[68] == r.capabilities
            &&& bytes::be_nat(d.subrange(69, 71)) == e.len()
            &&& r.endpoints.len() == 0 ==> e.len() == 0
            &&& r.endpoints.len() > 0 ==> match r.endpoints[0].addr {
                AddrView::V4 { octets, port } => e[0] == 0 && e.subrange(1, 5) == octets
                    && bytes::be_nat(e.subrange(5, 7)) == port && e[7]
                    == r.endpoints[0].kind.spec_code() && bytes::be_nat(e.subrange(8, 12))
                    == r.endpoints[0].ttl_seconds,
                AddrView::V6 { octets, port, flowinfo, scope_id } => e[0] == 1 && e.subrange(1, 17)
                    == octets && bytes::be_nat(e.subrange(17, 19)) == port && e[19]
                    == r.endpoints[0].kind.spec_code() && bytes::be_nat(e.subrange(20, 24))
                    == r.endpoints[0].ttl_seconds,
            }
            &&& store_payload(key, r).subrange(0, 32) == key
            &&& store_payload(key, r).skip(32) == d
            &&& found_payload(r)[0] == 1
            &&& found_payload(r).skip(1) == d
            &&& not_found_payload(nodes)[0] == 0
            &&& not_found_payload(nodes).skip(1) == node_list(nodes)
        }),
{
    let d = record_bytes(r);
    let e = endpoints_bytes(r.endpoints);
    bytes::lemma_pow256();
    bytes::lemma_be_nat_of_bytes(r.ttl_remaining as nat, 4);
    bytes::lemma_be_nat_of_bytes(e.len(), 2);
    bytes::lemma_be_bytes_len(r.ttl_remaining as nat, 4);
    bytes::lemma_be_bytes_len(e.len(), 2);
    assert(d.subrange(0, 4) =~= bytes::be_bytes(r.ttl_remaining as nat, 4));
    assert(d.subrange(4, 36) =~= r.pubkey);
    assert(d.subrange(36, 68) =~= r.noise_pubkey);
    assert(d.subrange(69, 71) =~= bytes::be_bytes(e.len(), 2));
    assert(d.skip(71) =~= e);
    assert(store_payload(key, r).subrange(0, 32) =~= key);
    assert(store_payload(key, r).skip(32) =~= d);
    assert(found_payload(r).skip(1) =~= d);
    assert(not_found_payload(nodes).skip(1) =~= node_list(nodes));
    if r.endpoints.len() > 0 {
        let x = r.endpoints[0];
        let p = x.addr.port() as nat;
        let ttl = x.ttl_seconds as nat;
        bytes::lemma_be_nat_of_bytes(p, 2);
        bytes::lemma_be_bytes_len(p, 2);
        bytes::lemma_be_nat_of_bytes(ttl, 4);
        bytes::lemma_be_bytes_len(ttl, 4);
        lemma_endpoints_bytes_first(r.endpoints);
        let item = endpoint_bytes(x);
        assert(e.subrange(0, item.len() as int) == item);
        match x.addr {
            AddrView::V4 { octets, port } => {
                assert(item.len() == 12);
                assert(e.subrange(1, 5) =~= item.subrange(1, 5));
                assert(e.subrange(5, 7) =~= item.subrange(5, 7));
                assert(e.subrange(8, 12) =~= item.subrange(8, 12));
                assert(item.subrange(1, 5) =~= octets);
                assert(item.subrange(5, 7) =~= bytes::be_bytes(p, 2));
                assert(item.subrange(8, 12) =~= bytes::be_bytes(ttl, 4));
                assert(e[0] == item[0] && e[7] == item[7]);
            },
            AddrView::V6 { octets, port, flowinfo, scope_id } => {
                assert(item.len() == 24);
                assert(e.subrange(1, 17) =~= item.subrange(1, 17));
                assert(e.subrange(17, 19) =~= item.subrange(17, 19));
                assert(e.subrange(20, 24) =~= item.subrange(20, 24));
                assert(item.subrange(1, 17) =~= octets);
                assert(item.subrange(17, 19) =~= bytes::be_bytes(p, 2));
                assert(item.subrange(20, 24) =~= bytes::be_bytes(ttl, 4));
                assert(e[0] == item[0] && e[19] == item[19]);
            },
        }
    }
}

proof fn lemma_endpoints_bytes_first(eps: Seq<EndpointView>)
    requires
        eps.len() > 0,
    ensures
        ({
            let n = endpoint_bytes(eps[0]).len() as int;
            n <= endpoints_bytes(eps).len() && endpoints_bytes(eps).subrange(0, n)
                == endpoint_bytes(eps[0])
        }),
    decreases eps.len(),
{
    let n = endpoint_bytes(eps[0]).len() as int;
    if eps.len() > 1 {
        lemma_endpoints_bytes_first(eps.drop_last());
    }
    assert(endpoints_bytes(eps).subrange(0, n) =~= endpoint_bytes(eps[0]));
}

} // verus!
