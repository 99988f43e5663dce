//! A node of the distributed hash table: what it keeps, and how it answers.
//!
//! A node does no input or output of its own. Whoever runs it hands it what came
//! in and the time, and sends what it gives back.
use crate::bytes;
use crate::bytes::{all_zero, array_at, read_u16, read_u32};
use crate::capabilities::Capabilities;
use crate::dht::answers;
use crate::dht::error::{DhtError, DhtErrorView};
use crate::dht::message;
use crate::dht::message::{
    decode_message, encode_addr_reflect_response, encode_error_response,
    encode_find_node_request_signed, encode_find_node_response, encode_find_value_request_signed,
    encode_find_value_response_not_found, encode_find_value_response_with_record,
    encode_ping_request_signed, encode_ping_response, encode_relay_needed_response,
    encode_store_ack, encode_store_request_signed, foreign_request_id, parse_endpoints,
    parse_nodes_from_payload, parse_record_from_payload, UNSUPPORTED_VERSION,
};
use crate::dht::pending::PendingQueries;
use crate::dht::record;
use crate::dht::record::{expiry_after, KeptRecordView, PeerRecord};
use crate::dht::routing;
use crate::dht::routing::{nodes_without, BucketEntry, RoutingTable};
use crate::directory;
use crate::directory::{DhtEvent, DhtMessage, DhtMsgType, MessageView, RecordView, RelayInfo};
use crate::endpoint;
use crate::endpoint::{copy_endpoints, AddrView, Endpoint, EndpointView, SocketAddr};
use crate::peer;
use crate::peer::PeerId;
use crate::peer_map::PeerMap;
use crate::primitives;
use crate::primitives::{ed25519_is_key, ed25519_verify, random_16, sha256_digest};
use crate::{DHT_ALPHA, DHT_HEARTBEAT_SECS, DHT_K, DHT_REPUBLISH_SECS, DHT_TTL_SECS};
use vstd::prelude::*;

verus! {

/// How a node is set up.
#[derive(Debug)]
pub struct DhtConfig {
    pub k: usize,
    pub alpha: usize,
    pub ttl_seconds: u32,
    pub heartbeat_interval_secs: u64,
    pub republish_interval_secs: u64,
    pub idle_peer_timeout_secs: u64,
    pub local_addr: SocketAddr,
    pub bootstrap_nodes: Vec<SocketAddr>,
}

impl Default for DhtConfig {
    /// The protocol's parameters, any address and no bootstrap nodes.
    fn default() -> (r: Self)
        ensures
            r.k == 20,
            r.alpha == 3,
            r.ttl_seconds == 300,
            r.heartbeat_interval_secs == 150,
            r.republish_interval_secs == 3600,
            r.idle_peer_timeout_secs == 900,
            r.local_addr@ == (AddrView::V4 { octets: seq![0u8, 0u8, 0u8, 0u8], port: 0 }),
            r.bootstrap_nodes@ == Seq::<SocketAddr>::empty(),
    {
        DhtConfig {
            k: DHT_K,
            alpha: DHT_ALPHA,
            ttl_seconds: DHT_TTL_SECS,
            heartbeat_interval_secs: DHT_HEARTBEAT_SECS,
            republish_interval_secs: DHT_REPUBLISH_SECS,
            idle_peer_timeout_secs: 900,
            local_addr: SocketAddr::v4(0, 0, 0, 0, 0),
            bootstrap_nodes: Vec::new(),
        }
    }
}

/// What a node keeps.
#[verifier::ext_equal]
pub struct NodeState {
    pub id: Seq<u8>,
    pub k: nat,
    pub alpha: nat,
    pub ttl: u32,
    pub seed: Option<Seq<u8>>,
    pub buckets: Seq<Seq<BucketEntry>>,
    pub records: Map<Seq<u8>, KeptRecordView>,
    pub limits: Map<Seq<u8>, (u64, u32)>,
    pub pending: Set<Seq<u8>>,
}

/// A message to be sent.
#[derive(Debug)]
pub struct Outgoing {
    pub data: Vec<u8>,
    pub to: SocketAddr,
}

/// What came of a message: messages to be sent, events, and the answer to a
/// query that was waited for.
#[derive(Debug)]
pub struct Outcome {
    pub outgoing: Vec<Outgoing>,
    pub events: Vec<DhtEvent>,
    pub answer: Option<([u8; 16], Option<PeerRecord>)>,
}

/// An event as a value.
pub enum EventView {
    PeerDiscovered(Seq<u8>, RecordView),
    PeerExpired(Seq<u8>),
    PeerUpdated(Seq<u8>, RecordView),
    RoutingTableChanged,
}

/// The view of an event.
pub open spec fn event_view(e: DhtEvent) -> EventView {
    match e {
        DhtEvent::PeerDiscovered(id, r) => EventView::PeerDiscovered(id@, r@),
        DhtEvent::PeerExpired(id) => EventView::PeerExpired(id@),
        DhtEvent::PeerUpdated(id, r) => EventView::PeerUpdated(id@, r@),
        DhtEvent::RoutingTableChanged => EventView::RoutingTableChanged,
    }
}

/// What came of a message, as a value.
#[verifier::ext_equal]
pub struct OutcomeView {
    pub outgoing: Seq<(Seq<u8>, AddrView)>,
    pub events: Seq<EventView>,
    pub answer: Option<(Seq<u8>, Option<KeptRecordView>)>,
}

/// The messages to be sent, as values.
pub open spec fn outgoing_views(s: Seq<Outgoing>) -> Seq<(Seq<u8>, AddrView)> {
    s.map_values(|o: Outgoing| (o.data@, o.to@))
}

impl View for Outcome {
    type V = OutcomeView;

    open spec fn view(&self) -> OutcomeView {
        OutcomeView {
            outgoing: outgoing_views(self.outgoing@),
            events: self.events@.map_values(|e: DhtEvent| event_view(e)),
            answer: match self.answer {
                None => None,
                Some((id, None)) => Some((id@, None)),
                Some((id, Some(r))) => Some((id@, Some(r@))),
            },
        }
    }
}

/// Nothing came of it.
pub open spec fn nothing() -> OutcomeView {
    OutcomeView { outgoing: Seq::empty(), events: Seq::empty(), answer: None }
}

/// One message is to be sent.
pub open spec fn one_message(data: Seq<u8>, to: AddrView) -> OutcomeView {
    OutcomeView { outgoing: seq![(data, to)], events: Seq::empty(), answer: None }
}

impl Outcome {
    /// Nothing came of it.
    fn none() -> (r: Self)
        ensures
            r@ == nothing(),
    {
        let r: Outcome = Outcome { outgoing: Vec::new(), events: Vec::new(), answer: None };
        assert(r@ =~= nothing());
        r
    }

    /// One message is to be sent.
    fn reply(data: Vec<u8>, to: SocketAddr) -> (r: Self)
        ensures
            r@ == one_message(data@, to@),
    {
        let mut r: Outcome = Outcome::none();
        r.outgoing.push(Outgoing { data, to });
        assert(r@ =~= one_message(data@, to@));
        r
    }
}

/// How many messages a sender may send in a window of a second.
pub const RATE_LIMIT: u32 = 20;

/// The rate limits after a request from a sender at some moment, and whether the
/// request may pass. A window starts with a sender's first request, and anew
/// when more than a second has passed; twenty requests pass in each.
pub open spec fn rate_step(limits: Map<Seq<u8>, (u64, u32)>, sender: Seq<u8>, now: u64) -> (
    Map<Seq<u8>, (u64, u32)>,
    bool,
) {
    let (start, count): (u64, u32) = if limits.dom().contains(sender) {
        limits[sender]
    } else {
        (now, 0u32)
    };
    if now - start > 1000 {
        (limits.insert(sender, (now, 1u32)), true)
    } else if count >= RATE_LIMIT {
        (limits, false)
    } else {
        (limits.insert(sender, (start, (count + 1) as u32)), true)
    }
}

/// What is known of a signature.
#[derive(Clone, Copy, Debug, PartialEq, Eq, Structural)]
pub enum SignatureStatus {
    /// It holds under the sender's key.
    Valid,
    /// It does not hold under the sender's key.
    Invalid,
    /// There is no key to check it with.
    Unknown,
}

/// What is known of the signature of a message over a body: the key is that of
/// the record that the node keeps of the sender, or, where there is none, the
/// one that a STORE request brings.
pub open spec fn signature_status(
    records: Map<Seq<u8>, KeptRecordView>,
    m: MessageView,
    body: Seq<u8>,
) -> SignatureStatus {
    match m.signature {
        None => SignatureStatus::Unknown,
        Some(sig) => {
            let known = records.dom().contains(m.sender_id) && primitives::ed25519_key_valid(
                records[m.sender_id].record.pubkey,
            );
            let brought = m.payload.subrange(36, 68);
            if known {
                if primitives::ed25519_verifies(records[m.sender_id].record.pubkey, body, sig) {
                    SignatureStatus::Valid
                } else {
                    SignatureStatus::Invalid
                }
            } else if m.msg_type == DhtMsgType::Store && !m.is_response && m.payload.len() >= 101
                && primitives::ed25519_key_valid(brought) {
                if primitives::ed25519_verifies(brought, body, sig) {
                    SignatureStatus::Valid
                } else {
                    SignatureStatus::Invalid
                }
            } else {
                SignatureStatus::Unknown
            }
        },
    }
}

/// Whether a message bears a signature that is not all zero.
pub open spec fn is_signed(m: MessageView) -> bool {
    match m.signature {
        None => false,
        Some(sig) => exists|i: int| 0 <= i < sig.len() && #[trigger] sig[i] != 0,
    }
}

/// Whether a message bears a signature that is all zero.
pub open spec fn has_zero_signature(m: MessageView) -> bool {
    match m.signature {
        None => false,
        Some(sig) => forall|i: int| 0 <= i < sig.len() ==> #[trigger] sig[i] == 0,
    }
}

/// What is done with a message once its signature was looked at.
pub enum Admission {
    /// It is taken.
    Taken,
    /// It is left out silently.
    Dropped,
    /// It is refused for its signature.
    Refused,
}

/// What is done with a message. A signed request is refused where the signature
/// does not hold, and a STORE request also where it cannot be checked. A signed
/// FIND_VALUE response is left out unless the signature holds, and an unsigned
/// one unless it answers a query of the node.
pub open spec fn admission(st: NodeState, m: MessageView, body: Seq<u8>) -> Admission {
    let status = signature_status(st.records, m, body);
    if !m.is_response {
        if !is_signed(m) || status == SignatureStatus::Valid {
            Admission::Taken
        } else if status == SignatureStatus::Invalid || m.msg_type == DhtMsgType::Store {
            Admission::Refused
        } else {
            Admission::Taken
        }
    } else if m.msg_type == DhtMsgType::FindValue {
        if is_signed(m) {
            if status == SignatureStatus::Valid {
                Admission::Taken
            } else {
                Admission::Dropped
            }
        } else if has_zero_signature(m) && !st.pending.contains(m.message_id) {
            Admission::Dropped
        } else {
            Admission::Taken
        }
    } else {
        Admission::Taken
    }
}

/// The node after it took note of another.
pub open spec fn with_node(st: NodeState, id: Seq<u8>, addr: AddrView, now: u64) -> NodeState {
    NodeState {
        buckets: routing::table_insert(
            st.buckets,
            st.id,
            st.k,
            routing::entry_of(id, addr, now),
        ).0,
        ..st
    }
}

/// The node after it took note of others, one after the other.
pub open spec fn with_nodes(st: NodeState, nodes: Seq<(Seq<u8>, AddrView)>, now: u64) -> NodeState
    decreases nodes.len(),
{
    if nodes.len() == 0 {
        st
    } else {
        with_nodes(with_node(st, nodes[0].0, nodes[0].1, now), nodes.drop_first(), now)
    }
}

/// The node after it took note of the nodes that a payload lists, if it lists
/// any.
pub open spec fn with_listed_nodes(st: NodeState, payload: Seq<u8>, now: u64) -> NodeState {
    match message::parsed_nodes(payload) {
        None => st,
        Some(nodes) => with_nodes(st, nodes, now),
    }
}

/// The `k` nodes that the node knows closest to a target, as values.
pub open spec fn closest_known(st: NodeState, target: Seq<u8>, count: nat) -> Seq<
    (Seq<u8>, AddrView),
> {
    message::node_views(routing::closest(routing::concat(st.buckets), target, count))
}

/// The time to live that a record is kept for: what was asked for, from a second
/// to an hour, and five minutes otherwise.
pub open spec fn effective_ttl(ttl: u32) -> u32 {
    if ttl == 0 || ttl > 3600 {
        300
    } else {
        ttl
    }
}

/// The record that a STORE request brings.
pub open spec fn stored_record(payload: Seq<u8>) -> RecordView {
    RecordView {
        pubkey: payload.subrange(36, 68),
        noise_pubkey: payload.subrange(68, 100),
        endpoints: if payload.len() >= 103 {
            message::parsed_endpoints(payload.skip(103), bytes::be_nat(payload.subrange(101, 103)))
        } else {
            Seq::empty()
        },
        capabilities: payload[100],
        ttl_remaining: effective_ttl(bytes::be_nat(payload.subrange(32, 36)) as u32),
    }
}

/// The message that answers a request.
pub open spec fn response(st: NodeState, m: MessageView, payload: Seq<u8>) -> Seq<u8> {
    message::message_bytes(st.id, m.message_id, m.msg_type, true, payload, st.seed)
}

/// At most eight nodes other than the node itself and the one that asked.
pub open spec fn relay_candidates(st: NodeState, sender: Seq<u8>) -> Seq<BucketEntry> {
    let others = routing::without(routing::concat(st.buckets), st.id, sender);
    if others.len() > 8 {
        others.subrange(0, 8)
    } else {
        others
    }
}

/// What a node does with a request.
pub open spec fn request_step(st: NodeState, m: MessageView, src: AddrView, now: u64) -> (
    NodeState,
    Result<OutcomeView, DhtErrorView>,
) {
    match m.msg_type {
        DhtMsgType::Ping => (
            st,
            Ok(
                one_message(
                    response(st, m, message::node_list(closest_known(st, m.sender_id, st.k))),
                    src,
                ),
            ),
        ),
        DhtMsgType::FindNode => (
            st,
            Ok(
                if m.payload.len() >= 32 {
                    one_message(
                        response(
                            st,
                            m,
                            message::node_list(closest_known(st, m.payload.subrange(0, 32), st.k)),
                        ),
                        src,
                    )
                } else {
                    nothing()
                },
            ),
        ),
        DhtMsgType::Store => store_step(st, m, src, now),
        DhtMsgType::FindValue => (
            st,
            Ok(
                if m.payload.len() >= 32 {
                    let key = m.payload.subrange(0, 32);
                    one_message(
                        response(
                            st,
                            m,
                            if st.records.dom().contains(key) && st.records[key].expires_at > now {
                                message::found_payload(st.records[key].record)
                            } else {
                                message::not_found_payload(closest_known(st, key, st.k))
                            },
                        ),
                        src,
                    )
                } else {
                    nothing()
                },
            ),
        ),
        DhtMsgType::AddrReflect => (
            st,
            Ok(one_message(response(st, m, endpoint::address_bytes(src)), src)),
        ),
        DhtMsgType::RelayNeeded => (
            st,
            Ok(
                one_message(
                    response(
                        st,
                        m,
                        message::node_list(
                            message::node_views(relay_candidates(st, m.sender_id)),
                        ),
                    ),
                    src,
                ),
            ),
        ),
        DhtMsgType::Error => (st, Ok(nothing())),
    }
}

/// What a node does with a STORE request. A record under a key that is not the
/// digest of its public key is refused; a request too short to hold a record is
/// acknowledged all the same.
pub open spec fn store_step(st: NodeState, m: MessageView, src: AddrView, now: u64) -> (
    NodeState,
    Result<OutcomeView, DhtErrorView>,
) {
    let ack = one_message(response(st, m, seq![0u8]), src);
    if m.payload.len() < 101 {
        (st, Ok(ack))
    } else {
        let key = m.payload.subrange(0, 32);
        let rec = stored_record(m.payload);
        if primitives::sha256(rec.pubkey) != key {
            (st, Err(DhtErrorView::InvalidSignature { peer_id: m.sender_id }))
        } else {
            (
                NodeState {
                    records: st.records.insert(
                        key,
                        KeptRecordView {
                            record: rec,
                            expires_at: record::expiry(now, rec.ttl_remaining),
                        },
                    ),
                    ..st
                },
                Ok(
                    OutcomeView {
                        outgoing: ack.outgoing,
                        events: seq![EventView::PeerDiscovered(key, rec)],
                        answer: None,
                    },
                ),
            )
        }
    }
}

/// The record that a FIND_VALUE response brings, if it brings one.
pub open spec fn answered_record(payload: Seq<u8>) -> Option<RecordView> {
    if payload.len() > 0 && payload[0] == 1 {
        message::parsed_record(payload.skip(1))
    } else {
        None
    }
}

/// What a node does with a response.
pub open spec fn response_step(st: NodeState, m: MessageView, now: u64) -> (
    NodeState,
    OutcomeView,
) {
    match m.msg_type {
        DhtMsgType::Ping => (with_listed_nodes(st, m.payload, now), nothing()),
        DhtMsgType::FindNode => (with_listed_nodes(st, m.payload, now), nothing()),
        DhtMsgType::FindValue => {
            let rec = answered_record(m.payload);
            let answer = if st.pending.contains(m.message_id) {
                Some(
                    (
                        m.message_id,
                        match rec {
                            None => None,
                            Some(r) => Some(
                                KeptRecordView {
                                    record: r,
                                    expires_at: record::expiry(now, r.ttl_remaining),
                                },
                            ),
                        },
                    ),
                )
            } else {
                None
            };
            let waiting = NodeState { pending: st.pending.remove(m.message_id), ..st };
            if m.payload.len() > 0 && m.payload[0] == 1 {
                (
                    waiting,
                    OutcomeView {
                        outgoing: Seq::empty(),
                        events: match rec {
                            None => Seq::empty(),
                            Some(r) => seq![
                                EventView::PeerDiscovered(primitives::sha256(r.pubkey), r),
                            ],
                        },
                        answer,
                    },
                )
            } else {
                (
                    with_listed_nodes(
                        waiting,
                        if m.payload.len() > 0 {
                            m.payload.skip(1)
                        } else {
                            Seq::empty()
                        },
                        now,
                    ),
                    OutcomeView { outgoing: Seq::empty(), events: Seq::empty(), answer },
                )
            }
        },
        _ => (st, nothing()),
    }
}

/// What a node does with bytes that hold no message that it can read: a request in
/// another version of the protocol gets an ERROR response, and anything else is an
/// error.
pub open spec fn unread_step(st: NodeState, data: Seq<u8>, src: AddrView) -> Result<
    OutcomeView,
    DhtErrorView,
> {
    if message::is_foreign_request(data) {
        Ok(
            one_message(
                message::message_bytes(
                    st.id,
                    data.subrange(1, 17),
                    DhtMsgType::Error,
                    true,
                    seq![message::UNSUPPORTED_VERSION],
                    st.seed,
                ),
                src,
            ),
        )
    } else {
        Err(DhtErrorView::Serialization("decode failed"@))
    }
}

/// What a node does with some bytes that came from an address. A request over the rate limit is left out. A message
/// that is let in makes the node take note of its sender before it is handled.
pub open spec fn incoming_step(st: NodeState, data: Seq<u8>, src: AddrView, now: u64) -> (
    NodeState,
    Result<OutcomeView, DhtErrorView>,
) {
    match message::decoded(data) {
        None => (st, unread_step(st, data, src)),
        Some(m) => {
            let (limits, passes) = rate_step(st.limits, m.sender_id, now);
            let limited = if m.is_response {
                st
            } else {
                NodeState { limits, ..st }
            };
            if !m.is_response && !passes {
                (limited, Ok(nothing()))
            } else {
                match admission(limited, m, data.subrange(0, data.len() - 64)) {
                    Admission::Dropped => (limited, Ok(nothing())),
                    Admission::Refused => (
                        limited,
                        Err(DhtErrorView::InvalidSignature { peer_id: m.sender_id }),
                    ),
                    Admission::Taken => {
                        let known = with_node(limited, m.sender_id, src, now);
                        if m.is_response {
                            let (after, outcome) = response_step(known, m, now);
                            (after, Ok(outcome))
                        } else {
                            request_step(known, m, src, now)
                        }
                    },
                }
            }
        },
    }
}

/// A node.
#[derive(Debug)]
pub struct DhtHandle {
    peer_id: PeerId,
    config: DhtConfig,
    routing_table: RoutingTable,
    peer_records: PeerMap<PeerRecord>,
    signing_key: Option<[u8; 32]>,
    pending_queries: PendingQueries,
    peer_ratelimit: PeerMap<(u64, u32)>,
}

/// The view of the outcome of a message, or of the error.
pub open spec fn result_view(r: Result<Outcome, DhtError>) -> Result<OutcomeView, DhtErrorView> {
    match r {
        Ok(o) => Ok(o@),
        Err(e) => Err(e@),
    }
}

impl DhtHandle {
    /// What the node keeps.
    pub closed spec fn state(&self) -> NodeState {
        NodeState {
            id: self.peer_id@,
            k: self.config.k as nat,
            alpha: self.config.alpha as nat,
            ttl: self.config.ttl_seconds,
            seed: match self.signing_key {
                Some(s) => Some(s@),
                None => None,
            },
            buckets: self.routing_table.bucket_views(),
            records: self.peer_records@.map_values(|r: PeerRecord| r@),
            limits: self.peer_ratelimit@,
            pending: self.pending_queries@,
        }
    }

    /// The parts of the node are in order and agree with one another.
    pub closed spec fn wf(&self) -> bool {
        &&& self.routing_table.wf()
        &&& self.routing_table.local() == self.peer_id@
        &&& self.routing_table.bucket_capacity() == self.config.k
        &&& self.peer_records.wf()
        &&& self.peer_ratelimit.wf()
        &&& self.pending_queries.wf()
    }

    /// A node that knows nothing yet.
    pub fn new(peer_id: PeerId, config: DhtConfig) -> (r: Self)
        requires
            256 * config.k <= usize::MAX,
        ensures
            r.wf(),
            r.state() == (NodeState {
                id: peer_id@,
                k: config.k as nat,
                alpha: config.alpha as nat,
                ttl: config.ttl_seconds,
                seed: None,
                buckets: Seq::new(256, |i: int| Seq::<BucketEntry>::empty()),
                records: Map::empty(),
                limits: Map::empty(),
                pending: Set::empty(),
            }),
    {
        let k: usize = config.k;
        let r: DhtHandle = DhtHandle {
            peer_id,
            config,
            routing_table: RoutingTable::new(peer_id, k),
            peer_records: PeerMap::new(),
            signing_key: None,
            pending_queries: PendingQueries::new(),
            peer_ratelimit: PeerMap::new(),
        };
        assert(r.state().records =~= Map::empty());
        r
    }

    /// Sets the secret key that the node signs its messages with.
    pub fn set_signer(&mut self, secret: [u8; 32])
        requires
            old(self).wf(),
        ensures
            final(self).wf(),
            final(self).state() == (NodeState { seed: Some(secret@), ..old(self).state() }),
    {
        self.signing_key = Some(secret);
    }

    /// Counts a request of a peer, and says whether it may pass.
    pub fn check_rate_limit(&mut self, peer_id: &PeerId, now: u64) -> (r: bool)
        requires
            old(self).wf(),
        ensures
            final(self).wf(),
            ({
                let (limits, passes) = rate_step(old(self).state().limits, peer_id@, now);
                &&& r == passes
                &&& final(self).state() == (NodeState { limits, ..old(self).state() })
            }),
    {
        let (start, count): (u64, u32) = match self.peer_ratelimit.get(peer_id) {
            Some(e) => *e,
            None => (now, 0),
        };
        if now > start && now - start > 1000 {
            let _ = self.peer_ratelimit.insert(*peer_id, (now, 1));
            true
        } else if count >= RATE_LIMIT {
            false
        } else {
            let _ = self.peer_ratelimit.insert(*peer_id, (start, count + 1));
            true
        }
    }

    /// Looks at the signature of a message over a body.
    fn verify_signature(&self, msg: &DhtMessage, body: &[u8]) -> (r: SignatureStatus)
        requires
            self.wf(),
        ensures
            r == signature_status(self.state().records, msg@, body@),
    {
        let sig: [u8; 64] = match msg.signature {
            None => {
                return SignatureStatus::Unknown;
            },
            Some(s) => s,
        };
        match self.peer_records.get(&msg.sender_id) {
            None => {},
            Some(rec) => {
                if ed25519_is_key(&rec.pubkey) {
                    if ed25519_verify(&rec.pubkey, body, &sig) {
                        return SignatureStatus::Valid;
                    } else {
                        return SignatureStatus::Invalid;
                    }
                }
            },
        }
        if msg.msg_type == DhtMsgType::Store && !msg.is_response && msg.payload.len() >= 101 {
            let brought: [u8; 32] = array_at(msg.payload.as_slice(), 36);
            if ed25519_is_key(&brought) {
                if ed25519_verify(&brought, body, &sig) {
                    return SignatureStatus::Valid;
                } else {
                    return SignatureStatus::Invalid;
                }
            }
        }
        SignatureStatus::Unknown
    }

    /// Whether a message bears a signature that is not all zero.
    fn signed(msg: &DhtMessage) -> (r: bool)
        ensures
            r == is_signed(msg@),
            msg.signature is Some ==> r == !has_zero_signature(msg@),
    {
        let sig: [u8; 64] = match msg.signature {
            None => {
                return false;
            },
            Some(s) => s,
        };
        let slice: &[u8] = sig.as_slice();
        let zero: bool = all_zero(slice);
        proof {
            let s = sig@;
            assert(slice@ == s);
            assert(msg@.signature == Some(s));
            if zero {
                assert forall|i: int| 0 <= i < s.len() implies #[trigger] s[i] == 0 by {
                    assert(slice@[i] == 0);
                }
            } else {
                let i = choose|i: int| 0 <= i < slice@.len() && slice@[i] != 0;
                assert(s[i] != 0);
                assert(exists|i: int| 0 <= i < s.len() && #[trigger] s[i] != 0);
                let m = msg@;
                assert(m.signature is Some);
                assert(m.signature->0 == s);
                assert(is_signed(m));
            }
        }
        !zero
    }

    /// Takes note of a node.
    pub fn add_node(&mut self, node_id: PeerId, address: SocketAddr, now: u64)
        requires
            old(self).wf(),
        ensures
            final(self).wf(),
            final(self).state() == with_node(old(self).state(), node_id@, address@, now),
    {
        let e: BucketEntry = BucketEntry { node_id, address, last_seen: now };
        proof {
            routing::lemma_entry_of(e);
        }
        let _ = self.routing_table.insert_or_update(e);
        assert(self.state() =~= with_node(old(self).state(), node_id@, address@, now));
    }

    /// Takes note of nodes, one after the other.
    fn add_nodes(&mut self, nodes: &[(PeerId, SocketAddr)], now: u64)
        requires
            old(self).wf(),
        ensures
            final(self).wf(),
            final(self).state() == with_nodes(
                old(self).state(),
                message::pair_views(nodes@),
                now,
            ),
    {
        let ghost all = message::pair_views(nodes@);
        let mut i: usize = 0;
        assert(all.skip(0) =~= all);
        while i < nodes.len()
            invariant
                i <= nodes@.len(),
                self.wf(),
                all == message::pair_views(nodes@),
                with_nodes(self.state(), all.skip(i as int), now) == with_nodes(
                    old(self).state(),
                    all,
                    now,
                ),
            decreases nodes@.len() - i,
        {
            proof {
                assert(all.skip(i as int).drop_first() =~= all.skip(i + 1));
                assert(all.skip(i as int)[0] == (nodes@[i as int].0@, nodes@[i as int].1@));
            }
            self.add_node(nodes[i].0, nodes[i].1, now);
            i = i + 1;
        }
    }

    /// Takes note of the nodes that a payload lists.
    fn add_listed_nodes(&mut self, payload: &[u8], now: u64)
        requires
            old(self).wf(),
        ensures
            final(self).wf(),
            final(self).state() == with_listed_nodes(old(self).state(), payload@, now),
    {
        match parse_nodes_from_payload(payload) {
            None => {},
            Some(nodes) => {
                self.add_nodes(nodes.as_slice(), now);
            },
        }
    }

    /// The nodes closest to a target.
    fn closest(&self, target: &PeerId, count: usize) -> (r: Vec<BucketEntry>)
        requires
            self.wf(),
        ensures
            r@ == routing::closest(routing::concat(self.state().buckets), target@, count as nat),
    {
        let r: Vec<BucketEntry> = self.routing_table.closest_nodes(target, count);
        proof {
            routing::lemma_closest(self.routing_table.all(), target@, count as nat, r@);
        }
        r
    }

    /// Handles bytes that came from an address.
    pub fn handle_incoming(&mut self, data: &[u8], src: SocketAddr, now: u64) -> (r: Result<
        Outcome,
        DhtError,
    >)
        requires
            old(self).wf(),
        ensures
            final(self).wf(),
            (final(self).state(), result_view(r)) == incoming_step(
                old(self).state(),
                data@,
                src@,
                now,
            ),
    {
        let msg: DhtMessage = match decode_message(data) {
            None => {
                return match foreign_request_id(data) {
                    Some(id) => {
                        let reply: Vec<u8> = encode_error_response(
                            self.peer_id,
                            id,
                            UNSUPPORTED_VERSION,
                            self.signing_key.as_ref(),
                        );
                        Ok(Outcome::reply(reply, src))
                    },
                    None => Err(DhtError::Serialization("decode failed".to_string())),
                };
            },
            Some(m) => m,
        };
        if !msg.is_response {
            if !self.check_rate_limit(&msg.sender_id, now) {
                return Ok(Outcome::none());
            }
        }
        let ghost limited = self.state();
        let ghost body_seq = data@.subrange(0, data@.len() - 64);
        if DhtHandle::signed(&msg) {
            if !msg.is_response || msg.msg_type == DhtMsgType::FindValue {
                let body: &[u8] = &data[0..data.len() - 64];
                let status: SignatureStatus = self.verify_signature(&msg, body);
                if status != SignatureStatus::Valid {
                    if msg.is_response {
                        return Ok(Outcome::none());
                    }
                    if status == SignatureStatus::Invalid || msg.msg_type == DhtMsgType::Store {
                        return Err(DhtError::InvalidSignature { peer_id: msg.sender_id });
                    }
                }
            }
        } else {
            if msg.is_response && msg.msg_type == DhtMsgType::FindValue && msg.signature.is_some()
                && !self.pending_queries.contains(&msg.message_id) {
                return Ok(Outcome::none());
            }
        }
        assert(admission(limited, msg@, body_seq) is Taken);
        self.add_node(msg.sender_id, src, now);
        if msg.is_response {
            let outcome: Outcome = self.handle_response(&msg, now);
            return Ok(outcome);
        }
        self.handle_request(&msg, src, now)
    }

    /// Handles a request.
    fn handle_request(&mut self, msg: &DhtMessage, src: SocketAddr, now: u64) -> (r: Result<
        Outcome,
        DhtError,
    >)
        requires
            old(self).wf(),
        ensures
            final(self).wf(),
            (final(self).state(), result_view(r)) == request_step(
                old(self).state(),
                msg@,
                src@,
                now,
            ),
    {
        let payload: &[u8] = msg.payload.as_slice();
        match msg.msg_type {
            DhtMsgType::Ping => {
                let nodes: Vec<BucketEntry> = self.closest(&msg.sender_id, self.config.k);
                let data: Vec<u8> = encode_ping_response(
                    self.peer_id,
                    msg.message_id,
                    nodes.as_slice(),
                    self.signing_key.as_ref(),
                );
                Ok(Outcome::reply(data, src))
            },
            DhtMsgType::FindNode => {
                if payload.len() < 32 {
                    return Ok(Outcome::none());
                }
                let target: PeerId = PeerId(array_at(payload, 0));
                let nodes: Vec<BucketEntry> = self.closest(&target, self.config.k);
                let data: Vec<u8> = encode_find_node_response(
                    self.peer_id,
                    msg.message_id,
                    nodes.as_slice(),
                    self.signing_key.as_ref(),
                );
                Ok(Outcome::reply(data, src))
            },
            DhtMsgType::Store => self.handle_store(msg, src, now),
            DhtMsgType::FindValue => {
                if payload.len() < 32 {
                    return Ok(Outcome::none());
                }
                let key: PeerId = PeerId(array_at(payload, 0));
                match self.peer_records.get(&key) {
                    None => {},
                    Some(rec) => {
                        if rec.is_live(now) {
                            let data: Vec<u8> = encode_find_value_response_with_record(
                                self.peer_id,
                                msg.message_id,
                                rec,
                                self.signing_key.as_ref(),
                            );
                            return Ok(Outcome::reply(data, src));
                        }
                    },
                }
                let nodes: Vec<BucketEntry> = self.closest(&key, self.config.k);
                let data: Vec<u8> = encode_find_value_response_not_found(
                    self.peer_id,
                    msg.message_id,
                    nodes.as_slice(),
                    self.signing_key.as_ref(),
                );
                Ok(Outcome::reply(data, src))
            },
            DhtMsgType::AddrReflect => {
                let data: Vec<u8> = encode_addr_reflect_response(
                    self.peer_id,
                    msg.message_id,
                    &src,
                    self.signing_key.as_ref(),
                );
                Ok(Outcome::reply(data, src))
            },
            DhtMsgType::RelayNeeded => {
                let all: Vec<BucketEntry> = self.routing_table.all_nodes();
                let mut relays: Vec<BucketEntry> = nodes_without(
                    all.as_slice(),
                    &self.peer_id,
                    &msg.sender_id,
                );
                relays.truncate(8);
                assert(relays@ =~= relay_candidates(self.state(), msg@.sender_id));
                let data: Vec<u8> = encode_relay_needed_response(
                    self.peer_id,
                    msg.message_id,
                    relays.as_slice(),
                    self.signing_key.as_ref(),
                );
                Ok(Outcome::reply(data, src))
            },
            DhtMsgType::Error => Ok(Outcome::none()),
        }
    }

    /// Handles a STORE request.
    fn handle_store(&mut self, msg: &DhtMessage, src: SocketAddr, now: u64) -> (r: Result<
        Outcome,
        DhtError,
    >)
        requires
            old(self).wf(),
            msg.msg_type == DhtMsgType::Store,
        ensures
            final(self).wf(),
            (final(self).state(), result_view(r)) == store_step(
                old(self).state(),
                msg@,
                src@,
                now,
            ),
    {
        let payload: &[u8] = msg.payload.as_slice();
        let data: Vec<u8> = encode_store_ack(
            self.peer_id,
            msg.message_id,
            self.signing_key.as_ref(),
        );
        let mut outcome: Outcome = Outcome::reply(data, src);
        if payload.len() < 101 {
            return Ok(outcome);
        }
        let key: PeerId = PeerId(array_at(payload, 0));
        let ttl: u32 = read_u32(payload, 32);
        let effective: u32 = if ttl == 0 || ttl > 3600 {
            300
        } else {
            ttl
        };
        let pubkey: [u8; 32] = array_at(payload, 36);
        let noise_pubkey: [u8; 32] = array_at(payload, 68);
        let capabilities: Capabilities = Capabilities { bits: payload[100] };
        let expected: PeerId = PeerId(sha256_digest(pubkey.as_slice()));
        proof {
            peer::lemma_peer_id_ext(expected, key);
        }
        if expected != key {
            return Err(DhtError::InvalidSignature { peer_id: msg.sender_id });
        }
        let endpoints: Vec<Endpoint> = if payload.len() >= 103 {
            let ep_len: usize = read_u16(payload, 101) as usize;
            let tail: &[u8] = &payload[103..payload.len()];
            assert(tail@ =~= payload@.skip(103));
            parse_endpoints(tail, ep_len)
        } else {
            Vec::new()
        };
        assert(payload@.len() < 103 ==> endpoint::endpoint_views(endpoints@) =~= Seq::<
            EndpointView,
        >::empty());
        let rec: PeerRecord = PeerRecord {
            pubkey,
            noise_pubkey,
            endpoints,
            capabilities,
            ttl_remaining: effective,
            expires_at: expiry_after(now, effective),
        };
        assert(rec@.record == stored_record(payload@));
        outcome.events.push(DhtEvent::PeerDiscovered(key, rec.to_core()));
        let ghost kept = rec@;
        let _ = self.peer_records.insert(key, rec);
        proof {
            let want = store_step(old(self).state(), msg@, src@, now);
            assert(self.state().records =~= old(self).state().records.insert(key@, kept));
            assert(self.state() =~= want.0);
            assert(outcome@.events =~= seq![EventView::PeerDiscovered(key@, kept.record)]);
            assert(outcome@ =~= want.1->Ok_0);
        }
        Ok(outcome)
    }

    /// Handles a response.
    fn handle_response(&mut self, msg: &DhtMessage, now: u64) -> (r: Outcome)
        requires
            old(self).wf(),
        ensures
            final(self).wf(),
            (final(self).state(), r@) == response_step(old(self).state(), msg@, now),
    {
        let payload: &[u8] = msg.payload.as_slice();
        match msg.msg_type {
            DhtMsgType::Ping => {
                self.add_listed_nodes(payload, now);
                Outcome::none()
            },
            DhtMsgType::FindNode => {
                self.add_listed_nodes(payload, now);
                Outcome::none()
            },
            DhtMsgType::FindValue => self.handle_found(msg, now),
            _ => Outcome::none(),
        }
    }

    /// Handles a FIND_VALUE response.
    fn handle_found(&mut self, msg: &DhtMessage, now: u64) -> (r: Outcome)
        requires
            old(self).wf(),
            msg.msg_type == DhtMsgType::FindValue,
        ensures
            final(self).wf(),
            (final(self).state(), r@) == response_step(old(self).state(), msg@, now),
    {
        let payload: &[u8] = msg.payload.as_slice();
        let ghost want = response_step(old(self).state(), msg@, now);
        let waited: bool = self.pending_queries.remove(&msg.message_id);
        let ghost waiting = NodeState {
            pending: old(self).state().pending.remove(msg@.message_id),
            ..old(self).state()
        };
        assert(self.state() =~= waiting);
        let mut outcome: Outcome = Outcome::none();
        if payload.len() > 0 && payload[0] == 1 {
            let tail: &[u8] = &payload[1..payload.len()];
            assert(tail@ =~= payload@.skip(1));
            let found: Option<PeerRecord> = parse_record_from_payload(tail, now);
            match found {
                None => {
                    if waited {
                        outcome.answer = Some((msg.message_id, None));
                    }
                },
                Some(rec) => {
                    let id: PeerId = PeerId(sha256_digest(rec.pubkey.as_slice()));
                    outcome.events.push(DhtEvent::PeerDiscovered(id, rec.to_core()));
                    let ghost kept = rec@;
                    if waited {
                        outcome.answer = Some((msg.message_id, Some(rec)));
                    }
                    assert(outcome@.events =~= seq![EventView::PeerDiscovered(id@, kept.record)]);
                },
            }
            assert(outcome@ =~= want.1);
            outcome
        } else {
            if waited {
                outcome.answer = Some((msg.message_id, None));
            }
            if payload.len() > 0 {
                let tail: &[u8] = &payload[1..payload.len()];
                assert(tail@ =~= payload@.skip(1));
                self.add_listed_nodes(tail, now);
            } else {
                let none: Vec<u8> = Vec::new();
                self.add_listed_nodes(none.as_slice(), now);
            }
            assert(outcome@ =~= want.1);
            outcome
        }
    }
}

/// The bits in which an identifier of bucket `bucket` differs from the node's own:
/// the first of them is bit `bucket`, and those behind it are as `noise` has them.
pub open spec fn bucket_mask(bucket: int, noise: Seq<u8>) -> Seq<u8> {
    Seq::new(32, |i: int| mask_byte(bucket, noise, i))
}

/// Byte `i` of the mask.
pub open spec fn mask_byte(bucket: int, noise: Seq<u8>, i: int) -> u8 {
    if i < bucket / 8 {
        0
    } else if i == bucket / 8 {
        let top = top_bit(bucket % 8);
        (top + noise[i] as int % top) as u8
    } else {
        noise[i]
    }
}

/// The value of the bit with `n` bits before it in a byte.
pub open spec fn top_bit(n: int) -> int {
    if n == 0 {
        128
    } else if n == 1 {
        64
    } else if n == 2 {
        32
    } else if n == 3 {
        16
    } else if n == 4 {
        8
    } else if n == 5 {
        4
    } else if n == 6 {
        2
    } else {
        1
    }
}

/// A mask for a bucket has as many leading zero bits as the number of the bucket.
proof fn lemma_mask_zeros(bucket: int, noise: Seq<u8>, from: int)
    requires
        0 <= bucket < 256,
        noise.len() == 32,
        0 <= from <= bucket / 8,
    ensures
        peer::leading_zeros(bucket_mask(bucket, noise).skip(from)) == bucket - 8 * from,
    decreases bucket / 8 - from,
{
    let mask = bucket_mask(bucket, noise);
    let s = mask.skip(from);
    assert(s[0] == mask_byte(bucket, noise, from));
    if from < bucket / 8 {
        lemma_mask_zeros(bucket, noise, from + 1);
        assert(s.drop_first() =~= mask.skip(from + 1));
    } else {
        let top = top_bit(bucket % 8);
        let b = noise[from] as int;
        assert(0 <= b % top < top);
        assert(top <= s[0] < 2 * top);
    }
}

/// The exclusive or of a value with the exclusive or of it and a mask is the mask.
proof fn lemma_xor_twice(a: u8, m: u8)
    ensures
        a ^ (a ^ m) == m,
{
    assert(a ^ (a ^ m) == m) by (bit_vector);
}

/// What a lookup starts with.
#[derive(Debug)]
pub enum Lookup {
    /// The record is known.
    Known(PeerRecord),
    /// Others are to be asked; the answer comes with a message, or not at all.
    Ask(Vec<Outgoing>),
}

/// A node as it is written to a file.
#[derive(Debug)]
pub struct RoutesEntry {
    pub node_id_hex: String,
    pub addr: SocketAddr,
}

/// A node as it was read from a file. The address is there where it could be
/// read.
#[derive(Debug)]
pub struct ReadRoute {
    pub node_id_hex: String,
    pub addr: Option<SocketAddr>,
}

/// A node that was read, as a value.
pub open spec fn read_route_view(e: ReadRoute) -> (Seq<char>, Option<AddrView>) {
    (
        e.node_id_hex@,
        match e.addr {
            Some(a) => Some(a@),
            None => None,
        },
    )
}

/// The node after it took note of what was read, and how many of the entries
/// could be read: those with an identifier and an address.
pub open spec fn with_routes(
    st: NodeState,
    entries: Seq<(Seq<char>, Option<AddrView>)>,
    now: u64,
) -> (NodeState, nat)
    decreases entries.len(),
{
    if entries.len() == 0 {
        (st, 0)
    } else {
        match (peer::parsed_peer_id(entries[0].0), entries[0].1) {
            (Ok(id), Some(addr)) => {
                let (after, n) = with_routes(with_node(st, id, addr, now), entries.drop_first(), now);
                (after, n + 1)
            },
            _ => with_routes(st, entries.drop_first(), now),
        }
    }
}

/// The messages that send the same bytes to each of some nodes.
pub open spec fn sent_to(data: Seq<u8>, nodes: Seq<BucketEntry>) -> Seq<(Seq<u8>, AddrView)> {
    nodes.map_values(|e: BucketEntry| (data, e.address@))
}

/// The Noise key that is known of a node, or zero bytes.
pub open spec fn known_noise_key(records: Map<Seq<u8>, KeptRecordView>, id: Seq<u8>) -> Seq<u8> {
    if records.dom().contains(id) {
        records[id].record.noise_pubkey
    } else {
        Seq::new(32, |i: int| 0u8)
    }
}

/// Whether `r` lists the relays among some nodes.
pub open spec fn lists_relays(
    records: Map<Seq<u8>, KeptRecordView>,
    nodes: Seq<BucketEntry>,
    r: Seq<RelayInfo>,
) -> bool {
    &&& r.len() == nodes.len()
    &&& forall|i: int|
        0 <= i < r.len() ==> {
            &&& (#[trigger] r[i]).node_id@ == nodes[i].node_id@
            &&& r[i].address@ == nodes[i].address@
            &&& r[i].noise_pubkey@ == known_noise_key(records, nodes[i].node_id@)
        }
}

/// The records that still hold.
pub open spec fn live_records(records: Map<Seq<u8>, KeptRecordView>, now: u64) -> Map<
    Seq<u8>,
    KeptRecordView,
> {
    Map::new(
        |id: Seq<u8>| records.dom().contains(id) && records[id].expires_at > now,
        |id: Seq<u8>| records[id],
    )
}

/// What to do next to get into the network.
#[derive(Debug)]
pub enum BootstrapStep {
    /// Send a PING and a FIND_NODE request to this address.
    Try(SocketAddr),
    /// No address is left.
    Failed(DhtError),
}

/// The same bytes for each of some nodes.
fn send_to_all(data: &[u8], nodes: &[BucketEntry]) -> (out: Vec<Outgoing>)
    ensures
        outgoing_views(out@) == sent_to(data@, nodes@),
{
    let mut out: Vec<Outgoing> = Vec::new();
    let mut i: usize = 0;
    while i < nodes.len()
        invariant
            i <= nodes@.len(),
            out@.len() == i,
            forall|j: int|
                0 <= j < i ==> (#[trigger] out@[j]).data@ == data@ && out@[j].to
                    == nodes@[j].address,
        decreases nodes@.len() - i,
    {
        out.push(
            Outgoing { data: crate::bytes::copy_range(data, 0, data.len()), to: nodes[i].address },
        );
        assert(out@[i as int].data@ =~= data@);
        i = i + 1;
    }
    assert(outgoing_views(out@) =~= sent_to(data@, nodes@));
    out
}

impl DhtHandle {
    /// The identifier of the node.
    pub fn peer_id(&self) -> (r: PeerId)
        ensures
            r@ == self.state().id,
    {
        self.peer_id
    }

    /// How many nodes the node knows.
    pub fn routing_table_size(&self) -> (n: usize)
        requires
            self.wf(),
        ensures
            n == routing::concat(self.state().buckets).len(),
    {
        self.routing_table.size()
    }

    /// What to do next to get into the network, after so many addresses failed.
    pub fn bootstrap_step(
        seeds: &[SocketAddr],
        failed: u8,
        last_error: String,
    ) -> (r: BootstrapStep)
        requires
            failed <= seeds@.len(),
        ensures
            match r {
                BootstrapStep::Try(addr) => failed < seeds@.len() && addr == seeds@[failed as int],
                BootstrapStep::Failed(e) => {
                    &&& failed == seeds@.len()
                    &&& e@ == (DhtErrorView::BootstrapFailed {
                        attempts: failed,
                        last_error: last_error@,
                    })
                },
            },
    {
        if (failed as usize) < seeds.len() {
            BootstrapStep::Try(seeds[failed as usize])
        } else {
            BootstrapStep::Failed(DhtError::BootstrapFailed { attempts: failed, last_error })
        }
    }

    /// The requests that get a node into the network: a PING and a FIND_NODE for
    /// its own identifier, under the given message ids.
    pub fn bootstrap_requests(&self, ping_id: [u8; 16], find_id: [u8; 16]) -> (r: (
        Vec<u8>,
        Vec<u8>,
    ))
        ensures
            r.0@ == message::message_bytes(
                self.state().id,
                ping_id@,
                DhtMsgType::Ping,
                false,
                Seq::<u8>::empty(),
                self.state().seed,
            ),
            r.1@ == message::message_bytes(
                self.state().id,
                find_id@,
                DhtMsgType::FindNode,
                false,
                self.state().id,
                self.state().seed,
            ),
    {
        (
            encode_ping_request_signed(self.peer_id, ping_id, self.signing_key.as_ref()),
            encode_find_node_request_signed(
                self.peer_id,
                find_id,
                self.peer_id,
                self.signing_key.as_ref(),
            ),
        )
    }

    /// The requests that get a node into the network, under random message ids.
    pub fn bootstrap(&self) -> (r: (Vec<u8>, Vec<u8>))
        ensures
            exists|a: Seq<u8>|
                a.len() == 16 && r.0@ == #[trigger] message::message_bytes(
                    self.state().id,
                    a,
                    DhtMsgType::Ping,
                    false,
                    Seq::<u8>::empty(),
                    self.state().seed,
                ),
            exists|b: Seq<u8>|
                b.len() == 16 && r.1@ == #[trigger] message::message_bytes(
                    self.state().id,
                    b,
                    DhtMsgType::FindNode,
                    false,
                    self.state().id,
                    self.state().seed,
                ),
    {
        let a: [u8; 16] = random_16();
        let b: [u8; 16] = random_16();
        self.bootstrap_requests(a, b)
    }

    /// An identifier that falls in a bucket: it differs from the node's own first
    /// in the bit of the bucket, and behind it as `noise` says.
    pub fn id_in_bucket(&self, bucket_idx: usize, noise: &[u8; 32]) -> (r: PeerId)
        ensures
            bucket_idx < 256 ==> r@ == peer::xor_bytes(
                self.state().id,
                bucket_mask(bucket_idx as int, noise@),
            ),
            bucket_idx < 256 ==> peer::bucket_of(self.state().id, r@) == bucket_idx,
            bucket_idx < 256 ==> r@ != self.state().id,
            bucket_idx >= 256 ==> r@ == self.state().id,
    {
        if bucket_idx >= 256 {
            return self.peer_id;
        }
        let mut id: [u8; 32] = self.peer_id.0;
        let byte: usize = bucket_idx / 8;
        let n: usize = bucket_idx % 8;
        let top: u8 = if n == 0 {
            128
        } else if n == 1 {
            64
        } else if n == 2 {
            32
        } else if n == 3 {
            16
        } else if n == 4 {
            8
        } else if n == 5 {
            4
        } else if n == 6 {
            2
        } else {
            1
        };
        let ghost mask = bucket_mask(bucket_idx as int, noise@);
        let ghost local = self.state().id;
        assert(forall|j: int| 0 <= j < byte ==> #[trigger] local[j] ^ 0u8 == local[j]) by {
            assert forall|x: u8| #[trigger] (x ^ 0u8) == x by {
                assert(x ^ 0u8 == x) by (bit_vector);
            }
        }
        let low: u8 = noise[byte] % top;
        assert(low < top);
        id[byte] = id[byte] ^ (top + low);
        let mut i: usize = byte + 1;
        while i < 32
            invariant
                byte < i <= 32,
                byte == bucket_idx / 8,
                bucket_idx < 256,
                local == self.peer_id@,
                mask == bucket_mask(bucket_idx as int, noise@),
                forall|j: int| i <= j < 32 ==> id@[j] == local[j],
                forall|j: int| 0 <= j < i ==> #[trigger] id@[j] == local[j] ^ mask[j],
            decreases 32 - i,
        {
            id[i] = id[i] ^ noise[i];
            i = i + 1;
        }
        proof {
            assert(id@ =~= peer::xor_bytes(local, mask));
            assert forall|j: int| 0 <= j < 32 implies #[trigger] peer::xor_bytes(local, id@)[j]
                == mask[j] by {
                lemma_xor_twice(local[j], mask[j]);
            }
            assert(peer::xor_bytes(local, id@) =~= mask);
            assert(id@ != local) by {
                let x = local[byte as int];
                let m = mask[byte as int];
                assert(x ^ m != x) by (bit_vector)
                    requires
                        m != 0,
                ;
            }
            lemma_mask_zeros(bucket_idx as int, noise@, 0);
            assert(mask.skip(0) =~= mask);
        }
        PeerId(id)
    }

    /// A random identifier that falls in a bucket.
    pub fn random_id_in_bucket(&self, bucket_idx: usize) -> (r: PeerId)
        ensures
            bucket_idx < 256 ==> peer::bucket_of(self.state().id, r@) == bucket_idx,
            bucket_idx < 256 ==> r@ != self.state().id,
            bucket_idx >= 256 ==> r@ == self.state().id,
    {
        let a: [u8; 16] = random_16();
        let b: [u8; 16] = random_16();
        let mut noise: [u8; 32] = [0u8; 32];
        let mut i: usize = 0;
        while i < 16
            invariant
                i <= 16,
            decreases 16 - i,
        {
            noise[i] = a[i];
            noise[i + 16] = b[i];
            i = i + 1;
        }
        self.id_in_bucket(bucket_idx, &noise)
    }

    /// The requests that refresh a bucket: FIND_NODE for an identifier of it, to
    /// the three nodes that are known closest to it.
    pub fn refresh_bucket(&self, target: &PeerId, message_id: [u8; 16]) -> (out: Vec<Outgoing>)
        requires
            self.wf(),
        ensures
            outgoing_views(out@) == sent_to(
                message::message_bytes(
                    self.state().id,
                    message_id@,
                    DhtMsgType::FindNode,
                    false,
                    target@,
                    self.state().seed,
                ),
                routing::closest(routing::concat(self.state().buckets), target@, 3),
            ),
            answers::requests_closest(
                outgoing_views(out@),
                self.state(),
                message_id@,
                DhtMsgType::FindNode,
                target@,
                target@,
                3,
            ),
    {
        proof {
            self.routing_table.lemma_buckets();
            answers::law_request_reaches_closest(
                self.state(),
                message_id@,
                DhtMsgType::FindNode,
                target@,
                target@,
                3,
            );
        }
        let req: Vec<u8> = encode_find_node_request_signed(
            self.peer_id,
            message_id,
            *target,
            self.signing_key.as_ref(),
        );
        let nodes: Vec<BucketEntry> = self.closest(target, 3);
        send_to_all(req.as_slice(), nodes.as_slice())
    }

    /// Keeps the node's own record and stores it with the nodes closest to it.
    pub fn store_self(
        &mut self,
        pubkey: &[u8; 32],
        noise_pubkey: &[u8; 32],
        endpoints: &[Endpoint],
        capabilities: Capabilities,
        message_id: [u8; 16],
        now: u64,
    ) -> (out: Vec<Outgoing>)
        requires
            old(self).wf(),
        ensures
            final(self).wf(),
            ({
                let st = old(self).state();
                let rec = message::record_view(
                    st.ttl,
                    pubkey,
                    noise_pubkey,
                    capabilities,
                    endpoints,
                );
                &&& outgoing_views(out@) == sent_to(
                    message::message_bytes(
                        st.id,
                        message_id@,
                        DhtMsgType::Store,
                        false,
                        message::store_payload(st.id, rec),
                        st.seed,
                    ),
                    routing::closest(routing::concat(st.buckets), st.id, st.k),
                )
                &&& message::store_payload(st.id, rec).len() < 0x100_0000
                    ==> answers::requests_closest(
                    outgoing_views(out@),
                    st,
                    message_id@,
                    DhtMsgType::Store,
                    message::store_payload(st.id, rec),
                    st.id,
                    st.k,
                )
                &&& final(self).state() == (NodeState {
                    records: st.records.insert(
                        st.id,
                        KeptRecordView { record: rec, expires_at: record::expiry(now, st.ttl) },
                    ),
                    ..st
                })
            }),
    {
        let id: PeerId = self.peer_id;
        let ttl: u32 = self.config.ttl_seconds;
        proof {
            self.routing_table.lemma_buckets();
            let st = self.state();
            let payload = message::store_payload(
                st.id,
                message::record_view(st.ttl, pubkey, noise_pubkey, capabilities, endpoints),
            );
            if payload.len() < 0x100_0000 {
                answers::law_request_reaches_closest(
                    st,
                    message_id@,
                    DhtMsgType::Store,
                    payload,
                    st.id,
                    st.k,
                );
            }
        }
        let nodes: Vec<BucketEntry> = self.closest(&id, self.config.k);
        let msg: Vec<u8> = encode_store_request_signed(
            id,
            message_id,
            &id.0,
            ttl,
            pubkey,
            noise_pubkey,
            capabilities,
            endpoints,
            self.signing_key.as_ref(),
        );
        let out: Vec<Outgoing> = send_to_all(msg.as_slice(), nodes.as_slice());
        let rec: PeerRecord = PeerRecord {
            pubkey: *pubkey,
            noise_pubkey: *noise_pubkey,
            endpoints: copy_endpoints(endpoints),
            capabilities,
            ttl_remaining: ttl,
            expires_at: expiry_after(now, ttl),
        };
        let ghost kept = rec@;
        let _ = self.peer_records.insert(id, rec);
        assert(self.state().records =~= old(self).state().records.insert(id@, kept));
        out
    }

    /// The record of a peer that the node keeps, while it holds.
    pub fn get_peer_record(&self, peer_id: &PeerId, now: u64) -> (r: Option<PeerRecord>)
        requires
            self.wf(),
        ensures
            match r {
                Some(rec) => live_records(self.state().records, now).dom().contains(peer_id@)
                    && rec@ == self.state().records[peer_id@],
                None => !live_records(self.state().records, now).dom().contains(peer_id@),
            },
    {
        match self.peer_records.get(peer_id) {
            None => None,
            Some(rec) => if rec.is_live(now) {
                Some(rec.clone())
            } else {
                None
            },
        }
    }

    /// Looks a peer up: in what the node keeps, or else by asking the nodes that
    /// are known closest to it.
    pub fn find_peer(&mut self, peer_id: &PeerId, message_id: [u8; 16], now: u64) -> (r: Lookup)
        requires
            old(self).wf(),
        ensures
            final(self).wf(),
            match r {
                Lookup::Known(rec) => {
                    &&& live_records(old(self).state().records, now).dom().contains(peer_id@)
                    &&& rec@ == old(self).state().records[peer_id@]
                    &&& final(self).state() == old(self).state()
                },
                Lookup::Ask(out) => {
                    let st = old(self).state();
                    &&& !live_records(st.records, now).dom().contains(peer_id@)
                    &&& final(self).state() == (NodeState {
                        pending: st.pending.insert(message_id@),
                        ..st
                    })
                    &&& outgoing_views(out@) == sent_to(
                        message::message_bytes(
                            st.id,
                            message_id@,
                            DhtMsgType::FindValue,
                            false,
                            peer_id@,
                            st.seed,
                        ),
                        routing::closest(routing::concat(st.buckets), peer_id@, st.alpha),
                    )
                    &&& answers::requests_closest(
                        outgoing_views(out@),
                        st,
                        message_id@,
                        DhtMsgType::FindValue,
                        peer_id@,
                        peer_id@,
                        st.alpha,
                    )
                },
            },
    {
        proof {
            self.routing_table.lemma_buckets();
            answers::law_request_reaches_closest(
                self.state(),
                message_id@,
                DhtMsgType::FindValue,
                peer_id@,
                peer_id@,
                self.state().alpha,
            );
        }
        match self.get_peer_record(peer_id, now) {
            Some(rec) => Lookup::Known(rec),
            None => {
                self.pending_queries.insert(message_id);
                let nodes: Vec<BucketEntry> = self.closest(peer_id, self.config.alpha);
                let req: Vec<u8> = encode_find_value_request_signed(
                    self.peer_id,
                    message_id,
                    &peer_id.0,
                    self.signing_key.as_ref(),
                );
                Lookup::Ask(send_to_all(req.as_slice(), nodes.as_slice()))
            },
        }
    }

    /// Gives a lookup up.
    pub fn find_peer_timed_out(&mut self, message_id: &[u8; 16])
        requires
            old(self).wf(),
        ensures
            final(self).wf(),
            final(self).state() == (NodeState {
                pending: old(self).state().pending.remove(message_id@),
                ..old(self).state()
            }),
    {
        let _ = self.pending_queries.remove(message_id);
    }

    /// The nodes that the node knows, as they are written to a file.
    pub fn save_routes(&self) -> (r: Vec<RoutesEntry>)
        requires
            self.wf(),
        ensures
            r@.len() == routing::concat(self.state().buckets).len(),
            forall|i: int|
                0 <= i < r@.len() ==> {
                    let e = routing::concat(self.state().buckets)[i];
                    &&& (#[trigger] r@[i]).node_id_hex@ == crate::hexadecimal::hex_text(e.node_id@)
                    &&& r@[i].addr == e.address
                },
    {
        let all: Vec<BucketEntry> = self.routing_table.all_nodes();
        let mut r: Vec<RoutesEntry> = Vec::new();
        let mut i: usize = 0;
        while i < all.len()
            invariant
                i <= all@.len(),
                r@.len() == i,
                forall|j: int|
                    0 <= j < i ==> (#[trigger] r@[j]).node_id_hex@ == crate::hexadecimal::hex_text(
                        all@[j].node_id@,
                    ) && r@[j].addr == all@[j].address,
            decreases all@.len() - i,
        {
            r.push(RoutesEntry { node_id_hex: all[i].node_id.to_hex(), addr: all[i].address });
            i = i + 1;
        }
        r
    }

    /// Takes note of the nodes that were read from a file, and says how many of
    /// them could be read.
    pub fn load_routes(&mut self, entries: &[ReadRoute], now: u64) -> (n: usize)
        requires
            old(self).wf(),
        ensures
            final(self).wf(),
            (final(self).state(), n as nat) == with_routes(
                old(self).state(),
                entries@.map_values(|e: ReadRoute| read_route_view(e)),
                now,
            ),
    {
        let ghost all = entries@.map_values(|e: ReadRoute| read_route_view(e));
        let ghost want = with_routes(old(self).state(), all, now);
        let mut n: usize = 0;
        let mut i: usize = 0;
        assert(all.skip(0) =~= all);
        while i < entries.len()
            invariant
                i <= entries@.len(),
                n <= i,
                self.wf(),
                all == entries@.map_values(|e: ReadRoute| read_route_view(e)),
                with_routes(self.state(), all.skip(i as int), now).0 == want.0,
                n + with_routes(self.state(), all.skip(i as int), now).1 == want.1,
            decreases entries@.len() - i,
        {
            proof {
                assert(all.skip(i as int).drop_first() =~= all.skip(i + 1));
                assert(all.skip(i as int)[0] == read_route_view(entries@[i as int]));
            }
            let parsed: Result<PeerId, String> = PeerId::from_hex(entries[i].node_id_hex.as_str());
            match (parsed, entries[i].addr) {
                (Ok(id), Some(addr)) => {
                    self.add_node(id, addr, now);
                    n = n + 1;
                },
                _ => {},
            }
            i = i + 1;
        }
        n
    }

    /// The nodes that may relay: all but the node itself.
    pub fn find_relays(&self) -> (r: Vec<RelayInfo>)
        requires
            self.wf(),
        ensures
            lists_relays(
                self.state().records,
                routing::without(
                    routing::concat(self.state().buckets),
                    self.state().id,
                    self.state().id,
                ),
                r@,
            ),
    {
        let all: Vec<BucketEntry> = self.routing_table.all_nodes();
        let nodes: Vec<BucketEntry> = nodes_without(all.as_slice(), &self.peer_id, &self.peer_id);
        let mut r: Vec<RelayInfo> = Vec::new();
        let mut i: usize = 0;
        let ghost records = self.state().records;
        while i < nodes.len()
            invariant
                self.wf(),
                i <= nodes@.len(),
                records == self.state().records,
                lists_relays(records, nodes@.subrange(0, i as int), r@),
            decreases nodes@.len() - i,
        {
            let e: BucketEntry = nodes[i];
            let noise_pubkey: [u8; 32] = match self.peer_records.get(&e.node_id) {
                Some(rec) => rec.noise_pubkey,
                None => [0u8; 32],
            };
            assert(noise_pubkey@ =~= known_noise_key(records, e.node_id@));
            r.push(RelayInfo { node_id: e.node_id, address: e.address, noise_pubkey });
            i = i + 1;
        }
        assert(nodes@.subrange(0, i as int) =~= nodes@);
        r
    }

    /// Drops the records that no longer hold.
    pub fn cleanup(&mut self, now: u64)
        requires
            old(self).wf(),
        ensures
            final(self).wf(),
            final(self).state() == (NodeState {
                records: live_records(old(self).state().records, now),
                ..old(self).state()
            }),
    {
        let mut i: usize = 0;
        let ghost before = self.peer_records@;
        while i < self.peer_records.len()
            invariant
                self.wf(),
                i <= self.peer_records.keys().len(),
                before == old(self).peer_records@,
                self.peer_id == old(self).peer_id,
                self.config == old(self).config,
                self.routing_table == old(self).routing_table,
                self.signing_key == old(self).signing_key,
                self.pending_queries == old(self).pending_queries,
                self.peer_ratelimit == old(self).peer_ratelimit,
                forall|id: Seq<u8>| #[trigger]
                    self.peer_records@.dom().contains(id) ==> before.dom().contains(id)
                        && self.peer_records@[id] == before[id],
                forall|id: Seq<u8>| #[trigger]
                    before.dom().contains(id) && before[id]@.expires_at > now
                        ==> self.peer_records@.dom().contains(id),
                forall|j: int|
                    0 <= j < i ==> before[#[trigger] self.peer_records.keys()[j]]@.expires_at > now,
            decreases self.peer_records.keys().len() - i,
        {
            if self.peer_records.value_at(i).is_live(now) {
                i = i + 1;
            } else {
                let ghost keys = self.peer_records.keys();
                self.peer_records.remove_at(i);
                proof {
                    assert forall|j: int| 0 <= j < i implies before[#[trigger] self.peer_records.keys()[j]]@.expires_at
                        > now by {
                        assert(self.peer_records.keys()[j] == keys[j]);
                    }
                }
            }
        }
        proof {
            self.peer_records.lemma_keys();
            let want = live_records(old(self).state().records, now);
            assert forall|id: Seq<u8>| #[trigger] self.state().records.dom().contains(
                id,
            ) implies want.dom().contains(id) by {
                assert(self.peer_records@.dom().contains(id));
                assert(self.peer_records.keys().contains(id));
                let j = choose|j: int|
                    0 <= j < self.peer_records.keys().len() && self.peer_records.keys()[j] == id;
                assert(before[self.peer_records.keys()[j]]@.expires_at > now);
            }
            assert forall|id: Seq<u8>| want.dom().contains(
                id,
            ) implies self.state().records.dom().contains(id) by {
                assert(before.dom().contains(id));
            }
            assert(self.state().records =~= want);
        }
    }
}

} // verus!
