//! The daemon as a whole: what it knows, and what it does when something happens.
use crate::base64_text;
use crate::base64_text::Base64Error;
use crate::capabilities::Capabilities;
use crate::daemon;
use crate::daemon::{is_relay_request, own_capabilities, own_endpoints, parse_invite_at};
use crate::daemon::{parse_relay_request, TSO_FIRST_PORT, TSO_PORTS};
use crate::endpoint;
use crate::endpoint::{copy_endpoints, Endpoint, EndpointView, SocketAddr};
use crate::hexadecimal;
use crate::hexadecimal::push_hex;
use crate::identity::{Identity, IdentityProvider};
use crate::iface_watcher;
use crate::iface_watcher::{iface_changed, interface_addrs};
use crate::invite;
use crate::invite::{InviteCode, InviteView};
use crate::ipc;
use crate::ipc::{peer_connected, peer_disconnected, DaemonStatus, IpcCommand, IpcRequest};
use crate::ipc::IpcResponse;
use crate::peer;
use crate::peer::PeerId;
use crate::peer_map::PeerMap;
use crate::primitives;
use crate::session;
use crate::session::tso_addresses;
use crate::stun::{NatProbeResult, NatType};
use crate::text::same_text;
use crate::PROTOCOL_VERSION;
use vstd::prelude::*;

verus! {

/// A peer as it is kept in a file: its identifier, and where it was last known to be.
#[derive(Debug)]
pub struct StoredPeer {
    pub peer_id_hex: String,
    pub addr: Option<SocketAddr>,
}

/// The daemon.
#[derive(Debug)]
pub struct Daemon {
    identity: Identity,
    noise_pubkey: [u8; 32],
    probe: NatProbeResult,
    ipv6_addr: Option<[u8; 16]>,
    caps: Capabilities,
    endpoints: Vec<Endpoint>,
    connected: PeerMap<bool>,
    known: PeerMap<Vec<Endpoint>>,
    ifaces: Vec<SocketAddr>,
}

/// The daemon as a value: who it is, how it can be reached, and whom it knows.
#[verifier::ext_equal]
pub struct DaemonView {
    pub me: Seq<u8>,
    pub key: Seq<u8>,
    pub secret: Seq<u8>,
    pub noise_key: Seq<u8>,
    pub probe: NatProbeResult,
    pub ipv6_addr: Option<[u8; 16]>,
    pub capabilities: u8,
    pub endpoints: Seq<EndpointView>,
    pub connected: Set<Seq<u8>>,
    pub known: Map<Seq<u8>, Seq<EndpointView>>,
    pub ifaces: Seq<SocketAddr>,
}

/// The endpoints of the peers in a map, as values.
pub open spec fn known_views(m: Map<Seq<u8>, Vec<Endpoint>>) -> Map<Seq<u8>, Seq<EndpointView>> {
    m.map_values(|v: Vec<Endpoint>| endpoint::endpoint_views(v@))
}

impl View for Daemon {
    type V = DaemonView;

    closed spec fn view(&self) -> DaemonView {
        DaemonView {
            me: self.identity.id(),
            key: self.identity.key(),
            secret: self.identity.secret(),
            noise_key: self.noise_pubkey@,
            probe: self.probe,
            ipv6_addr: self.ipv6_addr,
            capabilities: self.caps.bits,
            endpoints: endpoint::endpoint_views(self.endpoints@),
            connected: self.connected@.dom(),
            known: known_views(self.known@),
            ifaces: self.ifaces@,
        }
    }
}

/// What the daemon does for an application.
#[derive(Debug)]
pub enum DaemonAction {
    /// Connect to the peer of this invite.
    Connect(InviteCode),
    /// Connect to a peer simultaneously, at these addresses, with ports from a range.
    ConnectTso {
        peer_id: PeerId,
        addrs: Vec<SocketAddr>,
        mappable_port_start: u16,
        mappable_port_end: u16,
    },
    /// Look a peer up, and connect to it.
    Find { peer_id: PeerId, text: String },
    /// Close the connection to a peer.
    Close(PeerId),
    /// Tell applications this.
    Tell(IpcResponse),
    /// Send this to a peer, and answer whether that worked.
    Deliver(PeerId, Vec<u8>),
    /// Answer that the peer is not connected.
    AnswerNotConnected,
    /// Answer with the status.
    AnswerStatus(DaemonStatus),
    /// Answer with a text.
    AnswerText(String),
    /// Stop.
    Stop,
}

/// What an incoming connection is for.
#[derive(Debug)]
pub enum IncomingAction {
    /// Relay to this peer.
    Relay(PeerId),
    /// Drop the connection.
    Drop,
    /// Keep the connection, with its first message, and tell applications this.
    Keep(IpcResponse),
}

/// What the daemon does from time to time.
#[derive(Debug)]
pub enum HeartbeatAction {
    /// Store the daemon's own record in the directory.
    StoreSelf,
    /// Keep the peers that are known.
    SavePeers(Vec<StoredPeer>),
    /// Keep the routes of the directory.
    SaveRoutes,
}

/// The name of a kind of NAT.
pub open spec fn nat_name(t: NatType) -> Seq<char> {
    match t {
        NatType::Unknown => "Unknown"@,
        NatType::Cone => "Cone"@,
        NatType::ADFSymmetric => "ADFSymmetric"@,
        NatType::APDFSymmetric => "APDFSymmetric"@,
    }
}

/// The name of a kind of NAT.
pub fn nat_type_name(t: NatType) -> (s: String)
    ensures
        s@ == nat_name(t),
{
    match t {
        NatType::Unknown => "Unknown".to_string(),
        NatType::Cone => "Cone".to_string(),
        NatType::ADFSymmetric => "ADFSymmetric".to_string(),
        NatType::APDFSymmetric => "APDFSymmetric".to_string(),
    }
}

/// The digits that messages show of an identifier.
pub open spec fn shown(id: Seq<u8>) -> Seq<char> {
    hexadecimal::hex_text(id.subrange(0, 8))
}

/// Whether a status is that of the daemon. The peers stand in any order.
pub open spec fn is_status(v: DaemonView, dht_nodes: usize, s: DaemonStatus) -> bool {
    &&& s.peer_id@ == shown(v.me)
    &&& s.nat_type@ == nat_name(v.probe.nat_type)
    &&& s.ipv6 == v.probe.ipv6_inbound
    &&& s.ipv6_addr == v.ipv6_addr
    &&& s.port_delta == v.probe.port_delta
    &&& s.stun_rtt_ms == v.probe.stun_rtt_ms
    &&& s.dht_nodes == dht_nodes
    &&& s.known_peers == v.known.dom().len()
    &&& s.connected_peers == v.connected.len()
    &&& exists|ids: Seq<Seq<u8>>|
        {
            &&& #[trigger] ids.no_duplicates()
            &&& ids.to_set() == v.connected
            &&& s.peers@.len() == ids.len()
            &&& forall|i: int| 0 <= i < ids.len() ==> (#[trigger] s.peers@[i])@ == shown(ids[i])
        }
}

/// The hint that an invite gives of the steps of the NAT; none for steps that do not
/// fit in a byte.
pub open spec fn delta_hint(delta: Option<u16>) -> u8 {
    match delta {
        Some(d) => if d <= 255 {
            d as u8
        } else {
            0
        },
        None => 0,
    }
}

/// The daemon's own invite as of some moment, with a signature.
pub open spec fn own_invite(v: DaemonView, now: u64, signature: Seq<u8>) -> InviteView {
    InviteView {
        version: PROTOCOL_VERSION,
        peer_id: v.me,
        ed25519_pk: v.key,
        noise_pk: v.noise_key,
        capabilities: v.capabilities,
        mappable_port_start: 50000,
        mappable_port_end: 50007,
        port_delta_hint: delta_hint(v.probe.port_delta),
        endpoints: v.endpoints,
        timestamp: now,
        signature,
    }
}

/// The daemon's signature of its own invite as of some moment.
pub open spec fn own_signature(v: DaemonView, now: u64) -> Seq<u8> {
    primitives::ed25519_signature(
        v.secret,
        invite::invite_payload(own_invite(v, now, Seq::empty())),
    )
}

/// The daemon's own invite as of some moment, signed with its key.
pub open spec fn signed_invite(v: DaemonView, now: u64) -> InviteView {
    own_invite(v, now, own_signature(v, now))
}

/// The URI of the daemon's own invite.
pub open spec fn own_uri(v: DaemonView, now: u64) -> Seq<char> {
    "lain://"@ + invite::invite_text(signed_invite(v, now))
}

/// Whether whoever reads the URI of the daemon's own invite within half an hour takes
/// it. The daemon's public key must be that of its secret key, its Noise key must not
/// be zero, and the signature must not be degenerate.
pub open spec fn own_uri_taken(v: DaemonView, now: u64) -> bool {
    v.key == primitives::ed25519_public_key(v.secret) && has_noise_key(v)
        && !primitives::is_degenerate(own_signature(v, now)) ==> forall|later: u64|
        now <= later <= now + 1800 ==> #[trigger] daemon::accepted_invite(own_uri(v, now), later)
            == Some(signed_invite(v, now))
}

/// Whether the daemon's Noise key is not zero.
pub open spec fn has_noise_key(v: DaemonView) -> bool {
    exists|i: int| 0 <= i < v.noise_key.len() && #[trigger] v.noise_key[i] != 0
}

/// Whether nothing is done.
pub open spec fn idle(before: DaemonView, after: DaemonView, acts: Seq<DaemonAction>) -> bool {
    after == before && acts.len() == 0
}

/// What follows a command.
pub open spec fn command_follows(
    before: DaemonView,
    cmd: IpcCommand,
    now: u64,
    dht_nodes: usize,
    after: DaemonView,
    acts: Seq<DaemonAction>,
) -> bool {
    match cmd {
        IpcCommand::ConnectPeer { peer_id, invite } => match daemon::accepted_invite(
            invite@,
            now,
        ) {
            None => idle(before, after, acts),
            Some(v) => {
                &&& after == (DaemonView {
                    known: before.known.insert(v.peer_id, v.endpoints),
                    ..before
                })
                &&& acts.len() == 1
                &&& acts[0] matches DaemonAction::Connect(code) && code@ == v
            },
        },
        IpcCommand::TsoPeer { invite } => match daemon::accepted_invite(invite@, now) {
            None => idle(before, after, acts),
            Some(v) => if tso_views(v.endpoints).len() == 0 {
                idle(before, after, acts)
            } else {
                &&& after == before
                &&& acts.len() == 1
                &&& acts[0] matches DaemonAction::ConnectTso {
                    peer_id,
                    addrs,
                    mappable_port_start,
                    mappable_port_end,
                } && peer_id@ == v.peer_id && iface_watcher::addr_views(addrs@) == tso_views(
                    v.endpoints,
                ) && mappable_port_start == v.mappable_port_start && mappable_port_end
                    == v.mappable_port_end
            },
        },
        IpcCommand::FindPeer { peer_id } => match peer::parsed_peer_id(peer_id@) {
            Err(_) => idle(before, after, acts),
            Ok(id) => {
                &&& after == before
                &&& acts.len() == 1
                &&& acts[0] matches DaemonAction::Find { peer_id: p, text } && p@ == id && text@
                    == peer_id@
            },
        },
        IpcCommand::DisconnectPeer { peer_id } => {
            let there = before.connected.contains(peer_id@);
            &&& after == (DaemonView { connected: before.connected.remove(peer_id@), ..before })
            &&& acts.len() == if there {
                2nat
            } else {
                1nat
            }
            &&& there ==> acts[0] == DaemonAction::Close(peer_id)
            &&& acts.last() matches DaemonAction::Tell(r) && r@ == ipc::event_view(
                "peer_disconnected"@,
                peer_id@,
                None,
            )
        },
        IpcCommand::SendToPeer { peer_id, data } => {
            &&& after == before
            &&& acts.len() == 1
            &&& if before.connected.contains(peer_id@) {
                acts[0] == DaemonAction::Deliver(peer_id, data)
            } else {
                acts[0] is AnswerNotConnected
            }
        },
        IpcCommand::Shutdown => {
            &&& after == before
            &&& acts.len() == 1
            &&& acts[0] is Stop
        },
        IpcCommand::GetStatus => {
            &&& after == before
            &&& acts.len() == 1
            &&& acts[0] matches DaemonAction::AnswerStatus(s) && is_status(before, dht_nodes, s)
        },
        IpcCommand::GetWhoami => {
            &&& after == before
            &&& acts.len() == 1
            &&& acts[0] matches DaemonAction::AnswerText(s) && s@ == shown(before.me)
        },
        IpcCommand::GetInviteCode => {
            &&& after == before
            &&& acts.len() == 1
            &&& acts[0] matches DaemonAction::AnswerText(s) && s@ == own_uri(before, now)
            &&& own_uri_taken(before, now)
        },
        IpcCommand::AcceptConnection { connection_id } => idle(before, after, acts),
        IpcCommand::RejectConnection { connection_id } => idle(before, after, acts),
    }
}

/// The addresses of the endpoints for simultaneous connections, as values.
pub open spec fn tso_views(eps: Seq<EndpointView>) -> Seq<endpoint::AddrView>
    decreases eps.len(),
{
    if eps.len() == 0 {
        Seq::empty()
    } else if eps.last().kind == endpoint::EndpointKind::TSO {
        tso_views(eps.drop_last()).push(eps.last().addr)
    } else {
        tso_views(eps.drop_last())
    }
}

proof fn lemma_tso_views(eps: Seq<Endpoint>)
    ensures
        iface_watcher::addr_views(session::tso_addrs(eps)) == tso_views(
            endpoint::endpoint_views(eps),
        ),
    decreases eps.len(),
{
    let v = endpoint::endpoint_views(eps);
    if eps.len() > 0 {
        lemma_tso_views(eps.drop_last());
        assert(v.drop_last() =~= endpoint::endpoint_views(eps.drop_last()));
        assert(v.last() == eps.last()@);
        let t = session::tso_addrs(eps.drop_last());
        assert(iface_watcher::addr_views(t.push(eps.last().addr)) =~= iface_watcher::addr_views(
            t,
        ).push(eps.last().addr@));
    } else {
        assert(iface_watcher::addr_views(session::tso_addrs(eps)) =~= tso_views(v));
    }
}

/// The peers that are known, as they are kept in a file, in any order: each with its
/// identifier and its first address.
pub open spec fn is_stored(known: Map<Seq<u8>, Seq<EndpointView>>, s: Seq<StoredPeer>) -> bool {
    exists|ids: Seq<Seq<u8>>|
        {
            &&& #[trigger] ids.no_duplicates()
            &&& ids.to_set() == known.dom()
            &&& s.len() == ids.len()
            &&& forall|i: int|
                0 <= i < ids.len() ==> (#[trigger] s[i]).peer_id_hex@ == hexadecimal::hex_text(
                    ids[i],
                ) && match s[i].addr {
                    Some(a) => known[ids[i]].len() > 0 && a@ == known[ids[i]][0].addr,
                    None => known[ids[i]].len() == 0,
                }
        }
}

/// What follows a heartbeat: the record of the daemon is stored, the peers and the
/// routes are kept, and the record is stored once more where the addresses of the
/// machine have changed.
pub open spec fn heartbeat_follows(
    before: DaemonView,
    current: Seq<SocketAddr>,
    after: DaemonView,
    acts: Seq<HeartbeatAction>,
) -> bool {
    let changed = before.ifaces != current;
    &&& after == (DaemonView { ifaces: current, ..before })
    &&& acts.len() == if changed {
        4nat
    } else {
        3nat
    }
    &&& acts[0] is StoreSelf
    &&& acts[1] matches HeartbeatAction::SavePeers(s) && is_stored(before.known, s@)
    &&& changed ==> acts[2] is StoreSelf
    &&& acts.last() is SaveRoutes
}

/// What follows an incoming connection, by its first message: a request to relay is
/// carried out, or dropped where it names no peer; any other connection is kept.
pub open spec fn incoming_follows(
    before: DaemonView,
    id: Seq<u8>,
    first: Seq<u8>,
    after: DaemonView,
    act: IncomingAction,
) -> bool {
    if daemon::asks_to_relay(first) {
        &&& after == before
        &&& match daemon::relay_parties(first) {
            Some((_, to)) => act matches IncomingAction::Relay(p) && p@ == to,
            None => act is Drop,
        }
    } else {
        &&& after == (DaemonView {
            connected: before.connected.insert(id),
            known: before.known.insert(id, Seq::empty()),
            ..before
        })
        &&& act matches IncomingAction::Keep(r) && r@ == ipc::event_view(
            "peer_connected"@,
            id,
            None,
        )
    }
}

/// Whether a text names a peer: by the digits that messages show of it, or by all of
/// its digits.
pub open spec fn names_peer(text: Seq<char>, id: Seq<u8>) -> bool {
    text == shown(id) || match peer::parsed_peer_id(text) {
        Ok(named) => named == id,
        Err(_) => false,
    }
}

/// Whether an event tells that a peer is disconnected.
pub open spec fn tells_of_loss(r: ipc::ResponseView, id: Seq<u8>) -> bool {
    match r {
        ipc::ResponseView::Event { event, peer_id: Some(text), data } => event
            == "peer_disconnected"@ && names_peer(text, id),
        _ => false,
    }
}

/// What follows an event that applications are told: peers that are disconnected are no
/// longer connected.
pub open spec fn event_follows(before: DaemonView, event: ipc::ResponseView) -> DaemonView {
    DaemonView {
        connected: before.connected.filter(|id: Seq<u8>| !tells_of_loss(event, id)),
        ..before
    }
}

/// Whether a text names a peer.
fn is_named(text: &str, id: &PeerId) -> (r: bool)
    ensures
        r == names_peer(text@, id@),
{
    let digits: String = id.short_hex();
    if same_text(text, digits.as_str()) {
        return true;
    }
    match PeerId::from_hex(text) {
        Ok(named) => {
            proof {
                peer::lemma_peer_id_ext(named, *id);
            }
            named == *id
        },
        Err(_) => false,
    }
}

impl Daemon {
    /// The identity is in order, the endpoints fit an invite, and no peer stands twice.
    pub closed spec fn wf(&self) -> bool {
        &&& self.identity.wf()
        &&& self.endpoints@.len() <= 255
        &&& forall|i: int|
            0 <= i < self.endpoints@.len() ==> (#[trigger] self.endpoints@[i]).addr@.on_wire()
        &&& self.connected.wf()
        &&& self.known.wf()
    }

    /// The daemon with an identity, of what was found out about the network: it knows
    /// no peer yet.
    pub fn new(
        identity: Identity,
        probe: NatProbeResult,
        ipv6_addr: Option<[u8; 16]>,
        transport_port: u16,
        ifaces: Vec<SocketAddr>,
    ) -> (r: Self)
        requires
            identity.wf(),
        ensures
            r.wf(),
            r@.me == identity.id(),
            r@.key == identity.key(),
            r@.secret == identity.secret(),
            r@.noise_key == primitives::x25519_public_key(
                crate::identity::noise_secret(identity.secret()),
            ),
            r@.probe == probe,
            r@.ipv6_addr == ipv6_addr,
            r@.capabilities == (if probe.ipv6_inbound {
                Capabilities::IPV6_INBOUND
            } else {
                0u8
            }) | (if daemon::can_relay(probe) {
                Capabilities::RELAY_CAPABLE
            } else {
                0u8
            }),
            r@.endpoints == daemon::endpoints_of(ipv6_addr, probe.mapped_addr, transport_port),
            r@.connected == Set::<Seq<u8>>::empty(),
            r@.known == Map::<Seq<u8>, Seq<EndpointView>>::empty(),
            r@.ifaces == ifaces@,
    {
        let (_, noise_pubkey): ([u8; 32], [u8; 32]) = identity.noise_keypair();
        let caps: Capabilities = own_capabilities(&probe);
        let endpoints: Vec<Endpoint> = own_endpoints(
            ipv6_addr,
            probe.mapped_addr,
            transport_port,
        );
        let r: Daemon = Daemon {
            identity,
            noise_pubkey,
            probe,
            ipv6_addr,
            caps,
            endpoints,
            connected: PeerMap::new(),
            known: PeerMap::new(),
            ifaces,
        };
        assert(r@.known =~= Map::empty());
        assert(r@.connected =~= Set::empty());
        proof {
            let v = endpoint::endpoint_views(endpoints@);
            assert(v.len() <= 10);
            assert forall|i: int| 0 <= i < endpoints@.len() implies (
            #[trigger] endpoints@[i]).addr@.on_wire() by {
                assert(v[i] == endpoints@[i]@);
                assert(v[i].addr.on_wire());
            }
        }
        r
    }

    /// The identifier of the daemon.
    pub fn peer_id(&self) -> (r: PeerId)
        ensures
            r@ == self@.me,
    {
        self.identity.peer_id()
    }

    /// The public key of the daemon.
    pub fn public_key(&self) -> (r: [u8; 32])
        ensures
            r@ == self@.key,
    {
        *self.identity.public_key()
    }

    /// The public Noise key of the daemon.
    pub fn noise_pubkey(&self) -> (r: [u8; 32])
        ensures
            r@ == self@.noise_key,
    {
        self.noise_pubkey
    }

    /// What the daemon offers to others.
    pub fn capabilities(&self) -> (r: Capabilities)
        ensures
            r.bits == self@.capabilities,
    {
        self.caps
    }

    /// The endpoints of the daemon.
    pub fn endpoints(&self) -> (r: Vec<Endpoint>)
        ensures
            endpoint::endpoint_views(r@) == self@.endpoints,
    {
        copy_endpoints(self.endpoints.as_slice())
    }

    /// Whether a peer is connected.
    pub fn is_connected(&self, peer_id: &PeerId) -> (r: bool)
        ensures
            r == self@.connected.contains(peer_id@),
    {
        self.connected.contains_key(peer_id)
    }

    /// Takes note that a peer is connected.
    pub fn on_connected(&mut self, peer_id: PeerId)
        requires
            old(self).wf(),
        ensures
            final(self).wf(),
            final(self)@ == (DaemonView {
                connected: old(self)@.connected.insert(peer_id@),
                ..old(self)@
            }),
    {
        let _ = self.connected.insert(peer_id, true);
        assert(self@.connected =~= old(self)@.connected.insert(peer_id@));
    }

    /// Takes note of where a peer may be.
    fn remember(&mut self, peer_id: PeerId, endpoints: Vec<Endpoint>)
        requires
            old(self).wf(),
        ensures
            final(self).wf(),
            final(self)@ == (DaemonView {
                known: old(self)@.known.insert(
                    peer_id@,
                    endpoint::endpoint_views(endpoints@),
                ),
                ..old(self)@
            }),
    {
        let _ = self.known.insert(peer_id, endpoints);
        assert(self@.known =~= old(self)@.known.insert(
            peer_id@,
            endpoint::endpoint_views(endpoints@),
        ));
    }

    /// The peers in a map, by the digits that messages show of them.
    fn connected_names(&self) -> (r: Vec<String>)
        requires
            self.wf(),
        ensures
            r@.len() == self.connected.keys().len(),
            forall|i: int|
                0 <= i < r@.len() ==> (#[trigger] r@[i])@ == shown(self.connected.keys()[i]),
    {
        let mut r: Vec<String> = Vec::new();
        let mut i: usize = 0;
        while i < self.connected.len()
            invariant
                i <= self.connected.keys().len(),
                r@.len() == i,
                forall|j: int|
                    0 <= j < i ==> (#[trigger] r@[j])@ == shown(self.connected.keys()[j]),
            decreases self.connected.keys().len() - i,
        {
            let id: PeerId = self.connected.key_at(i);
            r.push(id.short_hex());
            i = i + 1;
        }
        r
    }

    /// How the daemon is doing, with so many nodes in its routing table.
    pub fn status(&self, dht_nodes: usize) -> (s: DaemonStatus)
        requires
            self.wf(),
        ensures
            is_status(self@, dht_nodes, s),
    {
        let peers: Vec<String> = self.connected_names();
        let s: DaemonStatus = DaemonStatus {
            peer_id: self.identity.peer_id().short_hex(),
            nat_type: nat_type_name(self.probe.nat_type),
            ipv6: self.probe.ipv6_inbound,
            ipv6_addr: self.ipv6_addr,
            port_delta: self.probe.port_delta,
            stun_rtt_ms: self.probe.stun_rtt_ms,
            dht_nodes,
            known_peers: self.known.len(),
            connected_peers: self.connected.len(),
            peers,
        };
        proof {
            let ids = self.connected.keys();
            self.connected.lemma_keys();
            self.known.lemma_keys();
            assert(ids.to_set() =~= self@.connected);
            ids.unique_seq_to_set();
            let known_ids = self.known.keys();
            assert(known_ids.to_set() =~= self@.known.dom());
            known_ids.unique_seq_to_set();
        }
        s
    }

    /// The URI of the daemon's own invite as of some moment.
    pub fn invite_uri(&self, now: u64) -> (uri: String)
        requires
            self.wf(),
        ensures
            uri@ == own_uri(self@, now),
            own_uri_taken(self@, now),
    {
        let identity: &Identity = &self.identity;
        let sign = |data: &[u8]| -> (s: [u8; 64])
            ensures
                s@ == primitives::ed25519_signature(identity.secret(), data@),
                primitives::own_signature_holds(identity.secret(), data@, s@),
            { identity.sign(data) };
        let hint: u8 = match self.probe.port_delta {
            Some(d) => if d <= 255 {
                d as u8
            } else {
                0
            },
            None => 0,
        };
        let code: InviteCode = InviteCode::new_at(
            self.identity.peer_id(),
            *self.identity.public_key(),
            self.noise_pubkey,
            self.caps,
            copy_endpoints(self.endpoints.as_slice()),
            TSO_FIRST_PORT,
            TSO_FIRST_PORT + TSO_PORTS - 1,
            hint,
            now,
            &sign,
        );
        proof {
            let v = self@;
            let c = code@;
            assert(c == own_invite(v, now, c.signature));
            assert(invite::invite_payload(c) == invite::invite_payload(
                own_invite(v, now, Seq::empty()),
            ));
            assert(c == signed_invite(v, now));
            assert(primitives::own_signature_holds(
                v.secret,
                invite::invite_payload(c),
                c.signature,
            ));
            assert forall|i: int| 0 <= i < c.endpoints.len() implies (
            #[trigger] c.endpoints[i]).addr.on_wire() by {
                assert(c.endpoints[i] == self.endpoints@[i]@);
            }
            assert(invite::invite_fits(c));
            invite::law_invite_as_sent(c);
            if v.key == primitives::ed25519_public_key(v.secret) && has_noise_key(v)
                && !primitives::is_degenerate(own_signature(v, now)) {
                assert forall|later: u64| now <= later <= now + 1800 implies
                    #[trigger] daemon::accepted_invite(own_uri(v, now), later) == Some(c) by {
                    daemon::law_valid_invite_accepted(c, later);
                }
            }
        }
        code.to_uri()
    }

    /// What to do for a command, at some moment and with so many nodes in the routing
    /// table.
    pub fn on_command(&mut self, cmd: IpcCommand, now: u64, dht_nodes: usize) -> (acts: Vec<
        DaemonAction,
    >)
        requires
            old(self).wf(),
        ensures
            final(self).wf(),
            command_follows(old(self)@, cmd, now, dht_nodes, final(self)@, acts@),
    {
        let mut acts: Vec<DaemonAction> = Vec::new();
        match cmd {
            IpcCommand::ConnectPeer { peer_id: _, invite } => {
                match parse_invite_at(invite.as_str(), now) {
                    None => {},
                    Some(code) => {
                        let endpoints: Vec<Endpoint> = copy_endpoints(code.endpoints.as_slice());
                        self.remember(code.peer_id, endpoints);
                        acts.push(DaemonAction::Connect(code));
                    },
                }
            },
            IpcCommand::TsoPeer { invite } => {
                match parse_invite_at(invite.as_str(), now) {
                    None => {},
                    Some(code) => {
                        let addrs: Vec<SocketAddr> = tso_addresses(code.endpoints.as_slice());
                        proof {
                            lemma_tso_views(code.endpoints@);
                        }
                        if addrs.len() > 0 {
                            acts.push(
                                DaemonAction::ConnectTso {
                                    peer_id: code.peer_id,
                                    addrs,
                                    mappable_port_start: code.mappable_port_start,
                                    mappable_port_end: code.mappable_port_end,
                                },
                            );
                        }
                    },
                }
            },
            IpcCommand::FindPeer { peer_id } => {
                match PeerId::from_hex(peer_id.as_str()) {
                    Ok(id) => {
                        acts.push(DaemonAction::Find { peer_id: id, text: peer_id });
                    },
                    Err(_) => {},
                }
            },
            IpcCommand::DisconnectPeer { peer_id } => {
                match self.connected.remove(&peer_id) {
                    Some(_) => {
                        acts.push(DaemonAction::Close(peer_id));
                    },
                    None => {},
                }
                acts.push(DaemonAction::Tell(peer_disconnected(&peer_id)));
                assert(self@.connected =~= old(self)@.connected.remove(peer_id@));
            },
            IpcCommand::SendToPeer { peer_id, data } => {
                if self.connected.contains_key(&peer_id) {
                    acts.push(DaemonAction::Deliver(peer_id, data));
                } else {
                    acts.push(DaemonAction::AnswerNotConnected);
                }
            },
            IpcCommand::Shutdown => {
                acts.push(DaemonAction::Stop);
            },
            IpcCommand::GetStatus => {
                let s: DaemonStatus = self.status(dht_nodes);
                acts.push(DaemonAction::AnswerStatus(s));
            },
            IpcCommand::GetWhoami => {
                acts.push(DaemonAction::AnswerText(self.identity.peer_id().short_hex()));
            },
            IpcCommand::GetInviteCode => {
                let uri: String = self.invite_uri(now);
                acts.push(DaemonAction::AnswerText(uri));
            },
            IpcCommand::AcceptConnection { connection_id: _ } => {},
            IpcCommand::RejectConnection { connection_id: _ } => {},
        }
        acts
    }

    /// What to do about an incoming connection, by its first message.
    pub fn on_incoming(&mut self, peer_id: PeerId, first: &[u8]) -> (act: IncomingAction)
        requires
            old(self).wf(),
        ensures
            final(self).wf(),
            incoming_follows(old(self)@, peer_id@, first@, final(self)@, act),
    {
        proof {
            reveal_strlit("");
        }
        if is_relay_request(first) {
            return match parse_relay_request(first) {
                Some((_, to)) => IncomingAction::Relay(to),
                None => IncomingAction::Drop,
            };
        }
        self.on_connected(peer_id);
        let none: Vec<Endpoint> = Vec::new();
        assert(endpoint::endpoint_views(none@) =~= Seq::empty());
        self.remember(peer_id, none);
        IncomingAction::Keep(peer_connected(&peer_id, ""))
    }

    /// Takes note of an event that applications are told: a peer that is disconnected
    /// is no longer connected.
    pub fn on_event(&mut self, event: &IpcResponse)
        requires
            old(self).wf(),
        ensures
            final(self).wf(),
            final(self)@ == event_follows(old(self)@, event@),
    {
        match event {
            IpcResponse::Event { event: name, peer_id: Some(text), data: _ } => {
                if same_text(name.as_str(), "peer_disconnected") {
                    self.forget_named(text.as_str());
                    assert(self@ =~= event_follows(old(self)@, event@));
                    return;
                }
            },
            _ => {},
        }
        assert(self@ =~= event_follows(old(self)@, event@));
    }

    /// Takes note that the peers that a text names are not connected.
    fn forget_named(&mut self, text: &str)
        requires
            old(self).wf(),
        ensures
            final(self).wf(),
            final(self)@ == (DaemonView {
                connected: old(self)@.connected.filter(|id: Seq<u8>| !names_peer(text@, id)),
                ..old(self)@
            }),
    {
        let ghost ids = self.connected.keys();
        let mut kept: PeerMap<bool> = PeerMap::new();
        let mut i: usize = 0;
        while i < self.connected.len()
            invariant
                self.connected.keys() == ids,
                *self == *old(self),
                i <= ids.len(),
                kept.wf(),
                forall|id: Seq<u8>| #[trigger]
                    kept@.dom().contains(id) <==> !names_peer(text@, id) && ids.subrange(
                        0,
                        i as int,
                    ).contains(id),
            decreases ids.len() - i,
        {
            let id: PeerId = self.connected.key_at(i);
            let ghost before = kept@;
            if !is_named(text, &id) {
                let _ = kept.insert(id, true);
            }
            proof {
                let head = ids.subrange(0, i as int);
                let next = ids.subrange(0, i + 1);
                assert(next =~= head.push(id@));
                assert forall|x: Seq<u8>| next.contains(x) <==> head.contains(x) || x == id@ by {
                    if head.contains(x) {
                        let j = choose|j: int| 0 <= j < head.len() && head[j] == x;
                        assert(next[j] == x);
                    }
                    assert(next[i as int] == id@);
                }
            }
            i = i + 1;
        }
        proof {
            assert(ids.subrange(0, ids.len() as int) =~= ids);
            self.connected.lemma_keys();
            assert(kept@.dom() =~= self@.connected.filter(|id: Seq<u8>| !names_peer(text@, id)));
        }
        self.connected = kept;
    }

    /// The peers that are known, as they are kept in a file.
    pub fn stored_peers(&self) -> (r: Vec<StoredPeer>)
        requires
            self.wf(),
        ensures
            is_stored(self@.known, r@),
    {
        let ghost ids = self.known.keys();
        let mut r: Vec<StoredPeer> = Vec::new();
        let mut i: usize = 0;
        while i < self.known.len()
            invariant
                self.wf(),
                ids == self.known.keys(),
                i <= ids.len(),
                r@.len() == i,
                forall|j: int|
                    0 <= j < i ==> (#[trigger] r@[j]).peer_id_hex@ == hexadecimal::hex_text(ids[j])
                        && match r@[j].addr {
                        Some(a) => self@.known[ids[j]].len() > 0 && a@
                            == self@.known[ids[j]][0].addr,
                        None => self@.known[ids[j]].len() == 0,
                    },
            decreases ids.len() - i,
        {
            let id: PeerId = self.known.key_at(i);
            let eps: &Vec<Endpoint> = self.known.value_at(i);
            assert(self@.known[id@] == endpoint::endpoint_views(eps@));
            let addr: Option<SocketAddr> = if eps.len() > 0 {
                Some(eps[0].addr)
            } else {
                None
            };
            r.push(StoredPeer { peer_id_hex: id.to_hex(), addr });
            i = i + 1;
        }
        proof {
            self.known.lemma_keys();
            assert(ids.to_set() =~= self@.known.dom());
        }
        r
    }

    /// The signature of the daemon over the file of peers, in hexadecimal.
    pub fn sign_peers(&self, data: &[u8]) -> (r: String)
        ensures
            r@ == hexadecimal::hex_text(primitives::ed25519_signature(self@.secret, data@)),
    {
        let signature: [u8; 64] = self.identity.sign(data);
        let mut r: String = String::new();
        push_hex(&mut r, signature.as_slice());
        assert(r@ =~= hexadecimal::hex_text(signature@));
        r
    }

    /// What to do from time to time, with the addresses that the machine has now.
    pub fn on_heartbeat(&mut self, ifaces: &[SocketAddr]) -> (acts: Vec<HeartbeatAction>)
        requires
            old(self).wf(),
        ensures
            final(self).wf(),
            exists|current: Seq<SocketAddr>|
                {
                    &&& #[trigger] iface_watcher::addr_views(current)
                        == iface_watcher::outside_addrs(ifaces@)
                    &&& heartbeat_follows(old(self)@, current, final(self)@, acts@)
                },
    {
        let current: Vec<SocketAddr> = interface_addrs(ifaces);
        let mut acts: Vec<HeartbeatAction> = Vec::new();
        acts.push(HeartbeatAction::StoreSelf);
        acts.push(HeartbeatAction::SavePeers(self.stored_peers()));
        let changed: bool = iface_changed(self.ifaces.as_slice(), current.as_slice());
        let ghost now = current@;
        if changed {
            acts.push(HeartbeatAction::StoreSelf);
            self.ifaces = current;
        }
        acts.push(HeartbeatAction::SaveRoutes);
        assert(heartbeat_follows(old(self)@, now, self@, acts@));
        acts
    }
}

/// The daemon knows a peer by the invite that it was asked to connect to, and never
/// counts it as connected for that alone.
pub proof fn law_connect_remembers(
    before: DaemonView,
    cmd: IpcCommand,
    now: u64,
    dht_nodes: usize,
    after: DaemonView,
    acts: Seq<DaemonAction>,
    invite: InviteView,
)
    requires
        command_follows(before, cmd, now, dht_nodes, after, acts),
        cmd matches IpcCommand::ConnectPeer { peer_id, invite: uri } && daemon::accepted_invite(
            uri@,
            now,
        ) == Some(invite),
    ensures
        after.known.dom().contains(invite.peer_id),
        after.known[invite.peer_id] == invite.endpoints,
        after.connected == before.connected,
{
}

/// Commands never change who the daemon is or how it can be reached, and a peer that
/// was disconnected on command is connected no longer.
pub proof fn law_commands_keep_identity(
    before: DaemonView,
    cmd: IpcCommand,
    now: u64,
    dht_nodes: usize,
    after: DaemonView,
    acts: Seq<DaemonAction>,
)
    requires
        command_follows(before, cmd, now, dht_nodes, after, acts),
    ensures
        after.me == before.me,
        after.key == before.key,
        after.noise_key == before.noise_key,
        after.capabilities == before.capabilities,
        after.endpoints == before.endpoints,
        after.connected.subset_of(before.connected),
        cmd matches IpcCommand::DisconnectPeer { peer_id } ==> !after.connected.contains(peer_id@),
{
}

/// After the event that tells that a peer is disconnected, the peer is connected no
/// longer, and whatever is to be sent to it is answered so. Everyone else stays, unless
/// messages show the same digits of them.
pub proof fn law_lost_peer_is_gone(
    before: DaemonView,
    peer_id: PeerId,
    data: Vec<u8>,
    now: u64,
    dht_nodes: usize,
    after: DaemonView,
    acts: Seq<DaemonAction>,
)
    requires
        command_follows(
            event_follows(before, ipc::event_view("peer_disconnected"@, peer_id@, None)),
            IpcCommand::SendToPeer { peer_id, data },
            now,
            dht_nodes,
            after,
            acts,
        ),
    ensures
        ({
            let lost = event_follows(
                before,
                ipc::event_view("peer_disconnected"@, peer_id@, None),
            );
            &&& !lost.connected.contains(peer_id@)
            &&& forall|other: Seq<u8>| #[trigger]
                before.connected.contains(other) && shown(other) != shown(peer_id@)
                    ==> lost.connected.contains(other)
        }),
        acts.len() == 1 && acts[0] is AnswerNotConnected,
{
    hexadecimal::law_hex_roundtrip(peer_id@.subrange(0, 8));
}

/// Who asks to connect to the URI of a daemon's own invite, within half an hour, connects
/// to that daemon: to the peer with its identifier and its Noise key, at its endpoints. Who
/// asks for a simultaneous connection, makes one to it, at those of its endpoints that are
/// for that. The invited daemon's public key must be that of its secret key, its Noise key
/// must not be zero, and its signature must not be degenerate.
pub proof fn law_invited_peer_is_connected_to(
    invited: Daemon,
    made_at: u64,
    text: String,
    req: IpcRequest,
    cmd: IpcCommand,
    reply: ipc::IpcReply,
    before: DaemonView,
    now: u64,
    dht_nodes: usize,
    after: DaemonView,
    acts: Seq<DaemonAction>,
)
    requires
        own_uri_taken(invited@, made_at),
        invited@.key == primitives::ed25519_public_key(invited@.secret),
        has_noise_key(invited@),
        !primitives::is_degenerate(own_signature(invited@, made_at)),
        text@ == own_uri(invited@, made_at),
        made_at <= now <= made_at + 1800,
        ipc::dispatches(req, Some(cmd), reply),
        command_follows(before, cmd, now, dht_nodes, after, acts),
    ensures
        req matches IpcRequest::Connect { peer_id, invite } ==> invite@ == text@ ==> {
            &&& acts.len() == 1
            &&& acts[0] matches DaemonAction::Connect(code) && code@.peer_id == invited@.me
                && code@.noise_pk == invited@.noise_key && code@.endpoints == invited@.endpoints
            &&& after.known.dom().contains(invited@.me)
            &&& after.known[invited@.me] == invited@.endpoints
        },
        req matches IpcRequest::Tso { invite } ==> invite@ == text@ ==> (exists|i: int|
            0 <= i < invited@.endpoints.len() && (#[trigger] invited@.endpoints[i]).kind
                == endpoint::EndpointKind::TSO) ==> {
            &&& acts.len() == 1
            &&& acts[0] matches DaemonAction::ConnectTso {
                peer_id,
                addrs,
                mappable_port_start,
                mappable_port_end,
            } && peer_id@ == invited@.me && mappable_port_start == 50000 && mappable_port_end
                == 50007 && (forall|i: int|
                0 <= i < invited@.endpoints.len() && (#[trigger] invited@.endpoints[i]).kind
                    == endpoint::EndpointKind::TSO ==> iface_watcher::addr_views(addrs@).contains(
                    invited@.endpoints[i].addr,
                )) && (forall|j: int|
                #![trigger addrs@[j]]
                0 <= j < addrs@.len() ==> exists|i: int|
                    0 <= i < invited@.endpoints.len() && (
                    #[trigger] invited@.endpoints[i]).kind == endpoint::EndpointKind::TSO
                        && invited@.endpoints[i].addr == addrs@[j]@)
        },
{
    let v = invited@;
    assert(daemon::accepted_invite(own_uri(v, made_at), now) == Some(signed_invite(v, made_at)));
    lemma_tso_views_all(v.endpoints);
    if let IpcRequest::Tso { invite } = req {
        if invite@ == text@ && exists|i: int|
            0 <= i < v.endpoints.len() && (#[trigger] v.endpoints[i]).kind
                == endpoint::EndpointKind::TSO {
            let i = choose|i: int|
                0 <= i < v.endpoints.len() && (#[trigger] v.endpoints[i]).kind
                    == endpoint::EndpointKind::TSO;
            assert(tso_views(v.endpoints).contains(v.endpoints[i].addr));
            if let DaemonAction::ConnectTso {
                peer_id,
                addrs,
                mappable_port_start,
                mappable_port_end,
            } = acts[0] {
                let t = iface_watcher::addr_views(addrs@);
                assert forall|j: int| #![trigger addrs@[j]] 0 <= j < addrs@.len() implies exists|
                    i: int,
                |
                    0 <= i < v.endpoints.len() && (#[trigger] v.endpoints[i]).kind
                        == endpoint::EndpointKind::TSO && v.endpoints[i].addr == addrs@[j]@ by {
                    assert(t[j] == addrs@[j]@);
                    assert(t.contains(t[j]));
                }
            }
        }
    }
}

/// The addresses for simultaneous connections are those of all endpoints for that.
proof fn lemma_tso_views_all(eps: Seq<EndpointView>)
    ensures
        forall|i: int|
            0 <= i < eps.len() && (#[trigger] eps[i]).kind == endpoint::EndpointKind::TSO
                ==> tso_views(eps).contains(eps[i].addr),
        forall|a: endpoint::AddrView| #[trigger]
            tso_views(eps).contains(a) ==> exists|i: int|
                0 <= i < eps.len() && (#[trigger] eps[i]).kind == endpoint::EndpointKind::TSO
                    && eps[i].addr == a,
    decreases eps.len(),
{
    if eps.len() > 0 {
        let front = eps.drop_last();
        let q = tso_views(front);
        let r = tso_views(eps);
        lemma_tso_views_all(front);
        assert forall|i: int|
            0 <= i < eps.len() && (#[trigger] eps[i]).kind
                == endpoint::EndpointKind::TSO implies r.contains(eps[i].addr) by {
            if i < front.len() {
                assert(front[i] == eps[i]);
                let j = choose|j: int| 0 <= j < q.len() && q[j] == eps[i].addr;
                assert(r[j] == eps[i].addr);
            } else {
                assert(r[r.len() - 1] == eps.last().addr);
            }
        }
        assert forall|a: endpoint::AddrView| #[trigger] r.contains(a) implies exists|i: int|
            0 <= i < eps.len() && (#[trigger] eps[i]).kind == endpoint::EndpointKind::TSO
                && eps[i].addr == a by {
            let j = choose|j: int| 0 <= j < r.len() && r[j] == a;
            if j < q.len() {
                assert(q[j] == a);
                assert(q.contains(a));
                let i = choose|i: int|
                    0 <= i < front.len() && (#[trigger] front[i]).kind
                        == endpoint::EndpointKind::TSO && front[i].addr == a;
                assert(eps[i] == front[i]);
            } else {
                assert(eps[eps.len() - 1].addr == a);
            }
        }
    }
}

/// What applications ask for by the digits of a peer's identifier is done for that peer:
/// it is looked up, disconnected, or sent just the bytes that were asked to be sent to it,
/// where it is connected. Where it is not, the application is told so, and nothing is sent.
/// A daemon that is asked who it is answers the digits of the first eight bytes of its
/// identifier, and it stops where it is asked to, and nowhere else.
pub proof fn law_requests_carried_out(
    peer: PeerId,
    bytes: Seq<u8>,
    req: IpcRequest,
    cmd: IpcCommand,
    reply: ipc::IpcReply,
    before: DaemonView,
    now: u64,
    dht_nodes: usize,
    after: DaemonView,
    acts: Seq<DaemonAction>,
)
    requires
        ipc::dispatches(req, Some(cmd), reply),
        command_follows(before, cmd, now, dht_nodes, after, acts),
    ensures
        req matches IpcRequest::FindPeer { peer_id } ==> peer_id@ == hexadecimal::hex_text(peer@)
            ==> {
            &&& after == before
            &&& acts.len() == 1
            &&& acts[0] matches DaemonAction::Find { peer_id: p, text } && p@ == peer@ && text@
                == peer_id@
        },
        req matches IpcRequest::Disconnect { peer_id } ==> peer_id@ == hexadecimal::hex_text(peer@)
            ==> {
            &&& after == (DaemonView { connected: after.connected, ..before })
            &&& !after.connected.contains(peer@)
            &&& forall|id: Seq<u8>|
                id != peer@ ==> (#[trigger] after.connected.contains(id)
                    <==> before.connected.contains(id))
            &&& before.connected.contains(peer@) ==> acts.contains(DaemonAction::Close(peer))
        },
        req matches IpcRequest::Send { peer_id, data } ==> peer_id@ == hexadecimal::hex_text(peer@)
            && base64_text::base64_decoded(data@) == Ok::<Seq<u8>, Base64Error>(bytes) ==> {
            &&& after == before
            &&& acts.len() == 1
            &&& before.connected.contains(peer@) ==> (acts[0] matches DaemonAction::Deliver(p, d)
                && p@ == peer@ && d@ == bytes)
            &&& !before.connected.contains(peer@) ==> acts[0] is AnswerNotConnected
        },
        req is Whoami ==> acts.len() == 1 && (acts[0] matches DaemonAction::AnswerText(s) && s@
            == hexadecimal::hex_text(before.me.subrange(0, 8))),
        req is GetInvite ==> acts.len() == 1 && acts[0] is AnswerText,
        req is ListPeers ==> acts.len() == 1 && acts[0] is AnswerStatus,
        req is Shutdown ==> acts.len() == 1 && acts[0] is Stop,
        acts.len() > 0 && acts[0] is Stop ==> req is Shutdown,
{
    peer::law_peer_id_hex_roundtrip(peer);
    if let IpcCommand::DisconnectPeer { peer_id } = cmd {
        if peer_id@ == peer@ {
            peer::lemma_peer_id_ext(peer_id, peer);
            if before.connected.contains(peer@) {
                assert(acts[0] == DaemonAction::Close(peer));
            }
        }
    }
}

/// An incoming connection whose first message is a request to relay to a peer is relayed
/// to that peer, and no peer counts as connected for it. Any other incoming connection is
/// kept: its peer is connected and known after that, and applications are told so.
pub proof fn law_incoming_connections(
    before: DaemonView,
    id: Seq<u8>,
    first: Seq<u8>,
    after: DaemonView,
    act: IncomingAction,
    from: PeerId,
    to: PeerId,
)
    requires
        incoming_follows(before, id, first, after, act),
    ensures
        first == daemon::relay_request_bytes(from@, to@) ==> after == before && (
        act matches IncomingAction::Relay(p) && p@ == to@),
        !daemon::asks_to_relay(first) ==> {
            &&& act is Keep
            &&& after.connected.contains(id)
            &&& after.known.dom().contains(id)
            &&& forall|other: Seq<u8>|
                other != id ==> (#[trigger] after.connected.contains(other)
                    <==> before.connected.contains(other))
            &&& act matches IncomingAction::Keep(told) && told@ == (ipc::ResponseView::Event {
                event: "peer_connected"@,
                peer_id: Some(hexadecimal::hex_text(id.subrange(0, 8))),
                data: None,
            })
        },
        daemon::asks_to_relay(first) ==> after == before && !(act is Keep),
{
    daemon::law_relay_request_roundtrip(from, to);
}

/// A peer that is connected stays so until it is disconnected on command or an event tells
/// of it: it is sent to until then.
pub proof fn law_connected_peer_is_sent_to(
    before: DaemonView,
    peer_id: PeerId,
    first: Seq<u8>,
    kept: DaemonView,
    act: IncomingAction,
    data: Vec<u8>,
    now: u64,
    dht_nodes: usize,
    after: DaemonView,
    acts: Seq<DaemonAction>,
)
    requires
        incoming_follows(before, peer_id@, first, kept, act),
        act is Keep,
        command_follows(
            kept,
            IpcCommand::SendToPeer { peer_id, data },
            now,
            dht_nodes,
            after,
            acts,
        ),
    ensures
        acts.len() == 1,
        acts[0] == DaemonAction::Deliver(peer_id, data),
        after.connected.contains(peer_id@),
{
}

/// From time to time the daemon stores its record, keeps the peers that it knows and the
/// routes, in any case; and it stores its record once more exactly where its addresses are
/// others than before, so that the directory learns of the new ones. What is kept of the
/// peers has each once, by all of its digits, with its first address.
pub proof fn law_heartbeat(
    before: DaemonView,
    current: Seq<SocketAddr>,
    after: DaemonView,
    acts: Seq<HeartbeatAction>,
)
    requires
        heartbeat_follows(before, current, after, acts),
    ensures
        after.ifaces == current,
        exists|i: int| 0 <= i < acts.len() && (#[trigger] acts[i]) is StoreSelf,
        exists|i: int| 0 <= i < acts.len() && (#[trigger] acts[i]) is SaveRoutes,
        before.ifaces == current <==> acts.len() == 3,
        before.ifaces != current <==> exists|i: int, j: int|
            0 <= i < j < acts.len() && (#[trigger] acts[i]) is StoreSelf && (
            #[trigger] acts[j]) is StoreSelf,
        exists|i: int|
            0 <= i < acts.len() && (#[trigger] acts[i] matches HeartbeatAction::SavePeers(s)
                && s@.len() == before.known.dom().len() && (forall|id: Seq<u8>|
                #![trigger before.known.dom().contains(id)]
                before.known.dom().contains(id) ==> exists|k: int|
                    {
                        &&& 0 <= k < s@.len()
                        &&& (#[trigger] s@[k]).peer_id_hex@ == hexadecimal::hex_text(id)
                        &&& before.known[id].len() == 0 ==> s@[k].addr is None
                        &&& before.known[id].len() > 0 ==> (s@[k].addr matches Some(a) && a@
                            == before.known[id][0].addr)
                    })),
{
    assert(acts[0] is StoreSelf);
    assert(acts[acts.len() - 1] is SaveRoutes);
    if before.ifaces != current {
        assert(acts[0] is StoreSelf && acts[2] is StoreSelf);
    } else {
        assert(acts[1] is SavePeers);
    }
    let s = acts[1]->SavePeers_0;
    let ids = choose|ids: Seq<Seq<u8>>|
        {
            &&& #[trigger] ids.no_duplicates()
            &&& ids.to_set() == before.known.dom()
            &&& s@.len() == ids.len()
            &&& forall|i: int|
                0 <= i < ids.len() ==> (#[trigger] s@[i]).peer_id_hex@ == hexadecimal::hex_text(
                    ids[i],
                ) && match s@[i].addr {
                    Some(a) => before.known[ids[i]].len() > 0 && a@
                        == before.known[ids[i]][0].addr,
                    None => before.known[ids[i]].len() == 0,
                }
        };
    ids.unique_seq_to_set();
    assert forall|id: Seq<u8>| #![trigger before.known.dom().contains(id)] before.known.dom().contains(
        id,
    ) implies exists|k: int|
        {
            &&& 0 <= k < s@.len()
            &&& (#[trigger] s@[k]).peer_id_hex@ == hexadecimal::hex_text(id)
            &&& before.known[id].len() == 0 ==> s@[k].addr is None
            &&& before.known[id].len() > 0 ==> (s@[k].addr matches Some(a) && a@
                == before.known[id][0].addr)
        } by {
        assert(ids.to_set().contains(id));
        assert(ids.contains(id));
        let k = choose|k: int| 0 <= k < ids.len() && ids[k] == id;
        assert(s@[k].peer_id_hex@ == hexadecimal::hex_text(id));
    }
    assert(acts[1] is SavePeers);
}

/// The status names as many peers as are connected, each by the digits that messages show
/// of it, and no others; and it tells what was found out about the network.
pub proof fn law_status(v: DaemonView, dht_nodes: usize, s: DaemonStatus)
    requires
        is_status(v, dht_nodes, s),
    ensures
        s.peers@.len() == s.connected_peers,
        forall|id: Seq<u8>| #[trigger]
            v.connected.contains(id) ==> exists|i: int|
                0 <= i < s.peers@.len() && (#[trigger] s.peers@[i])@ == hexadecimal::hex_text(
                    id.subrange(0, 8),
                ),
        forall|i: int|
            0 <= i < s.peers@.len() ==> is_connected_peer(v, (#[trigger] s.peers@[i])@),
        s.peer_id@ == hexadecimal::hex_text(v.me.subrange(0, 8)),
        s.ipv6 == v.probe.ipv6_inbound,
        s.port_delta == v.probe.port_delta,
        s.stun_rtt_ms == v.probe.stun_rtt_ms,
        s.dht_nodes == dht_nodes,
        s.known_peers == v.known.dom().len(),
        s.nat_type@ == "Cone"@ <==> v.probe.nat_type == NatType::Cone,
        s.nat_type@ == "ADFSymmetric"@ <==> v.probe.nat_type == NatType::ADFSymmetric,
        s.nat_type@ == "APDFSymmetric"@ <==> v.probe.nat_type == NatType::APDFSymmetric,
        s.nat_type@ == "Unknown"@ <==> v.probe.nat_type == NatType::Unknown,
{
    reveal_strlit("Cone");
    reveal_strlit("ADFSymmetric");
    reveal_strlit("APDFSymmetric");
    reveal_strlit("Unknown");
    assert("Cone"@.len() == 4 && "ADFSymmetric"@.len() == 12);
    assert("APDFSymmetric"@.len() == 13 && "Unknown"@.len() == 7);
    let ids = choose|ids: Seq<Seq<u8>>|
        {
            &&& #[trigger] ids.no_duplicates()
            &&& ids.to_set() == v.connected
            &&& s.peers@.len() == ids.len()
            &&& forall|i: int| 0 <= i < ids.len() ==> (#[trigger] s.peers@[i])@ == shown(ids[i])
        };
    ids.unique_seq_to_set();
    assert forall|id: Seq<u8>| #[trigger] v.connected.contains(id) implies exists|i: int|
        0 <= i < s.peers@.len() && (#[trigger] s.peers@[i])@ == hexadecimal::hex_text(
            id.subrange(0, 8),
        ) by {
        assert(ids.to_set().contains(id));
        let i = choose|i: int| 0 <= i < ids.len() && ids[i] == id;
        assert(s.peers@[i]@ == shown(ids[i]));
    }
    assert forall|i: int| 0 <= i < s.peers@.len() implies is_connected_peer(
        v,
        (#[trigger] s.peers@[i])@,
    ) by {
        assert(ids.contains(ids[i]));
        assert(ids.to_set().contains(ids[i]));
        assert(v.connected.contains(ids[i]));
    }
}

/// Whether a text is what messages show of a peer that is connected.
pub open spec fn is_connected_peer(v: DaemonView, text: Seq<char>) -> bool {
    exists|id: Seq<u8>| #[trigger]
        v.connected.contains(id) && text == hexadecimal::hex_text(id.subrange(0, 8))
}

/// The invite of a daemon says of it what it is: its identifier, its keys, what it offers,
/// the ports that it can be reached at, its endpoints, the step of its NAT where a byte has
/// room for it, and the moment; and it is signed with the secret key of the daemon.
pub proof fn law_own_invite(v: DaemonView, now: u64)
    ensures
        ({
            let i = signed_invite(v, now);
            &&& i.version == 1
            &&& i.peer_id == v.me
            &&& i.ed25519_pk == v.key
            &&& i.noise_pk == v.noise_key
            &&& i.capabilities == v.capabilities
            &&& i.mappable_port_start == 50000
            &&& i.mappable_port_end == 50007
            &&& i.endpoints == v.endpoints
            &&& i.timestamp == now
            &&& v.probe.port_delta is None ==> i.port_delta_hint == 0
            &&& v.probe.port_delta matches Some(d) ==> i.port_delta_hint == if d <= 255 {
                d as int
            } else {
                0
            }
            &&& i.signature == primitives::ed25519_signature(v.secret, invite::invite_payload(i))
            &&& own_uri(v, now) == "lain://"@ + invite::invite_text(i)
        }),
{
    let i = signed_invite(v, now);
    assert(invite::invite_payload(i) == invite::invite_payload(own_invite(v, now, Seq::empty())));
}

/// Every known peer is kept once, by all digits of its identifier, with the first of its
/// addresses where it has one; and no other peer is kept.
pub proof fn law_stored_peers(known: Map<Seq<u8>, Seq<EndpointView>>, s: Seq<StoredPeer>)
    requires
        is_stored(known, s),
    ensures
        s.len() == known.dom().len(),
        forall|id: Seq<u8>| #[trigger] known.dom().contains(id) ==> keeps(s, id, known[id]),
{
    let ids = choose|ids: Seq<Seq<u8>>|
        {
            &&& #[trigger] ids.no_duplicates()
            &&& ids.to_set() == known.dom()
            &&& s.len() == ids.len()
            &&& forall|i: int|
                0 <= i < ids.len() ==> (#[trigger] s[i]).peer_id_hex@ == hexadecimal::hex_text(
                    ids[i],
                ) && match s[i].addr {
                    Some(a) => known[ids[i]].len() > 0 && a@ == known[ids[i]][0].addr,
                    None => known[ids[i]].len() == 0,
                }
        };
    ids.unique_seq_to_set();
    assert forall|id: Seq<u8>| #[trigger] known.dom().contains(id) implies keeps(
        s,
        id,
        known[id],
    ) by {
        assert(ids.to_set().contains(id));
        let i = choose|i: int| 0 <= i < ids.len() && ids[i] == id;
        assert(s[i].peer_id_hex@ == hexadecimal::hex_text(id));
    }
}

/// Whether a peer with these endpoints is among those that are kept.
pub open spec fn keeps(s: Seq<StoredPeer>, id: Seq<u8>, endpoints: Seq<EndpointView>) -> bool {
    exists|i: int|
        0 <= i < s.len() && (#[trigger] s[i]).peer_id_hex@ == hexadecimal::hex_text(id) && (
        endpoints.len() == 0 ==> s[i].addr is None) && (endpoints.len() > 0 ==> (
        s[i].addr matches Some(a) && a@ == endpoints[0].addr))
}

/// A peer whose loss is told by all digits of its identifier is no longer connected; a peer
/// that is not named by them stays connected, and no peer gets connected by it. An event of
/// another name changes nothing.
pub proof fn law_loss_by_identifier(
    before: DaemonView,
    peer_id: PeerId,
    event: Seq<char>,
    data: Option<ipc::DataView>,
)
    ensures
        ({
            let after = event_follows(
                before,
                ipc::ResponseView::Event {
                    event,
                    peer_id: Some(hexadecimal::hex_text(peer_id@)),
                    data,
                },
            );
            &&& after == (DaemonView { connected: after.connected, ..before })
            &&& event == "peer_disconnected"@ ==> !after.connected.contains(peer_id@)
            &&& forall|other: Seq<u8>|
                other.len() == 32 && other != peer_id@ ==> (#[trigger] after.connected.contains(
                    other,
                ) <==> before.connected.contains(other))
            &&& event != "peer_disconnected"@ ==> forall|other: Seq<u8>| #[trigger]
                after.connected.contains(other) <==> before.connected.contains(other)
        }),
{
    peer::law_peer_id_hex_roundtrip(peer_id);
    hexadecimal::lemma_hex_text(peer_id@);
    assert forall|other: Seq<u8>| other.len() == 32 implies #[trigger] shown(other).len() == 16 by {
        hexadecimal::lemma_hex_text(other.subrange(0, 8));
    }
    let after = event_follows(
        before,
        ipc::ResponseView::Event {
            event,
            peer_id: Some(hexadecimal::hex_text(peer_id@)),
            data,
        },
    );
    assert forall|other: Seq<u8>| other.len() == 32 && other != peer_id@ implies (
    #[trigger] after.connected.contains(other) <==> before.connected.contains(other)) by {
        assert(shown(other).len() == 16);
        assert(shown(other) != hexadecimal::hex_text(peer_id@));
    }
}

} // verus!
