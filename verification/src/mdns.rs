//! Peers on the same local network, found by multicast DNS.
use crate::dht::message;
use crate::dht::message::encode_ping_request;
use crate::directory::DhtMsgType;
use crate::endpoint::SocketAddr;
use crate::hexadecimal;
use crate::peer;
use crate::peer::PeerId;
use crate::text::concat2;
use vstd::prelude::*;

verus! {

/// What can go wrong with multicast DNS.
#[derive(Debug)]
pub enum MdnsError {
    Service(String),
}

impl MdnsError {
    /// The text of the error.
    pub open spec fn message(&self) -> Seq<char> {
        match self {
            MdnsError::Service(s) => "mDNS error: "@ + s@,
        }
    }

    /// The text of the error.
    pub fn text(&self) -> (s: String)
        ensures
            s@ == self.message(),
    {
        match self {
            MdnsError::Service(s) => concat2("mDNS error: ", s.as_str()),
        }
    }
}

/// What a peer makes known of itself.
#[derive(Debug)]
pub struct MdnsDiscovery {
    service_type: String,
    service_name: String,
    hostname: String,
    peer_id: PeerId,
    port: u16,
}

/// What there is to know of a service: the bytes of its property "peer_id", one of
/// its addresses, and its port.
#[derive(Debug)]
pub struct ResolvedService {
    pub peer_id: Option<Vec<u8>>,
    pub address: Option<SocketAddr>,
    pub port: u16,
}

/// What multicast DNS tells.
#[derive(Debug)]
pub enum MdnsEvent {
    Resolved(ResolvedService),
    Other,
}

/// The peer that a service stands for: the one that its property names, at its
/// address.
pub open spec fn resolved_peer(event: MdnsEvent) -> Option<(Seq<u8>, SocketAddr, u16)> {
    match event {
        MdnsEvent::Other => None,
        MdnsEvent::Resolved(s) => match (s.peer_id, s.address) {
            (Some(text), Some(addr)) => match peer::parsed_peer_bytes(text@) {
                Ok(id) => Some((id, addr, s.port)),
                Err(_) => None,
            },
            _ => None,
        },
    }
}

impl MdnsDiscovery {
    /// The peer that is made known.
    pub closed spec fn peer(&self) -> Seq<u8> {
        self.peer_id@
    }

    /// The service is that of the peer.
    pub closed spec fn wf(&self) -> bool {
        let short = hexadecimal::hex_text(self.peer_id@.subrange(0, 8));
        &&& self.service_type@ == "_lain._udp.local."@
        &&& self.service_name@ == short
        &&& self.hostname@ == short + ".local."@
    }

    /// The port that is made known.
    pub closed spec fn at_port(&self) -> u16 {
        self.port
    }

    /// What a peer makes known of itself at a port.
    pub fn new(peer_id: PeerId, port: u16) -> (r: Self)
        ensures
            r.wf(),
            r.peer() == peer_id@,
            r.at_port() == port,
    {
        let service_name: String = peer_id.short_hex();
        let hostname: String = concat2(service_name.as_str(), ".local.");
        MdnsDiscovery {
            service_type: "_lain._udp.local.".to_string(),
            service_name,
            hostname,
            peer_id,
            port,
        }
    }

    /// The type of the service.
    pub fn service_type(&self) -> (r: &str)
        requires
            self.wf(),
        ensures
            r@ == "_lain._udp.local."@,
    {
        self.service_type.as_str()
    }

    /// The name of the service: sixteen digits of the identifier.
    pub fn service_name(&self) -> (r: &str)
        requires
            self.wf(),
        ensures
            r@ == hexadecimal::hex_text(self.peer().subrange(0, 8)),
    {
        self.service_name.as_str()
    }

    /// The name of the machine.
    pub fn hostname(&self) -> (r: &str)
        requires
            self.wf(),
        ensures
            r@ == hexadecimal::hex_text(self.peer().subrange(0, 8)) + ".local."@,
    {
        self.hostname.as_str()
    }

    /// The property "peer_id" of the service: all digits of the identifier.
    pub fn property(&self) -> (r: String)
        ensures
            r@ == hexadecimal::hex_text(self.peer()),
    {
        self.peer_id.to_hex()
    }

    /// The port of the service.
    pub fn port(&self) -> (r: u16)
        ensures
            r == self.at_port(),
    {
        self.port
    }

    /// The peer that an event tells of, with its address and port.
    pub fn parse_peer_from_event(event: &MdnsEvent) -> (r: Option<(PeerId, SocketAddr, u16)>)
        ensures
            match r {
                Some((id, addr, port)) => resolved_peer(*event) == Some((id@, addr, port)),
                None => resolved_peer(*event) is None,
            },
    {
        match event {
            MdnsEvent::Other => None,
            MdnsEvent::Resolved(s) => match (&s.peer_id, s.address) {
                (Some(text), Some(addr)) => match PeerId::from_hex_bytes(text.as_slice()) {
                    Ok(id) => Some((id, addr, s.port)),
                    Err(_) => None,
                },
                _ => None,
            },
        }
    }

    /// The PING that answers an event, and where it goes. There is none where the
    /// event tells of no peer, and none for this peer itself.
    pub fn ping_for(&self, event: &MdnsEvent, message_id: [u8; 16]) -> (r: Option<
        (Vec<u8>, SocketAddr),
    >)
        ensures
            match (r, resolved_peer(*event)) {
                (Some((data, to)), Some((id, addr, _))) => {
                    &&& id != self.peer()
                    &&& to == addr
                    &&& data@ == message::message_bytes(
                        self.peer(),
                        message_id@,
                        DhtMsgType::Ping,
                        false,
                        Seq::<u8>::empty(),
                        None,
                    )
                },
                (Some(_), None) => false,
                (None, Some((id, _, _))) => id == self.peer(),
                (None, None) => true,
            },
    {
        match MdnsDiscovery::parse_peer_from_event(event) {
            None => None,
            Some((found, addr, _)) => {
                proof {
                    peer::lemma_peer_id_ext(found, self.peer_id);
                }
                if found == self.peer_id {
                    return None;
                }
                Some((encode_ping_request(self.peer_id, message_id), addr))
            },
        }
    }
}

/// Who sees the property that a peer makes known finds that peer.
pub proof fn law_announced_peer_found(id: PeerId, text: Vec<u8>, addr: SocketAddr, port: u16)
    requires
        text@ == vstd::utf8::encode_utf8(hexadecimal::hex_text(id@)),
    ensures
        resolved_peer(
            MdnsEvent::Resolved(
                ResolvedService { peer_id: Some(text), address: Some(addr), port },
            ),
        ) == Some((id@, addr, port)),
{
    peer::law_peer_id_hex_roundtrip(id);
}

/// A peer is found at just the address and the port that are made known, and only where the
/// property has an identifier's 64 digits.
pub proof fn law_resolved_peer(s: ResolvedService)
    ensures
        resolved_peer(MdnsEvent::Other) is None,
        s.address is None || s.peer_id is None ==> resolved_peer(MdnsEvent::Resolved(s)) is None,
        resolved_peer(MdnsEvent::Resolved(s)) matches Some((id, addr, port)) ==> {
            &&& s.address == Some(addr)
            &&& port == s.port
            &&& id.len() == 32
            &&& s.peer_id matches Some(text) && text@.len() == 64
                && hexadecimal::hex_decoded(text@) == Ok::<Seq<u8>, hexadecimal::HexError>(id)
        },
        s.peer_id matches Some(text) ==> s.address is Some && text@.len() == 64
            && hexadecimal::hex_decoded(text@) is Ok ==> resolved_peer(
            MdnsEvent::Resolved(s),
        ) is Some,
{
    if let Some(text) = s.peer_id {
        hexadecimal::law_hex_taken(text@);
    }
}

} // verus!
