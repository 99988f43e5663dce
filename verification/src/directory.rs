//! The directory of peers: records, events and messages.
use crate::capabilities::Capabilities;
use crate::endpoint;
use crate::endpoint::{copy_endpoints, Endpoint, EndpointView, SocketAddr};
use crate::peer::PeerId;
use vstd::prelude::*;

verus! {

/// A node that may relay. The Noise key is all zero where it is not known.
#[derive(Clone, Copy, Debug)]
pub struct RelayInfo {
    pub node_id: PeerId,
    pub address: SocketAddr,
    pub noise_pubkey: [u8; 32],
}

/// What a peer says of itself. Nothing in it is vouched for.
#[derive(Debug)]
pub struct PeerRecord {
    pub pubkey: [u8; 32],
    pub noise_pubkey: [u8; 32],
    pub endpoints: Vec<Endpoint>,
    pub capabilities: Capabilities,
    pub ttl_remaining: u32,
}

/// A record as a value.
pub struct RecordView {
    pub pubkey: Seq<u8>,
    pub noise_pubkey: Seq<u8>,
    pub endpoints: Seq<EndpointView>,
    pub capabilities: u8,
    pub ttl_remaining: u32,
}

impl View for PeerRecord {
    type V = RecordView;

    open spec fn view(&self) -> RecordView {
        RecordView {
            pubkey: self.pubkey@,
            noise_pubkey: self.noise_pubkey@,
            endpoints: endpoint::endpoint_views(self.endpoints@),
            capabilities: self.capabilities.bits,
            ttl_remaining: self.ttl_remaining,
        }
    }
}

impl Clone for PeerRecord {
    fn clone(&self) -> (r: Self)
        ensures
            r@ == self@,
    {
        PeerRecord {
            pubkey: self.pubkey,
            noise_pubkey: self.noise_pubkey,
            endpoints: copy_endpoints(self.endpoints.as_slice()),
            capabilities: self.capabilities,
            ttl_remaining: self.ttl_remaining,
        }
    }
}

/// What happens in the directory.
#[derive(Debug)]
pub enum DhtEvent {
    PeerDiscovered(PeerId, PeerRecord),
    PeerExpired(PeerId),
    PeerUpdated(PeerId, PeerRecord),
    RoutingTableChanged,
}

/// What a message asks or answers.
#[derive(Clone, Copy, Debug, PartialEq, Eq, Structural)]
pub enum DhtMsgType {
    Ping,
    Store,
    FindValue,
    FindNode,
    RelayNeeded,
    Error,
    AddrReflect,
}

/// The type that the low-order seven bits of `v` stand for.
pub open spec fn msg_type_of(v: u8) -> Option<DhtMsgType> {
    let t = v % 128;
    if t == 0 {
        Some(DhtMsgType::Ping)
    } else if t == 1 {
        Some(DhtMsgType::Store)
    } else if t == 2 {
        Some(DhtMsgType::FindValue)
    } else if t == 3 {
        Some(DhtMsgType::FindNode)
    } else if t == 4 {
        Some(DhtMsgType::RelayNeeded)
    } else if t == 5 {
        Some(DhtMsgType::Error)
    } else if t == 6 {
        Some(DhtMsgType::AddrReflect)
    } else {
        None
    }
}

impl DhtMsgType {
    /// The number that stands for the type on the wire.
    pub open spec fn spec_code(self) -> u8 {
        match self {
            DhtMsgType::Ping => 0,
            DhtMsgType::Store => 1,
            DhtMsgType::FindValue => 2,
            DhtMsgType::FindNode => 3,
            DhtMsgType::RelayNeeded => 4,
            DhtMsgType::Error => 5,
            DhtMsgType::AddrReflect => 6,
        }
    }

    /// The number that stands for the type on the wire.
    pub fn code(self) -> (r: u8)
        ensures
            r == self.spec_code(),
            r <= 6,
    {
        match self {
            DhtMsgType::Ping => 0,
            DhtMsgType::Store => 1,
            DhtMsgType::FindValue => 2,
            DhtMsgType::FindNode => 3,
            DhtMsgType::RelayNeeded => 4,
            DhtMsgType::Error => 5,
            DhtMsgType::AddrReflect => 6,
        }
    }

    /// The type that a byte stands for. Its high-order bit is left out: it says
    /// whether the message is a response.
    pub fn from_u8(v: u8) -> (r: Option<Self>)
        ensures
            r == msg_type_of(v),
    {
        let t: u8 = v % 128;
        if t == 0 {
            Some(DhtMsgType::Ping)
        } else if t == 1 {
            Some(DhtMsgType::Store)
        } else if t == 2 {
            Some(DhtMsgType::FindValue)
        } else if t == 3 {
            Some(DhtMsgType::FindNode)
        } else if t == 4 {
            Some(DhtMsgType::RelayNeeded)
        } else if t == 5 {
            Some(DhtMsgType::Error)
        } else if t == 6 {
            Some(DhtMsgType::AddrReflect)
        } else {
            None
        }
    }

    /// Whether a type byte is that of a response.
    pub fn is_response(v: u8) -> (r: bool)
        ensures
            r == (v >= 128),
    {
        v >= 128
    }
}

/// A message.
#[derive(Debug)]
pub struct DhtMessage {
    pub version: u8,
    pub message_id: [u8; 16],
    pub msg_type: DhtMsgType,
    pub is_response: bool,
    pub sender_id: PeerId,
    pub payload: Vec<u8>,
    pub signature: Option<[u8; 64]>,
}

/// A message as a value.
pub struct MessageView {
    pub version: u8,
    pub message_id: Seq<u8>,
    pub msg_type: DhtMsgType,
    pub is_response: bool,
    pub sender_id: Seq<u8>,
    pub payload: Seq<u8>,
    pub signature: Option<Seq<u8>>,
}

impl View for DhtMessage {
    type V = MessageView;

    open spec fn view(&self) -> MessageView {
        MessageView {
            version: self.version,
            message_id: self.message_id@,
            msg_type: self.msg_type,
            is_response: self.is_response,
            sender_id: self.sender_id@,
            payload: self.payload@,
            signature: match self.signature {
                Some(s) => Some(s@),
                None => None,
            },
        }
    }
}

/// Why a message was turned down.
#[derive(Clone, Copy, Debug, PartialEq, Eq, Structural)]
pub enum DhtErrorCode {
    UnsupportedVersion,
    InvalidSignature,
    MessageTooLarge,
    InternalError,
}

impl DhtErrorCode {
    /// The number that stands for the reason on the wire.
    pub open spec fn spec_code(self) -> u8 {
        match self {
            DhtErrorCode::UnsupportedVersion => 1,
            DhtErrorCode::InvalidSignature => 2,
            DhtErrorCode::MessageTooLarge => 3,
            DhtErrorCode::InternalError => 4,
        }
    }

    /// The reason that a number stands for: 1 to 4 stand for one.
    pub fn from_u8(v: u8) -> (r: Option<Self>)
        ensures
            match r {
                Some(c) => c.spec_code() == v,
                None => v == 0 || v > 4,
            },
    {
        if v == 1 {
            Some(DhtErrorCode::UnsupportedVersion)
        } else if v == 2 {
            Some(DhtErrorCode::InvalidSignature)
        } else if v == 3 {
            Some(DhtErrorCode::MessageTooLarge)
        } else if v == 4 {
            Some(DhtErrorCode::InternalError)
        } else {
            None
        }
    }
}

/// The numbers of the types of messages: each type has its own, the high-order bit tells a
/// response from a request and nothing else, and the other numbers stand for no type.
pub proof fn law_message_types(t: DhtMsgType, v: u8)
    ensures
        t.spec_code() == match t {
            DhtMsgType::Ping => 0int,
            DhtMsgType::Store => 1,
            DhtMsgType::FindValue => 2,
            DhtMsgType::FindNode => 3,
            DhtMsgType::RelayNeeded => 4,
            DhtMsgType::Error => 5,
            DhtMsgType::AddrReflect => 6,
        },
        msg_type_of(v) == Some(t) <==> v == t.spec_code() || v == t.spec_code() + 128,
        msg_type_of(v) is None <==> 7 <= v < 128 || 135 <= v,
{
}

/// The numbers of the reasons for which messages are turned down.
pub proof fn law_reasons(c: DhtErrorCode)
    ensures
        c.spec_code() == match c {
            DhtErrorCode::UnsupportedVersion => 1int,
            DhtErrorCode::InvalidSignature => 2,
            DhtErrorCode::MessageTooLarge => 3,
            DhtErrorCode::InternalError => 4,
        },
{
}

} // verus!
