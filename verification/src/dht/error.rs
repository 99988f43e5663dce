//! Errors of the distributed hash table.
use crate::hexadecimal;
use crate::peer::PeerId;
use crate::text;
use crate::text::{concat2, push_decimal};
use vstd::prelude::*;

verus! {

/// What can go wrong in the distributed hash table.
#[derive(Debug)]
pub enum DhtError {
    BootstrapFailed { attempts: u8, last_error: String },
    RpcTimeout { rpc_type: String, peer_id: PeerId },
    InvalidSignature { peer_id: PeerId },
    RoutingTableCorrupted { detail: String },
    Serialization(String),
    Network(String),
}

/// An error as a value.
pub enum DhtErrorView {
    BootstrapFailed { attempts: u8, last_error: Seq<char> },
    RpcTimeout { rpc_type: Seq<char>, peer_id: Seq<u8> },
    InvalidSignature { peer_id: Seq<u8> },
    RoutingTableCorrupted { detail: Seq<char> },
    Serialization(Seq<char>),
    Network(Seq<char>),
}

impl View for DhtError {
    type V = DhtErrorView;

    open spec fn view(&self) -> DhtErrorView {
        match self {
            DhtError::BootstrapFailed { attempts, last_error } => DhtErrorView::BootstrapFailed {
                attempts: *attempts,
                last_error: last_error@,
            },
            DhtError::RpcTimeout { rpc_type, peer_id } => DhtErrorView::RpcTimeout {
                rpc_type: rpc_type@,
                peer_id: peer_id@,
            },
            DhtError::InvalidSignature { peer_id } => DhtErrorView::InvalidSignature {
                peer_id: peer_id@,
            },
            DhtError::RoutingTableCorrupted { detail } => DhtErrorView::RoutingTableCorrupted {
                detail: detail@,
            },
            DhtError::Serialization(s) => DhtErrorView::Serialization(s@),
            DhtError::Network(s) => DhtErrorView::Network(s@),
        }
    }
}

impl DhtErrorView {
    /// The text of the error.
    pub open spec fn message(self) -> Seq<char> {
        match self {
            DhtErrorView::BootstrapFailed { attempts, last_error } => "bootstrap failed after "@
                + text::decimal(attempts as nat) + " attempts: "@ + last_error,
            DhtErrorView::RpcTimeout { rpc_type, peer_id } => "RPC timeout for "@ + rpc_type
                + " to "@ + hexadecimal::hex_text(peer_id.subrange(0, 8)),
            DhtErrorView::InvalidSignature { peer_id } => "signature verification failed for "@
                + hexadecimal::hex_text(peer_id.subrange(0, 8)),
            DhtErrorView::RoutingTableCorrupted { detail } => "routing table corrupted: "@ + detail,
            DhtErrorView::Serialization(s) => "serialization error: "@ + s,
            DhtErrorView::Network(s) => "network error: "@ + s,
        }
    }
}

impl DhtError {
    /// The text of the error.
    pub fn text(&self) -> (s: String)
        ensures
            s@ == self@.message(),
    {
        match self {
            DhtError::BootstrapFailed { attempts, last_error } => {
                let mut s: String = "bootstrap failed after ".to_string();
                push_decimal(&mut s, *attempts as u64);
                s.push_str(" attempts: ");
                s.push_str(last_error.as_str());
                s
            },
            DhtError::RpcTimeout { rpc_type, peer_id } => {
                let mut s: String = "RPC timeout for ".to_string();
                s.push_str(rpc_type.as_str());
                s.push_str(" to ");
                let id: String = peer_id.short_hex();
                s.push_str(id.as_str());
                s
            },
            DhtError::InvalidSignature { peer_id } => {
                let id: String = peer_id.short_hex();
                concat2("signature verification failed for ", id.as_str())
            },
            DhtError::RoutingTableCorrupted { detail } => {
                concat2("routing table corrupted: ", detail.as_str())
            },
            DhtError::Serialization(s) => concat2("serialization error: ", s.as_str()),
            DhtError::Network(s) => concat2("network error: ", s.as_str()),
        }
    }
}

} // verus!
