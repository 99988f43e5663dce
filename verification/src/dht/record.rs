//! Records as a node keeps them.
use crate::capabilities::Capabilities;
use crate::directory;
use crate::directory::RecordView;
use crate::endpoint;
use crate::endpoint::{copy_endpoints, Endpoint};
use vstd::prelude::*;

verus! {

/// A record and the moment at which it ends, in milliseconds.
#[derive(Debug)]
pub struct PeerRecord {
    pub pubkey: [u8; 32],
    pub noise_pubkey: [u8; 32],
    pub endpoints: Vec<Endpoint>,
    pub capabilities: Capabilities,
    pub ttl_remaining: u32,
    pub expires_at: u128,
}

/// A kept record as a value.
pub struct KeptRecordView {
    pub record: RecordView,
    pub expires_at: u128,
}

impl View for PeerRecord {
    type V = KeptRecordView;

    open spec fn view(&self) -> KeptRecordView {
        KeptRecordView {
            record: RecordView {
                pubkey: self.pubkey@,
                noise_pubkey: self.noise_pubkey@,
                endpoints: endpoint::endpoint_views(self.endpoints@),
                capabilities: self.capabilities.bits,
                ttl_remaining: self.ttl_remaining,
            },
            expires_at: self.expires_at,
        }
    }
}

impl Clone for PeerRecord {
    fn clone(&self) -> (r: Self)
        ensures
            r@ == self@,
    {
        PeerRecord {
            pubkey: self.pubkey,
            noise_pubkey: self.noise_pubkey,
            endpoints: copy_endpoints(self.endpoints.as_slice()),
            capabilities: self.capabilities,
            ttl_remaining: self.ttl_remaining,
            expires_at: self.expires_at,
        }
    }
}

/// The moment `ttl` seconds after `now`, in milliseconds.
pub open spec fn expiry(now: u64, ttl: u32) -> u128 {
    (now + ttl * 1000) as u128
}

/// The moment `ttl` seconds after `now`, in milliseconds.
pub fn expiry_after(now: u64, ttl: u32) -> (r: u128)
    ensures
        r == expiry(now, ttl),
        r == now + ttl * 1000,
{
    now as u128 + ttl as u128 * 1000
}

impl PeerRecord {
    /// Whether the record still holds.
    pub fn is_live(&self, now: u64) -> (r: bool)
        ensures
            r == (self@.expires_at > now),
    {
        self.expires_at > now as u128
    }

    /// The record without the moment at which it ends.
    pub fn to_core(&self) -> (r: directory::PeerRecord)
        ensures
            r@ == self@.record,
    {
        directory::PeerRecord {
            pubkey: self.pubkey,
            noise_pubkey: self.noise_pubkey,
            endpoints: copy_endpoints(self.endpoints.as_slice()),
            capabilities: self.capabilities,
            ttl_remaining: self.ttl_remaining,
        }
    }
}

} // verus!
