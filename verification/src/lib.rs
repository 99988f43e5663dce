//! Lain, a network of peers that needs no server.
//!
//! A peer is known by the hash of its public key. An invite is the way into the
//! network, and a distributed hash table tells where a peer can be reached. This
//! crate holds what the network is made of: identities and invites, the frames and
//! the messages of the wire, the routing table and the records of the hash table,
//! the Noise handshake, what is concluded of a NAT and how one is traversed, and
//! the decisions of the daemon and of the command line.
use vstd::prelude::*;

pub mod base62;
pub mod base64_text;
pub mod bytes;
pub mod capabilities;
pub mod cli;
pub mod clock;
pub mod config;
pub mod conn_mgr;
pub mod daemon;
pub mod dht;
pub mod directory;
pub mod endpoint;
pub mod error;
pub mod frame;
pub mod hexadecimal;
pub mod http;
pub mod identity;
pub mod iface_watcher;
pub mod invite;
pub mod ipc;
pub mod json;
pub mod mdns;
pub mod noise;
pub mod peer;
pub mod peer_map;
pub mod port_predict;
pub mod primitives;
pub mod session;
pub mod stun;
pub mod supervisor;
pub mod text;
pub mod transport;
pub mod tso;

verus! {

/// Version of the wire formats.
pub const PROTOCOL_VERSION: u8 = 1;

/// How many nodes a bucket of the routing table has room for.
pub const DHT_K: usize = 20;

/// How many nodes a lookup asks at a time.
pub const DHT_ALPHA: usize = 3;

/// For how long a record holds, in seconds.
pub const DHT_TTL_SECS: u32 = 300;

/// How often a node stores its own record anew, in seconds.
pub const DHT_HEARTBEAT_SECS: u64 = 150;

/// How often records are passed on, in seconds.
pub const DHT_REPUBLISH_SECS: u64 = 3600;

/// How many buckets the routing table has.
pub const DHT_BUCKET_COUNT: usize = 256;

/// Timeouts and limits of connections.
pub const CONNECT_TIMEOUT_SECS: u64 = 10;

pub const TRAVERSAL_TIMEOUT_SECS: u64 = 30;

pub const IDLE_TIMEOUT_SECS: u64 = 30;

pub const KEEP_ALIVE_SECS: u64 = 15;

pub const MAX_CONNECTIONS: usize = 256;

pub const MAX_STREAMS_PER_CONN: usize = 128;

pub const MAX_RELAY_STREAMS: usize = 32;

/// How long a Noise handshake may take, in seconds.
pub const NOISE_HANDSHAKE_TIMEOUT_SECS: u64 = 15;

/// The same limits for mobile devices.
pub const MOBILE_IDLE_TIMEOUT_SECS: u64 = 120;

pub const MOBILE_KEEP_ALIVE_SECS: u64 = 60;

pub const MOBILE_DHT_K: usize = 8;

pub const MOBILE_MAX_CONNECTIONS: usize = 64;

pub const MOBILE_MAX_STREAMS_PER_CONN: usize = 32;

/// How long an inbound connection waits for the application to take it, in
/// seconds.
pub const INCOMING_ACCEPT_TIMEOUT_SECS: u64 = 30;

} // verus!
