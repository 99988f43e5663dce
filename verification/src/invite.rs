//! Invites: what one peer hands another out of band, so that it can be reached.
use crate::base62;
use crate::base62::{decode_text, encode_base62};
use crate::bytes;
use crate::bytes::{array_at, push_bytes, push_u16, push_u32, push_u64, read_u16, read_u32};
use crate::bytes::read_u64;
use crate::capabilities::Capabilities;
use crate::clock;
use crate::clock::unix_seconds;
use crate::endpoint;
use crate::endpoint::{encode_address, AddrView, Endpoint, EndpointKind, EndpointView, SocketAddr};
use crate::endpoint::{SocketAddrV4, SocketAddrV6};
use crate::peer::PeerId;
use crate::text;
use crate::text::{concat2, push_decimal};
use crate::PROTOCOL_VERSION;
use vstd::prelude::*;

verus! {

/// What can go wrong with an invite, or in the search for peers.
#[derive(Debug)]
pub enum DiscoveryError {
    Encode(String),
    Decode(String),
    InvalidSignature,
    Expired,
    MdnsError(String),
}

impl DiscoveryError {
    /// The text of the error.
    pub open spec fn message(&self) -> Seq<char> {
        match self {
            DiscoveryError::Encode(s) => "invite encode error: "@ + s@,
            DiscoveryError::Decode(s) => "invite decode error: "@ + s@,
            DiscoveryError::InvalidSignature => "invalid signature"@,
            DiscoveryError::Expired => "invite expired"@,
            DiscoveryError::MdnsError(s) => "mDNS error: "@ + s@,
        }
    }

    /// The text of the error.
    pub fn text(&self) -> (s: String)
        ensures
            s@ == self.message(),
    {
        match self {
            DiscoveryError::Encode(s) => concat2("invite encode error: ", s.as_str()),
            DiscoveryError::Decode(s) => concat2("invite decode error: ", s.as_str()),
            DiscoveryError::InvalidSignature => "invalid signature".to_string(),
            DiscoveryError::Expired => "invite expired".to_string(),
            DiscoveryError::MdnsError(s) => concat2("mDNS error: ", s.as_str()),
        }
    }
}

/// An invite: who the peer is, how it can be reached, and when it said so.
#[derive(Debug)]
pub struct InviteCode {
    pub version: u8,
    pub peer_id: PeerId,
    pub ed25519_pk: [u8; 32],
    pub noise_pk: [u8; 32],
    pub capabilities: Capabilities,
    pub mappable_port_start: u16,
    pub mappable_port_end: u16,
    pub port_delta_hint: u8,
    pub endpoints: Vec<Endpoint>,
    pub timestamp: u64,
    pub signature: [u8; 64],
}

/// An invite as a value.
pub struct InviteView {
    pub version: u8,
    pub peer_id: Seq<u8>,
    pub ed25519_pk: Seq<u8>,
    pub noise_pk: Seq<u8>,
    pub capabilities: u8,
    pub mappable_port_start: u16,
    pub mappable_port_end: u16,
    pub port_delta_hint: u8,
    pub endpoints: Seq<EndpointView>,
    pub timestamp: u64,
    pub signature: Seq<u8>,
}

impl View for InviteCode {
    type V = InviteView;

    open spec fn view(&self) -> InviteView {
        InviteView {
            version: self.version,
            peer_id: self.peer_id@,
            ed25519_pk: self.ed25519_pk@,
            noise_pk: self.noise_pk@,
            capabilities: self.capabilities.bits,
            mappable_port_start: self.mappable_port_start,
            mappable_port_end: self.mappable_port_end,
            port_delta_hint: self.port_delta_hint,
            endpoints: endpoint::endpoint_views(self.endpoints@),
            timestamp: self.timestamp,
            signature: self.signature@,
        }
    }
}

/// The wire form of an endpoint in an invite: its address, its kind, a byte that
/// is always 128, and its time to live.
pub open spec fn invite_endpoint_bytes(e: EndpointView) -> Seq<u8> {
    endpoint::address_bytes(e.addr) + seq![e.kind.spec_code(), 128u8] + bytes::be_bytes(
        e.ttl_seconds as nat,
        4,
    )
}

/// The wire form of the endpoints of an invite.
pub open spec fn invite_endpoints_bytes(eps: Seq<EndpointView>) -> Seq<u8>
    decreases eps.len(),
{
    if eps.len() == 0 {
        Seq::empty()
    } else {
        invite_endpoint_bytes(eps[0]) + invite_endpoints_bytes(eps.drop_first())
    }
}

/// The endpoints that are written: 255 at most, the first ones.
pub open spec fn sent_endpoints(eps: Seq<EndpointView>) -> Seq<EndpointView> {
    if eps.len() <= 255 {
        eps
    } else {
        eps.take(255)
    }
}

/// An invite as it goes out, with the endpoints that are written.
pub open spec fn as_sent(v: InviteView) -> InviteView {
    InviteView { endpoints: sent_endpoints(v.endpoints), ..v }
}

/// What stands before the endpoints of an invite.
pub open spec fn invite_head(v: InviteView) -> Seq<u8> {
    seq![v.version] + v.peer_id + v.ed25519_pk + v.noise_pk + seq![v.capabilities]
        + bytes::be_bytes(v.mappable_port_start as nat, 2) + bytes::be_bytes(
        v.mappable_port_end as nat,
        2,
    ) + seq![v.port_delta_hint, sent_endpoints(v.endpoints).len() as u8]
}

/// The part of an invite that its signature covers.
pub open spec fn invite_payload(v: InviteView) -> Seq<u8> {
    invite_head(v) + invite_endpoints_bytes(sent_endpoints(v.endpoints)) + bytes::be_bytes(
        v.timestamp as nat,
        8,
    )
}

/// The kind that a byte stands for here: one that stands for none is LAN.
pub open spec fn endpoint_kind_or_lan(v: u8) -> EndpointKind {
    match endpoint::endpoint_kind_of(v) {
        Some(k) => k,
        None => EndpointKind::LAN,
    }
}

/// The endpoint at offset `at`, if there is one, and the offset behind what was
/// looked at. A first byte other than 0 announces an IPv6 address.
pub open spec fn invite_endpoint_at(data: Seq<u8>, at: int) -> (Option<EndpointView>, int) {
    if at + 2 > data.len() {
        (None, at)
    } else {
        let v4 = data[at] == 0;
        let next = if v4 {
            at + 7
        } else {
            at + 19
        };
        if next > data.len() {
            (None, at + 1)
        } else if next + 7 > data.len() {
            (None, next)
        } else {
            (
                Some(
                    EndpointView {
                        addr: if v4 {
                            AddrView::V4 {
                                octets: data.subrange(at + 1, at + 5),
                                port: bytes::be_nat(data.subrange(at + 5, at + 7)) as u16,
                            }
                        } else {
                            AddrView::V6 {
                                octets: data.subrange(at + 1, at + 17),
                                port: bytes::be_nat(data.subrange(at + 17, at + 19)) as u16,
                                flowinfo: 0,
                                scope_id: 0,
                            }
                        },
                        kind: endpoint_kind_or_lan(data[next]),
                        ttl_seconds: bytes::be_nat(data.subrange(next + 2, next + 6)) as u32,
                    },
                ),
                next + 6,
            )
        }
    }
}

/// The endpoints that `count` looks from offset `at` on find, and the offset
/// behind what was looked at.
pub open spec fn invite_endpoints_at(data: Seq<u8>, at: int, count: nat) -> (
    Seq<EndpointView>,
    int,
)
    decreases count,
{
    if count == 0 {
        (Seq::empty(), at)
    } else {
        let (found, next) = invite_endpoint_at(data, at);
        let (rest, end) = invite_endpoints_at(data, next, (count - 1) as nat);
        (
            match found {
                Some(e) => seq![e] + rest,
                None => rest,
            },
            end,
        )
    }
}

/// The invite that some bytes hold, or the reason why they hold none. The
/// signature is zero where there are no bytes for it.
pub open spec fn decoded_invite(data: Seq<u8>) -> Result<InviteView, Seq<char>> {
    if data.len() < 106 {
        Err("too short"@)
    } else if data[0] != PROTOCOL_VERSION {
        Err("unsupported version "@ + text::decimal(data[0] as nat))
    } else {
        let (endpoints, end) = invite_endpoints_at(data, 104, data[103] as nat);
        if end + 8 > data.len() {
            Err("timestamp missing"@)
        } else {
            Ok(
                InviteView {
                    version: data[0],
                    peer_id: data.subrange(1, 33),
                    ed25519_pk: data.subrange(33, 65),
                    noise_pk: data.subrange(65, 97),
                    capabilities: data[97],
                    mappable_port_start: bytes::be_nat(data.subrange(98, 100)) as u16,
                    mappable_port_end: bytes::be_nat(data.subrange(100, 102)) as u16,
                    port_delta_hint: data[102],
                    endpoints,
                    timestamp: bytes::be_nat(data.subrange(end, end + 8)) as u64,
                    signature: if end + 72 <= data.len() {
                        data.subrange(end + 8, end + 72)
                    } else {
                        Seq::new(64, |i: int| 0u8)
                    },
                },
            )
        }
    }
}

/// The invite that the bytes of a text in base 62 hold.
pub open spec fn invite_of_text(text: Seq<u8>) -> Result<InviteView, Seq<char>> {
    match base62::base62_bytes(text) {
        None => Err("invalid base62"@),
        Some(data) => if data.len() < 170 {
            Err("invite too short"@)
        } else {
            decoded_invite(data)
        },
    }
}

/// The bytes "lain://" that a URI starts with.
pub open spec fn uri_prefix() -> Seq<u8> {
    seq![108u8, 97u8, 105u8, 110u8, 58u8, 47u8, 47u8]
}

/// The invite that a URI holds.
pub open spec fn invite_of_uri(uri: Seq<char>) -> Result<InviteView, Seq<char>> {
    let b = vstd::utf8::encode_utf8(uri);
    if b.len() < 7 || b.subrange(0, 7) != uri_prefix() {
        Err("invalid URI prefix"@)
    } else {
        invite_of_text(b.skip(7))
    }
}

/// The text of an invite in base 62.
pub open spec fn invite_text(v: InviteView) -> Seq<char> {
    base62::base62_text(invite_payload(v) + v.signature)
}

/// Whether the result of reading an invite is the one stated.
pub open spec fn reads_as(
    r: Result<InviteCode, DiscoveryError>,
    want: Result<InviteView, Seq<char>>,
) -> bool {
    match r {
        Ok(invite) => want == Ok::<InviteView, Seq<char>>(invite@),
        Err(DiscoveryError::Decode(reason)) => want == Err::<InviteView, Seq<char>>(reason@),
        Err(_) => false,
    }
}

/// For how long an invite holds, in seconds.
pub const INVITE_WINDOW_SECS: u64 = 1800;

/// Whether an invite no longer holds: half an hour after it was made, or where it
/// was made later than now.
pub open spec fn expired(timestamp: u64, now: u64) -> bool {
    now < timestamp || now - timestamp > INVITE_WINDOW_SECS
}

impl InviteCode {
    /// Makes an invite now and signs it.
    pub fn new<F: Fn(&[u8]) -> [u8; 64]>(
        peer_id: PeerId,
        pubkey: [u8; 32],
        noise_pk: [u8; 32],
        capabilities: Capabilities,
        endpoints: Vec<Endpoint>,
        mappable_port_start: u16,
        mappable_port_end: u16,
        port_delta_hint: u8,
        sign_fn: &F,
    ) -> (r: Self)
        requires
            forall|data: &[u8]| call_requires(*sign_fn, (data,)),
        ensures
            r@ == (InviteView {
                version: PROTOCOL_VERSION,
                peer_id: peer_id@,
                ed25519_pk: pubkey@,
                noise_pk: noise_pk@,
                capabilities: capabilities.bits,
                mappable_port_start,
                mappable_port_end,
                port_delta_hint,
                endpoints: endpoint::endpoint_views(endpoints@),
                timestamp: r@.timestamp,
                signature: r@.signature,
            }),
            clock::is_time(r@.timestamp),
            exists|data: &[u8]|
                data@ == invite_payload(r@) && #[trigger] call_ensures(
                    *sign_fn,
                    (data,),
                    r.signature,
                ),
    {
        let timestamp: u64 = unix_seconds();
        InviteCode::new_at(
            peer_id,
            pubkey,
            noise_pk,
            capabilities,
            endpoints,
            mappable_port_start,
            mappable_port_end,
            port_delta_hint,
            timestamp,
            sign_fn,
        )
    }

    /// Makes an invite as of some moment and signs it.
    pub fn new_at<F: Fn(&[u8]) -> [u8; 64]>(
        peer_id: PeerId,
        pubkey: [u8; 32],
        noise_pk: [u8; 32],
        capabilities: Capabilities,
        endpoints: Vec<Endpoint>,
        mappable_port_start: u16,
        mappable_port_end: u16,
        port_delta_hint: u8,
        timestamp: u64,
        sign_fn: &F,
    ) -> (r: Self)
        requires
            forall|data: &[u8]| call_requires(*sign_fn, (data,)),
        ensures
            r@ == (InviteView {
                version: PROTOCOL_VERSION,
                peer_id: peer_id@,
                ed25519_pk: pubkey@,
                noise_pk: noise_pk@,
                capabilities: capabilities.bits,
                mappable_port_start,
                mappable_port_end,
                port_delta_hint,
                endpoints: endpoint::endpoint_views(endpoints@),
                timestamp,
                signature: r@.signature,
            }),
            exists|data: &[u8]|
                data@ == invite_payload(r@) && #[trigger] call_ensures(
                    *sign_fn,
                    (data,),
                    r.signature,
                ),
    {
        let mut invite: InviteCode = InviteCode {
            version: PROTOCOL_VERSION,
            peer_id,
            ed25519_pk: pubkey,
            noise_pk,
            capabilities,
            mappable_port_start,
            mappable_port_end,
            port_delta_hint,
            endpoints,
            timestamp,
            signature: [0u8; 64],
        };
        let data: Vec<u8> = invite.encode_payload();
        let slice: &[u8] = data.as_slice();
        invite.signature = sign_fn(slice);
        invite
    }

    /// The part of the invite that its signature covers. Of the endpoints it has the
    /// first 255.
    pub fn encode_payload(&self) -> (data: Vec<u8>)
        ensures
            data@ == invite_payload(self@),
    {
        let mut data: Vec<u8> = Vec::new();
        data.push(self.version);
        push_bytes(&mut data, self.peer_id.0.as_slice());
        push_bytes(&mut data, self.ed25519_pk.as_slice());
        push_bytes(&mut data, self.noise_pk.as_slice());
        data.push(self.capabilities.bits);
        push_u16(&mut data, self.mappable_port_start);
        push_u16(&mut data, self.mappable_port_end);
        data.push(self.port_delta_hint);
        let count: usize = if self.endpoints.len() < 255 {
            self.endpoints.len()
        } else {
            255
        };
        data.push(count as u8);
        let ghost head = invite_head(self@);
        assert(data@ =~= head);
        let ghost all = sent_endpoints(endpoint::endpoint_views(self.endpoints@));
        let mut i: usize = 0;
        assert(all.skip(0) =~= all);
        while i < count
            invariant
                i <= count <= self.endpoints@.len(),
                count == all.len(),
                all == sent_endpoints(endpoint::endpoint_views(self.endpoints@)),
                data@ + invite_endpoints_bytes(all.skip(i as int)) == head
                    + invite_endpoints_bytes(all),
            decreases count - i,
        {
            let ghost before = data@;
            encode_endpoint_binary(&mut data, &self.endpoints[i]);
            proof {
                let rest = invite_endpoints_bytes(all.skip(i + 1));
                assert(all.skip(i as int).drop_first() =~= all.skip(i + 1));
                assert(all.skip(i as int)[0] == self.endpoints@[i as int]@);
                assert(data@ + rest =~= before + (invite_endpoint_bytes(
                    self.endpoints@[i as int]@,
                ) + rest));
            }
            i = i + 1;
        }
        assert(invite_endpoints_bytes(all.skip(i as int)) =~= Seq::<u8>::empty());
        assert(data@ =~= head + invite_endpoints_bytes(all));
        push_u64(&mut data, self.timestamp);
        data
    }

    /// Reads an invite from bytes.
    pub fn decode_payload(data: &[u8]) -> (r: Result<Self, DiscoveryError>)
        ensures
            reads_as(r, decoded_invite(data@)),
    {
        if data.len() < 106 {
            return Err(DiscoveryError::Decode("too short".to_string()));
        }
        let version: u8 = data[0];
        if version != PROTOCOL_VERSION {
            let mut reason: String = "unsupported version ".to_string();
            push_decimal(&mut reason, version as u64);
            return Err(DiscoveryError::Decode(reason));
        }
        let peer_id: PeerId = PeerId(array_at(data, 1));
        let ed25519_pk: [u8; 32] = array_at(data, 33);
        let noise_pk: [u8; 32] = array_at(data, 65);
        let capabilities: Capabilities = Capabilities { bits: data[97] };
        let mappable_port_start: u16 = read_u16(data, 98);
        let mappable_port_end: u16 = read_u16(data, 100);
        let port_delta_hint: u8 = data[102];
        let count: usize = data[103] as usize;
        let mut offset: usize = 104;
        let mut endpoints: Vec<Endpoint> = Vec::new();
        let mut left: usize = count;
        let ghost all = invite_endpoints_at(data@, 104, count as nat);
        assert(endpoint::endpoint_views(endpoints@) + all.0 =~= all.0);
        while left > 0
            invariant
                offset <= data@.len(),
                left <= count,
                all.0 == endpoint::endpoint_views(endpoints@) + invite_endpoints_at(
                    data@,
                    offset as int,
                    left as nat,
                ).0,
                all.1 == invite_endpoints_at(data@, offset as int, left as nat).1,
            decreases left,
        {
            let ghost before = endpoint::endpoint_views(endpoints@);
            let (found, next): (Option<Endpoint>, usize) = decode_endpoint_binary(data, offset);
            let ghost rest = invite_endpoints_at(data@, next as int, (left - 1) as nat).0;
            match found {
                None => {},
                Some(e) => {
                    endpoints.push(e);
                    assert(endpoint::endpoint_views(endpoints@) =~= before + seq![e@]);
                    assert(before + (seq![e@] + rest) =~= before + seq![e@] + rest);
                },
            }
            offset = next;
            left = left - 1;
        }
        assert(all.0 =~= endpoint::endpoint_views(endpoints@));
        if data.len() - offset < 8 {
            return Err(DiscoveryError::Decode("timestamp missing".to_string()));
        }
        let timestamp: u64 = read_u64(data, offset);
        let signature: [u8; 64] = if data.len() - offset >= 72 {
            array_at(data, offset + 8)
        } else {
            [0u8; 64]
        };
        assert(data@.len() - offset < 72 ==> signature@ =~= Seq::new(64, |i: int| 0u8));
        Ok(
            InviteCode {
                version,
                peer_id,
                ed25519_pk,
                noise_pk,
                capabilities,
                mappable_port_start,
                mappable_port_end,
                port_delta_hint,
                endpoints,
                timestamp,
                signature,
            },
        )
    }

    /// The invite as text in base 62.
    pub fn to_base62(&self) -> (s: String)
        ensures
            s@ == invite_text(self@),
    {
        let mut full: Vec<u8> = self.encode_payload();
        push_bytes(&mut full, self.signature.as_slice());
        encode_base62(full.as_slice())
    }

    /// Reads an invite from text in base 62.
    pub fn from_base62(s: &str) -> (r: Result<Self, DiscoveryError>)
        ensures
            reads_as(r, invite_of_text(vstd::utf8::encode_utf8(s@))),
    {
        InviteCode::from_text(s.as_bytes())
    }

    /// Reads an invite from the bytes of a text in base 62.
    fn from_text(text: &[u8]) -> (r: Result<Self, DiscoveryError>)
        ensures
            reads_as(r, invite_of_text(text@)),
    {
        match decode_text(text) {
            None => Err(DiscoveryError::Decode("invalid base62".to_string())),
            Some(data) => {
                if data.len() < 170 {
                    return Err(DiscoveryError::Decode("invite too short".to_string()));
                }
                InviteCode::decode_payload(data.as_slice())
            },
        }
    }

    /// The invite as a URI.
    pub fn to_uri(&self) -> (s: String)
        ensures
            s@ == "lain://"@ + invite_text(self@),
    {
        let code: String = self.to_base62();
        concat2("lain://", code.as_str())
    }

    /// Reads an invite from a URI.
    pub fn from_uri(uri: &str) -> (r: Result<Self, DiscoveryError>)
        ensures
            reads_as(r, invite_of_uri(uri@)),
    {
        let b: &[u8] = uri.as_bytes();
        if !has_uri_prefix(b) {
            return Err(DiscoveryError::Decode("invalid URI prefix".to_string()));
        }
        let code: &[u8] = &b[7..b.len()];
        assert(code@ =~= b@.skip(7));
        InviteCode::from_text(code)
    }

    /// Whether the check of the signature over the payload under the invite's own
    /// key succeeds.
    pub fn verify<F: Fn(&[u8; 32], &[u8], &[u8; 64]) -> bool>(&self, verify_fn: &F) -> (r: bool)
        requires
            forall|key: &[u8; 32], data: &[u8], sig: &[u8; 64]|
                call_requires(*verify_fn, (key, data, sig)),
        ensures
            exists|data: &[u8]|
                data@ == invite_payload(self@) && #[trigger] call_ensures(
                    *verify_fn,
                    (&self.ed25519_pk, data, &self.signature),
                    r,
                ),
    {
        let payload: Vec<u8> = self.encode_payload();
        let slice: &[u8] = payload.as_slice();
        verify_fn(&self.ed25519_pk, slice, &self.signature)
    }

    /// Whether the invite no longer holds now. What the clock says decides.
    pub fn is_expired(&self) -> (r: bool)
        ensures
            exists|now: u64| #[trigger]
                clock::is_time(now) && r == expired(self@.timestamp, now),
    {
        let now: u64 = unix_seconds();
        self.is_expired_at(now)
    }

    /// Whether the invite no longer holds at some moment.
    pub fn is_expired_at(&self, now: u64) -> (r: bool)
        ensures
            r == expired(self@.timestamp, now),
    {
        if now < self.timestamp {
            return true;
        }
        now - self.timestamp > INVITE_WINDOW_SECS
    }
}

/// Whether the bytes of a text start with "lain://".
fn has_uri_prefix(b: &[u8]) -> (r: bool)
    ensures
        r == (b@.len() >= 7 && b@.subrange(0, 7) == uri_prefix()),
{
    let r: bool = b.len() >= 7 && b[0] == 108 && b[1] == 97 && b[2] == 105 && b[3] == 110 && b[4]
        == 58 && b[5] == 47 && b[6] == 47;
    proof {
        if b@.len() >= 7 {
            let h = b@.subrange(0, 7);
            let p = uri_prefix();
            assert(forall|i: int| 0 <= i < 7 ==> h[i] == b@[i]);
            if r {
                assert(h =~= p);
            } else if h == p {
                assert(h[0] == p[0] && h[1] == p[1] && h[2] == p[2] && h[3] == p[3] && h[4] == p[4]
                    && h[5] == p[5] && h[6] == p[6]);
            }
        }
    }
    r
}

/// Appends the wire form of an endpoint in an invite.
fn encode_endpoint_binary(buf: &mut Vec<u8>, ep: &Endpoint)
    ensures
        final(buf)@ == old(buf)@ + invite_endpoint_bytes(ep@),
{
    encode_address(buf, &ep.addr);
    buf.push(ep.kind.code());
    buf.push(128);
    push_u32(buf, ep.ttl_seconds);
    assert(buf@ =~= old(buf)@ + invite_endpoint_bytes(ep@));
}

/// Reads the endpoint at offset `at`, and says how far was looked.
fn decode_endpoint_binary(data: &[u8], at: usize) -> (r: (Option<Endpoint>, usize))
    requires
        at <= data@.len(),
    ensures
        r.1 <= data@.len(),
        invite_endpoint_at(data@, at as int) == (
            match r.0 {
                Some(e) => Some(e@),
                None => None,
            },
            r.1 as int,
        ),
{
    let room: usize = data.len() - at;
    if room < 2 {
        return (None, at);
    }
    let v4: bool = data[at] == 0;
    let size: usize = if v4 {
        7
    } else {
        19
    };
    if room < size {
        return (None, at + 1);
    }
    let next: usize = at + size;
    let addr: SocketAddr = if v4 {
        SocketAddr::V4(SocketAddrV4 { ip: array_at(data, at + 1), port: read_u16(data, at + 5) })
    } else {
        SocketAddr::V6(
            SocketAddrV6 {
                ip: array_at(data, at + 1),
                port: read_u16(data, at + 17),
                flowinfo: 0,
                scope_id: 0,
            },
        )
    };
    if data.len() - next < 7 {
        return (None, next);
    }
    let kind: EndpointKind = match EndpointKind::from_code(data[next]) {
        Some(k) => k,
        None => EndpointKind::LAN,
    };
    let ttl_seconds: u32 = read_u32(data, next + 2);
    (Some(Endpoint { addr, kind, ttl_seconds }), next + 6)
}

/// The endpoints of an invite behind some other bytes are read back, where the
/// timestamp follows them.
proof fn lemma_invite_endpoints(pre: Seq<u8>, eps: Seq<EndpointView>, rest: Seq<u8>)
    requires
        forall|i: int| 0 <= i < eps.len() ==> (#[trigger] eps[i]).addr.on_wire(),
        rest.len() >= 1,
    ensures
        invite_endpoints_at(
            pre + invite_endpoints_bytes(eps) + rest,
            pre.len() as int,
            eps.len(),
        ) == (eps, (pre.len() + invite_endpoints_bytes(eps).len()) as int),
    decreases eps.len(),
{
    let s = pre + invite_endpoints_bytes(eps) + rest;
    if eps.len() > 0 {
        let e = eps[0];
        let more = eps.drop_first();
        let item = invite_endpoint_bytes(e);
        let addr = endpoint::address_bytes(e.addr);
        let ttl = bytes::be_bytes(e.ttl_seconds as nat, 4);
        let tail = seq![e.kind.spec_code(), 128u8] + ttl + invite_endpoints_bytes(more) + rest;
        assert forall|i: int| 0 <= i < more.len() implies (#[trigger] more[i]).addr.on_wire() by {
            assert(more[i] == eps[i + 1]);
        }
        endpoint::law_address_roundtrip(pre, e.addr, tail);
        assert(s =~= pre + addr + tail);
        bytes::lemma_pow256();
        bytes::lemma_be_nat_of_bytes(e.ttl_seconds as nat, 4);
        let next = (pre.len() + addr.len()) as int;
        assert(s[next] == e.kind.spec_code());
        assert(s.subrange(next + 2, next + 6) =~= ttl);
        lemma_invite_endpoints(pre + item, more, rest);
        assert(pre + item + invite_endpoints_bytes(more) + rest =~= s);
        assert(seq![e] + more =~= eps);
    } else {
        assert(eps =~= Seq::empty());
        assert(s =~= pre + rest);
    }
}

/// Whether the parts of an invite have the lengths that they should, and the wire
/// form has room for each endpoint.
pub open spec fn invite_fits(v: InviteView) -> bool {
    &&& v.version == PROTOCOL_VERSION
    &&& v.peer_id.len() == 32
    &&& v.ed25519_pk.len() == 32
    &&& v.noise_pk.len() == 32
    &&& v.signature.len() == 64
    &&& forall|i: int| 0 <= i < v.endpoints.len() ==> (#[trigger] v.endpoints[i]).addr.on_wire()
}

/// What goes out of an invite goes out of it again: it keeps the parts that the wire
/// form has room for, has the same wire form, and is the invite itself where it has up
/// to 255 endpoints.
pub proof fn law_invite_as_sent(v: InviteView)
    ensures
        invite_payload(as_sent(v)) == invite_payload(v),
        as_sent(as_sent(v)) == as_sent(v),
        as_sent(v).endpoints.len() <= 255,
        invite_fits(v) ==> invite_fits(as_sent(v)),
        v.endpoints.len() <= 255 ==> as_sent(v) == v,
{
    let w = as_sent(v);
    if invite_fits(v) {
        assert forall|i: int| 0 <= i < w.endpoints.len() implies (
        #[trigger] w.endpoints[i]).addr.on_wire() by {
            assert(w.endpoints[i] == v.endpoints[i]);
        }
    }
}

/// Reading the bytes of an invite gives back every part of it that went out: all of
/// it, but for the endpoints beyond the first 255.
pub proof fn law_invite_payload_roundtrip(v: InviteView)
    requires
        invite_fits(v),
    ensures
        decoded_invite(invite_payload(v) + v.signature) == Ok::<InviteView, Seq<char>>(as_sent(v)),
        invite_payload(v).len() >= 112,
{
    let w = as_sent(v);
    law_invite_as_sent(v);
    let head = invite_head(w);
    let eps = invite_endpoints_bytes(w.endpoints);
    let time = bytes::be_bytes(v.timestamp as nat, 8);
    let s = invite_payload(w) + v.signature;
    bytes::lemma_pow256();
    bytes::lemma_be_nat_of_bytes(v.mappable_port_start as nat, 2);
    bytes::lemma_be_nat_of_bytes(v.mappable_port_end as nat, 2);
    bytes::lemma_be_nat_of_bytes(v.timestamp as nat, 8);
    lemma_invite_endpoints(head, w.endpoints, time + v.signature);
    assert(s =~= head + eps + (time + v.signature));
    assert(s.subrange(1, 33) =~= v.peer_id);
    assert(s.subrange(33, 65) =~= v.ed25519_pk);
    assert(s.subrange(65, 97) =~= v.noise_pk);
    assert(s.subrange(98, 100) =~= bytes::be_bytes(v.mappable_port_start as nat, 2));
    assert(s.subrange(100, 102) =~= bytes::be_bytes(v.mappable_port_end as nat, 2));
    let end = (head.len() + eps.len()) as int;
    assert(s.subrange(end, end + 8) =~= time);
    assert(s.subrange(end + 8, end + 72) =~= v.signature);
}

/// The bytes of an invite do not start with a zero byte, and so do not denote zero.
proof fn lemma_invite_number(v: InviteView)
    requires
        invite_fits(v),
    ensures
        bytes::be_nat(invite_payload(v) + v.signature) > 0,
        base62::leading_zero_bytes(invite_payload(v) + v.signature) == 0,
{
    let s = invite_payload(v) + v.signature;
    assert(s[0] == PROTOCOL_VERSION);
    crate::peer::lemma_be_nat_zero(s);
}

/// Reading the text of an invite gives the invite as it went out.
pub proof fn law_invite_text_roundtrip(v: InviteView)
    requires
        invite_fits(v),
    ensures
        invite_of_text(vstd::utf8::encode_utf8(invite_text(v))) == Ok::<InviteView, Seq<char>>(
            as_sent(v),
        ),
{
    lemma_invite_number(v);
    law_invite_payload_roundtrip(v);
    base62::law_base62_roundtrip(invite_payload(v) + v.signature);
}

/// Reading the URI of an invite gives the invite as it went out.
pub proof fn law_invite_uri_roundtrip(v: InviteView)
    requires
        invite_fits(v),
    ensures
        invite_of_uri("lain://"@ + invite_text(v)) == Ok::<InviteView, Seq<char>>(as_sent(v)),
{
    reveal_strlit("lain://");
    let code = invite_text(v);
    let uri = "lain://"@ + code;
    let b = vstd::utf8::encode_utf8(uri);
    let c = vstd::utf8::encode_utf8(code);
    law_invite_text_roundtrip(v);
    lemma_invite_number(v);
    base62::lemma_text_ascii(invite_payload(v) + v.signature);
    assert(vstd::utf8::is_ascii_chars(uri)) by {
        assert forall|i: int| 0 <= i < uri.len() implies '\0' <= #[trigger] uri[i] <= '\u{7f}' by {
            if i >= 7 {
                assert(uri[i] == code[i - 7]);
            }
        }
    }
    vstd::utf8::is_ascii_chars_encode_utf8(uri);
    vstd::utf8::is_ascii_chars_encode_utf8(code);
    assert forall|i: int| 0 <= i < c.len() implies b.skip(7)[i] == c[i] by {
        assert(uri[i + 7] == code[i]);
        assert(uri[i + 7] as u8 == b[i + 7]);
        assert(code[i] as u8 == c[i]);
    }
    assert(b.skip(7) =~= c);
    assert(b.subrange(0, 7) =~= uri_prefix()) by {
        assert forall|i: int| 0 <= i < 7 implies b.subrange(0, 7)[i] == uri_prefix()[i] by {
            assert(uri[i] as u8 == b[i]);
        }
    }
}

/// An invite holds for half an hour from the moment that it was made, and at no
/// other time.
pub proof fn law_invite_window(timestamp: u64, now: u64)
    ensures
        !expired(timestamp, now) <==> timestamp <= now <= timestamp + 1800,
{
}

/// An invite has, from its first byte on, its version, the identifier, the two keys of 32
/// bytes each, the capabilities, the first and the last of the ports in two bytes each, the
/// hint of the step of the NAT, how many endpoints there are, and these; and then the
/// moment that it was made in eight bytes. Each endpoint has a 0 and four bytes of an IPv4
/// address or a 1 and sixteen of an IPv6 address, its port in two bytes, its kind, a byte,
/// and its time to live in four.
pub proof fn law_invite_layout(v: InviteView)
    requires
        invite_fits(v),
    ensures
        ({
            let d = invite_payload(v);
            &&& d[0] == v.version
            &&& d.subrange(1, 33) == v.peer_id
            &&& d.subrange(33, 65) == v.ed25519_pk
            &&& d.subrange(65, 97) == v.noise_pk
            &&& d[97] == v.capabilities
            &&& bytes::be_nat(d.subrange(98, 100)) == v.mappable_port_start
            &&& bytes::be_nat(d.subrange(100, 102)) == v.mappable_port_end
            &&& d[102] == v.port_delta_hint
            &&& d[103] == if v.endpoints.len() < 255 {
                v.endpoints.len()
            } else {
                255
            }
            &&& bytes::be_nat(d.subrange(d.len() - 8, d.len() as int)) == v.timestamp
            &&& v.endpoints.len() > 0 ==> {
                let e = v.endpoints[0];
                match e.addr {
                    AddrView::V4 { octets, port } => d[104] == 0 && d.subrange(105, 109) == octets
                        && bytes::be_nat(d.subrange(109, 111)) == port && d[111]
                        == e.kind.spec_code() && bytes::be_nat(d.subrange(113, 117))
                        == e.ttl_seconds,
                    AddrView::V6 { octets, port, flowinfo, scope_id } => d[104] == 1 && d.subrange(
                        105,
                        121,
                    ) == octets && bytes::be_nat(d.subrange(121, 123)) == port && d[123]
                        == e.kind.spec_code() && bytes::be_nat(d.subrange(125, 129))
                        == e.ttl_seconds,
                }
            }
        }),
{
    let d = invite_payload(v);
    let time = bytes::be_bytes(v.timestamp as nat, 8);
    bytes::lemma_pow256();
    bytes::lemma_be_nat_of_bytes(v.mappable_port_start as nat, 2);
    bytes::lemma_be_nat_of_bytes(v.mappable_port_end as nat, 2);
    bytes::lemma_be_nat_of_bytes(v.timestamp as nat, 8);
    bytes::lemma_be_bytes_len(v.mappable_port_start as nat, 2);
    bytes::lemma_be_bytes_len(v.mappable_port_end as nat, 2);
    bytes::lemma_be_bytes_len(v.timestamp as nat, 8);
    assert(d.subrange(1, 33) =~= v.peer_id);
    assert(d.subrange(33, 65) =~= v.ed25519_pk);
    assert(d.subrange(65, 97) =~= v.noise_pk);
    assert(d.subrange(98, 100) =~= bytes::be_bytes(v.mappable_port_start as nat, 2));
    assert(d.subrange(100, 102) =~= bytes::be_bytes(v.mappable_port_end as nat, 2));
    assert(d.subrange(d.len() - 8, d.len() as int) =~= time);
    if v.endpoints.len() > 0 {
        let l = sent_endpoints(v.endpoints);
        let e = v.endpoints[0];
        assert(l[0] == e);
        assert(e.addr.on_wire());
        let item = invite_endpoint_bytes(e);
        let p = e.addr.port() as nat;
        let ttl = e.ttl_seconds as nat;
        bytes::lemma_be_nat_of_bytes(p, 2);
        bytes::lemma_be_bytes_len(p, 2);
        bytes::lemma_be_nat_of_bytes(ttl, 4);
        bytes::lemma_be_bytes_len(ttl, 4);
        assert(d =~= invite_head(v) + item + (invite_endpoints_bytes(l.drop_first()) + time));
        match e.addr {
            AddrView::V4 { octets, port } => {
                assert(d.subrange(105, 109) =~= octets);
                assert(d.subrange(109, 111) =~= bytes::be_bytes(p, 2));
                assert(d.subrange(113, 117) =~= bytes::be_bytes(ttl, 4));
            },
            AddrView::V6 { octets, port, flowinfo, scope_id } => {
                assert(d.subrange(105, 121) =~= octets);
                assert(d.subrange(121, 123) =~= bytes::be_bytes(p, 2));
                assert(d.subrange(125, 129) =~= bytes::be_bytes(ttl, 4));
            },
        }
    }
}

} // verus!
