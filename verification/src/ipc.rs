//! What applications and the daemon say to each other.
use crate::base64_text;
use crate::base64_text::{base64_decode, base64_encode, Base64Error};
use crate::endpoint::SocketAddr;
use crate::hexadecimal;
use crate::peer;
use crate::peer::PeerId;
use crate::text::concat2;
use vstd::prelude::*;

verus! {

/// What can go wrong with the daemon's listeners.
#[derive(Debug)]
pub enum IpcError {
    Listener(String),
}

impl IpcError {
    /// The text of the error.
    pub open spec fn message(&self) -> Seq<char> {
        match self {
            IpcError::Listener(s) => "listener error: "@ + s@,
        }
    }

    /// The text of the error.
    pub fn text(&self) -> (s: String)
        ensures
            s@ == self.message(),
    {
        match self {
            IpcError::Listener(s) => concat2("listener error: ", s.as_str()),
        }
    }
}

/// What an application asks of the daemon. The data to send is in base 64.
#[allow(inconsistent_fields)]
#[derive(Debug)]
pub enum IpcRequest {
    Connect { peer_id: Option<String>, invite: String },
    Tso { invite: String },
    FindPeer { peer_id: String },
    Disconnect { peer_id: String },
    Accept { connection_id: u64 },
    Reject { connection_id: u64 },
    ListPeers,
    GetInvite,
    Whoami,
    Subscribe,
    Shutdown,
    Send { peer_id: String, data: String },
}

/// How the daemon is doing.
#[derive(Debug)]
pub struct DaemonStatus {
    pub peer_id: String,
    pub nat_type: String,
    pub ipv6: bool,
    pub ipv6_addr: Option<[u8; 16]>,
    pub port_delta: Option<u16>,
    pub stun_rtt_ms: Option<u64>,
    pub dht_nodes: usize,
    pub known_peers: usize,
    pub connected_peers: usize,
    pub peers: Vec<String>,
}

/// What comes with an answer or an event: the number of a connection, bytes in
/// base 64, the text of an error, the path of a connection, or the status.
#[derive(Debug)]
pub enum IpcData {
    ConnectionId(u64),
    Bytes(String),
    Error(String),
    Via(String),
    Status(DaemonStatus),
}

/// What the daemon answers, or tells of itself.
#[allow(inconsistent_fields)]
#[derive(Debug)]
pub enum IpcResponse {
    Success { message: Option<String>, data: Option<IpcData> },
    Error { code: String, message: String },
    Event { event: String, peer_id: Option<String>, data: Option<IpcData> },
}

/// What comes with an answer or an event, as a value.
pub enum DataView {
    ConnectionId(u64),
    Bytes(Seq<char>),
    Error(Seq<char>),
    Via(Seq<char>),
    Status(DaemonStatus),
}

/// What the daemon answers, as a value.
#[allow(inconsistent_fields)]
pub enum ResponseView {
    Success { message: Option<Seq<char>>, data: Option<DataView> },
    Error { code: Seq<char>, message: Seq<char> },
    Event { event: Seq<char>, peer_id: Option<Seq<char>>, data: Option<DataView> },
}

impl View for IpcData {
    type V = DataView;

    open spec fn view(&self) -> DataView {
        match *self {
            IpcData::ConnectionId(n) => DataView::ConnectionId(n),
            IpcData::Bytes(s) => DataView::Bytes(s@),
            IpcData::Error(s) => DataView::Error(s@),
            IpcData::Via(s) => DataView::Via(s@),
            IpcData::Status(s) => DataView::Status(s),
        }
    }
}

/// An optional text, as a value.
pub open spec fn opt_text(s: Option<String>) -> Option<Seq<char>> {
    match s {
        Some(t) => Some(t@),
        None => None,
    }
}

/// What may come with an answer, as a value.
pub open spec fn opt_data(d: Option<IpcData>) -> Option<DataView> {
    match d {
        Some(v) => Some(v@),
        None => None,
    }
}

impl View for IpcResponse {
    type V = ResponseView;

    open spec fn view(&self) -> ResponseView {
        match *self {
            IpcResponse::Success { message, data } => ResponseView::Success {
                message: opt_text(message),
                data: opt_data(data),
            },
            IpcResponse::Error { code, message } => ResponseView::Error {
                code: code@,
                message: message@,
            },
            IpcResponse::Event { event, peer_id, data } => ResponseView::Event {
                event: event@,
                peer_id: opt_text(peer_id),
                data: opt_data(data),
            },
        }
    }
}

/// An answer that is a text alone.
pub open spec fn ok_view(message: Seq<char>) -> ResponseView {
    ResponseView::Success { message: Some(message), data: None }
}

/// An answer that is an error.
pub open spec fn error_view(code: Seq<char>, message: Seq<char>) -> ResponseView {
    ResponseView::Error { code, message }
}

/// An answer that is a text alone.
fn ok(message: String) -> (r: IpcResponse)
    ensures
        r@ == ok_view(message@),
{
    IpcResponse::Success { message: Some(message), data: None }
}

/// An answer that is an error.
fn error(code: &str, message: String) -> (r: IpcResponse)
    ensures
        r@ == error_view(code@, message@),
{
    IpcResponse::Error { code: code.to_string(), message }
}

/// What the daemon is to do for an application.
#[allow(inconsistent_fields)]
#[derive(Debug)]
pub enum IpcCommand {
    ConnectPeer { peer_id: Option<PeerId>, invite: String },
    TsoPeer { invite: String },
    FindPeer { peer_id: String },
    DisconnectPeer { peer_id: PeerId },
    AcceptConnection { connection_id: u64 },
    RejectConnection { connection_id: u64 },
    Shutdown,
    SendToPeer { peer_id: PeerId, data: Vec<u8> },
    GetStatus,
    GetWhoami,
    GetInviteCode,
}

/// What the application is told: something at once, or what the daemon says to the
/// command.
#[derive(Debug)]
pub enum IpcReply {
    Now(IpcResponse),
    AwaitStatus,
    AwaitText,
    AwaitSent { peer_id: String },
}

/// Whether a request leads to a command and a reply.
pub open spec fn dispatches(req: IpcRequest, cmd: Option<IpcCommand>, reply: IpcReply) -> bool {
    match req {
        IpcRequest::Connect { peer_id, invite } => {
            &&& cmd matches Some(IpcCommand::ConnectPeer { peer_id: None, invite: i }) && i@
                == invite@
            &&& reply matches IpcReply::Now(r) && r@ == ok_view("connecting: "@ + invite@)
        },
        IpcRequest::Tso { invite } => {
            &&& cmd matches Some(IpcCommand::TsoPeer { invite: i }) && i@ == invite@
            &&& reply matches IpcReply::Now(r) && r@ == ok_view("tso: "@ + invite@)
        },
        IpcRequest::FindPeer { peer_id } => {
            &&& cmd matches Some(IpcCommand::FindPeer { peer_id: p }) && p@ == peer_id@
            &&& reply matches IpcReply::Now(r) && r@ == ok_view("finding: "@ + peer_id@)
        },
        IpcRequest::Disconnect { peer_id } => match peer::parsed_peer_id(peer_id@) {
            Ok(id) => {
                &&& cmd matches Some(IpcCommand::DisconnectPeer { peer_id: p }) && p@ == id
                &&& reply matches IpcReply::Now(r) && r@ == ok_view("disconnected"@)
            },
            Err(_) => {
                &&& cmd is None
                &&& reply matches IpcReply::Now(r) && r@ == invalid_id(peer_id@)
            },
        },
        IpcRequest::Accept { connection_id } => {
            &&& cmd == Some(IpcCommand::AcceptConnection { connection_id })
            &&& reply matches IpcReply::Now(r) && r@ == ok_view("accepted"@)
        },
        IpcRequest::Reject { connection_id } => {
            &&& cmd == Some(IpcCommand::RejectConnection { connection_id })
            &&& reply matches IpcReply::Now(r) && r@ == ok_view("rejected"@)
        },
        IpcRequest::ListPeers => cmd == Some(IpcCommand::GetStatus) && reply is AwaitStatus,
        IpcRequest::Whoami => cmd == Some(IpcCommand::GetWhoami) && reply is AwaitText,
        IpcRequest::GetInvite => cmd == Some(IpcCommand::GetInviteCode) && reply is AwaitText,
        IpcRequest::Subscribe => {
            &&& cmd is None
            &&& reply matches IpcReply::Now(r) && r@ == ok_view("subscribed"@)
        },
        IpcRequest::Shutdown => {
            &&& cmd == Some(IpcCommand::Shutdown)
            &&& reply matches IpcReply::Now(r) && r@ == ok_view("shutting down"@)
        },
        IpcRequest::Send { peer_id, data } => match peer::parsed_peer_id(peer_id@) {
            Err(_) => {
                &&& cmd is None
                &&& reply matches IpcReply::Now(r) && r@ == invalid_id(peer_id@)
            },
            Ok(id) => match base64_text::base64_decoded(data@) {
                Err(e) => {
                    &&& cmd is None
                    &&& reply matches IpcReply::Now(r) && r@ == error_view(
                        "INVALID_DATA"@,
                        "base64 decode: "@ + e.message(),
                    )
                },
                Ok(bytes) => {
                    &&& cmd matches Some(IpcCommand::SendToPeer { peer_id: p, data: d }) && p@
                        == id && d@ == bytes
                    &&& reply matches IpcReply::AwaitSent { peer_id: p } && p@ == peer_id@
                },
            },
        },
    }
}

/// What a request with a text that is no identifier is answered.
pub open spec fn invalid_id(text: Seq<char>) -> ResponseView {
    error_view("INVALID_ID"@, "invalid PeerID: "@ + text)
}

/// What the daemon is to do for a request, and what the application is told.
pub fn dispatch(req: IpcRequest) -> (r: (Option<IpcCommand>, IpcReply))
    ensures
        dispatches(req, r.0, r.1),
{
    match req {
        IpcRequest::Connect { peer_id: _, invite } => {
            let said: String = concat2("connecting: ", invite.as_str());
            (Some(IpcCommand::ConnectPeer { peer_id: None, invite }), IpcReply::Now(ok(said)))
        },
        IpcRequest::Tso { invite } => {
            let said: String = concat2("tso: ", invite.as_str());
            (Some(IpcCommand::TsoPeer { invite }), IpcReply::Now(ok(said)))
        },
        IpcRequest::FindPeer { peer_id } => {
            let said: String = concat2("finding: ", peer_id.as_str());
            (Some(IpcCommand::FindPeer { peer_id }), IpcReply::Now(ok(said)))
        },
        IpcRequest::Disconnect { peer_id } => match PeerId::from_hex(peer_id.as_str()) {
            Ok(id) => (
                Some(IpcCommand::DisconnectPeer { peer_id: id }),
                IpcReply::Now(ok("disconnected".to_string())),
            ),
            Err(_) => (None, IpcReply::Now(refuse_id(peer_id.as_str()))),
        },
        IpcRequest::Accept { connection_id } => (
            Some(IpcCommand::AcceptConnection { connection_id }),
            IpcReply::Now(ok("accepted".to_string())),
        ),
        IpcRequest::Reject { connection_id } => (
            Some(IpcCommand::RejectConnection { connection_id }),
            IpcReply::Now(ok("rejected".to_string())),
        ),
        IpcRequest::ListPeers => (Some(IpcCommand::GetStatus), IpcReply::AwaitStatus),
        IpcRequest::Whoami => (Some(IpcCommand::GetWhoami), IpcReply::AwaitText),
        IpcRequest::GetInvite => (Some(IpcCommand::GetInviteCode), IpcReply::AwaitText),
        IpcRequest::Subscribe => (None, IpcReply::Now(ok("subscribed".to_string()))),
        IpcRequest::Shutdown => (
            Some(IpcCommand::Shutdown),
            IpcReply::Now(ok("shutting down".to_string())),
        ),
        IpcRequest::Send { peer_id, data } => match PeerId::from_hex(peer_id.as_str()) {
            Err(_) => (None, IpcReply::Now(refuse_id(peer_id.as_str()))),
            Ok(id) => match base64_decode(data.as_str()) {
                Err(e) => {
                    let why: String = e.text();
                    let said: String = concat2("base64 decode: ", why.as_str());
                    (None, IpcReply::Now(error("INVALID_DATA", said)))
                },
                Ok(bytes) => (
                    Some(IpcCommand::SendToPeer { peer_id: id, data: bytes }),
                    IpcReply::AwaitSent { peer_id },
                ),
            },
        },
    }
}

/// What a request with a text that is no identifier is answered.
fn refuse_id(text: &str) -> (r: IpcResponse)
    ensures
        r@ == invalid_id(text@),
{
    error("INVALID_ID", concat2("invalid PeerID: ", text))
}

/// What a line that is no request is answered.
pub fn parse_error(reason: String) -> (r: IpcResponse)
    ensures
        r@ == error_view("PARSE"@, reason@),
{
    error("PARSE", reason)
}

/// What an application is told when the daemon does not answer.
pub open spec fn busy_view() -> ResponseView {
    error_view("TIMEOUT"@, "daemon busy"@)
}

/// The answer to the question for the status.
pub fn answer_status(status: Option<DaemonStatus>) -> (r: IpcResponse)
    ensures
        r@ == match status {
            Some(s) => ResponseView::Success { message: None, data: Some(DataView::Status(s)) },
            None => busy_view(),
        },
{
    match status {
        Some(s) => IpcResponse::Success { message: None, data: Some(IpcData::Status(s)) },
        None => error("TIMEOUT", "daemon busy".to_string()),
    }
}

/// The answer to a question for a text.
pub fn answer_text(text: Option<String>) -> (r: IpcResponse)
    ensures
        r@ == match text {
            Some(t) => ok_view(t@),
            None => busy_view(),
        },
{
    match text {
        Some(t) => ok(t),
        None => error("TIMEOUT", "daemon busy".to_string()),
    }
}

/// What came of data that was to be sent.
#[derive(Debug)]
pub enum SendOutcome {
    Sent,
    NotConnected,
    Failed(String),
}

/// The answer to a request to send data to a peer.
pub fn answer_sent(peer_id: &str, outcome: Option<SendOutcome>) -> (r: IpcResponse)
    ensures
        r@ == match outcome {
            Some(SendOutcome::Sent) => ok_view("sent"@),
            Some(SendOutcome::NotConnected) => error_view(
                "NOT_CONNECTED"@,
                "no active connection to "@ + peer_id@,
            ),
            Some(SendOutcome::Failed(e)) => error_view("SEND_FAILED"@, e@),
            None => busy_view(),
        },
{
    match outcome {
        Some(SendOutcome::Sent) => ok("sent".to_string()),
        Some(SendOutcome::NotConnected) => error(
            "NOT_CONNECTED",
            concat2("no active connection to ", peer_id),
        ),
        Some(SendOutcome::Failed(e)) => error("SEND_FAILED", e),
        None => error("TIMEOUT", "daemon busy".to_string()),
    }
}

/// An event that tells something of a peer, by the digits that messages show of it.
pub open spec fn event_view(event: Seq<char>, id: Seq<u8>, data: Option<DataView>) -> ResponseView {
    ResponseView::Event {
        event,
        peer_id: Some(hexadecimal::hex_text(id.subrange(0, 8))),
        data,
    }
}

/// The event of a connection; nothing more is told where there is no path to name.
pub fn peer_connected(peer_id: &PeerId, via: &str) -> (r: IpcResponse)
    ensures
        r@ == event_view(
            "peer_connected"@,
            peer_id@,
            if via@.len() == 0 {
                None
            } else {
                Some(DataView::Via(via@))
            },
        ),
{
    let data: Option<IpcData> = if via.unicode_len() == 0 {
        None
    } else {
        Some(IpcData::Via(via.to_string()))
    };
    IpcResponse::Event {
        event: "peer_connected".to_string(),
        peer_id: Some(peer_id.short_hex()),
        data,
    }
}

/// The event of a connection that is gone.
pub fn peer_disconnected(peer_id: &PeerId) -> (r: IpcResponse)
    ensures
        r@ == event_view("peer_disconnected"@, peer_id@, None),
{
    IpcResponse::Event {
        event: "peer_disconnected".to_string(),
        peer_id: Some(peer_id.short_hex()),
        data: None,
    }
}

/// The event of a connection that did not come about.
pub fn peer_error(peer_id: &PeerId, reason: String) -> (r: IpcResponse)
    ensures
        r@ == event_view("peer_error"@, peer_id@, Some(DataView::Error(reason@))),
{
    IpcResponse::Event {
        event: "peer_error".to_string(),
        peer_id: Some(peer_id.short_hex()),
        data: Some(IpcData::Error(reason)),
    }
}

/// The event of a peer that was sought, by the text of its identifier, and not
/// found.
pub fn peer_not_found(peer_id: String) -> (r: IpcResponse)
    ensures
        r@ == (ResponseView::Event {
            event: "peer_error"@,
            peer_id: Some(peer_id@),
            data: Some(DataView::Error("not found"@)),
        }),
{
    IpcResponse::Event {
        event: "peer_error".to_string(),
        peer_id: Some(peer_id),
        data: Some(IpcData::Error("not found".to_string())),
    }
}

/// The event of data from a peer: the bytes in base 64, from which they can be read
/// again.
pub fn data_event(peer_id: &PeerId, data: &[u8]) -> (r: IpcResponse)
    requires
        base64_text::base64_fits(data@.len()),
    ensures
        r@ == event_view(
            "data"@,
            peer_id@,
            Some(DataView::Bytes(base64_text::base64_encoded(data@))),
        ),
        base64_text::base64_decoded(base64_text::base64_encoded(data@)) == Ok::<
            Seq<u8>,
            Base64Error,
        >(data@),
{
    let bytes: String = base64_encode(data);
    IpcResponse::Event {
        event: "data".to_string(),
        peer_id: Some(peer_id.short_hex()),
        data: Some(IpcData::Bytes(bytes)),
    }
}

/// Where the daemon listens.
#[derive(Debug)]
pub struct IpcConfig {
    pub uds_path: Option<String>,
    pub http_addr: Option<SocketAddr>,
}

impl Default for IpcConfig {
    fn default() -> (r: Self)
        ensures
            r.uds_path is None,
            r.http_addr is None,
    {
        IpcConfig { uds_path: None, http_addr: None }
    }
}

/// The daemon's side of the talk with applications.
#[derive(Debug)]
pub struct IpcServer {
    pub config: IpcConfig,
    pub next_conn_id: u64,
    pub peer_id: Option<PeerId>,
    pub invite_code: Option<String>,
}

impl IpcServer {
    /// A server that has seen no connection.
    pub fn new(config: IpcConfig) -> (r: Self)
        ensures
            r.config == config,
            r.next_conn_id == 1,
            r.peer_id is None,
            r.invite_code is None,
    {
        IpcServer { config, next_conn_id: 1, peer_id: None, invite_code: None }
    }

    /// Gives an incoming connection its number, and the event that tells of it. The
    /// numbers follow each other, and start again from 0 behind the last.
    pub fn notify_incoming(&mut self, peer_id: PeerId) -> (r: (u64, IpcResponse))
        ensures
            r.0 == old(self).next_conn_id,
            r.1@ == event_view(
                "incoming_connection"@,
                peer_id@,
                Some(DataView::ConnectionId(r.0)),
            ),
            final(self).next_conn_id == if old(self).next_conn_id == u64::MAX {
                0
            } else {
                (old(self).next_conn_id + 1) as u64
            },
            final(self).config == old(self).config,
            final(self).peer_id == old(self).peer_id,
            final(self).invite_code == old(self).invite_code,
    {
        let id: u64 = self.next_conn_id;
        self.next_conn_id = if id == u64::MAX {
            0
        } else {
            id + 1
        };
        (
            id,
            IpcResponse::Event {
                event: "incoming_connection".to_string(),
                peer_id: Some(peer_id.short_hex()),
                data: Some(IpcData::ConnectionId(id)),
            },
        )
    }
}

/// Whether a local user may talk to the daemon: the one that it runs as, and root.
/// One that the system does not name may.
pub fn may_talk(uid: Option<u32>, own_uid: u32) -> (r: bool)
    ensures
        r == match uid {
            Some(u) => u == 0 || u == own_uid,
            None => true,
        },
{
    match uid {
        Some(u) => u == 0 || u == own_uid,
        None => true,
    }
}

/// A request whose identifier or data cannot be read is refused at once, and the
/// daemon does nothing for it.
pub proof fn law_refused_request_does_nothing(
    req: IpcRequest,
    cmd: Option<IpcCommand>,
    reply: IpcReply,
)
    requires
        dispatches(req, cmd, reply),
    ensures
        reply matches IpcReply::Now(r) && r@ is Error ==> cmd is None,
        reply is AwaitStatus || reply is AwaitText || reply is AwaitSent ==> cmd is Some,
{
}

/// A request leads to the command that it names: one with an invite to this invite, one
/// with the number of a connection to this number. Nothing is asked of the daemon where
/// the application only wants to be told events, and where a text that should be an
/// identifier is none, or data is not in base 64: the application is told so then.
pub proof fn law_dispatch(req: IpcRequest, cmd: Option<IpcCommand>, reply: IpcReply)
    requires
        dispatches(req, cmd, reply),
    ensures
        req matches IpcRequest::Connect { peer_id, invite } ==> (
        cmd matches Some(IpcCommand::ConnectPeer { peer_id: p, invite: i }) && i@ == invite@),
        req matches IpcRequest::Tso { invite } ==> (
        cmd matches Some(IpcCommand::TsoPeer { invite: i }) && i@ == invite@),
        req matches IpcRequest::Accept { connection_id } ==> cmd == Some(
            IpcCommand::AcceptConnection { connection_id },
        ),
        req matches IpcRequest::Reject { connection_id } ==> cmd == Some(
            IpcCommand::RejectConnection { connection_id },
        ),
        req matches IpcRequest::Disconnect { peer_id } ==> if peer::parsed_peer_id(
            peer_id@,
        ) is Ok {
            cmd is Some && (reply matches IpcReply::Now(r) && r@ is Success)
        } else {
            cmd is None && (reply matches IpcReply::Now(r) && (r@ matches ResponseView::Error {
                code,
                message,
            } && code == "INVALID_ID"@))
        },
        req matches IpcRequest::Send { peer_id, data } ==> if peer::parsed_peer_id(
            peer_id@,
        ) is Ok && base64_text::base64_decoded(data@) is Ok {
            cmd is Some && (reply matches IpcReply::AwaitSent { peer_id: p } && p@ == peer_id@)
        } else {
            cmd is None && (reply matches IpcReply::Now(r) && (r@ matches ResponseView::Error {
                code,
                message,
            } && code == if peer::parsed_peer_id(peer_id@) is Ok {
                "INVALID_DATA"@
            } else {
                "INVALID_ID"@
            }))
        },
        cmd is None ==> req is Subscribe || req is Disconnect || req is Send,
        req is Subscribe ==> cmd is None && (reply matches IpcReply::Now(r) && r@ is Success),
        reply is AwaitStatus <==> req is ListPeers,
        reply is AwaitText <==> req is Whoami || req is GetInvite,
        cmd == Some(IpcCommand::Shutdown) <==> req is Shutdown,
{
}

/// An event about a peer names it by the digits of the first eight bytes of its identifier.
pub proof fn law_event_names_peer(event: Seq<char>, id: Seq<u8>, data: Option<DataView>)
    requires
        id.len() == 32,
    ensures
        event_view(event, id, data) matches ResponseView::Event { event: e, peer_id, data: d } && e
            == event && d == data && (peer_id matches Some(text) && text.len() == 16 && text
            == hexadecimal::hex_text(id).subrange(0, 16)),
{
    let short = id.subrange(0, 8);
    hexadecimal::lemma_hex_text(id);
    hexadecimal::lemma_hex_text(short);
    assert forall|k: int| 0 <= k < 16 implies #[trigger] hexadecimal::hex_text(short)[k]
        == hexadecimal::hex_text(id)[k] by {
        assert(hexadecimal::nibble(short, k) == hexadecimal::nibble(id, k));
    }
    assert(hexadecimal::hex_text(short) =~= hexadecimal::hex_text(id).subrange(0, 16));
}

} // verus!
