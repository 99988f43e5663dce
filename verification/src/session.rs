//! How the daemon gets to a peer, and how it keeps the connection.
use crate::base64_text;
use crate::daemon;
use crate::daemon::relay_request;
use crate::directory::{PeerRecord, RelayInfo};
use crate::endpoint::{Endpoint, EndpointKind, SocketAddr};
use crate::ipc;
use crate::ipc::{data_event, peer_connected, peer_disconnected, peer_error, peer_not_found};
use crate::ipc::{DataView, IpcResponse, ResponseView};
use crate::peer;
use crate::peer::PeerId;
use vstd::prelude::*;

verus! {

/// How far an attempt to reach a peer has come: the peer itself is tried, nodes that
/// relay are sought, one of them is tried or asked, or it is over.
#[derive(Clone, Copy, Debug, PartialEq, Eq, Structural)]
pub enum ConnectStage {
    Direct,
    Seeking,
    AtRelay(usize),
    Requesting(usize),
    Over,
}

/// What came of the last step.
#[derive(Debug)]
pub enum ConnectEvent {
    /// The connection is there, or the request was sent.
    Done,
    /// It did not work out, for some reason.
    Failed(String),
    /// These nodes may relay.
    Relays(Vec<RelayInfo>),
}

/// What to do next.
#[derive(Debug)]
pub enum ConnectAction {
    /// Keep the connection, take it up again when it is lost or not, and tell this.
    Keep(bool, IpcResponse),
    /// Tell this, and look for nodes that relay.
    SeekRelays(IpcResponse),
    /// Connect to this node.
    TryRelay(RelayInfo),
    /// Send this to the node.
    Send(Vec<u8>),
    /// Tell this, and give up.
    GiveUp(IpcResponse),
}

/// The first node from an offset on that may relay to a peer: any but the peer
/// itself. The length, where there is none.
pub open spec fn next_relay(relays: Seq<RelayInfo>, from: int, target: Seq<u8>) -> int
    decreases relays.len() - from,
{
    if from >= relays.len() {
        relays.len() as int
    } else if relays[from].node_id@ != target {
        from
    } else {
        next_relay(relays, from + 1, target)
    }
}

/// Whether a step goes on to the next node that may relay, from an offset on, or
/// gives up.
pub open spec fn goes_on(
    target: Seq<u8>,
    relays: Seq<RelayInfo>,
    from: int,
    stage: ConnectStage,
    action: ConnectAction,
) -> bool {
    let i = next_relay(relays, from, target);
    if i < relays.len() {
        stage == ConnectStage::AtRelay(i as usize) && action == ConnectAction::TryRelay(relays[i])
    } else {
        &&& stage == ConnectStage::Over
        &&& action matches ConnectAction::GiveUp(r) && r@ == ipc::event_view(
            "peer_error"@,
            target,
            Some(DataView::Error("all paths exhausted"@)),
        )
    }
}

/// Whether an event can follow at a stage.
pub open spec fn connect_fits(stage: ConnectStage, event: ConnectEvent) -> bool {
    match stage {
        ConnectStage::Direct => event is Done || event is Failed,
        ConnectStage::Seeking => event is Relays || event is Failed,
        ConnectStage::AtRelay(_) => event is Done || event is Failed,
        ConnectStage::Requesting(_) => event is Done || event is Failed,
        ConnectStage::Over => false,
    }
}

/// What applications are told of the path of a connection to a peer itself: that the
/// directory knew where it is, or nothing more where an invite did.
pub open spec fn direct_path(looked_up: bool) -> Option<DataView> {
    if looked_up {
        Some(DataView::Via("dht"@))
    } else {
        None
    }
}

/// What follows an event: the peer itself is tried first, then every other node that
/// may relay, one after the other, each with a request for the peer.
pub open spec fn connect_follows(
    me: Seq<u8>,
    target: Seq<u8>,
    looked_up: bool,
    known: Seq<RelayInfo>,
    before: ConnectStage,
    event: ConnectEvent,
    relays: Seq<RelayInfo>,
    after: ConnectStage,
    action: ConnectAction,
) -> bool {
    match (before, event) {
        (ConnectStage::Direct, ConnectEvent::Done) => {
            &&& relays == known
            &&& after == ConnectStage::Over
            &&& action matches ConnectAction::Keep(again, r) && again && r@ == ipc::event_view(
                "peer_connected"@,
                target,
                direct_path(looked_up),
            )
        },
        (ConnectStage::Direct, ConnectEvent::Failed(e)) => {
            &&& relays == known
            &&& after == ConnectStage::Seeking
            &&& action matches ConnectAction::SeekRelays(r) && r@ == ipc::event_view(
                "peer_error"@,
                target,
                Some(DataView::Error(e@)),
            )
        },
        (ConnectStage::Seeking, ConnectEvent::Relays(found)) => {
            &&& relays == found@
            &&& goes_on(target, found@, 0, after, action)
        },
        (ConnectStage::Seeking, ConnectEvent::Failed(_)) => {
            &&& relays.len() == 0
            &&& goes_on(target, relays, 0, after, action)
        },
        (ConnectStage::AtRelay(i), ConnectEvent::Done) => {
            &&& relays == known
            &&& after == ConnectStage::Requesting(i)
            &&& action matches ConnectAction::Send(data) && data@ == daemon::relay_request_bytes(
                me,
                target,
            )
        },
        (ConnectStage::Requesting(i), ConnectEvent::Done) => {
            &&& relays == known
            &&& after == ConnectStage::Over
            &&& action matches ConnectAction::Keep(again, r) && !again && r@ == ipc::event_view(
                "peer_connected"@,
                target,
                Some(DataView::Via("relay"@)),
            )
        },
        (ConnectStage::AtRelay(i), ConnectEvent::Failed(_)) => {
            &&& relays == known
            &&& goes_on(target, known, i + 1, after, action)
        },
        (ConnectStage::Requesting(i), ConnectEvent::Failed(_)) => {
            &&& relays == known
            &&& goes_on(target, known, i + 1, after, action)
        },
        _ => false,
    }
}

/// An attempt to reach a peer.
#[derive(Debug)]
pub struct ConnectAttempt {
    me: PeerId,
    target: PeerId,
    looked_up: bool,
    relays: Vec<RelayInfo>,
    stage: ConnectStage,
}

impl ConnectAttempt {
    /// Who tries.
    pub closed spec fn from(&self) -> Seq<u8> {
        self.me@
    }

    /// Whom to reach.
    pub closed spec fn to(&self) -> Seq<u8> {
        self.target@
    }

    /// Whether the directory says where the peer is.
    pub closed spec fn from_directory(&self) -> bool {
        self.looked_up
    }

    /// The nodes that may relay.
    pub closed spec fn known(&self) -> Seq<RelayInfo> {
        self.relays@
    }

    /// How far the attempt has come.
    pub closed spec fn at(&self) -> ConnectStage {
        self.stage
    }

    /// A node that is tried or asked is one of those that may relay.
    pub closed spec fn wf(&self) -> bool {
        match self.stage {
            ConnectStage::AtRelay(i) => i < self.relays@.len(),
            ConnectStage::Requesting(i) => i < self.relays@.len(),
            _ => true,
        }
    }

    /// An attempt, which starts with the peer itself, where an invite or the directory
    /// says that it is.
    pub fn new(me: PeerId, target: PeerId, looked_up: bool) -> (r: Self)
        ensures
            r.wf(),
            r.from() == me@,
            r.to() == target@,
            r.from_directory() == looked_up,
            r.known().len() == 0,
            r.at() == ConnectStage::Direct,
    {
        ConnectAttempt { me, target, looked_up, relays: Vec::new(), stage: ConnectStage::Direct }
    }

    /// How far the attempt has come.
    pub fn stage(&self) -> (r: ConnectStage)
        ensures
            r == self.at(),
    {
        self.stage
    }

    /// Goes on to the next node that may relay, or gives up.
    fn advance(&mut self, from: usize) -> (action: ConnectAction)
        requires
            from <= old(self).known().len(),
        ensures
            final(self).wf(),
            final(self).from() == old(self).from(),
            final(self).to() == old(self).to(),
            final(self).from_directory() == old(self).from_directory(),
            final(self).known() == old(self).known(),
            goes_on(old(self).to(), old(self).known(), from as int, final(self).at(), action),
    {
        let mut i: usize = from;
        while i < self.relays.len()
            invariant
                i <= self.relays@.len(),
                self.relays@ == old(self).relays@,
                self.target == old(self).target,
                self.me == old(self).me,
                self.looked_up == old(self).looked_up,
                next_relay(self.relays@, from as int, self.target@) == next_relay(
                    self.relays@,
                    i as int,
                    self.target@,
                ),
            decreases self.relays@.len() - i,
        {
            let relay: RelayInfo = self.relays[i];
            proof {
                peer::lemma_peer_id_ext(relay.node_id, self.target);
            }
            if relay.node_id != self.target {
                self.stage = ConnectStage::AtRelay(i);
                return ConnectAction::TryRelay(relay);
            }
            i = i + 1;
        }
        self.stage = ConnectStage::Over;
        ConnectAction::GiveUp(peer_error(&self.target, "all paths exhausted".to_string()))
    }

    /// What to do after an event.
    pub fn step(&mut self, event: ConnectEvent) -> (action: ConnectAction)
        requires
            old(self).wf(),
            connect_fits(old(self).at(), event),
        ensures
            final(self).wf(),
            final(self).from() == old(self).from(),
            final(self).to() == old(self).to(),
            final(self).from_directory() == old(self).from_directory(),
            connect_follows(
                old(self).from(),
                old(self).to(),
                old(self).from_directory(),
                old(self).known(),
                old(self).at(),
                event,
                final(self).known(),
                final(self).at(),
                action,
            ),
    {
        proof {
            reveal_strlit("");
            reveal_strlit("dht");
            reveal_strlit("relay");
        }
        let n: usize = self.relays.len();
        assert(n == self.relays@.len());
        match (self.stage, event) {
            (ConnectStage::Direct, ConnectEvent::Done) => {
                self.stage = ConnectStage::Over;
                let via: &str = if self.looked_up {
                    "dht"
                } else {
                    ""
                };
                ConnectAction::Keep(true, peer_connected(&self.target, via))
            },
            (ConnectStage::Direct, ConnectEvent::Failed(e)) => {
                self.stage = ConnectStage::Seeking;
                ConnectAction::SeekRelays(peer_error(&self.target, e))
            },
            (ConnectStage::Seeking, ConnectEvent::Relays(found)) => {
                self.relays = found;
                self.advance(0)
            },
            (ConnectStage::Seeking, ConnectEvent::Failed(_)) => {
                self.relays = Vec::new();
                self.advance(0)
            },
            (ConnectStage::AtRelay(i), ConnectEvent::Done) => {
                self.stage = ConnectStage::Requesting(i);
                ConnectAction::Send(relay_request(&self.me, &self.target))
            },
            (ConnectStage::Requesting(_), ConnectEvent::Done) => {
                self.stage = ConnectStage::Over;
                ConnectAction::Keep(false, peer_connected(&self.target, "relay"))
            },
            (ConnectStage::AtRelay(i), ConnectEvent::Failed(_)) => self.advance(i + 1),
            (ConnectStage::Requesting(i), ConnectEvent::Failed(_)) => self.advance(i + 1),
            _ => {
                assert(false);
                ConnectAction::GiveUp(peer_error(&self.target, String::new()))
            },
        }
    }
}

/// The place of a stage in an attempt.
pub open spec fn connect_rank(stage: ConnectStage) -> int {
    match stage {
        ConnectStage::Direct => 0,
        ConnectStage::Seeking => 1,
        ConnectStage::AtRelay(i) => 2 + 2 * i,
        ConnectStage::Requesting(i) => 3 + 2 * i,
        ConnectStage::Over => -1,
    }
}

proof fn lemma_next_relay(relays: Seq<RelayInfo>, from: int, target: Seq<u8>)
    requires
        0 <= from <= relays.len(),
    ensures
        from <= next_relay(relays, from, target) <= relays.len(),
        next_relay(relays, from, target) < relays.len() ==> relays[next_relay(
            relays,
            from,
            target,
        )].node_id@ != target,
    decreases relays.len() - from,
{
    if from < relays.len() && relays[from].node_id@ == target {
        lemma_next_relay(relays, from + 1, target);
    }
}

/// A peer is never asked to relay to itself; every step comes nearer to the end, so
/// that no node is tried twice; and an attempt is over exactly when a connection
/// is kept or it gives up.
pub proof fn law_connect_attempt(
    me: Seq<u8>,
    target: Seq<u8>,
    looked_up: bool,
    known: Seq<RelayInfo>,
    before: ConnectStage,
    event: ConnectEvent,
    relays: Seq<RelayInfo>,
    after: ConnectStage,
    action: ConnectAction,
)
    requires
        connect_follows(me, target, looked_up, known, before, event, relays, after, action),
        known.len() <= usize::MAX,
        relays.len() <= usize::MAX,
        match before {
            ConnectStage::AtRelay(i) => i < known.len(),
            ConnectStage::Requesting(i) => i < known.len(),
            _ => true,
        },
    ensures
        action matches ConnectAction::TryRelay(r) ==> r.node_id@ != target,
        after is Over || connect_rank(before) < connect_rank(after),
        after is Over <==> action is Keep || action is GiveUp,
{
    match before {
        ConnectStage::AtRelay(i) => {
            lemma_next_relay(known, i + 1, target);
        },
        ConnectStage::Requesting(i) => {
            lemma_next_relay(known, i + 1, target);
        },
        _ => {
            lemma_next_relay(relays, 0, target);
        },
    }
}

/// Where and how a node that relays is reached.
pub fn relay_endpoint(relay: &RelayInfo) -> (r: Endpoint)
    ensures
        r == (Endpoint { addr: relay.address, kind: EndpointKind::STUN, ttl_seconds: 300 }),
{
    Endpoint::new(relay.address, EndpointKind::STUN)
}

/// The addresses of the endpoints for simultaneous connections, in their order.
pub open spec fn tso_addrs(eps: Seq<Endpoint>) -> Seq<SocketAddr>
    decreases eps.len(),
{
    if eps.len() == 0 {
        Seq::empty()
    } else if eps.last().kind == EndpointKind::TSO {
        tso_addrs(eps.drop_last()).push(eps.last().addr)
    } else {
        tso_addrs(eps.drop_last())
    }
}

/// The addresses of the endpoints for simultaneous connections.
pub fn tso_addresses(eps: &[Endpoint]) -> (r: Vec<SocketAddr>)
    ensures
        r@ == tso_addrs(eps@),
{
    let mut r: Vec<SocketAddr> = Vec::new();
    let mut i: usize = 0;
    assert(eps@.subrange(0, 0) =~= Seq::empty());
    while i < eps.len()
        invariant
            i <= eps@.len(),
            r@ == tso_addrs(eps@.subrange(0, i as int)),
        decreases eps@.len() - i,
    {
        proof {
            assert(eps@.subrange(0, i + 1).drop_last() =~= eps@.subrange(0, i as int));
            assert(eps@.subrange(0, i + 1).last() == eps@[i as int]);
        }
        if eps[i].kind == EndpointKind::TSO {
            r.push(eps[i].addr);
        }
        i = i + 1;
    }
    assert(eps@.subrange(0, i as int) =~= eps@);
    r
}

/// What the directory knows of a peer that was sought.
#[derive(Debug)]
pub enum LookupOutcome {
    Found(PeerRecord),
    Missing,
    Failed,
}

/// What to do about a peer that was sought in the directory.
#[derive(Debug)]
pub enum FindAction {
    /// Connect with this key, at these endpoints.
    Connect([u8; 32], Vec<Endpoint>),
    /// Tell this.
    Tell(IpcResponse),
    Nothing,
}

/// What to do about a peer that was sought by the text of its identifier.
pub fn find_action(peer_id: String, outcome: LookupOutcome) -> (r: FindAction)
    ensures
        match outcome {
            LookupOutcome::Found(record) => r == FindAction::Connect(
                record.noise_pubkey,
                record.endpoints,
            ),
            LookupOutcome::Missing => r matches FindAction::Tell(e) && e@ == (
            ResponseView::Event {
                event: "peer_error"@,
                peer_id: Some(peer_id@),
                data: Some(DataView::Error("not found"@)),
            }),
            LookupOutcome::Failed => r is Nothing,
        },
{
    match outcome {
        LookupOutcome::Found(record) => FindAction::Connect(
            record.noise_pubkey,
            record.endpoints,
        ),
        LookupOutcome::Missing => FindAction::Tell(peer_not_found(peer_id)),
        LookupOutcome::Failed => FindAction::Nothing,
    }
}

/// How often a lost connection is tried again in a row.
pub const SESSION_ATTEMPTS: u32 = 8;

/// How long to wait before an attempt, in seconds.
pub open spec fn session_delay(attempt: nat) -> u64 {
    if attempt == 0 {
        1
    } else if attempt == 1 {
        3
    } else if attempt == 2 {
        9
    } else if attempt == 3 {
        27
    } else {
        60
    }
}

/// How long to wait before an attempt, in seconds.
pub fn reconnect_delay(attempt: u32) -> (secs: u64)
    ensures
        secs == session_delay(attempt as nat),
{
    match attempt {
        0 => 1,
        1 => 3,
        2 => 9,
        3 => 27,
        _ => 60,
    }
}

/// What a connection is at: its data is read, the next attempt to take it up again is
/// waited for or made, or it is over.
#[derive(Clone, Copy, Debug, PartialEq, Eq, Structural)]
pub enum SessionStage {
    Reading,
    Waiting(u32),
    Connecting(u32),
    Over,
}

/// What happens to a connection.
#[derive(Debug)]
pub enum SessionEvent {
    Data(Vec<u8>),
    Lost,
    Waited,
    Connected,
    Failed,
    Cancelled,
}

/// What to do for a connection.
#[derive(Debug)]
pub enum SessionAction {
    /// Tell this, and read on.
    Tell(IpcResponse),
    /// Wait so many seconds.
    Wait(u64),
    /// Connect again.
    Connect,
    /// Tell this, and stop.
    End(IpcResponse),
}

/// Whether an event can follow at a stage. Nothing is cancelled while a connection is
/// being made.
pub open spec fn session_fits(stage: SessionStage, event: SessionEvent) -> bool {
    match stage {
        SessionStage::Reading => match event {
            SessionEvent::Data(d) => base64_text::base64_fits(d@.len()),
            SessionEvent::Lost => true,
            SessionEvent::Cancelled => true,
            _ => false,
        },
        SessionStage::Waiting(_) => event is Waited || event is Cancelled,
        SessionStage::Connecting(_) => event is Connected || event is Failed,
        SessionStage::Over => false,
    }
}

/// Whether a step waits for an attempt, or ends where there were enough.
pub open spec fn waits(
    id: Seq<u8>,
    attempt: nat,
    stage: SessionStage,
    action: SessionAction,
) -> bool {
    if attempt < SESSION_ATTEMPTS {
        &&& stage == SessionStage::Waiting(attempt as u32)
        &&& action == SessionAction::Wait(session_delay(attempt))
    } else {
        ends(id, stage, action)
    }
}

/// Whether a step ends the connection.
pub open spec fn ends(id: Seq<u8>, stage: SessionStage, action: SessionAction) -> bool {
    &&& stage == SessionStage::Over
    &&& action matches SessionAction::End(r) && r@ == ipc::event_view(
        "peer_disconnected"@,
        id,
        None,
    )
}

/// What follows an event: data is told; a lost connection is taken up again, where
/// that is wanted, with longer and longer waits, and after eight attempts in a row
/// it is over; and it is over when it is cancelled.
pub open spec fn session_follows(
    id: Seq<u8>,
    again: bool,
    before: SessionStage,
    event: SessionEvent,
    after: SessionStage,
    action: SessionAction,
) -> bool {
    match (before, event) {
        (SessionStage::Reading, SessionEvent::Data(d)) => {
            &&& after == SessionStage::Reading
            &&& action matches SessionAction::Tell(r) && r@ == ipc::event_view(
                "data"@,
                id,
                Some(DataView::Bytes(base64_text::base64_encoded(d@))),
            )
        },
        (SessionStage::Reading, SessionEvent::Lost) => if again {
            waits(id, 0, after, action)
        } else {
            ends(id, after, action)
        },
        (SessionStage::Reading, SessionEvent::Cancelled) => ends(id, after, action),
        (SessionStage::Waiting(k), SessionEvent::Waited) => {
            &&& after == SessionStage::Connecting(k)
            &&& action is Connect
        },
        (SessionStage::Waiting(_), SessionEvent::Cancelled) => ends(id, after, action),
        (SessionStage::Connecting(_), SessionEvent::Connected) => {
            &&& after == SessionStage::Reading
            &&& action matches SessionAction::Tell(r) && r@ == ipc::event_view(
                "peer_connected"@,
                id,
                Some(DataView::Via("reconnect"@)),
            )
        },
        (SessionStage::Connecting(k), SessionEvent::Failed) => waits(
            id,
            (k + 1) as nat,
            after,
            action,
        ),
        _ => false,
    }
}

/// A connection to a peer.
#[derive(Debug)]
pub struct PeerSession {
    peer_id: PeerId,
    reconnect: bool,
    stage: SessionStage,
}

impl PeerSession {
    /// The peer.
    pub closed spec fn peer(&self) -> Seq<u8> {
        self.peer_id@
    }

    /// Whether the connection is taken up again when it is lost.
    pub closed spec fn again(&self) -> bool {
        self.reconnect
    }

    /// What the connection is at.
    pub closed spec fn at(&self) -> SessionStage {
        self.stage
    }

    /// There are no more attempts than there should be.
    pub closed spec fn wf(&self) -> bool {
        match self.stage {
            SessionStage::Waiting(k) => k < SESSION_ATTEMPTS,
            SessionStage::Connecting(k) => k < SESSION_ATTEMPTS,
            _ => true,
        }
    }

    /// A new connection to a peer.
    pub fn new(peer_id: PeerId, reconnect: bool) -> (r: Self)
        ensures
            r.wf(),
            r.peer() == peer_id@,
            r.again() == reconnect,
            r.at() == SessionStage::Reading,
    {
        PeerSession { peer_id, reconnect, stage: SessionStage::Reading }
    }

    /// What the connection is at.
    pub fn stage(&self) -> (r: SessionStage)
        ensures
            r == self.at(),
    {
        self.stage
    }

    /// Waits for an attempt, or ends.
    fn wait_for(&mut self, attempt: u32) -> (action: SessionAction)
        ensures
            final(self).wf(),
            final(self).peer() == old(self).peer(),
            final(self).again() == old(self).again(),
            waits(old(self).peer(), attempt as nat, final(self).at(), action),
    {
        if attempt < SESSION_ATTEMPTS {
            self.stage = SessionStage::Waiting(attempt);
            SessionAction::Wait(reconnect_delay(attempt))
        } else {
            self.end()
        }
    }

    /// Ends the connection.
    fn end(&mut self) -> (action: SessionAction)
        ensures
            final(self).wf(),
            final(self).peer() == old(self).peer(),
            final(self).again() == old(self).again(),
            ends(old(self).peer(), final(self).at(), action),
    {
        self.stage = SessionStage::Over;
        SessionAction::End(peer_disconnected(&self.peer_id))
    }

    /// What to do after an event.
    pub fn step(&mut self, event: SessionEvent) -> (action: SessionAction)
        requires
            old(self).wf(),
            session_fits(old(self).at(), event),
        ensures
            final(self).wf(),
            final(self).peer() == old(self).peer(),
            final(self).again() == old(self).again(),
            session_follows(
                old(self).peer(),
                old(self).again(),
                old(self).at(),
                event,
                final(self).at(),
                action,
            ),
    {
        proof {
            reveal_strlit("reconnect");
        }
        match (self.stage, event) {
            (SessionStage::Reading, SessionEvent::Data(d)) => SessionAction::Tell(
                data_event(&self.peer_id, d.as_slice()),
            ),
            (SessionStage::Reading, SessionEvent::Lost) => if self.reconnect {
                self.wait_for(0)
            } else {
                self.end()
            },
            (SessionStage::Waiting(k), SessionEvent::Waited) => {
                self.stage = SessionStage::Connecting(k);
                SessionAction::Connect
            },
            (SessionStage::Connecting(_), SessionEvent::Connected) => {
                self.stage = SessionStage::Reading;
                SessionAction::Tell(peer_connected(&self.peer_id, "reconnect"))
            },
            (SessionStage::Connecting(k), SessionEvent::Failed) => self.wait_for(k + 1),
            _ => self.end(),
        }
    }
}

/// The waits never shrink, and none is longer than a minute.
pub proof fn law_session_delays(attempt: nat)
    ensures
        1 <= session_delay(attempt) <= session_delay(attempt + 1) <= 60,
{
}

/// A connection that is cancelled while it is read or waited for is over, and one that
/// is not to be taken up again is over when it is lost.
pub proof fn law_session_ends(
    id: Seq<u8>,
    again: bool,
    before: SessionStage,
    event: SessionEvent,
    after: SessionStage,
    action: SessionAction,
)
    requires
        session_fits(before, event),
        session_follows(id, again, before, event, after, action),
    ensures
        event is Cancelled ==> after is Over,
        event is Lost && !again ==> after is Over,
        after is Over <==> action is End,
{
}

/// The addresses for a simultaneous connection are those of all endpoints for that, and no
/// others, in their order.
pub proof fn law_tso_addresses(eps: Seq<Endpoint>, more: Seq<Endpoint>)
    ensures
        forall|i: int|
            0 <= i < eps.len() && (#[trigger] eps[i]).kind == EndpointKind::TSO
                ==> tso_addrs(eps).contains(eps[i].addr),
        forall|a: SocketAddr| #[trigger]
            tso_addrs(eps).contains(a) ==> exists|i: int|
                0 <= i < eps.len() && (#[trigger] eps[i]).addr == a && eps[i].kind
                    == EndpointKind::TSO,
        tso_addrs(eps + more) == tso_addrs(eps) + tso_addrs(more),
    decreases eps.len() + more.len(),
{
    if eps.len() > 0 {
        let front = eps.drop_last();
        let q = tso_addrs(front);
        let r = tso_addrs(eps);
        law_tso_addresses(front, Seq::empty());
        assert forall|i: int|
            0 <= i < eps.len() && (#[trigger] eps[i]).kind == EndpointKind::TSO implies r.contains(
            eps[i].addr,
        ) by {
            if i < front.len() {
                assert(front[i] == eps[i]);
                let j = choose|j: int| 0 <= j < q.len() && q[j] == eps[i].addr;
                assert(r[j] == eps[i].addr);
            } else {
                assert(r[r.len() - 1] == eps.last().addr);
            }
        }
        assert forall|a: SocketAddr| #[trigger] r.contains(a) implies exists|i: int|
            0 <= i < eps.len() && (#[trigger] eps[i]).addr == a && eps[i].kind
                == EndpointKind::TSO by {
            let j = choose|j: int| 0 <= j < r.len() && r[j] == a;
            if j < q.len() {
                assert(q[j] == a);
                assert(q.contains(a));
                let i = choose|i: int|
                    0 <= i < front.len() && (#[trigger] front[i]).addr == a && front[i].kind
                        == EndpointKind::TSO;
                assert(eps[i] == front[i]);
            } else {
                assert(eps[eps.len() - 1].addr == a);
            }
        }
    }
    if more.len() > 0 {
        law_tso_addresses(eps, more.drop_last());
        assert((eps + more).drop_last() =~= eps + more.drop_last());
        assert(tso_addrs(eps + more) =~= tso_addrs(eps) + tso_addrs(more));
    } else {
        assert(eps + more =~= eps);
        assert(tso_addrs(eps) + tso_addrs(more) =~= tso_addrs(eps));
    }
}

/// Every node that is found to relay gets its turn: where the nodes are just found, or one
/// of them failed, the next to be tried is the first behind it that is not the peer
/// itself, and only where there is none is the attempt given up, and applications are told
/// so. Where the peer itself cannot be reached, nodes that relay are sought. A node that is
/// reached is sent a request that names the two peers, and the connection over it is kept
/// when the request was sent, but not taken up again when it is lost; one to the peer
/// itself is.
pub proof fn law_connect_order(
    me: PeerId,
    target: PeerId,
    looked_up: bool,
    known: Seq<RelayInfo>,
    before: ConnectStage,
    event: ConnectEvent,
    relays: Seq<RelayInfo>,
    after: ConnectStage,
    action: ConnectAction,
)
    requires
        connect_follows(me@, target@, looked_up, known, before, event, relays, after, action),
        connect_fits(before, event),
        known.len() <= usize::MAX,
        relays.len() <= usize::MAX,
        match before {
            ConnectStage::AtRelay(i) => i < known.len(),
            ConnectStage::Requesting(i) => i < known.len(),
            _ => true,
        },
    ensures
        before is Direct && event is Done ==> (action matches ConnectAction::Keep(again, _)
            && again),
        before is Direct && event is Failed ==> action is SeekRelays,
        before is AtRelay && event is Done ==> (action matches ConnectAction::Send(data)
            && daemon::asks_to_relay(data@) && daemon::relay_parties(data@) == Some(
            (me@, target@),
        )),
        before is Requesting && event is Done ==> (action matches ConnectAction::Keep(again, _)
            && !again),
        event matches ConnectEvent::Relays(found) ==> relays == found@,
        before is Seeking && event is Failed ==> relays.len() == 0,
        !(before is Seeking) ==> relays == known,
        before is Direct && event is Failed ==> after is Seeking,
        before matches ConnectStage::AtRelay(i) ==> event is Done ==> after
            == ConnectStage::Requesting(i),
        before is Seeking || event is Failed && (before is AtRelay || before is Requesting) ==> ({
            let from = match before {
                ConnectStage::AtRelay(i) => i + 1,
                ConnectStage::Requesting(i) => i + 1,
                _ => 0,
            };
            match after {
                ConnectStage::AtRelay(j) => {
                    &&& from <= j < relays.len()
                    &&& action == ConnectAction::TryRelay(relays[j as int])
                    &&& relays[j as int].node_id@ != target@
                    &&& forall|n: int|
                        from <= n < j ==> (#[trigger] relays[n]).node_id@ == target@
                },
                ConnectStage::Over => {
                    &&& action is GiveUp
                    &&& forall|n: int|
                        from <= n < relays.len() ==> (#[trigger] relays[n]).node_id@ == target@
                },
                _ => false,
            }
        }),
{
    daemon::law_relay_request_roundtrip(me, target);
    match before {
        ConnectStage::AtRelay(i) => {
            lemma_relays_skipped(known, i + 1, target@);
        },
        ConnectStage::Requesting(i) => {
            lemma_relays_skipped(known, i + 1, target@);
        },
        _ => {
            lemma_relays_skipped(relays, 0, target@);
        },
    }
}

proof fn lemma_relays_skipped(relays: Seq<RelayInfo>, from: int, target: Seq<u8>)
    requires
        0 <= from <= relays.len(),
    ensures
        from <= next_relay(relays, from, target) <= relays.len(),
        next_relay(relays, from, target) < relays.len() ==> relays[next_relay(
            relays,
            from,
            target,
        )].node_id@ != target,
        forall|n: int|
            from <= n < next_relay(relays, from, target) ==> (#[trigger] relays[n]).node_id@
                == target,
    decreases relays.len() - from,
{
    if from < relays.len() && relays[from].node_id@ == target {
        lemma_relays_skipped(relays, from + 1, target);
    }
}

/// What applications are told of an attempt to reach a peer names the peer: that it is
/// connected where a connection is kept, by way of the directory or of a node that relays
/// where that is the way; why the peer itself could not be reached; and that there was no
/// way, where it gives up.
pub proof fn law_connect_tells(
    me: Seq<u8>,
    target: Seq<u8>,
    looked_up: bool,
    known: Seq<RelayInfo>,
    before: ConnectStage,
    event: ConnectEvent,
    relays: Seq<RelayInfo>,
    after: ConnectStage,
    action: ConnectAction,
)
    requires
        connect_follows(me, target, looked_up, known, before, event, relays, after, action),
    ensures
        action matches ConnectAction::Keep(_, told) ==> (told@ matches ResponseView::Event {
            event: name,
            peer_id,
            data,
        } && name == "peer_connected"@ && peer_id == Some(
            crate::hexadecimal::hex_text(target.subrange(0, 8)),
        ) && data == if before is Direct && !looked_up {
            None
        } else if before is Direct {
            Some(DataView::Via("dht"@))
        } else {
            Some(DataView::Via("relay"@))
        }),
        action matches ConnectAction::SeekRelays(told) ==> (event matches ConnectEvent::Failed(why)
            && (told@ matches ResponseView::Event { event: name, peer_id, data } && name
            == "peer_error"@ && peer_id == Some(
            crate::hexadecimal::hex_text(target.subrange(0, 8)),
        ) && data == Some(DataView::Error(why@)))),
        action matches ConnectAction::GiveUp(told) ==> (told@ matches ResponseView::Event {
            event: name,
            peer_id,
            data,
        } && name == "peer_error"@ && peer_id == Some(
            crate::hexadecimal::hex_text(target.subrange(0, 8)),
        ) && data == Some(DataView::Error("all paths exhausted"@))),
{
}

/// A connection that is lost and to be taken up again is tried eight times, with waits of
/// 1, 3, 9 and 27 seconds and then of a minute, and is over after that. It is tried after
/// each wait, and read again once it is there.
pub proof fn law_reconnects(
    id: Seq<u8>,
    before: SessionStage,
    event: SessionEvent,
    after: SessionStage,
    action: SessionAction,
)
    requires
        session_fits(before, event),
        session_follows(id, true, before, event, after, action),
    ensures
        event is Lost ==> after == SessionStage::Waiting(0) && action == SessionAction::Wait(1),
        event is Waited ==> action is Connect,
        event is Connected ==> after is Reading,
        event is Data ==> after is Reading,
        before matches SessionStage::Connecting(k) ==> event is Failed ==> if k >= 7 {
            action is End
        } else {
            after == SessionStage::Waiting((k + 1) as u32) && action == SessionAction::Wait(
                if k == 0 {
                    3
                } else if k == 1 {
                    9
                } else if k == 2 {
                    27
                } else {
                    60
                },
            )
        },
        before matches SessionStage::Waiting(k) ==> event is Waited ==> after
            == SessionStage::Connecting(k),
{
}

/// What applications are told of a connection names the peer: the data that came, which
/// they decode to what was sent; that it is there again; and that it is over.
pub proof fn law_session_tells(
    id: Seq<u8>,
    again: bool,
    before: SessionStage,
    event: SessionEvent,
    after: SessionStage,
    action: SessionAction,
)
    requires
        session_fits(before, event),
        session_follows(id, again, before, event, after, action),
    ensures
        ({
            let peer = Some(crate::hexadecimal::hex_text(id.subrange(0, 8)));
            &&& event matches SessionEvent::Data(d) ==> (action matches SessionAction::Tell(told)
                && told@ == (ResponseView::Event {
                event: "data"@,
                peer_id: peer,
                data: Some(DataView::Bytes(base64_text::base64_encoded(d@))),
            }))
            &&& event is Connected ==> (action matches SessionAction::Tell(told) && told@ == (
            ResponseView::Event {
                event: "peer_connected"@,
                peer_id: peer,
                data: Some(DataView::Via("reconnect"@)),
            }))
            &&& action matches SessionAction::End(told) ==> told@ == (ResponseView::Event {
                event: "peer_disconnected"@,
                peer_id: peer,
                data: None,
            })
        }),
{
}

} // verus!
