//! The peers that are connected, and how a lost connection is taken up again.
use crate::frame;
use crate::frame::{decode_varint, encode_frame, encode_varint, FrameType};
use crate::peer::PeerId;
use crate::peer_map::PeerMap;
use std::collections::HashMap;
use vstd::prelude::*;

verus! {

/// The streams that are open to a peer, and how far each has come.
#[derive(Debug)]
pub struct PeerStreamState {
    pub active_streams: Vec<u64>,
    pub last_seq: HashMap<u64, u64>,
}

/// The streams that are open to a peer, as a value.
pub struct StreamsView {
    pub active: Seq<u64>,
    pub last: Map<u64, u64>,
}

impl View for PeerStreamState {
    type V = StreamsView;

    open spec fn view(&self) -> StreamsView {
        StreamsView { active: self.active_streams@, last: self.last_seq@ }
    }
}

impl Clone for PeerStreamState {
    fn clone(&self) -> (r: Self)
        ensures
            r@ == self@,
    {
        let mut active: Vec<u64> = Vec::new();
        let mut i: usize = 0;
        while i < self.active_streams.len()
            invariant
                i <= self.active_streams@.len(),
                active@ == self.active_streams@.subrange(0, i as int),
            decreases self.active_streams@.len() - i,
        {
            active.push(self.active_streams[i]);
            i = i + 1;
            assert(active@ =~= self.active_streams@.subrange(0, i as int));
        }
        assert(active@ =~= self.active_streams@);
        PeerStreamState { active_streams: active, last_seq: self.last_seq.clone() }
    }
}

impl Default for PeerStreamState {
    fn default() -> (r: Self)
        ensures
            r@ == no_streams(),
    {
        PeerStreamState { active_streams: Vec::new(), last_seq: HashMap::new() }
    }
}

/// No stream at all.
pub open spec fn no_streams() -> StreamsView {
    StreamsView { active: Seq::empty(), last: Map::empty() }
}

/// The streams with how far each has come; 0, where nothing is known.
pub open spec fn stream_positions(v: StreamsView) -> Seq<(u64, u64)> {
    v.active.map_values(
        |sid: u64|
            (
                sid,
                if v.last.dom().contains(sid) {
                    v.last[sid]
                } else {
                    0
                },
            ),
    )
}

/// Streams and how far they have come, one after the other.
pub open spec fn positions_bytes(s: Seq<(u64, u64)>) -> Seq<u8>
    decreases s.len(),
{
    if s.len() == 0 {
        Seq::empty()
    } else {
        positions_bytes(s.drop_last()) + frame::varint_bytes(s.last().0 as nat)
            + frame::varint_bytes(s.last().1 as nat)
    }
}

/// The payload of a STREAM_RESUME frame: how many streams, and these.
pub open spec fn resume_bytes(s: Seq<(u64, u64)>) -> Seq<u8> {
    frame::varint_bytes(s.len()) + positions_bytes(s)
}

/// Reads so many streams and how far they have come.
pub open spec fn positions_at(s: Seq<u8>, count: nat) -> Option<Seq<(u64, u64)>>
    decreases count,
{
    if count == 0 {
        Some(Seq::empty())
    } else {
        match frame::varint_at_start(s) {
            None => None,
            Some((sid, n)) => match frame::varint_at_start(s.skip(n as int)) {
                None => None,
                Some((seq, m)) => match positions_at(
                    s.skip((n + m) as int),
                    (count - 1) as nat,
                ) {
                    None => None,
                    Some(rest) => Some(seq![(sid as u64, seq as u64)] + rest),
                },
            },
        }
    }
}

/// What the payload of a STREAM_RESUME frame says. Nothing, where it is cut off;
/// what follows the last stream is not looked at.
pub open spec fn parsed_resume(payload: Seq<u8>) -> Option<Seq<(u64, u64)>> {
    match frame::varint_at_start(payload) {
        None => None,
        Some((count, n)) => positions_at(payload.skip(n as int), count),
    }
}

/// The payload of a STREAM_RESUME frame for the streams of a peer.
pub fn resume_payload(state: &PeerStreamState) -> (payload: Vec<u8>)
    ensures
        payload@ == resume_bytes(stream_positions(state@)),
{
    broadcast use vstd::std_specs::hash::group_hash_axioms;

    let ghost all = stream_positions(state@);
    let mut payload: Vec<u8> = Vec::new();
    encode_varint(state.active_streams.len() as u64, &mut payload);
    let mut i: usize = 0;
    assert(all.subrange(0, 0) =~= Seq::empty());
    assert(payload@ =~= frame::varint_bytes(all.len()) + positions_bytes(all.subrange(0, 0)));
    while i < state.active_streams.len()
        invariant
            i <= state.active_streams@.len(),
            all == stream_positions(state@),
            payload@ == frame::varint_bytes(all.len()) + positions_bytes(
                all.subrange(0, i as int),
            ),
        decreases state.active_streams@.len() - i,
    {
        let sid: u64 = state.active_streams[i];
        let seq: u64 = match state.last_seq.get(&sid) {
            Some(s) => *s,
            None => 0,
        };
        encode_varint(sid, &mut payload);
        encode_varint(seq, &mut payload);
        proof {
            let next = all.subrange(0, i + 1);
            assert(next.drop_last() =~= all.subrange(0, i as int));
            assert(next.last() == (sid, seq));
            assert(payload@ =~= frame::varint_bytes(all.len()) + positions_bytes(next));
        }
        i = i + 1;
    }
    assert(all.subrange(0, i as int) =~= all);
    payload
}

/// The STREAM_RESUME frame that follows a new connection. There is none where no
/// stream is open.
pub fn resume_frame(state: &PeerStreamState) -> (r: Option<Vec<u8>>)
    ensures
        match r {
            None => state@.active.len() == 0,
            Some(f) => {
                &&& state@.active.len() > 0
                &&& f@ == frame::frame_bytes(
                    0,
                    FrameType::StreamResume,
                    resume_bytes(stream_positions(state@)),
                )
            },
        },
{
    if state.active_streams.len() == 0 {
        return None;
    }
    let payload: Vec<u8> = resume_payload(state);
    Some(encode_frame(0, FrameType::StreamResume, payload.as_slice()))
}

/// How often a connection that was lost is tried again.
pub const MAX_RECONNECT_ATTEMPTS: u32 = 8;

/// The longest wait between two attempts, in seconds.
pub const MAX_BACKOFF_SECS: u64 = 300;

/// How long to wait after an attempt that failed, in seconds: one second after the
/// first, and three times as long after each further one, up to five minutes.
pub open spec fn backoff_after(attempt: nat) -> nat
    decreases attempt,
{
    if attempt == 0 {
        1
    } else if 3 * backoff_after((attempt - 1) as nat) > 300 {
        300
    } else {
        3 * backoff_after((attempt - 1) as nat)
    }
}

/// What follows an attempt to connect again.
#[derive(Clone, Copy, Debug, PartialEq, Eq, Structural)]
pub enum ReconnectAction {
    /// The connection is there.
    Resume,
    /// Wait so many seconds, and try again.
    RetryAfter(u64),
    /// Wait so many seconds, and give up.
    GiveUpAfter(u64),
}

/// The attempts to take up a lost connection again.
#[derive(Debug)]
pub struct Reconnect {
    attempt: u32,
    backoff: u64,
    state: PeerStreamState,
}

impl Reconnect {
    /// How many attempts have failed.
    pub closed spec fn failed(&self) -> nat {
        self.attempt as nat
    }

    /// The streams that were open when the connection was lost.
    pub closed spec fn streams(&self) -> StreamsView {
        self.state@
    }

    /// The wait is the one that belongs to the number of attempts.
    pub closed spec fn wf(&self) -> bool {
        &&& self.attempt <= MAX_RECONNECT_ATTEMPTS
        &&& self.backoff == backoff_after(self.attempt as nat)
        &&& 1 <= self.backoff <= MAX_BACKOFF_SECS
    }

    /// The attempts for a peer with these streams.
    pub fn new(state: PeerStreamState) -> (r: Self)
        ensures
            r.wf(),
            r.failed() == 0,
            r.streams() == state@,
    {
        Reconnect { attempt: 0, backoff: 1, state }
    }

    /// The streams that were open when the connection was lost.
    pub fn state(&self) -> (r: &PeerStreamState)
        ensures
            r@ == self.streams(),
    {
        &self.state
    }

    /// What follows an attempt. One fails where the peer is not found in the
    /// directory, and where it cannot be reached.
    pub fn next(&mut self, connected: bool) -> (r: ReconnectAction)
        requires
            old(self).wf(),
            old(self).failed() < MAX_RECONNECT_ATTEMPTS,
        ensures
            final(self).wf(),
            final(self).streams() == old(self).streams(),
            final(self).failed() == if connected {
                old(self).failed()
            } else {
                old(self).failed() + 1
            },
            r == if connected {
                ReconnectAction::Resume
            } else if old(self).failed() + 1 < MAX_RECONNECT_ATTEMPTS {
                ReconnectAction::RetryAfter(backoff_after(old(self).failed()) as u64)
            } else {
                ReconnectAction::GiveUpAfter(backoff_after(old(self).failed()) as u64)
            },
    {
        if connected {
            return ReconnectAction::Resume;
        }
        let wait: u64 = self.backoff;
        self.attempt = self.attempt + 1;
        self.backoff = if wait * 3 > MAX_BACKOFF_SECS {
            MAX_BACKOFF_SECS
        } else {
            wait * 3
        };
        if self.attempt < MAX_RECONNECT_ATTEMPTS {
            ReconnectAction::RetryAfter(wait)
        } else {
            ReconnectAction::GiveUpAfter(wait)
        }
    }
}

/// The peers that are connected.
#[derive(Debug)]
pub struct ConnectionManager {
    peers: PeerMap<PeerStreamState>,
}

/// The streams of the peers that are connected.
pub open spec fn stream_views(m: Map<Seq<u8>, PeerStreamState>) -> Map<Seq<u8>, StreamsView> {
    m.map_values(|s: PeerStreamState| s@)
}

impl View for ConnectionManager {
    type V = Map<Seq<u8>, StreamsView>;

    closed spec fn view(&self) -> Map<Seq<u8>, StreamsView> {
        stream_views(self.peers@)
    }
}

impl ConnectionManager {
    /// No peer stands twice.
    pub closed spec fn wf(&self) -> bool {
        self.peers.wf()
    }

    /// No peer is connected.
    pub fn new() -> (r: Self)
        ensures
            r.wf(),
            r@ == Map::<Seq<u8>, StreamsView>::empty(),
    {
        let r: ConnectionManager = ConnectionManager { peers: PeerMap::new() };
        assert(r@ =~= Map::empty());
        r
    }

    /// Takes note of a new connection, which has no streams.
    pub fn add_peer(&mut self, peer_id: PeerId)
        requires
            old(self).wf(),
        ensures
            final(self).wf(),
            final(self)@ == old(self)@.insert(peer_id@, no_streams()),
    {
        self.restore_peer(peer_id, PeerStreamState::default());
    }

    /// Takes note of a connection with these streams.
    pub fn restore_peer(&mut self, peer_id: PeerId, state: PeerStreamState)
        requires
            old(self).wf(),
        ensures
            final(self).wf(),
            final(self)@ == old(self)@.insert(peer_id@, state@),
    {
        let _ = self.peers.insert(peer_id, state);
        assert(self@ =~= old(self)@.insert(peer_id@, state@));
    }

    /// Takes note that a connection is gone.
    pub fn remove_peer(&mut self, peer_id: &PeerId)
        requires
            old(self).wf(),
        ensures
            final(self).wf(),
            final(self)@ == old(self)@.remove(peer_id@),
    {
        let _ = self.peers.remove(peer_id);
        assert(self@ =~= old(self)@.remove(peer_id@));
    }

    /// The attempts that follow the loss of a connection. There are none for a peer
    /// that was not connected.
    pub fn on_disconnect(&self, peer_id: &PeerId) -> (r: Option<Reconnect>)
        ensures
            match r {
                None => !self@.dom().contains(peer_id@),
                Some(rec) => {
                    &&& self@.dom().contains(peer_id@)
                    &&& rec.wf()
                    &&& rec.failed() == 0
                    &&& rec.streams() == self@[peer_id@]
                },
            },
    {
        match self.peers.get(peer_id) {
            None => None,
            Some(state) => Some(Reconnect::new(state.clone())),
        }
    }

    /// Takes note of what came of the attempts: the peer is connected again, with
    /// its streams, or it is gone.
    pub fn settle(&mut self, peer_id: PeerId, attempts: &Reconnect, connected: bool)
        requires
            old(self).wf(),
        ensures
            final(self).wf(),
            final(self)@ == if connected {
                old(self)@.insert(peer_id@, attempts.streams())
            } else {
                old(self)@.remove(peer_id@)
            },
    {
        if connected {
            self.restore_peer(peer_id, attempts.state().clone());
        } else {
            self.remove_peer(&peer_id);
        }
    }

    /// Reads the payload of a STREAM_RESUME frame.
    pub fn handle_resume(payload: &[u8]) -> (r: Option<Vec<(u64, u64)>>)
        ensures
            match r {
                Some(v) => parsed_resume(payload@) == Some(v@),
                None => parsed_resume(payload@) is None,
            },
    {
        let (count, n): (u64, usize) = match decode_varint(payload) {
            None => {
                return None;
            },
            Some(x) => x,
        };
        let mut at: usize = n;
        let mut streams: Vec<(u64, u64)> = Vec::new();
        let mut i: u64 = 0;
        assert(streams@ + positions_at(payload@.skip(n as int), count as nat)->0
            =~= positions_at(payload@.skip(n as int), count as nat)->0);
        while i < count
            invariant
                i <= count,
                at <= payload@.len(),
                match positions_at(payload@.skip(at as int), (count - i) as nat) {
                    None => parsed_resume(payload@) is None,
                    Some(rest) => parsed_resume(payload@) == Some(streams@ + rest),
                },
            decreases count - i,
        {
            let tail: &[u8] = &payload[at..payload.len()];
            assert(tail@ =~= payload@.skip(at as int));
            let (sid, a): (u64, usize) = match decode_varint(tail) {
                None => {
                    return None;
                },
                Some(x) => x,
            };
            let tail2: &[u8] = &payload[at + a..payload.len()];
            assert(tail2@ =~= tail@.skip(a as int));
            let (seq, b): (u64, usize) = match decode_varint(tail2) {
                None => {
                    return None;
                },
                Some(x) => x,
            };
            let ghost before = streams@;
            streams.push((sid, seq));
            proof {
                let s = payload@.skip(at as int);
                let s2 = payload@.skip(at + a + b);
                assert(s2 =~= s.skip(a + b));
                match positions_at(s2, (count - i - 1) as nat) {
                    None => {},
                    Some(rest) => {
                        assert(before + (seq![(sid, seq)] + rest) =~= streams@ + rest);
                    },
                }
            }
            at = at + a + b;
            i = i + 1;
        }
        assert(streams@ + Seq::<(u64, u64)>::empty() =~= streams@);
        Some(streams)
    }

    /// The peers that are connected.
    pub fn active_peers(&self) -> (r: Vec<PeerId>)
        requires
            self.wf(),
        ensures
            r@.map_values(|p: PeerId| p@).to_set() == self@.dom(),
            r@.map_values(|p: PeerId| p@).no_duplicates(),
    {
        let mut r: Vec<PeerId> = Vec::new();
        let mut i: usize = 0;
        while i < self.peers.len()
            invariant
                i <= self.peers.keys().len(),
                r@.map_values(|p: PeerId| p@) == self.peers.keys().subrange(0, i as int),
            decreases self.peers.keys().len() - i,
        {
            let id: PeerId = self.peers.key_at(i);
            let ghost before = r@.map_values(|p: PeerId| p@);
            r.push(id);
            i = i + 1;
            assert(r@.map_values(|p: PeerId| p@) =~= before.push(id@));
            assert(r@.map_values(|p: PeerId| p@) =~= self.peers.keys().subrange(0, i as int));
        }
        proof {
            assert(r@.map_values(|p: PeerId| p@) =~= self.peers.keys());
            self.peers.lemma_keys();
            assert(self@.dom() =~= self.peers@.dom());
            assert(self.peers.keys().to_set() =~= self.peers@.dom());
        }
        r
    }
}

proof fn lemma_positions_front(s: Seq<(u64, u64)>)
    requires
        s.len() > 0,
    ensures
        positions_bytes(s) == frame::varint_bytes(s[0].0 as nat) + frame::varint_bytes(
            s[0].1 as nat,
        ) + positions_bytes(s.drop_first()),
    decreases s.len(),
{
    let t = s.drop_first();
    if t.len() == 0 {
        assert(positions_bytes(s.drop_last()) =~= Seq::<u8>::empty());
        assert(positions_bytes(t) =~= Seq::<u8>::empty());
        assert(s.last() == s[0]);
        assert(positions_bytes(s) =~= frame::varint_bytes(s[0].0 as nat) + frame::varint_bytes(
            s[0].1 as nat,
        ) + positions_bytes(t));
    } else {
        lemma_positions_front(s.drop_last());
        assert(s.drop_last().drop_first() =~= t.drop_last());
        assert(s.last() == t.last());
        assert(positions_bytes(s) =~= frame::varint_bytes(s[0].0 as nat) + frame::varint_bytes(
            s[0].1 as nat,
        ) + positions_bytes(t));
    }
}

/// Where two numbers and then the others are read, all are read.
proof fn lemma_positions_step(a: Seq<u8>, b: Seq<u8>, tail: Seq<u8>, s: Seq<(u64, u64)>)
    requires
        s.len() > 0,
        frame::varint_at_start(a + (b + tail)) == Some((s[0].0 as nat, a.len())),
        frame::varint_at_start(b + tail) == Some((s[0].1 as nat, b.len())),
        positions_at(tail, (s.len() - 1) as nat) == Some(s.drop_first()),
    ensures
        positions_at(a + (b + tail), s.len()) == Some(s),
{
    let all = a + (b + tail);
    assert(all.skip(a.len() as int) =~= b + tail);
    assert(all.skip((a.len() + b.len()) as int) =~= tail);
    assert(seq![(s[0].0, s[0].1)] + s.drop_first() =~= s);
}

proof fn lemma_positions_roundtrip(s: Seq<(u64, u64)>, rest: Seq<u8>)
    requires
        forall|i: int|
            0 <= i < s.len() ==> (#[trigger] s[i]).0 < frame::varint_limit() && s[i].1
                < frame::varint_limit(),
    ensures
        positions_at(positions_bytes(s) + rest, s.len()) == Some(s),
    decreases s.len(),
{
    if s.len() > 0 {
        let t = s.drop_first();
        let a = frame::varint_bytes(s[0].0 as nat);
        let b = frame::varint_bytes(s[0].1 as nat);
        let tail = positions_bytes(t) + rest;
        assert(s[0].0 < frame::varint_limit());
        assert forall|i: int| 0 <= i < t.len() implies (#[trigger] t[i]).0 < frame::varint_limit()
            && t[i].1 < frame::varint_limit() by {
            assert(s[i + 1].0 < frame::varint_limit());
        }
        lemma_positions_roundtrip(t, rest);
        frame::law_varint_roundtrip(s[0].0 as nat, b + tail);
        frame::law_varint_roundtrip(s[0].1 as nat, tail);
        lemma_positions_step(a, b, tail, s);
        assert(positions_bytes(s) + rest == a + (b + tail)) by {
            lemma_positions_front(s);
            assert(a + b + positions_bytes(t) + rest =~= a + (b + tail));
        }
    } else {
        assert(s =~= Seq::empty());
    }
}

/// Reading the payload of a STREAM_RESUME frame gives back the streams that it was
/// written for, whatever follows it. The numbers must fit into varints.
pub proof fn law_resume_roundtrip(s: Seq<(u64, u64)>, rest: Seq<u8>)
    requires
        s.len() < frame::varint_limit(),
        forall|i: int|
            0 <= i < s.len() ==> (#[trigger] s[i]).0 < frame::varint_limit() && s[i].1
                < frame::varint_limit(),
    ensures
        parsed_resume(resume_bytes(s) + rest) == Some(s),
{
    let c = frame::varint_bytes(s.len());
    let all = resume_bytes(s) + rest;
    frame::law_varint_roundtrip(s.len(), positions_bytes(s) + rest);
    lemma_positions_roundtrip(s, rest);
    assert(all =~= c + (positions_bytes(s) + rest));
    assert(all.skip(c.len() as int) =~= positions_bytes(s) + rest);
}

/// The waits between the attempts never shrink, and none is longer than five
/// minutes.
pub proof fn law_backoff(attempt: nat)
    ensures
        1 <= backoff_after(attempt) <= backoff_after(attempt + 1) <= MAX_BACKOFF_SECS,
    decreases attempt,
{
    if attempt > 0 {
        law_backoff((attempt - 1) as nat);
    }
}

/// The wait after the first failed attempt is a second, and after each further one three
/// times the last: the power of three of the number of attempts before, but five minutes at
/// most.
pub proof fn law_backoff_is_a_power(attempt: nat)
    ensures
        backoff_after(attempt) == if vstd::arithmetic::power::pow(3, attempt) < 300 {
            vstd::arithmetic::power::pow(3, attempt)
        } else {
            300
        },
    decreases attempt,
{
    reveal(vstd::arithmetic::power::pow);
    if attempt > 0 {
        law_backoff_is_a_power((attempt - 1) as nat);
        vstd::arithmetic::power::lemma_pow_positive(3, (attempt - 1) as nat);
    }
}

/// Whoever gets the STREAM_RESUME frame that follows a new connection reads every stream
/// that was open, in the order in which they were, each with how far it had come, and 0
/// where nothing was known of it. The numbers must fit into varints.
pub proof fn law_streams_resume(v: StreamsView)
    requires
        v.active.len() < frame::varint_limit(),
        forall|i: int|
            0 <= i < v.active.len() ==> #[trigger] v.active[i] < frame::varint_limit() && (
            v.last.dom().contains(v.active[i]) ==> v.last[v.active[i]] < frame::varint_limit()),
    ensures
        ({
            let got = parsed_resume(resume_bytes(stream_positions(v)));
            &&& got is Some
            &&& got->0.len() == v.active.len()
            &&& forall|i: int|
                0 <= i < v.active.len() ==> {
                    let (sid, at) = #[trigger] got->0[i];
                    &&& sid == v.active[i]
                    &&& v.last.dom().contains(sid) ==> at == v.last[sid]
                    &&& !v.last.dom().contains(sid) ==> at == 0
                }
        }),
{
    let s = stream_positions(v);
    let b = resume_bytes(s);
    assert forall|i: int| 0 <= i < s.len() implies (#[trigger] s[i]).0 < frame::varint_limit()
        && s[i].1 < frame::varint_limit() by {
        assert(v.active[i] < frame::varint_limit());
    }
    law_resume_roundtrip(s, Seq::empty());
    assert(b + Seq::<u8>::empty() =~= b);
}

} // verus!
