//! The encryption of connections: the Noise protocol, pattern IK.
//!
//! The initiator knows the responder's static key beforehand and sends its own
//! in the first message. The payload of each of the two messages is the sender's
//! identifier. Noise vouches for the static keys, not for the identifiers.
use crate::bytes::array_at;
use crate::error::CoreError;
use crate::peer::PeerId;
use crate::primitives;
use crate::primitives::x25519_public;
use snow::params::NoiseParams;
use snow::{HandshakeState, TransportState};
use vstd::prelude::*;

verus! {

#[verifier::external_type_specification]
#[verifier::external_body]
pub struct ExNoiseParams(NoiseParams);

#[verifier::external_type_specification]
#[verifier::external_body]
pub struct ExHandshakeState(HandshakeState);

#[verifier::external_type_specification]
#[verifier::external_body]
pub struct ExTransportState(TransportState);

/// The longest message of a handshake.
pub const HANDSHAKE_BUFFER: usize = 4096;

/// The length of the tag that encryption adds.
pub const TAG_LEN: usize = 16;

/// A handshake in progress.
pub trait NoiseHandshake: Sized {
    /// What the handshake turns into.
    type Transport: NoiseTransport;

    /// Whether the handshake is in order.
    spec fn valid(&self) -> bool;

    /// Writes the next message, with an identifier as payload.
    fn write_message(&mut self, peer_id: &PeerId) -> (r: Result<Vec<u8>, CoreError>)
        requires
            old(self).valid(),
        ensures
            final(self).valid(),
    ;

    /// Reads the next message and gives the identifier that it brought.
    fn read_message(&mut self, data: &[u8]) -> (r: Result<PeerId, CoreError>)
        requires
            old(self).valid(),
        ensures
            final(self).valid(),
    ;

    /// Ends the handshake.
    fn into_transport(self) -> (r: Result<Self::Transport, CoreError>)
        requires
            self.valid(),
    ;

    /// The static key of the other side, once it is known.
    fn remote_pubkey(&self) -> Option<[u8; 32]>;
}

/// What encrypts and decrypts once the handshake is over.
pub trait NoiseTransport {
    /// Encrypts.
    fn encrypt(&mut self, plaintext: &[u8]) -> Result<Vec<u8>, CoreError>;

    /// Decrypts.
    fn decrypt(&mut self, ciphertext: &[u8]) -> Result<Vec<u8>, CoreError>;
}

/// What starts handshakes.
pub trait CryptoProvider {
    /// A handshake in progress.
    type Handshake: NoiseHandshake;

    /// Starts a handshake with the holder of a static key.
    fn new_initiator(&self, remote_pubkey: &[u8; 32]) -> (r: Result<Self::Handshake, CoreError>)
        ensures
            r is Ok ==> r->Ok_0.valid(),
    ;

    /// Waits for a handshake.
    fn new_responder(&self) -> (r: Result<Self::Handshake, CoreError>)
        ensures
            r is Ok ==> r->Ok_0.valid(),
    ;

    /// The local static key.
    fn local_pubkey(&self) -> [u8; 32];
}

/// The pattern and the primitives of the handshake.
pub open spec fn pattern() -> Seq<char> {
    "Noise_IK_25519_ChaChaPoly_BLAKE2s"@
}

/// The pattern and the primitives that parameters were read from.
pub uninterp spec fn noise_pattern(params: NoiseParams) -> Seq<char>;

/// `snow::params::NoiseParams::from_str`: it knows the pattern and the primitives that
/// are used here, and keeps what it was read from.
#[verifier::external_body]
fn snow_params(pattern: &str) -> (r: Result<NoiseParams, String>)
    requires
        pattern@ == self::pattern(),
    ensures
        r is Ok,
        noise_pattern(r->Ok_0) == pattern@,
{
    pattern.parse::<NoiseParams>().map_err(|e| e.to_string())
}

/// What the state of a handshake holds: the side, the secret static key, the static
/// key of the other side where it is known, and the messages that have come or gone.
pub struct Progress {
    pub initiator: bool,
    pub secret: Seq<u8>,
    pub remote: Option<Seq<u8>>,
    pub messages: Seq<Seq<u8>>,
}

/// What the state of a handshake holds.
pub uninterp spec fn noise_progress(state: HandshakeState) -> Progress;

/// What reading a message in a state gives: its payload, and the static key of the
/// other side. Nothing, where the message does not fit the state.
pub uninterp spec fn noise_reads(state: HandshakeState, message: Seq<u8>) -> Option<
    (Seq<u8>, Seq<u8>),
>;

/// The keys that a handshake with both messages behind it leads to: that of what the
/// initiator sends, and that of what the responder sends.
pub uninterp spec fn noise_keys(state: HandshakeState) -> (Seq<u8>, Seq<u8>);

/// What reading a first message under a secret static key gives: its payload, and
/// the static key of its writer.
pub uninterp spec fn first_message(secret: Seq<u8>, message: Seq<u8>) -> Option<
    (Seq<u8>, Seq<u8>),
>;

/// Whether it is the turn of a side to write: the initiator writes the first message,
/// and the responder the second.
pub open spec fn may_write(p: Progress) -> bool {
    p.messages.len() < 2 && p.initiator == (p.messages.len() == 0)
}

/// Whether it is the turn of a side to read.
pub open spec fn may_read(p: Progress) -> bool {
    p.messages.len() < 2 && p.initiator == (p.messages.len() == 1)
}

/// How much longer than its payload a message is that follows some others: by an
/// ephemeral key and a tag, and the first also by an encrypted static key.
pub open spec fn overhead(done: nat) -> nat {
    if done == 0 {
        96
    } else {
        48
    }
}

/// Whether a side is the next to write after some messages, or would be if the
/// handshake were not over.
pub open spec fn has_turn(initiator: bool, done: nat) -> bool {
    initiator == (done % 2 == 0)
}

/// What the error says where nothing can be written after some messages.
pub open spec fn write_error(initiator: bool, done: nat) -> Seq<char> {
    if has_turn(initiator, done) {
        "state error: HandshakeAlreadyFinished"@
    } else {
        "state error: NotTurnToWrite"@
    }
}

/// What the error says where a message of some length is not read after some others.
pub open spec fn read_error(initiator: bool, done: nat, len: nat) -> Seq<char> {
    if len > 65535 {
        "input error"@
    } else if has_turn(initiator, done) {
        "state error: NotTurnToRead"@
    } else if done >= 2 {
        "state error: HandshakeAlreadyFinished"@
    } else if len < keys_len(done) {
        "input error"@
    } else {
        "decrypt error"@
    }
}

/// How long the keys at the start of a message are that follows some others: an
/// ephemeral key, and in the first also an encrypted static key.
pub open spec fn keys_len(done: nat) -> nat {
    if done == 0 {
        80
    } else {
        32
    }
}

/// Whether an initiator and a responder take part in one handshake: they have seen
/// the same messages, and the initiator means the responder's key.
pub open spec fn same_handshake(i: Progress, r: Progress) -> bool {
    &&& i.initiator
    &&& !r.initiator
    &&& i.messages == r.messages
    &&& i.remote == Some(primitives::x25519_public_key(r.secret))
}

/// `snow::Builder::build_initiator`, with a secret static key and the static key of
/// the other side: it does not fail for the pattern used here, and nothing has come
/// or gone yet.
#[verifier::external_body]
fn snow_initiator(params: NoiseParams, secret: &[u8; 32], remote: &[u8; 32]) -> (r: Result<
    HandshakeState,
    String,
>)
    requires
        noise_pattern(params) == pattern(),
    ensures
        r is Ok,
        noise_progress(r->Ok_0) == (Progress {
            initiator: true,
            secret: secret@,
            remote: Some(remote@),
            messages: Seq::empty(),
        }),
{
    snow::Builder::new(params).local_private_key(secret).remote_public_key(remote)
        .build_initiator().map_err(|e| e.to_string())
}

/// `snow::Builder::build_responder`, with a secret static key: it does not fail for
/// the pattern used here, and nothing has come or gone yet. What a first message
/// gives depends on that key and the message alone.
#[verifier::external_body]
fn snow_responder(params: NoiseParams, secret: &[u8; 32]) -> (r: Result<HandshakeState, String>)
    requires
        noise_pattern(params) == pattern(),
    ensures
        r is Ok,
        noise_progress(r->Ok_0) == (Progress {
            initiator: false,
            secret: secret@,
            remote: None,
            messages: Seq::empty(),
        }),
        forall|m: Seq<u8>| #[trigger]
            noise_reads(r->Ok_0, m) == first_message(secret@, m),
{
    snow::Builder::new(params).local_private_key(secret).build_responder()
        .map_err(|e| e.to_string())
}

/// `snow::HandshakeState::write_message` into a buffer with room for the message. It
/// succeeds in turn, and fails out of turn without a change, with an error that tells
/// whether the handshake is over. The message holds a fresh random key. Of its bytes this is known: how many there are, and that whom it
/// is meant for reads the payload and the writer's static key from it. The first is
/// meant for the holder of a static key, and the second for the initiator of the same
/// handshake.
#[verifier::external_body]
fn snow_write(state: &mut HandshakeState, payload: &[u8], room: usize) -> (r: Result<
    Vec<u8>,
    String,
>)
    requires
        payload@.len() + 96 <= room <= 65535,
    ensures
        r is Ok <==> may_write(noise_progress(*old(state))),
        r is Ok ==> {
            let p = noise_progress(*old(state));
            &&& r->Ok_0@.len() == payload@.len() + overhead(p.messages.len())
            &&& noise_progress(*final(state)) == (Progress {
                messages: p.messages.push(r->Ok_0@),
                ..p
            })
        },
        r is Ok ==> forall|key: Seq<u8>|
            {
                let p = noise_progress(*old(state));
                p.initiator && key.len() == 32 && p.remote == Some(
                    primitives::x25519_public_key(key),
                ) ==> #[trigger] first_message(key, r->Ok_0@) == Some(
                    (payload@, primitives::x25519_public_key(p.secret)),
                )
            },
        r is Ok ==> forall|i: HandshakeState|
            {
                let p = noise_progress(*old(state));
                same_handshake(noise_progress(i), p) ==> #[trigger] noise_reads(i, r->Ok_0@)
                    == Some((payload@, primitives::x25519_public_key(p.secret)))
            },
        r is Err ==> {
            let p = noise_progress(*old(state));
            &&& noise_progress(*final(state)) == p
            &&& r->Err_0@ == write_error(p.initiator, p.messages.len())
        },
{
    let mut buf = vec![0u8; room];
    match state.write_message(payload, &mut buf) {
        Ok(len) => {
            buf.truncate(len);
            Ok(buf)
        },
        Err(e) => Err(e.to_string()),
    }
}

/// `snow::HandshakeState::read_message` into a buffer of some length. It succeeds in
/// turn, where the message fits the state and the payload fits the buffer. A message
/// over 65535 bytes does not fit any. The payload is shorter than the message by what
/// belongs to the handshake. The initiator that has read the second message has the
/// keys of the responder of the same handshake. Without success nothing counts as
/// read. The error tells first of a message over 65535 bytes, then of one out of turn,
/// then of one that is cut off in its keys, and otherwise that decryption failed.
#[verifier::external_body]
fn snow_read(state: &mut HandshakeState, message: &[u8], room: usize) -> (r: Result<
    Vec<u8>,
    String,
>)
    ensures
        r is Ok <==> {
            let read = noise_reads(*old(state), message@);
            &&& may_read(noise_progress(*old(state)))
            &&& message@.len() <= 65535
            &&& read matches Some((payload, _)) && payload.len() <= room
        },
        r is Ok ==> {
            let p = noise_progress(*old(state));
            let (payload, remote) = noise_reads(*old(state), message@)->0;
            &&& r->Ok_0@ == payload
            &&& payload.len() + overhead(p.messages.len()) == message@.len()
            &&& remote.len() == 32
            &&& p.initiator ==> p.remote == Some(remote)
            &&& noise_progress(*final(state)) == (Progress {
                remote: Some(remote),
                messages: p.messages.push(message@),
                ..p
            })
        },
        r is Ok ==> forall|s: HandshakeState| same_handshake(
            noise_progress(*final(state)),
            noise_progress(s),
        ) ==> #[trigger] noise_keys(s) == noise_keys(*final(state)),
        r is Err ==> {
            let p = noise_progress(*old(state));
            let q = noise_progress(*final(state));
            &&& q == (Progress { remote: q.remote, ..p })
            &&& p.initiator ==> q.remote == p.remote
            &&& r->Err_0@ == read_error(p.initiator, p.messages.len(), message@.len())
        },
{
    let mut buf = vec![0u8; room];
    match state.read_message(message, &mut buf) {
        Ok(len) => {
            buf.truncate(len);
            Ok(buf)
        },
        Err(e) => Err(e.to_string()),
    }
}

/// `snow::HandshakeState::is_handshake_finished`: whether both messages have come or
/// gone.
#[verifier::external_body]
fn snow_finished(state: &HandshakeState) -> (r: bool)
    ensures
        r == (noise_progress(*state).messages.len() == 2),
{
    state.is_handshake_finished()
}

/// `snow::HandshakeState::get_remote_static`, copied.
#[verifier::external_body]
fn snow_remote(state: &HandshakeState) -> (r: Option<Vec<u8>>)
    ensures
        match r {
            Some(key) => noise_progress(*state).remote == Some(key@),
            None => noise_progress(*state).remote is None,
        },
{
    state.get_remote_static().map(|k| k.to_vec())
}

/// What the state of an encrypted connection holds: a key and a count of messages
/// for either direction.
pub struct Halves {
    pub send_key: Seq<u8>,
    pub sent: nat,
    pub recv_key: Seq<u8>,
    pub received: nat,
}

/// What the state of an encrypted connection holds.
pub uninterp spec fn noise_halves(state: TransportState) -> Halves;

/// A plaintext, encrypted under a key and a count.
pub uninterp spec fn noise_sealed(key: Seq<u8>, count: nat, plaintext: Seq<u8>) -> Seq<u8>;

/// What a ciphertext holds under a key and a count. Nothing, where its tag is wrong.
pub uninterp spec fn noise_opened(key: Seq<u8>, count: nat, ciphertext: Seq<u8>) -> Option<
    Seq<u8>,
>;

/// What a side of a connection starts with, from the two keys.
pub open spec fn starting(initiator: bool, keys: (Seq<u8>, Seq<u8>)) -> Halves {
    if initiator {
        Halves { send_key: keys.0, sent: 0, recv_key: keys.1, received: 0 }
    } else {
        Halves { send_key: keys.1, sent: 0, recv_key: keys.0, received: 0 }
    }
}

/// The count that no message bears.
pub open spec fn last_count() -> nat {
    0xFFFF_FFFF_FFFF_FFFF
}

/// `snow::HandshakeState::into_transport_mode`. It succeeds once both messages have
/// come or gone. Each direction then has its key, and starts to count from 0.
#[verifier::external_body]
fn snow_transport(state: HandshakeState) -> (r: Result<TransportState, String>)
    ensures
        r is Ok <==> noise_progress(state).messages.len() == 2,
        r is Ok ==> noise_halves(r->Ok_0) == starting(
            noise_progress(state).initiator,
            noise_keys(state),
        ),
{
    state.into_transport_mode().map_err(|e| e.to_string())
}

/// What the error says where a plaintext of some length cannot be encrypted.
pub open spec fn encrypt_error(len: nat) -> Seq<char> {
    if len + 16 > 65535 {
        "input error"@
    } else {
        "state error: Exhausted"@
    }
}

/// What the error says where a ciphertext of some length cannot be decrypted after some
/// others.
pub open spec fn decrypt_error(len: nat, received: nat) -> Seq<char> {
    if len > 65535 {
        "input error"@
    } else if len >= 16 && received >= last_count() {
        "state error: Exhausted"@
    } else {
        "decrypt error"@
    }
}

/// `snow::TransportState::write_message` into a buffer with room for the result. It
/// succeeds where the result has 65535 bytes at most and the count is not used up.
/// The result depends on the key, the count and the plaintext, and decrypting it
/// under the same key and count gives the plaintext back. The error tells which of the
/// two fails, the length first.
#[verifier::external_body]
fn snow_encrypt(state: &mut TransportState, plaintext: &[u8], room: usize) -> (r: Result<
    Vec<u8>,
    String,
>)
    requires
        plaintext@.len() + 16 <= room,
    ensures
        r is Ok <==> plaintext@.len() + 16 <= 65535 && noise_halves(*old(state)).sent
            < last_count(),
        r is Ok ==> {
            let h = noise_halves(*old(state));
            &&& r->Ok_0@ == noise_sealed(h.send_key, h.sent, plaintext@)
            &&& r->Ok_0@.len() == plaintext@.len() + 16
            &&& noise_opened(h.send_key, h.sent, r->Ok_0@) == Some(plaintext@)
            &&& noise_halves(*final(state)) == (Halves { sent: h.sent + 1, ..h })
        },
        r is Err ==> {
            &&& noise_halves(*final(state)) == noise_halves(*old(state))
            &&& r->Err_0@ == encrypt_error(plaintext@.len())
        },
{
    let mut out = vec![0u8; room];
    match state.write_message(plaintext, &mut out) {
        Ok(len) => {
            out.truncate(len);
            Ok(out)
        },
        Err(e) => Err(e.to_string()),
    }
}

/// `snow::TransportState::read_message` into a buffer with room for the result. It
/// succeeds where the ciphertext has from 16 to 65535 bytes, the count is not used
/// up, and the ciphertext holds a plaintext under the key and the count. The error
/// tells first of a ciphertext over 65535 bytes and then, but for one without a whole
/// tag, of a count that is used up, and otherwise that decryption failed.
#[verifier::external_body]
fn snow_decrypt(state: &mut TransportState, ciphertext: &[u8], room: usize) -> (r: Result<
    Vec<u8>,
    String,
>)
    requires
        ciphertext@.len() <= room,
    ensures
        r is Ok <==> {
            let h = noise_halves(*old(state));
            &&& 16 <= ciphertext@.len() <= 65535
            &&& h.received < last_count()
            &&& noise_opened(h.recv_key, h.received, ciphertext@) is Some
        },
        r is Ok ==> {
            let h = noise_halves(*old(state));
            &&& noise_opened(h.recv_key, h.received, ciphertext@) == Some(r->Ok_0@)
            &&& r->Ok_0@.len() + 16 == ciphertext@.len()
            &&& noise_halves(*final(state)) == (Halves { received: h.received + 1, ..h })
        },
        r is Err ==> {
            let h = noise_halves(*old(state));
            &&& noise_halves(*final(state)) == h
            &&& r->Err_0@ == decrypt_error(ciphertext@.len(), h.received)
        },
{
    let mut out = vec![0u8; room];
    match state.read_message(ciphertext, &mut out) {
        Ok(len) => {
            out.truncate(len);
            Ok(out)
        },
        Err(e) => Err(e.to_string()),
    }
}

/// The identifier that the payload of a handshake message starts with.
pub fn payload_peer_id(payload: &[u8]) -> (r: Result<PeerId, CoreError>)
    ensures
        match r {
            Ok(id) => payload@.len() >= 32 && id@ == payload@.subrange(0, 32),
            Err(CoreError::InvalidEndpoint(s)) => payload@.len() < 32 && s@
                == "payload too short for PeerID"@,
            Err(_) => false,
        },
{
    if payload.len() < 32 {
        return Err(CoreError::InvalidEndpoint("payload too short for PeerID".to_string()));
    }
    Ok(PeerId(array_at(payload, 0)))
}

/// The static key of the other side, from what the handshake has of it: 32 bytes,
/// or none.
pub fn static_key(key: Option<Vec<u8>>) -> (r: Option<[u8; 32]>)
    ensures
        match r {
            Some(k) => key is Some && key->0@ == k@,
            None => key is None || key->0@.len() != 32,
        },
{
    match key {
        None => None,
        Some(k) => {
            if k.len() != 32 {
                return None;
            }
            let out: [u8; 32] = array_at(k.as_slice(), 0);
            assert(out@ =~= k@);
            Some(out)
        },
    }
}

/// A handshake in progress, and whether its last message came or went.
#[derive(Debug)]
pub struct Handshake {
    state: HandshakeState,
    finished: bool,
}

impl Handshake {
    /// What the handshake holds.
    pub closed spec fn progress(&self) -> Progress {
        noise_progress(self.state)
    }

    /// What reading a message now gives: its payload and the static key of the other
    /// side.
    pub closed spec fn reads(&self, message: Seq<u8>) -> Option<(Seq<u8>, Seq<u8>)> {
        noise_reads(self.state, message)
    }

    /// The keys that the handshake leads to, once both messages came or went.
    pub closed spec fn keys(&self) -> (Seq<u8>, Seq<u8>) {
        noise_keys(self.state)
    }

    /// Whether the last message came or went.
    pub closed spec fn is_finished(&self) -> bool {
        self.finished
    }

    /// A handshake that is finished has both messages behind it.
    pub closed spec fn wf(&self) -> bool {
        self.finished ==> noise_progress(self.state).messages.len() == 2
    }
}

/// Whether nothing has come or gone yet for a side that means the holder of a key.
pub open spec fn fresh_initiator(h: Handshake, secret: Seq<u8>, remote: Seq<u8>) -> bool {
    h.progress() == (Progress {
        initiator: true,
        secret,
        remote: Some(remote),
        messages: Seq::empty(),
    })
}

/// Whether nothing has come or gone yet for a side that waits.
pub open spec fn fresh_responder(h: Handshake, secret: Seq<u8>) -> bool {
    &&& h.progress() == (Progress {
        initiator: false,
        secret,
        remote: None,
        messages: Seq::empty(),
    })
    &&& forall|m: Seq<u8>| #[trigger] h.reads(m) == first_message(secret, m)
}

/// Whether a message with an identifier was written: it is as long as it has to be,
/// and whom it is meant for reads the identifier and the writer's static key from it.
pub open spec fn has_written(
    before: Handshake,
    id: Seq<u8>,
    after: Handshake,
    m: Seq<u8>,
) -> bool {
    let p = before.progress();
    &&& m.len() == 32 + overhead(p.messages.len())
    &&& after.progress() == (Progress { messages: p.messages.push(m), ..p })
    &&& first_for(p, id, m)
    &&& forall|i: Handshake|
        same_handshake(i.progress(), p) ==> #[trigger] i.reads(m) == Some(
            (id, primitives::x25519_public_key(p.secret)),
        )
}

/// Whether the holder of the static key that an initiator means reads an identifier
/// and the initiator's static key from a message.
pub open spec fn first_for(p: Progress, id: Seq<u8>, m: Seq<u8>) -> bool {
    forall|key: Seq<u8>|
        p.initiator && key.len() == 32 && p.remote == Some(primitives::x25519_public_key(key))
            ==> #[trigger] first_message(key, m) == Some(
            (id, primitives::x25519_public_key(p.secret)),
        )
}

/// Whether a message was read: it counts as read, and an initiator then has the keys
/// of the responder of the same handshake.
pub open spec fn has_read(before: Handshake, m: Seq<u8>, after: Handshake) -> bool {
    let p = before.progress();
    &&& after.progress() == (Progress {
        remote: after.progress().remote,
        messages: p.messages.push(m),
        ..p
    })
    &&& p.initiator ==> after.progress().remote == p.remote
    &&& forall|r: Handshake|
        same_handshake(after.progress(), r.progress()) ==> #[trigger] r.keys() == after.keys()
}

/// Whether a message counts as read, from what reading it gives: neither it nor its
/// payload is too long.
pub open spec fn is_read(m: Seq<u8>, read: Option<(Seq<u8>, Seq<u8>)>) -> bool {
    read matches Some((payload, _)) && m.len() <= 65535 && payload.len() <= HANDSHAKE_BUFFER
}

/// What the error says where a message after some others does not bring an identifier,
/// from what reading it gives.
pub open spec fn unread(
    initiator: bool,
    done: nat,
    m: Seq<u8>,
    read: Option<(Seq<u8>, Seq<u8>)>,
) -> Seq<char> {
    if done < 2 && !has_turn(initiator, done) && m.len() >= overhead(done) && is_read(m, read) {
        "payload too short for PeerID"@
    } else {
        read_error(initiator, done, m.len())
    }
}

/// Whether an error of the core types is one of Noise with a given text.
pub open spec fn is_error(e: CoreError, text: Seq<char>) -> bool {
    e is InvalidEndpoint && e->InvalidEndpoint_0@ == text
}

/// What a message brings, from what reading it gives: the identifier that its payload
/// starts with, and the static key of its writer. Nothing, where the message or its
/// payload is too long or the payload is too short.
pub open spec fn brings(m: Seq<u8>, read: Option<(Seq<u8>, Seq<u8>)>) -> Option<
    (Seq<u8>, Seq<u8>),
> {
    match read {
        Some((payload, remote)) => if m.len() <= 65535 && 32 <= payload.len()
            <= HANDSHAKE_BUFFER {
            Some((payload.subrange(0, 32), remote))
        } else {
            None
        },
        None => None,
    }
}

impl NoiseHandshake for Handshake {
    type Transport = Session;

    open spec fn valid(&self) -> bool {
        self.wf()
    }

    /// Writes the next message, with an identifier as payload. It succeeds in turn,
    /// and fails out of turn without a change.
    fn write_message(&mut self, peer_id: &PeerId) -> (r: Result<Vec<u8>, CoreError>)
        ensures
            final(self).wf(),
            r is Ok <==> may_write(old(self).progress()),
            match r {
                Ok(m) => {
                    &&& has_written(*old(self), peer_id@, *final(self), m@)
                    &&& final(self).is_finished() == (final(self).progress().messages.len() == 2)
                },
                Err(e) => {
                    let p = old(self).progress();
                    &&& is_error(e, write_error(p.initiator, p.messages.len()))
                    &&& final(self).progress() == p
                    &&& final(self).is_finished() == old(self).is_finished()
                },
            },
    {
        match snow_write(&mut self.state, peer_id.0.as_slice(), HANDSHAKE_BUFFER) {
            Err(e) => Err(CoreError::InvalidEndpoint(e)),
            Ok(m) => {
                self.finished = snow_finished(&self.state);
                Ok(m)
            },
        }
    }

    /// Reads the next message and gives the identifier that it brought. It succeeds
    /// in turn, for a message that fits and brings an identifier. Without success the
    /// handshake stands as before, but for the static key of the other side, unless the
    /// message fits and its payload is too short.
    fn read_message(&mut self, data: &[u8]) -> (r: Result<PeerId, CoreError>)
        ensures
            final(self).wf(),
            r is Ok <==> may_read(old(self).progress()) && brings(
                data@,
                old(self).reads(data@),
            ) is Some,
            match r {
                Ok(id) => {
                    let p = old(self).progress();
                    let (brought, remote) = brings(data@, old(self).reads(data@))->0;
                    &&& id@ == brought
                    &&& remote.len() == 32
                    &&& data@.len() >= 32 + overhead(p.messages.len())
                    &&& has_read(*old(self), data@, *final(self))
                    &&& final(self).progress().remote == Some(remote)
                    &&& final(self).is_finished() == (final(self).progress().messages.len() == 2)
                },
                Err(e) => {
                    let p = old(self).progress();
                    let q = final(self).progress();
                    &&& is_error(
                        e,
                        unread(p.initiator, p.messages.len(), data@, old(self).reads(data@)),
                    )
                    &&& final(self).is_finished() == old(self).is_finished()
                    &&& q == (Progress {
                        remote: q.remote,
                        messages: if may_read(p) && is_read(data@, old(self).reads(data@)) {
                            p.messages.push(data@)
                        } else {
                            p.messages
                        },
                        ..p
                    })
                    &&& p.initiator ==> q.remote == p.remote
                },
            },
    {
        match snow_read(&mut self.state, data, HANDSHAKE_BUFFER) {
            Err(e) => Err(CoreError::InvalidEndpoint(e)),
            Ok(payload) => match payload_peer_id(payload.as_slice()) {
                Err(e) => Err(e),
                Ok(id) => {
                    self.finished = snow_finished(&self.state);
                    Ok(id)
                },
            },
        }
    }

    /// Ends the handshake. One that is not over is an error.
    fn into_transport(self) -> (r: Result<Session, CoreError>)
        ensures
            match r {
                Ok(session) => {
                    &&& self.is_finished()
                    &&& session.halves() == starting(self.progress().initiator, self.keys())
                },
                Err(CoreError::InvalidEndpoint(s)) => !self.is_finished() && s@
                    == "handshake not finished"@,
                Err(_) => false,
            },
    {
        if !self.finished {
            return Err(CoreError::InvalidEndpoint("handshake not finished".to_string()));
        }
        match snow_transport(self.state) {
            Err(e) => Err(CoreError::InvalidEndpoint(e)),
            Ok(transport) => Ok(Session { transport }),
        }
    }

    /// The static key of the other side, once it is known.
    fn remote_pubkey(&self) -> (r: Option<[u8; 32]>)
        ensures
            match r {
                Some(key) => self.progress().remote == Some(key@),
                None => self.progress().remote is None || self.progress().remote->0.len() != 32,
            },
    {
        static_key(snow_remote(&self.state))
    }
}

/// An encrypted connection.
#[derive(Debug)]
pub struct Session {
    transport: TransportState,
}

impl Session {
    /// The keys and the counts of both directions.
    pub closed spec fn halves(&self) -> Halves {
        noise_halves(self.transport)
    }
}

impl NoiseTransport for Session {
    /// Encrypts. It succeeds where the result, which is longer by a tag, has 65535
    /// bytes at most and the count of messages is not used up.
    fn encrypt(&mut self, plaintext: &[u8]) -> (r: Result<Vec<u8>, CoreError>)
        ensures
            r is Ok <==> plaintext@.len() + 16 <= 65535 && old(self).halves().sent < last_count(),
            match r {
                Ok(c) => has_sealed(old(self).halves(), plaintext@, final(self).halves(), c@),
                Err(e) => {
                    &&& is_error(e, encrypt_error(plaintext@.len()))
                    &&& final(self).halves() == old(self).halves()
                },
            },
    {
        if plaintext.len() > usize::MAX - TAG_LEN {
            return Err(CoreError::InvalidEndpoint("input error".to_string()));
        }
        match snow_encrypt(&mut self.transport, plaintext, plaintext.len() + TAG_LEN) {
            Err(e) => Err(CoreError::InvalidEndpoint(e)),
            Ok(c) => Ok(c),
        }
    }

    /// Decrypts. It succeeds for the next message that the other end encrypted.
    fn decrypt(&mut self, ciphertext: &[u8]) -> (r: Result<Vec<u8>, CoreError>)
        ensures
            r is Ok <==> can_open(old(self).halves(), ciphertext@),
            match r {
                Ok(p) => {
                    &&& has_opened(old(self).halves(), ciphertext@, final(self).halves(), p@)
                    &&& p@.len() + 16 == ciphertext@.len()
                },
                Err(e) => {
                    &&& is_error(e, decrypt_error(ciphertext@.len(), old(self).halves().received))
                    &&& final(self).halves() == old(self).halves()
                },
            },
    {
        match snow_decrypt(&mut self.transport, ciphertext, ciphertext.len()) {
            Err(e) => Err(CoreError::InvalidEndpoint(e)),
            Ok(p) => Ok(p),
        }
    }
}

/// Whether one end of a connection decrypts next what the other encrypts next.
pub open spec fn in_step(from: Halves, to: Halves) -> bool {
    from.send_key == to.recv_key && from.sent == to.received
}

/// Whether some bytes were encrypted, as the message that comes next.
pub open spec fn has_sealed(before: Halves, plaintext: Seq<u8>, after: Halves, c: Seq<u8>) -> bool {
    &&& c == noise_sealed(before.send_key, before.sent, plaintext)
    &&& c.len() == plaintext.len() + 16
    &&& noise_opened(before.send_key, before.sent, c) == Some(plaintext)
    &&& after == (Halves { sent: before.sent + 1, ..before })
}

/// Whether a message was decrypted, as the one that comes next.
pub open spec fn has_opened(before: Halves, c: Seq<u8>, after: Halves, plaintext: Seq<u8>) -> bool {
    &&& noise_opened(before.recv_key, before.received, c) == Some(plaintext)
    &&& after == (Halves { received: before.received + 1, ..before })
}

/// Whether an end of a connection decrypts a message as the one that comes next.
pub open spec fn can_open(h: Halves, c: Seq<u8>) -> bool {
    &&& 16 <= c.len() <= 65535
    &&& h.received < last_count()
    &&& noise_opened(h.recv_key, h.received, c) is Some
}

/// What one end of a connection encrypts, the other decrypts to the same bytes, and
/// after that they are still in step, in both directions.
pub proof fn law_connection(
    from: Halves,
    to: Halves,
    plaintext: Seq<u8>,
    c: Seq<u8>,
    from_after: Halves,
    to_after: Halves,
    got: Seq<u8>,
)
    requires
        in_step(from, to),
        from.sent < last_count(),
        plaintext.len() + 16 <= 65535,
        has_sealed(from, plaintext, from_after, c),
    ensures
        can_open(to, c),
        has_opened(to, c, to_after, got) ==> got == plaintext && in_step(from_after, to_after),
        has_opened(to, c, to_after, got) && in_step(to, from) ==> in_step(to_after, from_after),
{
}

/// A handshake of two sides whose messages reach each other: each learns the identifier
/// and the static key of the other, and the connections that follow are in step in both
/// directions.
pub proof fn law_handshake(
    a_secret: Seq<u8>,
    b_secret: Seq<u8>,
    a_id: Seq<u8>,
    b_id: Seq<u8>,
    a: (Handshake, Handshake, Handshake),
    b: (Handshake, Handshake, Handshake),
    m1: Seq<u8>,
    m2: Seq<u8>,
)
    requires
        b_secret.len() == 32,
        a_id.len() == 32,
        b_id.len() == 32,
        fresh_initiator(a.0, a_secret, primitives::x25519_public_key(b_secret)),
        fresh_responder(b.0, b_secret),
        has_written(a.0, a_id, a.1, m1),
        has_read(b.0, m1, b.1),
        has_written(b.1, b_id, b.2, m2),
        has_read(a.1, m2, a.2),
    ensures
        may_read(b.0.progress()),
        brings(m1, b.0.reads(m1)) == Some((a_id, primitives::x25519_public_key(a_secret))),
        may_write(b.1.progress()),
        may_read(a.1.progress()),
        brings(m2, a.1.reads(m2)) == Some((b_id, primitives::x25519_public_key(b_secret))),
        in_step(starting(true, a.2.keys()), starting(false, b.2.keys())),
        in_step(starting(false, b.2.keys()), starting(true, a.2.keys())),
{
    assert(first_message(b_secret, m1) == Some((a_id, primitives::x25519_public_key(a_secret))));
    assert(b.0.reads(m1) == first_message(b_secret, m1));
    assert(a_id.subrange(0, 32) =~= a_id);
    assert(b_id.subrange(0, 32) =~= b_id);
    assert(a.1.progress().messages =~= seq![m1]);
    assert(b.1.progress().messages =~= seq![m1]);
    assert(same_handshake(a.1.progress(), b.1.progress()));
    assert(a.1.reads(m2) == Some((b_id, primitives::x25519_public_key(b_secret))));
    assert(same_handshake(a.2.progress(), b.2.progress()));
    assert(b.2.keys() == a.2.keys());
}

/// Starts handshakes under one static key.
#[derive(Debug)]
pub struct NoiseProvider {
    secret: [u8; 32],
}

impl NoiseProvider {
    /// The secret static key.
    pub closed spec fn key(&self) -> Seq<u8> {
        self.secret@
    }

    /// Starts handshakes under a secret static key.
    pub fn new(secret: [u8; 32]) -> (r: Self)
        ensures
            r.key() == secret@,
    {
        NoiseProvider { secret }
    }
}

impl CryptoProvider for NoiseProvider {
    type Handshake = Handshake;

    /// Starts a handshake with the holder of a static key. It does not fail.
    fn new_initiator(&self, remote_pubkey: &[u8; 32]) -> (r: Result<Handshake, CoreError>)
        ensures
            r is Ok,
            r->Ok_0.wf(),
            !r->Ok_0.is_finished(),
            fresh_initiator(r->Ok_0, self.key(), remote_pubkey@),
    {
        let params: NoiseParams = match snow_params("Noise_IK_25519_ChaChaPoly_BLAKE2s") {
            Err(e) => {
                return Err(CoreError::InvalidEndpoint(e));
            },
            Ok(p) => p,
        };
        match snow_initiator(params, &self.secret, remote_pubkey) {
            Err(e) => Err(CoreError::InvalidEndpoint(e)),
            Ok(state) => Ok(Handshake { state, finished: false }),
        }
    }

    /// Waits for a handshake. It does not fail.
    fn new_responder(&self) -> (r: Result<Handshake, CoreError>)
        ensures
            r is Ok,
            r->Ok_0.wf(),
            !r->Ok_0.is_finished(),
            fresh_responder(r->Ok_0, self.key()),
    {
        let params: NoiseParams = match snow_params("Noise_IK_25519_ChaChaPoly_BLAKE2s") {
            Err(e) => {
                return Err(CoreError::InvalidEndpoint(e));
            },
            Ok(p) => p,
        };
        match snow_responder(params, &self.secret) {
            Err(e) => Err(CoreError::InvalidEndpoint(e)),
            Ok(state) => Ok(Handshake { state, finished: false }),
        }
    }

    /// The local static key.
    fn local_pubkey(&self) -> (r: [u8; 32])
        ensures
            r@ == primitives::x25519_public_key(self.key()),
    {
        x25519_public(&self.secret)
    }
}

} // verus!
