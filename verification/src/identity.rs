//! Who a peer is: its keys and its identifier.
use crate::bytes::{bytes_equal, push_bytes};
use crate::peer::PeerId;
use crate::primitives;
use crate::primitives::{
    ed25519_public, ed25519_sign, random_seed, sha256_digest, x25519_public,
};
use crate::text::concat2;
use vstd::prelude::*;

verus! {

pub type Ed25519PublicKey = [u8; 32];

pub type X25519PublicKey = [u8; 32];

pub type Ed25519Signature = [u8; 64];

impl PeerId {
    /// The identifier that belongs to an Ed25519 public key: its digest.
    pub fn from_pubkey(pubkey: &[u8; 32]) -> (r: PeerId)
        ensures
            r@ == primitives::sha256(pubkey@),
    {
        PeerId(sha256_digest(pubkey.as_slice()))
    }
}

/// The lasting identity of a device.
pub trait IdentityProvider {
    /// The identifier, as a value.
    spec fn id(&self) -> Seq<u8>;

    /// The public key, as a value.
    spec fn key(&self) -> Seq<u8>;

    /// The signature of some bytes, as a value.
    spec fn signature(&self, data: Seq<u8>) -> Seq<u8>;

    /// The identifier.
    fn peer_id(&self) -> (r: PeerId)
        ensures
            r@ == self.id(),
    ;

    /// The public key.
    fn public_key(&self) -> (r: &Ed25519PublicKey)
        ensures
            r@ == self.key(),
    ;

    /// Signs some bytes.
    fn sign(&self, data: &[u8]) -> (r: Ed25519Signature)
        ensures
            r@ == self.signature(data@),
    ;
}

/// What can go wrong with an identity.
#[derive(Debug)]
pub enum IdentityError {
    KeyGeneration(String),
    Serialize(String),
    Deserialize(String),
    ReadFile(String),
    WriteFile(String),
    NoHomeDir,
}

impl IdentityError {
    /// The text of the error.
    pub open spec fn message(&self) -> Seq<char> {
        match self {
            IdentityError::KeyGeneration(s) => "key generation failed: "@ + s@,
            IdentityError::Serialize(s) => "failed to serialize identity: "@ + s@,
            IdentityError::Deserialize(s) => "failed to deserialize identity: "@ + s@,
            IdentityError::ReadFile(s) => "failed to read identity file: "@ + s@,
            IdentityError::WriteFile(s) => "failed to write identity file: "@ + s@,
            IdentityError::NoHomeDir => "failed to determine home directory"@,
        }
    }

    /// The text of the error.
    pub fn text(&self) -> (s: String)
        ensures
            s@ == self.message(),
    {
        match self {
            IdentityError::KeyGeneration(s) => concat2("key generation failed: ", s.as_str()),
            IdentityError::Serialize(s) => concat2("failed to serialize identity: ", s.as_str()),
            IdentityError::Deserialize(s) => {
                concat2("failed to deserialize identity: ", s.as_str())
            },
            IdentityError::ReadFile(s) => concat2("failed to read identity file: ", s.as_str()),
            IdentityError::WriteFile(s) => concat2("failed to write identity file: ", s.as_str()),
            IdentityError::NoHomeDir => "failed to determine home directory".to_string(),
        }
    }
}

/// An identity as it is kept in a file.
#[derive(Clone, Copy, Debug)]
pub struct StoredIdentity {
    pub secret_key_bytes: [u8; 32],
    pub public_key: Ed25519PublicKey,
    pub peer_id_bytes: [u8; 32],
}

/// The Ed25519 keys of a peer, and its identifier.
#[derive(Debug)]
pub struct Identity {
    seed: [u8; 32],
    public_key: Ed25519PublicKey,
    peer_id: PeerId,
}

/// What the seed of the Noise key is hashed with.
pub open spec fn noise_label() -> Seq<u8> {
    vstd::utf8::encode_utf8("lain-noise-x25519-v1"@)
}

/// The secret Noise key that belongs to an Ed25519 seed.
pub open spec fn noise_secret(seed: Seq<u8>) -> Seq<u8> {
    primitives::sha256(noise_label() + seed)
}

impl Identity {
    /// The secret key.
    pub closed spec fn secret(&self) -> Seq<u8> {
        self.seed@
    }

    /// The identifier is the digest of the public key.
    pub open spec fn wf(&self) -> bool {
        self.id() == primitives::sha256(self.key())
    }

    /// A new identity from a random secret key. It does not fail.
    pub fn generate() -> (r: Result<Self, IdentityError>)
        ensures
            r is Ok,
            r->Ok_0.wf(),
            r->Ok_0.key() == primitives::ed25519_public_key(r->Ok_0.secret()),
            r->Ok_0.id() == primitives::sha256(r->Ok_0.key()),
    {
        let seed: [u8; 32] = random_seed();
        Ok(Identity::from_seed(seed))
    }

    /// The identity of a secret key.
    pub fn from_seed(seed: [u8; 32]) -> (r: Self)
        ensures
            r.wf(),
            r.secret() == seed@,
            r.key() == primitives::ed25519_public_key(seed@),
            r.id() == primitives::sha256(r.key()),
    {
        let public_key: [u8; 32] = ed25519_public(&seed);
        let peer_id: PeerId = Identity::compute_peer_id(&public_key);
        Identity { seed, public_key, peer_id }
    }

    /// The secret and the public Noise key.
    pub fn noise_keypair(&self) -> (r: ([u8; 32], [u8; 32]))
        ensures
            r.0@ == noise_secret(self.secret()),
            r.0@ == primitives::sha256(
                vstd::utf8::encode_utf8("lain-noise-x25519-v1"@) + self.secret(),
            ),
            r.1@ == primitives::x25519_public_key(r.0@),
    {
        let mut data: Vec<u8> = Vec::new();
        push_bytes(&mut data, "lain-noise-x25519-v1".as_bytes());
        push_bytes(&mut data, self.seed.as_slice());
        assert(data@ =~= noise_label() + self.seed@);
        let secret: [u8; 32] = sha256_digest(data.as_slice());
        let public: [u8; 32] = x25519_public(&secret);
        (secret, public)
    }

    /// The secret key, for signing messages.
    pub fn signing_seed(&self) -> (r: [u8; 32])
        ensures
            r@ == self.secret(),
    {
        self.seed
    }

    /// Takes an identity from what was kept. Its identifier must be the digest of
    /// its public key.
    pub fn from_stored(stored: &StoredIdentity) -> (r: Result<Self, IdentityError>)
        ensures
            match r {
                Ok(id) => {
                    &&& stored.peer_id_bytes@ == primitives::sha256(stored.public_key@)
                    &&& id.wf()
                    &&& id.secret() == stored.secret_key_bytes@
                    &&& id.key() == stored.public_key@
                    &&& id.id() == stored.peer_id_bytes@
                },
                Err(e) => {
                    &&& stored.peer_id_bytes@ != primitives::sha256(stored.public_key@)
                    &&& e is Deserialize
                    &&& e->Deserialize_0@ == "PeerID mismatch"@
                },
            },
    {
        let peer_id: PeerId = Identity::compute_peer_id(&stored.public_key);
        if !bytes_equal(peer_id.0.as_slice(), stored.peer_id_bytes.as_slice()) {
            return Err(IdentityError::Deserialize("PeerID mismatch".to_string()));
        }
        Ok(Identity { seed: stored.secret_key_bytes, public_key: stored.public_key, peer_id })
    }

    /// The identity as it is kept in a file.
    pub fn to_stored(&self) -> (r: StoredIdentity)
        ensures
            r.secret_key_bytes@ == self.secret(),
            r.public_key@ == self.key(),
            r.peer_id_bytes@ == self.id(),
    {
        StoredIdentity {
            secret_key_bytes: self.seed,
            public_key: self.public_key,
            peer_id_bytes: self.peer_id.0,
        }
    }

    /// The identifier that belongs to a public key.
    pub fn compute_peer_id(pubkey: &Ed25519PublicKey) -> (r: PeerId)
        ensures
            r@ == primitives::sha256(pubkey@),
    {
        PeerId::from_pubkey(pubkey)
    }
}

impl IdentityProvider for Identity {
    closed spec fn id(&self) -> Seq<u8> {
        self.peer_id@
    }

    closed spec fn key(&self) -> Seq<u8> {
        self.public_key@
    }

    open spec fn signature(&self, data: Seq<u8>) -> Seq<u8> {
        primitives::ed25519_signature(self.secret(), data)
    }

    fn peer_id(&self) -> (r: PeerId) {
        self.peer_id
    }

    fn public_key(&self) -> (r: &Ed25519PublicKey) {
        &self.public_key
    }

    /// Signs some bytes. The signature holds under the public key of the secret key,
    /// unless it is degenerate.
    fn sign(&self, data: &[u8]) -> (r: Ed25519Signature)
        ensures
            primitives::own_signature_holds(self.secret(), data@, r@),
    {
        ed25519_sign(&self.seed, data)
    }
}

/// What is kept of an identity in order is taken again, and gives the same
/// identity: its identifier is the digest of its public key.
pub proof fn law_stored_identity_accepted(identity: Identity, stored: StoredIdentity)
    requires
        identity.wf(),
        stored.public_key@ == identity.key(),
        stored.peer_id_bytes@ == identity.id(),
    ensures
        stored.peer_id_bytes@ == primitives::sha256(stored.public_key@),
{
}

} // verus!
