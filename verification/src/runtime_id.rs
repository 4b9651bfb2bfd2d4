//! Ephemeral ids that identify a replica for as long as it runs. The cryptography ensures that
//! one replica cannot claim to be another one: each signs the other's challenge.

use crate::message::PublicKey;
use crate::random::os_random_bytes32;
use ed25519_dalek::{Signer, Verifier};
use vstd::prelude::*;

verus! {

/// The Ed25519 public key that belongs to a 32-byte secret key.
pub uninterp spec fn ed25519_public(secret: Seq<u8>) -> Seq<u8>;

/// The Ed25519 signature of `message` under a 32-byte secret key.
pub uninterp spec fn ed25519_signature(secret: Seq<u8>, message: Seq<u8>) -> Seq<u8>;

/// Whether `signature` is a valid Ed25519 signature of `message` under the public key `public`.
pub uninterp spec fn ed25519_verifies(public: Seq<u8>, message: Seq<u8>, signature: Seq<u8>) -> bool;

/// `ed25519_dalek::SigningKey::generate` on the operating system's generator, handed back as the
/// key's secret bytes (`SigningKey::to_bytes`). Nothing is claimed of them: they are random.
#[verifier::external_body]
fn generate_secret() -> [u8; 32] {
    ed25519_dalek::SigningKey::generate(&mut rand::rngs::OsRng).to_bytes()
}

/// `ed25519_dalek::SigningKey::verifying_key` of the key made from `secret` by
/// `SigningKey::from_bytes`, as bytes (`VerifyingKey::to_bytes`). The key is a function of the
/// secret alone: it is named, not described.
#[verifier::external_body]
fn public_key_of(secret: &[u8; 32]) -> (r: [u8; 32])
    ensures
        r@ == ed25519_public(secret@),
{
    ed25519_dalek::SigningKey::from_bytes(secret).verifying_key().to_bytes()
}

/// `ed25519_dalek::Signer::sign` of `message` with the key made from `secret` by
/// `SigningKey::from_bytes`, as bytes (`Signature::to_bytes`). Ed25519 signing is deterministic,
/// so the signature is named as a function of the secret and the message.
#[verifier::external_body]
fn sign_message(secret: &[u8; 32], message: &[u8]) -> (r: [u8; 64])
    ensures
        r@ == ed25519_signature(secret@, message@),
{
    ed25519_dalek::SigningKey::from_bytes(secret).sign(message).to_bytes()
}

/// `ed25519_dalek::Verifier::verify` of `signature` (read by `Signature::from_bytes`) on
/// `message` under the key read from `public` by `VerifyingKey::from_bytes`; `false` when
/// `public` is no valid key or the signature does not verify. Besides naming the answer, the
/// contract states what the crate's documentation shows: a signature that a secret key made
/// verifies under that key's public key.
#[verifier::external_body]
fn verify_message(public: &[u8; 32], message: &[u8], signature: &[u8; 64]) -> (r: bool)
    ensures
        r == ed25519_verifies(public@, message@, signature@),
        forall|secret: Seq<u8>|
            secret.len() == 32 && ed25519_public(secret) == public@ && #[trigger] ed25519_signature(
                secret,
                message@,
            ) == signature@ ==> r,
{
    match ed25519_dalek::VerifyingKey::from_bytes(public) {
        Ok(key) => key.verify(message, &ed25519_dalek::Signature::from_bytes(signature)).is_ok(),
        Err(_) => false,
    }
}

/// The secret part of a replica's runtime id: an Ed25519 key pair, held as its secret key.
pub struct SecretRuntimeId {
    secret: [u8; 32],
}

impl View for SecretRuntimeId {
    type V = Seq<u8>;

    /// The secret key's bytes.
    closed spec fn view(&self) -> Seq<u8> {
        self.secret@
    }
}

impl SecretRuntimeId {
    /// A fresh id with a random key.
    pub fn random() -> (r: Self)
        ensures
            r@.len() == 32,
    {
        SecretRuntimeId { secret: generate_secret() }
    }

    /// The public id that belongs to this secret one.
    pub fn public(&self) -> (r: PublicRuntimeId)
        ensures
            r.public.0@ == ed25519_public(self@),
    {
        PublicRuntimeId { public: PublicKey(public_key_of(&self.secret)) }
    }

    /// The answer to a peer's challenge: the signature of `to_sign(challenge)`.
    pub fn sign_challenge(&self, challenge: &[u8; 32]) -> (r: [u8; 64])
        ensures
            r@ == ed25519_signature(self@, to_sign_prefix() + challenge@),
    {
        let message = to_sign(challenge);
        sign_message(&self.secret, &message)
    }
}

/// The public part of a replica's runtime id.
#[derive(Clone, Copy, PartialEq, Eq, Hash, Debug, PartialOrd, Ord)]
pub struct PublicRuntimeId {
    pub public: PublicKey,
}

impl PublicRuntimeId {
    pub fn from_bytes(bytes: [u8; 32]) -> (r: Self)
        ensures
            r.public.0 == bytes,
    {
        PublicRuntimeId { public: PublicKey(bytes) }
    }

    pub fn as_public_key(&self) -> (r: &PublicKey)
        ensures
            *r == self.public,
    {
        &self.public
    }

    /// The bytes of the id.
    pub fn as_bytes(&self) -> (r: &[u8; 32])
        ensures
            *r == self.public.0,
    {
        &self.public.0
    }

    /// Whether `signature` answers `challenge` for this id: whether it is a valid signature of
    /// `to_sign(challenge)` under this public key. The answer that the id's own secret gives is
    /// accepted.
    pub fn verify_challenge(&self, challenge: &[u8; 32], signature: &[u8; 64]) -> (r: bool)
        ensures
            r == ed25519_verifies(self.public.0@, to_sign_prefix() + challenge@, signature@),
            forall|secret: Seq<u8>|
                secret.len() == 32 && ed25519_public(secret) == self.public.0@
                    && #[trigger] ed25519_signature(secret, to_sign_prefix() + challenge@)
                    == signature@ ==> r,
    {
        let message = to_sign(challenge);
        verify_message(&self.public.0, &message, signature)
    }
}

/// Why a runtime id exchange failed.
#[derive(Clone, Copy, PartialEq, Eq, Debug)]
pub enum ExchangeError {
    /// The peer's signature did not answer our challenge.
    VerificationFailed,
}

/// One side of the exchange of runtime ids. Each side sends a random challenge and its public
/// id, signs the challenge it receives, and accepts the peer's id only when the peer's signature
/// answers its own challenge.
pub struct Exchange {
    pub our_challenge: [u8; 32],
    pub our_id: PublicRuntimeId,
}

impl Exchange {
    /// Starts an exchange with a fresh random challenge. What goes out first is the challenge
    /// followed by our public id (`opening`).
    pub fn start(our_runtime_id: &SecretRuntimeId) -> (r: Self)
        ensures
            r.our_id.public.0@ == ed25519_public(our_runtime_id@),
    {
        Exchange { our_challenge: os_random_bytes32(), our_id: our_runtime_id.public() }
    }

    /// The 64 bytes that open the exchange: our challenge, then our public id.
    pub fn opening(&self) -> (r: [u8; 64])
        ensures
            r@ == self.our_challenge@ + self.our_id.public.0@,
    {
        let mut out = [0u8; 64];
        let mut i: usize = 0;
        while i < 32
            invariant
                i <= 32,
                out@.len() == 64,
                forall|j: int| 0 <= j < i ==> out@[j] == self.our_challenge@[j],
                forall|j: int| 0 <= j < i ==> out@[32 + j] == self.our_id.public.0@[j],
            decreases 32 - i,
        {
            out[i] = self.our_challenge[i];
            out[32 + i] = self.our_id.public.0[i];
            i = i + 1;
        }
        assert(out@ =~= self.our_challenge@ + self.our_id.public.0@);
        out
    }

    /// Reads what the peer opened with: its challenge and its public id.
    pub fn read_opening(bytes: &[u8; 64]) -> (r: ([u8; 32], PublicRuntimeId))
        ensures
            r.0@ + r.1.public.0@ == bytes@,
    {
        let mut challenge = [0u8; 32];
        let mut id = [0u8; 32];
        let mut i: usize = 0;
        while i < 32
            invariant
                i <= 32,
                challenge@.len() == 32,
                id@.len() == 32,
                bytes@.len() == 64,
                forall|j: int| 0 <= j < i ==> challenge@[j] == bytes@[j],
                forall|j: int| 0 <= j < i ==> id@[j] == bytes@[32 + j],
            decreases 32 - i,
        {
            challenge[i] = bytes[i];
            id[i] = bytes[32 + i];
            i = i + 1;
        }
        assert(challenge@ + id@ =~= bytes@);
        (challenge, PublicRuntimeId { public: PublicKey(id) })
    }

    /// The peer's id, accepted when its signature answers our challenge.
    pub fn finish(&self, their_id: PublicRuntimeId, their_signature: &[u8; 64]) -> (r: Result<
        PublicRuntimeId,
        ExchangeError,
    >)
        ensures
            r == (if ed25519_verifies(
                their_id.public.0@,
                to_sign_prefix() + self.our_challenge@,
                their_signature@,
            ) {
                Ok::<PublicRuntimeId, ExchangeError>(their_id)
            } else {
                Err(ExchangeError::VerificationFailed)
            }),
            forall|secret: Seq<u8>|
                secret.len() == 32 && ed25519_public(secret) == their_id.public.0@
                    && #[trigger] ed25519_signature(secret, to_sign_prefix() + self.our_challenge@)
                    == their_signature@ ==> r == Ok::<PublicRuntimeId, ExchangeError>(their_id),
    {
        if their_id.verify_challenge(&self.our_challenge, their_signature) {
            Ok(their_id)
        } else {
            Err(ExchangeError::VerificationFailed)
        }
    }
}

/// "runtime-id"
pub open spec fn to_sign_prefix() -> Seq<u8> {
    seq![0x72u8, 0x75, 0x6e, 0x74, 0x69, 0x6d, 0x65, 0x2d, 0x69, 0x64]
}

/// The bytes a replica signs to answer a challenge: "runtime-id" followed by the challenge.
pub fn to_sign(challenge: &[u8; 32]) -> (r: [u8; 42])
    ensures
        r@ == to_sign_prefix() + challenge@,
{
    let mut out = [0u8; 42];
    let prefix = [0x72u8, 0x75, 0x6e, 0x74, 0x69, 0x6d, 0x65, 0x2d, 0x69, 0x64];
    let mut i: usize = 0;
    while i < 10
        invariant
            i <= 10,
            out@.len() == 42,
            prefix@ == to_sign_prefix(),
            forall|j: int| 0 <= j < i ==> out@[j] == prefix@[j],
        decreases 10 - i,
    {
        out[i] = prefix[i];
        i = i + 1;
    }
    let mut k: usize = 0;
    while k < 32
        invariant
            k <= 32,
            out@.len() == 42,
            challenge@.len() == 32,
            prefix@ == to_sign_prefix(),
            forall|j: int| 0 <= j < 10 ==> out@[j] == prefix@[j],
            forall|j: int| 0 <= j < k ==> out@[10 + j] == challenge@[j],
        decreases 32 - k,
    {
        out[10 + k] = challenge[k];
        k = k + 1;
    }
    assert(out@ =~= to_sign_prefix() + challenge@);
    out
}

} // verus!
