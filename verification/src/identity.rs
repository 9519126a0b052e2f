use vstd::prelude::*;
use rand::TryRng;
use crate::codec::SECRET_KEY_LENGTH;
use crate::codec::decode_identity_bytes;
use crate::codec::decodes_to;
use crate::codec::encode_identity_bytes;
use crate::codec::encoded_identity;
use crate::codec::strip_ws;
use crate::errors::IdentityError;

verus! {

/// The verifying-key bytes that the Ed25519 key schedule derives from 32 secret bytes.
pub uninterp spec fn verifying_key_of(secret: Seq<u8>) -> Seq<u8>;

/// Whether 32 bytes decode as a verifying key, that is, as a valid compressed
/// curve point.
pub uninterp spec fn is_valid_verifying_key(public: Seq<u8>) -> bool;

/// The textual (base-58) form of identifier bytes, `None` when the bytes are not a
/// well-formed identifier.
pub uninterp spec fn peer_display_of(peer_id: Seq<u8>) -> Option<Seq<u8>>;

/// The network identifier of a verifying key: the identity multihash (code 0,
/// length 36) of the fixed protobuf encoding (key type 1, then 32 key bytes).
pub open spec fn peer_id_encoding(public: Seq<u8>) -> Seq<u8> {
    seq![0u8, 36u8, 8u8, 1u8, 18u8, 32u8] + public
}

/// Relies on rand's SysRng, the operating system's entropy source: fills a buffer
/// with random bytes, or reports failure; nothing can be said about the values
/// drawn.
#[verifier::external_body]
fn random_bytes_32() -> (r: Result<Vec<u8>, IdentityError>)
    ensures
        (match r {
            Ok(buf) => buf@.len() == SECRET_KEY_LENGTH,
            Err(e) => e == IdentityError::IoFailure,
        }),
{
    let mut buf = vec![0u8; SECRET_KEY_LENGTH];
    match rand::rngs::SysRng.try_fill_bytes(&mut buf) {
        Ok(()) => Ok(buf),
        Err(_) => Err(IdentityError::IoFailure),
    }
}

/// Relies on ed25519_dalek::SigningKey::{from_bytes, verifying_key}: the 32
/// verifying-key bytes are a function of the 32 secret bytes alone, and, being the
/// compression of a curve point, always decode back as a verifying key.
#[verifier::external_body]
fn derive_verifying_key(secret: &Vec<u8>) -> (r: Vec<u8>)
    requires
        secret@.len() == SECRET_KEY_LENGTH,
    ensures
        r@ == verifying_key_of(secret@),
        r@.len() == SECRET_KEY_LENGTH,
        is_valid_verifying_key(r@),
{
    let mut sk = [0u8; 32];
    sk.copy_from_slice(&secret[..]);
    let signing = ed25519_dalek::SigningKey::from_bytes(&sk);
    signing.verifying_key().to_bytes().to_vec()
}

/// Relies on libp2p_identity's ed25519::PublicKey::try_from_bytes and
/// PeerId::{from_public_key, to_bytes}: the conversion fails exactly when the
/// bytes are not a valid compressed curve point, and a successful identifier is
/// the identity multihash of the fixed protobuf encoding of the key bytes.
#[verifier::external_body]
fn derive_peer_id(public: &Vec<u8>) -> (r: Result<Vec<u8>, IdentityError>)
    requires
        public@.len() == SECRET_KEY_LENGTH,
    ensures
        (match r {
            Ok(id) => is_valid_verifying_key(public@) && id@ == peer_id_encoding(public@),
            Err(e) => !is_valid_verifying_key(public@) && e
                == IdentityError::KeyConversionFailure,
        }),
{
    match libp2p::identity::ed25519::PublicKey::try_from_bytes(public.as_slice()) {
        Ok(pk) => {
            let key = libp2p::identity::PublicKey::from(pk);
            Ok(libp2p::PeerId::from_public_key(&key).to_bytes())
        },
        Err(_) => Err(IdentityError::KeyConversionFailure),
    }
}

/// Relies on libp2p_identity's PeerId::{from_bytes, to_base58}: the textual form is
/// a function of the identifier bytes alone, and parsing fails exactly when the
/// bytes are not a well-formed identifier.
#[verifier::external_body]
pub(crate) fn peer_id_base58(peer_id: &Vec<u8>) -> (r: Result<Vec<u8>, IdentityError>)
    ensures
        (match r {
            Ok(t) => peer_display_of(peer_id@) == Some(t@),
            Err(e) => peer_display_of(peer_id@) is None && e == IdentityError::KeyConversionFailure,
        }),
{
    match libp2p::PeerId::from_bytes(peer_id.as_slice()) {
        Ok(p) => Ok(p.to_base58().into_bytes()),
        Err(_) => Err(IdentityError::KeyConversionFailure),
    }
}

#[verifier::external_type_specification]
#[verifier::external_body]
pub struct ExKeypair(libp2p::identity::Keypair);

/// Relies on libp2p_identity's ed25519::Keypair::try_from_bytes, backed by
/// ed25519_dalek::SigningKey::from_keypair_bytes: it succeeds exactly when the last
/// 32 bytes equal the verifying key derived from the first 32.
#[verifier::external_body]
fn keypair_from_bytes(bytes: &Vec<u8>) -> (r: Result<libp2p::identity::Keypair, IdentityError>)
    requires
        bytes@.len() == 64,
    ensures
        (match r {
            Ok(_) => bytes@.subrange(32, 64) == verifying_key_of(bytes@.subrange(0, 32)),
            Err(e) => bytes@.subrange(32, 64) != verifying_key_of(bytes@.subrange(0, 32)) && e
                == IdentityError::KeyConversionFailure,
        }),
{
    let mut kp = [0u8; 64];
    kp.copy_from_slice(&bytes[..]);
    match libp2p::identity::ed25519::Keypair::try_from_bytes(&mut kp) {
        Ok(k) => Ok(libp2p::identity::Keypair::from(k)),
        Err(_) => Err(IdentityError::KeyConversionFailure),
    }
}

/// The node's cryptographic identity: secret signing-key bytes, the verifying-key
/// bytes derived from them, and the stable network identifier derived from those.
#[derive(Debug, Clone)]
pub struct NodeIdentity {
    pub signing_key: Vec<u8>,
    pub verifying_key: Vec<u8>,
    pub peer_id: Vec<u8>,
}

impl NodeIdentity {
    /// The construction invariant: every field is derived from the secret bytes.
    pub open spec fn wf(&self) -> bool {
        &&& self.signing_key@.len() == SECRET_KEY_LENGTH
        &&& self.verifying_key@.len() == SECRET_KEY_LENGTH
        &&& self.verifying_key@ == verifying_key_of(self.signing_key@)
        &&& is_valid_verifying_key(self.verifying_key@)
        &&& self.peer_id@ == peer_id_encoding(self.verifying_key@)
    }

    /// Builds the identity determined by 32 secret bytes; this never fails, since a
    /// derived verifying key is always a valid key.
    pub fn from_secret_bytes(secret: Vec<u8>) -> (r: Result<NodeIdentity, IdentityError>)
        requires
            secret@.len() == SECRET_KEY_LENGTH,
        ensures
            r is Ok,
            (r matches Ok(id) ==> id.wf() && id.signing_key@ == secret@),
    {
        let verifying_key = derive_verifying_key(&secret);
        match derive_peer_id(&verifying_key) {
            Ok(peer_id) => Ok(
                NodeIdentity { signing_key: secret, verifying_key, peer_id },
            ),
            Err(e) => Err(e),
        }
    }

    /// Generates a fresh identity from random bytes without touching storage;
    /// fails only when the system's entropy source does.
    pub fn generate_ephemeral() -> (r: Result<NodeIdentity, IdentityError>)
        ensures
            (r matches Ok(id) ==> id.wf()),
            r is Err ==> r == Err::<NodeIdentity, IdentityError>(IdentityError::IoFailure),
    {
        match random_bytes_32() {
            Ok(secret) => Self::from_secret_bytes(secret),
            Err(e) => Err(e),
        }
    }

    /// Serializes the identity into its persisted form.
    pub fn save_to_bytes(&self) -> (out: Vec<u8>)
        requires
            self.signing_key@.len() == SECRET_KEY_LENGTH,
        ensures
            out@ == encoded_identity(self.signing_key@),
    {
        encode_identity_bytes(&self.signing_key)
    }

    /// Reconstructs an identity from its persisted form (whitespace between tokens
    /// permitted); malformed bytes are a serialization failure, and nothing else
    /// can fail.
    pub fn load_from_bytes(bytes: &Vec<u8>) -> (r: Result<NodeIdentity, IdentityError>)
        ensures
            (r matches Ok(id) ==> id.wf() && decodes_to(strip_ws(bytes@, false), id.signing_key@)),
            forall|s: Seq<u8>|
                decodes_to(strip_ws(bytes@, false), s) ==> (r matches Ok(id) && id.signing_key@
                    == s),
            r matches Err(e) ==> e == IdentityError::SerializationFailure && (forall|s: Seq<u8>|
                !decodes_to(strip_ws(bytes@, false), s)),
    {
        match decode_identity_bytes(bytes) {
            Ok(secret) => Self::from_secret_bytes(secret),
            Err(e) => Err(e),
        }
    }

    /// The stable network identifier bytes of this node.
    pub fn peer_id(&self) -> (r: Vec<u8>)
        ensures
            r@ == self.peer_id@,
    {
        crate::codec::clone_bytes(&self.peer_id)
    }

    /// The verifying-key bytes of this node.
    pub fn pub_key_bytes(&self) -> (r: Vec<u8>)
        ensures
            r@ == self.verifying_key@,
    {
        crate::codec::clone_bytes(&self.verifying_key)
    }

    /// The 64-byte key-pair form handed to the transport conversion: the secret
    /// bytes followed by the verifying-key bytes.
    pub fn keypair_bytes(&self) -> (out: Vec<u8>)
        ensures
            out@ == self.signing_key@ + self.verifying_key@,
    {
        let mut out = crate::codec::clone_bytes(&self.signing_key);
        out.extend_from_slice(self.verifying_key.as_slice());
        proof {
            assert forall|i: int| 0 <= i < self.verifying_key@.len() implies out@[
                self.signing_key@.len() + i
            ] == self.verifying_key@[i] by {
                assert(vstd::pervasive::cloned::<u8>(
                    self.verifying_key@[i],
                    out@[self.signing_key@.len() + i],
                ));
            }
            assert(out@ =~= self.signing_key@ + self.verifying_key@);
        }
        out
    }

    /// Converts the identity into the key-pair representation the transport stack
    /// needs; on a well-formed identity this never fails.
    pub fn to_lp2p_keypair(&self) -> (r: Result<libp2p::identity::Keypair, IdentityError>)
        ensures
            self.wf() ==> r is Ok,
            r matches Err(e) ==> e == IdentityError::KeyConversionFailure,
    {
        if self.signing_key.len() != 32 || self.verifying_key.len() != 32 {
            return Err(IdentityError::KeyConversionFailure);
        }
        let kp_bytes = self.keypair_bytes();
        proof {
            assert(kp_bytes@.subrange(0, 32) =~= self.signing_key@);
            assert(kp_bytes@.subrange(32, 64) =~= self.verifying_key@);
        }
        keypair_from_bytes(&kp_bytes)
    }
}

/// Identity round trip: the persisted form of a well-formed identity decodes back to
/// exactly its secret bytes, reloading it cannot fail, and any well-formed identity
/// rebuilt from that secret carries the same verifying key and the same identifier.
pub proof fn lemma_identity_round_trip(id: NodeIdentity, reloaded: NodeIdentity)
    requires
        id.wf(),
        reloaded.wf(),
        reloaded.signing_key@ == id.signing_key@,
    ensures
        decodes_to(encoded_identity(id.signing_key@), id.signing_key@),
        strip_ws(encoded_identity(id.signing_key@), false) == encoded_identity(id.signing_key@),
        reloaded.verifying_key@ == id.verifying_key@,
        reloaded.peer_id@ == id.peer_id@,
{
    crate::codec::lemma_encoded_identity_no_ws(id.signing_key@);
}

/// Deterministic derivation: the verifying key is a pure function of the secret
/// bytes, and the identifier is a pure function of the verifying key.
pub proof fn lemma_deterministic_derivation(a: NodeIdentity, b: NodeIdentity)
    requires
        a.wf(),
        b.wf(),
    ensures
        a.signing_key@ == b.signing_key@ ==> a.verifying_key@ == b.verifying_key@,
        a.verifying_key@ == b.verifying_key@ ==> a.peer_id@ == b.peer_id@,
{
}

} // verus!
