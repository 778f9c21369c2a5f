//! Hashing and signing: BLAKE2b-256 with domain separation for the tree, and
//! ed25519 for the signature over its roots.

use blake2::digest::consts::U32;
use blake2::{Blake2b, Digest};
use vstd::bytes::{spec_u64_to_le_bytes, u64_to_le_bytes};
use vstd::prelude::*;

use crate::common::append_bytes;

verus! {

/// Domain tag of a leaf hash.
pub const LEAF_TYPE: u8 = 0;

/// Domain tag of a parent hash.
pub const PARENT_TYPE: u8 = 1;

/// Domain tag of the hash that is signed.
pub const ROOT_TYPE: u8 = 2;

/// Length in bytes of a hash.
pub const HASH_LENGTH: usize = 32;

/// Length in bytes of a public key and of a secret key.
pub const KEY_LENGTH: usize = 32;

/// Length in bytes of a signature.
pub const SIGNATURE_LENGTH: usize = 64;

/// The BLAKE2b digest of 256 bits of a byte string.
pub uninterp spec fn blake2b_256(data: Seq<u8>) -> Seq<u8>;

/// The ed25519 signature that a secret key, with the public key handed to
/// the signer, gives a message; `None` where the keys are not well formed.
pub uninterp spec fn ed25519_signature(secret: Seq<u8>, public: Seq<u8>, message: Seq<u8>) -> Option<Seq<u8>>;

/// Whether a signature on a message verifies under a public key; false also
/// where the key or the signature is not well formed.
pub uninterp spec fn ed25519_verifies(public: Seq<u8>, message: Seq<u8>, signature: Seq<u8>) -> bool;

/// Whether bytes are a public key: 32 bytes that are the compressed form of
/// a point of the curve.
pub uninterp spec fn ed25519_public_key(bytes: Seq<u8>) -> bool;

/// Hashes `data` with `blake2::Blake2b` at an output size of 32 bytes. The
/// digest depends on the input alone and is always 32 bytes long.
#[verifier::external_body]
fn blake2b_digest(data: &[u8]) -> (digest: Vec<u8>)
    ensures
        digest@ == blake2b_256(data@),
        digest@.len() == 32,
{
    let mut hasher = Blake2b::<U32>::new();
    hasher.update(data);
    hasher.finalize().to_vec()
}

/// Signs with `ed25519_dalek::ExpandedSecretKey::sign`, after parsing both
/// keys with their `from_bytes`. The signature is deterministic and 64 bytes
/// long; parsing fails on keys of the wrong length and on a public key that
/// is no curve point.
#[verifier::external_body]
fn ed25519_sign(secret: &[u8], public: &[u8], message: &[u8]) -> (signature: Option<Vec<u8>>)
    ensures
        signature matches Some(s) ==> s@.len() == 64,
        (match signature {
            Some(s) => Some(s@),
            None => None,
        }) == ed25519_signature(secret@, public@, message@),
{
    let secret = ed25519_dalek::SecretKey::from_bytes(secret).ok()?;
    let public = ed25519_dalek::PublicKey::from_bytes(public).ok()?;
    let expanded = ed25519_dalek::ExpandedSecretKey::from(&secret);
    Some(expanded.sign(message, &public).to_bytes().to_vec())
}

/// Verifies with `ed25519_dalek::PublicKey::verify`, after parsing the key
/// and the signature with their `from_bytes`; a parse failure counts as a
/// failed verification, and only 64 bytes parse as a signature.
#[verifier::external_body]
fn ed25519_verify(public: &[u8], message: &[u8], signature: &[u8]) -> (valid: bool)
    ensures
        valid == ed25519_verifies(public@, message@, signature@),
        valid ==> signature@.len() == 64,
{
    let public = ed25519_dalek::PublicKey::from_bytes(public);
    let signature = ed25519_dalek::Signature::from_bytes(signature);
    match (public, signature) {
        (Ok(public), Ok(signature)) => ed25519_dalek::Verifier::verify(&public, message, &signature).is_ok(),
        _ => false,
    }
}

/// Parses a public key with `ed25519_dalek::PublicKey::from_bytes`, which
/// refuses what is not 32 bytes long and what does not decompress to a
/// point of the curve; whether it does depends on the bytes alone.
#[verifier::external_body]
fn ed25519_parses(bytes: &[u8]) -> (parses: bool)
    ensures
        parses == ed25519_public_key(bytes@),
        parses ==> bytes@.len() == 32,
{
    ed25519_dalek::PublicKey::from_bytes(bytes).is_ok()
}

/// Draws a key pair with `ed25519_dalek::Keypair::generate` from the
/// operating system's random source: the public key first, then the secret
/// key, 32 bytes each. The public key is the compressed form of the point
/// that the secret key gives, so it is one that parses.
#[verifier::external_body]
fn ed25519_generate() -> (pair: (Vec<u8>, Vec<u8>))
    ensures
        pair.0@.len() == 32,
        pair.1@.len() == 32,
        ed25519_public_key(pair.0@),
{
    let keypair = ed25519_dalek::Keypair::generate(&mut rand::rngs::OsRng);
    (keypair.public.to_bytes().to_vec(), keypair.secret.to_bytes().to_vec())
}

/// A public key: 32 bytes that are a point of the curve.
#[derive(Debug)]
pub struct PublicKey {
    bytes: Vec<u8>,
}

/// A secret key: 32 bytes.
#[derive(Debug)]
pub struct SecretKey {
    bytes: Vec<u8>,
}

impl View for PublicKey {
    type V = Seq<u8>;

    closed spec fn view(&self) -> Seq<u8> {
        self.bytes@
    }
}

impl View for SecretKey {
    type V = Seq<u8>;

    closed spec fn view(&self) -> Seq<u8> {
        self.bytes@
    }
}

impl PublicKey {
    /// A public key is 32 bytes long and parses as one.
    #[verifier::type_invariant]
    pub open spec fn well_formed(&self) -> bool {
        self@.len() == 32 && ed25519_public_key(self@)
    }

    /// Takes a key from its 32 bytes; `None` on any other length and on
    /// bytes that are no point of the curve.
    pub fn from_bytes(bytes: &[u8]) -> (key: Option<PublicKey>)
        ensures
            key is Some <==> bytes@.len() == 32 && ed25519_public_key(bytes@),
            key matches Some(k) ==> k@ == bytes@,
    {
        if bytes.len() == KEY_LENGTH && ed25519_parses(bytes) {
            let mut copy: Vec<u8> = Vec::new();
            append_bytes(&mut copy, bytes);
            Some(PublicKey { bytes: copy })
        } else {
            None
        }
    }

    /// The key's 32 bytes.
    pub fn as_bytes(&self) -> (bytes: &Vec<u8>)
        ensures
            bytes@ == self@,
            bytes@.len() == 32,
            ed25519_public_key(bytes@),
    {
        proof {
            use_type_invariant(self);
        }
        &self.bytes
    }
}

impl Clone for PublicKey {
    fn clone(&self) -> (copy: PublicKey)
        ensures
            copy@ == self@,
    {
        proof {
            use_type_invariant(self);
        }
        let mut bytes: Vec<u8> = Vec::new();
        append_bytes(&mut bytes, self.bytes.as_slice());
        PublicKey { bytes }
    }
}

impl SecretKey {
    /// A secret key is 32 bytes long.
    #[verifier::type_invariant]
    pub open spec fn well_formed(&self) -> bool {
        self@.len() == 32
    }

    /// Takes a key from its 32 bytes; `None` on any other length.
    pub fn from_bytes(bytes: &[u8]) -> (key: Option<SecretKey>)
        ensures
            key is Some <==> bytes@.len() == 32,
            key matches Some(k) ==> k@ == bytes@,
    {
        if bytes.len() == KEY_LENGTH {
            let mut copy: Vec<u8> = Vec::new();
            append_bytes(&mut copy, bytes);
            Some(SecretKey { bytes: copy })
        } else {
            None
        }
    }

    /// The key's 32 bytes.
    pub fn as_bytes(&self) -> (bytes: &Vec<u8>)
        ensures
            bytes@ == self@,
            bytes@.len() == 32,
    {
        proof {
            use_type_invariant(self);
        }
        &self.bytes
    }
}

impl Clone for SecretKey {
    fn clone(&self) -> (copy: SecretKey)
        ensures
            copy@ == self@,
    {
        proof {
            use_type_invariant(self);
        }
        let mut bytes: Vec<u8> = Vec::new();
        append_bytes(&mut bytes, self.bytes.as_slice());
        SecretKey { bytes }
    }
}

/// A public key with, for the writer, its secret key.
#[derive(Debug)]
pub struct PartialKeypair {
    /// The key that readers verify with.
    pub public: PublicKey,
    /// The key that the writer signs with.
    pub secret: Option<SecretKey>,
}

impl Clone for PartialKeypair {
    fn clone(&self) -> (copy: PartialKeypair)
        ensures
            copy.public@ == self.public@,
            copy.secret is Some == self.secret is Some,
            copy.secret matches Some(k) ==> k@ == self.secret->0@,
    {
        let secret = match &self.secret {
            Some(key) => Some(key.clone()),
            None => None,
        };
        PartialKeypair { public: self.public.clone(), secret }
    }
}

/// Draws a fresh key pair; nothing is known of it but that it holds both
/// keys.
pub fn generate_keypair() -> (pair: PartialKeypair)
    ensures
        pair.public@.len() == 32,
        ed25519_public_key(pair.public@),
        pair.secret matches Some(key) && key@.len() == 32,
{
    let (public, secret) = ed25519_generate();
    PartialKeypair { public: PublicKey { bytes: public }, secret: Some(SecretKey { bytes: secret }) }
}

/// Signs `message`; `None` where the signer rejects the keys.
pub fn sign(public: &PublicKey, secret: &SecretKey, message: &[u8]) -> (signature: Option<Vec<u8>>)
    ensures
        signature matches Some(s) ==> s@.len() == 64,
        (match signature {
            Some(s) => Some(s@),
            None => None,
        }) == ed25519_signature(secret@, public@, message@),
{
    ed25519_sign(secret.as_bytes().as_slice(), public.as_bytes().as_slice(), message)
}

/// Whether `signature` is a signature of `message` under `public`.
pub fn verify(public: &PublicKey, message: &[u8], signature: &[u8]) -> (valid: bool)
    ensures
        valid == ed25519_verifies(public@, message@, signature@),
        valid ==> signature@.len() == 64,
{
    ed25519_verify(public.as_bytes().as_slice(), message, signature)
}

/// What is hashed for a leaf: the leaf tag, the block's length in eight
/// little-endian bytes, and the block.
pub open spec fn leaf_preimage(data: Seq<u8>) -> Seq<u8> {
    seq![LEAF_TYPE] + spec_u64_to_le_bytes(data.len() as u64) + data
}

/// Hash of the leaf over a block.
pub open spec fn leaf_digest(data: Seq<u8>) -> Seq<u8> {
    blake2b_256(leaf_preimage(data))
}

/// What is hashed for a parent: the parent tag, the byte length under it in
/// eight little-endian bytes, and the hashes of its two children.
pub open spec fn parent_preimage(length: u64, left: Seq<u8>, right: Seq<u8>) -> Seq<u8> {
    seq![PARENT_TYPE] + spec_u64_to_le_bytes(length) + left + right
}

/// Hash of a parent with the given children.
pub open spec fn parent_digest(length: u64, left: Seq<u8>, right: Seq<u8>) -> Seq<u8> {
    blake2b_256(parent_preimage(length, left, right))
}

/// What is hashed for signing: the root tag, the block count and the fork,
/// eight little-endian bytes each, and the hashes of the roots in order.
pub open spec fn root_preimage(length: u64, fork: u64, root_hashes: Seq<u8>) -> Seq<u8> {
    seq![ROOT_TYPE] + spec_u64_to_le_bytes(length) + spec_u64_to_le_bytes(fork) + root_hashes
}

/// The hash that the writer signs.
pub open spec fn root_digest(length: u64, fork: u64, root_hashes: Seq<u8>) -> Seq<u8> {
    blake2b_256(root_preimage(length, fork, root_hashes))
}

/// Computes the hash of the leaf over `data`.
pub fn leaf_hash(data: &[u8]) -> (hash: Vec<u8>)
    ensures
        hash@ == leaf_digest(data@),
        hash@.len() == 32,
{
    let mut input: Vec<u8> = Vec::new();
    input.push(LEAF_TYPE);
    let length = u64_to_le_bytes(data.len() as u64);
    append_bytes(&mut input, length.as_slice());
    append_bytes(&mut input, data);
    blake2b_digest(input.as_slice())
}

/// Computes the hash of a parent over `length` bytes with the given children.
pub fn parent_hash(length: u64, left: &[u8], right: &[u8]) -> (hash: Vec<u8>)
    ensures
        hash@ == parent_digest(length, left@, right@),
        hash@.len() == 32,
{
    let mut input: Vec<u8> = Vec::new();
    input.push(PARENT_TYPE);
    let prefix = u64_to_le_bytes(length);
    append_bytes(&mut input, prefix.as_slice());
    append_bytes(&mut input, left);
    append_bytes(&mut input, right);
    blake2b_digest(input.as_slice())
}

/// Computes the hash to sign for `length` blocks at `fork` with the given
/// root hashes, concatenated in order.
pub fn root_hash(length: u64, fork: u64, root_hashes: &[u8]) -> (hash: Vec<u8>)
    ensures
        hash@ == root_digest(length, fork, root_hashes@),
        hash@.len() == 32,
{
    let mut input: Vec<u8> = Vec::new();
    input.push(ROOT_TYPE);
    let length_bytes = u64_to_le_bytes(length);
    append_bytes(&mut input, length_bytes.as_slice());
    let fork_bytes = u64_to_le_bytes(fork);
    append_bytes(&mut input, fork_bytes.as_slice());
    append_bytes(&mut input, root_hashes);
    blake2b_digest(input.as_slice())
}

} // verus!
