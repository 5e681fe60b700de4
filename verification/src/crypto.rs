//! Keys and signatures of ECDSA over secp256k1, held as the numbers that
//! their standard byte encodings spell.
use vstd::prelude::*;
use ecdsa::signature::{Signer, Verifier};
use crate::u256::{lemma_u256_bytes_of_value, lemma_u256_round_trip, U256};

verus! {

/// The public key that belongs to the secret scalar spelt by `secret`, in
/// the compressed SEC1 encoding, or `None` where the bytes are no valid
/// secret scalar.
pub uninterp spec fn secp256k1_public(secret: Seq<u8>) -> Option<Seq<u8>>;

/// The deterministic ECDSA signature (RFC 6979, SHA-256) that the secret
/// scalar spelt by `secret` gives for `message`, as `r` followed by `s`, or
/// `None` where the bytes are no valid secret scalar or signing fails.
pub uninterp spec fn ecdsa_signature(secret: Seq<u8>, message: Seq<u8>) -> Option<Seq<u8>>;

/// Whether `signature` (`r` followed by `s`) is a valid ECDSA signature of
/// `message` under the SEC1-encoded public key `public_key`. False where
/// either does not parse.
pub uninterp spec fn ecdsa_accepts(
    public_key: Seq<u8>,
    message: Seq<u8>,
    signature: Seq<u8>,
) -> bool;

/// `SigningKey::random` with the thread's generator, then `to_bytes`. The
/// scalar is random. Trusted of every outcome: it is a valid secret scalar
/// (the crate draws again until the scalar is not zero, and every scalar
/// is below the order of the curve), so it has a public key.
#[verifier::external_body]
fn random_secret() -> (secret: [u8; 32])
    ensures
        secp256k1_public(secret@) is Some,
{
    ecdsa::SigningKey::<k256::Secp256k1>::random(&mut rand::thread_rng()).to_bytes().into()
}

/// `SigningKey::from_slice`, `verifying_key` and `to_sec1_bytes`. Trusted:
/// the result is a function of the bytes alone, named `secp256k1_public`;
/// a key has thirty-three bytes, as points of this curve are written
/// compressed: one byte for the parity, thirty-two for the x coordinate.
#[verifier::external_body]
fn derive_public(secret: &[u8]) -> (key: Option<Vec<u8>>)
    ensures
        match key {
            Some(k) => secp256k1_public(secret@) == Some(k@) && k@.len() == 33,
            None => secp256k1_public(secret@) is None,
        },
{
    let key = ecdsa::SigningKey::<k256::Secp256k1>::from_slice(secret).ok()?;
    Some(key.verifying_key().to_sec1_bytes().to_vec())
}

/// `SigningKey::from_slice`, `Signer::try_sign` and `Signature::to_vec`.
/// Trusted: the nonce is derived from key and message, so the result is a
/// function of the two, named `ecdsa_signature`.
#[verifier::external_body]
fn ecdsa_sign(secret: &[u8], message: &[u8]) -> (signature: Option<Vec<u8>>)
    ensures
        match signature {
            Some(s) => ecdsa_signature(secret@, message@) == Some(s@),
            None => ecdsa_signature(secret@, message@) is None,
        },
{
    let key = ecdsa::SigningKey::<k256::Secp256k1>::from_slice(secret).ok()?;
    let signature: ecdsa::Signature<k256::Secp256k1> = key.try_sign(message).ok()?;
    Some(signature.to_vec())
}

/// `VerifyingKey::from_sec1_bytes`, `Signature::from_slice` and
/// `Verifier::verify`. Trusted: the answer is a function of the three byte
/// strings, named `ecdsa_accepts`; a key or signature that does not parse is
/// answered with `false`.
#[verifier::external_body]
fn ecdsa_verify(public_key: &[u8], message: &[u8], signature: &[u8]) -> (ok: bool)
    ensures
        ok == ecdsa_accepts(public_key@, message@, signature@),
{
    let key = ecdsa::VerifyingKey::<k256::Secp256k1>::from_sec1_bytes(public_key);
    let signature = ecdsa::Signature::<k256::Secp256k1>::from_slice(signature);
    match (key, signature) {
        (Ok(k), Ok(s)) => k.verify(message, &s).is_ok(),
        _ => false,
    }
}

/// An ECDSA signature: the two scalars `r` and `s`.
#[derive(Clone, Copy, Debug, PartialEq, Eq, Structural)]
pub struct Signature {
    pub r: U256,
    pub s: U256,
}

/// A public key in compressed form: the parity prefix (2 or 3 for a point on
/// the curve) and the x coordinate.
#[derive(Clone, Copy, Debug, PartialEq, Eq, Structural)]
pub struct PublicKey {
    pub prefix: u8,
    pub x: U256,
}

/// A private key: the secret scalar.
#[derive(Clone, Copy, Debug, PartialEq, Eq)]
pub struct PrivateKey {
    pub scalar: U256,
}

impl Signature {
    /// The sixty-four bytes of the signature: `r`, then `s`.
    #[verifier::opaque]
    pub open spec fn encoding(self) -> Seq<u8> {
        self.r.encoding() + self.s.encoding()
    }

    /// The signature that sixty-four bytes spell; none for another length.
    pub open spec fn parse(bytes: Seq<u8>) -> Option<Signature> {
        if bytes.len() == 64 {
            Some(Signature { r: U256::parse(bytes), s: U256::parse(bytes.skip(32)) })
        } else {
            None
        }
    }

    /// The signature at the front of `s`.
    #[verifier::opaque]
    pub open spec fn at_front(s: Seq<u8>) -> Signature {
        Signature { r: U256::parse(s), s: U256::parse(s.skip(32)) }
    }

    /// Reading back the bytes of a signature gives the signature, whatever
    /// follows them.
    pub proof fn lemma_round_trip(self, rest: Seq<u8>)
        ensures
            self.encoding().len() == 64,
            Signature::at_front(self.encoding() + rest) == self,
    {
        reveal(Signature::encoding);
        reveal(Signature::at_front);
        let s = self.encoding() + rest;
        lemma_u256_round_trip(self.r, self.s.encoding() + rest);
        lemma_u256_round_trip(self.s, rest);
        assert(s =~= self.r.encoding() + (self.s.encoding() + rest));
        assert(s.skip(32) =~= self.s.encoding() + rest);
    }

    /// Reads the signature that stands at `at` in `data`.
    pub fn read(data: &[u8], at: usize) -> (r: Signature)
        requires
            at + 64 <= data.len(),
        ensures
            r == Signature::at_front(data@.skip(at as int)),
    {
        reveal(Signature::at_front);
        let r = U256::read(data, at);
        let s = U256::read(data, at + 32);
        assert(data@.skip(at as int).skip(32) =~= data@.skip(at + 32));
        Signature { r, s }
    }

    /// What `sign_output` returns: the signature named `ecdsa_signature` for
    /// the key's scalar and the bytes of the hash, least significant first.
    pub open spec fn signing(output_hash: crate::sha256::Hash, private_key: PrivateKey) -> Option<Signature> {
        match ecdsa_signature(private_key.scalar.encoding(), output_hash.le_bytes()) {
            Some(bytes) => Signature::parse(bytes),
            None => None,
        }
    }

    /// Whether the signature verifies for `output_hash` under `public_key`.
    pub open spec fn verifies(self, output_hash: crate::sha256::Hash, public_key: PublicKey) -> bool {
        ecdsa_accepts(public_key.encoding(), output_hash.le_bytes(), self.encoding())
    }

    /// The signature that `bytes` spell, `r` first; `None` unless there are
    /// exactly sixty-four of them.
    pub fn from_bytes(bytes: &[u8]) -> (r: Option<Signature>)
        ensures
            r == Signature::parse(bytes@),
    {
        if bytes.len() == 64 {
            let r = U256::read(bytes, 0);
            let s = U256::read(bytes, 32);
            assert(bytes@.skip(0) =~= bytes@);
            Some(Signature { r, s })
        } else {
            None
        }
    }

    /// The sixty-four bytes of the signature.
    pub fn to_bytes(&self) -> (bytes: Vec<u8>)
        ensures
            bytes@ == self.encoding(),
    {
        reveal(Signature::encoding);
        let mut out: Vec<u8> = Vec::new();
        self.r.encode_into(&mut out);
        self.s.encode_into(&mut out);
        assert(out@ =~= self.encoding());
        out
    }

    /// Signs the hash of an output with the key that owns it. `None` where
    /// the key is no valid scalar or signing fails.
    pub fn sign_output(output_hash: &crate::sha256::Hash, private_key: &PrivateKey) -> (r: Option<Signature>)
        ensures
            r == Signature::signing(*output_hash, *private_key),
    {
        let message = output_hash.as_bytes();
        let secret = private_key.scalar.to_be_bytes();
        match ecdsa_sign(secret.as_slice(), message.as_slice()) {
            Some(bytes) => Signature::from_bytes(bytes.as_slice()),
            None => None,
        }
    }

    /// Whether the signature is valid for `output_hash` under `public_key`.
    /// A malformed key or signature gives `false`, never a failure.
    pub fn verify(&self, output_hash: &crate::sha256::Hash, public_key: &PublicKey) -> (ok: bool)
        ensures
            ok == self.verifies(*output_hash, *public_key),
    {
        let message = output_hash.as_bytes();
        let key = public_key.to_bytes();
        let signature = self.to_bytes();
        ecdsa_verify(key.as_slice(), message.as_slice(), signature.as_slice())
    }
}

impl PublicKey {
    /// The thirty-three bytes of the key: the prefix, then the x coordinate.
    #[verifier::opaque]
    pub open spec fn encoding(self) -> Seq<u8> {
        seq![self.prefix] + self.x.encoding()
    }

    /// The key that thirty-three bytes spell; none for another length.
    pub open spec fn parse(bytes: Seq<u8>) -> Option<PublicKey> {
        if bytes.len() == 33 {
            Some(PublicKey { prefix: bytes[0], x: U256::parse(bytes.skip(1)) })
        } else {
            None
        }
    }

    /// The key at the front of `s`.
    #[verifier::opaque]
    pub open spec fn at_front(s: Seq<u8>) -> PublicKey {
        PublicKey { prefix: s[0], x: U256::parse(s.skip(1)) }
    }

    /// Reading back the bytes of a key gives the key, whatever follows them.
    pub proof fn lemma_round_trip(self, rest: Seq<u8>)
        ensures
            self.encoding().len() == 33,
            PublicKey::at_front(self.encoding() + rest) == self,
    {
        reveal(PublicKey::encoding);
        reveal(PublicKey::at_front);
        let s = self.encoding() + rest;
        lemma_u256_round_trip(self.x, rest);
        assert(s =~= seq![self.prefix] + (self.x.encoding() + rest));
        assert(s.skip(1) =~= self.x.encoding() + rest);
    }

    /// Reads the key that stands at `at` in `data`.
    pub fn read(data: &[u8], at: usize) -> (r: PublicKey)
        requires
            at + 33 <= data.len(),
        ensures
            r == PublicKey::at_front(data@.skip(at as int)),
    {
        reveal(PublicKey::at_front);
        let prefix = data[at];
        let x = U256::read(data, at + 1);
        assert(data@.skip(at as int).skip(1) =~= data@.skip(at + 1));
        PublicKey { prefix, x }
    }

    /// The key that `bytes` spell in compressed SEC1 form; `None` unless
    /// there are exactly thirty-three of them. Whether the point lies on the
    /// curve is found out when a signature is verified.
    pub fn from_bytes(bytes: &[u8]) -> (r: Option<PublicKey>)
        ensures
            r == PublicKey::parse(bytes@),
    {
        if bytes.len() == 33 {
            Some(PublicKey { prefix: bytes[0], x: U256::read(bytes, 1) })
        } else {
            None
        }
    }

    /// The thirty-three bytes of the key.
    pub fn to_bytes(&self) -> (bytes: Vec<u8>)
        ensures
            bytes@ == self.encoding(),
    {
        reveal(PublicKey::encoding);
        let mut out: Vec<u8> = Vec::new();
        out.push(self.prefix);
        self.x.encode_into(&mut out);
        assert(out@ =~= self.encoding());
        out
    }
}

impl PrivateKey {
    /// The public key of a private key, as the outside crate derives it.
    pub open spec fn public(self) -> Option<PublicKey> {
        match secp256k1_public(self.scalar.encoding()) {
            Some(bytes) => PublicKey::parse(bytes),
            None => None,
        }
    }

    /// Whether the scalar is a valid secret: not zero and below the order of
    /// the curve, so that the outside crate derives a public key from it.
    pub open spec fn is_valid(self) -> bool {
        secp256k1_public(self.scalar.encoding()) is Some
    }

    /// A fresh random key. Whatever scalar was drawn, it is a valid secret.
    pub fn new_key() -> (key: PrivateKey)
        ensures
            key.is_valid(),
    {
        let secret = random_secret();
        let scalar = U256::read(secret.as_slice(), 0);
        proof {
            assert(secret@.skip(0) =~= secret@);
            assert(secret@.take(32) =~= secret@);
            lemma_u256_bytes_of_value(secret@);
        }
        PrivateKey { scalar }
    }

    /// The key with the given secret scalar.
    pub fn from_scalar(scalar: U256) -> (key: PrivateKey)
        ensures
            key.scalar == scalar,
    {
        PrivateKey { scalar }
    }

    /// The public key that verifies this key's signatures. `None` where the
    /// scalar is zero or not below the order of the curve, and only there.
    pub fn public_key(&self) -> (r: Option<PublicKey>)
        ensures
            r == self.public(),
            r is Some <==> self.is_valid(),
    {
        let secret = self.scalar.to_be_bytes();
        match derive_public(secret.as_slice()) {
            Some(bytes) => PublicKey::from_bytes(bytes.as_slice()),
            None => None,
        }
    }
}

} // verus!
