use crate::codec::{base64_bytes, base64_decode, hex_bytes, hex_decode, hex_encode, hex_text};
use crate::error::CryptoError;
use k256::ecdsa::signature::{RandomizedSigner, Verifier};
use k256::pkcs8::{DecodePrivateKey, DecodePublicKey, EncodePublicKey};
use sha2::Digest;
use vstd::prelude::*;

verus! {

/// Lowercase hex of the SHA-256 digest of the UTF-8 bytes of a text.
pub uninterp spec fn sha256_hex(data: Seq<char>) -> Seq<char>;

/// Whether k256 parses these bytes as a DER SubjectPublicKeyInfo of a secp256k1 key.
pub uninterp spec fn spki_key_valid(der: Seq<u8>) -> bool;

/// Whether k256 parses these bytes as a DER PKCS#8 secp256k1 private key.
pub uninterp spec fn pkcs8_key_valid(der: Seq<u8>) -> bool;

/// Whether k256 parses these bytes as a DER ECDSA signature.
pub uninterp spec fn der_signature_valid(der: Seq<u8>) -> bool;

/// Whether the signature verifies, under the public key, over the UTF-8 bytes of `msg`.
pub uninterp spec fn ecdsa_verifies(key_der: Seq<u8>, msg: Seq<char>, sig_der: Seq<u8>) -> bool;

/// The DER SubjectPublicKeyInfo of the public key that belongs to a DER PKCS#8
/// private key.
pub uninterp spec fn public_der_of(pkcs8: Seq<u8>) -> Seq<u8>;

/// The DER of the public key that a base64 text encodes, if it is one.
pub open spec fn public_key_der(text: Seq<char>) -> Option<Seq<u8>> {
    match base64_bytes(text) {
        Some(d) => if spki_key_valid(d) { Some(d) } else { None },
        None => None,
    }
}

/// The DER of the private key that a base64 text encodes, if it is one.
pub open spec fn private_key_der(text: Seq<char>) -> Option<Seq<u8>> {
    match base64_bytes(text) {
        Some(d) => if pkcs8_key_valid(d) { Some(d) } else { None },
        None => None,
    }
}

/// The DER of the signature that a hex text encodes, if it is one.
pub open spec fn signature_der(text: Seq<char>) -> Option<Seq<u8>> {
    match hex_bytes(text) {
        Some(d) => if der_signature_valid(d) { Some(d) } else { None },
        None => None,
    }
}

/// Whether the hex signature `sig` verifies over `msg` under the base64 key `key`.
pub open spec fn signed_by(msg: Seq<char>, sig: Seq<char>, key: Seq<char>) -> bool {
    match (public_key_der(key), signature_der(sig)) {
        (Some(k), Some(s)) => ecdsa_verifies(k, msg, s),
        _ => false,
    }
}

/// A secp256k1 public key, held as its DER SubjectPublicKeyInfo.
pub struct VerifyingKey {
    der: Vec<u8>,
}

impl VerifyingKey {
    pub closed spec fn der(&self) -> Seq<u8> {
        self.der@
    }

    pub closed spec fn wf(&self) -> bool {
        spki_key_valid(self.der@)
    }
}

/// A secp256k1 private key, held as its DER PKCS#8 document.
pub struct SigningKey {
    der: Vec<u8>,
}

impl SigningKey {
    pub closed spec fn der(&self) -> Seq<u8> {
        self.der@
    }

    pub closed spec fn wf(&self) -> bool {
        pkcs8_key_valid(self.der@)
    }
}

/// An ECDSA signature, held as its DER encoding.
#[derive(Debug)]
pub struct Signature {
    der: Vec<u8>,
}

impl Signature {
    pub closed spec fn der(&self) -> Seq<u8> {
        self.der@
    }
}

impl PartialEq for Signature {
    fn eq(&self, other: &Signature) -> (r: bool) {
        if self.der.len() != other.der.len() {
            return false;
        }
        let mut i: usize = 0;
        while i < self.der.len()
            invariant
                self.der.len() == other.der.len(),
                i <= self.der.len(),
                forall|j: int| 0 <= j < i ==> self.der@[j] == other.der@[j],
            decreases self.der.len() - i,
        {
            if self.der[i] != other.der[i] {
                return false;
            }
            i = i + 1;
        }
        proof {
            assert(self.der@ =~= other.der@);
        }
        true
    }
}

impl vstd::std_specs::cmp::PartialEqSpecImpl for Signature {
    open spec fn obeys_eq_spec() -> bool {
        true
    }

    open spec fn eq_spec(&self, other: &Signature) -> bool {
        self.der() == other.der()
    }
}

/// Relies on sha2::Sha256: the digest of the bytes, printed as lowercase hex.
#[verifier::external_body]
fn sha256(data: &str) -> (r: String)
    ensures
        r@ == sha256_hex(data@),
{
    format!("{:x}", sha2::Sha256::digest(data.as_bytes()))
}

/// Relies on k256's `PublicKey::from_public_key_der`: whether it accepts the bytes.
#[verifier::external_body]
fn spki_parses(der: &[u8]) -> (r: bool)
    ensures
        r == spki_key_valid(der@),
{
    k256::PublicKey::from_public_key_der(der).is_ok()
}

/// Relies on k256's `SecretKey::from_pkcs8_der`: whether it accepts the bytes.
#[verifier::external_body]
fn pkcs8_parses(der: &[u8]) -> (r: bool)
    ensures
        r == pkcs8_key_valid(der@),
{
    k256::SecretKey::from_pkcs8_der(der).is_ok()
}

/// Relies on k256's `Signature::from_der`: whether it accepts the bytes.
#[verifier::external_body]
fn signature_parses(der: &[u8]) -> (r: bool)
    ensures
        r == der_signature_valid(der@),
{
    k256::ecdsa::Signature::from_der(der).is_ok()
}

/// Relies on k256's `VerifyingKey::verify` (SHA-256 of the message, then ECDSA),
/// with the key and the signature read from their DER.
#[verifier::external_body]
fn ecdsa_verify(key_der: &[u8], msg: &str, sig_der: &[u8]) -> (r: bool)
    requires
        spki_key_valid(key_der@),
        der_signature_valid(sig_der@),
    ensures
        r == ecdsa_verifies(key_der@, msg@, sig_der@),
{
    match (k256::PublicKey::from_public_key_der(key_der), k256::ecdsa::Signature::from_der(sig_der)) {
        (Ok(key), Ok(sig)) => k256::ecdsa::VerifyingKey::from(key).verify(msg.as_bytes(), &sig).is_ok(),
        _ => false,
    }
}

/// Relies on k256's `SigningKey::sign_with_rng` with the system's random source:
/// a low-S signature over the SHA-256 of the message, which the matching public
/// key verifies; it comes back as DER.
#[verifier::external_body]
fn ecdsa_sign(key_der: &[u8], msg: &str) -> (r: Vec<u8>)
    requires
        pkcs8_key_valid(key_der@),
    ensures
        der_signature_valid(r@),
        ecdsa_verifies(public_der_of(key_der@), msg@, r@),
{
    match k256::SecretKey::from_pkcs8_der(key_der) {
        Ok(key) => {
            let key = k256::ecdsa::SigningKey::from(key);
            let sig: k256::ecdsa::Signature = key.sign_with_rng(&mut rand_core::OsRng, msg.as_bytes());
            sig.to_der().as_bytes().to_vec()
        },
        Err(_) => Vec::new(),
    }
}

/// Relies on k256's `SecretKey::public_key` and `EncodePublicKey::to_public_key_der`:
/// the DER SubjectPublicKeyInfo of the private key's public key.
#[verifier::external_body]
fn public_der(key_der: &[u8]) -> (r: Vec<u8>)
    requires
        pkcs8_key_valid(key_der@),
    ensures
        r@ == public_der_of(key_der@),
{
    match k256::SecretKey::from_pkcs8_der(key_der) {
        Ok(key) => match key.public_key().to_public_key_der() {
            Ok(doc) => doc.as_bytes().to_vec(),
            Err(_) => Vec::new(),
        },
        Err(_) => Vec::new(),
    }
}

/// Stateless operations on keys, signatures and digests.
pub struct Utils {}

impl Utils {
    /// Whether `signature` verifies over the UTF-8 bytes of `data` under `verifying_key`.
    pub fn verify_signature(data: &str, signature: &Signature, verifying_key: &VerifyingKey) -> (r: bool)
        requires
            verifying_key.wf(),
        ensures
            r == (der_signature_valid(signature.der()) && ecdsa_verifies(
                verifying_key.der(),
                data@,
                signature.der(),
            )),
    {
        if !signature_parses(signature.der.as_slice()) {
            return false;
        }
        ecdsa_verify(verifying_key.der.as_slice(), data, signature.der.as_slice())
    }

    /// Signs the UTF-8 bytes of `data`; the signature is randomized.
    pub fn sign_data(data: &str, signing_key: &SigningKey) -> (r: Signature)
        requires
            signing_key.wf(),
        ensures
            der_signature_valid(r.der()),
            ecdsa_verifies(public_der_of(signing_key.der()), data@, r.der()),
    {
        Signature { der: ecdsa_sign(signing_key.der.as_slice(), data) }
    }

    /// The public key that belongs to a private key.
    pub fn verifying_key_of(signing_key: &SigningKey) -> (r: Result<VerifyingKey, CryptoError>)
        requires
            signing_key.wf(),
        ensures
            r is Ok <==> spki_key_valid(public_der_of(signing_key.der())),
            match r {
                Ok(k) => k.wf() && k.der() == public_der_of(signing_key.der()),
                Err(e) => e == CryptoError::BadEncoding,
            },
    {
        let der = public_der(signing_key.der.as_slice());
        if spki_parses(der.as_slice()) {
            Ok(VerifyingKey { der })
        } else {
            Err(CryptoError::BadEncoding)
        }
    }

    /// Reads a public key from base64 of its DER SubjectPublicKeyInfo.
    pub fn get_verifying_key(key: &str) -> (r: Result<VerifyingKey, CryptoError>)
        ensures
            match r {
                Ok(k) => k.wf() && public_key_der(key@) == Some(k.der()),
                Err(e) => e == CryptoError::BadEncoding && public_key_der(key@) is None,
            },
    {
        match base64_decode(key) {
            Some(der) => {
                if spki_parses(der.as_slice()) {
                    Ok(VerifyingKey { der })
                } else {
                    Err(CryptoError::BadEncoding)
                }
            },
            None => Err(CryptoError::BadEncoding),
        }
    }

    /// Reads a private key from base64 of its DER PKCS#8 document.
    pub fn get_signing_key(key: &str) -> (r: Result<SigningKey, CryptoError>)
        ensures
            match r {
                Ok(k) => k.wf() && private_key_der(key@) == Some(k.der()),
                Err(e) => e == CryptoError::BadEncoding && private_key_der(key@) is None,
            },
    {
        match base64_decode(key) {
            Some(der) => {
                if pkcs8_parses(der.as_slice()) {
                    Ok(SigningKey { der })
                } else {
                    Err(CryptoError::BadEncoding)
                }
            },
            None => Err(CryptoError::BadEncoding),
        }
    }

    /// Lowercase hex of the signature's DER.
    pub fn encode_signature(signature: &Signature) -> (r: String)
        ensures
            r@ == hex_text(signature.der()),
    {
        hex_encode(signature.der.as_slice())
    }

    /// Reads a signature from lowercase or uppercase hex of its DER.
    pub fn decode_signature(signature: &str) -> (r: Result<Signature, CryptoError>)
        ensures
            match r {
                Ok(s) => signature_der(signature@) == Some(s.der()),
                Err(e) => e == CryptoError::BadEncoding && signature_der(signature@) is None,
            },
    {
        match hex_decode(signature) {
            Some(der) => {
                if signature_parses(der.as_slice()) {
                    Ok(Signature { der })
                } else {
                    Err(CryptoError::BadEncoding)
                }
            },
            None => Err(CryptoError::BadEncoding),
        }
    }

    /// Lowercase hex of the SHA-256 digest of the UTF-8 bytes of `data`.
    pub fn hash_data(data: &str) -> (r: String)
        ensures
            r@ == sha256_hex(data@),
    {
        sha256(data)
    }

    /// Whether the hex signature `signature` verifies over `data` under the base64
    /// public key `key`; false where either does not decode.
    pub fn verify_text(data: &str, signature: &str, key: &str) -> (r: bool)
        ensures
            r == signed_by(data@, signature@, key@),
    {
        let k = match Utils::get_verifying_key(key) {
            Ok(k) => k,
            Err(_) => return false,
        };
        let s = match Utils::decode_signature(signature) {
            Ok(s) => s,
            Err(_) => return false,
        };
        Utils::verify_signature(data, &s, &k)
    }
}

} // verus!
