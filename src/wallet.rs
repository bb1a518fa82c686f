use vstd::prelude::*;

use crate::utils::{be_value, copy_bytes, sha256_digest, sha256_hex};

verus! {

/// Order of the secp256k1 group.
pub open spec fn curve_order() -> nat {
    let high: nat = 0xFFFFFFFFFFFFFFFFFFFFFFFFFFFFFFFEu128 as nat;
    let low: nat = 0xBAAEDCE6AF48A03BBFD25E8CD0364141u128 as nat;
    let base: nat = 0x10000000000000000u128 as nat;
    high * base * base + low
}

/// Bytes that secp256k1 accepts as a secret key.
pub open spec fn is_secret_key(s: Seq<u8>) -> bool {
    s.len() == 32 && 0 < be_value(s) < curve_order()
}

/// Names the serialized (compressed) public key of a secret key.
pub uninterp spec fn public_key_of(secret: Seq<u8>) -> Seq<u8>;

/// Names the DER-encoded ECDSA signature that a secret key gives to the
/// SHA-256 hash of a payload.
pub uninterp spec fn ecdsa_signature(secret: Seq<u8>, payload: Seq<u8>) -> Seq<u8>;

/// Names whether a DER-encoded signature of the SHA-256 hash of a payload
/// parses and checks under a serialized public key.
pub uninterp spec fn signature_valid(payload: Seq<u8>, signature: Seq<u8>, public_key: Seq<u8>) -> bool;

/// Names the RIPEMD-160 digest of a byte string.
pub uninterp spec fn ripemd160_of(data: Seq<u8>) -> Seq<u8>;

/// Names the base58 text of a byte string.
pub uninterp spec fn base58_encoded(data: Seq<u8>) -> Seq<char>;

/// Names the bytes that a base58 text spells, if it is valid base58.
pub uninterp spec fn base58_decoded(text: Seq<char>) -> Option<Seq<u8>>;

/// Relies on secp256k1's `SecretKey::from_slice` (accepts 32 bytes that are
/// nonzero and below the group order) and `PublicKey::from_secret_key`.
#[verifier::external_body]
fn derive_public_key(secret: &Vec<u8>) -> (r: Option<Vec<u8>>)
    ensures
        r is Some <==> is_secret_key(secret@),
        r matches Some(p) ==> p@ == public_key_of(secret@),
{
    let secp = secp256k1::Secp256k1::new();
    let key = secp256k1::SecretKey::from_slice(secret).ok()?;
    Some(secp256k1::PublicKey::from_secret_key(&secp, &key).serialize().to_vec())
}

/// Relies on secp256k1's `sign_ecdsa` over `Message::from_hashed_data` with
/// SHA-256: the nonce comes from RFC 6979, so the signature depends on the key
/// and payload alone, and a signature made with a secret key checks under that
/// key's public key.
#[verifier::external_body]
pub(crate) fn ecdsa_sign(secret: &Vec<u8>, payload: &Vec<u8>) -> (r: Option<Vec<u8>>)
    ensures
        r is Some <==> is_secret_key(secret@),
        r matches Some(s) ==> s@ == ecdsa_signature(secret@, payload@),
        r matches Some(s) ==> signature_valid(payload@, s@, public_key_of(secret@)),
{
    let key = secp256k1::SecretKey::from_slice(secret).ok()?;
    let message = secp256k1::Message::from_hashed_data::<secp256k1::hashes::sha256::Hash>(payload);
    let secp = secp256k1::Secp256k1::new();
    Some(secp.sign_ecdsa(&message, &key).serialize_der().to_vec())
}

/// Relies on secp256k1's `Signature::from_der`, `PublicKey::from_slice` and
/// `verify_ecdsa` over `Message::from_hashed_data` with SHA-256; an
/// unparsable signature or key does not check.
#[verifier::external_body]
pub(crate) fn ecdsa_verify(payload: &Vec<u8>, signature: &Vec<u8>, public_key: &Vec<u8>) -> (r: bool)
    ensures
        r == signature_valid(payload@, signature@, public_key@),
{
    let message = secp256k1::Message::from_hashed_data::<secp256k1::hashes::sha256::Hash>(payload);
    match (secp256k1::ecdsa::Signature::from_der(signature), secp256k1::PublicKey::from_slice(public_key)) {
        (Ok(sig), Ok(key)) => secp256k1::Secp256k1::verification_only().verify_ecdsa(&message, &sig, &key).is_ok(),
        _ => false,
    }
}

/// Relies on ripemd's `Ripemd160`: a 20-byte digest of the bytes alone.
#[verifier::external_body]
fn ripemd160(data: &Vec<u8>) -> (r: Vec<u8>)
    ensures
        r@ == ripemd160_of(data@),
        r@.len() == 20,
{
    <ripemd::Ripemd160 as ripemd::Digest>::digest(data).to_vec()
}

/// Relies on bs58's `encode(..).into_string()`, whose text `decode` turns
/// back into the same bytes.
#[verifier::external_body]
fn base58_encode(data: &Vec<u8>) -> (r: String)
    ensures
        r@ == base58_encoded(data@),
        base58_decoded(r@) == Some(data@),
{
    bs58::encode(data).into_string()
}

/// Relies on bs58's `decode(..).into_vec()`, which fails on text that is not
/// base58.
#[verifier::external_body]
fn base58_decode(text: &str) -> (r: Option<Vec<u8>>)
    ensures
        r matches Some(v) ==> base58_decoded(text@) == Some(v@),
        r is None ==> base58_decoded(text@) is None,
{
    bs58::decode(text).into_vec().ok()
}

/// The hash that locks outputs to a public key: RIPEMD-160 of the hex text of
/// its SHA-256 digest.
pub open spec fn key_hash(public_key: Seq<u8>) -> Seq<u8> {
    ripemd160_of(sha256_hex(public_key))
}

pub fn hash_public_key(public_key: &Vec<u8>) -> (r: Vec<u8>)
    ensures
        r@ == key_hash(public_key@),
        r@.len() == 20,
{
    let text = sha256_digest(public_key);
    ripemd160(&text)
}

pub open spec fn checksum_of(payload: Seq<u8>, length: nat) -> Seq<u8> {
    sha256_hex(sha256_hex(payload)).take(length as int)
}

/// The first `length` characters of the hex digest of the hex digest of the
/// payload.
pub fn checksum(payload: &Vec<u8>, length: usize) -> (r: Vec<u8>)
    requires
        length <= 64,
    ensures
        r@ == checksum_of(payload@, length as nat),
        r@.len() == length,
{
    let once = sha256_digest(payload);
    let twice = sha256_digest(&once);
    let mut r: Vec<u8> = Vec::new();
    let mut i: usize = 0;
    while i < length
        invariant
            i <= length <= 64,
            twice@.len() == 64,
            r@ == twice@.take(i as int),
        decreases length - i,
    {
        r.push(twice[i]);
        i = i + 1;
        assert(r@ =~= twice@.take(i as int));
    }
    r
}

pub open spec fn address_payload(version: u8, public_key: Seq<u8>, checksum_length: nat) -> Seq<u8> {
    seq![version] + key_hash(public_key) + checksum_of(seq![version] + key_hash(public_key), checksum_length)
}

/// The public-key hash that an address carries: its bytes 1 to 20 once
/// decoded, if the address is base58 of at least 21 bytes.
pub open spec fn address_key_hash(address: Seq<char>) -> Option<Seq<u8>> {
    match base58_decoded(address) {
        Some(b) => if b.len() >= 21 { Some(b.subrange(1, 21)) } else { None },
        None => None,
    }
}

pub fn decode_address(address: &str) -> (r: Option<Vec<u8>>)
    ensures
        r matches Some(h) ==> address_key_hash(address@) == Some(h@),
        r is None ==> address_key_hash(address@) is None,
{
    match base58_decode(address) {
        Some(b) => {
            if b.len() < 21 {
                return None;
            }
            let mut h: Vec<u8> = Vec::new();
            let mut i: usize = 1;
            while i < 21
                invariant
                    1 <= i <= 21,
                    b@.len() >= 21,
                    h@ == b@.subrange(1, i as int),
                decreases 21 - i,
            {
                h.push(b[i]);
                i = i + 1;
                assert(h@ =~= b@.subrange(1, i as int));
            }
            Some(h)
        },
        None => None,
    }
}

/// A signing identity: a secret key and its serialized public key.
pub struct Wallet {
    pub private_key: Vec<u8>,
    pub public_key: Vec<u8>,
}

impl Wallet {
    pub open spec fn wf(&self) -> bool {
        &&& is_secret_key(self.private_key@)
        &&& self.public_key@ == public_key_of(self.private_key@)
    }

    /// The wallet of a secret key, if secp256k1 accepts it.
    pub fn from_secret_key(secret: &Vec<u8>) -> (r: Option<Wallet>)
        ensures
            r is Some <==> is_secret_key(secret@),
            r matches Some(w) ==> w.wf() && w.private_key@ == secret@,
    {
        match derive_public_key(secret) {
            Some(public_key) => Some(Wallet { private_key: copy_bytes(secret), public_key }),
            None => None,
        }
    }

    /// The wallet's address: base58 of the version byte, the public-key hash
    /// and a checksum of both.
    pub fn get_address(&self, version: u8, checksum_length: usize) -> (r: String)
        requires
            checksum_length <= 64,
        ensures
            r@ == base58_encoded(address_payload(version, self.public_key@, checksum_length as nat)),
            base58_decoded(r@) == Some(address_payload(version, self.public_key@, checksum_length as nat)),
            address_payload(version, self.public_key@, checksum_length as nat).len() == 21 + checksum_length,
            address_payload(version, self.public_key@, checksum_length as nat)[0] == version,
            address_key_hash(r@) == Some(key_hash(self.public_key@)),
    {
        let mut payload: Vec<u8> = Vec::new();
        payload.push(version);
        let h = hash_public_key(&self.public_key);
        crate::encoding::push_bytes(&mut payload, &h);
        let c = checksum(&payload, checksum_length);
        crate::encoding::push_bytes(&mut payload, &c);
        assert(payload@ =~= address_payload(version, self.public_key@, checksum_length as nat));
        assert(payload@.subrange(1, 21) =~= h@);
        base58_encode(&payload)
    }
}

} // verus!
