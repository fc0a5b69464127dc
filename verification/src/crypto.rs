use vstd::prelude::*;

verus! {

use vstd::utf8::valid_utf8;
use vstd::utf8::decode_utf8;
use vstd::string::StringSliceAdditionalSpecFns;
use crate::hexcode::is_hex;
use crate::hexcode::hex_of;
use crate::hexcode::unhex_of;
use crate::hexcode::hex_encode;
use crate::hexcode::hex_decode;
use crate::hexcode::lemma_hex_round_trip;
use crate::text::string_from_utf8;

/// Why a cryptographic operation failed.
#[derive(Debug, PartialEq, Eq, Structural)]
pub enum CryptoError {
    /// An input was not well-formed hex.
    InvalidHex,
    /// Key bytes did not form a valid key.
    InvalidKey,
    /// The envelope is shorter than a key and a nonce.
    TooShort,
    /// The two keys admit no shared secret.
    NoSharedSecret,
    /// The cipher refused to seal the message.
    SealFailed,
    /// The authentication tag did not verify.
    AuthFailed,
    /// The sealed plaintext was not valid UTF-8.
    InvalidUtf8,
}

/// Whether 32 bytes form a valid secp256k1 secret key.
pub uninterp spec fn sk_valid(sk: Seq<u8>) -> bool;

/// The 65-byte uncompressed public key of a valid secret key.
pub uninterp spec fn pubkey_of(sk: Seq<u8>) -> Seq<u8>;

/// Whether the bytes parse as a secp256k1 public key.
pub uninterp spec fn pubkey_valid(pk: Seq<u8>) -> bool;

/// The uncompressed sum of two public-key points, or `None` when the sum
/// is the point at infinity.
pub uninterp spec fn point_add_of(a: Seq<u8>, b: Seq<u8>) -> Option<Seq<u8>>;

/// The 32-byte SHA-256 digest of the input bytes.
pub uninterp spec fn sha256_of(data: Seq<u8>) -> Seq<u8>;

/// The AES-256-GCM sealing of a message: ciphertext with its appended
/// 16-byte tag, or `None` when the cipher refuses the message.
pub uninterp spec fn aead_seal_of(key: Seq<u8>, nonce: Seq<u8>, msg: Seq<u8>) -> Option<Seq<u8>>;

/// The AES-256-GCM opening of a ciphertext: the plaintext, or `None`
/// when the tag does not verify.
pub uninterp spec fn aead_open_of(key: Seq<u8>, nonce: Seq<u8>, ct: Seq<u8>) -> Option<Seq<u8>>;

/// Relies on secp256k1::SecretKey::new: a freshly drawn key is 32 bytes
/// and valid.
#[verifier::external_body]
fn fresh_secret_key() -> (r: Vec<u8>)
    ensures
        r@.len() == 32,
        sk_valid(r@),
{
    let sk = secp256k1::SecretKey::new(&mut secp256k1::rand::rng());
    sk.to_secret_bytes().to_vec()
}

/// Relies on rand::random: twelve bytes from the thread generator;
/// nothing is promised of their values.
#[verifier::external_body]
fn fresh_nonce() -> (r: Vec<u8>)
    ensures
        r@.len() == 12,
{
    rand::random::<[u8; 12]>().to_vec()
}

/// Relies on secp256k1::PublicKey::from_secret_key, with
/// SecretKey::from_byte_array and serialize_uncompressed converting at
/// the edges: succeeds exactly on a valid 32-byte secret key, and the
/// 65-byte uncompressed public key is a function of the secret key bytes
/// alone and parses back as a valid public key.
#[verifier::external_body]
fn secret_to_public(sk: &[u8]) -> (r: Option<Vec<u8>>)
    ensures
        r is Some <==> (sk@.len() == 32 && sk_valid(sk@)),
        r is Some ==> r.unwrap()@ == pubkey_of(sk@) && r.unwrap()@.len() == 65 && pubkey_valid(
            r.unwrap()@,
        ),
{
    let bytes: [u8; 32] = sk.try_into().ok()?;
    let key = secp256k1::SecretKey::from_secret_bytes(bytes).ok()?;
    Some(secp256k1::PublicKey::from_secret_key(&key).serialize_uncompressed().to_vec())
}

/// Relies on secp256k1::PublicKey::from_slice: whether the bytes parse
/// as a public key.
#[verifier::external_body]
fn pubkey_check(pk: &[u8]) -> (r: bool)
    ensures
        r == pubkey_valid(pk@),
{
    secp256k1::PublicKey::from_slice(pk).is_ok()
}

/// What `point_add` promises: point addition is commutative, so the
/// call succeeds exactly when both keys parse and the sum, in either
/// order, is not the point at infinity, and the result is that sum.
pub open spec fn point_add_post(a: Seq<u8>, b: Seq<u8>, r: Option<Vec<u8>>) -> bool {
    &&& (r is Some <==> (pubkey_valid(a) && pubkey_valid(b) && point_add_of(a, b) is Some))
    &&& (r is Some <==> (pubkey_valid(a) && pubkey_valid(b) && point_add_of(b, a) is Some))
    &&& (r is Some ==> r.unwrap()@ == point_add_of(a, b).unwrap() && r.unwrap()@ == point_add_of(
        b,
        a,
    ).unwrap() && r.unwrap()@.len() == 65 && pubkey_valid(r.unwrap()@))
}

/// Relies on secp256k1::PublicKey::combine: elliptic-curve point
/// addition, which is commutative and fails only when the sum is the
/// point at infinity; from_slice and serialize_uncompressed convert at
/// the edges.
#[verifier::external_body]
fn point_add(a: &[u8], b: &[u8]) -> (r: Option<Vec<u8>>)
    ensures
        point_add_post(a@, b@, r),
        r is Some ==> r.unwrap()@ == point_add_of(a@, b@).unwrap(),
{
    let pa = secp256k1::PublicKey::from_slice(a).ok()?;
    let pb = secp256k1::PublicKey::from_slice(b).ok()?;
    Some(pa.combine(&pb).ok()?.serialize_uncompressed().to_vec())
}

/// Relies on sha2::Sha256 through the Digest trait: the 32-byte digest
/// is a function of the input bytes alone.
#[verifier::external_body]
fn sha256_digest(data: &[u8]) -> (r: Vec<u8>)
    ensures
        r@ == sha256_of(data@),
        r@.len() == 32,
{
    let mut h = <sha2::Sha256 as sha2::Digest>::new();
    sha2::Digest::update(&mut h, data);
    <sha2::Sha256 as sha2::Digest>::finalize(h).to_vec()
}

/// Relies on aes_gcm::Aes256Gcm::encrypt through the Aead trait: sealing
/// is a function of key, nonce and plaintext; the result appends the
/// 16-byte tag to the ciphertext, and opening it under the same key and
/// nonce returns the plaintext.
#[verifier::external_body]
fn aead_seal(key: &[u8], nonce: &[u8], msg: &[u8]) -> (r: Option<Vec<u8>>)
    requires
        key@.len() == 32,
        nonce@.len() == 12,
    ensures
        r is Some <==> aead_seal_of(key@, nonce@, msg@) is Some,
        r is Some ==> r.unwrap()@ == aead_seal_of(key@, nonce@, msg@).unwrap() && r.unwrap()@.len()
            == msg@.len() + 16 && aead_open_of(key@, nonce@, r.unwrap()@) == Some(msg@),
{
    let cipher = <aes_gcm::Aes256Gcm as aes_gcm::KeyInit>::new(key.try_into().ok()?);
    aes_gcm::aead::Aead::encrypt(&cipher, nonce.try_into().ok()?, msg).ok()
}

/// Relies on aes_gcm::Aes256Gcm::decrypt through the Aead trait: opening
/// is a function of key, nonce and ciphertext, and fails exactly when
/// the authentication tag does not verify.
#[verifier::external_body]
fn aead_open(key: &[u8], nonce: &[u8], ct: &[u8]) -> (r: Option<Vec<u8>>)
    requires
        key@.len() == 32,
        nonce@.len() == 12,
    ensures
        r is Some <==> aead_open_of(key@, nonce@, ct@) is Some,
        r is Some ==> r.unwrap()@ == aead_open_of(key@, nonce@, ct@).unwrap(),
{
    let cipher = <aes_gcm::Aes256Gcm as aes_gcm::KeyInit>::new(key.try_into().ok()?);
    aes_gcm::aead::Aead::decrypt(&cipher, nonce.try_into().ok()?, ct).ok()
}

/// A generated key pair, both keys spelled in hex.
pub struct KeyPair {
    pub private_key: Vec<u8>,
    pub public_key: Vec<u8>,
}

/// What opening an envelope under the private key `sk` yields: the
/// envelope carries the ephemeral public key, the nonce, and the sealed
/// bytes; the shared AES key is the SHA-256 digest of the sum of the
/// ephemeral point and the key holder's own point.
pub open spec fn open_of(env: Seq<u8>, sk: Seq<u8>) -> Result<Seq<u8>, CryptoError> {
    if !(sk.len() == 32 && sk_valid(sk)) {
        Err(CryptoError::InvalidKey)
    } else if env.len() < 77 {
        Err(CryptoError::TooShort)
    } else {
        let eph = env.subrange(0, 65);
        let nonce = env.subrange(65, 77);
        let ct = env.subrange(77, env.len() as int);
        if !pubkey_valid(eph) {
            Err(CryptoError::InvalidKey)
        } else {
            match point_add_of(pubkey_of(sk), eph) {
                None => Err(CryptoError::NoSharedSecret),
                Some(pt) => match aead_open_of(sha256_of(pt), nonce, ct) {
                    None => Err(CryptoError::AuthFailed),
                    Some(msg) => Ok(msg),
                },
            }
        }
    }
}

/// Seal a message for `recipient_pub` under a chosen ephemeral key and
/// nonce. On success the envelope opens, under every private key whose
/// public key is `recipient_pub`, to exactly the message — the round
/// trip `decrypt(encrypt(m)) == m`.
pub fn seal_envelope(message: &str, recipient_pub: &[u8], eph_sk: &[u8], nonce: &[u8]) -> (r:
    Result<Vec<u8>, CryptoError>)
    requires
        pubkey_valid(recipient_pub@),
        eph_sk@.len() == 32 && sk_valid(eph_sk@),
        nonce@.len() == 12,
    ensures
        (match r {
            Ok(env) => {
                &&& point_add_of(recipient_pub@, pubkey_of(eph_sk@)) is Some
                &&& aead_seal_of(
                    sha256_of(point_add_of(recipient_pub@, pubkey_of(eph_sk@)).unwrap()),
                    nonce@,
                    message.spec_bytes(),
                ) is Some
                &&& env@ == pubkey_of(eph_sk@) + nonce@ + aead_seal_of(
                    sha256_of(point_add_of(recipient_pub@, pubkey_of(eph_sk@)).unwrap()),
                    nonce@,
                    message.spec_bytes(),
                ).unwrap()
                &&& env@.len() == 93 + message.spec_bytes().len()
                &&& forall|sk: Seq<u8>|
                    sk.len() == 32 && sk_valid(sk) && pubkey_of(sk) == recipient_pub@ ==> open_of(
                        env@,
                        sk,
                    ) == Ok::<Seq<u8>, CryptoError>(message.spec_bytes())
            },
            Err(CryptoError::NoSharedSecret) => point_add_of(recipient_pub@, pubkey_of(eph_sk@))
                is None,
            Err(CryptoError::SealFailed) => point_add_of(recipient_pub@, pubkey_of(eph_sk@))
                is Some && aead_seal_of(
                sha256_of(point_add_of(recipient_pub@, pubkey_of(eph_sk@)).unwrap()),
                nonce@,
                message.spec_bytes(),
            ) is None,
            Err(_) => false,
        }),
{
    let eph_pk = match secret_to_public(eph_sk) {
        Some(p) => p,
        None => {
            proof {
                assert(false);
            }
            return Err(CryptoError::InvalidKey);
        },
    };
    let pt = match point_add(recipient_pub, eph_pk.as_slice()) {
        Some(p) => p,
        None => {
            return Err(CryptoError::NoSharedSecret);
        },
    };
    let key = sha256_digest(pt.as_slice());
    let ct = match aead_seal(key.as_slice(), nonce, message.as_bytes()) {
        Some(c) => c,
        None => {
            return Err(CryptoError::SealFailed);
        },
    };
    let mut env = eph_pk;
    env.extend_from_slice(nonce);
    env.extend_from_slice(ct.as_slice());
    proof {
        let pk_e = pubkey_of(eph_sk@);
        assert(env@.subrange(0, 65) =~= pk_e);
        assert(env@.subrange(65, 77) =~= nonce@);
        assert(env@.subrange(77, env@.len() as int) =~= ct@);
        assert forall|sk: Seq<u8>|
            sk.len() == 32 && sk_valid(sk) && pubkey_of(sk) == recipient_pub@ implies open_of(
            env@,
            sk,
        ) == Ok::<Seq<u8>, CryptoError>(message.spec_bytes()) by {
            assert(point_add_of(pubkey_of(sk), pk_e) == point_add_of(recipient_pub@, pk_e));
        }
    }
    Ok(env)
}

/// Open an envelope under the private key bytes `sk`.
pub fn open_envelope(env: &[u8], sk: &[u8]) -> (r: Result<Vec<u8>, CryptoError>)
    ensures
        (match open_of(env@, sk@) {
            Ok(m) => r is Ok && r->Ok_0@ == m,
            Err(e) => r is Err && r->Err_0 == e,
        }),
{
    let own_pub = match secret_to_public(sk) {
        Some(p) => p,
        None => {
            return Err(CryptoError::InvalidKey);
        },
    };
    if env.len() < 77 {
        return Err(CryptoError::TooShort);
    }
    let eph = &env[0..65];
    let nonce = &env[65..77];
    let ct = &env[77..env.len()];
    proof {
        assert(eph@ =~= env@.subrange(0, 65));
        assert(nonce@ =~= env@.subrange(65, 77));
        assert(ct@ =~= env@.subrange(77, env@.len() as int));
    }
    if !pubkey_check(eph) {
        return Err(CryptoError::InvalidKey);
    }
    let pt = match point_add(eph, own_pub.as_slice()) {
        Some(p) => p,
        None => {
            return Err(CryptoError::NoSharedSecret);
        },
    };
    let key = sha256_digest(pt.as_slice());
    match aead_open(key.as_slice(), nonce, ct) {
        Some(m) => Ok(m),
        None => Err(CryptoError::AuthFailed),
    }
}

/// Generate a fresh key pair; both keys come back hex-spelled, and the
/// public key is the one owed to the private key.
pub fn generate_keypair() -> (r: KeyPair)
    ensures
        is_hex(r.private_key@),
        is_hex(r.public_key@),
        unhex_of(r.private_key@).len() == 32,
        sk_valid(unhex_of(r.private_key@)),
        unhex_of(r.public_key@) == pubkey_of(unhex_of(r.private_key@)),
        pubkey_valid(unhex_of(r.public_key@)),
{
    let sk = fresh_secret_key();
    let pk = match secret_to_public(sk.as_slice()) {
        Some(p) => p,
        None => {
            proof {
                assert(false);
            }
            Vec::new()
        },
    };
    let skh = hex_encode(sk.as_slice());
    let pkh = hex_encode(pk.as_slice());
    proof {
        lemma_hex_round_trip(sk@);
        lemma_hex_round_trip(pk@);
    }
    KeyPair { private_key: skh, public_key: pkh }
}

/// Encrypt a message for the holder of `recipient_public_key_hex`: seal
/// it under a fresh ephemeral key and nonce and spell the envelope in
/// hex. On success, the envelope opens to exactly the message under
/// every private key that owns the recipient public key.
pub fn encrypt_message(message: &str, recipient_public_key_hex: &[u8]) -> (r: Result<
    Vec<u8>,
    CryptoError,
>)
    ensures
        (match r {
            Ok(env_hex) => {
                &&& is_hex(recipient_public_key_hex@)
                &&& pubkey_valid(unhex_of(recipient_public_key_hex@))
                &&& is_hex(env_hex@)
                &&& forall|sk: Seq<u8>|
                    sk.len() == 32 && sk_valid(sk) && pubkey_of(sk) == unhex_of(
                        recipient_public_key_hex@,
                    ) ==> open_of(unhex_of(env_hex@), sk) == Ok::<Seq<u8>, CryptoError>(
                        message.spec_bytes(),
                    )
            },
            Err(CryptoError::InvalidHex) => !is_hex(recipient_public_key_hex@),
            Err(CryptoError::InvalidKey) => is_hex(recipient_public_key_hex@) && !pubkey_valid(
                unhex_of(recipient_public_key_hex@),
            ),
            Err(CryptoError::NoSharedSecret) => is_hex(recipient_public_key_hex@) && pubkey_valid(
                unhex_of(recipient_public_key_hex@),
            ),
            Err(CryptoError::SealFailed) => is_hex(recipient_public_key_hex@) && pubkey_valid(
                unhex_of(recipient_public_key_hex@),
            ),
            Err(_) => false,
        }),
{
    let pk_bytes = match hex_decode(recipient_public_key_hex) {
        Some(b) => b,
        None => {
            return Err(CryptoError::InvalidHex);
        },
    };
    if !pubkey_check(pk_bytes.as_slice()) {
        return Err(CryptoError::InvalidKey);
    }
    let esk = fresh_secret_key();
    let nonce = fresh_nonce();
    let env = match seal_envelope(message, pk_bytes.as_slice(), esk.as_slice(), nonce.as_slice()) {
        Ok(e) => e,
        Err(e) => {
            return Err(e);
        },
    };
    let hexed = hex_encode(env.as_slice());
    proof {
        lemma_hex_round_trip(env@);
    }
    Ok(hexed)
}

/// Decrypt a hex-spelled envelope under a hex-spelled private key,
/// failing on malformed hex, invalid key material, a failed
/// authentication tag, or sealed bytes that are not UTF-8.
pub fn decrypt_message(encrypted_hex: &[u8], private_key_hex: &[u8]) -> (r: Result<
    String,
    CryptoError,
>)
    ensures
        (match r {
            Ok(s) => {
                &&& is_hex(private_key_hex@) && is_hex(encrypted_hex@)
                &&& open_of(unhex_of(encrypted_hex@), unhex_of(private_key_hex@)) is Ok
                &&& valid_utf8(open_of(unhex_of(encrypted_hex@), unhex_of(private_key_hex@))->Ok_0)
                &&& s@ == decode_utf8(
                    open_of(unhex_of(encrypted_hex@), unhex_of(private_key_hex@))->Ok_0,
                )
            },
            Err(CryptoError::InvalidHex) => !is_hex(private_key_hex@) || !is_hex(encrypted_hex@),
            Err(CryptoError::InvalidUtf8) => is_hex(private_key_hex@) && is_hex(encrypted_hex@)
                && open_of(unhex_of(encrypted_hex@), unhex_of(private_key_hex@)) is Ok
                && !valid_utf8(
                open_of(unhex_of(encrypted_hex@), unhex_of(private_key_hex@))->Ok_0,
            ),
            Err(e) => is_hex(private_key_hex@) && is_hex(encrypted_hex@) && open_of(
                unhex_of(encrypted_hex@),
                unhex_of(private_key_hex@),
            ) == Err::<Seq<u8>, CryptoError>(e),
        }),
{
    let sk_bytes = match hex_decode(private_key_hex) {
        Some(b) => b,
        None => {
            return Err(CryptoError::InvalidHex);
        },
    };
    let env = match hex_decode(encrypted_hex) {
        Some(b) => b,
        None => {
            return Err(CryptoError::InvalidHex);
        },
    };
    let plain = match open_envelope(env.as_slice(), sk_bytes.as_slice()) {
        Ok(m) => m,
        Err(e) => {
            return Err(e);
        },
    };
    match string_from_utf8(plain) {
        Some(s) => Ok(s),
        None => Err(CryptoError::InvalidUtf8),
    }
}

} // verus!
