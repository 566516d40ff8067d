//! The cryptography of the vault: a key derived from the master password
//! with Argon2id, and passwords sealed with AES-256-GCM and stored as
//! unpadded base64 text.
//!
//! The primitives are those of the `argon2`, `aes-gcm`, `base64` and `rand`
//! crates. What they compute is known here by name only; what this module
//! proves is how their results are put together and when each step fails.

use vstd::prelude::*;
use vstd::utf8::{decode_utf8, encode_utf8, valid_utf8};
use aes_gcm::aead::{Aead, KeyInit};
use aes_gcm::{Aes256Gcm, Key, Nonce};
use argon2::Argon2;
use base64::engine::general_purpose::STANDARD_NO_PAD;
use base64::Engine;
use rand::Rng;
use crate::errs::VaultError;
use crate::text::text_from_utf8;

verus! {

/// Length in bytes of a derived key.
pub const KEY_SIZE: usize = 32;

/// Length in bytes of a salt.
pub const SALT_SIZE: usize = 16;

/// Length in bytes of a nonce.
pub const NONCE_SIZE: usize = 12;

/// The greatest number of bytes that AES-GCM seals at once: 2^36.
pub const SEAL_LIMIT: u64 = 0x10_0000_0000;

/// The error of the `argon2` crate.
#[verifier::external_type_specification]
#[verifier::external_body]
pub struct ExArgon2Error(argon2::Error);

/// The error of the `aes-gcm` crate.
#[verifier::external_type_specification]
#[verifier::external_body]
pub struct ExAeadError(aes_gcm::Error);

/// The error of base64 decoding.
#[verifier::external_type_specification]
#[verifier::external_body]
pub struct ExDecodeError(base64::DecodeError);

/// The 32-byte key that Argon2id, with the `argon2` crate's default
/// parameters, derives from a password and a salt.
pub uninterp spec fn argon2id_key(password: Seq<u8>, salt: Seq<u8>) -> Seq<u8>;

/// The ciphertext, with its 16-byte tag at the end, that AES-256-GCM makes
/// of a plaintext under a key and a nonce.
pub uninterp spec fn aes_gcm_sealed(key: Seq<u8>, nonce: Seq<u8>, plaintext: Seq<u8>) -> Seq<u8>;

/// The plaintext that AES-256-GCM recovers from a ciphertext under a key
/// and a nonce, or `None` where the ciphertext does not authenticate.
pub uninterp spec fn aes_gcm_opened(key: Seq<u8>, nonce: Seq<u8>, ciphertext: Seq<u8>) -> Option<
    Seq<u8>,
>;

/// The unpadded standard base64 text of some bytes.
pub uninterp spec fn base64_text(bytes: Seq<u8>) -> Seq<char>;

/// The bytes that an unpadded standard base64 text stands for, or `None`
/// where the text is not such a text.
pub uninterp spec fn base64_bytes(text: Seq<char>) -> Option<Seq<u8>>;

/// The inputs that Argon2 accepts: a password of at most 2^32 - 1 bytes and
/// a salt of at least 8 and at most 2^32 - 1 bytes.
pub open spec fn argon2_accepts(password: Seq<u8>, salt: Seq<u8>) -> bool {
    password.len() <= 0xFFFF_FFFF && 8 <= salt.len() <= 0xFFFF_FFFF
}

/// The plaintexts that AES-GCM seals: those of at most 2^36 bytes.
pub open spec fn sealable(plaintext: Seq<u8>) -> bool {
    plaintext.len() <= SEAL_LIMIT
}

/// Calls `Rng::fill` of `rand` on a fresh buffer. Trusted: the buffer keeps
/// its length; nothing is known of the bytes.
#[verifier::external_body]
fn random_bytes(n: usize) -> (bytes: Vec<u8>)
    ensures
        bytes@.len() == n,
{
    let mut bytes = vec![0u8; n];
    rand::thread_rng().fill(&mut bytes[..]);
    bytes
}

/// Calls `rand::random` for twelve bytes. Trusted: there are twelve of them;
/// nothing is known of the bytes.
#[verifier::external_body]
fn random_nonce() -> (nonce: Vec<u8>)
    ensures
        nonce@.len() == 12,
{
    rand::random::<[u8; 12]>().to_vec()
}

/// Calls `Argon2::hash_password_into` with the default parameters and a
/// 32-byte output. Trusted: the call fails exactly when the password is
/// longer than 2^32 - 1 bytes or the salt is shorter than 8 or longer than
/// 2^32 - 1 bytes, as the crate's input checks show; the key is known by
/// name only.
#[verifier::external_body]
fn argon2_hash(password: &[u8], salt: &[u8]) -> (r: Result<[u8; 32], argon2::Error>)
    ensures
        r is Ok <==> argon2_accepts(password@, salt@),
        r matches Ok(key) ==> key@ == argon2id_key(password@, salt@),
{
    let mut key = [0u8; 32];
    match Argon2::default().hash_password_into(password, salt, &mut key) {
        Ok(()) => Ok(key),
        Err(e) => Err(e),
    }
}

/// Calls `Aead::encrypt` of AES-256-GCM. Trusted: the call fails exactly
/// when the plaintext is longer than 2^36 bytes; the ciphertext is 16 bytes
/// longer than the plaintext, is known by name only, and opens under the
/// same key and nonce to the plaintext.
#[verifier::external_body]
fn aes_gcm_seal(key: &[u8], nonce: &[u8], plaintext: &[u8]) -> (r: Result<Vec<u8>, aes_gcm::Error>)
    requires
        key@.len() == 32,
        nonce@.len() == 12,
    ensures
        r is Ok <==> sealable(plaintext@),
        r matches Ok(sealed) ==> {
            &&& sealed@ == aes_gcm_sealed(key@, nonce@, plaintext@)
            &&& sealed@.len() == plaintext@.len() + 16
            &&& aes_gcm_opened(key@, nonce@, sealed@) == Some(plaintext@)
        },
{
    let cipher = Aes256Gcm::new(Key::<Aes256Gcm>::from_slice(key));
    cipher.encrypt(Nonce::from_slice(nonce), plaintext)
}

/// Calls `Aead::decrypt` of AES-256-GCM. Trusted: the outcome is a function
/// of key, nonce and ciphertext, known by name only.
#[verifier::external_body]
fn aes_gcm_open(key: &[u8], nonce: &[u8], ciphertext: &[u8]) -> (r: Result<
    Vec<u8>,
    aes_gcm::Error,
>)
    requires
        key@.len() == 32,
        nonce@.len() == 12,
    ensures
        r is Ok <==> aes_gcm_opened(key@, nonce@, ciphertext@) is Some,
        r matches Ok(plaintext) ==> aes_gcm_opened(key@, nonce@, ciphertext@) == Some(
            plaintext@,
        ),
{
    let cipher = Aes256Gcm::new(Key::<Aes256Gcm>::from_slice(key));
    cipher.decrypt(Nonce::from_slice(nonce), ciphertext)
}

/// Calls `Engine::encode` of the unpadded standard base64 engine. Trusted:
/// the text is known by name only, and decodes to the bytes it was made of.
#[verifier::external_body]
fn base64_encode(bytes: &[u8]) -> (text: String)
    ensures
        text@ == base64_text(bytes@),
        base64_bytes(text@) == Some(bytes@),
{
    STANDARD_NO_PAD.encode(bytes)
}

/// Calls `Engine::decode` of the unpadded standard base64 engine. Trusted:
/// the outcome is a function of the text, known by name only.
#[verifier::external_body]
fn base64_decode(text: &str) -> (r: Result<Vec<u8>, base64::DecodeError>)
    ensures
        r is Ok <==> base64_bytes(text@) is Some,
        r matches Ok(bytes) ==> base64_bytes(text@) == Some(bytes@),
{
    STANDARD_NO_PAD.decode(text)
}

/// A password and a salt from which a key can be derived.
pub open spec fn derivable(password: Seq<char>, salt: Seq<u8>) -> bool {
    argon2_accepts(encode_utf8(password), salt)
}

/// The password that a stored text holds, under a key and a nonce: the
/// text decoded from base64, opened, and read as UTF-8. `None` where any of
/// these steps fails, or the key or the nonce has the wrong length.
pub open spec fn decryption(key: Seq<u8>, nonce: Seq<u8>, encoded: Seq<char>) -> Option<
    Seq<char>,
> {
    if key.len() != 32 || nonce.len() != 12 {
        None
    } else {
        match base64_bytes(encoded) {
            None => None,
            Some(sealed) => match aes_gcm_opened(key, nonce, sealed) {
                None => None,
                Some(plaintext) => if valid_utf8(plaintext) {
                    Some(decode_utf8(plaintext))
                } else {
                    None
                },
            },
        }
    }
}

/// A fresh random salt of 16 bytes.
pub fn generate_salt() -> (salt: Vec<u8>)
    ensures
        salt@.len() == 16,
{
    random_bytes(SALT_SIZE)
}

/// Derives the 32-byte key of a master password and a salt.
///
/// Fails with `Crypto` exactly when the salt is shorter than 8 bytes, or
/// the salt or the password is longer than 2^32 - 1 bytes.
pub fn derive_key(password: &str, salt: &[u8]) -> (r: Result<[u8; KEY_SIZE], VaultError>)
    ensures
        match r {
            Ok(key) => derivable(password@, salt@) && key@ == argon2id_key(
                encode_utf8(password@),
                salt@,
            ),
            Err(e) => !derivable(password@, salt@) && e == VaultError::Crypto,
        },
{
    match argon2_hash(password.as_bytes(), salt) {
        Ok(key) => Ok(key),
        Err(_) => Err(VaultError::Crypto),
    }
}

/// Seals a password under a key and a given nonce, and returns the sealed
/// bytes as base64 text.
///
/// Fails with `Crypto` exactly when the key is not 32 bytes long, the nonce
/// is not 12 bytes long, or the password is longer than 2^36 bytes.
pub fn encrypt_with_nonce(key: &[u8], nonce: &[u8], password: &str) -> (r: Result<
    String,
    VaultError,
>)
    ensures
        match r {
            Ok(text) => {
                &&& key@.len() == 32
                &&& nonce@.len() == 12
                &&& sealable(encode_utf8(password@))
                &&& text@ == base64_text(
                    aes_gcm_sealed(key@, nonce@, encode_utf8(password@)),
                )
                &&& decryption(key@, nonce@, text@) == Some(password@)
            },
            Err(e) => {
                &&& key@.len() != 32 || nonce@.len() != 12 || !sealable(encode_utf8(password@))
                &&& e == VaultError::Crypto
            },
        },
{
    if key.len() != KEY_SIZE || nonce.len() != NONCE_SIZE {
        return Err(VaultError::Crypto);
    }
    match aes_gcm_seal(key, nonce, password.as_bytes()) {
        Ok(sealed) => {
            let text = base64_encode(sealed.as_slice());
            proof {
                vstd::utf8::encode_utf8_valid_utf8(password@);
                vstd::utf8::encode_utf8_decode_utf8(password@);
            }
            Ok(text)
        },
        Err(_) => Err(VaultError::Crypto),
    }
}

/// Seals a password under a key and a fresh random nonce. Returns the
/// sealed bytes as base64 text, and the nonce.
///
/// Fails with `Crypto` exactly when the password is longer than 2^36 bytes.
pub fn encrypt(key: &[u8; KEY_SIZE], password: &str) -> (r: Result<(String, Vec<u8>), VaultError>)
    ensures
        match r {
            Ok((text, nonce)) => {
                &&& nonce@.len() == 12
                &&& sealable(encode_utf8(password@))
                &&& text@ == base64_text(
                    aes_gcm_sealed(key@, nonce@, encode_utf8(password@)),
                )
                &&& decryption(key@, nonce@, text@) == Some(password@)
            },
            Err(e) => !sealable(encode_utf8(password@)) && e == VaultError::Crypto,
        },
{
    let nonce = random_nonce();
    match encrypt_with_nonce(key.as_slice(), nonce.as_slice(), password) {
        Ok(text) => Ok((text, nonce)),
        Err(e) => Err(e),
    }
}

/// Reads an opened plaintext as a password.
///
/// Fails with `Crypto` exactly when nothing was opened, or the plaintext is
/// not valid UTF-8.
pub fn password_from_plaintext(opened: Option<Vec<u8>>) -> (r: Result<String, VaultError>)
    ensures
        match r {
            Ok(password) => opened matches Some(plaintext) && valid_utf8(plaintext@)
                && password@ == decode_utf8(plaintext@),
            Err(e) => {
                &&& opened matches Some(plaintext) ==> !valid_utf8(plaintext@)
                &&& e == VaultError::Crypto
            },
        },
{
    match opened {
        None => Err(VaultError::Crypto),
        Some(plaintext) => match text_from_utf8(plaintext) {
            Some(password) => Ok(password),
            None => Err(VaultError::Crypto),
        },
    }
}

/// Recovers a password from its stored text, under a key and a nonce.
///
/// Fails with `Crypto` when the key or the nonce has the wrong length, the
/// text is not base64, the ciphertext does not authenticate under this key
/// and nonce (a wrong master password, or tampering), or the plaintext is
/// not valid UTF-8.
pub fn decrypt(key: &[u8], nonce: &[u8], encoded_pwd: &str) -> (r: Result<String, VaultError>)
    ensures
        match r {
            Ok(password) => decryption(key@, nonce@, encoded_pwd@) == Some(password@),
            Err(e) => decryption(key@, nonce@, encoded_pwd@) is None && e == VaultError::Crypto,
        },
{
    if key.len() != KEY_SIZE || nonce.len() != NONCE_SIZE {
        return Err(VaultError::Crypto);
    }
    let sealed = match base64_decode(encoded_pwd) {
        Ok(sealed) => sealed,
        Err(_) => {
            return Err(VaultError::Crypto);
        },
    };
    let opened = match aes_gcm_open(key, nonce, sealed.as_slice()) {
        Ok(plaintext) => Some(plaintext),
        Err(_) => None,
    };
    password_from_plaintext(opened)
}

} // verus!
