//! Encryption of stored credentials.

use vstd::prelude::*;
use vstd::string::*;
use aes_gcm::aead::{Aead, KeyInit};
use rand::RngCore;
use crate::text;

verus! {

/// What AES-256-GCM makes of a plaintext under a key and a nonce; nothing
/// where it is too long.
pub uninterp spec fn sealed(key: Seq<u8>, nonce: Seq<u8>, plaintext: Seq<u8>) -> Option<Seq<u8>>;

/// The plaintext that AES-256-GCM finds in a ciphertext under a key and a
/// nonce; nothing where the tag does not fit.
pub uninterp spec fn opened(key: Seq<u8>, nonce: Seq<u8>, ciphertext: Seq<u8>) -> Option<Seq<u8>>;

/// `Aes256Gcm::encrypt` of `aes_gcm`. What it returns opens to the plaintext
/// under the same key and nonce.
#[verifier::external_body]
fn aes_encrypt(key: &[u8; 32], nonce: &[u8], plaintext: &[u8]) -> (r: Option<Vec<u8>>)
    requires
        nonce@.len() == 12,
    ensures
        match r {
            Some(c) => sealed(key@, nonce@, plaintext@) == Some(c@) && opened(
                key@,
                nonce@,
                c@,
            ) == Some(plaintext@),
            None => sealed(key@, nonce@, plaintext@) is None,
        },
{
    let cipher = aes_gcm::Aes256Gcm::new(aes_gcm::Key::<aes_gcm::Aes256Gcm>::from_slice(key));
    cipher.encrypt(aes_gcm::Nonce::from_slice(nonce), plaintext).ok()
}

/// `Aes256Gcm::decrypt` of `aes_gcm`.
#[verifier::external_body]
fn aes_decrypt(key: &[u8; 32], nonce: &[u8], ciphertext: &[u8]) -> (r: Option<Vec<u8>>)
    requires
        nonce@.len() == 12,
    ensures
        match r {
            Some(p) => opened(key@, nonce@, ciphertext@) == Some(p@),
            None => opened(key@, nonce@, ciphertext@) is None,
        },
{
    let cipher = aes_gcm::Aes256Gcm::new(aes_gcm::Key::<aes_gcm::Aes256Gcm>::from_slice(key));
    cipher.decrypt(aes_gcm::Nonce::from_slice(nonce), ciphertext).ok()
}

/// `OsRng::fill_bytes` of `rand` draws the twelve bytes of a nonce. Nothing is
/// claimed of them but their number.
#[verifier::external_body]
fn random_nonce() -> (r: Vec<u8>)
    ensures
        r@.len() == 12,
{
    let mut nonce = [0u8; 12];
    rand::rngs::OsRng.fill_bytes(&mut nonce);
    nonce.to_vec()
}

/// The file that keeps the key; `base` is where the host keeps the data of
/// programs, if it has such a place.
pub fn key_file_path(base: Option<&str>) -> (r: String)
    ensures
        r@ == text::path_in(
            text::path_in(
                match base {
                    Some(b) => b@,
                    None => "."@,
                },
                "cuartel"@,
            ),
            "cuartel.key"@,
        ),
{
    let dir = match base {
        Some(b) => b,
        None => ".",
    };
    let own = text::join_path(dir, "cuartel");
    text::join_path(own.as_str(), "cuartel.key")
}

/// Encrypts and decrypts under one key.
pub struct Vault {
    pub key: [u8; 32],
}

impl Vault {
    /// A vault with this key.
    pub fn new(key: &[u8; 32]) -> (r: Self)
        ensures
            r.key@ == key@,
    {
        Vault { key: *key }
    }

    /// The vault whose key is what a key file holds: thirty-two bytes.
    pub fn from_key_file(bytes: &[u8]) -> (r: Result<Self, String>)
        ensures
            match r {
                Ok(v) => v.key@ == bytes@,
                Err(e) => bytes@.len() != 32 && e@ == "invalid key file"@,
            },
    {
        if bytes.len() != 32 {
            return Err("invalid key file".to_owned());
        }
        let mut key: [u8; 32] = [0u8; 32];
        let mut i: usize = 0;
        while i < 32
            invariant
                i <= 32,
                bytes@.len() == 32,
                key@.len() == 32,
                key@.take(i as int) == bytes@.take(i as int),
            decreases 32 - i,
        {
            key[i] = bytes[i];
            i += 1;
            proof {
                assert(key@.take(i as int) =~= bytes@.take(i as int));
            }
        }
        proof {
            assert(key@.take(32) =~= key@);
            assert(bytes@.take(32) =~= bytes@);
        }
        Ok(Vault { key })
    }

    /// Encrypts under a fresh nonce: the ciphertext and the nonce. Which nonce
    /// is left open.
    pub fn encrypt(&self, plaintext: &[u8]) -> (r: Result<(Vec<u8>, Vec<u8>), String>)
        ensures
            match r {
                Ok((c, n)) => n@.len() == 12 && sealed(self.key@, n@, plaintext@) == Some(c@)
                    && opened(self.key@, n@, c@) == Some(plaintext@),
                Err(e) => e@ == "encryption failed: aead::Error"@ && exists|n: Seq<u8>|
                    n.len() == 12 && (#[trigger] sealed(self.key@, n, plaintext@)) is None,
            },
    {
        let nonce = random_nonce();
        match self.encrypt_with(plaintext, &nonce) {
            Ok(c) => Ok((c, nonce)),
            Err(e) => Err(e),
        }
    }

    /// Encrypts under a nonce.
    pub fn encrypt_with(&self, plaintext: &[u8], nonce: &[u8]) -> (r: Result<
        Vec<u8>,
        String,
    >)
        requires
            nonce@.len() == 12,
        ensures
            match r {
                Ok(c) => sealed(self.key@, nonce@, plaintext@) == Some(c@) && opened(
                    self.key@,
                    nonce@,
                    c@,
                ) == Some(plaintext@),
                Err(e) => sealed(self.key@, nonce@, plaintext@) is None && e@
                    == "encryption failed: aead::Error"@,
            },
    {
        match aes_encrypt(&self.key, nonce, plaintext) {
            Some(c) => Ok(c),
            None => Err("encryption failed: aead::Error".to_owned()),
        }
    }

    /// Decrypts a ciphertext.
    pub fn decrypt(&self, ciphertext: &[u8], nonce: &[u8]) -> (r: Result<Vec<u8>, String>)
        requires
            nonce@.len() == 12,
        ensures
            match r {
                Ok(p) => opened(self.key@, nonce@, ciphertext@) == Some(p@),
                Err(e) => opened(self.key@, nonce@, ciphertext@) is None && e@
                    == "decryption failed: aead::Error"@,
            },
    {
        match aes_decrypt(&self.key, nonce, ciphertext) {
            Some(p) => Ok(p),
            None => Err("decryption failed: aead::Error".to_owned()),
        }
    }
}

} // verus!
