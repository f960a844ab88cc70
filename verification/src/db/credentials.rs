//! Rows of encrypted credentials.

use vstd::prelude::*;
use vstd::string::*;
use vstd::utf8::{decode_utf8, encode_utf8, valid_utf8};
use crate::db::crypto;
use crate::db::crypto::Vault;
use crate::overlay::utf8_text;
use crate::text;

verus! {

/// A credential, by its ciphertext and nonce.
#[derive(Clone, PartialEq, Eq, Debug)]
pub struct CredentialRow {
    pub id: String,
    pub provider: String,
    pub env_key: String,
    pub encrypted_value: Vec<u8>,
    pub nonce: Vec<u8>,
    pub created_at: String,
    pub updated_at: String,
}

/// What std says of bytes that are no UTF-8.
pub uninterp spec fn utf8_fault(bytes: Seq<u8>) -> Seq<char>;

/// The message of the error with which `String::from_utf8` refuses bytes.
#[verifier::external_body]
fn utf8_error(bytes: &Vec<u8>) -> (r: String)
    requires
        !valid_utf8(bytes@),
    ensures
        r@ == utf8_fault(bytes@),
{
    match String::from_utf8(bytes.clone()) {
        Ok(s) => s,
        Err(e) => e.to_string(),
    }
}

/// The value of a stored credential, or why it cannot be had.
pub open spec fn opened_value(
    key: Seq<u8>,
    provider_id: Seq<char>,
    env_key: Seq<char>,
    ciphertext: Seq<u8>,
    nonce: Seq<u8>,
) -> Result<Seq<char>, Seq<char>> {
    match crypto::opened(key, nonce, ciphertext) {
        None => Err("decryption failed: aead::Error"@),
        Some(plain) => if valid_utf8(plain) {
            Ok(decode_utf8(plain))
        } else {
            Err(
                "credential "@ + provider_id + ":"@ + env_key + " is not valid UTF-8: "@
                    + utf8_fault(plain),
            )
        },
    }
}

/// The value of a stored credential.
pub fn open_credential(vault: &Vault, provider_id: &str, env_key: &str, row: &CredentialRow) -> (r:
    Result<String, String>)
    requires
        row.nonce@.len() == 12,
    ensures
        match r {
            Ok(v) => opened_value(
                vault.key@,
                provider_id@,
                env_key@,
                row.encrypted_value@,
                row.nonce@,
            ) == Ok::<Seq<char>, Seq<char>>(v@),
            Err(e) => opened_value(
                vault.key@,
                provider_id@,
                env_key@,
                row.encrypted_value@,
                row.nonce@,
            ) == Err::<Seq<char>, Seq<char>>(e@),
        },
{
    let plain = match vault.decrypt(&row.encrypted_value, &row.nonce) {
        Ok(p) => p,
        Err(e) => {
            return Err(e);
        },
    };
    match utf8_text(&plain) {
        Some(s) => Ok(s),
        None => {
            let fault = utf8_error(&plain);
            let mut msg = text::concat4("credential ", provider_id, ":", env_key);
            msg.append(" is not valid UTF-8: ");
            msg.append(fault.as_str());
            Err(msg)
        },
    }
}

/// Encrypts the value of a credential. Whatever nonce is drawn, the result
/// opens to the value again.
pub fn seal_credential(vault: &Vault, value: &str) -> (r: Result<(Vec<u8>, Vec<u8>), String>)
    ensures
        match r {
            Ok((ciphertext, nonce)) => nonce@.len() == 12 && forall|provider_id, env_key|
                #[trigger] opened_value(
                    vault.key@,
                    provider_id,
                    env_key,
                    ciphertext@,
                    nonce@,
                ) == Ok::<Seq<char>, Seq<char>>(value@),
            Err(e) => e@ == "encryption failed: aead::Error"@,
        },
{
    let bytes = value.as_bytes_vec();
    let r = vault.encrypt(&bytes);
    proof {
        vstd::utf8::encode_utf8_valid_utf8(value@);
        vstd::utf8::encode_utf8_decode_utf8(value@);
    }
    r
}

/// A credential that was stored reads back: what was encrypted under a key and
/// a nonce opens to the text that went in.
pub proof fn law_stored_credential_reads_back(
    key: Seq<u8>,
    nonce: Seq<u8>,
    value: Seq<char>,
    ciphertext: Seq<u8>,
    provider_id: Seq<char>,
    env_key: Seq<char>,
)
    requires
        crypto::opened(key, nonce, ciphertext) == Some(encode_utf8(value)),
    ensures
        opened_value(key, provider_id, env_key, ciphertext, nonce) == Ok::<Seq<char>, Seq<char>>(
            value,
        ),
{
    vstd::utf8::encode_utf8_valid_utf8(value);
    vstd::utf8::encode_utf8_decode_utf8(value);
}

} // verus!
