//! Encryption and decryption of one secret, by AES-256 in CBC mode with PKCS7
//! padding, the ciphertext written in base64.
//!
//! The cipher itself is `magic_crypt`'s. What this library knows of it is
//! stated on the three functions that call it, `encrypt_str_to_base64`,
//! `decrypt_base64_to_string` and `error_text`, and is believed, not proved.

use vstd::prelude::*;
use vstd::utf8::*;
use magic_crypt::{MagicCrypt256, MagicCryptError, MagicCryptTrait};
use crate::lines::{CARRIAGE_RETURN, NEWLINE};

verus! {

/// The error of `magic_crypt`. Nothing is known of what it holds.
#[verifier::external_type_specification]
#[verifier::external_body]
pub struct ExMagicCryptError(magic_crypt::MagicCryptError);

/// The ciphertext of `value` under `key`: what `encrypt_str_to_base64` returns.
pub uninterp spec fn encrypted(value: Seq<char>, key: Seq<char>) -> Seq<char>;

/// The plaintext of `ciphertext` under `key`, or `None` where it cannot be
/// decrypted: what `decrypt_base64_to_string` returns, but for the error.
pub uninterp spec fn decrypted(ciphertext: Seq<char>, key: Seq<char>) -> Option<Seq<char>>;

/// Whether `c` is one of the 64 characters of base64, or the `=` that pads it.
pub open spec fn is_base64_char(c: char) -> bool {
    ||| 'A' <= c <= 'Z'
    ||| 'a' <= c <= 'z'
    ||| '0' <= c <= '9'
    ||| c == '+'
    ||| c == '/'
    ||| c == '='
}

/// Whether `text` is made of the characters of base64.
pub open spec fn is_base64(text: Seq<char>) -> bool {
    forall|i: int| 0 <= i < text.len() ==> is_base64_char(#[trigger] text[i])
}

/// Whether `ciphertext` can stand in a record: it holds no newline and no
/// carriage return.
pub open spec fn is_ciphertext(ciphertext: Seq<u8>) -> bool {
    forall|i: int|
        0 <= i < ciphertext.len() ==> #[trigger] ciphertext[i] != NEWLINE && ciphertext[i]
            != CARRIAGE_RETURN
}

/// Calls `MagicCrypt256::new` with `key` and no initialisation vector, and on
/// the cipher `MagicCryptTrait::encrypt_str_to_base64` with `value`.
///
/// Claimed of it: the result depends on `value` and `key` alone; it is written
/// in base64; and decrypted under the same key it gives `value` back.
#[verifier::external_body]
fn encrypt_str_to_base64(key: &str, value: &str) -> (ciphertext: String)
    ensures
        ciphertext@ == encrypted(value@, key@),
        is_base64(ciphertext@),
        decrypted(ciphertext@, key@) == Some(value@),
{
    MagicCrypt256::new(key, None::<&[u8]>).encrypt_str_to_base64(value)
}

/// Calls `MagicCrypt256::new` with `key` and no initialisation vector, and on
/// the cipher `MagicCryptTrait::decrypt_base64_to_string` with `ciphertext`.
///
/// Claimed of it: whether it succeeds, and what it then returns, depends on
/// `ciphertext` and `key` alone.
#[verifier::external_body]
fn decrypt_base64_to_string(key: &str, ciphertext: &str) -> (plaintext: Result<
    String,
    MagicCryptError,
>)
    ensures
        match plaintext {
            Ok(value) => decrypted(ciphertext@, key@) == Some(value@),
            Err(_) => decrypted(ciphertext@, key@) is None,
        },
{
    MagicCrypt256::new(key, None::<&[u8]>).decrypt_base64_to_string(ciphertext)
}

/// Formats `error` by its `Display`. Nothing is claimed of the text.
#[verifier::external_body]
pub(crate) fn error_text(error: &MagicCryptError) -> (text: String) {
    format!("{}", error)
}

/// A text in base64 holds no line break.
pub proof fn lemma_base64_is_ciphertext(text: Seq<char>)
    requires
        is_base64(text),
    ensures
        is_ciphertext(encode_utf8(text)),
{
    assert(is_ascii_chars(text)) by {
        assert forall|i: int| 0 <= i < text.len() implies '\0' <= #[trigger] text[i]
            <= '\u{7f}' by {
            assert(is_base64_char(text[i]));
        }
    }
    is_ascii_chars_encode_utf8(text);
    let bytes = encode_utf8(text);
    assert forall|i: int| 0 <= i < bytes.len() implies #[trigger] bytes[i] != NEWLINE && bytes[i]
        != CARRIAGE_RETURN by {
        assert(is_base64_char(text[i]));
        assert(bytes[i] == text[i] as u8);
    }
}

/// Encrypts `value` under `key`.
pub fn encrypt(value: &str, key: &str) -> (ciphertext: String)
    ensures
        ciphertext@ == encrypted(value@, key@),
        decrypted(ciphertext@, key@) == Some(value@),
        is_ciphertext(encode_utf8(ciphertext@)),
{
    let ciphertext = encrypt_str_to_base64(key, value);
    proof {
        lemma_base64_is_ciphertext(ciphertext@);
    }
    ciphertext
}

/// Decrypts `value` under `key`.
pub fn decrypt(value: &str, key: &str) -> (plaintext: Result<String, MagicCryptError>)
    ensures
        match plaintext {
            Ok(text) => decrypted(value@, key@) == Some(text@),
            Err(_) => decrypted(value@, key@) is None,
        },
{
    decrypt_base64_to_string(key, value)
}

} // verus!
