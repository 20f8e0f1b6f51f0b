//! The operations on a store: `get`, `add`, `set` and `delete`.
//!
//! A store is the text of one file, a record on each line. No operation reads
//! or writes the file: each takes the text and returns what was asked for, or
//! the text that the caller is to write.

use vstd::prelude::*;
use vstd::string::*;
use vstd::utf8::*;
use magic_crypt::MagicCryptError;
use crate::codec::{decoded, encode_record, encoded, read_line};
use crate::encrypter::{decrypt, decrypted, encrypt, encrypted, error_text, is_ciphertext};
use crate::laws::{law_add_then_found, law_delete_removes_the_name, law_set_leaves_one_record,
    lemma_searched_settles};
use crate::lines::{append_line, bytes_of, get_lines, lines_of, rendered, NEWLINE};
use crate::model::{all_records, count, forgets, is_secret_name, is_store, searched, stores,
    without, Search};
use crate::secret_errors::{SecretAddError, SecretDeleteError, SecretGetError, SecretSetError};
use crate::text::{find_from, lemma_find_byte, same_bytes};

verus! {

/// Searches the store for the first record of `name`.
pub fn search<'a>(store: &'a str, name: &str) -> (found: Search<&'a str>)
    ensures
        match searched(lines_of(encode_utf8(store@)), encode_utf8(name@)) {
            Search::Found(ciphertext) => found matches Search::Found(text) && encode_utf8(text@)
                == ciphertext,
            Search::Absent => found is Absent,
            Search::Malformed => found is Malformed,
        },
{
    let lines = get_lines(store);
    let wanted = name.as_bytes();
    let ghost all = lines_of(encode_utf8(store@));
    let mut i: usize = 0;
    while i < lines.len()
        invariant
            i <= lines@.len(),
            all == lines_of(encode_utf8(store@)),
            bytes_of(lines@) == all,
            wanted@ == encode_utf8(name@),
            searched(all.take(i as int), wanted@) is Absent,
        decreases lines@.len() - i,
    {
        let line = lines[i];
        proof {
            assert(all.take(i + 1).drop_last() =~= all.take(i as int));
            assert(all.take(i + 1).last() == encode_utf8(line@));
        }
        match read_line(line) {
            None => {
                proof {
                    lemma_searched_settles(all, wanted@, i + 1);
                }
                return Search::Malformed;
            },
            Some((key, ciphertext)) => {
                if same_bytes(key.as_bytes(), wanted) {
                    proof {
                        lemma_searched_settles(all, wanted@, i + 1);
                    }
                    return Search::Found(ciphertext);
                }
            },
        }
        i += 1;
    }
    assert(all.take(i as int) =~= all);
    Search::Absent
}

/// What `get` returns for a record that was found, given what came of decrypting it.
pub fn plaintext_of(outcome: Result<String, MagicCryptError>) -> (secret: Result<
    String,
    SecretGetError,
>)
    ensures
        match outcome {
            Ok(value) => secret == Ok::<String, SecretGetError>(value),
            Err(_) => secret matches Err(SecretGetError::DecryptionFailed(_)),
        },
{
    match outcome {
        Ok(value) => Ok(value),
        Err(error) => Err(SecretGetError::DecryptionFailed(error_text(&error))),
    }
}

/// Returns the secret of `name`, decrypted under `encryption_key`.
///
/// The first record of `name` counts. Lines after it are not read.
pub fn get(store: &str, name: &str, encryption_key: &str) -> (secret: Result<
    String,
    SecretGetError,
>)
    ensures
        match searched(lines_of(encode_utf8(store@)), encode_utf8(name@)) {
            Search::Found(ciphertext) => match decrypted(
                decode_utf8(ciphertext),
                encryption_key@,
            ) {
                Some(value) => secret matches Ok(text) && text@ == value,
                None => secret matches Err(SecretGetError::DecryptionFailed(_)),
            },
            Search::Absent => secret == Err::<String, SecretGetError>(SecretGetError::KeyNotFound),
            Search::Malformed => secret == Err::<String, SecretGetError>(
                SecretGetError::MalformedRecord,
            ),
        },
{
    match search(store, name) {
        Search::Found(ciphertext) => {
            proof {
                encode_utf8_decode_utf8(ciphertext@);
            }
            plaintext_of(decrypt(ciphertext, encryption_key))
        },
        Search::Absent => Err(SecretGetError::KeyNotFound),
        Search::Malformed => Err(SecretGetError::MalformedRecord),
    }
}

/// Whether `name` can be the name of a secret.
pub fn check_name(name: &str) -> (valid: bool)
    ensures
        valid == is_secret_name(encode_utf8(name@)),
{
    let bytes = name.as_bytes();
    let at = find_from(bytes, 0, NEWLINE);
    proof {
        assert(bytes@.skip(0) =~= bytes@);
        lemma_find_byte(bytes@, NEWLINE);
    }
    bytes.len() > 0 && at == bytes.len()
}

/// What `add` returns, given the ciphertext of the new secret: the text to
/// append to the store.
pub fn insert_record(store: &str, name: &str, ciphertext: &str) -> (appendix: Result<
    String,
    SecretAddError,
>)
    ensures
        match searched(lines_of(encode_utf8(store@)), encode_utf8(name@)) {
            Search::Found(_) => appendix matches Err(SecretAddError::DuplicateKey(taken))
                && taken@ == name@,
            Search::Absent => appendix matches Ok(text) && encode_utf8(text@) == encoded(
                encode_utf8(name@),
                encode_utf8(ciphertext@),
            ) + seq![NEWLINE],
            Search::Malformed => appendix == Err::<String, SecretAddError>(
                SecretAddError::MalformedRecord,
            ),
        },
        appendix matches Ok(text) ==> stores(
            encode_utf8(store@),
            encode_utf8(store@) + encode_utf8(text@),
            encode_utf8(name@),
            encode_utf8(ciphertext@),
        ),
{
    match search(store, name) {
        Search::Found(_) => Err(SecretAddError::DuplicateKey(name.to_owned())),
        Search::Absent => {
            let mut text = String::new();
            assert(encode_utf8(text@) =~= Seq::<u8>::empty());
            let line = encode_record(name, ciphertext);
            append_line(&mut text, line.as_str());
            proof {
                let before = encode_utf8(store@);
                assert(encode_utf8(text@) =~= encode_utf8(line@) + seq![NEWLINE]);
                assert(before + encode_utf8(text@) =~= before + encode_utf8(line@) + seq![
                    NEWLINE,
                ]);
                if is_store(before) && is_secret_name(encode_utf8(name@)) && is_ciphertext(
                    encode_utf8(ciphertext@),
                ) {
                    law_add_then_found(before, encode_utf8(name@), encode_utf8(ciphertext@));
                }
            }
            Ok(text)
        },
        Search::Malformed => Err(SecretAddError::MalformedRecord),
    }
}

/// Adds the secret `value` under `name`, unless the store has a record of that
/// name: returns the text to append to the store.
pub fn add(store: &str, name: &str, value: &str, encryption_key: &str) -> (appendix: Result<
    String,
    SecretAddError,
>)
    ensures
        match searched(lines_of(encode_utf8(store@)), encode_utf8(name@)) {
            Search::Found(_) => appendix matches Err(SecretAddError::DuplicateKey(taken))
                && taken@ == name@,
            Search::Absent => appendix matches Ok(text) && encode_utf8(text@) == encoded(
                encode_utf8(name@),
                encode_utf8(encrypted(value@, encryption_key@)),
            ) + seq![NEWLINE],
            Search::Malformed => appendix == Err::<String, SecretAddError>(
                SecretAddError::MalformedRecord,
            ),
        },
        appendix matches Ok(text) ==> stores(
            encode_utf8(store@),
            encode_utf8(store@) + encode_utf8(text@),
            encode_utf8(name@),
            encode_utf8(encrypted(value@, encryption_key@)),
        ),
        is_ciphertext(encode_utf8(encrypted(value@, encryption_key@))),
        decrypted(encrypted(value@, encryption_key@), encryption_key@) == Some(value@),
{
    let ciphertext = encrypt(value, encryption_key);
    insert_record(store, name, ciphertext.as_str())
}

/// Copies the store without the records of `name`, and says whether there were
/// any; `None` where a line of the store is no record.
fn copy_without(store: &str, name: &str) -> (copy: Option<(String, bool)>)
    ensures
        ({
            let lines = lines_of(encode_utf8(store@));
            let name = encode_utf8(name@);
            match copy {
                Some((text, found)) => {
                    &&& all_records(lines)
                    &&& encode_utf8(text@) == rendered(without(lines, name))
                    &&& found == (count(lines, name) > 0)
                },
                None => !all_records(lines),
            }
        }),
{
    let lines = get_lines(store);
    let wanted = name.as_bytes();
    let ghost all = lines_of(encode_utf8(store@));
    let mut text = String::new();
    let mut found = false;
    let mut i: usize = 0;
    assert(encode_utf8(text@) =~= rendered(without(all.take(0), wanted@)));
    while i < lines.len()
        invariant
            i <= lines@.len(),
            all == lines_of(encode_utf8(store@)),
            bytes_of(lines@) == all,
            wanted@ == encode_utf8(name@),
            all_records(all.take(i as int)),
            encode_utf8(text@) == rendered(without(all.take(i as int), wanted@)),
            found == (count(all.take(i as int), wanted@) > 0),
        decreases lines@.len() - i,
    {
        let line = lines[i];
        proof {
            assert(all.take(i + 1).drop_last() =~= all.take(i as int));
            assert(all.take(i + 1).last() == encode_utf8(line@));
            assert(all[i as int] == encode_utf8(line@));
        }
        match read_line(line) {
            None => {
                return None;
            },
            Some((key, _)) => {
                if same_bytes(key.as_bytes(), wanted) {
                    found = true;
                } else {
                    append_line(&mut text, line);
                    proof {
                        let kept = without(all.take(i as int), wanted@);
                        assert(kept.push(encode_utf8(line@)).drop_last() =~= kept);
                    }
                }
            },
        }
        proof {
            assert forall|j: int| 0 <= j < i + 1 implies decoded(#[trigger] all.take(i + 1)[j])
                is Some by {
                if j < i {
                    assert(all.take(i + 1)[j] == all.take(i as int)[j]);
                }
            }
        }
        i += 1;
    }
    assert(all.take(i as int) =~= all);
    Some((text, found))
}

/// Removes the records of `name`: returns the text to write in place of the store.
///
/// Where the store has no record of `name`, nothing is to be written.
pub fn delete(store: &str, name: &str) -> (rewritten: Result<String, SecretDeleteError>)
    ensures
        ({
            let lines = lines_of(encode_utf8(store@));
            let name = encode_utf8(name@);
            match rewritten {
                Ok(text) => {
                    &&& all_records(lines)
                    &&& count(lines, name) > 0
                    &&& encode_utf8(text@) == rendered(without(lines, name))
                },
                Err(SecretDeleteError::KeyNotFound) => all_records(lines) && count(lines, name)
                    == 0,
                Err(SecretDeleteError::MalformedRecord) => !all_records(lines),
                Err(SecretDeleteError::SecretWriteFailed(_)) => false,
            }
        }),
        rewritten matches Ok(text) ==> forgets(
            encode_utf8(store@),
            encode_utf8(text@),
            encode_utf8(name@),
        ),
{
    match copy_without(store, name) {
        Some((text, found)) => {
            if found {
                proof {
                    if is_store(encode_utf8(store@)) {
                        law_delete_removes_the_name(encode_utf8(store@), encode_utf8(name@));
                    }
                }
                Ok(text)
            } else {
                Err(SecretDeleteError::KeyNotFound)
            }
        },
        None => Err(SecretDeleteError::MalformedRecord),
    }
}

/// What `set` returns, given the ciphertext of the secret: the text to write
/// in place of the store.
pub fn upsert_record(store: &str, name: &str, ciphertext: &str) -> (rewritten: Result<
    String,
    SecretSetError,
>)
    ensures
        ({
            let lines = lines_of(encode_utf8(store@));
            let name = encode_utf8(name@);
            match rewritten {
                Ok(text) => {
                    &&& all_records(lines)
                    &&& encode_utf8(text@) == rendered(
                        without(lines, name).push(encoded(name, encode_utf8(ciphertext@))),
                    )
                },
                Err(SecretSetError::MalformedRecord) => !all_records(lines),
                Err(SecretSetError::SecretWriteFailed(_)) => false,
            }
        }),
        rewritten matches Ok(text) ==> stores(
            encode_utf8(store@),
            encode_utf8(text@),
            encode_utf8(name@),
            encode_utf8(ciphertext@),
        ),
{
    match copy_without(store, name) {
        Some((text, _)) => {
            let mut text = text;
            let line = encode_record(name, ciphertext);
            append_line(&mut text, line.as_str());
            proof {
                let kept = without(lines_of(encode_utf8(store@)), encode_utf8(name@));
                assert(kept.push(encode_utf8(line@)).drop_last() =~= kept);
                if is_store(encode_utf8(store@)) && is_secret_name(encode_utf8(name@))
                    && is_ciphertext(encode_utf8(ciphertext@)) {
                    law_set_leaves_one_record(
                        encode_utf8(store@),
                        encode_utf8(name@),
                        encode_utf8(ciphertext@),
                    );
                }
            }
            Ok(text)
        },
        None => Err(SecretSetError::MalformedRecord),
    }
}

/// Puts the secret `value` under `name`, in place of what the store has under
/// that name: returns the text to write in place of the store.
pub fn set(store: &str, name: &str, value: &str, encryption_key: &str) -> (rewritten: Result<
    String,
    SecretSetError,
>)
    ensures
        ({
            let lines = lines_of(encode_utf8(store@));
            let name = encode_utf8(name@);
            let ciphertext = encode_utf8(encrypted(value@, encryption_key@));
            match rewritten {
                Ok(text) => {
                    &&& all_records(lines)
                    &&& encode_utf8(text@) == rendered(
                        without(lines, name).push(encoded(name, ciphertext)),
                    )
                },
                Err(SecretSetError::MalformedRecord) => !all_records(lines),
                Err(SecretSetError::SecretWriteFailed(_)) => false,
            }
        }),
        rewritten matches Ok(text) ==> stores(
            encode_utf8(store@),
            encode_utf8(text@),
            encode_utf8(name@),
            encode_utf8(encrypted(value@, encryption_key@)),
        ),
        is_ciphertext(encode_utf8(encrypted(value@, encryption_key@))),
        decrypted(encrypted(value@, encryption_key@), encryption_key@) == Some(value@),
{
    let ciphertext = encrypt(value, encryption_key);
    upsert_record(store, name, ciphertext.as_str())
}

} // verus!
