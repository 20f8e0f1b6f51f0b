//! A store as a list of lines: what a search finds in it, what is left of it
//! without a name, and which texts are stores.

use vstd::prelude::*;
use crate::codec::decoded;
use crate::encrypter::is_ciphertext;
use crate::lines::{is_terminated, lines_of, NEWLINE};

verus! {

/// What a search for a name comes to.
#[derive(Debug, PartialEq, Eq)]
pub enum Search<T> {
    /// The first record of that name, of which this is the ciphertext.
    Found(T),
    /// Every line is a record, and none has that name.
    Absent,
    /// A line that is no record stands before any record of that name.
    Malformed,
}

/// Whether `line` is a record of `name`.
pub open spec fn carries(line: Seq<u8>, name: Seq<u8>) -> bool {
    decoded(line) matches Some(record) && record.0 == name
}

/// What `line` alone says to a search for `name`.
pub open spec fn answer(line: Seq<u8>, name: Seq<u8>) -> Search<Seq<u8>> {
    match decoded(line) {
        None => Search::Malformed,
        Some(record) => if record.0 == name {
            Search::Found(record.1)
        } else {
            Search::Absent
        },
    }
}

/// What a search for `name` from the top of `lines` comes to: what it comes to
/// before the last line or, where that is nothing, what the last line says.
pub open spec fn searched(lines: Seq<Seq<u8>>, name: Seq<u8>) -> Search<Seq<u8>>
    decreases lines.len(),
{
    if lines.len() == 0 {
        Search::Absent
    } else {
        match searched(lines.drop_last(), name) {
            Search::Absent => answer(lines.last(), name),
            settled => settled,
        }
    }
}

/// Whether every line of `lines` is a record.
pub open spec fn all_records(lines: Seq<Seq<u8>>) -> bool {
    forall|i: int| 0 <= i < lines.len() ==> decoded(#[trigger] lines[i]) is Some
}

/// How many of `lines` are records of `name`.
pub open spec fn count(lines: Seq<Seq<u8>>, name: Seq<u8>) -> nat
    decreases lines.len(),
{
    if lines.len() == 0 {
        0
    } else if carries(lines.last(), name) {
        count(lines.drop_last(), name) + 1
    } else {
        count(lines.drop_last(), name)
    }
}

/// The lines of `lines` that are no records of `name`, in their order.
pub open spec fn without(lines: Seq<Seq<u8>>, name: Seq<u8>) -> Seq<Seq<u8>>
    decreases lines.len(),
{
    if lines.len() == 0 {
        lines
    } else if carries(lines.last(), name) {
        without(lines.drop_last(), name)
    } else {
        without(lines.drop_last(), name).push(lines.last())
    }
}

/// Whether `name` can be the name of a secret: it is not empty and holds no newline.
pub open spec fn is_secret_name(name: Seq<u8>) -> bool {
    name.len() > 0 && forall|i: int| 0 <= i < name.len() ==> #[trigger] name[i] != NEWLINE
}

/// Whether `line` is a record that can stand in a store: its name can be the
/// name of a secret, and its ciphertext holds no line break.
pub open spec fn is_valid_record(line: Seq<u8>) -> bool {
    decoded(line) matches Some(record) && is_secret_name(record.0) && is_ciphertext(record.1)
}

/// Whether every line of `lines` is a record that can stand in a store.
pub open spec fn all_valid_records(lines: Seq<Seq<u8>>) -> bool {
    forall|i: int| 0 <= i < lines.len() ==> is_valid_record(#[trigger] lines[i])
}

/// Whether `text` is a store: a record on every line, and a newline after
/// the last.
pub open spec fn is_store(text: Seq<u8>) -> bool {
    is_terminated(text) && all_valid_records(lines_of(text))
}

/// Whether no name has two records in `lines`.
pub open spec fn has_distinct_names(lines: Seq<Seq<u8>>) -> bool {
    forall|name: Seq<u8>| #[trigger] count(lines, name) <= 1
}

/// Whether `after` stores `ciphertext` under `name`, given that `before` is a
/// store and that `name` and `ciphertext` can stand in one: then `after` is a
/// store, a search for `name` finds `ciphertext` in it, and its names are
/// distinct where those of `before` are.
pub open spec fn stores(
    before: Seq<u8>,
    after: Seq<u8>,
    name: Seq<u8>,
    ciphertext: Seq<u8>,
) -> bool {
    is_store(before) && is_secret_name(name) && is_ciphertext(ciphertext) ==> {
        &&& is_store(after)
        &&& searched(lines_of(after), name) == Search::Found(ciphertext)
        &&& has_distinct_names(lines_of(before)) ==> has_distinct_names(lines_of(after))
    }
}

/// Whether `after` has forgotten `name`, given that `before` is a store: then
/// `after` is a store, a search for `name` finds nothing in it, and its names
/// are distinct where those of `before` are.
pub open spec fn forgets(before: Seq<u8>, after: Seq<u8>, name: Seq<u8>) -> bool {
    is_store(before) ==> {
        &&& is_store(after)
        &&& searched(lines_of(after), name) is Absent
        &&& has_distinct_names(lines_of(before)) ==> has_distinct_names(lines_of(after))
    }
}

} // verus!
