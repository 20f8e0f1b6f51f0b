//! A store of named secrets, kept as encrypted records in one text file.
//!
//! The library holds the record format, the splitting of a store into lines
//! and the four operations on a store: `get`, `add`, `set` and `delete`. It
//! never touches a file: every operation takes the text of the store and
//! hands back a value or the text to write.
//!
//! The contracts speak of a text through its bytes, `encode_utf8(text@)`,
//! since a record gives the length of its name in bytes. `codec` states the
//! format of one record, `lines` that of a store, `model` what the operations
//! come to on a list of lines, `store` the operations themselves, and `laws`
//! what holds from one operation to the next. `encrypter` calls the cipher,
//! and is the one place where something is believed and not proved.

pub mod codec;
pub mod encrypter;
pub mod laws;
pub mod lines;
pub mod model;
pub mod secret_errors;
pub mod store;
pub mod text;

