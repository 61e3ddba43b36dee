use vstd::prelude::*;

verus! {

/// Everything a database operation can fail with.
///
/// `ReferentialIntegrity` carries the store and encoded key of the
/// record whose `Error`-behaviour link blocked a delete.
#[derive(Debug, Clone)]
pub enum Error {
    /// A store was used before `register` installed it.
    NotRegistered,
    /// The record a lookup or delete addressed does not exist.
    NotFound,
    /// An `Error`-behaviour link points at a record that still
    /// exists, so the delete was aborted without mutating anything.
    ReferentialIntegrity { store: String, key: Vec<u8> },
    /// Key bytes that do not decode to a key.
    KeyEncodingError,
    /// A payload did not decode to the requested record type.
    SerializationError,
    /// The storage engine failed (I/O, corruption, or an exhausted
    /// transaction retry).
    StorageEngineError,
}

} // verus!
