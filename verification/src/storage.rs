//! The interfaces the core expects from a persistence collaborator. The
//! store itself is an opaque request/response boundary; the core never
//! depends on its schema.

use vstd::prelude::*;

verus! {

/// A record that a storage backend can persist.
pub trait Storable {
    /// The type of the record's primary key.
    type IdType;
}

/// A backing store capable of holding records.
pub trait Storage {}

/// A record as the storage layer hands it around: still only named by
/// its key on some store, fully loaded, or failed to load.
pub enum Stored<'s, T: Storable, S: Storage> {
    Pointer(T::IdType, &'s S),
    Value(T),
    Error(String),
}

} // verus!
