//! The raw byte key-value store, provided by the sled library.
//!
//! The engine persists blocks, the chain tip pointer, the peer registry and
//! the local secret keys through this interface.  `db_view` names the
//! abstract contents of a store handle; the wrappers say how each call reads
//! or rewrites those contents.  Nothing is promised when sled itself reports
//! a failure.

use vstd::prelude::*;
use crate::errors::NodeError;

verus! {

#[verifier::external_type_specification]
#[verifier::external_body]
pub struct ExDb(sled::Db);

/// The contents of the store behind `db`: a map from byte keys to byte values.
pub uninterp spec fn db_view(db: sled::Db) -> Map<Seq<u8>, Seq<u8>>;

/// Opens a fresh, empty, self-deleting store.
///
/// Relies on `sled::Config::open` with `temporary(true)`: the database is
/// created anew, so it starts with no entries.
#[verifier::external_body]
pub fn open_temporary() -> (r: Result<sled::Db, NodeError>)
    ensures
        match r {
            Ok(db) => db_view(db) == Map::<Seq<u8>, Seq<u8>>::empty(),
            Err(e) => e == NodeError::StorageFailure,
        },
{
    match sled::Config::new().temporary(true).open() {
        Ok(db) => Ok(db),
        Err(_) => Err(NodeError::StorageFailure),
    }
}

/// Stores `value` under `key`, replacing any previous value.
///
/// Relies on `sled::Tree::insert`: on success the store maps `key` to `value`
/// and every other key is untouched.
#[verifier::external_body]
pub fn insert(db: &mut sled::Db, key: &[u8], value: &[u8]) -> (r: Result<(), NodeError>)
    ensures
        match r {
            Ok(()) => db_view(*final(db)) == db_view(*old(db)).insert(key@, value@),
            Err(e) => e == NodeError::StorageFailure,
        },
{
    match db.insert(key, value) {
        Ok(_) => Ok(()),
        Err(_) => Err(NodeError::StorageFailure),
    }
}

/// Looks `key` up in the store.
///
/// Relies on `sled::Tree::get`: on success it returns the stored value for
/// `key`, or `None` when the store has no entry for it.
#[verifier::external_body]
pub fn get(db: &sled::Db, key: &[u8]) -> (r: Result<Option<Vec<u8>>, NodeError>)
    ensures
        match r {
            Ok(o) => match o {
                Some(v) => db_view(*db).contains_key(key@) && v@ == db_view(*db)[key@],
                None => !db_view(*db).contains_key(key@),
            },
            Err(e) => e == NodeError::StorageFailure,
        },
{
    match db.get(key) {
        Ok(Some(v)) => Ok(Some(v.to_vec())),
        Ok(None) => Ok(None),
        Err(_) => Err(NodeError::StorageFailure),
    }
}

/// Opens (or creates) the durable store at `path`.
///
/// Relies on `sled::Config::open` with a fixed path: the database is read
/// back from disk, so nothing is promised about its contents.
#[verifier::external_body]
pub fn open_at(path: &str) -> (r: Result<sled::Db, NodeError>)
    ensures
        match r {
            Ok(db) => true,
            Err(e) => e == NodeError::StorageFailure,
        },
{
    match sled::Config::new().path(path).open() {
        Ok(db) => Ok(db),
        Err(_) => Err(NodeError::StorageFailure),
    }
}

} // verus!
