//! The durable key-value store behind the chain: an embedded sled database,
//! held behind trusted wrappers.
//!
//! Nothing is promised about what the disk holds: every reader of the store
//! validates what it gets back, so the library's guarantees hold for every
//! content the store may return.

use vstd::prelude::*;
use crate::errors::ChainError;

verus! {

/// A handle to the embedded key-value store.
#[verifier::external_body]
pub struct Store {
    db: sled::Db,
}

impl Store {
    /// Relies on sled::open: opens (or creates) the database at `path`.
    #[verifier::external_body]
    pub fn open(path: &str) -> (r: Result<Store, ChainError>)
        ensures
            match r {
                Ok(_) => true,
                Err(e) => e == ChainError::PersistenceError,
            },
    {
        match sled::open(path) {
            Ok(db) => Ok(Store { db }),
            Err(_) => Err(ChainError::PersistenceError),
        }
    }

    /// Relies on sled::Db::insert: stores `val` under `key`.
    #[verifier::external_body]
    pub fn put(&mut self, key: &[u8], val: &[u8]) -> (r: Result<(), ChainError>)
        ensures
            match r {
                Ok(_) => true,
                Err(e) => e == ChainError::PersistenceError,
            },
    {
        match self.db.insert(key, val) {
            Ok(_) => Ok(()),
            Err(_) => Err(ChainError::PersistenceError),
        }
    }

    /// Relies on sled::Db::scan_prefix: returns the stored pairs whose key
    /// begins with `prefix`, in ascending key order; pairs the store fails
    /// to read are left out.
    #[verifier::external_body]
    pub fn scan_prefix(&self, prefix: &[u8]) -> (r: Vec<(Vec<u8>, Vec<u8>)>)
    {
        let mut out: Vec<(Vec<u8>, Vec<u8>)> = Vec::new();
        for item in self.db.scan_prefix(prefix) {
            if let Ok((k, v)) = item {
                out.push((k.to_vec(), v.to_vec()));
            }
        }
        out
    }

    /// Relies on sled::Db::flush: makes prior writes durable.
    #[verifier::external_body]
    pub fn flush(&mut self) -> (r: Result<(), ChainError>)
        ensures
            match r {
                Ok(_) => true,
                Err(e) => e == ChainError::PersistenceError,
            },
    {
        match self.db.flush() {
            Ok(_) => Ok(()),
            Err(_) => Err(ChainError::PersistenceError),
        }
    }
}

} // verus!
