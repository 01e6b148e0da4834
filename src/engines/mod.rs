use crate::error::KvsError;
use vstd::prelude::*;

pub mod index;
pub mod kvs;
pub mod names;
pub mod record;

pub use kvs::{KvStore, Segment};

verus! {

/// A key/value engine shared by the server's workers.
pub trait KVEngine: Clone + Send + 'static {
    /// Sets a key to a value; the time-to-live is carried and not enforced.
    fn set(&self, key: String, value: String, ttl: u32) -> Result<(), KvsError>;

    /// The value of a key, or `None` when it is absent.
    fn get(&self, key: String) -> Result<Option<String>, KvsError>;

    /// The values of the keys from `start` to `end`, both included, in key order.
    fn scan(&self, start: String, end: String) -> Result<Vec<String>, KvsError>;

    /// Removes a key; `KeyNotFound` when it is absent.
    fn remove(&self, key: String) -> Result<(), KvsError>;
}

} // verus!
