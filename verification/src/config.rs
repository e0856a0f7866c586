//! Small service configuration values used around the derivation engine's
//! storage and client plumbing.

use vstd::prelude::*;

verus! {

/// Whether the underlying storage is opened read-only (a dry run derives
/// into memory and must not write through).
#[derive(Clone, Copy, PartialEq, Eq, Structural, Debug)]
pub struct ReadOnlyStorage(pub bool);

/// Whether blobstore scrubbing is switched on.
#[derive(Clone, Copy, PartialEq, Eq, Structural, Debug)]
pub enum Scrubbing {
    Enabled,
    Disabled,
}

/// Popularity-based routing thresholds for served objects.
#[derive(Debug)]
pub struct ObjectPopularity {
    /// Counter category to read popularity from.
    pub category: String,
    /// How many seconds to look back.
    pub window: u32,
    /// Objects past this many downloads within the window are not
    /// consistently routed.
    pub threshold: u64,
}

impl ObjectPopularity {
    /// Validates raw configuration values: the window and threshold arrive
    /// as signed numbers and must fit their fields.
    pub fn from_raw(category: String, window: i64, threshold: i64) -> (r: Result<
        ObjectPopularity,
        (),
    >)
        ensures
            (r is Ok) <==> (0 <= window <= u32::MAX && 0 <= threshold),
            r is Ok ==> r.unwrap().category@ == category@ && r.unwrap().window == window
                && r.unwrap().threshold == threshold,
    {
        if window < 0 || window > u32::MAX as i64 {
            return Err(());
        }
        if threshold < 0 {
            return Err(());
        }
        Ok(ObjectPopularity { category, window: window as u32, threshold: threshold as u64 })
    }
}

/// Client certificate and private key paths for TLS mutual authentication.
#[derive(Debug)]
pub struct ClientCreds {
    pub cert: String,
    pub key: String,
}

impl ClientCreds {
    /// Builds credentials only when both a certificate and a key path are
    /// configured; either alone is useless.
    pub fn from_options(cert: Option<String>, key: Option<String>) -> (r: Option<ClientCreds>)
        ensures
            (r is Some) <==> (cert is Some && key is Some),
            r is Some ==> r.unwrap().cert@ == cert.unwrap()@ && r.unwrap().key@
                == key.unwrap()@,
    {
        match (cert, key) {
            (Some(cert), Some(key)) => Some(ClientCreds { cert, key }),
            _ => None,
        }
    }
}

} // verus!
