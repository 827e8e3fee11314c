//! One durable paste record and its expiry test.

use vstd::prelude::*;

verus! {

/// A durable row: immutable once written, removed by explicit deletion, by a
/// burn-after-read fetch, or by the purge sweep once expired.
pub struct Entry {
    pub id: u64,
    pub content: String,
    pub language_hint: Option<String>,
    pub created_at: u64,
    pub expires_at: Option<u64>,
    pub burn_after_read: bool,
}

impl Clone for Entry {
    fn clone(&self) -> (r: Self)
        ensures
            r == *self,
    {
        Entry {
            id: self.id,
            content: self.content.clone(),
            language_hint: (match &self.language_hint {
                Some(s) => Some(s.clone()),
                None => None,
            }),
            created_at: self.created_at,
            expires_at: self.expires_at,
            burn_after_read: self.burn_after_read,
        }
    }
}

/// An entry whose expiry time has been reached is logically deleted, even
/// while the row is still physically present.
pub open spec fn spec_is_expired(e: Entry, now: u64) -> bool {
    match e.expires_at {
        Some(t) => t <= now,
        None => false,
    }
}

/// Runtime expiry test, equal to `spec_is_expired`.
pub fn is_expired(e: &Entry, now: u64) -> (r: bool)
    ensures
        r == spec_is_expired(*e, now),
{
    match e.expires_at {
        Some(t) => t <= now,
        None => false,
    }
}

} // verus!
