//! Error kinds surfaced by the entry store, the render cache and the layer.

use vstd::prelude::*;

verus! {

/// What can go wrong in this subsystem.
///
/// `NotFound` covers an absent, expired or already burned entry. `Storage`
/// stands for a durability failure of the underlying store. `Render` reports a
/// failed rendering; such a failure is never cached, so the next request
/// retries. `InvalidConfiguration` rejects a zero cache capacity or a
/// non-positive purge interval at construction time.
#[derive(Clone, Copy, Debug, PartialEq, Eq, Structural)]
pub enum Error {
    NotFound,
    Storage,
    Render,
    InvalidConfiguration,
}

} // verus!
