//! An ordered persistent key-value store: sorted maps whose contents are
//! serialized into a byte-addressed backing store under per-map namespaces,
//! with one additional layer of per-owner nested numeric maps.

pub mod bytemap;
pub mod codec;
pub mod contract;
pub mod laws;
pub mod lex;
pub mod nummap;
pub mod persist;
pub mod store;

use vstd::prelude::*;

verus! {

/// Why an operation on the store aborted.
#[derive(Clone, Copy, Debug, PartialEq, Eq, Structural)]
pub enum StoreError {
    /// A key or owner was absent in a context with strict semantics.
    NotFound,
    /// The backing store held data inconsistent with the map's invariants.
    StructuralCorruption,
}

} // verus!
