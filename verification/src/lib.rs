//! A configuration tree engine.
//!
//! A declared schema of scalar, struct and enum fields is materialized into an
//! append-only node store ([`tree::ConfigStore`]), projected back out as typed
//! readers, observed through cheap generation-based change witnesses, and
//! persisted as a flat path-keyed map.  Pluggable managers (a serde codec and
//! an editor) attach per-field records to scalar nodes at spawn time.

use vstd::prelude::*;

pub mod codec;
pub mod editor;
pub mod json;
pub mod manager;
pub mod read;
pub mod registry;
pub mod schema;
pub mod spawn;
pub mod strutil;
pub mod tree;

verus! {

/// Tracks the number of changes to a config field.
///
/// After each change, the new generation is greater than the previous one.
/// It starts at 1 for a freshly spawned node.
#[derive(Debug, Clone, Copy, PartialEq, Eq, Structural)]
pub struct FieldGeneration(pub u64);

impl FieldGeneration {
    /// The generation every node starts with.
    pub fn initial() -> (r: Self)
        ensures
            r.0 == 1,
    {
        FieldGeneration(1)
    }

    /// Increments the generation by one.
    ///
    /// Overflow of the counter is a fatal invariant violation in this design,
    /// so callers must rule it out.
    pub fn next(self) -> (r: Self)
        requires
            self.0 < u64::MAX,
        ensures
            r.0 == self.0 + 1,
    {
        FieldGeneration(self.0 + 1)
    }
}

} // verus!
