//! The manager protocol: pluggable hooks invoked once per scalar node at
//! spawn time.  A manager set composes the available backends (the serde
//! codec and the editor); spawning a scalar node attaches every active
//! manager's record to that node.

use vstd::prelude::*;

use crate::tree::{DrawRecord, SerdeRecord};

verus! {

/// The fixed composition of managers a store is spawned with.  A set is
/// chosen once per registry; mixing different sets is refused.
#[derive(Debug, Clone, Copy, PartialEq, Eq, Structural)]
pub struct ManagerSet {
    /// Whether the serde codec manager is active.
    pub serde: bool,
    /// Whether the editor manager is active.
    pub egui: bool,
}

impl ManagerSet {
    /// No managers: spawned scalars carry no backend records.
    pub fn none() -> (r: Self)
        ensures
            !r.serde && !r.egui,
    {
        ManagerSet { serde: false, egui: false }
    }

    /// Only the serde codec manager.
    pub fn codec() -> (r: Self)
        ensures
            r.serde && !r.egui,
    {
        ManagerSet { serde: true, egui: false }
    }

    /// Only the editor manager.
    pub fn editor() -> (r: Self)
        ensures
            !r.serde && r.egui,
    {
        ManagerSet { serde: false, egui: true }
    }

    /// Both managers, observing the identical tree independently.
    pub fn all() -> (r: Self)
        ensures
            r.serde && r.egui,
    {
        ManagerSet { serde: true, egui: true }
    }

    /// The records every active manager attaches to a freshly spawned scalar
    /// node.
    pub fn new_entity(&self) -> (r: (Option<SerdeRecord>, Option<DrawRecord>))
        ensures
            r.0 is Some <==> self.serde,
            r.1 is Some <==> self.egui,
    {
        (
            if self.serde {
                Some(SerdeRecord)
            } else {
                None
            },
            if self.egui {
                Some(DrawRecord)
            } else {
                None
            },
        )
    }
}

} // verus!
