//! Saving and loading chunks (not done yet: nothing is saved).
use super::LoadEvents;
use vstd::prelude::*;

verus! {

/// The position of a region of chunks on disk.
#[derive(Copy, Clone, Debug, Eq, PartialEq, Hash)]
pub struct RegionPos {
    pub x: i32,
    pub z: i32,
}

/// What is known of the chunks kept on disk.
#[derive(Debug)]
pub struct WorldPersistence {}

impl WorldPersistence {
    pub fn new() -> (r: Self)
        ensures
            r == (WorldPersistence {}),
    {
        Self {}
    }
}

/// Reacts to the load events of an update; saving is not done yet, so it
/// leaves everything as it was.
pub fn update_persistence(persistence: &mut WorldPersistence, load_events: &LoadEvents)
    ensures
        *final(persistence) == *old(persistence),
{
}

} // verus!
