//! The settings and stage names of the physics systems.
use vstd::prelude::*;

verus! {

/// Gravity and the motion of rigid bodies.
#[derive(Debug, Default)]
pub struct PhysicsPlugin {}

/// Collisions with the terrain.
#[derive(Debug, Default)]
pub struct CollisionPlugin {}

/// The stage that moves rigid bodies.
#[derive(Copy, Clone, Debug, Hash, PartialEq, Eq)]
pub struct MotionApplication;

/// The stage that resolves collisions, after motion.
#[derive(Copy, Clone, Debug, Hash, PartialEq, Eq)]
pub struct CollisionResolution;

} // verus!
