//! Marker types for the system groups surrounding the engine.
//!
//! The engine itself only answers "where are the obstacles" and "where do
//! agents want to go"; the movement and combat systems that consume its path
//! results live in the application.  These markers name those groups on the
//! public surface so the application can key its registration off them.

use vstd::prelude::*;

verus! {

/// Names the group of behaviour systems (chasing, target following) that
/// read per-agent path results each tick.
pub struct BehaviourPluginGroup;

/// Names the group of combat systems that request paths while closing on a
/// target.
pub struct CombatPluginGroup;

} // verus!
