//! Verified core of a prefab composition ("cooking") pipeline.
//!
//! A *prefab* is an authored, reusable template of entities and their
//! definition-form components, identified by a 128-bit asset id.  *Cooking*
//! resolves a prefab's dependency graph (bases before dependents), merges
//! every entity of every definition into one destination world, applies
//! field-level override diffs in dependency order, runs the registered
//! spawn transforms (which allocate bodies in a physics world), and packages
//! the result together with the authored-entity identity map.  The cooked
//! result is gated by a serialization round trip, which is proved to succeed.

pub mod ids;
pub mod errors;
pub mod keymap;
pub mod component;
pub mod registry;
pub mod world;
pub mod prefab;
pub mod resolver;
pub mod merge;
pub mod diff;
pub mod overrides;
pub mod physics;
pub mod spawn;
pub mod codec;
pub mod cook;
