//! Prefab definitions: the authored, immutable input of a cook request.

use vstd::prelude::*;
use crate::component::{RIGID_BODY_BALL_DEF_TYPE, RIGID_BODY_BOX_DEF_TYPE};
use crate::keymap::UuidMap;
use crate::world::{has_comp, World};

verus! {

/// The payload of one component override.  Only the binary encoding is
/// supported; a structured-value payload has no defined semantics and is
/// rejected explicitly when encountered.
pub enum DiffPayload {
    /// A field-level diff in this pipeline's binary framing.
    BinaryDiff(Vec<u8>),
    /// The unimplemented alternate encoding; its payload is not modeled.
    StructuredValueDiff,
}

/// One override a dependent prefab applies onto a component of an entity
/// that originates in a referenced base prefab.
pub struct ComponentOverride {
    /// The schema of the overridden component.
    pub component_type: u128,
    /// What to change.
    pub data: DiffPayload,
}

/// A reference from a dependent prefab to a base prefab: per base entity,
/// an ordered list of component overrides.
pub struct PrefabRef {
    /// Overrides keyed by the base prefab's authored entity id.
    pub overrides: UuidMap<Vec<ComponentOverride>>,
}

impl PrefabRef {
    /// The override table is well formed.
    pub open spec fn wf(self) -> bool {
        self.overrides.wf()
    }
}

/// One loaded prefab definition.  Immutable once loaded; cached by id for
/// the duration of a cook request.
pub struct PrefabDefinition {
    /// The asset id of this prefab.
    pub id: u128,
    /// The authored entities and their definition-form components.
    pub world: World,
    /// Authored entity id to the entity's index in `world`.
    pub entities: UuidMap<usize>,
    /// Referenced base prefabs and the overrides applied onto them.
    pub prefab_refs: UuidMap<PrefabRef>,
}

impl PrefabDefinition {
    /// Authored data is well formed: the world and both tables hold their
    /// invariants, every authored entity id names a live entity, and no
    /// entity carries two rigid-body definitions (both transform into the
    /// single runtime rigid-body slot).
    pub open spec fn wf(self) -> bool {
        &&& self.world.wf()
        &&& self.entities.wf()
        &&& forall|i: int| 0 <= i < self.entities.vals().len() ==>
                (#[trigger] self.entities.vals()[i]) < self.world@.len()
        &&& self.prefab_refs.wf()
        &&& forall|i: int| 0 <= i < self.prefab_refs.vals().len() ==>
                (#[trigger] self.prefab_refs.vals()[i]).wf()
        &&& forall|e: int| 0 <= e < self.world@.len() ==>
                !(has_comp(#[trigger] self.world@[e], RIGID_BODY_BALL_DEF_TYPE)
                    && has_comp(self.world@[e], RIGID_BODY_BOX_DEF_TYPE))
    }
}

/// The cooked result: the destination world in runtime form, plus the
/// identity map from authored entity id to destination entity index.
/// Constructed fresh per cook request; read-only once returned.
pub struct CookedPrefab {
    /// The destination world.
    pub world: World,
    /// Authored entity id to destination entity index.
    pub entities: UuidMap<usize>,
}

impl CookedPrefab {
    /// The world holds its invariant and every identity entry names a live
    /// destination entity.
    pub open spec fn wf(self) -> bool {
        &&& self.world.wf()
        &&& self.entities.wf()
        &&& forall|i: int| 0 <= i < self.entities.vals().len() ==>
                (#[trigger] self.entities.vals()[i]) < self.world@.len()
    }
}

} // verus!
