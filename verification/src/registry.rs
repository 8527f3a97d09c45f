//! The component type registry.
//!
//! Populated once at startup by explicit registration calls, read-only
//! afterwards; the single source of truth for how every component kind is
//! cloned, defaulted, transformed and diffed.  A component type encountered
//! in data but never registered is a configuration error, not a recoverable
//! runtime condition.

use vstd::prelude::*;
use crate::component::{
    NON_UNIFORM_SCALE2_TYPE, POSITION2_TYPE, RIGID_BODY_BALL_DEF_TYPE, RIGID_BODY_BOX_DEF_TYPE,
    ROTATION2_TYPE, UNIFORM_SCALE2_TYPE,
};
use crate::errors::CookError;
use crate::keymap::UuidMap;

verus! {

/// What the pipeline knows of one component kind.
pub struct ComponentRegistration {
    /// The component schema this registration is for.
    pub type_id: u128,
    /// Human-readable name of the component kind.
    pub kind_name: String,
    /// Whether a spawn transform turns this kind's authored form into a
    /// runtime form while cooking.
    pub has_spawn_transform: bool,
}

/// The process-wide table of component registrations, keyed by schema id.
pub struct ComponentRegistry {
    table: UuidMap<ComponentRegistration>,
}

impl ComponentRegistry {
    /// Every entry is stored under its own schema id.
    pub closed spec fn wf(self) -> bool {
        &&& self.table.wf()
        &&& forall|i: int| 0 <= i < self.table.keys().len() ==>
                (#[trigger] self.table.vals()[i]).type_id == self.table.keys()[i]
    }

    /// Whether schema id `t` is registered.
    pub closed spec fn registered(self, t: u128) -> bool {
        self.table.contains_spec(t)
    }

    /// The registration of schema id `t`.
    pub closed spec fn registration_of(self, t: u128) -> ComponentRegistration {
        self.table.value_of(t)
    }

    /// Whether schema id `t` is registered with a spawn transform.
    pub open spec fn has_spawn_transform(self, t: u128) -> bool {
        self.registered(t) && self.registration_of(t).has_spawn_transform
    }

    /// An empty registry.
    pub fn new() -> (r: Self)
        ensures
            r.wf(),
            forall|t: u128| !#[trigger] r.registered(t),
    {
        ComponentRegistry { table: UuidMap::new() }
    }

    /// Registers one component kind; a re-registration replaces the entry.
    pub fn register(&mut self, reg: ComponentRegistration)
        requires
            old(self).wf(),
        ensures
            final(self).wf(),
            final(self).registered(reg.type_id),
            final(self).registration_of(reg.type_id) == reg,
            forall|t: u128| t != reg.type_id ==>
                #[trigger] final(self).registered(t) == old(self).registered(t),
            forall|t: u128| t != reg.type_id && old(self).registered(t) ==>
                #[trigger] final(self).registration_of(t) == old(self).registration_of(t),
    {
        let ghost pre = self.table;
        let t = reg.type_id;
        self.table.insert(t, reg);
        proof {
            if pre.contains_spec(t) {
                assert forall|i: int| 0 <= i < self.table.keys().len() implies
                    (#[trigger] self.table.vals()[i]).type_id == self.table.keys()[i] by {
                    pre.lemma_value_at(i);
                    if i != pre.index_of(t) {
                        assert(self.table.vals()[i] == pre.vals()[i]);
                    }
                }
            }
        }
    }

    /// Looks a schema id up, failing with `UnregisteredComponentType` if and
    /// only if it was never registered.
    pub fn lookup(&self, t: u128) -> (r: Result<&ComponentRegistration, CookError>)
        requires
            self.wf(),
        ensures
            match r {
                Ok(reg) => self.registered(t) && *reg == self.registration_of(t),
                Err(e) => !self.registered(t)
                    && e == (CookError::UnregisteredComponentType { component_type: t }),
            },
    {
        match self.table.get(t) {
            Some(reg) => Ok(reg),
            None => Err(CookError::UnregisteredComponentType { component_type: t }),
        }
    }

    /// The standard registry of this pipeline: every authored component kind,
    /// with spawn transforms on the two rigid-body definitions.  The runtime
    /// rigid-body form is deliberately not registered: it never occurs in
    /// authored data.
    pub fn standard() -> (r: Self)
        ensures
            r.wf(),
            r.registered(POSITION2_TYPE) && !r.has_spawn_transform(POSITION2_TYPE),
            r.registered(UNIFORM_SCALE2_TYPE) && !r.has_spawn_transform(UNIFORM_SCALE2_TYPE),
            r.registered(NON_UNIFORM_SCALE2_TYPE) && !r.has_spawn_transform(NON_UNIFORM_SCALE2_TYPE),
            r.registered(ROTATION2_TYPE) && !r.has_spawn_transform(ROTATION2_TYPE),
            r.registered(RIGID_BODY_BALL_DEF_TYPE) && r.has_spawn_transform(RIGID_BODY_BALL_DEF_TYPE),
            r.registered(RIGID_BODY_BOX_DEF_TYPE) && r.has_spawn_transform(RIGID_BODY_BOX_DEF_TYPE),
            forall|t: u128| #[trigger] r.registered(t) ==> t == POSITION2_TYPE
                || t == UNIFORM_SCALE2_TYPE || t == NON_UNIFORM_SCALE2_TYPE
                || t == ROTATION2_TYPE || t == RIGID_BODY_BALL_DEF_TYPE
                || t == RIGID_BODY_BOX_DEF_TYPE,
    {
        let mut r = ComponentRegistry::new();
        r.register(ComponentRegistration {
            type_id: POSITION2_TYPE,
            kind_name: "Position2D".to_owned(),
            has_spawn_transform: false,
        });
        r.register(ComponentRegistration {
            type_id: UNIFORM_SCALE2_TYPE,
            kind_name: "UniformScale2D".to_owned(),
            has_spawn_transform: false,
        });
        r.register(ComponentRegistration {
            type_id: NON_UNIFORM_SCALE2_TYPE,
            kind_name: "NonUniformScale2D".to_owned(),
            has_spawn_transform: false,
        });
        r.register(ComponentRegistration {
            type_id: ROTATION2_TYPE,
            kind_name: "Rotation2D".to_owned(),
            has_spawn_transform: false,
        });
        r.register(ComponentRegistration {
            type_id: RIGID_BODY_BALL_DEF_TYPE,
            kind_name: "RigidBodyBallComponentDef".to_owned(),
            has_spawn_transform: true,
        });
        r.register(ComponentRegistration {
            type_id: RIGID_BODY_BOX_DEF_TYPE,
            kind_name: "RigidBodyBoxComponentDef".to_owned(),
            has_spawn_transform: true,
        });
        r
    }
}

} // verus!
