//! The component kinds the pipeline knows, as one tagged value type.
//!
//! Per-component dispatch (clone, default, spawn transform, diff
//! application) is type-erased behind 128-bit schema ids; here the erased
//! value is a tagged union, and dispatch matches on the tag.  Authored
//! scalar fields are fixed-point integers in milli-units (`1000` stands for
//! an authored `1.0`).

use vstd::prelude::*;

verus! {

/// Schema id of the authored 2-D position component.
pub const POSITION2_TYPE: u128 = 0x8bf672286ab34a0c92371c50bb66f13b;

/// Schema id of the authored uniform 2-D scale component.
pub const UNIFORM_SCALE2_TYPE: u128 = 0x0bee4d3070e14c99ba5b7ceb0c3d2cb7;

/// Schema id of the authored non-uniform 2-D scale component.
pub const NON_UNIFORM_SCALE2_TYPE: u128 = 0x3b7afbcb6f174632a2eb2b1f3a2a23d6;

/// Schema id of the authored 2-D rotation component.
pub const ROTATION2_TYPE: u128 = 0x6841f13d42f44b85a0f2a5a5b4efe2a1;

/// Schema id of the ball-shaped rigid-body definition component.
pub const RIGID_BODY_BALL_DEF_TYPE: u128 = 0xfa518c0aa65a44c89d353f4f336b4de4;

/// Schema id of the box-shaped rigid-body definition component.
pub const RIGID_BODY_BOX_DEF_TYPE: u128 = 0x36df3006a5ad49979ccc0860f49195ad;

/// Schema id of the runtime rigid-body component, the spawn-transformed
/// form of both rigid-body definitions.  Numerically above every authored
/// schema id, so a transformed archetype stays sorted when the runtime
/// component is appended last.
pub const RIGID_BODY_TYPE: u128 = 0xffe09ecbfe2e49f6939575e86e7a1c5b;

/// One component value, in either its authored (definition) or its runtime
/// form.  Scalars are fixed-point milli-units.
#[derive(Clone, Copy, Debug, PartialEq, Eq, Structural)]
pub enum ComponentValue {
    /// Authored 2-D position.
    Position2 { x: u32, y: u32 },
    /// Authored uniform scale factor.
    UniformScale2 { scale: u32 },
    /// Authored per-axis scale factors.
    NonUniformScale2 { scale_x: u32, scale_y: u32 },
    /// Authored rotation angle.
    Rotation2 { angle: u32 },
    /// Definition of a ball-shaped rigid body.
    RigidBodyBallDef { radius: u32, is_static: bool },
    /// Definition of a box-shaped rigid body.
    RigidBodyBoxDef { half_x: u32, half_y: u32, is_static: bool },
    /// Runtime rigid body owning a handle to a body allocated in the
    /// physics world.
    RigidBody { handle: u64 },
}

/// The schema id of a component value.
pub open spec fn spec_type_of(c: ComponentValue) -> u128 {
    match c {
        ComponentValue::Position2 { .. } => POSITION2_TYPE,
        ComponentValue::UniformScale2 { .. } => UNIFORM_SCALE2_TYPE,
        ComponentValue::NonUniformScale2 { .. } => NON_UNIFORM_SCALE2_TYPE,
        ComponentValue::Rotation2 { .. } => ROTATION2_TYPE,
        ComponentValue::RigidBodyBallDef { .. } => RIGID_BODY_BALL_DEF_TYPE,
        ComponentValue::RigidBodyBoxDef { .. } => RIGID_BODY_BOX_DEF_TYPE,
        ComponentValue::RigidBody { .. } => RIGID_BODY_TYPE,
    }
}

/// The schema id of a component value.
pub fn type_of(c: &ComponentValue) -> (r: u128)
    ensures
        r == spec_type_of(*c),
{
    match *c {
        ComponentValue::Position2 { .. } => POSITION2_TYPE,
        ComponentValue::UniformScale2 { .. } => UNIFORM_SCALE2_TYPE,
        ComponentValue::NonUniformScale2 { .. } => NON_UNIFORM_SCALE2_TYPE,
        ComponentValue::Rotation2 { .. } => ROTATION2_TYPE,
        ComponentValue::RigidBodyBallDef { .. } => RIGID_BODY_BALL_DEF_TYPE,
        ComponentValue::RigidBodyBoxDef { .. } => RIGID_BODY_BOX_DEF_TYPE,
        ComponentValue::RigidBody { .. } => RIGID_BODY_TYPE,
    }
}

/// The inert default of a registered authored component kind: origin
/// position, unit scales, zero rotation, smallest dynamic bodies.
pub open spec fn spec_default_of(t: u128) -> Option<ComponentValue> {
    if t == POSITION2_TYPE {
        Some(ComponentValue::Position2 { x: 0, y: 0 })
    } else if t == UNIFORM_SCALE2_TYPE {
        Some(ComponentValue::UniformScale2 { scale: 1000 })
    } else if t == NON_UNIFORM_SCALE2_TYPE {
        Some(ComponentValue::NonUniformScale2 { scale_x: 1000, scale_y: 1000 })
    } else if t == ROTATION2_TYPE {
        Some(ComponentValue::Rotation2 { angle: 0 })
    } else if t == RIGID_BODY_BALL_DEF_TYPE {
        Some(ComponentValue::RigidBodyBallDef { radius: 0, is_static: false })
    } else if t == RIGID_BODY_BOX_DEF_TYPE {
        Some(ComponentValue::RigidBodyBoxDef { half_x: 0, half_y: 0, is_static: false })
    } else {
        None
    }
}

/// Default-constructs a value of an authored component kind.
#[verifier::when_used_as_spec(spec_default_of)]
pub fn default_of(t: u128) -> (r: Option<ComponentValue>)
    ensures
        r == spec_default_of(t),
{
    if t == POSITION2_TYPE {
        Some(ComponentValue::Position2 { x: 0, y: 0 })
    } else if t == UNIFORM_SCALE2_TYPE {
        Some(ComponentValue::UniformScale2 { scale: 1000 })
    } else if t == NON_UNIFORM_SCALE2_TYPE {
        Some(ComponentValue::NonUniformScale2 { scale_x: 1000, scale_y: 1000 })
    } else if t == ROTATION2_TYPE {
        Some(ComponentValue::Rotation2 { angle: 0 })
    } else if t == RIGID_BODY_BALL_DEF_TYPE {
        Some(ComponentValue::RigidBodyBallDef { radius: 0, is_static: false })
    } else if t == RIGID_BODY_BOX_DEF_TYPE {
        Some(ComponentValue::RigidBodyBoxDef { half_x: 0, half_y: 0, is_static: false })
    } else {
        None
    }
}

} // verus!
