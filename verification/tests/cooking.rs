use prefab_cook::component::{
    ComponentValue, NON_UNIFORM_SCALE2_TYPE, POSITION2_TYPE, RIGID_BODY_BALL_DEF_TYPE,
    RIGID_BODY_BOX_DEF_TYPE, RIGID_BODY_TYPE, ROTATION2_TYPE, UNIFORM_SCALE2_TYPE,
};
use prefab_cook::cook::cook_prefab;
use prefab_cook::diff::encode_diff;
use prefab_cook::errors::CookError;
use prefab_cook::keymap::UuidMap;
use prefab_cook::physics::{release_channel, try_recv_release, PhysicsWorld, ShapeRecord};
use prefab_cook::prefab::{ComponentOverride, DiffPayload, PrefabDefinition, PrefabRef};
use prefab_cook::registry::ComponentRegistry;
use prefab_cook::resolver::resolve;
use prefab_cook::spawn::{scale_milli, tear_down_world};
use prefab_cook::world::World;

const ASSET_A: u128 = 0x11111111111111111111111111111111;
const ASSET_B: u128 = 0x22222222222222222222222222222222;
const ASSET_C: u128 = 0x33333333333333333333333333333333;
const ENTITY_E: u128 = 0xaaaaaaaaaaaaaaaaaaaaaaaaaaaaaaaa;
const ENTITY_F: u128 = 0xbbbbbbbbbbbbbbbbbbbbbbbbbbbbbbbb;
const UNKNOWN_ENTITY: u128 = 0xcccccccccccccccccccccccccccccccc;

fn def_with_entities(
    id: u128,
    rows: Vec<Vec<ComponentValue>>,
    names: Vec<u128>,
) -> PrefabDefinition {
    let mut world = World::new();
    let mut entities: UuidMap<usize> = UuidMap::new();
    for (k, row) in rows.into_iter().enumerate() {
        let eid = world.push_entity(row);
        entities.insert(names[k], eid);
    }
    PrefabDefinition { id, world, entities, prefab_refs: UuidMap::new() }
}

fn ball_def(radius: u32, is_static: bool) -> ComponentValue {
    ComponentValue::RigidBodyBallDef { radius, is_static }
}

fn pos(x: u32, y: u32) -> ComponentValue {
    ComponentValue::Position2 { x, y }
}

fn single_ball_store() -> UuidMap<PrefabDefinition> {
    // components must be in canonical schema order: position sorts below
    // the ball definition
    let def = def_with_entities(
        ASSET_A,
        vec![vec![pos(0, 0), ball_def(1000, false)]],
        vec![ENTITY_E],
    );
    let mut store: UuidMap<PrefabDefinition> = UuidMap::new();
    store.insert(ASSET_A, def);
    store
}

fn override_ref(base: u128, entity: u128, entries: Vec<(u8, u32)>) -> (u128, PrefabRef) {
    let payload = encode_diff(&entries);
    let mut overrides: UuidMap<Vec<ComponentOverride>> = UuidMap::new();
    overrides.insert(entity, vec![ComponentOverride {
        component_type: RIGID_BODY_BALL_DEF_TYPE,
        data: DiffPayload::BinaryDiff(payload),
    }]);
    (base, PrefabRef { overrides })
}

#[test]
fn cook_single_prefab_spawns_one_body() {
    let store = single_ball_store();
    let registry = ComponentRegistry::standard();
    let mut physics = PhysicsWorld::new();
    let cooked = cook_prefab(&store, &registry, &mut physics, ASSET_A).unwrap();

    assert_eq!(cooked.world.num_entities(), 1);
    // the definition became a runtime rigid body
    let rb = cooked.world.get_component(0, RIGID_BODY_TYPE).unwrap();
    let handle = match *rb {
        ComponentValue::RigidBody { handle } => handle,
        _ => panic!("expected a runtime rigid body"),
    };
    assert_eq!(handle, 0);
    assert!(cooked.world.get_component(0, RIGID_BODY_BALL_DEF_TYPE).is_none());
    // the position survived the spawn pass
    assert_eq!(*cooked.world.get_component(0, POSITION2_TYPE).unwrap(), pos(0, 0));
    // exactly one dynamic body at the origin, with a unit ball collider
    assert_eq!(physics.bodies.len(), 1);
    assert!(!physics.bodies[0].is_ground);
    assert_eq!((physics.bodies[0].x, physics.bodies[0].y), (0, 0));
    assert_eq!(physics.colliders.len(), 1);
    assert_eq!(physics.colliders[0].shape, ShapeRecord::Ball { radius: 1000 });
    assert_eq!(physics.colliders[0].body, 0);
}

#[test]
fn teardown_releases_each_body_once() {
    let store = single_ball_store();
    let registry = ComponentRegistry::standard();
    let mut physics = PhysicsWorld::new();
    let cooked = cook_prefab(&store, &registry, &mut physics, ASSET_A).unwrap();

    let (tx, rx) = release_channel();
    let released = tear_down_world(cooked.world, &tx);
    assert_eq!(released, vec![0u64]);
    assert_eq!(try_recv_release(&rx), Some(0));
    assert_eq!(try_recv_release(&rx), None);
}

#[test]
fn cook_override_changes_spawned_radius() {
    let mut store = single_ball_store();
    let mut dependent = def_with_entities(ASSET_B, vec![], vec![]);
    let (base, pref) = override_ref(ASSET_A, ENTITY_E, vec![(0, 2000)]);
    dependent.prefab_refs.insert(base, pref);
    store.insert(ASSET_B, dependent);

    let registry = ComponentRegistry::standard();
    let mut physics = PhysicsWorld::new();
    let cooked = cook_prefab(&store, &registry, &mut physics, ASSET_B).unwrap();

    assert_eq!(cooked.world.num_entities(), 1);
    assert_eq!(physics.bodies.len(), 1);
    assert_eq!(physics.colliders[0].shape, ShapeRecord::Ball { radius: 2000 });
}

#[test]
fn cook_order_is_topological() {
    // C references B, B references A: bases come first, the root last
    let def_a = def_with_entities(ASSET_A, vec![], vec![]);
    let mut def_b = def_with_entities(ASSET_B, vec![], vec![]);
    def_b.prefab_refs.insert(ASSET_A, PrefabRef { overrides: UuidMap::new() });
    let mut def_c = def_with_entities(ASSET_C, vec![], vec![]);
    def_c.prefab_refs.insert(ASSET_B, PrefabRef { overrides: UuidMap::new() });

    let mut store: UuidMap<PrefabDefinition> = UuidMap::new();
    store.insert(ASSET_A, def_a);
    store.insert(ASSET_B, def_b);
    store.insert(ASSET_C, def_c);

    let order = resolve(&store, ASSET_C).unwrap();
    assert_eq!(order, vec![ASSET_A, ASSET_B, ASSET_C]);
}

#[test]
fn layered_override_leaves_the_leafs_value() {
    // B defines the entity with x = 1; D overrides x = 2; L overrides x = 3
    let def_b = def_with_entities(
        ASSET_A,
        vec![vec![pos(1, 7)]],
        vec![ENTITY_E],
    );
    let mut def_d = def_with_entities(ASSET_B, vec![], vec![]);
    let mut d_overrides: UuidMap<Vec<ComponentOverride>> = UuidMap::new();
    d_overrides.insert(ENTITY_E, vec![ComponentOverride {
        component_type: POSITION2_TYPE,
        data: DiffPayload::BinaryDiff(encode_diff(&vec![(0, 2)])),
    }]);
    def_d.prefab_refs.insert(ASSET_A, PrefabRef { overrides: d_overrides });
    let mut def_l = def_with_entities(ASSET_C, vec![], vec![]);
    let mut l_overrides: UuidMap<Vec<ComponentOverride>> = UuidMap::new();
    l_overrides.insert(ENTITY_E, vec![ComponentOverride {
        component_type: POSITION2_TYPE,
        data: DiffPayload::BinaryDiff(encode_diff(&vec![(0, 3)])),
    }]);
    def_l.prefab_refs.insert(ASSET_B, PrefabRef { overrides: l_overrides });

    let mut store: UuidMap<PrefabDefinition> = UuidMap::new();
    store.insert(ASSET_A, def_b);
    store.insert(ASSET_B, def_d);
    store.insert(ASSET_C, def_l);

    let registry = ComponentRegistry::standard();
    let mut physics = PhysicsWorld::new();
    let cooked = cook_prefab(&store, &registry, &mut physics, ASSET_C).unwrap();

    // the leaf's value wins; the untouched field keeps the base value
    assert_eq!(*cooked.world.get_component(0, POSITION2_TYPE).unwrap(), pos(3, 7));
}

#[test]
fn cooked_data_round_trips() {
    let store = single_ball_store();
    let registry = ComponentRegistry::standard();
    let mut physics = PhysicsWorld::new();
    let cooked = cook_prefab(&store, &registry, &mut physics, ASSET_A).unwrap();

    let bytes = prefab_cook::codec::serialize_cooked(&cooked);
    let restored = prefab_cook::codec::deserialize_cooked(&bytes).unwrap();
    let bytes2 = prefab_cook::codec::serialize_cooked(&restored);
    assert_eq!(bytes, bytes2);
    assert_eq!(restored.world.num_entities(), cooked.world.num_entities());
    assert_eq!(
        *restored.world.get_component(0, RIGID_BODY_TYPE).unwrap(),
        *cooked.world.get_component(0, RIGID_BODY_TYPE).unwrap(),
    );
}

#[test]
fn dangling_override_fails_the_cook() {
    let mut store = single_ball_store();
    let mut dependent = def_with_entities(ASSET_B, vec![], vec![]);
    let (base, pref) = override_ref(ASSET_A, UNKNOWN_ENTITY, vec![(0, 2000)]);
    dependent.prefab_refs.insert(base, pref);
    store.insert(ASSET_B, dependent);

    let registry = ComponentRegistry::standard();
    let mut physics = PhysicsWorld::new();
    let r = cook_prefab(&store, &registry, &mut physics, ASSET_B);
    match r {
        Err(e) => assert_eq!(e, CookError::DanglingOverrideReference { entity: UNKNOWN_ENTITY }),
        Ok(_) => panic!("expected the cook to fail"),
    }
    assert_eq!(physics.bodies.len(), 0);
}

#[test]
fn reference_cycle_is_reported() {
    let mut def_a = def_with_entities(ASSET_A, vec![], vec![]);
    def_a.prefab_refs.insert(ASSET_B, PrefabRef { overrides: UuidMap::new() });
    let mut def_b = def_with_entities(ASSET_B, vec![], vec![]);
    def_b.prefab_refs.insert(ASSET_A, PrefabRef { overrides: UuidMap::new() });
    let mut store: UuidMap<PrefabDefinition> = UuidMap::new();
    store.insert(ASSET_A, def_a);
    store.insert(ASSET_B, def_b);

    let registry = ComponentRegistry::standard();
    let mut physics = PhysicsWorld::new();
    let r = cook_prefab(&store, &registry, &mut physics, ASSET_A);
    match r {
        Err(e) => assert!(matches!(e, CookError::CycleError { .. })),
        Ok(_) => panic!("expected the cook to fail"),
    }
}

#[test]
fn missing_asset_is_a_load_error() {
    let mut def_a = def_with_entities(ASSET_A, vec![], vec![]);
    def_a.prefab_refs.insert(ASSET_B, PrefabRef { overrides: UuidMap::new() });
    let mut store: UuidMap<PrefabDefinition> = UuidMap::new();
    store.insert(ASSET_A, def_a);

    let registry = ComponentRegistry::standard();
    let mut physics = PhysicsWorld::new();
    let r = cook_prefab(&store, &registry, &mut physics, ASSET_A);
    match r {
        Err(e) => assert_eq!(e, CookError::LoadError { asset: ASSET_B }),
        Ok(_) => panic!("expected the cook to fail"),
    }
}

#[test]
fn unregistered_component_type_is_fatal() {
    // a registry that never learned about the rotation component
    let mut registry = ComponentRegistry::new();
    for (t, name, spawns) in [
        (POSITION2_TYPE, "Position2D", false),
        (UNIFORM_SCALE2_TYPE, "UniformScale2D", false),
        (NON_UNIFORM_SCALE2_TYPE, "NonUniformScale2D", false),
        (RIGID_BODY_BALL_DEF_TYPE, "RigidBodyBallComponentDef", true),
        (RIGID_BODY_BOX_DEF_TYPE, "RigidBodyBoxComponentDef", true),
    ] {
        registry.register(prefab_cook::registry::ComponentRegistration {
            type_id: t,
            kind_name: name.to_owned(),
            has_spawn_transform: spawns,
        });
    }
    let def = def_with_entities(
        ASSET_A,
        vec![vec![ComponentValue::Rotation2 { angle: 90 }]],
        vec![ENTITY_E],
    );
    let mut store: UuidMap<PrefabDefinition> = UuidMap::new();
    store.insert(ASSET_A, def);

    let mut physics = PhysicsWorld::new();
    let r = cook_prefab(&store, &registry, &mut physics, ASSET_A);
    match r {
        Err(e) => assert_eq!(e,
            CookError::UnregisteredComponentType { component_type: ROTATION2_TYPE }),
        Ok(_) => panic!("expected the cook to fail"),
    }
}

#[test]
fn structured_value_diff_is_rejected() {
    let mut store = single_ball_store();
    let mut dependent = def_with_entities(ASSET_B, vec![], vec![]);
    let mut overrides: UuidMap<Vec<ComponentOverride>> = UuidMap::new();
    overrides.insert(ENTITY_E, vec![ComponentOverride {
        component_type: RIGID_BODY_BALL_DEF_TYPE,
        data: DiffPayload::StructuredValueDiff,
    }]);
    dependent.prefab_refs.insert(ASSET_A, PrefabRef { overrides });
    store.insert(ASSET_B, dependent);

    let registry = ComponentRegistry::standard();
    let mut physics = PhysicsWorld::new();
    let r = cook_prefab(&store, &registry, &mut physics, ASSET_B);
    match r {
        Err(e) => assert_eq!(e, CookError::UnsupportedDiffEncoding),
        Ok(_) => panic!("expected the cook to fail"),
    }
}

#[test]
fn malformed_binary_diff_is_rejected() {
    let mut store = single_ball_store();
    let mut dependent = def_with_entities(ASSET_B, vec![], vec![]);
    let mut overrides: UuidMap<Vec<ComponentOverride>> = UuidMap::new();
    overrides.insert(ENTITY_E, vec![ComponentOverride {
        component_type: RIGID_BODY_BALL_DEF_TYPE,
        data: DiffPayload::BinaryDiff(vec![0, 1, 2]),
    }]);
    dependent.prefab_refs.insert(ASSET_A, PrefabRef { overrides });
    store.insert(ASSET_B, dependent);

    let registry = ComponentRegistry::standard();
    let mut physics = PhysicsWorld::new();
    let r = cook_prefab(&store, &registry, &mut physics, ASSET_B);
    match r {
        Err(e) => assert_eq!(e,
            CookError::MalformedDiff { component_type: RIGID_BODY_BALL_DEF_TYPE }),
        Ok(_) => panic!("expected the cook to fail"),
    }
}

#[test]
fn diff_leaves_unnamed_fields_alone() {
    // override only the static flag; the radius keeps its value
    let mut store = single_ball_store();
    let mut dependent = def_with_entities(ASSET_B, vec![], vec![]);
    let (base, pref) = override_ref(ASSET_A, ENTITY_E, vec![(1, 1)]);
    dependent.prefab_refs.insert(base, pref);
    store.insert(ASSET_B, dependent);

    let registry = ComponentRegistry::standard();
    let mut physics = PhysicsWorld::new();
    let cooked = cook_prefab(&store, &registry, &mut physics, ASSET_B).unwrap();
    // static ball: ground body, collider offset carries the position
    assert!(physics.bodies[0].is_ground);
    assert_eq!(physics.colliders[0].shape, ShapeRecord::Ball { radius: 1000 });
    assert_eq!(cooked.world.num_entities(), 1);
}

#[test]
fn spawn_uses_inert_defaults_without_context() {
    // a ball definition with no position: the body spawns at the origin
    let def = def_with_entities(ASSET_A, vec![vec![ball_def(400, false)]], vec![ENTITY_E]);
    let mut store: UuidMap<PrefabDefinition> = UuidMap::new();
    store.insert(ASSET_A, def);

    let registry = ComponentRegistry::standard();
    let mut physics = PhysicsWorld::new();
    cook_prefab(&store, &registry, &mut physics, ASSET_A).unwrap();
    assert!(!physics.bodies[0].is_ground);
    assert_eq!((physics.bodies[0].x, physics.bodies[0].y), (0, 0));
    assert_eq!(physics.colliders[0].shape, ShapeRecord::Ball { radius: 400 });
}

#[test]
fn spawn_scales_shapes_by_sibling_components() {
    // uniform scale 2.0 doubles the ball radius; the tiny radius clamps
    let def = def_with_entities(
        ASSET_A,
        vec![
            vec![
                ComponentValue::UniformScale2 { scale: 2000 },
                pos(5, 6),
                ball_def(1000, false),
            ],
            vec![ball_def(1, false)],
        ],
        vec![ENTITY_E, ENTITY_F],
    );
    let mut store: UuidMap<PrefabDefinition> = UuidMap::new();
    store.insert(ASSET_A, def);

    let registry = ComponentRegistry::standard();
    let mut physics = PhysicsWorld::new();
    cook_prefab(&store, &registry, &mut physics, ASSET_A).unwrap();
    assert_eq!(physics.bodies.len(), 2);
    assert_eq!(physics.colliders[0].shape, ShapeRecord::Ball { radius: 2000 });
    // an effectively zero radius still yields the minimum usable shape
    assert_eq!(physics.colliders[1].shape, ShapeRecord::Ball { radius: 10 });
}

#[test]
fn box_definitions_take_both_scales() {
    let def = def_with_entities(
        ASSET_A,
        vec![vec![
            ComponentValue::UniformScale2 { scale: 2000 },
            ComponentValue::RigidBodyBoxDef { half_x: 1000, half_y: 500, is_static: false },
            ComponentValue::NonUniformScale2 { scale_x: 3000, scale_y: 1000 },
        ]],
        vec![ENTITY_E],
    );
    let mut store: UuidMap<PrefabDefinition> = UuidMap::new();
    store.insert(ASSET_A, def);

    let registry = ComponentRegistry::standard();
    let mut physics = PhysicsWorld::new();
    cook_prefab(&store, &registry, &mut physics, ASSET_A).unwrap();
    // 1.0 * 2.0 * 3.0 = 6.0 and 0.5 * 2.0 * 1.0 = 1.0
    assert_eq!(
        physics.colliders[0].shape,
        ShapeRecord::Box { half_x: 6000, half_y: 1000 },
    );
}

#[test]
fn error_text_shows_canonical_asset_id() {
    let e = CookError::LoadError { asset: 0xa1a2a3a4b1b2c1c2d1d2d3d4d5d6d7d8 };
    assert_eq!(
        e.describe(),
        "prefab asset failed to load: a1a2a3a4-b1b2-c1c2-d1d2-d3d4d5d6d7d8",
    );
}

#[test]
fn fixed_point_scaling_is_exact_and_saturating() {
    assert_eq!(scale_milli(1000, 2000), 2000);
    assert_eq!(scale_milli(1500, 500), 750);
    assert_eq!(scale_milli(7, 1000), 7);
    assert_eq!(scale_milli(u64::MAX, u32::MAX), u64::MAX);
}

#[test]
fn shared_base_is_merged_once() {
    // a diamond: C references both A and B, and B references A; the base
    // A appears once in the cook order and its entity once in the world
    let def_a = def_with_entities(
        ASSET_A,
        vec![vec![pos(1, 1)]],
        vec![ENTITY_E],
    );
    let mut def_b = def_with_entities(ASSET_B, vec![], vec![]);
    def_b.prefab_refs.insert(ASSET_A, PrefabRef { overrides: UuidMap::new() });
    let mut def_c = def_with_entities(ASSET_C, vec![], vec![]);
    def_c.prefab_refs.insert(ASSET_A, PrefabRef { overrides: UuidMap::new() });
    def_c.prefab_refs.insert(ASSET_B, PrefabRef { overrides: UuidMap::new() });

    let mut store: UuidMap<PrefabDefinition> = UuidMap::new();
    store.insert(ASSET_A, def_a);
    store.insert(ASSET_B, def_b);
    store.insert(ASSET_C, def_c);

    let order = resolve(&store, ASSET_C).unwrap();
    assert_eq!(order, vec![ASSET_A, ASSET_B, ASSET_C]);

    let registry = ComponentRegistry::standard();
    let mut physics = PhysicsWorld::new();
    let cooked = cook_prefab(&store, &registry, &mut physics, ASSET_C).unwrap();
    assert_eq!(cooked.world.num_entities(), 1);
}

#[test]
fn corrupt_bytes_do_not_deserialize() {
    let store = single_ball_store();
    let registry = ComponentRegistry::standard();
    let mut physics = PhysicsWorld::new();
    let cooked = cook_prefab(&store, &registry, &mut physics, ASSET_A).unwrap();

    let mut bytes = prefab_cook::codec::serialize_cooked(&cooked);
    // a ragged tail is not a canonical line
    bytes.pop();
    assert!(prefab_cook::codec::deserialize_cooked(&bytes).is_none());
    assert!(prefab_cook::codec::deserialize_cooked(&vec![b'x'; 40]).is_none());
}
