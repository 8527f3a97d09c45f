//! The cook request, start to finish.
//!
//! Resolve the dependency graph (bases first), clone-merge every
//! definition into one destination world, apply the override diffs in
//! cook order, run the registered spawn transforms, and package the
//! result with the identity map.  Before the cooked prefab is handed out
//! it must survive the serialization round trip; that gate is proved to
//! pass, so a round-trip mismatch is never returned.

use vstd::prelude::*;
use crate::codec::{deserialize_cooked, lemma_round_trip, serialize_cooked};
use crate::component::{
    spec_type_of, ComponentValue, RIGID_BODY_BALL_DEF_TYPE, RIGID_BODY_BOX_DEF_TYPE,
    RIGID_BODY_TYPE,
};
use crate::errors::CookError;
use crate::merge::{
    all_types_registered, clone_merge, ident_insert_all, ident_map_of,
    lemma_merged_entity_origin, lemma_merged_identity_bounds, merged_identity, merged_world,
};
use crate::overrides::{
    apply_overrides, lemma_apply_all_kinds, spec_apply_all, spec_apply_def, spec_apply_override,
    spec_apply_ov_list, spec_apply_ref,
};
use crate::physics::{BodyRecord, ColliderRecord, PhysicsWorld};
use crate::diff::{
    diff_entries, last_set, lemma_apply_entries_field, lemma_diff_sets_field,
    spec_apply_binary_diff, spec_apply_entries, spec_field_of,
};
use crate::prefab::{ComponentOverride, CookedPrefab, DiffPayload};
use crate::registry::ComponentRegistry;
use crate::resolver::{acyclic, ref_chain, refs_of, resolve, store_closed, topo_ok, PrefabStore};
use crate::spawn::{
    count_spawnable, rb_handle, spawn_pass, spawnable, spec_body_of, spec_collider_of,
    spec_runtime_row,
};
use crate::world::{comp_in, comp_index_in, comps_sorted, has_comp};

verus! {

/// What a successfully cooked prefab is, in terms of the resolved cook
/// order: the order is a duplicate-free topological order of the
/// reference graph ending at the requested root; the identity map is the
/// merged identity table; and the world is the merged definitions with
/// all overrides applied and every rigid-body definition spawn-transformed
/// into a runtime body with its own freshly allocated physics body and
/// collider.
/// What the resolver promises of a cook order for `root`: duplicate-free,
/// topologically sorted, ending at the root, with no entry the root's
/// graph does not require.
pub open spec fn cook_order_of(store: PrefabStore, root: u128, order: Seq<u128>) -> bool {
    &&& order.no_duplicates()
    &&& topo_ok(order, store)
    &&& order.len() > 0 && order.last() == root
    &&& forall|p: int| 0 <= p < order.len() ==> order[p] == root
            || exists|q: int| p < q < order.len()
                && refs_of(store.value_of(order[q])).contains(order[p])
}

/// A component of schema `t` occurs in some cached definition.
pub open spec fn type_occurs_in_store(store: PrefabStore, t: u128) -> bool {
    exists|k: u128, e: int, c: int|
        store.contains_spec(k) && 0 <= e < store.value_of(k).world@.len()
            && 0 <= c < store.value_of(k).world@[e].len()
            && spec_type_of(#[trigger] store.value_of(k).world@[e][c]) == t
}

/// Every component type occurring in the cache is registered.
pub open spec fn store_types_registered(store: PrefabStore, registry: ComponentRegistry) -> bool {
    forall|k: u128, e: int, c: int|
        store.contains_spec(k) && 0 <= e < store.value_of(k).world@.len()
            && 0 <= c < store.value_of(k).world@[e].len()
            ==> registry.registered(spec_type_of(#[trigger] store.value_of(k).world@[e][c]))
}

pub open spec fn cooked_from(
    store: PrefabStore,
    registry: ComponentRegistry,
    root: u128,
    cp: CookedPrefab,
    order: Seq<u128>,
    bodies0: Seq<BodyRecord>,
    colliders0: Seq<ColliderRecord>,
    bodies1: Seq<BodyRecord>,
    colliders1: Seq<ColliderRecord>,
) -> bool {
    let merged = merged_world(store, order, order.len() as int);
    let im = merged_identity(store, order, order.len() as int);
    &&& cook_order_of(store, root, order)
    &&& all_types_registered(store, order, order.len() as int, registry)
    &&& ident_map_of(cp.entities) == im
    &&& match spec_apply_all(merged, registry, im, store, order, order.len() as int) {
            Ok(wov) => {
                &&& cp.world@.len() == wov.len()
                &&& forall|e: int| 0 <= e < wov.len() && !spawnable(#[trigger] wov[e]) ==>
                        cp.world@[e] == wov[e]
                &&& forall|e: int| 0 <= e < wov.len() && spawnable(#[trigger] wov[e]) ==> {
                        let h = rb_handle(cp.world@[e]);
                        &&& has_comp(cp.world@[e], RIGID_BODY_TYPE)
                        &&& cp.world@[e] == spec_runtime_row(wov[e], h)
                        &&& bodies0.len() <= h < bodies1.len()
                        &&& bodies1[h as int] == spec_body_of(wov[e])
                        &&& colliders1[colliders0.len() + (h - bodies0.len())]
                            == spec_collider_of(wov[e], h)
                    }
                &&& forall|e1: int, e2: int|
                        0 <= e1 < wov.len() && 0 <= e2 < wov.len() && e1 != e2
                            && spawnable(wov[e1]) && spawnable(wov[e2]) ==>
                        rb_handle(#[trigger] cp.world@[e1]) != rb_handle(#[trigger] cp.world@[e2])
                &&& bodies1.len() == bodies0.len() + count_spawnable(wov, wov.len() as int)
                &&& bodies1.subrange(0, bodies0.len() as int) == bodies0
                &&& colliders1.subrange(0, colliders0.len() as int) == colliders0
                &&& colliders1.len() - colliders0.len() == bodies1.len() - bodies0.len()
            },
            Err(_) => false,
        }
}

/// The override fold over some valid cook order for `root` fails with
/// exactly this error.
pub open spec fn override_fold_fails(
    store: PrefabStore,
    registry: ComponentRegistry,
    root: u128,
    e: CookError,
) -> bool {
    exists|order: Seq<u128>| #[trigger] cook_order_of(store, root, order)
        && spec_apply_all(
            merged_world(store, order, order.len() as int),
            registry,
            merged_identity(store, order, order.len() as int),
            store,
            order,
            order.len() as int,
        ) == Err::<Seq<Seq<ComponentValue>>, CookError>(e)
}

/// Why a cook request failed: a missing asset its graph requires, a
/// reference cycle, an unregistered component type in the data, or an
/// override the fold rejects.  A round-trip mismatch never happens.
pub open spec fn cook_failure(
    store: PrefabStore,
    registry: ComponentRegistry,
    root: u128,
    e: CookError,
) -> bool {
    ||| (e matches CookError::LoadError { asset }
            && !store.contains_spec(asset) && ref_chain(store, root, asset))
    ||| (e matches CookError::CycleError { .. } && !acyclic(store))
    ||| (e matches CookError::UnregisteredComponentType { component_type }
            && !registry.registered(component_type)
            && type_occurs_in_store(store, component_type))
    ||| override_fold_fails(store, registry, root, e)
}

/// Compares two byte vectors.
fn bytes_eq(a: &Vec<u8>, b: &Vec<u8>) -> (r: bool)
    ensures
        r <==> a@ == b@,
{
    if a.len() != b.len() {
        proof {
            assert(a@.len() != b@.len());
        }
        return false;
    }
    let n = a.len();
    let mut i: usize = 0;
    while i < n
        invariant
            i <= n,
            n == a@.len(),
            n == b@.len(),
            forall|j: int| 0 <= j < i ==> a@[j] == b@[j],
        decreases n - i,
    {
        if a[i] != b[i] {
            return false;
        }
        i += 1;
    }
    proof {
        assert(a@ =~= b@);
    }
    true
}

/// Cooks the prefab `root`: resolves its dependency graph out of the
/// store, merges, applies overrides, runs the spawn transforms against
/// `physics`, gates the result through a serialization round trip (proved
/// to pass — `RoundTripMismatch` is never actually returned), and hands
/// the cooked prefab to the caller.  Every failure names its cause (see
/// `cook_failure`) and leaves the physics world untouched; on a closed,
/// acyclic, fully registered store whose overrides all apply, success is
/// guaranteed.
pub fn cook_prefab(
    store: &PrefabStore,
    registry: &ComponentRegistry,
    physics: &mut PhysicsWorld,
    root: u128,
) -> (r: Result<CookedPrefab, CookError>)
    requires
        store.wf(),
        forall|i: int| 0 <= i < store.vals().len() ==> (#[trigger] store.vals()[i]).wf(),
        registry.wf(),
        forall|t: u128| #[trigger] registry.has_spawn_transform(t) <==>
            (t == RIGID_BODY_BALL_DEF_TYPE || t == RIGID_BODY_BOX_DEF_TYPE),
        !registry.registered(RIGID_BODY_TYPE),
    ensures
        match r {
            Ok(cp) => cp.wf() && exists|order: Seq<u128>| #[trigger] cooked_from(
                *store, *registry, root, cp, order,
                old(physics).bodies@, old(physics).colliders@,
                final(physics).bodies@, final(physics).colliders@,
            ),
            Err(e) => {
                &&& !(e is RoundTripMismatch)
                &&& cook_failure(*store, *registry, root, e)
                &&& final(physics).bodies@ == old(physics).bodies@
                &&& final(physics).colliders@ == old(physics).colliders@
            },
        },
        (store_closed(*store) && store.contains_spec(root) && acyclic(*store)
            && store_types_registered(*store, *registry)
            && (forall|order: Seq<u128>| #[trigger] cook_order_of(*store, root, order) ==>
                spec_apply_all(
                    merged_world(*store, order, order.len() as int),
                    *registry,
                    merged_identity(*store, order, order.len() as int),
                    *store,
                    order,
                    order.len() as int,
                ) is Ok)) ==> r is Ok,
{
    proof {
        assert forall|k: u128| #[trigger] store.contains_spec(k) implies
            store.value_of(k).wf() by {
            let j = store.index_of(k);
            store.lemma_value_at(j);
        }
    }
    let order = match resolve(store, root) {
        Ok(o) => o,
        Err(e) => {
            return Err(e);
        },
    };
    proof {
        assert forall|i: int| 0 <= i < order@.len() implies
            (#[trigger] store.value_of(order@[i])).wf() by {
            assert(store.contains_spec(order@[i]));
        }
    }
    let (mut world, ident) = match clone_merge(store, &order, registry) {
        Ok(wi) => wi,
        Err(e) => {
            proof {
                match e {
                    CookError::UnregisteredComponentType { component_type } => {
                        let (i, ee, cc) = choose|i: int, ee: int, cc: int|
                            0 <= i < order@.len()
                                && 0 <= ee < store.value_of(order@[i]).world@.len()
                                && 0 <= cc < store.value_of(order@[i]).world@[ee].len()
                                && spec_type_of(
                                    #[trigger] store.value_of(order@[i]).world@[ee][cc])
                                    == component_type;
                        assert(store.contains_spec(order@[i]));
                        assert(type_occurs_in_store(*store, component_type));
                        if store_types_registered(*store, *registry) {
                            assert(registry.registered(component_type));
                            assert(false);
                        }
                    },
                    _ => {
                        assert(false);
                    },
                }
            }
            return Err(e);
        },
    };
    let ghost merged = merged_world(*store, order@, order@.len() as int);
    let ghost im = merged_identity(*store, order@, order@.len() as int);
    proof {
        lemma_merged_identity_bounds(*store, order@, order@.len() as int);
        assert forall|u: u128| #[trigger] ident.contains_spec(u) implies
            ident.value_of(u) < world@.len() by {
            assert(ident_map_of(ident).dom().contains(u));
            assert(ident_map_of(ident)[u] == ident.value_of(u) as int);
            assert(im.dom().contains(u) && im[u] < merged.len());
        }
    }
    match apply_overrides(&mut world, registry, &ident, store, &order) {
        Ok(()) => {},
        Err(e) => {
            proof {
                assert(cook_order_of(*store, root, order@));
                assert(spec_apply_all(merged, *registry, im, *store, order@,
                    order@.len() as int) == Err::<Seq<Seq<ComponentValue>>, CookError>(e));
                assert(override_fold_fails(*store, *registry, root, e));
                if store_closed(*store) && store.contains_spec(root) && acyclic(*store)
                    && store_types_registered(*store, *registry)
                    && (forall|order2: Seq<u128>| #[trigger] cook_order_of(*store, root, order2)
                        ==> spec_apply_all(
                            merged_world(*store, order2, order2.len() as int),
                            *registry,
                            merged_identity(*store, order2, order2.len() as int),
                            *store,
                            order2,
                            order2.len() as int,
                        ) is Ok) {
                    assert(false);
                }
            }
            return Err(e);
        },
    }
    let ghost wov = world@;
    proof {
        assert(spec_apply_all(merged, *registry, im, *store, order@, order@.len() as int)
            == Ok::<_, CookError>(wov));
        assert forall|u: u128| im.dom().contains(u) implies
            0 <= #[trigger] im[u] < merged.len() by {}
        lemma_apply_all_kinds(merged, *registry, im, *store, order@, order@.len() as int, wov);
        // the merged data carries no runtime bodies and no double definitions,
        // and overrides preserve every entity's component schemas
        assert forall|e: int| 0 <= e < wov.len() implies
            !has_comp(#[trigger] wov[e], RIGID_BODY_TYPE)
            && !(has_comp(wov[e], RIGID_BODY_BALL_DEF_TYPE)
                && has_comp(wov[e], RIGID_BODY_BOX_DEF_TYPE)) by {
            lemma_merged_entity_origin(*store, order@, order@.len() as int, e);
            let (i, j) = choose|i: int, j: int|
                0 <= i < order@.len() && 0 <= j < store.value_of(order@[i]).world@.len()
                    && merged[e] == #[trigger] store.value_of(order@[i]).world@[j];
            let row = store.value_of(order@[i]).world@[j];
            assert(store.value_of(order@[i]).wf());
            assert(!has_comp(row, RIGID_BODY_TYPE)) by {
                if has_comp(row, RIGID_BODY_TYPE) {
                    let c = crate::world::comp_index_in(row, RIGID_BODY_TYPE);
                    assert(crate::component::spec_type_of(
                        store.value_of(order@[i]).world@[j][c]) == RIGID_BODY_TYPE);
                    assert(registry.registered(RIGID_BODY_TYPE));
                }
            }
            assert(crate::overrides::same_kinds(merged[e], wov[e]));
            lemma_has_comp_same_kinds(merged[e], wov[e], RIGID_BODY_TYPE);
            lemma_has_comp_same_kinds(merged[e], wov[e], RIGID_BODY_BALL_DEF_TYPE);
            lemma_has_comp_same_kinds(merged[e], wov[e], RIGID_BODY_BOX_DEF_TYPE);
        }
    }
    let ghost bodies0 = physics.bodies@;
    let ghost colliders0 = physics.colliders@;
    spawn_pass(&mut world, registry, physics);
    let cooked = CookedPrefab { world, entities: ident };
    proof {
        assert(cooked.wf()) by {
            assert forall|i: int| 0 <= i < cooked.entities.vals().len() implies
                (#[trigger] cooked.entities.vals()[i]) < cooked.world@.len() by {
                cooked.entities.lemma_value_at(i);
                let u = cooked.entities.keys()[i];
                assert(ident_map_of(cooked.entities).dom().contains(u));
                assert(ident_map_of(cooked.entities)[u] == cooked.entities.vals()[i] as int);
                assert(im[u] < merged.len());
            }
        }
    }
    // the round-trip gate, proved to pass
    let ne = cooked.world.num_entities();
    let nk = cooked.entities.len();
    proof {
        cooked.world.lemma_view_sorted();
        assert forall|e: int| 0 <= e < cooked.world@.len() implies
            (#[trigger] cooked.world@[e]).len() <= usize::MAX by {
            let l = cooked.world.locations@[e];
            vstd::std_specs::vec::axiom_spec_len(&cooked.world.chunks@[l.chunk as int].types);
        }
        vstd::std_specs::vec::axiom_spec_len(&cooked.world.locations);
        lemma_round_trip(cooked.world@, cooked.entities.keys(), cooked.entities.vals());
    }
    let bytes = serialize_cooked(&cooked);
    let restored = match deserialize_cooked(&bytes) {
        Some(cp) => cp,
        None => {
            proof {
                assert(false);
            }
            return Err(CookError::RoundTripMismatch);
        },
    };
    let bytes2 = serialize_cooked(&restored);
    if !bytes_eq(&bytes, &bytes2) {
        proof {
            assert(false);
        }
        return Err(CookError::RoundTripMismatch);
    }
    proof {
        assert(cooked_from(*store, *registry, root, cooked, order@,
            bodies0, colliders0, physics.bodies@, physics.colliders@));
    }
    Ok(cooked)
}

/// Entities of the same schemas hold the same component kinds.
proof fn lemma_has_comp_same_kinds(a: Seq<ComponentValue>, b: Seq<ComponentValue>, t: u128)
    requires
        crate::overrides::same_kinds(a, b),
    ensures
        has_comp(a, t) == has_comp(b, t),
{
    if has_comp(a, t) {
        let i = crate::world::comp_index_in(a, t);
        assert(crate::component::spec_type_of(b[i]) == t);
    }
    if has_comp(b, t) {
        let i = crate::world::comp_index_in(b, t);
        assert(crate::component::spec_type_of(a[i]) == t);
    }
}


/// Law (no-dependency identity): cooking a prefab with no references
/// yields exactly one destination entity per authored entity, in order;
/// an entity without a rigid-body definition is copied verbatim, and an
/// entity with one keeps every other component verbatim while the
/// definition alone becomes the runtime rigid body.
pub proof fn lemma_no_dependency_identity(
    store: PrefabStore,
    registry: ComponentRegistry,
    root: u128,
    cp: CookedPrefab,
    order: Seq<u128>,
    bodies0: Seq<BodyRecord>,
    colliders0: Seq<ColliderRecord>,
    bodies1: Seq<BodyRecord>,
    colliders1: Seq<ColliderRecord>,
)
    requires
        store.wf(),
        store.contains_spec(root),
        refs_of(store.value_of(root)).len() == 0,
        cooked_from(store, registry, root, cp, order, bodies0, colliders0, bodies1, colliders1),
    ensures
        order == seq![root],
        cp.world@.len() == store.value_of(root).world@.len(),
        forall|e: int| 0 <= e < cp.world@.len()
            && !spawnable(#[trigger] store.value_of(root).world@[e]) ==>
            cp.world@[e] == store.value_of(root).world@[e],
        forall|e: int| 0 <= e < cp.world@.len()
            && spawnable(#[trigger] store.value_of(root).world@[e]) ==>
            cp.world@[e] == spec_runtime_row(
                store.value_of(root).world@[e], rb_handle(cp.world@[e])),
{
    if order.len() > 1 {
        let p = order.len() - 2;
        assert(order[p] == root
            || exists|q: int| p < q < order.len()
                && refs_of(store.value_of(order[q])).contains(order[p]));
        if order[p] == root {
            assert(order[order.len() - 1] == root);
            assert(false);
        } else {
            let q = choose|q: int| p < q < order.len()
                && refs_of(store.value_of(order[q])).contains(order[p]);
            assert(q == order.len() - 1);
            assert(order[q] == root);
            assert(refs_of(store.value_of(root)).contains(order[p]));
            assert(false);
        }
    }
    assert(order.len() == 1);
    assert(order[0] == order.last());
    assert(order =~= seq![root]);
    let d = store.value_of(root);
    let merged = merged_world(store, order, 1);
    assert(merged_world(store, order, 0) =~= Seq::<Seq<ComponentValue>>::empty());
    assert(merged =~= d.world@);
    let im = merged_identity(store, order, 1);
    assert(refs_of(d) == d.prefab_refs.keys());
    assert(spec_apply_all(merged, registry, im, store, order, 1)
        == Ok::<_, CookError>(merged)) by {
        assert(spec_apply_all(merged, registry, im, store, order, 0)
            == Ok::<_, CookError>(merged));
        assert(crate::overrides::spec_apply_def(merged, registry, im, d, 0)
            == Ok::<_, CookError>(merged));
    }
}


/// Law (layered override precedence): base prefab `b_id` authors entity
/// `ent` with a component of schema `ct`; prefab `d_id` references the
/// base and overrides that component with one binary diff; prefab `l_id`
/// references `d_id` and overrides it with another.  Cooking `l_id`
/// applies the diffs in cook order, bases first, so any field the leaf's
/// diff sets ends at the leaf's last value for it — whatever the middle
/// layer set.
pub proof fn lemma_layered_cook_precedence(
    store: PrefabStore,
    registry: ComponentRegistry,
    cp: CookedPrefab,
    order: Seq<u128>,
    bodies0: Seq<BodyRecord>,
    colliders0: Seq<ColliderRecord>,
    bodies1: Seq<BodyRecord>,
    colliders1: Seq<ColliderRecord>,
    b_id: u128,
    d_id: u128,
    l_id: u128,
    ent: u128,
    eb: usize,
    ct: u128,
    ov_d: ComponentOverride,
    ov_l: ComponentOverride,
    dl: Seq<u8>,
    tag: u8,
    v: u32,
)
    requires
        store.wf(),
        cooked_from(store, registry, l_id, cp, order, bodies0, colliders0, bodies1, colliders1),
        store.keys() == seq![b_id, d_id, l_id],
        // the base authors exactly the one entity, which is not spawn-transformed
        store.value_of(b_id).wf(),
        refs_of(store.value_of(b_id)).len() == 0,
        store.value_of(b_id).entities.keys() == seq![ent],
        store.value_of(b_id).entities.vals() == seq![eb],
        eb < store.value_of(b_id).world@.len(),
        has_comp(store.value_of(b_id).world@[eb as int], ct),
        !spawnable(store.value_of(b_id).world@[eb as int]),
        // the middle layer references the base and overrides the component once
        store.value_of(d_id).world@.len() == 0,
        store.value_of(d_id).entities.keys().len() == 0,
        refs_of(store.value_of(d_id)) == seq![b_id],
        store.value_of(d_id).prefab_refs.vals()[0].overrides.keys() == seq![ent],
        store.value_of(d_id).prefab_refs.vals()[0].overrides.vals()[0]@ == seq![ov_d],
        ov_d.component_type == ct,
        ov_d.data is BinaryDiff,
        // the leaf references the middle layer and overrides the component once
        store.value_of(l_id).world@.len() == 0,
        store.value_of(l_id).entities.keys().len() == 0,
        refs_of(store.value_of(l_id)) == seq![d_id],
        store.value_of(l_id).prefab_refs.vals()[0].overrides.keys() == seq![ent],
        store.value_of(l_id).prefab_refs.vals()[0].overrides.vals()[0]@ == seq![ov_l],
        ov_l.component_type == ct,
        ov_l.data matches DiffPayload::BinaryDiff(bytes) && bytes@ == dl,
        last_set(diff_entries(dl), tag) == Some(v),
    ensures
        cp.entities.contains_spec(ent),
        cp.entities.value_of(ent) == eb,
        spec_field_of(comp_in(cp.world@[eb as int], ct), tag) == Some::<u32>(v),
{
    let n = order.len() as int;
    // the three ids are pairwise distinct
    assert(store.keys().no_duplicates());
    assert(store.keys()[0] == b_id && store.keys()[1] == d_id && store.keys()[2] == l_id);
    assert(b_id != d_id && b_id != l_id && d_id != l_id);
    assert forall|x: u128| #[trigger] store.contains_spec(x) implies
        x == b_id || x == d_id || x == l_id by {
        let i = choose|i: int| 0 <= i < store.keys().len() && store.keys()[i] == x;
    }
    assert(store.contains_spec(b_id)) by { assert(store.keys().contains(store.keys()[0])); }
    assert(store.contains_spec(d_id)) by { assert(store.keys().contains(store.keys()[1])); }
    assert(store.contains_spec(l_id)) by { assert(store.keys().contains(store.keys()[2])); }

    // the cook order is exactly base, middle, leaf
    let pl = n - 1;
    assert(order[pl] == l_id);
    assert(order.subrange(0, pl).contains(refs_of(store.value_of(order[pl]))[0]));
    let pd = choose|pd: int| 0 <= pd < pl && order[pd] == d_id;
    assert(order.subrange(0, pd).contains(refs_of(store.value_of(order[pd]))[0]));
    let pb = choose|pb: int| 0 <= pb < pd && order[pb] == b_id;
    assert(order.len() <= 3) by {
        if order.len() > 3 {
            assert(store.contains_spec(order[0]));
            assert(store.contains_spec(order[1]));
            assert(store.contains_spec(order[2]));
            assert(store.contains_spec(order[3]));
        }
    }
    assert(order.len() == 3 && pd == 1 && pb == 0);
    assert(order =~= seq![b_id, d_id, l_id]);

    // the merged world is the base world, the identity map its one entity
    let bdef = store.value_of(b_id);
    let ddef = store.value_of(d_id);
    let ldef = store.value_of(l_id);
    let merged = merged_world(store, order, 3);
    assert(merged_world(store, order, 0) =~= Seq::<Seq<ComponentValue>>::empty());
    assert(merged_world(store, order, 1) =~= bdef.world@);
    assert(merged_world(store, order, 2) =~= bdef.world@);
    assert(merged =~= bdef.world@);
    let im = merged_identity(store, order, 3);
    assert(merged_identity(store, order, 0) == Map::<u128, int>::empty());
    let mi1 = merged_identity(store, order, 1);
    assert(ident_insert_all(
        Map::<u128, int>::empty(), bdef.entities.keys(), bdef.entities.vals(),
        merged_world(store, order, 0).len() as int, 0,
    ) == Map::<u128, int>::empty());
    assert(mi1 == ident_insert_all(
        Map::<u128, int>::empty(), bdef.entities.keys(), bdef.entities.vals(),
        merged_world(store, order, 0).len() as int, 1,
    ));
    assert(bdef.entities.keys()[0] == ent && bdef.entities.vals()[0] == eb);
    assert(merged_world(store, order, 0).len() == 0);
    assert(mi1 == Map::<u128, int>::empty().insert(ent, eb as int));
    assert(merged_identity(store, order, 2) == mi1) by {
        assert(ident_insert_all(
            mi1, ddef.entities.keys(), ddef.entities.vals(),
            merged_world(store, order, 1).len() as int, 0,
        ) == mi1);
        assert(ddef.entities.keys().len() == 0);
    }
    assert(im == mi1) by {
        assert(ident_insert_all(
            mi1, ldef.entities.keys(), ldef.entities.vals(),
            merged_world(store, order, 2).len() as int, 0,
        ) == mi1);
        assert(ldef.entities.keys().len() == 0);
    }
    assert(im.dom().contains(ent) && im[ent] == eb as int);

    // unfold the override fold over the three prefabs
    let r3 = spec_apply_all(merged, registry, im, store, order, 3);
    assert(r3 is Ok);
    let r2 = spec_apply_all(merged, registry, im, store, order, 2);
    let r1 = spec_apply_all(merged, registry, im, store, order, 1);
    let r0 = spec_apply_all(merged, registry, im, store, order, 0);
    assert(r0 == Ok::<_, CookError>(merged));
    assert(refs_of(bdef) == bdef.prefab_refs.keys());
    assert(spec_apply_def(merged, registry, im, bdef, 0) == Ok::<_, CookError>(merged));
    assert(r1 == Ok::<_, CookError>(merged));
    // the middle layer applies its one override to the base entity
    let prd = ddef.prefab_refs.vals()[0];
    assert(ddef.prefab_refs.keys().len() == 1);
    assert(spec_apply_def(merged, registry, im, ddef, 0) == Ok::<_, CookError>(merged));
    assert(spec_apply_ref(merged, registry, im, prd, 0) == Ok::<_, CookError>(merged));
    assert(prd.overrides.keys()[0] == ent);
    assert(prd.overrides.vals()[0]@.len() == 1);
    assert(spec_apply_ov_list(merged, registry, eb as int, prd.overrides.vals()[0]@, 0)
        == Ok::<_, CookError>(merged));
    assert(prd.overrides.vals()[0]@[0] == ov_d);
    let sd = spec_apply_override(merged, registry, eb as int, ov_d);
    assert(spec_apply_ov_list(merged, registry, eb as int, prd.overrides.vals()[0]@, 1) == sd);
    assert(spec_apply_ref(merged, registry, im, prd, 1) == sd);
    assert(spec_apply_def(merged, registry, im, ddef, 1) == sd);
    assert(r2 == sd);
    assert(r2 is Ok);
    let w1 = r2.unwrap();
    // the middle-layer diff decoded and replaced the component in place
    let row0 = merged[eb as int];
    let ci = comp_index_in(row0, ct);
    assert(registry.registered(ct));
    let bytes_d = ov_d.data.arrow_BinaryDiff_0();
    let cd = spec_apply_binary_diff(row0[ci], bytes_d@);
    assert(cd is Some);
    let c1 = cd.unwrap();
    assert(w1 == merged.update(eb as int, row0.update(ci, c1)));
    assert(spec_apply_entries(row0[ci], diff_entries(bytes_d@)) == Some(c1));
    lemma_apply_entries_field(row0[ci], diff_entries(bytes_d@), c1, tag);
    assert(spec_type_of(c1) == spec_type_of(row0[ci]));
    assert(spec_type_of(row0[ci]) == ct);
    // the updated row keeps its schemas, so the component is still unique
    let row1 = w1[eb as int];
    assert(row1 == row0.update(ci, c1));
    bdef.world.lemma_view_sorted();
    assert(comps_sorted(row0));
    assert forall|i: int| 0 <= i < row1.len() implies
        spec_type_of(#[trigger] row1[i]) == spec_type_of(row0[i]) by {
        if i != ci {
            assert(row1[i] == row0[i]);
        }
    }
    assert(has_comp(row1, ct)) by {
        assert(spec_type_of(row1[ci]) == ct);
    }
    assert(comp_index_in(row1, ct) == ci) by {
        let j = comp_index_in(row1, ct);
        if j != ci {
            assert(spec_type_of(row0[j]) == ct && spec_type_of(row0[ci]) == ct);
            assert(false);
        }
    }
    // the leaf applies its one override on top
    let prl = ldef.prefab_refs.vals()[0];
    assert(ldef.prefab_refs.keys().len() == 1);
    assert(spec_apply_def(w1, registry, im, ldef, 0) == Ok::<_, CookError>(w1));
    assert(spec_apply_ref(w1, registry, im, prl, 0) == Ok::<_, CookError>(w1));
    assert(prl.overrides.keys()[0] == ent);
    assert(prl.overrides.vals()[0]@.len() == 1);
    assert(spec_apply_ov_list(w1, registry, eb as int, prl.overrides.vals()[0]@, 0)
        == Ok::<_, CookError>(w1));
    assert(prl.overrides.vals()[0]@[0] == ov_l);
    let sl = spec_apply_override(w1, registry, eb as int, ov_l);
    assert(spec_apply_ov_list(w1, registry, eb as int, prl.overrides.vals()[0]@, 1) == sl);
    assert(spec_apply_ref(w1, registry, im, prl, 1) == sl);
    assert(spec_apply_def(w1, registry, im, ldef, 1) == sl);
    assert(r3 == sl);
    let wov = r3.unwrap();
    let bytes_l = ov_l.data.arrow_BinaryDiff_0();
    let cl = spec_apply_binary_diff(row1[ci], bytes_l@);
    assert(cl is Some);
    let c2 = cl.unwrap();
    assert(wov == w1.update(eb as int, row1.update(ci, c2)));
    // the leaf's last value for the field wins
    assert(spec_apply_entries(c1, diff_entries(dl)) == Some(c2));
    lemma_diff_sets_field(c1, diff_entries(dl), c2, tag, v);
    assert(spec_field_of(c2, tag) == Some::<u32>(v));
    // the cooked world holds the entity untransformed
    let row2 = wov[eb as int];
    assert(row2 == row1.update(ci, c2));
    lemma_apply_entries_field(c1, diff_entries(dl), c2, tag);
    assert forall|i: int| 0 <= i < row2.len() implies
        spec_type_of(#[trigger] row2[i]) == spec_type_of(row0[i]) by {
        if i != ci {
            assert(row2[i] == row1[i]);
        }
    }
    lemma_has_comp_same_kinds_local(row0, row2);
    assert(!spawnable(row2));
    assert(cp.world@[eb as int] == row2);
    assert(comp_in(row2, ct) == c2) by {
        assert(spec_type_of(row2[ci]) == ct);
        let j = comp_index_in(row2, ct);
        if j != ci {
            assert(spec_type_of(row0[j]) == ct && spec_type_of(row0[ci]) == ct);
            assert(false);
        }
    }
    // the identity map hands the authored id to the cooked entity
    assert(ident_map_of(cp.entities) == im);
    assert(ident_map_of(cp.entities).dom().contains(ent));
    assert(cp.entities.contains_spec(ent));
    assert(ident_map_of(cp.entities)[ent] == cp.entities.value_of(ent) as int);
}

/// Rows of equal schemas carry the same component kinds.
proof fn lemma_has_comp_same_kinds_local(a: Seq<ComponentValue>, b: Seq<ComponentValue>)
    requires
        a.len() == b.len(),
        forall|i: int| 0 <= i < b.len() ==> spec_type_of(#[trigger] b[i]) == spec_type_of(a[i]),
    ensures
        spawnable(b) == spawnable(a),
{
    if has_comp(a, RIGID_BODY_BALL_DEF_TYPE) {
        let i = comp_index_in(a, RIGID_BODY_BALL_DEF_TYPE);
        assert(spec_type_of(b[i]) == RIGID_BODY_BALL_DEF_TYPE);
    }
    if has_comp(b, RIGID_BODY_BALL_DEF_TYPE) {
        let i = comp_index_in(b, RIGID_BODY_BALL_DEF_TYPE);
        assert(spec_type_of(a[i]) == RIGID_BODY_BALL_DEF_TYPE);
    }
    if has_comp(a, RIGID_BODY_BOX_DEF_TYPE) {
        let i = comp_index_in(a, RIGID_BODY_BOX_DEF_TYPE);
        assert(spec_type_of(b[i]) == RIGID_BODY_BOX_DEF_TYPE);
    }
    if has_comp(b, RIGID_BODY_BOX_DEF_TYPE) {
        let i = comp_index_in(b, RIGID_BODY_BOX_DEF_TYPE);
        assert(spec_type_of(a[i]) == RIGID_BODY_BOX_DEF_TYPE);
    }
}

} // verus!
