//! The clone-merge engine.
//!
//! Every entity and component of every resolved definition is copied into
//! one shared destination world (clone order does not matter: no
//! cross-prefab reads happen yet), while the authored entity ids are
//! accumulated into one global identity table.  An authored id occurring in
//! several definitions resolves to the entity of the definition latest in
//! the cook order.  A component type met in data but absent from the
//! registry aborts the merge.

use vstd::prelude::*;
use vstd::pervasive::unreached;
use crate::component::{spec_type_of, type_of, ComponentValue};
use crate::errors::CookError;
use crate::keymap::UuidMap;
use crate::registry::ComponentRegistry;
use crate::resolver::PrefabStore;
use crate::world::{comps_sorted, World};

verus! {

/// The entity sequence that merging the first `n` prefabs of the cook
/// order produces: the definitions' worlds, concatenated in order.
pub open spec fn merged_world(store: PrefabStore, order: Seq<u128>, n: int)
    -> Seq<Seq<ComponentValue>>
    decreases n,
{
    if n <= 0 {
        Seq::empty()
    } else {
        merged_world(store, order, n - 1) + store.value_of(order[n - 1]).world@
    }
}

/// The identity table as a mathematical map from authored entity id to
/// destination entity index.
pub open spec fn ident_map_of(m: UuidMap<usize>) -> Map<u128, int> {
    Map::new(|k: u128| m.contains_spec(k), |k: u128| m.value_of(k) as int)
}

/// The identity entries of one definition's first `j` authored entities,
/// entered in authored order with destination indices shifted by `off`; a
/// later entry for the same id wins.
pub open spec fn ident_insert_all(
    m: Map<u128, int>,
    keys: Seq<u128>,
    vals: Seq<usize>,
    off: int,
    j: int,
) -> Map<u128, int>
    decreases j,
{
    if j <= 0 {
        m
    } else {
        ident_insert_all(m, keys, vals, off, j - 1).insert(keys[j - 1], off + vals[j - 1])
    }
}

/// The identity map after merging the first `n` prefabs of the cook order.
pub open spec fn merged_identity(store: PrefabStore, order: Seq<u128>, n: int) -> Map<u128, int>
    decreases n,
{
    if n <= 0 {
        Map::empty()
    } else {
        let d = store.value_of(order[n - 1]);
        ident_insert_all(
            merged_identity(store, order, n - 1),
            d.entities.keys(),
            d.entities.vals(),
            merged_world(store, order, n - 1).len() as int,
            d.entities.keys().len() as int,
        )
    }
}

/// Every component type occurring in the first `n` prefabs of the order is
/// registered.
pub open spec fn all_types_registered(
    store: PrefabStore,
    order: Seq<u128>,
    n: int,
    registry: ComponentRegistry,
) -> bool {
    forall|i: int, e: int, c: int|
        0 <= i < n && 0 <= e < store.value_of(order[i]).world@.len()
            && 0 <= c < store.value_of(order[i]).world@[e].len()
            ==> registry.registered(spec_type_of(#[trigger] store.value_of(order[i]).world@[e][c]))
}

/// A component of schema `t` occurs somewhere in the first `n` prefabs.
pub open spec fn type_occurs(store: PrefabStore, order: Seq<u128>, n: int, t: u128) -> bool {
    exists|i: int, e: int, c: int|
        0 <= i < n && 0 <= e < store.value_of(order[i]).world@.len()
            && 0 <= c < store.value_of(order[i]).world@[e].len()
            && spec_type_of(#[trigger] store.value_of(order[i]).world@[e][c]) == t
}

/// Every merged entity is, verbatim, an entity of one of the definitions.
pub proof fn lemma_merged_entity_origin(store: PrefabStore, order: Seq<u128>, n: int, e: int)
    requires
        0 <= e < merged_world(store, order, n).len(),
    ensures
        exists|i: int, j: int|
            0 <= i < n && 0 <= j < store.value_of(order[i]).world@.len()
                && merged_world(store, order, n)[e]
                    == #[trigger] store.value_of(order[i]).world@[j],
    decreases n,
{
    if n <= 0 {
    } else {
        let prev = merged_world(store, order, n - 1);
        if e < prev.len() {
            lemma_merged_entity_origin(store, order, n - 1, e);
            let (i, j) = choose|i: int, j: int|
                0 <= i < n - 1 && 0 <= j < store.value_of(order[i]).world@.len()
                    && prev[e] == #[trigger] store.value_of(order[i]).world@[j];
            assert(merged_world(store, order, n)[e] == store.value_of(order[i]).world@[j]);
        } else {
            let j = e - prev.len();
            assert(merged_world(store, order, n)[e] == store.value_of(order[n - 1]).world@[j]);
        }
    }
}

/// Replacing or adding one entry in the identity table is one `insert` on
/// its mathematical map.
proof fn lemma_ident_insert(pre: UuidMap<usize>, post: UuidMap<usize>, k: u128, v: usize)
    requires
        post.contains_spec(k),
        post.value_of(k) == v,
        forall|k2: u128| k2 != k ==> #[trigger] post.contains_spec(k2) == pre.contains_spec(k2),
        forall|k2: u128| k2 != k && pre.contains_spec(k2) ==>
            #[trigger] post.value_of(k2) == pre.value_of(k2),
    ensures
        ident_map_of(post) == ident_map_of(pre).insert(k, v as int),
{
    assert(ident_map_of(post) =~= ident_map_of(pre).insert(k, v as int));
}

/// Copies every entity of every definition in `order` into one fresh
/// destination world and accumulates the global identity table.  Fails
/// with `UnregisteredComponentType` if and only if some component type in
/// the data has no registry entry.
pub fn clone_merge(store: &PrefabStore, order: &Vec<u128>, registry: &ComponentRegistry)
    -> (r: Result<(World, UuidMap<usize>), CookError>)
    requires
        store.wf(),
        registry.wf(),
        forall|i: int| 0 <= i < order@.len() ==> store.contains_spec(#[trigger] order@[i]),
        forall|i: int| 0 <= i < order@.len() ==> (#[trigger] store.value_of(order@[i])).wf(),
    ensures
        match r {
            Ok(wi) => {
                &&& wi.0.wf()
                &&& wi.0@ == merged_world(*store, order@, order@.len() as int)
                &&& wi.1.wf()
                &&& ident_map_of(wi.1) == merged_identity(*store, order@, order@.len() as int)
                &&& all_types_registered(*store, order@, order@.len() as int, *registry)
            },
            Err(e) => match e {
                CookError::UnregisteredComponentType { component_type } =>
                    !registry.registered(component_type)
                        && type_occurs(*store, order@, order@.len() as int, component_type),
                _ => false,
            },
        },
{
    let mut w = World::new();
    let mut ident: UuidMap<usize> = UuidMap::new();
    let n = order.len();
    proof {
        assert(ident_map_of(ident) =~= Map::<u128, int>::empty());
        assert(w@ =~= merged_world(*store, order@, 0));
    }
    let mut i: usize = 0;
    while i < n
        invariant
            i <= n,
            n == order@.len(),
            store.wf(),
            registry.wf(),
            forall|i2: int| 0 <= i2 < order@.len() ==>
                store.contains_spec(#[trigger] order@[i2]),
            forall|i2: int| 0 <= i2 < order@.len() ==>
                (#[trigger] store.value_of(order@[i2])).wf(),
            w.wf(),
            w@ == merged_world(*store, order@, i as int),
            ident.wf(),
            ident_map_of(ident) == merged_identity(*store, order@, i as int),
            all_types_registered(*store, order@, i as int, *registry),
        decreases n - i,
    {
        let id = order[i];
        let def = match store.get(id) {
            Some(d) => d,
            None => unreached(),
        };
        let ghost dv = store.value_of(order@[i as int]).world@;
        let off = w.num_entities();
        proof {
            assert(merged_world(*store, order@, (i + 1) as int)
                == merged_world(*store, order@, i as int) + dv);
        }
        let ne = def.world.num_entities();
        let mut e: usize = 0;
        proof {
            assert(w@ =~= merged_world(*store, order@, i as int) + dv.subrange(0, 0));
        }
        while e < ne
            invariant
                e <= ne,
                i < n,
                n == order@.len(),
                store.wf(),
                registry.wf(),
                *def == store.value_of(order@[i as int]),
                def.wf(),
                dv == def.world@,
                ne == dv.len(),
                w.wf(),
                w@ == merged_world(*store, order@, i as int) + dv.subrange(0, e as int),
                forall|e2: int, c: int| 0 <= e2 < e && 0 <= c < dv[e2].len() ==>
                    registry.registered(spec_type_of(#[trigger] dv[e2][c])),
            decreases ne - e,
        {
            let comps = def.world.entity_components(e);
            let nc = comps.len();
            let mut c: usize = 0;
            while c < nc
                invariant
                    c <= nc,
                    i < n,
                    n == order@.len(),
                    e < ne,
                    ne == dv.len(),
                    registry.wf(),
                    *def == store.value_of(order@[i as int]),
                    dv == def.world@,
                    nc == comps@.len(),
                    comps@ == dv[e as int],
                    forall|c2: int| 0 <= c2 < c ==>
                        registry.registered(spec_type_of(#[trigger] comps@[c2])),
                decreases nc - c,
            {
                let t = type_of(&comps[c]);
                match registry.lookup(t) {
                    Ok(_) => {},
                    Err(err) => {
                        proof {
                            assert(spec_type_of(
                                store.value_of(order@[i as int]).world@[e as int][c as int]) == t);
                            assert(type_occurs(*store, order@, n as int, t));
                        }
                        return Err(err);
                    },
                }
                c += 1;
            }
            proof {
                def.world.lemma_view_sorted();
                assert(comps_sorted(comps@));
            }
            let ghost w_pre = w@;
            let _dst = w.push_entity(comps);
            proof {
                assert(dv.subrange(0, (e + 1) as int) =~= dv.subrange(0, e as int).push(dv[e as int]));
                assert(w@ =~= merged_world(*store, order@, i as int)
                    + dv.subrange(0, (e + 1) as int));
            }
            e += 1;
        }
        proof {
            assert(dv.subrange(0, ne as int) =~= dv);
            assert(w@ == merged_world(*store, order@, (i + 1) as int));
            assert(all_types_registered(*store, order@, (i + 1) as int, *registry)) by {
                assert forall|i2: int, e2: int, c2: int|
                    0 <= i2 < i + 1 && 0 <= e2 < store.value_of(order@[i2]).world@.len()
                        && 0 <= c2 < store.value_of(order@[i2]).world@[e2].len() implies
                    registry.registered(spec_type_of(
                        #[trigger] store.value_of(order@[i2]).world@[e2][c2])) by {
                    if i2 == i as int {
                        assert(registry.registered(spec_type_of(dv[e2][c2])));
                    }
                }
            }
        }
        let total_after = w.num_entities();
        proof {
            assert(merged_world(*store, order@, (i + 1) as int).len() == total_after);
        }
        let nk = def.entities.len();
        let mut j: usize = 0;
        while j < nk
            invariant
                j <= nk,
                i < n,
                n == order@.len(),
                store.wf(),
                *def == store.value_of(order@[i as int]),
                def.wf(),
                dv == def.world@,
                nk == def.entities.keys().len(),
                off == merged_world(*store, order@, i as int).len(),
                merged_world(*store, order@, (i + 1) as int)
                    == merged_world(*store, order@, i as int) + dv,
                merged_world(*store, order@, (i + 1) as int).len() <= usize::MAX,
                ident.wf(),
                ident_map_of(ident) == ident_insert_all(
                    merged_identity(*store, order@, i as int),
                    def.entities.keys(),
                    def.entities.vals(),
                    off as int,
                    j as int,
                ),
            decreases nk - j,
        {
            let k = def.entities.key_at(j);
            let v = *def.entities.val_at(j);
            proof {
                assert(def.entities.vals()[j as int] < dv.len());
            }
            let dst: usize = off + v;
            let ghost pre_ident = ident;
            ident.insert(k, dst);
            proof {
                lemma_ident_insert(pre_ident, ident, k, dst);
            }
            j += 1;
        }
        proof {
            assert(ident_map_of(ident) == merged_identity(*store, order@, (i + 1) as int));
        }
        i += 1;
    }
    Ok((w, ident))
}


/// Every destination index an identity fold assigns stays inside the
/// bound all its insertions respect.
proof fn lemma_ident_insert_all_bounds(
    m: Map<u128, int>,
    keys: Seq<u128>,
    vals: Seq<usize>,
    off: int,
    j: int,
    hi: int,
)
    requires
        0 <= j <= keys.len(),
        vals.len() == keys.len(),
        forall|u: u128| m.dom().contains(u) ==> 0 <= #[trigger] m[u] < hi,
        off >= 0,
        forall|x: int| 0 <= x < j ==> off + (#[trigger] vals[x]) < hi,
    ensures
        forall|u: u128| ident_insert_all(m, keys, vals, off, j).dom().contains(u) ==>
            0 <= #[trigger] ident_insert_all(m, keys, vals, off, j)[u] < hi,
    decreases j,
{
    if j > 0 {
        lemma_ident_insert_all_bounds(m, keys, vals, off, j - 1, hi);
        let prev = ident_insert_all(m, keys, vals, off, j - 1);
        let cur = ident_insert_all(m, keys, vals, off, j);
        assert(cur == prev.insert(keys[j - 1], off + vals[j - 1]));
        assert forall|u: u128| cur.dom().contains(u) implies 0 <= #[trigger] cur[u] < hi by {
            if u == keys[j - 1] {
                assert(off + vals[j - 1] < hi);
            } else {
                assert(prev.dom().contains(u));
                assert(0 <= prev[u] < hi);
            }
        }
    }
}

/// Every destination index the merged identity map assigns names a live
/// entity of the merged world.
pub proof fn lemma_merged_identity_bounds(store: PrefabStore, order: Seq<u128>, n: int)
    requires
        0 <= n <= order.len(),
        forall|i: int| 0 <= i < order.len() ==> (#[trigger] store.value_of(order[i])).wf(),
    ensures
        forall|u: u128| merged_identity(store, order, n).dom().contains(u) ==>
            0 <= #[trigger] merged_identity(store, order, n)[u]
                < merged_world(store, order, n).len(),
    decreases n,
{
    if n > 0 {
        lemma_merged_identity_bounds(store, order, n - 1);
        let d = store.value_of(order[n - 1]);
        let off = merged_world(store, order, n - 1).len() as int;
        assert(merged_world(store, order, n) == merged_world(store, order, n - 1) + d.world@);
        assert forall|x: int| 0 <= x < d.entities.keys().len() implies
            off + (#[trigger] d.entities.vals()[x]) < merged_world(store, order, n).len() by {
            assert(d.wf());
            assert(d.entities.vals()[x] < d.world@.len());
        }
        assert forall|u: u128|
            merged_identity(store, order, n - 1).dom().contains(u) implies
            0 <= #[trigger] merged_identity(store, order, n - 1)[u]
                < merged_world(store, order, n).len() by {}
        lemma_ident_insert_all_bounds(
            merged_identity(store, order, n - 1),
            d.entities.keys(),
            d.entities.vals(),
            off,
            d.entities.keys().len() as int,
            merged_world(store, order, n).len() as int,
        );
    }
}

} // verus!
