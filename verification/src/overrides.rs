//! The override diff applier.
//!
//! Walks the cook order, bases first; for each prefab, for each reference
//! it declares, every override is resolved through the identity map and
//! applied to the already-cloned component in the destination world.
//! Diffs are field-level: only named fields change, so a chain
//! base→mid→leaf overriding one field leaves the leaf's value.  An
//! override naming an unknown entity, an unregistered component type, a
//! structured-value payload or an undecodable binary payload each abort
//! the pass with their own error.  An override whose component is absent
//! on the resolved entity leaves the world unchanged: overrides never
//! create components or entities.

use vstd::prelude::*;
use crate::component::{spec_type_of, type_of, ComponentValue};
use crate::diff::{apply_binary_diff, diff_entries, lemma_apply_entries_field, spec_apply_binary_diff, spec_apply_entries};
use crate::errors::CookError;
use crate::keymap::UuidMap;
use crate::merge::ident_map_of;
use crate::prefab::{ComponentOverride, DiffPayload, PrefabDefinition, PrefabRef};
use crate::registry::ComponentRegistry;
use crate::resolver::PrefabStore;
use crate::world::{comp_in, comp_index_in, comps_sorted, has_comp, World};

verus! {

/// One override applied to the destination entity sequence at entity
/// `eid`.
pub open spec fn spec_apply_override(
    w: Seq<Seq<ComponentValue>>,
    registry: ComponentRegistry,
    eid: int,
    ov: ComponentOverride,
) -> Result<Seq<Seq<ComponentValue>>, CookError> {
    if !registry.registered(ov.component_type) {
        Err(CookError::UnregisteredComponentType { component_type: ov.component_type })
    } else {
        match ov.data {
            DiffPayload::StructuredValueDiff => Err(CookError::UnsupportedDiffEncoding),
            DiffPayload::BinaryDiff(bytes) => if !has_comp(w[eid], ov.component_type) {
                Ok(w)
            } else {
                let ci = comp_index_in(w[eid], ov.component_type);
                match spec_apply_binary_diff(w[eid][ci], bytes@) {
                    None => Err(CookError::MalformedDiff { component_type: ov.component_type }),
                    Some(c2) => Ok(w.update(eid, w[eid].update(ci, c2))),
                }
            },
        }
    }
}

/// The first `n` overrides of one entity entry, in list order.
pub open spec fn spec_apply_ov_list(
    w: Seq<Seq<ComponentValue>>,
    registry: ComponentRegistry,
    eid: int,
    ovs: Seq<ComponentOverride>,
    n: int,
) -> Result<Seq<Seq<ComponentValue>>, CookError>
    decreases n,
{
    if n <= 0 {
        Ok(w)
    } else {
        match spec_apply_ov_list(w, registry, eid, ovs, n - 1) {
            Err(e) => Err(e),
            Ok(w2) => spec_apply_override(w2, registry, eid, ovs[n - 1]),
        }
    }
}

/// The first `n` overridden entities of one prefab reference, each
/// resolved through the identity map.
pub open spec fn spec_apply_ref(
    w: Seq<Seq<ComponentValue>>,
    registry: ComponentRegistry,
    ident: Map<u128, int>,
    pr: PrefabRef,
    n: int,
) -> Result<Seq<Seq<ComponentValue>>, CookError>
    decreases n,
{
    if n <= 0 {
        Ok(w)
    } else {
        match spec_apply_ref(w, registry, ident, pr, n - 1) {
            Err(e) => Err(e),
            Ok(w2) => {
                let u = pr.overrides.keys()[n - 1];
                if !ident.dom().contains(u) {
                    Err(CookError::DanglingOverrideReference { entity: u })
                } else {
                    let ovs = pr.overrides.vals()[n - 1]@;
                    spec_apply_ov_list(w2, registry, ident[u], ovs, ovs.len() as int)
                }
            },
        }
    }
}

/// The first `n` references of one prefab definition.
pub open spec fn spec_apply_def(
    w: Seq<Seq<ComponentValue>>,
    registry: ComponentRegistry,
    ident: Map<u128, int>,
    d: PrefabDefinition,
    n: int,
) -> Result<Seq<Seq<ComponentValue>>, CookError>
    decreases n,
{
    if n <= 0 {
        Ok(w)
    } else {
        match spec_apply_def(w, registry, ident, d, n - 1) {
            Err(e) => Err(e),
            Ok(w2) => {
                let pr = d.prefab_refs.vals()[n - 1];
                spec_apply_ref(w2, registry, ident, pr, pr.overrides.keys().len() as int)
            },
        }
    }
}

/// The whole override pass: the first `n` prefabs of the cook order.
pub open spec fn spec_apply_all(
    w: Seq<Seq<ComponentValue>>,
    registry: ComponentRegistry,
    ident: Map<u128, int>,
    store: PrefabStore,
    order: Seq<u128>,
    n: int,
) -> Result<Seq<Seq<ComponentValue>>, CookError>
    decreases n,
{
    if n <= 0 {
        Ok(w)
    } else {
        match spec_apply_all(w, registry, ident, store, order, n - 1) {
            Err(e) => Err(e),
            Ok(w2) => {
                let d = store.value_of(order[n - 1]);
                spec_apply_def(w2, registry, ident, d, d.prefab_refs.keys().len() as int)
            },
        }
    }
}

/// A failed prefix fails every longer prefix with the same error.
proof fn lemma_ov_list_err(
    w: Seq<Seq<ComponentValue>>,
    registry: ComponentRegistry,
    eid: int,
    ovs: Seq<ComponentOverride>,
    k: int,
    n: int,
)
    requires
        0 <= k <= n,
        spec_apply_ov_list(w, registry, eid, ovs, k) is Err,
    ensures
        spec_apply_ov_list(w, registry, eid, ovs, n) == spec_apply_ov_list(w, registry, eid, ovs, k),
    decreases n - k,
{
    if k < n {
        lemma_ov_list_err(w, registry, eid, ovs, k, n - 1);
    }
}

/// A failed prefix fails every longer prefix with the same error.
proof fn lemma_ref_err(
    w: Seq<Seq<ComponentValue>>,
    registry: ComponentRegistry,
    ident: Map<u128, int>,
    pr: PrefabRef,
    k: int,
    n: int,
)
    requires
        0 <= k <= n,
        spec_apply_ref(w, registry, ident, pr, k) is Err,
    ensures
        spec_apply_ref(w, registry, ident, pr, n) == spec_apply_ref(w, registry, ident, pr, k),
    decreases n - k,
{
    if k < n {
        lemma_ref_err(w, registry, ident, pr, k, n - 1);
    }
}

/// A failed prefix fails every longer prefix with the same error.
proof fn lemma_def_err(
    w: Seq<Seq<ComponentValue>>,
    registry: ComponentRegistry,
    ident: Map<u128, int>,
    d: PrefabDefinition,
    k: int,
    n: int,
)
    requires
        0 <= k <= n,
        spec_apply_def(w, registry, ident, d, k) is Err,
    ensures
        spec_apply_def(w, registry, ident, d, n) == spec_apply_def(w, registry, ident, d, k),
    decreases n - k,
{
    if k < n {
        lemma_def_err(w, registry, ident, d, k, n - 1);
    }
}

/// A failed prefix fails every longer prefix with the same error.
proof fn lemma_all_err(
    w: Seq<Seq<ComponentValue>>,
    registry: ComponentRegistry,
    ident: Map<u128, int>,
    store: PrefabStore,
    order: Seq<u128>,
    k: int,
    n: int,
)
    requires
        0 <= k <= n,
        spec_apply_all(w, registry, ident, store, order, k) is Err,
    ensures
        spec_apply_all(w, registry, ident, store, order, n)
            == spec_apply_all(w, registry, ident, store, order, k),
    decreases n - k,
{
    if k < n {
        lemma_all_err(w, registry, ident, store, order, k, n - 1);
    }
}

/// Applies every override of every prefab reference, prefabs in cook
/// order.  The result is exactly what the specification fold says, error
/// for error.
pub fn apply_overrides(
    world: &mut World,
    registry: &ComponentRegistry,
    ident: &UuidMap<usize>,
    store: &PrefabStore,
    order: &Vec<u128>,
) -> (r: Result<(), CookError>)
    requires
        old(world).wf(),
        registry.wf(),
        store.wf(),
        ident.wf(),
        forall|i: int| 0 <= i < order@.len() ==> store.contains_spec(#[trigger] order@[i]),
        forall|i: int| 0 <= i < order@.len() ==> (#[trigger] store.value_of(order@[i])).wf(),
        forall|u: u128| #[trigger] ident.contains_spec(u) ==>
            ident.value_of(u) < old(world)@.len(),
    ensures
        final(world).wf(),
        final(world)@.len() == old(world)@.len(),
        match r {
            Ok(_) => spec_apply_all(old(world)@, *registry, ident_map_of(*ident), *store,
                order@, order@.len() as int) == Ok::<_, CookError>(final(world)@),
            Err(e) => !(e is RoundTripMismatch)
                && spec_apply_all(old(world)@, *registry, ident_map_of(*ident), *store,
                    order@, order@.len() as int) == Err::<Seq<Seq<ComponentValue>>, _>(e),
        },
{
    let ghost w0 = old(world)@;
    let ghost im = ident_map_of(*ident);
    let n = order.len();
    let mut i: usize = 0;
    while i < n
        invariant
            i <= n,
            n == order@.len(),
            world.wf(),
            world@.len() == w0.len(),
            registry.wf(),
            store.wf(),
            ident.wf(),
            w0 == old(world)@,
            im == ident_map_of(*ident),
            forall|i2: int| 0 <= i2 < order@.len() ==>
                store.contains_spec(#[trigger] order@[i2]),
            forall|i2: int| 0 <= i2 < order@.len() ==>
                (#[trigger] store.value_of(order@[i2])).wf(),
            forall|u: u128| #[trigger] ident.contains_spec(u) ==> ident.value_of(u) < w0.len(),
            spec_apply_all(w0, *registry, im, *store, order@, i as int)
                == Ok::<_, CookError>(world@),
        decreases n - i,
    {
        let id = order[i];
        let def = match store.get(id) {
            Some(d) => d,
            None => vstd::pervasive::unreached(),
        };
        let ghost w_def = world@;
        let nr = def.prefab_refs.len();
        let mut p: usize = 0;
        while p < nr
            invariant
                p <= nr,
                i < n,
                n == order@.len(),
                world.wf(),
                world@.len() == w0.len(),
                registry.wf(),
                store.wf(),
                ident.wf(),
                w0 == old(world)@,
                im == ident_map_of(*ident),
                *def == store.value_of(order@[i as int]),
                def.wf(),
                nr == def.prefab_refs.keys().len(),
                forall|u: u128| #[trigger] ident.contains_spec(u) ==>
                    ident.value_of(u) < w0.len(),
                spec_apply_all(w0, *registry, im, *store, order@, i as int)
                    == Ok::<_, CookError>(w_def),
                w_def.len() == w0.len(),
                spec_apply_def(w_def, *registry, im, *def, p as int)
                    == Ok::<_, CookError>(world@),
            decreases nr - p,
        {
            let pr = def.prefab_refs.val_at(p);
            let ghost w_ref = world@;
            let nu = pr.overrides.len();
            let mut q: usize = 0;
            while q < nu
                invariant
                    q <= nu,
                    p < nr,
                    i < n,
                    n == order@.len(),
                    world.wf(),
                    world@.len() == w0.len(),
                    registry.wf(),
                    store.wf(),
                    ident.wf(),
                    w0 == old(world)@,
                    im == ident_map_of(*ident),
                    *def == store.value_of(order@[i as int]),
                    def.wf(),
                    nr == def.prefab_refs.keys().len(),
                    *pr == def.prefab_refs.vals()[p as int],
                    pr.wf(),
                    nu == pr.overrides.keys().len(),
                    forall|u: u128| #[trigger] ident.contains_spec(u) ==>
                        ident.value_of(u) < w0.len(),
                    spec_apply_all(w0, *registry, im, *store, order@, i as int)
                        == Ok::<_, CookError>(w_def),
                    w_def.len() == w0.len(),
                    spec_apply_def(w_def, *registry, im, *def, p as int)
                        == Ok::<_, CookError>(w_ref),
                    w_ref.len() == w0.len(),
                    spec_apply_ref(w_ref, *registry, im, *pr, q as int)
                        == Ok::<_, CookError>(world@),
                decreases nu - q,
            {
                let u = pr.overrides.key_at(q);
                let eid = match ident.get(u) {
                    Some(v) => *v,
                    None => {
                        proof {
                            assert(!im.dom().contains(u));
                            assert(spec_apply_ref(w_ref, *registry, im, *pr, q as int + 1)
                                is Err);
                            lemma_ref_err(w_ref, *registry, im, *pr, q as int + 1, nu as int);
                            lemma_def_err(w_def, *registry, im, *def, p as int + 1, nr as int);
                            lemma_all_err(w0, *registry, im, *store, order@, i as int + 1,
                                n as int);
                        }
                        return Err(CookError::DanglingOverrideReference { entity: u });
                    },
                };
                proof {
                    assert(im.dom().contains(u));
                    assert(im[u] == eid as int);
                }
                let ovs = pr.overrides.val_at(q);
                let ghost w_ent = world@;
                let no = ovs.len();
                let mut k: usize = 0;
                while k < no
                    invariant
                        k <= no,
                        q < nu,
                        p < nr,
                        i < n,
                        n == order@.len(),
                        world.wf(),
                        world@.len() == w0.len(),
                        registry.wf(),
                        store.wf(),
                        ident.wf(),
                        w0 == old(world)@,
                        im == ident_map_of(*ident),
                        *def == store.value_of(order@[i as int]),
                        def.wf(),
                        nr == def.prefab_refs.keys().len(),
                        *pr == def.prefab_refs.vals()[p as int],
                        pr.wf(),
                        nu == pr.overrides.keys().len(),
                        u == pr.overrides.keys()[q as int],
                        im.dom().contains(u),
                        im[u] == eid as int,
                        eid < w0.len(),
                        ovs@ == pr.overrides.vals()[q as int]@,
                        no == ovs@.len(),
                        spec_apply_all(w0, *registry, im, *store, order@, i as int)
                            == Ok::<_, CookError>(w_def),
                        w_def.len() == w0.len(),
                        spec_apply_def(w_def, *registry, im, *def, p as int)
                            == Ok::<_, CookError>(w_ref),
                        w_ref.len() == w0.len(),
                        spec_apply_ref(w_ref, *registry, im, *pr, q as int)
                            == Ok::<_, CookError>(w_ent),
                        w_ent.len() == w0.len(),
                        spec_apply_ov_list(w_ent, *registry, eid as int, ovs@, k as int)
                            == Ok::<_, CookError>(world@),
                    decreases no - k,
                {
                    let ov = &ovs[k];
                    let ghost w_cur = world@;
                    let ct = ov.component_type;
                    let reg_err: Option<CookError> = match registry.lookup(ct) {
                        Ok(_) => None,
                        Err(e) => Some(e),
                    };
                    let step_err: Option<CookError> = if let Some(e) = reg_err {
                        Some(e)
                    } else {
                        match &ov.data {
                            DiffPayload::StructuredValueDiff => {
                                Some(CookError::UnsupportedDiffEncoding)
                            },
                            DiffPayload::BinaryDiff(bytes) => {
                                let comp = match world.get_component(eid, ct) {
                                    Some(c) => Some(*c),
                                    None => None,
                                };
                                match comp {
                                    None => None,
                                    Some(c) => {
                                        match apply_binary_diff(&c, bytes) {
                                            None => Some(CookError::MalformedDiff {
                                                component_type: ct,
                                            }),
                                            Some(c2) => {
                                                proof {
                                                    assert(c == comp_in(w_cur[eid as int], ct));
                                                    assert(spec_type_of(c) == ct);
                                                    assert(spec_apply_entries(c,
                                                        diff_entries(bytes@)) == Some(c2));
                                                    lemma_apply_entries_field(
                                                        c, diff_entries(bytes@), c2, 0);
                                                    assert(spec_type_of(c2) == ct);
                                                }
                                                world.set_component(eid, c2);
                                                None
                                            },
                                        }
                                    },
                                }
                            },
                        }
                    };
                    match step_err {
                        None => {
                            proof {
                                assert(spec_apply_override(w_cur, *registry, eid as int,
                                    ovs@[k as int]) == Ok::<_, CookError>(world@));
                            }
                        },
                        Some(e) => {
                            proof {
                                assert(spec_apply_override(w_cur, *registry, eid as int,
                                    ovs@[k as int]) == Err::<Seq<Seq<ComponentValue>>, _>(e));
                                lemma_ov_list_err(w_ent, *registry, eid as int, ovs@,
                                    k as int + 1, no as int);
                                lemma_ref_err(w_ref, *registry, im, *pr, q as int + 1, nu as int);
                                lemma_def_err(w_def, *registry, im, *def, p as int + 1, nr as int);
                                lemma_all_err(w0, *registry, im, *store, order@, i as int + 1,
                                    n as int);
                            }
                            return Err(e);
                        },
                    }
                    k += 1;
                }
                proof {
                    assert(spec_apply_ref(w_ref, *registry, im, *pr, q as int + 1)
                        == Ok::<_, CookError>(world@));
                }
                q += 1;
            }
            proof {
                assert(spec_apply_def(w_def, *registry, im, *def, p as int + 1)
                    == Ok::<_, CookError>(world@));
            }
            p += 1;
        }
        proof {
            assert(spec_apply_all(w0, *registry, im, *store, order@, i as int + 1)
                == Ok::<_, CookError>(world@));
        }
        i += 1;
    }
    Ok(())
}


/// Two component lists with the same schema at every position.
pub open spec fn same_kinds(a: Seq<ComponentValue>, b: Seq<ComponentValue>) -> bool {
    a.len() == b.len() && forall|i: int| 0 <= i < a.len() ==>
        spec_type_of(#[trigger] a[i]) == spec_type_of(b[i])
}

/// Two worlds whose every entity keeps its component schemas.
pub open spec fn same_kinds_world(a: Seq<Seq<ComponentValue>>, b: Seq<Seq<ComponentValue>>)
    -> bool
{
    a.len() == b.len() && forall|e: int| 0 <= e < a.len() ==> same_kinds(#[trigger] a[e], b[e])
}

/// One override never adds, removes or re-types a component.
proof fn lemma_override_kinds(
    w: Seq<Seq<ComponentValue>>,
    registry: ComponentRegistry,
    eid: int,
    ov: ComponentOverride,
    w2: Seq<Seq<ComponentValue>>,
)
    requires
        spec_apply_override(w, registry, eid, ov) == Ok::<_, CookError>(w2),
        0 <= eid < w.len(),
    ensures
        same_kinds_world(w, w2),
{
    match ov.data {
        DiffPayload::StructuredValueDiff => {},
        DiffPayload::BinaryDiff(bytes) => {
            if has_comp(w[eid], ov.component_type) {
                let ci = comp_index_in(w[eid], ov.component_type);
                let c = w[eid][ci];
                let c2 = spec_apply_binary_diff(c, bytes@).unwrap();
                crate::diff::lemma_apply_entries_field(c, diff_entries(bytes@), c2, 0);
                assert forall|e: int| 0 <= e < w.len() implies
                    same_kinds(#[trigger] w[e], w2[e]) by {
                    if e == eid {
                        assert forall|i: int| 0 <= i < w[e].len() implies
                            spec_type_of(#[trigger] w[e][i]) == spec_type_of(w2[e][i]) by {
                            if i != ci {
                                assert(w2[e][i] == w[e][i]);
                            }
                        }
                    } else {
                        assert(w2[e] == w[e]);
                    }
                }
            } else {
                assert forall|e: int| 0 <= e < w.len() implies
                    same_kinds(#[trigger] w[e], w2[e]) by {}
            }
        },
    }
}

/// Schema preservation chains.
proof fn lemma_same_kinds_trans(
    a: Seq<Seq<ComponentValue>>,
    b: Seq<Seq<ComponentValue>>,
    c: Seq<Seq<ComponentValue>>,
)
    requires
        same_kinds_world(a, b),
        same_kinds_world(b, c),
    ensures
        same_kinds_world(a, c),
{
    assert forall|e: int| 0 <= e < a.len() implies same_kinds(#[trigger] a[e], c[e]) by {
        assert(same_kinds(a[e], b[e]));
        assert(same_kinds(b[e], c[e]));
    }
}

/// An override list never changes any entity's component schemas.
proof fn lemma_ov_list_kinds(
    w: Seq<Seq<ComponentValue>>,
    registry: ComponentRegistry,
    eid: int,
    ovs: Seq<ComponentOverride>,
    n: int,
    w2: Seq<Seq<ComponentValue>>,
)
    requires
        spec_apply_ov_list(w, registry, eid, ovs, n) == Ok::<_, CookError>(w2),
        0 <= eid < w.len(),
        0 <= n,
    ensures
        same_kinds_world(w, w2),
    decreases n,
{
    if n == 0 {
        assert forall|e: int| 0 <= e < w.len() implies same_kinds(#[trigger] w[e], w2[e]) by {}
    } else {
        let wm = spec_apply_ov_list(w, registry, eid, ovs, n - 1).unwrap();
        lemma_ov_list_kinds(w, registry, eid, ovs, n - 1, wm);
        lemma_override_kinds(wm, registry, eid, ovs[n - 1], w2);
        lemma_same_kinds_trans(w, wm, w2);
    }
}

/// One reference's overrides never change any entity's component schemas.
proof fn lemma_ref_kinds(
    w: Seq<Seq<ComponentValue>>,
    registry: ComponentRegistry,
    ident: Map<u128, int>,
    pr: PrefabRef,
    n: int,
    w2: Seq<Seq<ComponentValue>>,
)
    requires
        spec_apply_ref(w, registry, ident, pr, n) == Ok::<_, CookError>(w2),
        0 <= n,
        forall|u: u128| ident.dom().contains(u) ==> 0 <= #[trigger] ident[u] < w.len(),
    ensures
        same_kinds_world(w, w2),
    decreases n,
{
    if n == 0 {
        assert forall|e: int| 0 <= e < w.len() implies same_kinds(#[trigger] w[e], w2[e]) by {}
    } else {
        let wm = spec_apply_ref(w, registry, ident, pr, n - 1).unwrap();
        lemma_ref_kinds(w, registry, ident, pr, n - 1, wm);
        let u = pr.overrides.keys()[n - 1];
        let ovs = pr.overrides.vals()[n - 1]@;
        assert(ident.dom().contains(u));
        lemma_ov_list_kinds(wm, registry, ident[u], ovs, ovs.len() as int, w2);
        lemma_same_kinds_trans(w, wm, w2);
    }
}

/// One prefab's references never change any entity's component schemas.
proof fn lemma_def_kinds(
    w: Seq<Seq<ComponentValue>>,
    registry: ComponentRegistry,
    ident: Map<u128, int>,
    d: PrefabDefinition,
    n: int,
    w2: Seq<Seq<ComponentValue>>,
)
    requires
        spec_apply_def(w, registry, ident, d, n) == Ok::<_, CookError>(w2),
        0 <= n,
        forall|u: u128| ident.dom().contains(u) ==> 0 <= #[trigger] ident[u] < w.len(),
    ensures
        same_kinds_world(w, w2),
    decreases n,
{
    if n == 0 {
        assert forall|e: int| 0 <= e < w.len() implies same_kinds(#[trigger] w[e], w2[e]) by {}
    } else {
        let wm = spec_apply_def(w, registry, ident, d, n - 1).unwrap();
        lemma_def_kinds(w, registry, ident, d, n - 1, wm);
        let pr = d.prefab_refs.vals()[n - 1];
        lemma_ref_kinds(wm, registry, ident, pr, pr.overrides.keys().len() as int, w2);
        lemma_same_kinds_trans(w, wm, w2);
    }
}

/// Law: the whole override pass never creates entities or components —
/// every entity keeps exactly its component schemas, so overrides only
/// mutate fields of components already present from the clone phase.
pub proof fn lemma_apply_all_kinds(
    w: Seq<Seq<ComponentValue>>,
    registry: ComponentRegistry,
    ident: Map<u128, int>,
    store: PrefabStore,
    order: Seq<u128>,
    n: int,
    w2: Seq<Seq<ComponentValue>>,
)
    requires
        spec_apply_all(w, registry, ident, store, order, n) == Ok::<_, CookError>(w2),
        0 <= n,
        forall|u: u128| ident.dom().contains(u) ==> 0 <= #[trigger] ident[u] < w.len(),
    ensures
        same_kinds_world(w, w2),
    decreases n,
{
    if n == 0 {
        assert forall|e: int| 0 <= e < w.len() implies same_kinds(#[trigger] w[e], w2[e]) by {}
    } else {
        let wm = spec_apply_all(w, registry, ident, store, order, n - 1).unwrap();
        lemma_apply_all_kinds(w, registry, ident, store, order, n - 1, wm);
        let d = store.value_of(order[n - 1]);
        lemma_def_kinds(wm, registry, ident, d, d.prefab_refs.keys().len() as int, w2);
        lemma_same_kinds_trans(w, wm, w2);
    }
}


/// The slot an override aims at: its destination entity and component
/// schema.
pub open spec fn override_slot(eid: int, ov: ComponentOverride) -> (int, u128) {
    (eid, ov.component_type)
}

/// Law (declared-order independence): two successful overrides aimed at
/// different slots — different destination entities, or different
/// component schemas on one entity — commute: applied in the opposite
/// declaration order they still succeed and yield the same world.
pub proof fn lemma_override_steps_commute(
    w: Seq<Seq<ComponentValue>>,
    registry: ComponentRegistry,
    e1: int,
    ov1: ComponentOverride,
    e2: int,
    ov2: ComponentOverride,
    w1: Seq<Seq<ComponentValue>>,
    w2: Seq<Seq<ComponentValue>>,
)
    requires
        0 <= e1 < w.len(),
        0 <= e2 < w.len(),
        override_slot(e1, ov1) != override_slot(e2, ov2),
        forall|e: int| 0 <= e < w.len() ==> comps_sorted(#[trigger] w[e]),
        spec_apply_override(w, registry, e1, ov1) == Ok::<_, CookError>(w1),
        spec_apply_override(w1, registry, e2, ov2) == Ok::<_, CookError>(w2),
    ensures
        exists|wm: Seq<Seq<ComponentValue>>|
            spec_apply_override(w, registry, e2, ov2) == Ok::<_, CookError>(wm)
            && #[trigger] spec_apply_override(wm, registry, e1, ov1) == Ok::<_, CookError>(w2),
{
    let ct1 = ov1.component_type;
    let ct2 = ov2.component_type;
    let bytes1 = ov1.data.arrow_BinaryDiff_0();
    let bytes2 = ov2.data.arrow_BinaryDiff_0();
    if !has_comp(w[e1], ct1) {
        // the first override was a no-op
        assert(w1 == w);
        let wm = w2;
        assert(spec_apply_override(w, registry, e2, ov2) == Ok::<_, CookError>(wm));
        assert(wm.len() == w.len());
        assert(wm[e1] == w[e1] || e1 == e2);
        if e1 == e2 {
            // same entity, different schema: kinds are preserved
            if has_comp(w[e2], ct2) {
                let j2 = comp_index_in(w[e2], ct2);
                let c2 = spec_apply_binary_diff(w[e2][j2], bytes2@).unwrap();
                lemma_apply_entries_field(w[e2][j2], diff_entries(bytes2@), c2, 0);
                assert(wm[e1] == w[e1].update(j2, c2));
                if has_comp(wm[e1], ct1) {
                    let j1 = comp_index_in(wm[e1], ct1);
                    assert(spec_type_of(wm[e1][j1]) == ct1);
                    if j1 == j2 {
                        assert(spec_type_of(c2) == ct2);
                        assert(false);
                    }
                    assert(spec_type_of(w[e1][j1]) == ct1);
                    assert(has_comp(w[e1], ct1));
                    assert(false);
                }
            } else {
                assert(wm == w);
            }
        }
        assert(!has_comp(wm[e1], ct1));
        assert(spec_apply_override(wm, registry, e1, ov1) == Ok::<_, CookError>(wm));
        assert(w2 == wm);
    } else {
        let i1 = comp_index_in(w[e1], ct1);
        let c1 = spec_apply_binary_diff(w[e1][i1], bytes1@).unwrap();
        assert(w1 == w.update(e1, w[e1].update(i1, c1)));
        lemma_apply_entries_field(w[e1][i1], diff_entries(bytes1@), c1, 0);
        assert(spec_type_of(c1) == ct1);
        // the second override reads a slot the first never touched
        let row2 = w1[e2];
        if e1 != e2 {
            assert(row2 == w[e2]);
        }
        if !has_comp(row2, ct2) {
            assert(w2 == w1);
            assert(!has_comp(w[e2], ct2)) by {
                if e1 == e2 && has_comp(w[e2], ct2) {
                    let j = comp_index_in(w[e2], ct2);
                    assert(j != i1);
                    assert(row2[j] == w[e2][j]);
                    assert(spec_type_of(row2[j]) == ct2);
                }
            }
            let wm = w;
            assert(spec_apply_override(w, registry, e2, ov2) == Ok::<_, CookError>(wm));
            assert(spec_apply_override(wm, registry, e1, ov1) == Ok::<_, CookError>(w1));
        } else {
            let j2p = comp_index_in(row2, ct2);
            // the schema ct2 sits at the same position before the first override
            assert(has_comp(w[e2], ct2) && comp_index_in(w[e2], ct2) == j2p) by {
                if e1 == e2 {
                    assert(spec_type_of(row2[j2p]) == ct2);
                    if j2p == i1 {
                        assert(false);
                    }
                    assert(row2[j2p] == w[e2][j2p]);
                    assert(has_comp(w[e2], ct2));
                    let j = comp_index_in(w[e2], ct2);
                    if j != j2p {
                        assert(spec_type_of(w[e2][j]) == ct2);
                        assert(j != i1 || spec_type_of(w[e2][i1]) == ct1);
                        assert(spec_type_of(row2[j]) == ct2);
                        assert(false);
                    }
                }
            }
            assert(row2[j2p] == w[e2][j2p]) by {
                if e1 == e2 {
                    assert(j2p != i1);
                }
            }
            let c2 = spec_apply_binary_diff(row2[j2p], bytes2@).unwrap();
            assert(w2 == w1.update(e2, row2.update(j2p, c2)));
            lemma_apply_entries_field(row2[j2p], diff_entries(bytes2@), c2, 0);
            let wm = w.update(e2, w[e2].update(j2p, c2));
            assert(spec_apply_override(w, registry, e2, ov2) == Ok::<_, CookError>(wm));
            // the first override still applies on top, to the untouched slot
            assert(has_comp(wm[e1], ct1) && comp_index_in(wm[e1], ct1) == i1
                && wm[e1][i1] == w[e1][i1]) by {
                if e1 == e2 {
                    assert(wm[e1] == w[e1].update(j2p, c2));
                    assert(spec_type_of(wm[e1][i1]) == ct1);
                    assert(has_comp(wm[e1], ct1));
                    let j = comp_index_in(wm[e1], ct1);
                    if j != i1 {
                        assert(spec_type_of(wm[e1][j]) == ct1);
                        if j == j2p {
                            assert(spec_type_of(c2) == ct2);
                            assert(false);
                        }
                        assert(spec_type_of(w[e1][j]) == ct1);
                        assert(false);
                    }
                } else {
                    assert(wm[e1] == w[e1]);
                }
            }
            assert(spec_apply_override(wm, registry, e1, ov1)
                == Ok::<_, CookError>(wm.update(e1, wm[e1].update(i1, c1))));
            assert(wm.update(e1, wm[e1].update(i1, c1)) =~= w2) by {
                if e1 == e2 {
                    assert(wm[e1].update(i1, c1) =~= row2.update(j2p, c2)) by {
                        assert forall|x: int| 0 <= x < w[e1].len() implies
                            wm[e1].update(i1, c1)[x] == row2.update(j2p, c2)[x] by {}
                    }
                } else {
                    assert forall|e: int| 0 <= e < w.len() implies
                        wm.update(e1, wm[e1].update(i1, c1))[e] == w2[e] by {}
                }
            }
        }
    }
}

} // verus!
