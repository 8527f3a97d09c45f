//! Prefab dependency resolution.
//!
//! A recursive depth-first traversal from the requested prefab: the
//! references of a prefab are resolved before the prefab itself is appended
//! to the cook order, so bases always precede dependents.  An id that is
//! met again while still in progress is a reference cycle and is reported
//! instead of recursing without bound; an id the store cannot supply is a
//! load failure.

use vstd::prelude::*;
use vstd::seq_lib::seq_to_set_is_finite;
use crate::errors::CookError;
use crate::keymap::UuidMap;
use crate::prefab::PrefabDefinition;

verus! {

/// A cache of loaded prefab definitions, keyed by asset id.
pub type PrefabStore = UuidMap<PrefabDefinition>;

/// The asset ids a definition references (its bases), in declaration order.
pub open spec fn refs_of(d: PrefabDefinition) -> Seq<u128> {
    d.prefab_refs.keys()
}

/// The cook-order guarantee: every listed prefab is in the store, and every
/// prefab it references appears strictly earlier in the order.
pub open spec fn topo_ok(order: Seq<u128>, store: PrefabStore) -> bool {
    forall|i: int| 0 <= i < order.len() ==> store.contains_spec(#[trigger] order[i])
        && (forall|k: int| 0 <= k < refs_of(store.value_of(order[i])).len()
            ==> order.subrange(0, i).contains(#[trigger] refs_of(store.value_of(order[i]))[k]))
}

/// Every reference of every cached definition is itself cached: the
/// loader supplied a transitively complete set.
pub open spec fn store_closed(store: PrefabStore) -> bool {
    forall|k: u128| #[trigger] store.contains_spec(k) ==>
        forall|x: int| 0 <= x < refs_of(store.value_of(k)).len() ==>
            store.contains_spec(#[trigger] refs_of(store.value_of(k))[x])
}

/// A ranking that orders the reference graph: every base ranks strictly
/// below each prefab that references it.
pub open spec fn rank_orders(store: PrefabStore, rank: Map<u128, int>) -> bool {
    forall|k: u128, x: int|
        store.contains_spec(k) && 0 <= x < refs_of(store.value_of(k)).len() ==>
        rank[#[trigger] refs_of(store.value_of(k))[x]] < rank[k]
}

/// The reference graph has no cycle: some ranking orders it.
pub open spec fn acyclic(store: PrefabStore) -> bool {
    exists|rank: Map<u128, int>| rank_orders(store, rank)
}

/// `chain` walks the reference graph from `from` to `a`: every element but
/// the last is cached and references the next.
pub open spec fn chain_from_to(store: PrefabStore, chain: Seq<u128>, from: u128, a: u128)
    -> bool
{
    &&& chain.len() >= 1
    &&& chain[0] == from
    &&& chain.last() == a
    &&& forall|p: int| 0 <= p < chain.len() - 1 ==>
            store.contains_spec(#[trigger] chain[p])
            && refs_of(store.value_of(chain[p])).contains(chain[p + 1])
}

/// Asset `a` is required by `from`'s graph: a chain of references leads
/// from `from` to `a`.
pub open spec fn ref_chain(store: PrefabStore, from: u128, a: u128) -> bool {
    exists|chain: Seq<u128>| chain_from_to(store, chain, from, a)
}

/// Along a reference chain the rank falls strictly.
proof fn lemma_chain_rank(
    store: PrefabStore,
    rank: Map<u128, int>,
    path: Seq<u128>,
    a: int,
    b: int,
)
    requires
        rank_orders(store, rank),
        forall|p: int| 0 <= p < path.len() ==> store.contains_spec(#[trigger] path[p]),
        forall|p: int| 0 <= p < path.len() - 1 ==>
            refs_of(store.value_of(#[trigger] path[p])).contains(path[p + 1]),
        0 <= a < b < path.len(),
    ensures
        rank[path[b]] < rank[path[a]],
    decreases b - a,
{
    assert(refs_of(store.value_of(path[b - 1])).contains(path[b]));
    let x = choose|x: int| 0 <= x < refs_of(store.value_of(path[b - 1])).len()
        && #[trigger] refs_of(store.value_of(path[b - 1]))[x] == path[b];
    assert(rank[refs_of(store.value_of(path[b - 1]))[x]] < rank[path[b - 1]]);
    if a < b - 1 {
        lemma_chain_rank(store, rank, path, a, b - 1);
    }
}

/// A duplicate-free sequence drawn from a duplicate-free pool is no longer
/// than the pool.
proof fn lemma_distinct_among(keys: Seq<u128>, sub: Seq<u128>)
    requires
        keys.no_duplicates(),
        sub.no_duplicates(),
        forall|i: int| 0 <= i < sub.len() ==> keys.contains(#[trigger] sub[i]),
    ensures
        sub.len() <= keys.len(),
{
    broadcast use vstd::set::group_set_axioms;

    sub.unique_seq_to_set();
    keys.unique_seq_to_set();
    seq_to_set_is_finite(keys);
    assert forall|x: u128| sub.to_set().contains(x) implies keys.to_set().contains(x) by {
        assert(sub.contains(x));
        let i = choose|i: int| 0 <= i < sub.len() && sub[i] == x;
        assert(keys.contains(sub[i]));
    }
    vstd::set_lib::lemma_len_subset(sub.to_set(), keys.to_set());
}

/// Whether `v` holds `x`.
fn vec_contains(v: &Vec<u128>, x: u128) -> (r: bool)
    ensures
        r == v@.contains(x),
{
    let n = v.len();
    let mut i: usize = 0;
    while i < n
        invariant
            i <= n,
            n == v@.len(),
            forall|j: int| 0 <= j < i ==> v@[j] != x,
        decreases n - i,
    {
        if v[i] == x {
            return true;
        }
        i += 1;
    }
    false
}

/// Resolves `id` and, first, everything it references.  `path` is the set
/// of ids whose resolution is in progress (the recursion stack); `order`
/// accumulates finished ids in post order.
fn resolve_rec(store: &PrefabStore, id: u128, path: &mut Vec<u128>, order: &mut Vec<u128>)
    -> (r: Result<(), CookError>)
    requires
        store.wf(),
        old(path)@.no_duplicates(),
        forall|p: int| 0 <= p < old(path)@.len() ==>
            store.contains_spec(#[trigger] old(path)@[p]),
        old(order)@.no_duplicates(),
        topo_ok(old(order)@, *store),
        forall|p: int| 0 <= p < old(path)@.len() ==>
            !old(order)@.contains(#[trigger] old(path)@[p]),
        forall|p: int| 0 <= p < old(path)@.len() - 1 ==>
            refs_of(store.value_of(#[trigger] old(path)@[p])).contains(old(path)@[p + 1]),
        old(path)@.len() > 0 ==>
            refs_of(store.value_of(old(path)@.last())).contains(id),
    ensures
        match r {
            Ok(_) => {
                &&& final(path)@ == old(path)@
                &&& old(order)@.is_prefix_of(final(order)@)
                &&& final(order)@.no_duplicates()
                &&& topo_ok(final(order)@, *store)
                &&& final(order)@.contains(id)
                &&& old(order)@.contains(id)
                    || (final(order)@.len() > 0 && final(order)@.last() == id)
                &&& forall|p: int| 0 <= p < old(path)@.len() ==>
                        !final(order)@.contains(#[trigger] old(path)@[p])
                &&& forall|p: int| old(order)@.len() <= p < final(order)@.len() ==>
                        final(order)@[p] == id
                        || exists|q: int| p < q < final(order)@.len()
                            && refs_of(store.value_of(final(order)@[q]))
                                .contains(final(order)@[p])
            },
            Err(e) => !(store_closed(*store) && store.contains_spec(id) && acyclic(*store))
                && match e {
                    CookError::LoadError { asset } => !store.contains_spec(asset)
                        && ref_chain(*store, id, asset),
                    CookError::CycleError { .. } => !acyclic(*store),
                    _ => false,
                },
        },
    decreases store.keys().len() - old(path)@.len(),
{
    if vec_contains(order, id) {
        return Ok(());
    }
    if vec_contains(path, id) {
        proof {
            if acyclic(*store) {
                let rank = choose|rank: Map<u128, int>| rank_orders(*store, rank);
                let chain = old(path)@.push(id);
                assert forall|p: int| 0 <= p < chain.len() implies
                    store.contains_spec(#[trigger] chain[p]) by {
                    if p < old(path)@.len() {
                        assert(chain[p] == old(path)@[p]);
                    } else {
                        let j0 = choose|j0: int| 0 <= j0 < old(path)@.len()
                            && old(path)@[j0] == id;
                        assert(store.contains_spec(old(path)@[j0]));
                    }
                }
                assert forall|p: int| 0 <= p < chain.len() - 1 implies
                    refs_of(store.value_of(#[trigger] chain[p])).contains(chain[p + 1]) by {
                    if p < old(path)@.len() - 1 {
                        assert(chain[p] == old(path)@[p] && chain[p + 1] == old(path)@[p + 1]);
                    } else {
                        assert(chain[p] == old(path)@.last() && chain[p + 1] == id);
                    }
                }
                let j = choose|j: int| 0 <= j < old(path)@.len() && old(path)@[j] == id;
                assert(chain[j] == id);
                assert(chain[chain.len() - 1] == id);
                lemma_chain_rank(*store, rank, chain, j, chain.len() - 1);
                assert(false);
            }
        }
        return Err(CookError::CycleError { asset: id });
    }
    let def = match store.get(id) {
        Some(d) => d,
        None => {
            proof {
                assert(chain_from_to(*store, seq![id], id, id));
            }
            return Err(CookError::LoadError { asset: id });
        },
    };
    path.push(id);
    let ghost base_path = old(path)@;
    let ghost base_order = old(order)@;
    let nrefs = def.prefab_refs.len();
    let mut k: usize = 0;
    while k < nrefs
        invariant
            k <= nrefs,
            store.wf(),
            store.contains_spec(id),
            *def == store.value_of(id),
            nrefs == refs_of(*def).len(),
            path@ == base_path.push(id),
            base_path == old(path)@,
            base_order == old(order)@,
            base_path.no_duplicates(),
            !base_path.contains(id),
            path@.no_duplicates(),
            forall|p: int| 0 <= p < path@.len() ==>
                store.contains_spec(#[trigger] path@[p]),
            order@.no_duplicates(),
            topo_ok(order@, *store),
            base_order.is_prefix_of(order@),
            base_order.no_duplicates(),
            !base_order.contains(id),
            forall|p: int| 0 <= p < path@.len() ==>
                !order@.contains(#[trigger] path@[p]),
            forall|p: int| 0 <= p < path@.len() - 1 ==>
                refs_of(store.value_of(#[trigger] path@[p])).contains(path@[p + 1]),
            forall|k2: int| 0 <= k2 < k ==> order@.contains(#[trigger] refs_of(*def)[k2]),
            forall|p: int| base_order.len() <= p < order@.len() ==>
                (exists|q: int| p < q < order@.len()
                    && refs_of(store.value_of(order@[q])).contains(order@[p]))
                || refs_of(*def).contains(#[trigger] order@[p]),
        decreases nrefs - k,
    {
        let rid = def.prefab_refs.key_at(k);
        let ghost mid_order = order@;
        proof {
            lemma_distinct_among(store.keys(), path@);
        }
        match resolve_rec(store, rid, path, order) {
            Ok(()) => {},
            Err(e) => {
                proof {
                    if store_closed(*store) && store.contains_spec(id) && acyclic(*store) {
                        assert(refs_of(store.value_of(id))[k as int] == rid);
                        assert(store.contains_spec(rid));
                        assert(false);
                    }
                    match e {
                        CookError::LoadError { asset } => {
                            let chain = choose|chain: Seq<u128>|
                                chain_from_to(*store, chain, rid, asset);
                            let longer = seq![id] + chain;
                            assert(chain_from_to(*store, longer, id, asset)) by {
                                assert(longer[0] == id);
                                assert(longer.last() == chain.last());
                                assert forall|p: int| 0 <= p < longer.len() - 1 implies
                                    store.contains_spec(#[trigger] longer[p])
                                    && refs_of(store.value_of(longer[p]))
                                        .contains(longer[p + 1]) by {
                                    if p == 0 {
                                        assert(longer[1] == chain[0]);
                                        assert(refs_of(store.value_of(id))[k as int] == rid);
                                        assert(refs_of(store.value_of(id)).contains(rid));
                                    } else {
                                        assert(longer[p] == chain[p - 1]);
                                        assert(longer[p + 1] == chain[p]);
                                    }
                                }
                            }
                        },
                        _ => {},
                    }
                }
                return Err(e);
            },
        }
        proof {
            assert forall|x: u128| mid_order.contains(x) implies order@.contains(x) by {
                let i = choose|i: int| 0 <= i < mid_order.len() && mid_order[i] == x;
                assert(order@[i] == mid_order[i]);
            }
            assert forall|x: u128| base_order.contains(x) implies order@.contains(x) by {
                let i = choose|i: int| 0 <= i < base_order.len() && base_order[i] == x;
                assert(mid_order[i] == base_order[i]);
                assert(order@[i] == base_order[i]);
            }
            assert(base_order.is_prefix_of(order@)) by {
                assert forall|i: int| 0 <= i < base_order.len() implies
                    order@[i] == base_order[i] by {
                    assert(mid_order[i] == base_order[i]);
                }
            }
            assert forall|p: int| base_order.len() <= p < order@.len() implies
                (exists|q: int| p < q < order@.len()
                    && refs_of(store.value_of(order@[q])).contains(order@[p]))
                || refs_of(*def).contains(#[trigger] order@[p]) by {
                if p < mid_order.len() {
                    assert(order@[p] == mid_order[p]);
                    if exists|q: int| p < q < mid_order.len()
                        && refs_of(store.value_of(mid_order[q])).contains(mid_order[p]) {
                        let q = choose|q: int| p < q < mid_order.len()
                            && refs_of(store.value_of(mid_order[q])).contains(mid_order[p]);
                        assert(order@[q] == mid_order[q]);
                    }
                } else {
                    if order@[p] == rid {
                        assert(refs_of(*def)[k as int] == rid);
                        assert(refs_of(*def).contains(order@[p]));
                    }
                }
            }
        }
        k += 1;
    }
    let _ = path.pop();
    proof {
        assert(path@ =~= base_path);
    }
    let ghost mid_order = order@;
    order.push(id);
    proof {
        assert(!mid_order.contains(id));
        assert(order@.no_duplicates()) by {
            assert forall|a: int, b: int|
                0 <= a < order@.len() && 0 <= b < order@.len() && a != b implies
                order@[a] != order@[b] by {
                let n = mid_order.len() as int;
                if a < n && b < n {
                    assert(order@[a] == mid_order[a] && order@[b] == mid_order[b]);
                } else if a == n && b < n {
                    assert(mid_order.contains(mid_order[b]));
                } else if b == n && a < n {
                    assert(mid_order.contains(mid_order[a]));
                }
            }
        }
        assert(topo_ok(order@, *store)) by {
            let n = mid_order.len() as int;
            assert forall|i: int| 0 <= i < order@.len() implies
                store.contains_spec(#[trigger] order@[i])
                && (forall|k2: int| 0 <= k2 < refs_of(store.value_of(order@[i])).len()
                    ==> order@.subrange(0, i).contains(
                        #[trigger] refs_of(store.value_of(order@[i]))[k2])) by {
                if i < n {
                    assert(order@[i] == mid_order[i]);
                    assert(store.contains_spec(mid_order[i]));
                    assert(order@.subrange(0, i) =~= mid_order.subrange(0, i));
                    assert forall|k2: int|
                        0 <= k2 < refs_of(store.value_of(order@[i])).len() implies
                        order@.subrange(0, i).contains(
                            #[trigger] refs_of(store.value_of(order@[i]))[k2]) by {
                        assert(mid_order.subrange(0, i).contains(
                            refs_of(store.value_of(mid_order[i]))[k2]));
                    }
                } else {
                    assert(order@[i] == id);
                    assert(order@.subrange(0, i) =~= mid_order);
                    assert forall|k2: int|
                        0 <= k2 < refs_of(store.value_of(id)).len() implies
                        order@.subrange(0, i).contains(
                            #[trigger] refs_of(store.value_of(id))[k2]) by {
                        assert(mid_order.contains(refs_of(*def)[k2]));
                    }
                }
            }
        }
        assert(base_order.is_prefix_of(order@)) by {
            assert forall|i: int| 0 <= i < base_order.len() implies
                order@[i] == base_order[i] by {
                assert(mid_order[i] == base_order[i]);
            }
        }
        assert(order@.last() == id);
        assert(order@.contains(id));
        assert forall|p: int| base_order.len() <= p < order@.len() implies
            order@[p] == id
            || exists|q: int| p < q < order@.len()
                && refs_of(store.value_of(order@[q])).contains(order@[p]) by {
            let n = mid_order.len() as int;
            if p < n {
                assert(order@[p] == mid_order[p]);
                if exists|q: int| p < q < mid_order.len()
                    && refs_of(store.value_of(mid_order[q])).contains(mid_order[p]) {
                    let q = choose|q: int| p < q < mid_order.len()
                        && refs_of(store.value_of(mid_order[q])).contains(mid_order[p]);
                    assert(order@[q] == mid_order[q]);
                } else if refs_of(*def).contains(mid_order[p]) {
                    assert(order@[n] == id);
                    assert(refs_of(store.value_of(order@[n])).contains(order@[p]));
                }
            }
        }
        assert forall|p: int| 0 <= p < base_path.len() implies
            !order@.contains(#[trigger] base_path[p]) by {
            assert(!mid_order.contains(base_path[p]));
            assert(base_path[p] != id);
            if order@.contains(base_path[p]) {
                let i = choose|i: int| 0 <= i < order@.len() && order@[i] == base_path[p];
                if i < mid_order.len() {
                    assert(mid_order.contains(mid_order[i]));
                }
            }
        }
    }
    Ok(())
}

/// Resolves the dependency graph of `root`: the returned cook order lists
/// every transitively referenced prefab exactly once, bases before
/// dependents, with `root` last.  Fails with `LoadError` only on an id the
/// root's graph requires but the store cannot supply, and with
/// `CycleError` only when the reference graph truly has a cycle; on a
/// closed, acyclic store that holds the root, resolution succeeds.
pub fn resolve(store: &PrefabStore, root: u128) -> (r: Result<Vec<u128>, CookError>)
    requires
        store.wf(),
    ensures
        match r {
            Ok(order) => {
                &&& order@.no_duplicates()
                &&& topo_ok(order@, *store)
                &&& order@.len() > 0
                &&& order@.last() == root
                &&& order@.contains(root)
                &&& forall|p: int| 0 <= p < order@.len() ==> order@[p] == root
                        || exists|q: int| p < q < order@.len()
                            && refs_of(store.value_of(order@[q])).contains(order@[p])
            },
            Err(e) => match e {
                CookError::LoadError { asset } => !store.contains_spec(asset)
                    && ref_chain(*store, root, asset),
                CookError::CycleError { .. } => !acyclic(*store),
                _ => false,
            },
        },
        store_closed(*store) && store.contains_spec(root) && acyclic(*store) ==> r is Ok,
{
    let mut path: Vec<u128> = Vec::new();
    let mut order: Vec<u128> = Vec::new();
    match resolve_rec(store, root, &mut path, &mut order) {
        Ok(()) => Ok(order),
        Err(e) => Err(e),
    }
}

} // verus!
