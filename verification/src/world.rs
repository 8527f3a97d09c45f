//! Columnar entity storage.
//!
//! Entities live in an arena of chunks; each chunk is a fixed-capacity
//! structure-of-arrays batch for one archetype (one set of component
//! schemas, kept strictly sorted).  Operations on a chunk work on whole
//! column ranges, never per-entity pointers.  Externally an entity is a
//! dense index, and the world abstracts to a sequence of entities, each a
//! type-sorted component list.

use vstd::prelude::*;
use crate::component::{spec_type_of, type_of, ComponentValue};

verus! {

/// Fixed capacity of one chunk.
pub const CHUNK_CAPACITY: usize = 64;

/// Strictly increasing schema ids: the canonical archetype order, which
/// also keeps each kind unique within an entity.
pub open spec fn types_sorted(s: Seq<u128>) -> bool {
    forall|i: int, j: int| 0 <= i < j < s.len() ==> s[i] < s[j]
}

/// A component list in canonical form: strictly sorted by schema id.
pub open spec fn comps_sorted(s: Seq<ComponentValue>) -> bool {
    forall|i: int, j: int| 0 <= i < j < s.len() ==> spec_type_of(s[i]) < spec_type_of(s[j])
}

/// Whether the component list `s` holds a component of schema `t`.
pub open spec fn has_comp(s: Seq<ComponentValue>, t: u128) -> bool {
    exists|i: int| 0 <= i < s.len() && spec_type_of(s[i]) == t
}

/// The position of schema `t` inside the component list `s`.
pub open spec fn comp_index_in(s: Seq<ComponentValue>, t: u128) -> int {
    choose|i: int| 0 <= i < s.len() && spec_type_of(s[i]) == t
}

/// The component of schema `t` inside the component list `s`.
pub open spec fn comp_in(s: Seq<ComponentValue>, t: u128) -> ComponentValue {
    s[comp_index_in(s, t)]
}

/// One fixed-capacity structure-of-arrays batch of entities sharing an
/// archetype.
pub struct Chunk {
    /// The archetype: component schema ids, strictly increasing.
    pub types: Vec<u128>,
    /// Column `i` holds the values of schema `types[i]`, one per row.
    pub columns: Vec<Vec<ComponentValue>>,
    /// How many rows are in use.
    pub rows: usize,
}

impl Chunk {
    /// Aligned columns of the declared kinds, one value per row.
    pub open spec fn wf(self) -> bool {
        &&& self.columns@.len() == self.types@.len()
        &&& self.rows <= CHUNK_CAPACITY
        &&& types_sorted(self.types@)
        &&& forall|i: int| 0 <= i < self.columns@.len() ==>
                (#[trigger] self.columns@[i])@.len() == self.rows
        &&& forall|i: int, r: int| 0 <= i < self.columns@.len() && 0 <= r < self.rows ==>
                spec_type_of(#[trigger] self.columns@[i]@[r]) == self.types@[i]
    }

    /// The components of the entity in row `r`, in archetype order.
    pub open spec fn row_view(self, r: int) -> Seq<ComponentValue> {
        Seq::new(self.types@.len(), |i: int| self.columns@[i]@[r])
    }
}

/// Where an entity's row lives.
#[derive(Clone, Copy, Debug, PartialEq, Eq, Structural)]
pub struct EntityLocation {
    pub chunk: usize,
    pub row: usize,
}

/// Columnar entity storage: an arena of chunks plus the dense table from
/// entity index to its row.
pub struct World {
    /// The chunk arena.
    pub chunks: Vec<Chunk>,
    /// Entity index to location; entity indices are dense and stable.
    pub locations: Vec<EntityLocation>,
}

impl World {
    /// Whether some entity owns row `r` of chunk `c`.
    pub open spec fn row_owned(self, c: int, r: int) -> bool {
        exists|e: int| 0 <= e < self.locations@.len()
            && self.locations@[e] == (EntityLocation { chunk: c as usize, row: r as usize })
    }

    /// Chunks are well formed, every entity points at a live row, no two
    /// entities share a row, and every live row belongs to an entity.
    pub open spec fn wf(self) -> bool {
        &&& forall|c: int| 0 <= c < self.chunks@.len() ==> (#[trigger] self.chunks@[c]).wf()
        &&& forall|e: int| 0 <= e < self.locations@.len() ==> {
                let l = #[trigger] self.locations@[e];
                l.chunk < self.chunks@.len() && l.row < self.chunks@[l.chunk as int].rows
            }
        &&& forall|e1: int, e2: int|
                0 <= e1 < self.locations@.len() && 0 <= e2 < self.locations@.len() && e1 != e2
                ==> self.locations@[e1] != self.locations@[e2]
        &&& forall|c: int, r: int| 0 <= c < self.chunks@.len() && 0 <= r < self.chunks@[c].rows
                ==> #[trigger] self.row_owned(c, r)
    }

    /// The components of entity `e`, in archetype order.
    pub open spec fn entity_view(self, e: int) -> Seq<ComponentValue> {
        self.chunks@[self.locations@[e].chunk as int].row_view(self.locations@[e].row as int)
    }
}

impl View for World {
    type V = Seq<Seq<ComponentValue>>;

    /// The world as a sequence of entities, each a type-sorted component
    /// list.
    open spec fn view(&self) -> Seq<Seq<ComponentValue>> {
        Seq::new(self.locations@.len() as nat, |e: int| self.entity_view(e))
    }
}

impl World {
    /// In a well-formed world every entity's component list is in canonical
    /// sorted form.
    pub proof fn lemma_view_sorted(self)
        requires
            self.wf(),
        ensures
            forall|e: int| 0 <= e < self@.len() ==> comps_sorted(#[trigger] self@[e]),
    {
        assert forall|e: int| 0 <= e < self@.len() implies comps_sorted(#[trigger] self@[e]) by {
            let l = self.locations@[e];
            let ch = self.chunks@[l.chunk as int];
            assert(ch.wf());
            assert forall|i: int, j: int| 0 <= i < j < self@[e].len() implies
                spec_type_of(self@[e][i]) < spec_type_of(self@[e][j]) by {
                assert(spec_type_of(ch.columns@[i]@[l.row as int]) == ch.types@[i]);
                assert(spec_type_of(ch.columns@[j]@[l.row as int]) == ch.types@[j]);
            }
        }
    }

    /// An empty world.
    pub fn new() -> (r: Self)
        ensures
            r.wf(),
            r@ == Seq::<Seq<ComponentValue>>::empty(),
    {
        let r = World { chunks: Vec::new(), locations: Vec::new() };
        proof {
            assert(r@ =~= Seq::<Seq<ComponentValue>>::empty());
        }
        r
    }

    /// How many entities the world holds.
    pub fn num_entities(&self) -> (r: usize)
        ensures
            r == self@.len(),
    {
        self.locations.len()
    }

    /// The position of a chunk with archetype `types` and a free row, or
    /// the arena length when none has room.
    fn find_chunk(&self, types: &Vec<u128>) -> (c: usize)
        ensures
            c <= self.chunks@.len(),
            c < self.chunks@.len() ==> self.chunks@[c as int].types@ == types@
                && self.chunks@[c as int].rows < CHUNK_CAPACITY,
    {
        let n = self.chunks.len();
        let mut c: usize = 0;
        while c < n
            invariant
                c <= n,
                n == self.chunks@.len(),
            decreases n - c,
        {
            if self.chunks[c].rows < CHUNK_CAPACITY && vec_u128_eq(&self.chunks[c].types, types) {
                return c;
            }
            c += 1;
        }
        c
    }

    /// Adds one entity with the given canonical component list; returns its
    /// index.
    pub fn push_entity(&mut self, comps: Vec<ComponentValue>) -> (eid: usize)
        requires
            old(self).wf(),
            comps_sorted(comps@),
        ensures
            final(self).wf(),
            final(self)@ == old(self)@.push(comps@),
            eid == old(self)@.len(),
    {
        let n = comps.len();
        let mut types: Vec<u128> = Vec::new();
        let mut i: usize = 0;
        while i < n
            invariant
                i <= n,
                n == comps@.len(),
                types@.len() == i,
                forall|j: int| 0 <= j < i ==> types@[j] == spec_type_of(comps@[j]),
            decreases n - i,
        {
            types.push(type_of(&comps[i]));
            i += 1;
        }
        proof {
            assert forall|a: int, b: int| 0 <= a < b < types@.len() implies
                types@[a] < types@[b] by {
                assert(types@[a] == spec_type_of(comps@[a]));
                assert(types@[b] == spec_type_of(comps@[b]));
            }
            assert(types_sorted(types@));
        }
        let ghost types_g = types@;

        let found = self.find_chunk(&types);
        let c = if found == self.chunks.len() {
            let mut columns: Vec<Vec<ComponentValue>> = Vec::new();
            let mut i: usize = 0;
            while i < n
                invariant
                    i <= n,
                    columns@.len() == i,
                    forall|j: int| 0 <= j < i ==> (#[trigger] columns@[j])@.len() == 0,
                decreases n - i,
            {
                columns.push(Vec::new());
                i += 1;
            }
            let fresh = Chunk { types, columns, rows: 0 };
            assert(fresh.wf());
            let c = self.chunks.len();
            self.chunks.push(fresh);
            proof {
                assert forall|cc: int, r: int|
                    0 <= cc < self.chunks@.len() && 0 <= r < self.chunks@[cc].rows implies
                    #[trigger] self.row_owned(cc, r) by {
                    assert(cc < old(self).chunks@.len() && self.chunks@[cc] == old(self).chunks@[cc]);
                    assert(old(self).row_owned(cc, r));
                    let e = choose|e: int| 0 <= e < old(self).locations@.len()
                        && old(self).locations@[e]
                            == (EntityLocation { chunk: cc as usize, row: r as usize });
                    assert(self.locations@[e] == old(self).locations@[e]);
                }
                assert(self.wf());
                assert forall|e: int| 0 <= e < self@.len() implies
                    self@[e] == old(self)@[e] by {
                    let l = self.locations@[e];
                    assert(self.chunks@[l.chunk as int] == old(self).chunks@[l.chunk as int]);
                }
                assert(self@ =~= old(self)@);
            }
            c
        } else {
            found
        };
        proof {
            assert(self@ == old(self)@);
            assert(self.wf());
            assert(self.chunks@[c as int].types@ == types_g);
        }
        let ghost mid = *self;
        let ghost chv = self.chunks@[c as int];

        let row = self.chunks[c].rows;
        let mut i: usize = 0;
        while i < n
            invariant
                i <= n,
                n == comps@.len(),
                c < self.chunks@.len(),
                self.chunks@.len() == mid.chunks@.len(),
                self.locations@ == mid.locations@,
                forall|k: int| 0 <= k < self.chunks@.len() && k != c ==>
                    self.chunks@[k] == mid.chunks@[k],
                chv == mid.chunks@[c as int],
                chv.wf(),
                chv.types@.len() == n,
                chv.rows < CHUNK_CAPACITY,
                row == chv.rows,
                self.chunks@[c as int].types@ == chv.types@,
                self.chunks@[c as int].rows == chv.rows,
                self.chunks@[c as int].columns@.len() == chv.columns@.len(),
                forall|j: int| 0 <= j < i ==> (#[trigger] self.chunks@[c as int].columns@[j])@
                    == chv.columns@[j]@.push(comps@[j]),
                forall|j: int| i <= j < n ==> (#[trigger] self.chunks@[c as int].columns@[j])
                    == chv.columns@[j],
            decreases n - i,
        {
            let v = comps[i];
            self.chunks[c].columns[i].push(v);
            i += 1;
        }
        self.chunks[c].rows = row + 1;
        let eid = self.locations.len();
        self.locations.push(EntityLocation { chunk: c, row });
        proof {
            assert forall|j: int| 0 <= j < n implies
                (#[trigger] self.chunks@[c as int].columns@[j])@
                    == mid.chunks@[c as int].columns@[j]@.push(comps@[j]) by {}
            lemma_push_row(mid, *self, c, row, comps@);
        }
        eid
    }

    /// The component of schema `t` on entity `eid`, if any.
    pub fn get_component(&self, eid: usize, t: u128) -> (r: Option<&ComponentValue>)
        requires
            self.wf(),
            eid < self@.len(),
        ensures
            match r {
                Some(v) => has_comp(self@[eid as int], t) && *v == comp_in(self@[eid as int], t),
                None => !has_comp(self@[eid as int], t),
            },
    {
        let l = self.locations[eid];
        let ch_len = self.chunks[l.chunk].types.len();
        let ghost ev = self@[eid as int];
        assert(ev == self.chunks@[l.chunk as int].row_view(l.row as int));
        let mut i: usize = 0;
        while i < ch_len
            invariant
                i <= ch_len,
                self.wf(),
                eid < self@.len(),
                l == self.locations@[eid as int],
                ch_len == self.chunks@[l.chunk as int].types@.len(),
                ev == self@[eid as int],
                ev == self.chunks@[l.chunk as int].row_view(l.row as int),
                forall|j: int| 0 <= j < i ==> spec_type_of(#[trigger] ev[j]) != t,
            decreases ch_len - i,
        {
            proof {
                let ch = self.chunks@[l.chunk as int];
                assert(spec_type_of(ev[i as int]) == ch.types@[i as int]);
            }
            if self.chunks[l.chunk].types[i] == t {
                let v = &self.chunks[l.chunk].columns[i][l.row];
                proof {
                    let ch = self.chunks@[l.chunk as int];
                    assert(ev[i as int] == ch.columns@[i as int]@[l.row as int]);
                    assert(spec_type_of(ev[i as int]) == t);
                    assert(has_comp(ev, t));
                    let j = comp_index_in(ev, t);
                    if j != i as int {
                        assert(spec_type_of(ev[j]) == ch.types@[j]);
                        assert(ch.types@[j] == t && ch.types@[i as int] == t);
                        assert(false);
                    }
                }
                return Some(v);
            }
            i += 1;
        }
        proof {
            if has_comp(ev, t) {
                let j = comp_index_in(ev, t);
                assert(spec_type_of(ev[j]) == t);
            }
        }
        None
    }

    /// The full component list of entity `eid`, as a vector.
    pub fn entity_components(&self, eid: usize) -> (r: Vec<ComponentValue>)
        requires
            self.wf(),
            eid < self@.len(),
        ensures
            r@ == self@[eid as int],
    {
        let l = self.locations[eid];
        let ch_len = self.chunks[l.chunk].types.len();
        let ghost ev = self@[eid as int];
        assert(ev == self.chunks@[l.chunk as int].row_view(l.row as int));
        let mut r: Vec<ComponentValue> = Vec::new();
        let mut i: usize = 0;
        while i < ch_len
            invariant
                i <= ch_len,
                self.wf(),
                eid < self@.len(),
                l == self.locations@[eid as int],
                ch_len == self.chunks@[l.chunk as int].types@.len(),
                ev == self@[eid as int],
                ev == self.chunks@[l.chunk as int].row_view(l.row as int),
                r@.len() == i,
                forall|j: int| 0 <= j < i ==> r@[j] == ev[j],
            decreases ch_len - i,
        {
            r.push(self.chunks[l.chunk].columns[i][l.row]);
            i += 1;
        }
        proof {
            assert(r@ =~= ev);
        }
        r
    }

    /// Replaces the component of `v`'s own schema on entity `eid`; only
    /// that one slot of that one entity changes.
    pub fn set_component(&mut self, eid: usize, v: ComponentValue)
        requires
            old(self).wf(),
            eid < old(self)@.len(),
            has_comp(old(self)@[eid as int], spec_type_of(v)),
        ensures
            final(self).wf(),
            final(self)@ == old(self)@.update(
                eid as int,
                old(self)@[eid as int].update(
                    comp_index_in(old(self)@[eid as int], spec_type_of(v)),
                    v,
                ),
            ),
    {
        let ghost pre = *self;
        let ghost t_spec = spec_type_of(v);
        let ghost ev = pre@[eid as int];
        let ghost ci = comp_index_in(ev, t_spec);
        let l = self.locations[eid];
        let t = type_of(&v);
        let ch_len = self.chunks[l.chunk].types.len();
        proof {
            assert(ev == pre.chunks@[l.chunk as int].row_view(l.row as int));
            assert(0 <= ci < ev.len() && spec_type_of(ev[ci]) == t_spec);
        }
        let mut i: usize = 0;
        while i < ch_len
            invariant
                i <= ch_len,
                *self == pre,
                pre == *old(self),
                t_spec == spec_type_of(v),
                pre.wf(),
                eid < pre@.len(),
                l == pre.locations@[eid as int],
                ch_len == pre.chunks@[l.chunk as int].types@.len(),
                t == t_spec,
                ev == pre@[eid as int],
                ev == pre.chunks@[l.chunk as int].row_view(l.row as int),
                ci == comp_index_in(ev, t_spec),
                0 <= ci < ev.len() && spec_type_of(ev[ci]) == t_spec,
                forall|j: int| 0 <= j < i ==> spec_type_of(#[trigger] ev[j]) != t_spec,
            decreases ch_len - i,
        {
            proof {
                let ch = pre.chunks@[l.chunk as int];
                assert(spec_type_of(ev[i as int]) == ch.types@[i as int]);
            }
            if self.chunks[l.chunk].types[i] == t {
                proof {
                    let ch = pre.chunks@[l.chunk as int];
                    assert(ch.wf());
                    assert(ch.types@[i as int] == t_spec);
                    if ci != i as int {
                        assert(ev[ci] == ch.columns@[ci]@[l.row as int]);
                        assert(spec_type_of(ev[ci]) == ch.types@[ci]);
                        assert(ch.types@[ci] == t_spec && ch.types@[i as int] == t_spec);
                        assert(false);
                    }
                    assert(pre.locations@[eid as int] == l);
                    assert(pre.chunks@[pre.locations@[eid as int].chunk as int].types@[i as int]
                        == spec_type_of(v));
                }
                self.chunks[l.chunk].columns[i][l.row] = v;
                proof {
                    lemma_set_slot(pre, *self, eid as int, i as int, v);
                }
                return;
            }
            i += 1;
        }
        proof {
            assert(spec_type_of(ev[ci]) == t_spec);
            assert(false);
        }
    }
}

impl World {
    /// Swaps one whole column of one chunk for a column of a schema that
    /// sorts after every schema the chunk declares.  Every entity of that
    /// chunk loses the old column's component and gains the new column's
    /// value for its row; every other entity is untouched.
    pub fn replace_chunk_column(
        &mut self,
        c: usize,
        di: usize,
        newtype: u128,
        newcol: Vec<ComponentValue>,
    )
        requires
            old(self).wf(),
            c < old(self).chunks@.len(),
            di < old(self).chunks@[c as int].types@.len(),
            newcol@.len() == old(self).chunks@[c as int].rows,
            forall|r: int| 0 <= r < newcol@.len() ==>
                spec_type_of(#[trigger] newcol@[r]) == newtype,
            forall|i: int| 0 <= i < old(self).chunks@[c as int].types@.len() ==>
                (#[trigger] old(self).chunks@[c as int].types@[i]) < newtype,
        ensures
            final(self).wf(),
            final(self).locations@ == old(self).locations@,
            final(self).chunks@.len() == old(self).chunks@.len(),
            forall|k: int| 0 <= k < old(self).chunks@.len() && k != c ==>
                final(self).chunks@[k] == old(self).chunks@[k],
            final(self)@.len() == old(self)@.len(),
            forall|e: int| 0 <= e < old(self)@.len() ==> #[trigger] final(self)@[e] == {
                let l = old(self).locations@[e];
                if l.chunk == c {
                    old(self)@[e].remove(di as int).push(newcol@[l.row as int])
                } else {
                    old(self)@[e]
                }
            },
        {
        let ghost pre = *self;
        let _ = self.chunks[c].types.remove(di);
        self.chunks[c].types.push(newtype);
        let _ = self.chunks[c].columns.remove(di);
        self.chunks[c].columns.push(newcol);
        proof {
            let ci = c as int;
            let d = di as int;
            let ch = pre.chunks@[ci];
            let chp = self.chunks@[ci];
            let nlen = ch.types@.len() as int;
            assert(ch.wf());
            assert(chp.types@ == ch.types@.remove(d).push(newtype));
            assert(chp.columns@ == ch.columns@.remove(d).push(newcol));
            assert(chp.rows == ch.rows);
            assert(chp.types@.len() == nlen);
            assert(chp.columns@.len() == nlen);
            assert(chp.wf()) by {
                assert forall|i: int, j: int| 0 <= i < j < chp.types@.len() implies
                    chp.types@[i] < chp.types@[j] by {
                    if j < nlen - 1 {
                        assert(chp.types@[i] == ch.types@.remove(d)[i]);
                        assert(chp.types@[j] == ch.types@.remove(d)[j]);
                    } else {
                        assert(chp.types@[j] == newtype);
                        if i < nlen - 1 {
                            assert(chp.types@[i] == ch.types@.remove(d)[i]);
                        }
                    }
                }
                assert forall|i: int| 0 <= i < chp.columns@.len() implies
                    (#[trigger] chp.columns@[i])@.len() == chp.rows by {
                    if i < nlen - 1 {
                        assert(chp.columns@[i] == ch.columns@.remove(d)[i]);
                    } else {
                        assert(chp.columns@[i] == newcol);
                    }
                }
                assert forall|i: int, r: int|
                    0 <= i < chp.columns@.len() && 0 <= r < chp.rows implies
                    spec_type_of(#[trigger] chp.columns@[i]@[r]) == chp.types@[i] by {
                    if i < nlen - 1 {
                        assert(chp.columns@[i] == ch.columns@.remove(d)[i]);
                        assert(chp.types@[i] == ch.types@.remove(d)[i]);
                        if i < d {
                            assert(spec_type_of(ch.columns@[i]@[r]) == ch.types@[i]);
                        } else {
                            assert(spec_type_of(ch.columns@[i + 1]@[r]) == ch.types@[i + 1]);
                        }
                    } else {
                        assert(chp.columns@[i] == newcol);
                    }
                }
            }
            assert forall|k: int| 0 <= k < self.chunks@.len() implies
                (#[trigger] self.chunks@[k]).wf() by {
                if k != ci {
                    assert(self.chunks@[k] == pre.chunks@[k]);
                }
            }
            assert forall|e: int| 0 <= e < self.locations@.len() implies {
                let l = #[trigger] self.locations@[e];
                l.chunk < self.chunks@.len() && l.row < self.chunks@[l.chunk as int].rows
            } by {
                let l = pre.locations@[e];
                if l.chunk as int != ci {
                    assert(self.chunks@[l.chunk as int] == pre.chunks@[l.chunk as int]);
                }
            }
            assert forall|cc: int, r: int|
                0 <= cc < self.chunks@.len() && 0 <= r < self.chunks@[cc].rows implies
                #[trigger] self.row_owned(cc, r) by {
                assert(self.chunks@[cc].rows == pre.chunks@[cc].rows) by {
                    if cc != ci {
                        assert(self.chunks@[cc] == pre.chunks@[cc]);
                    }
                }
                assert(pre.row_owned(cc, r));
                let e = choose|e: int| 0 <= e < pre.locations@.len()
                    && pre.locations@[e]
                        == (EntityLocation { chunk: cc as usize, row: r as usize });
                assert(self.locations@[e] == pre.locations@[e]);
            }
            assert(self.wf());
            assert forall|e: int| 0 <= e < pre@.len() implies #[trigger] self@[e] == {
                let l = pre.locations@[e];
                if l.chunk == c {
                    pre@[e].remove(d).push(newcol@[l.row as int])
                } else {
                    pre@[e]
                }
            } by {
                let l = pre.locations@[e];
                if l.chunk as int == ci {
                    let lr = l.row as int;
                    assert(chp.row_view(lr) =~= ch.row_view(lr).remove(d).push(newcol@[lr])) by {
                        assert forall|i: int| 0 <= i < nlen implies
                            chp.row_view(lr)[i] == ch.row_view(lr).remove(d).push(newcol@[lr])[i] by {
                            if i < nlen - 1 {
                                assert(chp.columns@[i] == ch.columns@.remove(d)[i]);
                                if i < d {
                                    assert(ch.row_view(lr).remove(d)[i] == ch.row_view(lr)[i]);
                                } else {
                                    assert(ch.row_view(lr).remove(d)[i] == ch.row_view(lr)[i + 1]);
                                }
                            } else {
                                assert(chp.columns@[i] == newcol);
                            }
                        }
                    }
                } else {
                    assert(self.chunks@[l.chunk as int] == pre.chunks@[l.chunk as int]);
                    assert(self@[e] == pre@[e]);
                }
            }
        }
    }
}

/// Compares two id vectors element-wise.
fn vec_u128_eq(a: &Vec<u128>, b: &Vec<u128>) -> (r: bool)
    ensures
        r <==> a@ == b@,
{
    if a.len() != b.len() {
        proof {
            assert(a@.len() != b@.len());
        }
        return false;
    }
    let n = a.len();
    let mut i: usize = 0;
    while i < n
        invariant
            i <= n,
            n == a@.len(),
            n == b@.len(),
            forall|j: int| 0 <= j < i ==> a@[j] == b@[j],
        decreases n - i,
    {
        if a[i] != b[i] {
            return false;
        }
        i += 1;
    }
    proof {
        assert(a@ =~= b@);
    }
    true
}

/// After appending one row of `comps` to chunk `c` and registering the new
/// entity, the world is still well formed and abstracts to the old entity
/// sequence with `comps` appended.
proof fn lemma_push_row(pre: World, post: World, cx: usize, rx: usize, comps: Seq<ComponentValue>)
    requires
        pre.wf(),
        ({
            let c = cx as int;
            let row = rx as int;
            &&& 0 <= c < pre.chunks@.len()
            &&& pre.chunks@[c].types@.len() == comps.len()
            &&& pre.chunks@[c].rows == row
            &&& pre.chunks@[c].rows < CHUNK_CAPACITY
            &&& forall|j: int| 0 <= j < comps.len() ==>
                    pre.chunks@[c].types@[j] == spec_type_of(comps[j])
            &&& post.chunks@.len() == pre.chunks@.len()
            &&& forall|k: int| 0 <= k < pre.chunks@.len() && k != c ==>
                    post.chunks@[k] == pre.chunks@[k]
            &&& post.chunks@[c].types@ == pre.chunks@[c].types@
            &&& post.chunks@[c].rows == row + 1
            &&& post.chunks@[c].columns@.len() == pre.chunks@[c].columns@.len()
            &&& forall|j: int| 0 <= j < comps.len() ==> (#[trigger] post.chunks@[c].columns@[j])@
                    == pre.chunks@[c].columns@[j]@.push(comps[j])
            &&& post.locations@ == pre.locations@.push(EntityLocation { chunk: cx, row: rx })
        }),
    ensures
        post.wf(),
        post@ == pre@.push(comps),
{
    let c = cx as int;
    let row = rx as int;
    let n = pre.locations@.len() as int;
    let newloc = EntityLocation { chunk: cx, row: rx };

    assert(post.chunks@[c].wf()) by {
        let chp = post.chunks@[c];
        let ch = pre.chunks@[c];
        assert(ch.wf());
        assert forall|i: int| 0 <= i < chp.columns@.len() implies
            (#[trigger] chp.columns@[i])@.len() == chp.rows by {
            assert(chp.columns@[i]@ == ch.columns@[i]@.push(comps[i]));
        }
        assert forall|i: int, r: int| 0 <= i < chp.columns@.len() && 0 <= r < chp.rows implies
            spec_type_of(#[trigger] chp.columns@[i]@[r]) == chp.types@[i] by {
            assert(chp.columns@[i]@ == ch.columns@[i]@.push(comps[i]));
            if r < row {
                assert(chp.columns@[i]@[r] == ch.columns@[i]@[r]);
                assert(spec_type_of(ch.columns@[i]@[r]) == ch.types@[i]);
            } else {
                assert(chp.columns@[i]@[r] == comps[i]);
            }
        }
    }
    assert forall|k: int| 0 <= k < post.chunks@.len() implies (#[trigger] post.chunks@[k]).wf() by {
        if k != c {
            assert(post.chunks@[k] == pre.chunks@[k]);
        }
    }

    assert forall|e: int| 0 <= e < post.locations@.len() implies {
        let l = #[trigger] post.locations@[e];
        l.chunk < post.chunks@.len() && l.row < post.chunks@[l.chunk as int].rows
    } by {
        if e < n {
            assert(post.locations@[e] == pre.locations@[e]);
            let l = pre.locations@[e];
            if l.chunk as int != c {
                assert(post.chunks@[l.chunk as int] == pre.chunks@[l.chunk as int]);
            }
        } else {
            assert(post.locations@[e] == newloc);
        }
    }
    assert forall|e1: int, e2: int|
        0 <= e1 < post.locations@.len() && 0 <= e2 < post.locations@.len() && e1 != e2 implies
        post.locations@[e1] != post.locations@[e2] by {
        if e1 < n && e2 < n {
        } else if e1 == n && e2 < n {
            let l2 = pre.locations@[e2];
            if l2.chunk as int == c {
                assert(l2.row < row);
            }
        } else if e2 == n && e1 < n {
            let l1 = pre.locations@[e1];
            if l1.chunk as int == c {
                assert(l1.row < row);
            }
        }
    }
    assert forall|cc: int, r: int|
        0 <= cc < post.chunks@.len() && 0 <= r < post.chunks@[cc].rows implies
        #[trigger] post.row_owned(cc, r) by {
        if cc == c && r == row {
            assert(post.locations@[n] == newloc);
        } else {
            assert(0 <= r < pre.chunks@[cc].rows) by {
                if cc != c {
                    assert(post.chunks@[cc] == pre.chunks@[cc]);
                }
            }
            assert(pre.row_owned(cc, r));
            let e = choose|e: int| 0 <= e < pre.locations@.len()
                && pre.locations@[e] == (EntityLocation { chunk: cc as usize, row: r as usize });
            assert(post.locations@[e] == pre.locations@[e]);
        }
    }

    assert(post@ =~= pre@.push(comps)) by {
        assert forall|e: int| 0 <= e < post@.len() implies
            post@[e] == pre@.push(comps)[e] by {
            if e < n {
                let l = pre.locations@[e];
                assert(post.locations@[e] == l);
                if l.chunk as int == c {
                    let ch = pre.chunks@[c];
                    let chp = post.chunks@[c];
                    assert(l.row < row);
                    assert(chp.row_view(l.row as int) =~= ch.row_view(l.row as int)) by {
                        assert forall|i: int| 0 <= i < chp.types@.len() implies
                            chp.row_view(l.row as int)[i] == ch.row_view(l.row as int)[i] by {
                            assert(chp.columns@[i]@ == ch.columns@[i]@.push(comps[i]));
                            assert(ch.columns@[i]@.len() == row);
                        }
                    }
                } else {
                    assert(post.chunks@[l.chunk as int] == pre.chunks@[l.chunk as int]);
                }
            } else {
                assert(post.locations@[e] == newloc);
                let chp = post.chunks@[c];
                assert(chp.row_view(row) =~= comps) by {
                    assert forall|i: int| 0 <= i < chp.types@.len() implies
                        chp.row_view(row)[i] == comps[i] by {
                        assert(chp.columns@[i]@ == pre.chunks@[c].columns@[i]@.push(comps[i]));
                        assert(pre.chunks@[c].columns@[i]@.len() == row);
                    }
                }
            }
        }
    }
}

/// After replacing one slot of one row, the world abstracts to the old
/// entity sequence with only that entity's one component replaced.
proof fn lemma_set_slot(pre: World, post: World, eid: int, ci: int, v: ComponentValue)
    requires
        pre.wf(),
        0 <= eid < pre@.len(),
        0 <= ci < pre.chunks@[pre.locations@[eid].chunk as int].types@.len(),
        pre.chunks@[pre.locations@[eid].chunk as int].types@[ci] == spec_type_of(v),
        post.locations@ == pre.locations@,
        post.chunks@.len() == pre.chunks@.len(),
        forall|k: int| 0 <= k < pre.chunks@.len() && k != pre.locations@[eid].chunk as int ==>
            post.chunks@[k] == pre.chunks@[k],
        post.chunks@[pre.locations@[eid].chunk as int].types@
            == pre.chunks@[pre.locations@[eid].chunk as int].types@,
        post.chunks@[pre.locations@[eid].chunk as int].rows
            == pre.chunks@[pre.locations@[eid].chunk as int].rows,
        post.chunks@[pre.locations@[eid].chunk as int].columns@.len()
            == pre.chunks@[pre.locations@[eid].chunk as int].columns@.len(),
        forall|j: int|
            0 <= j < pre.chunks@[pre.locations@[eid].chunk as int].columns@.len() && j != ci ==>
            post.chunks@[pre.locations@[eid].chunk as int].columns@[j]
                == pre.chunks@[pre.locations@[eid].chunk as int].columns@[j],
        post.chunks@[pre.locations@[eid].chunk as int].columns@[ci]@
            == pre.chunks@[pre.locations@[eid].chunk as int].columns@[ci]@.update(
                pre.locations@[eid].row as int,
                v,
            ),
    ensures
        post.wf(),
        post@ == pre@.update(eid, pre@[eid].update(ci, v)),
{
    let l = pre.locations@[eid];
    let c = l.chunk as int;
    let lr = l.row as int;
    let ch = pre.chunks@[c];
    let chp = post.chunks@[c];
    assert(ch.wf());

    assert(chp.wf()) by {
        assert forall|i: int| 0 <= i < chp.columns@.len() implies
            (#[trigger] chp.columns@[i])@.len() == chp.rows by {
            if i == ci {
                assert(chp.columns@[i]@ == ch.columns@[ci]@.update(lr, v));
            } else {
                assert(chp.columns@[i] == ch.columns@[i]);
            }
        }
        assert forall|i: int, r: int| 0 <= i < chp.columns@.len() && 0 <= r < chp.rows implies
            spec_type_of(#[trigger] chp.columns@[i]@[r]) == chp.types@[i] by {
            if i == ci {
                assert(chp.columns@[i]@ == ch.columns@[ci]@.update(lr, v));
                if r != lr {
                    assert(chp.columns@[i]@[r] == ch.columns@[i]@[r]);
                    assert(spec_type_of(ch.columns@[i]@[r]) == ch.types@[i]);
                }
            } else {
                assert(chp.columns@[i] == ch.columns@[i]);
                assert(spec_type_of(ch.columns@[i]@[r]) == ch.types@[i]);
            }
        }
    }
    assert forall|k: int| 0 <= k < post.chunks@.len() implies (#[trigger] post.chunks@[k]).wf() by {
        if k != c {
            assert(post.chunks@[k] == pre.chunks@[k]);
        }
    }
    assert forall|e: int| 0 <= e < post.locations@.len() implies {
        let le = #[trigger] post.locations@[e];
        le.chunk < post.chunks@.len() && le.row < post.chunks@[le.chunk as int].rows
    } by {
        let le = pre.locations@[e];
        if le.chunk as int != c {
            assert(post.chunks@[le.chunk as int] == pre.chunks@[le.chunk as int]);
        }
    }
    assert forall|cc: int, r: int|
        0 <= cc < post.chunks@.len() && 0 <= r < post.chunks@[cc].rows implies
        #[trigger] post.row_owned(cc, r) by {
        assert(post.chunks@[cc].rows == pre.chunks@[cc].rows) by {
            if cc != c {
                assert(post.chunks@[cc] == pre.chunks@[cc]);
            }
        }
        assert(pre.row_owned(cc, r));
        let e = choose|e: int| 0 <= e < pre.locations@.len()
            && pre.locations@[e] == (EntityLocation { chunk: cc as usize, row: r as usize });
        assert(post.locations@[e] == pre.locations@[e]);
    }

    assert(post@ =~= pre@.update(eid, pre@[eid].update(ci, v))) by {
        assert forall|e: int| 0 <= e < post@.len() implies
            post@[e] == pre@.update(eid, pre@[eid].update(ci, v))[e] by {
            let le = pre.locations@[e];
            if e == eid {
                assert(chp.row_view(lr) =~= pre@[eid].update(ci, v)) by {
                    assert forall|i: int| 0 <= i < chp.types@.len() implies
                        chp.row_view(lr)[i] == pre@[eid].update(ci, v)[i] by {
                        if i == ci {
                            assert(chp.columns@[ci]@ == ch.columns@[ci]@.update(lr, v));
                        } else {
                            assert(chp.columns@[i] == ch.columns@[i]);
                        }
                    }
                }
            } else if le.chunk as int == c {
                assert(pre.locations@[e] != pre.locations@[eid]);
                assert(le.row as int != lr);
                assert(chp.row_view(le.row as int) =~= ch.row_view(le.row as int)) by {
                    assert forall|i: int| 0 <= i < chp.types@.len() implies
                        chp.row_view(le.row as int)[i] == ch.row_view(le.row as int)[i] by {
                        if i == ci {
                            assert(chp.columns@[ci]@ == ch.columns@[ci]@.update(lr, v));
                            assert(chp.columns@[ci]@[le.row as int] == ch.columns@[ci]@[le.row as int]);
                        } else {
                            assert(chp.columns@[i] == ch.columns@[i]);
                        }
                    }
                }
            } else {
                assert(post.chunks@[le.chunk as int] == pre.chunks@[le.chunk as int]);
            }
        }
    }
}

} // verus!
