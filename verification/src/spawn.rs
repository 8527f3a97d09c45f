//! The spawn-transform pass.
//!
//! After overrides are applied, every component kind registered with a
//! spawn transform is converted from its authored form into its runtime
//! form, one chunk at a time: the transform consumes the definition
//! column of a chunk together with the aligned context columns (position
//! and scales) over a chunk-relative row range, allocates one physics
//! body and one collider per row, and yields the aligned runtime column,
//! which replaces the definition column.  An entity with no context
//! components uses the inert defaults: origin position, unit scales.

use vstd::prelude::*;
use crate::component::{
    spec_type_of, ComponentValue, NON_UNIFORM_SCALE2_TYPE, POSITION2_TYPE,
    RIGID_BODY_BALL_DEF_TYPE, RIGID_BODY_BOX_DEF_TYPE, RIGID_BODY_TYPE, UNIFORM_SCALE2_TYPE,
};
use crate::physics::{BodyRecord, ColliderRecord, PhysicsWorld, ShapeRecord};
use crate::registry::ComponentRegistry;
use crate::world::{comp_in, has_comp, EntityLocation, World};

verus! {

/// The smallest ball-shape radius, in milli-units: a degenerate authored
/// radius still yields a usable collision shape.
pub const MIN_BALL_RADIUS: u64 = 10;

/// One fixed-point scaling step (`s` in milli-units), saturating at the
/// top of the range.
pub open spec fn spec_scale_milli(v: u64, s: u32) -> u64 {
    if (v as int) * (s as int) / 1000 > u64::MAX as int {
        u64::MAX
    } else {
        ((v as int) * (s as int) / 1000) as u64
    }
}

/// One fixed-point scaling step.
pub fn scale_milli(v: u64, s: u32) -> (r: u64)
    ensures
        r == spec_scale_milli(v, s),
{
    proof {
        assert((v as int) * (s as int) <= (u64::MAX as int) * (u32::MAX as int))
            by (nonlinear_arith)
            requires
                v <= u64::MAX,
                s <= u32::MAX,
        {}
    }
    let x: u128 = (v as u128) * (s as u128) / 1000;
    if x > u64::MAX as u128 {
        u64::MAX
    } else {
        x as u64
    }
}

/// The authored position, or the origin where none was authored.
pub open spec fn spec_pos(pos: Option<ComponentValue>) -> (u32, u32) {
    match pos {
        Some(ComponentValue::Position2 { x, y }) => (x, y),
        _ => (0u32, 0u32),
    }
}

/// The authored uniform scale, or the unit scale.
pub open spec fn spec_uscale(us: Option<ComponentValue>) -> u32 {
    match us {
        Some(ComponentValue::UniformScale2 { scale }) => scale,
        _ => 1000u32,
    }
}

/// The authored per-axis scales, or the unit scales.
pub open spec fn spec_nscale(ns: Option<ComponentValue>) -> (u32, u32) {
    match ns {
        Some(ComponentValue::NonUniformScale2 { scale_x, scale_y }) => (scale_x, scale_y),
        _ => (1000u32, 1000u32),
    }
}

/// Whether the definition asks for a static body.
pub open spec fn spec_def_static(def: ComponentValue) -> bool {
    match def {
        ComponentValue::RigidBodyBallDef { is_static, .. } => is_static,
        ComponentValue::RigidBodyBoxDef { is_static, .. } => is_static,
        _ => false,
    }
}

/// The body a definition spawns: the ground body for a static definition,
/// else a dynamic body at the authored position.
pub open spec fn spec_body(def: ComponentValue, pos: Option<ComponentValue>) -> BodyRecord {
    if spec_def_static(def) {
        BodyRecord { is_ground: true, x: 0, y: 0 }
    } else {
        BodyRecord { is_ground: false, x: spec_pos(pos).0, y: spec_pos(pos).1 }
    }
}

/// The collision shape a definition spawns, after sibling scaling: a ball
/// radius takes the uniform scale and the minimum clamp; box half-extents
/// take the uniform and then the per-axis scales.
pub open spec fn spec_shape(
    def: ComponentValue,
    us: Option<ComponentValue>,
    ns: Option<ComponentValue>,
) -> ShapeRecord {
    match def {
        ComponentValue::RigidBodyBallDef { radius, .. } => {
            let r = spec_scale_milli(radius as u64, spec_uscale(us));
            ShapeRecord::Ball { radius: if r < MIN_BALL_RADIUS { MIN_BALL_RADIUS } else { r } }
        },
        ComponentValue::RigidBodyBoxDef { half_x, half_y, .. } => ShapeRecord::Box {
            half_x: spec_scale_milli(spec_scale_milli(half_x as u64, spec_uscale(us)),
                spec_nscale(ns).0),
            half_y: spec_scale_milli(spec_scale_milli(half_y as u64, spec_uscale(us)),
                spec_nscale(ns).1),
        },
        _ => ShapeRecord::Ball { radius: MIN_BALL_RADIUS },
    }
}

/// The collider a definition spawns, attached to body `h`; a static body
/// carries the authored position in the collider offset.
pub open spec fn spec_collider(
    def: ComponentValue,
    pos: Option<ComponentValue>,
    us: Option<ComponentValue>,
    ns: Option<ComponentValue>,
    h: u64,
) -> ColliderRecord {
    let off = if spec_def_static(def) { spec_pos(pos) } else { (0u32, 0u32) };
    ColliderRecord { shape: spec_shape(def, us, ns), body: h, offset_x: off.0, offset_y: off.1 }
}

/// Whether an entity carries a rigid-body definition to transform.
pub open spec fn spawnable(row: Seq<ComponentValue>) -> bool {
    has_comp(row, RIGID_BODY_BALL_DEF_TYPE) || has_comp(row, RIGID_BODY_BOX_DEF_TYPE)
}

/// Which definition schema the entity carries.
pub open spec fn def_type_in(row: Seq<ComponentValue>) -> u128 {
    if has_comp(row, RIGID_BODY_BALL_DEF_TYPE) {
        RIGID_BODY_BALL_DEF_TYPE
    } else {
        RIGID_BODY_BOX_DEF_TYPE
    }
}

/// The context component of schema `t`, where the entity has one.
pub open spec fn ctx_of(row: Seq<ComponentValue>, t: u128) -> Option<ComponentValue> {
    if has_comp(row, t) {
        Some(comp_in(row, t))
    } else {
        None
    }
}

/// The body an entity's spawn transform allocates.
pub open spec fn spec_body_of(row: Seq<ComponentValue>) -> BodyRecord {
    spec_body(comp_in(row, def_type_in(row)), ctx_of(row, POSITION2_TYPE))
}

/// The collider an entity's spawn transform allocates.
pub open spec fn spec_collider_of(row: Seq<ComponentValue>, h: u64) -> ColliderRecord {
    spec_collider(
        comp_in(row, def_type_in(row)),
        ctx_of(row, POSITION2_TYPE),
        ctx_of(row, UNIFORM_SCALE2_TYPE),
        ctx_of(row, NON_UNIFORM_SCALE2_TYPE),
        h,
    )
}

/// The runtime form of a spawnable entity: the definition replaced by the
/// runtime rigid body, which sorts last.
pub open spec fn spec_runtime_row(row: Seq<ComponentValue>, h: u64) -> Seq<ComponentValue> {
    row.remove(crate::world::comp_index_in(row, def_type_in(row)))
        .push(ComponentValue::RigidBody { handle: h })
}

/// The handle of an entity's runtime rigid body.
pub open spec fn rb_handle(row: Seq<ComponentValue>) -> u64 {
    match comp_in(row, RIGID_BODY_TYPE) {
        ComponentValue::RigidBody { handle } => handle,
        _ => 0u64,
    }
}

/// The aligned value of an optional context column at row `r`.
pub open spec fn opt_at(col: Option<&Vec<ComponentValue>>, r: int) -> Option<ComponentValue> {
    match col {
        Some(p) => Some(p@[r]),
        None => None,
    }
}


/// How many of the first `n` entities carry a rigid-body definition.
pub open spec fn count_spawnable(w: Seq<Seq<ComponentValue>>, n: int) -> int
    decreases n,
{
    if n <= 0 {
        0
    } else {
        count_spawnable(w, n - 1) + if spawnable(w[n - 1]) { 1int } else { 0int }
    }
}

/// Spawnable entities among the first `n` whose chunk index is below `c`.
spec fn count_before_chunk(
    w: Seq<Seq<ComponentValue>>,
    locs: Seq<EntityLocation>,
    c: int,
    n: int,
) -> int
    decreases n,
{
    if n <= 0 {
        0
    } else {
        count_before_chunk(w, locs, c, n - 1)
            + if (locs[n - 1].chunk as int) < c && spawnable(w[n - 1]) { 1int } else { 0int }
    }
}

/// Spawnable entities among the first `n` living in chunk `c`.
spec fn count_in_chunk(
    w: Seq<Seq<ComponentValue>>,
    locs: Seq<EntityLocation>,
    c: int,
    n: int,
) -> int
    decreases n,
{
    if n <= 0 {
        0
    } else {
        count_in_chunk(w, locs, c, n - 1)
            + if (locs[n - 1].chunk as int) == c && spawnable(w[n - 1]) { 1int } else { 0int }
    }
}

/// Entities among the first `n` in chunk `c` with a row below `r`.
spec fn count_low_rows(locs: Seq<EntityLocation>, c: int, r: int, n: int) -> int
    decreases n,
{
    if n <= 0 {
        0
    } else {
        count_low_rows(locs, c, r, n - 1)
            + if (locs[n - 1].chunk as int) == c && (locs[n - 1].row as int) < r {
                1int
            } else {
                0int
            }
    }
}

/// Entities among the first `n` sitting exactly at `(c, r)`.
spec fn count_at_row(locs: Seq<EntityLocation>, c: int, r: int, n: int) -> int
    decreases n,
{
    if n <= 0 {
        0
    } else {
        count_at_row(locs, c, r, n - 1)
            + if (locs[n - 1].chunk as int) == c && (locs[n - 1].row as int) == r {
                1int
            } else {
                0int
            }
    }
}

/// A count of entities is never negative.
proof fn lemma_count_before_nonneg(
    w: Seq<Seq<ComponentValue>>,
    locs: Seq<EntityLocation>,
    c: int,
    n: int,
)
    ensures
        count_before_chunk(w, locs, c, n) >= 0,
    decreases n,
{
    if n > 0 {
        lemma_count_before_nonneg(w, locs, c, n - 1);
    }
}

/// No entity sits below chunk zero.
proof fn lemma_count_before_zero(w: Seq<Seq<ComponentValue>>, locs: Seq<EntityLocation>, n: int)
    ensures
        count_before_chunk(w, locs, 0, n) == 0,
    decreases n,
{
    if n > 0 {
        lemma_count_before_zero(w, locs, n - 1);
    }
}

/// No entity sits below row zero.
proof fn lemma_count_low_zero(locs: Seq<EntityLocation>, c: int, n: int)
    ensures
        count_low_rows(locs, c, 0, n) == 0,
    decreases n,
{
    if n > 0 {
        lemma_count_low_zero(locs, c, n - 1);
    }
}

/// Counting below chunk `c + 1` splits into below `c` plus inside `c`.
proof fn lemma_count_before_split(
    w: Seq<Seq<ComponentValue>>,
    locs: Seq<EntityLocation>,
    c: int,
    n: int,
)
    ensures
        count_before_chunk(w, locs, c + 1, n)
            == count_before_chunk(w, locs, c, n) + count_in_chunk(w, locs, c, n),
    decreases n,
{
    if n > 0 {
        lemma_count_before_split(w, locs, c, n - 1);
    }
}

/// Counting below row `r + 1` splits into below `r` plus exactly at `r`.
proof fn lemma_count_low_split(locs: Seq<EntityLocation>, c: int, r: int, n: int)
    ensures
        count_low_rows(locs, c, r + 1, n)
            == count_low_rows(locs, c, r, n) + count_at_row(locs, c, r, n),
    decreases n,
{
    if n > 0 {
        lemma_count_low_split(locs, c, r, n - 1);
    }
}

/// A row owned by exactly one entity counts exactly once.
proof fn lemma_count_at_unique(locs: Seq<EntityLocation>, c: int, r: int, n: int, e0: int)
    requires
        0 <= e0 < locs.len(),
        (locs[e0].chunk as int) == c,
        (locs[e0].row as int) == r,
        forall|e: int| 0 <= e < locs.len() && e != e0 ==>
            !(((#[trigger] locs[e]).chunk as int) == c && (locs[e].row as int) == r),
        0 <= n <= locs.len(),
    ensures
        count_at_row(locs, c, r, n) == if e0 < n { 1int } else { 0int },
    decreases n,
{
    if n > 0 {
        lemma_count_at_unique(locs, c, r, n - 1, e0);
    }
}

/// Every live row of a chunk belongs to exactly one entity, so the chunk
/// holds exactly `rows` entities.
proof fn lemma_count_low_full(world: World, cx: usize, r: int)
    requires
        world.wf(),
        (cx as int) < world.chunks@.len(),
        0 <= r <= world.chunks@[cx as int].rows,
    ensures
        count_low_rows(world.locations@, cx as int, r, world.locations@.len() as int) == r,
    decreases r,
{
    let locs = world.locations@;
    let n = locs.len() as int;
    if r == 0 {
        lemma_count_low_zero(locs, cx as int, n);
    } else {
        lemma_count_low_full(world, cx, r - 1);
        lemma_count_low_split(locs, cx as int, r - 1, n);
        assert(world.row_owned(cx as int, r - 1));
        let e0 = choose|e: int| 0 <= e < locs.len()
            && locs[e] == (EntityLocation { chunk: cx, row: (r - 1) as usize });
        assert forall|e: int| 0 <= e < locs.len() && e != e0 implies
            !(((#[trigger] locs[e]).chunk as int) == cx as int
                && (locs[e].row as int) == r - 1) by {
            if (locs[e].chunk as int) == cx as int && (locs[e].row as int) == r - 1 {
                assert(locs[e] == locs[e0]);
            }
        }
        lemma_count_at_unique(locs, cx as int, r - 1, n, e0);
    }
}

/// In a chunk whose every entity is spawnable, the spawnable count is the
/// row count.
proof fn lemma_count_in_eq_low(
    w: Seq<Seq<ComponentValue>>,
    world: World,
    cx: usize,
    n: int,
)
    requires
        world.wf(),
        (cx as int) < world.chunks@.len(),
        0 <= n <= world.locations@.len(),
        w.len() == world.locations@.len(),
        forall|e: int| 0 <= e < w.len() && world.locations@[e].chunk == cx ==>
            spawnable(#[trigger] w[e]),
    ensures
        count_in_chunk(w, world.locations@, cx as int, n)
            == count_low_rows(world.locations@, cx as int,
                world.chunks@[cx as int].rows as int, n),
    decreases n,
{
    if n > 0 {
        lemma_count_in_eq_low(w, world, cx, n - 1);
        let l = world.locations@[n - 1];
        if l.chunk == cx {
            assert(spawnable(w[n - 1]));
            assert(l.row < world.chunks@[cx as int].rows);
        }
    }
}

/// A chunk none of whose entities is spawnable contributes nothing.
proof fn lemma_count_in_zero(
    w: Seq<Seq<ComponentValue>>,
    locs: Seq<EntityLocation>,
    c: int,
    n: int,
)
    requires
        forall|e: int| 0 <= e < n && ((#[trigger] locs[e]).chunk as int) == c ==>
            !spawnable(w[e]),
    ensures
        count_in_chunk(w, locs, c, n) == 0,
    decreases n,
{
    if n > 0 {
        lemma_count_in_zero(w, locs, c, n - 1);
    }
}

/// Once every chunk is below the bound, the chunk-bounded count is the
/// plain spawnable count.
proof fn lemma_count_before_total(
    w: Seq<Seq<ComponentValue>>,
    locs: Seq<EntityLocation>,
    c: int,
    n: int,
)
    requires
        forall|e: int| 0 <= e < n ==> ((#[trigger] locs[e]).chunk as int) < c,
    ensures
        count_before_chunk(w, locs, c, n) == count_spawnable(w, n),
    decreases n,
{
    if n > 0 {
        lemma_count_before_total(w, locs, c, n - 1);
    }
}

/// The batched spawn transform of one definition column over the
/// chunk-relative row range `lo..hi`, with the aligned context columns of
/// the same chunk: one body and one collider per row, and the aligned
/// runtime column as the result.
fn spawn_batch(
    defs: &Vec<ComponentValue>,
    positions: Option<&Vec<ComponentValue>>,
    uscales: Option<&Vec<ComponentValue>>,
    nscales: Option<&Vec<ComponentValue>>,
    lo: usize,
    hi: usize,
    dtype: u128,
    physics: &mut PhysicsWorld,
) -> (out: Vec<ComponentValue>)
    requires
        lo <= hi <= defs@.len(),
        dtype == RIGID_BODY_BALL_DEF_TYPE || dtype == RIGID_BODY_BOX_DEF_TYPE,
        forall|r: int| lo <= r < hi ==> spec_type_of(#[trigger] defs@[r]) == dtype,
        match positions {
            Some(p) => p@.len() == defs@.len(),
            None => true,
        },
        match uscales {
            Some(p) => p@.len() == defs@.len(),
            None => true,
        },
        match nscales {
            Some(p) => p@.len() == defs@.len(),
            None => true,
        },
    ensures
        out@.len() == hi - lo,
        final(physics).bodies@.len() == old(physics).bodies@.len() + (hi - lo),
        final(physics).bodies@.subrange(0, old(physics).bodies@.len() as int)
            == old(physics).bodies@,
        final(physics).colliders@.len() == old(physics).colliders@.len() + (hi - lo),
        final(physics).colliders@.subrange(0, old(physics).colliders@.len() as int)
            == old(physics).colliders@,
        forall|j: int| 0 <= j < hi - lo ==> {
            let h = old(physics).bodies@.len() + j;
            &&& #[trigger] out@[j] == (ComponentValue::RigidBody { handle: h as u64 })
            &&& final(physics).bodies@[h] == spec_body(defs@[lo + j], opt_at(positions, lo + j))
            &&& final(physics).colliders@[old(physics).colliders@.len() + j]
                == spec_collider(defs@[lo + j], opt_at(positions, lo + j),
                    opt_at(uscales, lo + j), opt_at(nscales, lo + j), h as u64)
        },
{
    let ghost b0 = old(physics).bodies@;
    let ghost c0 = old(physics).colliders@;
    let mut out: Vec<ComponentValue> = Vec::new();
    let mut r = lo;
    while r < hi
        invariant
            lo <= r <= hi,
            hi <= defs@.len(),
            dtype == RIGID_BODY_BALL_DEF_TYPE || dtype == RIGID_BODY_BOX_DEF_TYPE,
            forall|r2: int| lo <= r2 < hi ==> spec_type_of(#[trigger] defs@[r2]) == dtype,
            match positions {
                Some(p) => p@.len() == defs@.len(),
                None => true,
            },
            match uscales {
                Some(p) => p@.len() == defs@.len(),
                None => true,
            },
            match nscales {
                Some(p) => p@.len() == defs@.len(),
                None => true,
            },
            b0 == old(physics).bodies@,
            c0 == old(physics).colliders@,
            out@.len() == r - lo,
            physics.bodies@.len() == b0.len() + (r - lo),
            physics.bodies@.subrange(0, b0.len() as int) == b0,
            physics.colliders@.len() == c0.len() + (r - lo),
            physics.colliders@.subrange(0, c0.len() as int) == c0,
            forall|j: int| 0 <= j < r - lo ==> {
                let h = b0.len() + j;
                &&& #[trigger] out@[j] == (ComponentValue::RigidBody { handle: h as u64 })
                &&& physics.bodies@[h] == spec_body(defs@[lo + j], opt_at(positions, lo + j))
                &&& physics.colliders@[c0.len() + j]
                    == spec_collider(defs@[lo + j], opt_at(positions, lo + j),
                        opt_at(uscales, lo + j), opt_at(nscales, lo + j), h as u64)
            },
        decreases hi - r,
    {
        let def = defs[r];
        let pos: Option<ComponentValue> = match positions {
            Some(p) => Some(p[r]),
            None => None,
        };
        let us: u32 = match uscales {
            Some(p) => match p[r] {
                ComponentValue::UniformScale2 { scale } => scale,
                _ => 1000,
            },
            None => 1000,
        };
        let (nx, ny): (u32, u32) = match nscales {
            Some(p) => match p[r] {
                ComponentValue::NonUniformScale2 { scale_x, scale_y } => (scale_x, scale_y),
                _ => (1000, 1000),
            },
            None => (1000, 1000),
        };
        let (px, py): (u32, u32) = match pos {
            Some(ComponentValue::Position2 { x, y }) => (x, y),
            _ => (0, 0),
        };
        let (is_static, shape): (bool, ShapeRecord) = match def {
            ComponentValue::RigidBodyBallDef { radius, is_static } => {
                let scaled = scale_milli(radius as u64, us);
                let radius = if scaled < MIN_BALL_RADIUS { MIN_BALL_RADIUS } else { scaled };
                (is_static, ShapeRecord::Ball { radius })
            },
            ComponentValue::RigidBodyBoxDef { half_x, half_y, is_static } => {
                let hx = scale_milli(scale_milli(half_x as u64, us), nx);
                let hy = scale_milli(scale_milli(half_y as u64, us), ny);
                (is_static, ShapeRecord::Box { half_x: hx, half_y: hy })
            },
            _ => vstd::pervasive::unreached(),
        };
        let body = if is_static {
            BodyRecord { is_ground: true, x: 0, y: 0 }
        } else {
            BodyRecord { is_ground: false, x: px, y: py }
        };
        let h = physics.allocate_body(body);
        let (ox, oy): (u32, u32) = if is_static { (px, py) } else { (0, 0) };
        physics.allocate_collider(ColliderRecord { shape, body: h, offset_x: ox, offset_y: oy });
        out.push(ComponentValue::RigidBody { handle: h });
        proof {
            assert(physics.bodies@.subrange(0, b0.len() as int) =~= b0);
            assert(physics.colliders@.subrange(0, c0.len() as int) =~= c0);
            assert(us == spec_uscale(opt_at(uscales, r as int)));
            assert((nx, ny) == spec_nscale(opt_at(nscales, r as int)));
            assert(pos == opt_at(positions, r as int));
            assert(shape == spec_shape(def, opt_at(uscales, r as int), opt_at(nscales, r as int)));
            assert(body == spec_body(def, opt_at(positions, r as int)));
        }
        r += 1;
    }
    out
}

/// Which column of `types` holds schema `t`.
fn find_column(types: &Vec<u128>, t: u128) -> (r: Option<usize>)
    ensures
        match r {
            Some(i) => i < types@.len() && types@[i as int] == t,
            None => forall|i: int| 0 <= i < types@.len() ==> types@[i] != t,
        },
{
    let n = types.len();
    let mut i: usize = 0;
    while i < n
        invariant
            i <= n,
            n == types@.len(),
            forall|j: int| 0 <= j < i ==> types@[j] != t,
        decreases n - i,
    {
        if types[i] == t {
            return Some(i);
        }
        i += 1;
    }
    None
}

/// Runs every registered spawn transform over the whole world, chunk by
/// chunk: each spawnable entity's definition becomes a runtime rigid body
/// owning a freshly allocated physics body, exactly one body and one
/// collider per spawnable entity, and nothing else changes.
pub fn spawn_pass(world: &mut World, registry: &ComponentRegistry, physics: &mut PhysicsWorld)
    requires
        old(world).wf(),
        registry.wf(),
        forall|t: u128| #[trigger] registry.has_spawn_transform(t) <==>
            (t == RIGID_BODY_BALL_DEF_TYPE || t == RIGID_BODY_BOX_DEF_TYPE),
        forall|e: int| 0 <= e < old(world)@.len() ==>
            !(has_comp(#[trigger] old(world)@[e], RIGID_BODY_BALL_DEF_TYPE)
                && has_comp(old(world)@[e], RIGID_BODY_BOX_DEF_TYPE)),
        forall|e: int| 0 <= e < old(world)@.len() ==>
            !has_comp(#[trigger] old(world)@[e], RIGID_BODY_TYPE),
    ensures
        final(world).wf(),
        final(world)@.len() == old(world)@.len(),
        final(physics).bodies@.len() == old(physics).bodies@.len()
            + count_spawnable(old(world)@, old(world)@.len() as int),
        final(physics).bodies@.subrange(0, old(physics).bodies@.len() as int)
            == old(physics).bodies@,
        final(physics).colliders@.subrange(0, old(physics).colliders@.len() as int)
            == old(physics).colliders@,
        final(physics).colliders@.len() - old(physics).colliders@.len()
            == final(physics).bodies@.len() - old(physics).bodies@.len(),
        forall|e: int| 0 <= e < old(world)@.len() && !spawnable(#[trigger] old(world)@[e]) ==>
            final(world)@[e] == old(world)@[e],
        forall|e: int| 0 <= e < old(world)@.len() && spawnable(#[trigger] old(world)@[e]) ==> {
            let h = rb_handle(final(world)@[e]);
            &&& has_comp(final(world)@[e], RIGID_BODY_TYPE)
            &&& final(world)@[e] == spec_runtime_row(old(world)@[e], h)
            &&& old(physics).bodies@.len() <= h < final(physics).bodies@.len()
            &&& final(physics).bodies@[h as int] == spec_body_of(old(world)@[e])
            &&& final(physics).colliders@[
                    old(physics).colliders@.len() + (h - old(physics).bodies@.len())]
                == spec_collider_of(old(world)@[e], h)
        },
        forall|e1: int, e2: int|
            0 <= e1 < old(world)@.len() && 0 <= e2 < old(world)@.len() && e1 != e2
                && spawnable(old(world)@[e1]) && spawnable(old(world)@[e2]) ==>
            rb_handle(#[trigger] final(world)@[e1]) != rb_handle(#[trigger] final(world)@[e2]),
{
    let ghost w0 = old(world)@;
    let ghost locs = old(world).locations@;
    let ghost b0 = old(physics).bodies@;
    let ghost c0 = old(physics).colliders@;
    let nch = world.chunks.len();
    proof {
        lemma_count_before_zero(w0, locs, w0.len() as int);
    }
    let mut c: usize = 0;
    while c < nch
        invariant
            c <= nch,
            world.wf(),
            registry.wf(),
            forall|t: u128| #[trigger] registry.has_spawn_transform(t) <==>
                (t == RIGID_BODY_BALL_DEF_TYPE || t == RIGID_BODY_BOX_DEF_TYPE),
            w0 == old(world)@,
            locs == old(world).locations@,
            b0 == old(physics).bodies@,
            c0 == old(physics).colliders@,
            nch == world.chunks@.len(),
            world.chunks@.len() == old(world).chunks@.len(),
            world.locations@ == locs,
            world@.len() == w0.len(),
            forall|k: int| c <= k < nch ==> world.chunks@[k] == old(world).chunks@[k],
            forall|e: int| 0 <= e < w0.len() ==>
                !(has_comp(#[trigger] w0[e], RIGID_BODY_BALL_DEF_TYPE)
                    && has_comp(w0[e], RIGID_BODY_BOX_DEF_TYPE)),
            forall|e: int| 0 <= e < w0.len() ==> !has_comp(#[trigger] w0[e], RIGID_BODY_TYPE),
            physics.bodies@.len()
                == b0.len() + count_before_chunk(w0, locs, c as int, w0.len() as int),
            physics.bodies@.subrange(0, b0.len() as int) == b0,
            physics.colliders@.subrange(0, c0.len() as int) == c0,
            physics.colliders@.len() - c0.len() == physics.bodies@.len() - b0.len(),
            forall|e: int| 0 <= e < w0.len() && locs[e].chunk >= c ==>
                #[trigger] world@[e] == w0[e],
            forall|e: int| 0 <= e < w0.len() && locs[e].chunk < c && !spawnable(w0[e]) ==>
                #[trigger] world@[e] == w0[e],
            forall|e: int| 0 <= e < w0.len() && locs[e].chunk < c && spawnable(w0[e]) ==> {
                let h = rb_handle(#[trigger] world@[e]);
                &&& has_comp(world@[e], RIGID_BODY_TYPE)
                &&& world@[e] == spec_runtime_row(w0[e], h)
                &&& b0.len() <= h < physics.bodies@.len()
                &&& physics.bodies@[h as int] == spec_body_of(w0[e])
                &&& physics.colliders@[c0.len() + (h - b0.len())] == spec_collider_of(w0[e], h)
            },
            forall|e1: int, e2: int|
                0 <= e1 < w0.len() && 0 <= e2 < w0.len() && e1 != e2
                    && locs[e1].chunk < c && locs[e2].chunk < c
                    && spawnable(w0[e1]) && spawnable(w0[e2]) ==>
                rb_handle(#[trigger] world@[e1]) != rb_handle(#[trigger] world@[e2]),
        decreases nch - c,
    {
        let rows = world.chunks[c].rows;
        let tlen = world.chunks[c].types.len();
        let mut di_found: Option<usize> = None;
        let mut ti: usize = 0;
        while ti < tlen
            invariant
                ti <= tlen,
                c < nch,
                nch == world.chunks@.len(),
                registry.wf(),
                forall|t: u128| #[trigger] registry.has_spawn_transform(t) <==>
                    (t == RIGID_BODY_BALL_DEF_TYPE || t == RIGID_BODY_BOX_DEF_TYPE),
                tlen == world.chunks@[c as int].types@.len(),
                match di_found {
                    Some(i) => i < tlen
                        && (world.chunks@[c as int].types@[i as int] == RIGID_BODY_BALL_DEF_TYPE
                            || world.chunks@[c as int].types@[i as int]
                                == RIGID_BODY_BOX_DEF_TYPE),
                    None => forall|j: int| 0 <= j < ti ==>
                        world.chunks@[c as int].types@[j] != RIGID_BODY_BALL_DEF_TYPE
                        && world.chunks@[c as int].types@[j] != RIGID_BODY_BOX_DEF_TYPE,
                },
            decreases tlen - ti,
        {
            if di_found.is_none() {
                let t = world.chunks[c].types[ti];
                match registry.lookup(t) {
                    Ok(reg) => {
                        if reg.has_spawn_transform {
                            proof {
                                assert(registry.has_spawn_transform(t));
                            }
                            di_found = Some(ti);
                        } else {
                            proof {
                                assert(!registry.has_spawn_transform(t));
                            }
                        }
                    },
                    Err(_) => {
                        proof {
                            assert(!registry.has_spawn_transform(t));
                        }
                    },
                }
            }
            ti += 1;
        }
        match di_found {
            None => {
                proof {
                    let ci = c as int;
                    let ch = world.chunks@[ci];
                    assert forall|e: int| 0 <= e < w0.len() && locs[e].chunk == c implies
                        !spawnable(#[trigger] w0[e]) by {
                        assert(world@[e] == w0[e]);
                        assert(w0[e] == ch.row_view(locs[e].row as int));
                        if has_comp(w0[e], RIGID_BODY_BALL_DEF_TYPE) {
                            let i = crate::world::comp_index_in(w0[e], RIGID_BODY_BALL_DEF_TYPE);
                            assert(w0[e][i] == ch.columns@[i]@[locs[e].row as int]);
                            assert(ch.types@[i] == RIGID_BODY_BALL_DEF_TYPE);
                        }
                        if has_comp(w0[e], RIGID_BODY_BOX_DEF_TYPE) {
                            let i = crate::world::comp_index_in(w0[e], RIGID_BODY_BOX_DEF_TYPE);
                            assert(w0[e][i] == ch.columns@[i]@[locs[e].row as int]);
                            assert(ch.types@[i] == RIGID_BODY_BOX_DEF_TYPE);
                        }
                    }
                    lemma_count_in_zero(w0, locs, c as int, w0.len() as int);
                    lemma_count_before_split(w0, locs, c as int, w0.len() as int);
                }
            },
            Some(di) => {
                if rows == 0 {
                    proof {
                        assert forall|e: int| 0 <= e < w0.len() implies
                            (#[trigger] locs[e]).chunk != c by {
                            assert(world.locations@[e] == locs[e]);
                        }
                        lemma_count_in_zero(w0, locs, c as int, w0.len() as int);
                        lemma_count_before_split(w0, locs, c as int, w0.len() as int);
                    }
                } else {
                    let dtype = world.chunks[c].types[di];
                    let pi = find_column(&world.chunks[c].types, POSITION2_TYPE);
                    let ui = find_column(&world.chunks[c].types, UNIFORM_SCALE2_TYPE);
                    let ni = find_column(&world.chunks[c].types, NON_UNIFORM_SCALE2_TYPE);
                    let ghost pre = *world;
                    let ghost bpre = physics.bodies@;
                    let ghost cpre = physics.colliders@;
                    let ghost ci = c as int;
                    let ghost ch = world.chunks@[ci];
                    proof {
                        assert(ch.wf());
                        assert forall|r: int| 0 <= r < rows implies
                            spec_type_of(#[trigger] ch.columns@[di as int]@[r]) == dtype by {}
                    }
                    let positions: Option<&Vec<ComponentValue>> = match pi {
                        Some(i) => Some(&world.chunks[c].columns[i]),
                        None => None,
                    };
                    let uscales: Option<&Vec<ComponentValue>> = match ui {
                        Some(i) => Some(&world.chunks[c].columns[i]),
                        None => None,
                    };
                    let nscales: Option<&Vec<ComponentValue>> = match ni {
                        Some(i) => Some(&world.chunks[c].columns[i]),
                        None => None,
                    };
                    let out = spawn_batch(&world.chunks[c].columns[di], positions, uscales,
                        nscales, 0, rows, dtype, physics);
                    // restate what the batch did over the chunk's own columns
                    let ghost dcol = ch.columns@[di as int];
                    proof {
                        assert forall|r: int| 0 <= r < rows implies {
                            &&& #[trigger] out@[r] == (ComponentValue::RigidBody {
                                    handle: (bpre.len() + r) as u64 })
                            &&& physics.bodies@[bpre.len() as int + r]
                                == spec_body(dcol[r], spawn_ctx(ch, pi, r))
                            &&& physics.colliders@[cpre.len() as int + r]
                                == spec_collider(dcol[r], spawn_ctx(ch, pi, r),
                                    spawn_ctx(ch, ui, r), spawn_ctx(ch, ni, r),
                                    (bpre.len() + r) as u64)
                        } by {
                            assert(out@[r] == (ComponentValue::RigidBody {
                                handle: (bpre.len() + r) as u64 }));
                            assert(opt_at(positions, 0 + r) == spawn_ctx(ch, pi, r));
                            assert(opt_at(uscales, 0 + r) == spawn_ctx(ch, ui, r));
                            assert(opt_at(nscales, 0 + r) == spawn_ctx(ch, ni, r));
                            assert(dcol[0 + r] == dcol[r]);
                        }
                        // every archetype schema sorts below the runtime schema
                        assert forall|i: int| 0 <= i < ch.types@.len() implies
                            (#[trigger] ch.types@[i]) < RIGID_BODY_TYPE by {
                            assert(world.row_owned(ci, 0));
                            let e = choose|e: int| 0 <= e < world.locations@.len()
                                && world.locations@[e]
                                    == (crate::world::EntityLocation { chunk: c, row: 0usize });
                            assert(world@[e] == w0[e]);
                            assert(w0[e] == ch.row_view(0));
                            assert(spec_type_of(ch.columns@[i]@[0]) == ch.types@[i]);
                            assert(w0[e][i] == ch.columns@[i]@[0]);
                            if ch.types@[i] == RIGID_BODY_TYPE {
                                assert(has_comp(w0[e], RIGID_BODY_TYPE));
                            }
                        }
                    }
                    world.replace_chunk_column(c, di, RIGID_BODY_TYPE, out);
                    proof {
                        let d = di as int;
                        lemma_count_before_nonneg(w0, locs, c as int, w0.len() as int);
                        lemma_types_distinct(ch.types@);
                        // entities of this chunk, pointwise
                        assert forall|e: int| 0 <= e < w0.len() && locs[e].chunk == c implies {
                            let h = rb_handle(#[trigger] world@[e]);
                            &&& spawnable(w0[e])
                            &&& has_comp(world@[e], RIGID_BODY_TYPE)
                            &&& world@[e] == spec_runtime_row(w0[e], h)
                            &&& h == bpre.len() + locs[e].row
                            &&& b0.len() <= h < physics.bodies@.len()
                            &&& physics.bodies@[h as int] == spec_body_of(w0[e])
                            &&& physics.colliders@[c0.len() + (h - b0.len())]
                                == spec_collider_of(w0[e], h)
                        } by {
                            let r = locs[e].row as int;
                            let row = w0[e];
                            assert(pre@[e] == row);
                            assert(row == ch.row_view(r));
                            assert(row[d] == ch.columns@[d]@[r]);
                            assert(spec_type_of(row[d]) == dtype);
                            assert(has_comp(row, dtype));
                            // the definition schema is unique in the row
                            assert(crate::world::comp_index_in(row, dtype) == d) by {
                                let j = crate::world::comp_index_in(row, dtype);
                                assert(0 <= j < row.len() && spec_type_of(row[j]) == dtype);
                                assert(spec_type_of(ch.columns@[j]@[r]) == ch.types@[j]);
                                assert(ch.types@[j] == dtype && ch.types@[d] == dtype);
                            }
                            assert(def_type_in(row) == dtype) by {
                                if dtype == RIGID_BODY_BOX_DEF_TYPE {
                                    if has_comp(row, RIGID_BODY_BALL_DEF_TYPE) {
                                        assert(has_comp(row, RIGID_BODY_BOX_DEF_TYPE));
                                        assert(false);
                                    }
                                }
                            }
                            vstd::std_specs::vec::axiom_spec_len(&physics.bodies);
                            assert(physics.bodies@.len() <= usize::MAX);
                            assert(bpre.len() + rows <= usize::MAX);
                            let hh = (bpre.len() + r) as u64;
                            assert(hh == bpre.len() + r);
                            assert(out@[r] == (ComponentValue::RigidBody { handle: hh }));
                            assert(world@[e] == row.remove(d).push(
                                ComponentValue::RigidBody { handle: hh }));
                            assert(world@[e] == spec_runtime_row(row, hh));
                            // the runtime schema is unique in the new row
                            assert(rb_handle(world@[e]) == hh) by {
                                let nrow = world@[e];
                                let last = nrow.len() - 1;
                                assert(nrow[last as int]
                                    == (ComponentValue::RigidBody { handle: hh }));
                                assert(has_comp(nrow, RIGID_BODY_TYPE));
                                let j = crate::world::comp_index_in(nrow, RIGID_BODY_TYPE);
                                assert(0 <= j < nrow.len()
                                    && spec_type_of(nrow[j]) == RIGID_BODY_TYPE);
                                if j < last {
                                    assert(nrow[j] == row.remove(d)[j]);
                                    if j < d {
                                        assert(row.remove(d)[j] == row[j]);
                                        assert(spec_type_of(row[j]) == ch.types@[j]);
                                        assert(ch.types@[j] < RIGID_BODY_TYPE);
                                    } else {
                                        assert(row.remove(d)[j] == row[j + 1]);
                                        assert(spec_type_of(row[j + 1]) == ch.types@[j + 1]);
                                        assert(ch.types@[j + 1] < RIGID_BODY_TYPE);
                                    }
                                    assert(false);
                                }
                            }
                            // contexts read off the aligned columns
                            assert(ctx_of(row, POSITION2_TYPE) == spawn_ctx(ch, pi, r)) by {
                                lemma_ctx_match(ch, row, r, pi, POSITION2_TYPE);
                            }
                            assert(ctx_of(row, UNIFORM_SCALE2_TYPE) == spawn_ctx(ch, ui, r)) by {
                                lemma_ctx_match(ch, row, r, ui, UNIFORM_SCALE2_TYPE);
                            }
                            assert(ctx_of(row, NON_UNIFORM_SCALE2_TYPE) == spawn_ctx(ch, ni, r))
                                by {
                                lemma_ctx_match(ch, row, r, ni, NON_UNIFORM_SCALE2_TYPE);
                            }
                            assert(comp_in(row, def_type_in(row)) == dcol[r]);
                            assert(physics.bodies@[bpre.len() as int + r]
                                == spec_body_of(row));
                            assert(physics.colliders@[cpre.len() as int + r]
                                == spec_collider_of(row, hh));
                            assert(cpre.len() - c0.len() == bpre.len() - b0.len());
                            assert(c0.len() + (hh - b0.len()) == cpre.len() + r);
                            assert(rb_handle(world@[e]) == hh);
                            assert(b0.len() <= hh < physics.bodies@.len());
                            assert(world@[e] == spec_runtime_row(w0[e], rb_handle(world@[e])));
                            assert(has_comp(world@[e], RIGID_BODY_TYPE)) by {
                                let nrow = world@[e];
                                let last = nrow.len() - 1;
                                assert(nrow[last as int]
                                    == (ComponentValue::RigidBody { handle: hh }));
                                assert(spec_type_of(nrow[last as int]) == RIGID_BODY_TYPE);
                            }
                            assert(physics.bodies@[hh as int] == spec_body_of(w0[e]));
                            assert(physics.colliders@[c0.len() + (hh - b0.len())]
                                == spec_collider_of(w0[e], hh));
                        }
                        // the physics prefixes are still intact
                        assert(physics.bodies@.subrange(0, b0.len() as int) =~= b0) by {
                            assert(physics.bodies@.subrange(0, bpre.len() as int) == bpre);
                            assert forall|x: int| 0 <= x < b0.len() implies
                                physics.bodies@[x] == b0[x] by {
                                assert(physics.bodies@.subrange(0, bpre.len() as int)[x]
                                    == physics.bodies@[x]);
                                assert(bpre.subrange(0, b0.len() as int)[x] == bpre[x]);
                            }
                        }
                        assert(physics.colliders@.subrange(0, c0.len() as int) =~= c0) by {
                            assert(physics.colliders@.subrange(0, cpre.len() as int) == cpre);
                            assert forall|x: int| 0 <= x < c0.len() implies
                                physics.colliders@[x] == c0[x] by {
                                assert(physics.colliders@.subrange(0, cpre.len() as int)[x]
                                    == physics.colliders@[x]);
                                assert(cpre.subrange(0, c0.len() as int)[x] == cpre[x]);
                            }
                        }
                        // earlier chunks' records are untouched
                        assert forall|e: int| 0 <= e < w0.len() && locs[e].chunk < c
                            && spawnable(w0[e]) implies {
                            let h = rb_handle(#[trigger] world@[e]);
                            &&& has_comp(world@[e], RIGID_BODY_TYPE)
                            &&& world@[e] == spec_runtime_row(w0[e], h)
                            &&& b0.len() <= h < physics.bodies@.len()
                            &&& physics.bodies@[h as int] == spec_body_of(w0[e])
                            &&& physics.colliders@[c0.len() + (h - b0.len())]
                                == spec_collider_of(w0[e], h)
                        } by {
                            assert(world@[e] == pre@[e]);
                            let h = rb_handle(pre@[e]);
                            assert(h < bpre.len());
                            let bb = bpre[h as int];
                            assert(physics.bodies@.subrange(0, bpre.len() as int) == bpre);
                            assert(physics.bodies@.subrange(0, bpre.len() as int)[h as int]
                                == physics.bodies@[h as int]);
                            assert(c0.len() + (h - b0.len()) < cpre.len());
                            assert(physics.colliders@.subrange(0, cpre.len() as int) == cpre);
                            assert(physics.colliders@.subrange(0, cpre.len() as int)[
                                c0.len() + (h - b0.len())]
                                == physics.colliders@[c0.len() + (h - b0.len())]);
                        }
                        // the chunk added exactly one body per entity it holds
                        assert forall|e: int| 0 <= e < w0.len()
                            && pre.locations@[e].chunk == c implies
                            spawnable(#[trigger] w0[e]) by {
                            assert(locs[e].chunk == c);
                            let probe = rb_handle(world@[e]);
                        }
                        lemma_count_low_full(pre, c, rows as int);
                        lemma_count_in_eq_low(w0, pre, c, w0.len() as int);
                        lemma_count_before_split(w0, locs, c as int, w0.len() as int);
                        assert(physics.bodies@.len()
                            == b0.len() + count_before_chunk(w0, locs, c as int + 1,
                                w0.len() as int));
                    }
                }
            },
        }
        c += 1;
    }
    proof {
        assert forall|e: int| 0 <= e < w0.len() implies (#[trigger] locs[e]).chunk < nch by {
            assert(old(world).locations@[e] == locs[e]);
        }
        lemma_count_before_total(w0, locs, nch as int, w0.len() as int);
    }
}

/// The aligned context value at row `r`, given the context column's index
/// in the chunk, if the archetype has that column.
pub open spec fn spawn_ctx(ch: crate::world::Chunk, col: Option<usize>, r: int)
    -> Option<ComponentValue>
{
    match col {
        Some(i) => Some(ch.columns@[i as int]@[r]),
        None => None,
    }
}

/// Sorted schemas are pairwise distinct.
proof fn lemma_types_distinct(types: Seq<u128>)
    requires
        crate::world::types_sorted(types),
    ensures
        forall|i: int, j: int| 0 <= i < types.len() && 0 <= j < types.len() && i != j ==>
            types[i] != types[j],
{
}

/// Reading a context component off an entity's row view matches reading
/// the aligned column, and a missing column means a missing component.
proof fn lemma_ctx_match(
    ch: crate::world::Chunk,
    row: Seq<ComponentValue>,
    r: int,
    col: Option<usize>,
    t: u128,
)
    requires
        ch.wf(),
        0 <= r < ch.rows,
        row == ch.row_view(r),
        match col {
            Some(i) => i < ch.types@.len() && ch.types@[i as int] == t,
            None => forall|i: int| 0 <= i < ch.types@.len() ==> ch.types@[i] != t,
        },
    ensures
        ctx_of(row, t) == spawn_ctx(ch, col, r),
{
    match col {
        Some(i) => {
            let ii = i as int;
            assert(row[ii] == ch.columns@[ii]@[r]);
            assert(spec_type_of(row[ii]) == ch.types@[ii]);
            assert(has_comp(row, t));
            let j = crate::world::comp_index_in(row, t);
            assert(0 <= j < row.len() && spec_type_of(row[j]) == t);
            assert(spec_type_of(ch.columns@[j]@[r]) == ch.types@[j]);
            if j != ii {
                assert(ch.types@[j] == t && ch.types@[ii] == t);
                assert(false);
            }
        },
        None => {
            if has_comp(row, t) {
                let j = crate::world::comp_index_in(row, t);
                assert(spec_type_of(row[j]) == t);
                assert(spec_type_of(ch.columns@[j]@[r]) == ch.types@[j]);
            }
        },
    }
}


/// The runtime rigid-body handles held by the first `n` entities, in
/// entity order.
pub open spec fn rigid_handles(w: Seq<Seq<ComponentValue>>, n: int) -> Seq<u64>
    decreases n,
{
    if n <= 0 {
        Seq::empty()
    } else if has_comp(w[n - 1], RIGID_BODY_TYPE) {
        rigid_handles(w, n - 1).push(rb_handle(w[n - 1]))
    } else {
        rigid_handles(w, n - 1)
    }
}

/// Tears a cooked world down.  Ownership of physics bodies crosses the
/// subsystem boundary: each runtime rigid body owns its handle, and the
/// teardown path unconditionally sends one release notification per owned
/// handle through the one-way channel, whatever else happens.  The sent
/// handles are also returned, in entity order; delivery itself cannot be
/// promised, since the receiving subsystem may already be gone.
pub fn tear_down_world(world: World, tx: &crossbeam_channel::Sender<u64>) -> (released: Vec<u64>)
    requires
        world.wf(),
    ensures
        released@ == rigid_handles(world@, world@.len() as int),
{
    let n = world.num_entities();
    let mut released: Vec<u64> = Vec::new();
    let mut e: usize = 0;
    while e < n
        invariant
            e <= n,
            n == world@.len(),
            world.wf(),
            released@ == rigid_handles(world@, e as int),
        decreases n - e,
    {
        match world.get_component(e, RIGID_BODY_TYPE) {
            Some(cv) => {
                let h = match *cv {
                    ComponentValue::RigidBody { handle } => handle,
                    _ => vstd::pervasive::unreached(),
                };
                proof {
                    assert(comp_in(world@[e as int], RIGID_BODY_TYPE) == *cv);
                    assert(rb_handle(world@[e as int]) == h);
                }
                let _ = crate::physics::send_release(tx, h);
                released.push(h);
            },
            None => {},
        }
        e += 1;
    }
    released
}

} // verus!
