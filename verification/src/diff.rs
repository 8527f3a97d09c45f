//! Field-level binary override diffs.
//!
//! A binary diff is a run of five-byte entries: one field tag, then the
//! raw little-endian 32-bit value.  Applying a diff mutates exactly the
//! fields its entries name and leaves every other field at its current
//! (possibly already overridden) value; a later entry for the same field
//! wins.  A payload that does not decode against its component's schema is
//! rejected, never skipped.

use vstd::prelude::*;
use crate::component::ComponentValue;
use crate::component::spec_type_of;

verus! {

/// The 32-bit value of four little-endian bytes.
pub open spec fn le32(b0: u8, b1: u8, b2: u8, b3: u8) -> u32 {
    (b0 as u32) | ((b1 as u32) << 8) | ((b2 as u32) << 16) | ((b3 as u32) << 24)
}

/// A binary diff frames whole five-byte entries.
pub open spec fn diff_framed(bytes: Seq<u8>) -> bool {
    bytes.len() % 5 == 0
}

/// Entry `j` of a framed binary diff: its field tag and raw value.
pub open spec fn diff_entry(bytes: Seq<u8>, j: int) -> (u8, u32) {
    (bytes[5 * j], le32(bytes[5 * j + 1], bytes[5 * j + 2], bytes[5 * j + 3], bytes[5 * j + 4]))
}

/// All entries of a framed binary diff, in payload order.
pub open spec fn diff_entries(bytes: Seq<u8>) -> Seq<(u8, u32)> {
    Seq::new((bytes.len() / 5) as nat, |j: int| diff_entry(bytes, j))
}

/// The raw value of the field `tag` addresses on `c`, when the tag is
/// valid for `c`'s kind; booleans read as 0 or 1.
pub open spec fn spec_field_of(c: ComponentValue, tag: u8) -> Option<u32> {
    match c {
        ComponentValue::Position2 { x, y } =>
            if tag == 0 { Some(x) } else if tag == 1 { Some(y) } else { None },
        ComponentValue::UniformScale2 { scale } =>
            if tag == 0 { Some(scale) } else { None },
        ComponentValue::NonUniformScale2 { scale_x, scale_y } =>
            if tag == 0 { Some(scale_x) } else if tag == 1 { Some(scale_y) } else { None },
        ComponentValue::Rotation2 { angle } =>
            if tag == 0 { Some(angle) } else { None },
        ComponentValue::RigidBodyBallDef { radius, is_static } =>
            if tag == 0 { Some(radius) }
            else if tag == 1 { Some(if is_static { 1 } else { 0 }) }
            else { None },
        ComponentValue::RigidBodyBoxDef { half_x, half_y, is_static } =>
            if tag == 0 { Some(half_x) }
            else if tag == 1 { Some(half_y) }
            else if tag == 2 { Some(if is_static { 1 } else { 0 }) }
            else { None },
        ComponentValue::RigidBody { .. } => None,
    }
}

/// One entry applied to one component: the named field takes the raw
/// value.  Fails on a tag foreign to the component's kind, and on a
/// boolean raw value other than 0 or 1.
pub open spec fn spec_apply_entry(c: ComponentValue, tag: u8, raw: u32) -> Option<ComponentValue> {
    match c {
        ComponentValue::Position2 { x, y } =>
            if tag == 0 { Some(ComponentValue::Position2 { x: raw, y }) }
            else if tag == 1 { Some(ComponentValue::Position2 { x, y: raw }) }
            else { None },
        ComponentValue::UniformScale2 { .. } =>
            if tag == 0 { Some(ComponentValue::UniformScale2 { scale: raw }) } else { None },
        ComponentValue::NonUniformScale2 { scale_x, scale_y } =>
            if tag == 0 { Some(ComponentValue::NonUniformScale2 { scale_x: raw, scale_y }) }
            else if tag == 1 { Some(ComponentValue::NonUniformScale2 { scale_x, scale_y: raw }) }
            else { None },
        ComponentValue::Rotation2 { .. } =>
            if tag == 0 { Some(ComponentValue::Rotation2 { angle: raw }) } else { None },
        ComponentValue::RigidBodyBallDef { radius, is_static } =>
            if tag == 0 { Some(ComponentValue::RigidBodyBallDef { radius: raw, is_static }) }
            else if tag == 1 && raw <= 1 {
                Some(ComponentValue::RigidBodyBallDef { radius, is_static: raw == 1 })
            } else { None },
        ComponentValue::RigidBodyBoxDef { half_x, half_y, is_static } =>
            if tag == 0 { Some(ComponentValue::RigidBodyBoxDef { half_x: raw, half_y, is_static }) }
            else if tag == 1 { Some(ComponentValue::RigidBodyBoxDef { half_x, half_y: raw, is_static }) }
            else if tag == 2 && raw <= 1 {
                Some(ComponentValue::RigidBodyBoxDef { half_x, half_y, is_static: raw == 1 })
            } else { None },
        ComponentValue::RigidBody { .. } => None,
    }
}

/// A run of entries applied left to right; the first failing entry fails
/// the whole diff.
pub open spec fn spec_apply_entries(c: ComponentValue, es: Seq<(u8, u32)>)
    -> Option<ComponentValue>
    decreases es.len(),
{
    if es.len() == 0 {
        Some(c)
    } else {
        match spec_apply_entry(c, es[0].0, es[0].1) {
            None => None,
            Some(c2) => spec_apply_entries(c2, es.skip(1)),
        }
    }
}

/// A whole binary payload applied to one component.
pub open spec fn spec_apply_binary_diff(c: ComponentValue, bytes: Seq<u8>)
    -> Option<ComponentValue>
{
    if diff_framed(bytes) {
        spec_apply_entries(c, diff_entries(bytes))
    } else {
        None
    }
}

/// The value the diff's last entry for `tag` carries, if any entry names
/// that field.
pub open spec fn last_set(es: Seq<(u8, u32)>, tag: u8) -> Option<u32>
    decreases es.len(),
{
    if es.len() == 0 {
        None
    } else {
        match last_set(es.skip(1), tag) {
            Some(v) => Some(v),
            None => if es[0].0 == tag { Some(es[0].1) } else { None },
        }
    }
}

/// One applied entry sets exactly the named field, keeps every other
/// field, and never changes the component's kind.
pub proof fn lemma_apply_entry_fields(c: ComponentValue, tag: u8, raw: u32, c2: ComponentValue)
    requires
        spec_apply_entry(c, tag, raw) == Some(c2),
    ensures
        spec_type_of(c2) == spec_type_of(c),
        spec_field_of(c2, tag) == Some::<u32>(raw),
        forall|t2: u8| t2 != tag ==> #[trigger] spec_field_of(c2, t2) == spec_field_of(c, t2),
{
}

/// Law: on success, a diff leaves each field at the diff's last value for
/// it, and at its prior value where the diff never names it; the
/// component's kind never changes.
pub proof fn lemma_apply_entries_field(
    c: ComponentValue,
    es: Seq<(u8, u32)>,
    c2: ComponentValue,
    tag: u8,
)
    requires
        spec_apply_entries(c, es) == Some(c2),
    ensures
        spec_type_of(c2) == spec_type_of(c),
        last_set(es, tag) is None ==> spec_field_of(c2, tag) == spec_field_of(c, tag),
    decreases es.len(),
{
    if es.len() == 0 {
    } else {
        let c1 = spec_apply_entry(c, es[0].0, es[0].1).unwrap();
        lemma_apply_entry_fields(c, es[0].0, es[0].1, c1);
        lemma_apply_entries_field(c1, es.skip(1), c2, tag);
    }
}

/// A diff that sets a field leaves it at the diff's last value for that
/// field, whatever the component held before.
pub proof fn lemma_diff_sets_field(
    c1: ComponentValue,
    dep: Seq<(u8, u32)>,
    c2: ComponentValue,
    tag: u8,
    v: u32,
)
    requires
        spec_apply_entries(c1, dep) == Some(c2),
        last_set(dep, tag) == Some(v),
    ensures
        spec_field_of(c2, tag) == Some::<u32>(v),
    decreases dep.len(),
{
    if dep.len() == 0 {
    } else {
        let cm = spec_apply_entry(c1, dep[0].0, dep[0].1).unwrap();
        lemma_apply_entry_fields(c1, dep[0].0, dep[0].1, cm);
        if last_set(dep.skip(1), tag) is Some {
            lemma_diff_sets_field(cm, dep.skip(1), c2, tag, v);
        } else {
            lemma_apply_entries_field(cm, dep.skip(1), c2, tag);
        }
    }
}

/// Law (layered override precedence): a base prefab's component, first
/// overridden by a dependent's diff and then by a further dependent's, ends
/// with each field at the *last* layer's last value for it — whatever the
/// earlier layers set — and fields no layer names keep the base value.
pub proof fn lemma_layered_override_precedence(
    c0: ComponentValue,
    base: Seq<(u8, u32)>,
    dep: Seq<(u8, u32)>,
    c1: ComponentValue,
    c2: ComponentValue,
    tag: u8,
    v: u32,
)
    requires
        spec_apply_entries(c0, base) == Some(c1),
        spec_apply_entries(c1, dep) == Some(c2),
        last_set(dep, tag) == Some(v),
    ensures
        spec_field_of(c2, tag) == Some::<u32>(v),
        forall|t2: u8| last_set(base, t2) is None && last_set(dep, t2) is None ==>
            #[trigger] spec_field_of(c2, t2) == spec_field_of(c0, t2),
{
    lemma_diff_sets_field(c1, dep, c2, tag, v);
    assert forall|t2: u8| last_set(base, t2) is None && last_set(dep, t2) is None implies
        #[trigger] spec_field_of(c2, t2) == spec_field_of(c0, t2) by {
        lemma_apply_entries_field(c0, base, c1, t2);
        lemma_apply_entries_field(c1, dep, c2, t2);
    }
}

/// One entry applied to one component.
pub fn apply_entry(c: &ComponentValue, tag: u8, raw: u32) -> (r: Option<ComponentValue>)
    ensures
        r == spec_apply_entry(*c, tag, raw),
{
    match *c {
        ComponentValue::Position2 { x, y } => {
            if tag == 0 { Some(ComponentValue::Position2 { x: raw, y }) }
            else if tag == 1 { Some(ComponentValue::Position2 { x, y: raw }) }
            else { None }
        },
        ComponentValue::UniformScale2 { .. } => {
            if tag == 0 { Some(ComponentValue::UniformScale2 { scale: raw }) } else { None }
        },
        ComponentValue::NonUniformScale2 { scale_x, scale_y } => {
            if tag == 0 { Some(ComponentValue::NonUniformScale2 { scale_x: raw, scale_y }) }
            else if tag == 1 { Some(ComponentValue::NonUniformScale2 { scale_x, scale_y: raw }) }
            else { None }
        },
        ComponentValue::Rotation2 { .. } => {
            if tag == 0 { Some(ComponentValue::Rotation2 { angle: raw }) } else { None }
        },
        ComponentValue::RigidBodyBallDef { radius, is_static } => {
            if tag == 0 { Some(ComponentValue::RigidBodyBallDef { radius: raw, is_static }) }
            else if tag == 1 && raw <= 1 {
                Some(ComponentValue::RigidBodyBallDef { radius, is_static: raw == 1 })
            } else { None }
        },
        ComponentValue::RigidBodyBoxDef { half_x, half_y, is_static } => {
            if tag == 0 {
                Some(ComponentValue::RigidBodyBoxDef { half_x: raw, half_y, is_static })
            } else if tag == 1 {
                Some(ComponentValue::RigidBodyBoxDef { half_x, half_y: raw, is_static })
            } else if tag == 2 && raw <= 1 {
                Some(ComponentValue::RigidBodyBoxDef { half_x, half_y, is_static: raw == 1 })
            } else { None }
        },
        ComponentValue::RigidBody { .. } => None,
    }
}

/// Applies a whole binary payload to one component; `None` exactly when
/// the payload does not decode against the component's schema.
pub fn apply_binary_diff(c: &ComponentValue, bytes: &Vec<u8>) -> (r: Option<ComponentValue>)
    ensures
        r == spec_apply_binary_diff(*c, bytes@),
{
    let len = bytes.len();
    if len % 5 != 0 {
        return None;
    }
    let ghost es = diff_entries(bytes@);
    let count = len / 5;
    let mut cur = *c;
    let mut j: usize = 0;
    proof {
        assert(es.skip(0) =~= es);
    }
    while j < count
        invariant
            j <= count,
            count == len / 5,
            len == bytes@.len(),
            len % 5 == 0,
            es == diff_entries(bytes@),
            es.len() == count,
            spec_apply_entries(*c, es) == spec_apply_entries(cur, es.skip(j as int)),
        decreases count - j,
    {
        let tag = bytes[5 * j];
        let b1 = bytes[5 * j + 1];
        let b2 = bytes[5 * j + 2];
        let b3 = bytes[5 * j + 3];
        let b4 = bytes[5 * j + 4];
        let raw: u32 = (b1 as u32) | ((b2 as u32) << 8) | ((b3 as u32) << 16) | ((b4 as u32) << 24);
        proof {
            assert(es[j as int] == (tag, raw));
            assert(es.skip(j as int)[0] == es[j as int]);
        }
        match apply_entry(&cur, tag, raw) {
            Some(c2) => {
                proof {
                    assert(es.skip(j as int).skip(1) =~= es.skip(j as int + 1));
                }
                cur = c2;
            },
            None => {
                return None;
            },
        }
        j += 1;
    }
    proof {
        assert(es.skip(count as int) =~= Seq::<(u8, u32)>::empty());
    }
    Some(cur)
}

/// Frames a list of entries as a binary diff payload.
pub fn encode_diff(entries: &Vec<(u8, u32)>) -> (r: Vec<u8>)
    ensures
        diff_framed(r@),
        diff_entries(r@) == entries@,
{
    let n = entries.len();
    let mut r: Vec<u8> = Vec::new();
    let mut j: usize = 0;
    while j < n
        invariant
            j <= n,
            n == entries@.len(),
            r@.len() == 5 * j,
            forall|j2: int| 0 <= j2 < j ==> diff_entry(r@, j2) == entries@[j2],
        decreases n - j,
    {
        let (tag, v) = entries[j];
        let ghost r_pre = r@;
        r.push(tag);
        r.push((v & 0xff) as u8);
        r.push(((v >> 8) & 0xff) as u8);
        r.push(((v >> 16) & 0xff) as u8);
        r.push(((v >> 24) & 0xff) as u8);
        proof {
            assert(le32(
                (v & 0xff) as u8,
                ((v >> 8) & 0xff) as u8,
                ((v >> 16) & 0xff) as u8,
                ((v >> 24) & 0xff) as u8,
            ) == v) by {
                assert((((v & 0xff) as u8) as u32)
                    | ((((v >> 8) & 0xff) as u8 as u32) << 8)
                    | ((((v >> 16) & 0xff) as u8 as u32) << 16)
                    | ((((v >> 24) & 0xff) as u8 as u32) << 24) == v) by (bit_vector);
            }
            assert(diff_entry(r@, j as int) == entries@[j as int]);
            assert forall|j2: int| 0 <= j2 < j implies
                diff_entry(r@, j2) == entries@[j2] by {
                assert(r@[5 * j2] == r_pre[5 * j2]);
                assert(r@[5 * j2 + 1] == r_pre[5 * j2 + 1]);
                assert(r@[5 * j2 + 2] == r_pre[5 * j2 + 2]);
                assert(r@[5 * j2 + 3] == r_pre[5 * j2 + 3]);
                assert(r@[5 * j2 + 4] == r_pre[5 * j2 + 4]);
            }
        }
        j += 1;
    }
    proof {
        assert(diff_entries(r@) =~= entries@);
    }
    r
}

} // verus!
