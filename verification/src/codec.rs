//! Canonical textual serialization of a cooked prefab.
//!
//! The cooked world and its identity map flatten to a sequence of 128-bit
//! words (counts, schema ids, field values), and every word prints as one
//! fixed-width line: 39 decimal digits, most significant first, then a
//! newline.  The form is canonical — one byte sequence per cooked value —
//! so it serves both as the persisted cache of a cook result and as the
//! round-trip correctness gate, which is proved to pass on every
//! well-formed cooked prefab.

use vstd::prelude::*;
use vstd::arithmetic::div_mod::{lemma_div_denominator, lemma_fundamental_div_mod};
use crate::component::{
    spec_type_of, type_of, ComponentValue, NON_UNIFORM_SCALE2_TYPE, POSITION2_TYPE,
    RIGID_BODY_BALL_DEF_TYPE, RIGID_BODY_BOX_DEF_TYPE, RIGID_BODY_TYPE, ROTATION2_TYPE,
    UNIFORM_SCALE2_TYPE,
};
use crate::keymap::UuidMap;
use crate::prefab::CookedPrefab;
use crate::world::{comps_sorted, World};

verus! {

// ---------- structure to words ----------

/// One component as words: its schema id, then its raw fields (booleans
/// as 0 or 1).
pub open spec fn ser_comp(c: ComponentValue) -> Seq<u128> {
    match c {
        ComponentValue::Position2 { x, y } => seq![POSITION2_TYPE, x as u128, y as u128],
        ComponentValue::UniformScale2 { scale } => seq![UNIFORM_SCALE2_TYPE, scale as u128],
        ComponentValue::NonUniformScale2 { scale_x, scale_y } =>
            seq![NON_UNIFORM_SCALE2_TYPE, scale_x as u128, scale_y as u128],
        ComponentValue::Rotation2 { angle } => seq![ROTATION2_TYPE, angle as u128],
        ComponentValue::RigidBodyBallDef { radius, is_static } =>
            seq![RIGID_BODY_BALL_DEF_TYPE, radius as u128, if is_static { 1u128 } else { 0u128 }],
        ComponentValue::RigidBodyBoxDef { half_x, half_y, is_static } =>
            seq![RIGID_BODY_BOX_DEF_TYPE, half_x as u128, half_y as u128,
                if is_static { 1u128 } else { 0u128 }],
        ComponentValue::RigidBody { handle } => seq![RIGID_BODY_TYPE, handle as u128],
    }
}

/// The components of one entity from position `k` on.
pub open spec fn ser_comps(row: Seq<ComponentValue>, k: int) -> Seq<u128>
    decreases row.len() - k,
{
    if k < 0 || k >= row.len() {
        Seq::empty()
    } else {
        ser_comp(row[k]) + ser_comps(row, k + 1)
    }
}

/// One entity: its component count, then its components in order.
pub open spec fn ser_entity(row: Seq<ComponentValue>) -> Seq<u128> {
    seq![row.len() as u128] + ser_comps(row, 0)
}

/// The entities from index `j` on.
pub open spec fn ser_world(w: Seq<Seq<ComponentValue>>, j: int) -> Seq<u128>
    decreases w.len() - j,
{
    if j < 0 || j >= w.len() {
        Seq::empty()
    } else {
        ser_entity(w[j]) + ser_world(w, j + 1)
    }
}

/// The identity entries from index `j` on: authored id, then destination
/// entity index.
pub open spec fn ser_ident(keys: Seq<u128>, vals: Seq<usize>, j: int) -> Seq<u128>
    decreases keys.len() - j,
{
    if j < 0 || j >= keys.len() {
        Seq::empty()
    } else {
        seq![keys[j], vals[j] as u128] + ser_ident(keys, vals, j + 1)
    }
}

/// A whole cooked prefab as words: entity count, entities, identity entry
/// count, identity entries.
pub open spec fn ser_cooked(w: Seq<Seq<ComponentValue>>, keys: Seq<u128>, vals: Seq<usize>)
    -> Seq<u128>
{
    seq![w.len() as u128] + ser_world(w, 0) + seq![keys.len() as u128] + ser_ident(keys, vals, 0)
}

// ---------- words to structure ----------

/// One component parsed at word position `i`: the schema id selects the
/// field layout; field words must fit their fields, booleans must be 0 or
/// 1, and an unknown schema id is rejected.
pub open spec fn parse_comp(ws: Seq<u128>, i: int) -> Option<(ComponentValue, int)> {
    if i < 0 || i >= ws.len() {
        None
    } else {
        let t = ws[i];
        if t == POSITION2_TYPE {
            if i + 3 <= ws.len() && ws[i + 1] <= u32::MAX as u128 && ws[i + 2] <= u32::MAX as u128 {
                Some((ComponentValue::Position2 { x: ws[i + 1] as u32, y: ws[i + 2] as u32 }, i + 3))
            } else {
                None
            }
        } else if t == UNIFORM_SCALE2_TYPE {
            if i + 2 <= ws.len() && ws[i + 1] <= u32::MAX as u128 {
                Some((ComponentValue::UniformScale2 { scale: ws[i + 1] as u32 }, i + 2))
            } else {
                None
            }
        } else if t == NON_UNIFORM_SCALE2_TYPE {
            if i + 3 <= ws.len() && ws[i + 1] <= u32::MAX as u128 && ws[i + 2] <= u32::MAX as u128 {
                Some((ComponentValue::NonUniformScale2 {
                    scale_x: ws[i + 1] as u32,
                    scale_y: ws[i + 2] as u32,
                }, i + 3))
            } else {
                None
            }
        } else if t == ROTATION2_TYPE {
            if i + 2 <= ws.len() && ws[i + 1] <= u32::MAX as u128 {
                Some((ComponentValue::Rotation2 { angle: ws[i + 1] as u32 }, i + 2))
            } else {
                None
            }
        } else if t == RIGID_BODY_BALL_DEF_TYPE {
            if i + 3 <= ws.len() && ws[i + 1] <= u32::MAX as u128 && ws[i + 2] <= 1 {
                Some((ComponentValue::RigidBodyBallDef {
                    radius: ws[i + 1] as u32,
                    is_static: ws[i + 2] == 1,
                }, i + 3))
            } else {
                None
            }
        } else if t == RIGID_BODY_BOX_DEF_TYPE {
            if i + 4 <= ws.len() && ws[i + 1] <= u32::MAX as u128 && ws[i + 2] <= u32::MAX as u128
                && ws[i + 3] <= 1 {
                Some((ComponentValue::RigidBodyBoxDef {
                    half_x: ws[i + 1] as u32,
                    half_y: ws[i + 2] as u32,
                    is_static: ws[i + 3] == 1,
                }, i + 4))
            } else {
                None
            }
        } else if t == RIGID_BODY_TYPE {
            if i + 2 <= ws.len() && ws[i + 1] <= u64::MAX as u128 {
                Some((ComponentValue::RigidBody { handle: ws[i + 1] as u64 }, i + 2))
            } else {
                None
            }
        } else {
            None
        }
    }
}

/// `k` components parsed in sequence.
pub open spec fn parse_comps(ws: Seq<u128>, i: int, k: int) -> Option<(Seq<ComponentValue>, int)>
    decreases k,
{
    if k <= 0 {
        Some((Seq::empty(), i))
    } else {
        match parse_comp(ws, i) {
            None => None,
            Some((c, i2)) => match parse_comps(ws, i2, k - 1) {
                None => None,
                Some((rest, i3)) => Some((seq![c] + rest, i3)),
            },
        }
    }
}

/// One entity: a component count, then that many components, in strictly
/// schema-sorted (canonical) order.
pub open spec fn parse_entity(ws: Seq<u128>, i: int) -> Option<(Seq<ComponentValue>, int)> {
    if i < 0 || i >= ws.len() || ws[i] > usize::MAX as u128 {
        None
    } else {
        match parse_comps(ws, i + 1, ws[i] as int) {
            None => None,
            Some((row, i2)) => if comps_sorted(row) {
                Some((row, i2))
            } else {
                None
            },
        }
    }
}

/// `n` entities parsed in sequence.
pub open spec fn parse_world(ws: Seq<u128>, i: int, n: int)
    -> Option<(Seq<Seq<ComponentValue>>, int)>
    decreases n,
{
    if n <= 0 {
        Some((Seq::empty(), i))
    } else {
        match parse_entity(ws, i) {
            None => None,
            Some((row, i2)) => match parse_world(ws, i2, n - 1) {
                None => None,
                Some((rest, i3)) => Some((seq![row] + rest, i3)),
            },
        }
    }
}

/// `n` identity entries; every destination index must name a live entity.
pub open spec fn parse_ident(ws: Seq<u128>, i: int, n: int, nents: int)
    -> Option<(Seq<u128>, Seq<usize>, int)>
    decreases n,
{
    if n <= 0 {
        Some((Seq::empty(), Seq::empty(), i))
    } else if i >= 0 && i + 2 <= ws.len() && ws[i + 1] <= usize::MAX as u128
        && (ws[i + 1] as int) < nents {
        match parse_ident(ws, i + 2, n - 1, nents) {
            None => None,
            Some((ks, vs, i2)) => Some((seq![ws[i]] + ks, seq![ws[i + 1] as usize] + vs, i2)),
        }
    } else {
        None
    }
}

/// A whole cooked prefab parsed from words; the words must be consumed
/// exactly and the identity keys must be pairwise distinct.
pub open spec fn parse_cooked_words(ws: Seq<u128>)
    -> Option<(Seq<Seq<ComponentValue>>, Seq<u128>, Seq<usize>)>
{
    if ws.len() < 1 || ws[0] > usize::MAX as u128 {
        None
    } else {
        match parse_world(ws, 1, ws[0] as int) {
            None => None,
            Some((w, i)) => if 0 <= i < ws.len() && ws[i] <= usize::MAX as u128 {
                match parse_ident(ws, i + 1, ws[i] as int, w.len() as int) {
                    None => None,
                    Some((ks, vs, i2)) => if i2 == ws.len() && ks.no_duplicates() {
                        Some((w, ks, vs))
                    } else {
                        None
                    },
                }
            } else {
                None
            },
        }
    }
}

// ---------- words to text ----------

/// Powers of ten.
pub open spec fn pow10(k: int) -> int
    decreases k,
{
    if k <= 0 {
        1
    } else {
        10 * pow10(k - 1)
    }
}

/// Decimal digit `k` (most significant first) of a word printed over 39
/// positions.
pub open spec fn digit39(w: u128, k: int) -> u8 {
    (48 + ((w as int) / pow10(38 - k)) % 10) as u8
}

/// One printed line: 39 digits and a newline.
pub open spec fn line39(w: u128) -> Seq<u8> {
    Seq::new(40, |k: int| if k == 39 { 10u8 } else { digit39(w, k) })
}

/// The printed text of the words from index `j` on.
pub open spec fn spec_text(ws: Seq<u128>, j: int) -> Seq<u8>
    decreases ws.len() - j,
{
    if j < 0 || j >= ws.len() {
        Seq::empty()
    } else {
        line39(ws[j]) + spec_text(ws, j + 1)
    }
}

/// An ASCII decimal digit.
pub open spec fn is_digit(b: u8) -> bool {
    48 <= b <= 57
}

/// The value of the first `k` digits of a line starting at `i`.
pub open spec fn line_int(bytes: Seq<u8>, i: int, k: int) -> int
    decreases k,
{
    if k <= 0 {
        0
    } else {
        line_int(bytes, i, k - 1) * 10 + (bytes[i + k - 1] - 48)
    }
}

/// A well-formed line at `i`: 39 digits, a newline, and a value in range.
pub open spec fn line_ok(bytes: Seq<u8>, i: int) -> bool {
    &&& forall|k: int| 0 <= k < 39 ==> is_digit(#[trigger] bytes[i + k])
    &&& bytes[i + 39] == 10
    &&& line_int(bytes, i, 39) <= u128::MAX as int
}

/// The words printed in the text from byte `i` on.
pub open spec fn parse_text(bytes: Seq<u8>, i: int) -> Option<Seq<u128>>
    decreases bytes.len() - i,
{
    if i == bytes.len() {
        Some(Seq::empty())
    } else if 0 <= i && i + 40 <= bytes.len() && line_ok(bytes, i) {
        match parse_text(bytes, i + 40) {
            None => None,
            Some(rest) => Some(seq![line_int(bytes, i, 39) as u128] + rest),
        }
    } else {
        None
    }
}

/// The canonical byte form of a cooked prefab.
pub open spec fn spec_serialize(w: Seq<Seq<ComponentValue>>, keys: Seq<u128>, vals: Seq<usize>)
    -> Seq<u8>
{
    spec_text(ser_cooked(w, keys, vals), 0)
}

/// What a byte sequence deserializes to, if anything.
pub open spec fn spec_deserialize(bytes: Seq<u8>)
    -> Option<(Seq<Seq<ComponentValue>>, Seq<u128>, Seq<usize>)>
{
    match parse_text(bytes, 0) {
        None => None,
        Some(ws) => parse_cooked_words(ws),
    }
}

// ---------- arithmetic lemmas for the decimal lines ----------

/// Powers of ten are positive.
proof fn lemma_pow10_pos(k: int)
    ensures
        pow10(k) >= 1,
    decreases k,
{
    if k > 0 {
        lemma_pow10_pos(k - 1);
    }
}

/// The first `k` printed digits of `w` carry the value `w` with its last
/// `39 - k` digits cut off.
proof fn lemma_line_int_digits(bytes: Seq<u8>, i: int, w: u128, k: int)
    requires
        0 <= i,
        i + 39 <= bytes.len(),
        forall|m: int| 0 <= m < 39 ==> bytes[i + m] == digit39(w, m),
        0 <= k <= 39,
    ensures
        line_int(bytes, i, k) == (w as int) / pow10(39 - k),
    decreases k,
{
    if k == 0 {
        assert(pow10(39) == 1000000000000000000000000000000000000000int) by {
            reveal_with_fuel(pow10, 41);
        }
        assert((w as int) < pow10(39));
        assert((w as int) / pow10(39) == 0);
    } else {
        lemma_line_int_digits(bytes, i, w, k - 1);
        let m = 39 - k;
        lemma_pow10_pos(m);
        lemma_pow10_pos(m + 1);
        assert(bytes[i + k - 1] == digit39(w, k - 1));
        assert(digit39(w, k - 1) - 48 == ((w as int) / pow10(m)) % 10) by {
            assert(0 <= ((w as int) / pow10(m)) % 10 < 10);
        }
        let a = (w as int) / pow10(m);
        lemma_div_denominator(w as int, pow10(m), 10);
        assert(a / 10 == (w as int) / (pow10(m) * 10));
        assert(pow10(m) * 10 == pow10(m + 1));
        lemma_fundamental_div_mod(a, 10);
        assert(a == 10 * (a / 10) + a % 10);
        assert(line_int(bytes, i, k) == line_int(bytes, i, k - 1) * 10 + (a % 10));
        assert(line_int(bytes, i, k - 1) == (w as int) / pow10(m + 1));
    }
}

/// The printed digits of a word are digits.
proof fn lemma_digit39_is_digit(w: u128, k: int)
    requires
        0 <= k < 39,
    ensures
        is_digit(digit39(w, k)),
        digit39(w, k) - 48 == ((w as int) / pow10(38 - k)) % 10,
{
    lemma_pow10_pos(38 - k);
    assert(0 <= ((w as int) / pow10(38 - k)) % 10 < 10);
}

/// A line printed from a word is well formed and reads back as that word.
proof fn lemma_line_round(bytes: Seq<u8>, i: int, w: u128)
    requires
        0 <= i,
        i + 40 <= bytes.len(),
        forall|m: int| 0 <= m < 40 ==> bytes[i + m] == line39(w)[m],
    ensures
        line_ok(bytes, i),
        line_int(bytes, i, 39) == w as int,
{
    assert forall|m: int| 0 <= m < 39 implies bytes[i + m] == digit39(w, m) by {
        assert(line39(w)[m] == digit39(w, m));
    }
    assert forall|k: int| 0 <= k < 39 implies is_digit(#[trigger] bytes[i + k]) by {
        lemma_digit39_is_digit(w, k);
    }
    assert(bytes[i + 39] == line39(w)[39]);
    lemma_line_int_digits(bytes, i, w, 39);
    assert(pow10(0) == 1);
}

/// Longer digit prefixes never shrink the value.
proof fn lemma_line_int_mono(bytes: Seq<u8>, i: int, k: int, m: int)
    requires
        0 <= k <= m,
        forall|x: int| 0 <= x < m ==> is_digit(#[trigger] bytes[i + x]),
    ensures
        line_int(bytes, i, m) >= line_int(bytes, i, k),
        line_int(bytes, i, k) >= 0,
    decreases m,
{
    if m > 0 {
        if k == m {
            lemma_line_int_mono(bytes, i, k - 1, m - 1);
        } else {
            lemma_line_int_mono(bytes, i, k, m - 1);
        }
    }
}

/// Parsing the printed text of a word list gives the word list back.
proof fn lemma_parse_text_round(bytes: Seq<u8>, ws: Seq<u128>, j: int, i: int)
    requires
        0 <= j <= ws.len(),
        0 <= i <= bytes.len(),
        bytes.subrange(i, bytes.len() as int) == spec_text(ws, j),
    ensures
        parse_text(bytes, i) == Some(ws.skip(j)),
    decreases ws.len() - j,
{
    if j == ws.len() {
        assert(spec_text(ws, j) =~= Seq::<u8>::empty());
        assert(bytes.len() - i == 0);
        assert(ws.skip(j) =~= Seq::<u128>::empty());
    } else {
        let w = ws[j];
        assert(spec_text(ws, j) == line39(w) + spec_text(ws, j + 1));
        assert(bytes.len() - i == spec_text(ws, j).len());
        assert forall|m: int| 0 <= m < 40 implies bytes[i + m] == line39(w)[m] by {
            assert(bytes.subrange(i, bytes.len() as int)[m] == bytes[i + m]);
            assert(spec_text(ws, j)[m] == line39(w)[m]);
        }
        lemma_line_round(bytes, i, w);
        assert(bytes.subrange(i + 40, bytes.len() as int) =~= spec_text(ws, j + 1)) by {
            assert forall|m: int| 0 <= m < bytes.len() - i - 40 implies
                #[trigger] bytes.subrange(i + 40, bytes.len() as int)[m]
                    == spec_text(ws, j + 1)[m] by {
                assert(bytes[i + 40 + m] == bytes.subrange(i, bytes.len() as int)[40 + m]);
                assert(spec_text(ws, j)[40 + m] == spec_text(ws, j + 1)[m]);
            }
        }
        lemma_parse_text_round(bytes, ws, j + 1, i + 40);
        assert(seq![w] + ws.skip(j + 1) =~= ws.skip(j));
    }
}

// ---------- round trip at the word level ----------

/// A parsed-back component is the component that was written.
proof fn lemma_parse_comp_round(ws: Seq<u128>, i: int, c: ComponentValue)
    requires
        0 <= i,
        i + ser_comp(c).len() <= ws.len(),
        forall|m: int| 0 <= m < ser_comp(c).len() ==> ws[i + m] == ser_comp(c)[m],
    ensures
        parse_comp(ws, i) == Some((c, i + ser_comp(c).len())),
{
    assert(ws[i] == ser_comp(c)[0]);
    match c {
        ComponentValue::Position2 { x, y } => {
            assert(ws[i + 1] == x as u128 && ws[i + 2] == y as u128);
        },
        ComponentValue::UniformScale2 { scale } => {
            assert(ws[i + 1] == scale as u128);
        },
        ComponentValue::NonUniformScale2 { scale_x, scale_y } => {
            assert(ws[i + 1] == scale_x as u128 && ws[i + 2] == scale_y as u128);
        },
        ComponentValue::Rotation2 { angle } => {
            assert(ws[i + 1] == angle as u128);
        },
        ComponentValue::RigidBodyBallDef { radius, is_static } => {
            assert(ws[i + 1] == radius as u128);
            assert(ws[i + 2] == (if is_static { 1u128 } else { 0u128 }));
        },
        ComponentValue::RigidBodyBoxDef { half_x, half_y, is_static } => {
            assert(ws[i + 1] == half_x as u128 && ws[i + 2] == half_y as u128);
            assert(ws[i + 3] == (if is_static { 1u128 } else { 0u128 }));
        },
        ComponentValue::RigidBody { handle } => {
            assert(ws[i + 1] == handle as u128);
        },
    }
}

/// A parsed-back component list is the list that was written.
proof fn lemma_parse_comps_round(ws: Seq<u128>, i: int, row: Seq<ComponentValue>, k: int)
    requires
        0 <= k <= row.len(),
        0 <= i,
        i + ser_comps(row, k).len() <= ws.len(),
        forall|m: int| 0 <= m < ser_comps(row, k).len() ==> ws[i + m] == ser_comps(row, k)[m],
    ensures
        parse_comps(ws, i, row.len() - k) == Some((row.skip(k), i + ser_comps(row, k).len())),
    decreases row.len() - k,
{
    if k == row.len() {
        assert(row.skip(k) =~= Seq::<ComponentValue>::empty());
    } else {
        let cl = ser_comp(row[k]).len() as int;
        assert(ser_comps(row, k) == ser_comp(row[k]) + ser_comps(row, k + 1));
        assert forall|m: int| 0 <= m < cl implies ws[i + m] == ser_comp(row[k])[m] by {
            assert(ser_comps(row, k)[m] == ser_comp(row[k])[m]);
        }
        lemma_parse_comp_round(ws, i, row[k]);
        assert forall|m: int| 0 <= m < ser_comps(row, k + 1).len() implies
            ws[i + cl + m] == #[trigger] ser_comps(row, k + 1)[m] by {
            assert(ser_comps(row, k)[cl + m] == ser_comps(row, k + 1)[m]);
        }
        lemma_parse_comps_round(ws, i + cl, row, k + 1);
        assert(seq![row[k]] + row.skip(k + 1) =~= row.skip(k));
    }
}

/// A parsed-back entity is the entity that was written.
proof fn lemma_parse_entity_round(ws: Seq<u128>, i: int, row: Seq<ComponentValue>)
    requires
        comps_sorted(row),
        row.len() <= usize::MAX,
        0 <= i,
        i + ser_entity(row).len() <= ws.len(),
        forall|m: int| 0 <= m < ser_entity(row).len() ==> ws[i + m] == ser_entity(row)[m],
    ensures
        parse_entity(ws, i) == Some((row, i + ser_entity(row).len())),
{
    assert(ws[i + 0] == ser_entity(row)[0]);
    assert(ws[i] == row.len() as u128);
    assert forall|m: int| 0 <= m < ser_comps(row, 0).len() implies
        ws[i + 1 + m] == ser_comps(row, 0)[m] by {
        assert(ser_entity(row)[1 + m] == ser_comps(row, 0)[m]);
    }
    lemma_parse_comps_round(ws, i + 1, row, 0);
    assert(row.skip(0) =~= row);
}

/// A parsed-back world is the world that was written.
proof fn lemma_parse_world_round(ws: Seq<u128>, i: int, w: Seq<Seq<ComponentValue>>, j: int)
    requires
        0 <= j <= w.len(),
        forall|e: int| 0 <= e < w.len() ==> comps_sorted(#[trigger] w[e])
            && w[e].len() <= usize::MAX,
        0 <= i,
        i + ser_world(w, j).len() <= ws.len(),
        forall|m: int| 0 <= m < ser_world(w, j).len() ==> ws[i + m] == ser_world(w, j)[m],
    ensures
        parse_world(ws, i, w.len() - j) == Some((w.skip(j), i + ser_world(w, j).len())),
    decreases w.len() - j,
{
    if j == w.len() {
        assert(w.skip(j) =~= Seq::<Seq<ComponentValue>>::empty());
    } else {
        let el = ser_entity(w[j]).len() as int;
        assert(ser_world(w, j) == ser_entity(w[j]) + ser_world(w, j + 1));
        assert forall|m: int| 0 <= m < el implies ws[i + m] == ser_entity(w[j])[m] by {
            assert(ser_world(w, j)[m] == ser_entity(w[j])[m]);
        }
        lemma_parse_entity_round(ws, i, w[j]);
        assert forall|m: int| 0 <= m < ser_world(w, j + 1).len() implies
            ws[i + el + m] == #[trigger] ser_world(w, j + 1)[m] by {
            assert(ser_world(w, j)[el + m] == ser_world(w, j + 1)[m]);
        }
        lemma_parse_world_round(ws, i + el, w, j + 1);
        assert(seq![w[j]] + w.skip(j + 1) =~= w.skip(j));
    }
}

/// A parsed-back identity table is the table that was written.
proof fn lemma_parse_ident_round(
    ws: Seq<u128>,
    i: int,
    keys: Seq<u128>,
    vals: Seq<usize>,
    j: int,
    nents: int,
)
    requires
        0 <= j <= keys.len(),
        vals.len() == keys.len(),
        forall|m: int| 0 <= m < vals.len() ==> (#[trigger] vals[m]) < nents,
        0 <= i,
        i + ser_ident(keys, vals, j).len() <= ws.len(),
        forall|m: int| 0 <= m < ser_ident(keys, vals, j).len() ==>
            ws[i + m] == ser_ident(keys, vals, j)[m],
    ensures
        parse_ident(ws, i, keys.len() - j, nents)
            == Some((keys.skip(j), vals.skip(j), i + ser_ident(keys, vals, j).len())),
    decreases keys.len() - j,
{
    if j == keys.len() {
        assert(keys.skip(j) =~= Seq::<u128>::empty());
        assert(vals.skip(j) =~= Seq::<usize>::empty());
    } else {
        assert(ser_ident(keys, vals, j)
            == seq![keys[j], vals[j] as u128] + ser_ident(keys, vals, j + 1));
        assert(ws[i + 0] == ser_ident(keys, vals, j)[0]);
        assert(ws[i + 1] == ser_ident(keys, vals, j)[1]);
        assert(ws[i] == keys[j] && ws[i + 1] == vals[j] as u128);
        assert forall|m: int| 0 <= m < ser_ident(keys, vals, j + 1).len() implies
            ws[i + 2 + m] == #[trigger] ser_ident(keys, vals, j + 1)[m] by {
            assert(ser_ident(keys, vals, j)[2 + m] == ser_ident(keys, vals, j + 1)[m]);
        }
        lemma_parse_ident_round(ws, i + 2, keys, vals, j + 1, nents);
        assert(seq![keys[j]] + keys.skip(j + 1) =~= keys.skip(j));
        assert(seq![vals[j]] + vals.skip(j + 1) =~= vals.skip(j));
    }
}

/// Law (round trip): deserializing the canonical bytes of any well-formed
/// cooked prefab yields the prefab back, so re-serializing yields the
/// same bytes.
pub proof fn lemma_round_trip(w: Seq<Seq<ComponentValue>>, keys: Seq<u128>, vals: Seq<usize>)
    requires
        w.len() <= usize::MAX,
        forall|e: int| 0 <= e < w.len() ==> comps_sorted(#[trigger] w[e])
            && w[e].len() <= usize::MAX,
        keys.len() == vals.len(),
        keys.len() <= usize::MAX,
        keys.no_duplicates(),
        forall|m: int| 0 <= m < vals.len() ==> (#[trigger] vals[m]) < w.len(),
    ensures
        spec_deserialize(spec_serialize(w, keys, vals)) == Some((w, keys, vals)),
{
    let ws = ser_cooked(w, keys, vals);
    let bytes = spec_serialize(w, keys, vals);
    assert(bytes.subrange(0, bytes.len() as int) =~= spec_text(ws, 0));
    lemma_parse_text_round(bytes, ws, 0, 0);
    assert(ws.skip(0) =~= ws);
    // now parse the words
    let wl = ser_world(w, 0).len() as int;
    let il = ser_ident(keys, vals, 0).len() as int;
    assert(ws == seq![w.len() as u128] + ser_world(w, 0) + seq![keys.len() as u128]
        + ser_ident(keys, vals, 0));
    assert(ws[0] == w.len() as u128);
    assert forall|m: int| 0 <= m < wl implies ws[1 + m] == #[trigger] ser_world(w, 0)[m] by {}
    lemma_parse_world_round(ws, 1, w, 0);
    assert(w.skip(0) =~= w);
    assert(ws[1 + wl] == keys.len() as u128);
    assert forall|m: int| 0 <= m < il implies
        ws[1 + wl + 1 + m] == #[trigger] ser_ident(keys, vals, 0)[m] by {}
    lemma_parse_ident_round(ws, 1 + wl + 1, keys, vals, 0, w.len() as int);
    assert(keys.skip(0) =~= keys);
    assert(vals.skip(0) =~= vals);
    assert(1 + wl + 1 + il == ws.len());
}


// ---------- executable printing ----------

/// Prints one word as 39 fixed-width decimal digits and a newline.
fn emit_line(out: &mut Vec<u8>, w: u128)
    ensures
        final(out)@ == old(out)@ + line39(w),
{
    let mut p: u128 = 100000000000000000000000000000000000000u128;
    proof {
        assert(pow10(38) == 100000000000000000000000000000000000000int) by {
            reveal_with_fuel(pow10, 40);
        }
    }
    let mut k: usize = 0;
    while k < 39
        invariant
            k <= 39,
            out@.len() == old(out)@.len() + k,
            forall|m: int| 0 <= m < old(out)@.len() ==> out@[m] == old(out)@[m],
            forall|m: int| 0 <= m < k ==> out@[old(out)@.len() + m] == digit39(w, m),
            k < 39 ==> p as int == pow10(38 - k as int),
        decreases 39 - k,
    {
        proof {
            lemma_pow10_pos(38 - k as int);
        }
        let d: u8 = ((w / p) % 10) as u8 + 48;
        proof {
            assert(d == digit39(w, k as int));
        }
        out.push(d);
        if k < 38 {
            proof {
                assert(pow10(38 - k as int) == 10 * pow10(37 - k as int));
                lemma_pow10_pos(37 - k as int);
            }
            p = p / 10;
        }
        k += 1;
    }
    out.push(10u8);
    proof {
        assert(out@ =~= old(out)@ + line39(w)) by {
            assert forall|m: int| 0 <= m < 40 implies
                out@[old(out)@.len() + m] == line39(w)[m] by {
                if m < 39 {
                    assert(out@[old(out)@.len() + m] == digit39(w, m));
                }
            }
        }
    }
}

/// Prints a word sequence as canonical text.
fn words_to_text(ws: &Vec<u128>) -> (r: Vec<u8>)
    ensures
        r@ == spec_text(ws@, 0),
{
    let n = ws.len();
    let mut out: Vec<u8> = Vec::new();
    proof {
        assert(Seq::<u8>::empty() + spec_text(ws@, 0) =~= spec_text(ws@, 0));
    }
    let mut j: usize = 0;
    while j < n
        invariant
            j <= n,
            n == ws@.len(),
            out@ + spec_text(ws@, j as int) == spec_text(ws@, 0),
        decreases n - j,
    {
        let ghost pre = out@;
        emit_line(&mut out, ws[j]);
        proof {
            assert(spec_text(ws@, j as int)
                == line39(ws@[j as int]) + spec_text(ws@, j as int + 1));
            assert(out@ + spec_text(ws@, j as int + 1) =~= pre + spec_text(ws@, j as int));
        }
        j += 1;
    }
    proof {
        assert(spec_text(ws@, n as int) =~= Seq::<u8>::empty());
        assert(out@ + spec_text(ws@, n as int) =~= out@);
    }
    out
}

/// Reads the words back out of canonical text.
fn text_to_words(bytes: &Vec<u8>) -> (r: Option<Vec<u128>>)
    ensures
        match r {
            Some(ws) => parse_text(bytes@, 0) == Some(ws@),
            None => parse_text(bytes@, 0) is None,
        },
{
    let len = bytes.len();
    let mut out: Vec<u128> = Vec::new();
    let mut i: usize = 0;
    proof {
        assert(out@ =~= Seq::<u128>::empty());
    }
    while i < len
        invariant
            i <= len,
            len == bytes@.len(),
            match parse_text(bytes@, i as int) {
                Some(rest) => parse_text(bytes@, 0) == Some(out@ + rest),
                None => parse_text(bytes@, 0) is None,
            },
        decreases len - i,
    {
        if len - i < 40 {
            proof {
                assert(parse_text(bytes@, i as int) is None);
            }
            return None;
        }
        let mut acc: u128 = 0;
        let mut overflow = false;
        let mut k: usize = 0;
        while k < 39
            invariant
                k <= 39,
                i + 40 <= len,
                len == bytes@.len(),
                match parse_text(bytes@, i as int) {
                    Some(rest) => parse_text(bytes@, 0) == Some(out@ + rest),
                    None => parse_text(bytes@, 0) is None,
                },
                forall|m: int| 0 <= m < k ==> is_digit(#[trigger] bytes@[i + m]),
                !overflow ==> acc as int == line_int(bytes@, i as int, k as int),
                overflow ==> line_int(bytes@, i as int, k as int) > u128::MAX as int,
            decreases 39 - k,
        {
            let b = bytes[i + k];
            if b < 48 || b > 57 {
                proof {
                    assert(!is_digit(bytes@[i as int + k as int]));
                    assert(!line_ok(bytes@, i as int));
                    assert(parse_text(bytes@, i as int) is None);
                }
                return None;
            }
            let d = b - 48;
            proof {
                assert(line_int(bytes@, i as int, k as int + 1)
                    == line_int(bytes@, i as int, k as int) * 10 + d);
            }
            if !overflow {
                if acc > (u128::MAX - d as u128) / 10 {
                    proof {
                        lemma_fundamental_div_mod(u128::MAX as int - d as int, 10);
                    }
                    overflow = true;
                } else {
                    acc = acc * 10 + d as u128;
                }
            }
            k += 1;
        }
        if overflow {
            proof {
                lemma_line_int_mono(bytes@, i as int, 39, 39);
                assert(!line_ok(bytes@, i as int));
                assert(parse_text(bytes@, i as int) is None);
            }
            return None;
        }
        if bytes[i + 39] != 10 {
            proof {
                assert(!line_ok(bytes@, i as int));
                assert(parse_text(bytes@, i as int) is None);
            }
            return None;
        }
        let ghost pre = out@;
        proof {
            assert(line_ok(bytes@, i as int));
        }
        out.push(acc);
        proof {
            match parse_text(bytes@, i as int + 40) {
                Some(r2) => {
                    assert(parse_text(bytes@, i as int)
                        == Some(seq![(line_int(bytes@, i as int, 39) as u128)] + r2));
                    assert(pre + (seq![acc] + r2) =~= out@ + r2);
                },
                None => {
                    assert(parse_text(bytes@, i as int) is None);
                },
            }
        }
        i += 40;
    }
    proof {
        assert(parse_text(bytes@, len as int) == Some(Seq::<u128>::empty()));
        assert(out@ + Seq::<u128>::empty() =~= out@);
    }
    Some(out)
}

// ---------- executable structure codec ----------

/// Appends one component's words.
fn emit_comp(ws: &mut Vec<u128>, c: &ComponentValue)
    ensures
        final(ws)@ == old(ws)@ + ser_comp(*c),
{
    match *c {
        ComponentValue::Position2 { x, y } => {
            ws.push(POSITION2_TYPE);
            ws.push(x as u128);
            ws.push(y as u128);
            proof {
                assert(ws@ =~= old(ws)@ + ser_comp(*c));
            }
        },
        ComponentValue::UniformScale2 { scale } => {
            ws.push(UNIFORM_SCALE2_TYPE);
            ws.push(scale as u128);
            proof {
                assert(ws@ =~= old(ws)@ + ser_comp(*c));
            }
        },
        ComponentValue::NonUniformScale2 { scale_x, scale_y } => {
            ws.push(NON_UNIFORM_SCALE2_TYPE);
            ws.push(scale_x as u128);
            ws.push(scale_y as u128);
            proof {
                assert(ws@ =~= old(ws)@ + ser_comp(*c));
            }
        },
        ComponentValue::Rotation2 { angle } => {
            ws.push(ROTATION2_TYPE);
            ws.push(angle as u128);
            proof {
                assert(ws@ =~= old(ws)@ + ser_comp(*c));
            }
        },
        ComponentValue::RigidBodyBallDef { radius, is_static } => {
            ws.push(RIGID_BODY_BALL_DEF_TYPE);
            ws.push(radius as u128);
            ws.push(if is_static { 1 } else { 0 });
            proof {
                assert(ws@ =~= old(ws)@ + ser_comp(*c));
            }
        },
        ComponentValue::RigidBodyBoxDef { half_x, half_y, is_static } => {
            ws.push(RIGID_BODY_BOX_DEF_TYPE);
            ws.push(half_x as u128);
            ws.push(half_y as u128);
            ws.push(if is_static { 1 } else { 0 });
            proof {
                assert(ws@ =~= old(ws)@ + ser_comp(*c));
            }
        },
        ComponentValue::RigidBody { handle } => {
            ws.push(RIGID_BODY_TYPE);
            ws.push(handle as u128);
            proof {
                assert(ws@ =~= old(ws)@ + ser_comp(*c));
            }
        },
    }
}

/// Serializes a cooked prefab to its canonical byte form.
pub fn serialize_cooked(cp: &CookedPrefab) -> (r: Vec<u8>)
    requires
        cp.wf(),
    ensures
        r@ == spec_serialize(cp.world@, cp.entities.keys(), cp.entities.vals()),
{
    let ghost w = cp.world@;
    let mut ws: Vec<u128> = Vec::new();
    let n = cp.world.num_entities();
    ws.push(n as u128);
    proof {
        assert(ws@ + ser_world(w, 0) =~= seq![w.len() as u128] + ser_world(w, 0));
    }
    let mut e: usize = 0;
    while e < n
        invariant
            e <= n,
            n == w.len(),
            w == cp.world@,
            cp.wf(),
            ws@ + ser_world(w, e as int) == seq![w.len() as u128] + ser_world(w, 0),
        decreases n - e,
    {
        let row = cp.world.entity_components(e);
        let ghost pre = ws@;
        ws.push(row.len() as u128);
        proof {
            assert(ws@ + ser_comps(row@, 0) =~= pre + ser_entity(row@));
        }
        let m = row.len();
        let mut ci: usize = 0;
        while ci < m
            invariant
                ci <= m,
                m == row@.len(),
                ws@ + ser_comps(row@, ci as int) == pre + ser_entity(row@),
            decreases m - ci,
        {
            let ghost p2 = ws@;
            emit_comp(&mut ws, &row[ci]);
            proof {
                assert(ser_comps(row@, ci as int)
                    == ser_comp(row@[ci as int]) + ser_comps(row@, ci as int + 1));
                assert(ws@ + ser_comps(row@, ci as int + 1)
                    =~= p2 + ser_comps(row@, ci as int));
            }
            ci += 1;
        }
        proof {
            assert(ser_comps(row@, m as int) =~= Seq::<u128>::empty());
            assert(ws@ + Seq::<u128>::empty() =~= ws@);
            assert(ser_world(w, e as int)
                == ser_entity(w[e as int]) + ser_world(w, e as int + 1));
            assert(ws@ + ser_world(w, e as int + 1) =~= pre + ser_world(w, e as int));
        }
        e += 1;
    }
    proof {
        assert(ser_world(w, n as int) =~= Seq::<u128>::empty());
        assert(ws@ + Seq::<u128>::empty() =~= ws@);
    }
    let ghost keys = cp.entities.keys();
    let ghost vals = cp.entities.vals();
    let ghost head = ws@;
    let nk = cp.entities.len();
    ws.push(nk as u128);
    let ghost pre2 = ws@;
    proof {
        assert(ws@ + ser_ident(keys, vals, 0) =~= pre2 + ser_ident(keys, vals, 0));
    }
    let mut ji: usize = 0;
    while ji < nk
        invariant
            ji <= nk,
            nk == keys.len(),
            keys == cp.entities.keys(),
            vals == cp.entities.vals(),
            cp.wf(),
            ws@ + ser_ident(keys, vals, ji as int) == pre2 + ser_ident(keys, vals, 0),
        decreases nk - ji,
    {
        let kk = cp.entities.key_at(ji);
        let vv = *cp.entities.val_at(ji);
        let ghost p3 = ws@;
        ws.push(kk);
        ws.push(vv as u128);
        proof {
            assert(ser_ident(keys, vals, ji as int)
                == seq![keys[ji as int], vals[ji as int] as u128]
                    + ser_ident(keys, vals, ji as int + 1));
            assert(ws@ + ser_ident(keys, vals, ji as int + 1)
                =~= p3 + ser_ident(keys, vals, ji as int));
        }
        ji += 1;
    }
    proof {
        assert(ser_ident(keys, vals, nk as int) =~= Seq::<u128>::empty());
        assert(ws@ + Seq::<u128>::empty() =~= ws@);
        assert(ws@ =~= ser_cooked(w, keys, vals)) by {
            assert(head == seq![w.len() as u128] + ser_world(w, 0));
            assert(pre2 == head + seq![keys.len() as u128]);
            assert(ws@ == pre2 + ser_ident(keys, vals, 0));
        }
    }
    words_to_text(&ws)
}


/// Strictly increasing adjacent schemas make a sorted component list.
proof fn lemma_adj_sorted(s: Seq<ComponentValue>)
    requires
        forall|m: int| 0 <= m < s.len() - 1 ==>
            spec_type_of(#[trigger] s[m]) < spec_type_of(s[m + 1]),
    ensures
        comps_sorted(s),
{
    assert forall|a: int, b: int| 0 <= a < b < s.len() implies
        spec_type_of(s[a]) < spec_type_of(s[b]) by {
        lemma_chain_lt(s, a, b);
    }
}

/// Transitive chaining of the adjacent order.
proof fn lemma_chain_lt(s: Seq<ComponentValue>, a: int, b: int)
    requires
        forall|m: int| 0 <= m < s.len() - 1 ==>
            spec_type_of(#[trigger] s[m]) < spec_type_of(s[m + 1]),
        0 <= a < b < s.len(),
    ensures
        spec_type_of(s[a]) < spec_type_of(s[b]),
    decreases b - a,
{
    if b > a + 1 {
        lemma_chain_lt(s, a, b - 1);
    }
}

/// One component read at word position `i`.
fn parse_comp_exec(ws: &Vec<u128>, i: usize) -> (r: Option<(ComponentValue, usize)>)
    ensures
        match r {
            Some(ci) => parse_comp(ws@, i as int) == Some((ci.0, ci.1 as int)),
            None => parse_comp(ws@, i as int) is None,
        },
{
    let len = ws.len();
    if i >= len {
        return None;
    }
    let t = ws[i];
    if t == POSITION2_TYPE {
        if len - i >= 3 && ws[i + 1] <= u32::MAX as u128 && ws[i + 2] <= u32::MAX as u128 {
            Some((ComponentValue::Position2 { x: ws[i + 1] as u32, y: ws[i + 2] as u32 }, i + 3))
        } else {
            None
        }
    } else if t == UNIFORM_SCALE2_TYPE {
        if len - i >= 2 && ws[i + 1] <= u32::MAX as u128 {
            Some((ComponentValue::UniformScale2 { scale: ws[i + 1] as u32 }, i + 2))
        } else {
            None
        }
    } else if t == NON_UNIFORM_SCALE2_TYPE {
        if len - i >= 3 && ws[i + 1] <= u32::MAX as u128 && ws[i + 2] <= u32::MAX as u128 {
            Some((ComponentValue::NonUniformScale2 {
                scale_x: ws[i + 1] as u32,
                scale_y: ws[i + 2] as u32,
            }, i + 3))
        } else {
            None
        }
    } else if t == ROTATION2_TYPE {
        if len - i >= 2 && ws[i + 1] <= u32::MAX as u128 {
            Some((ComponentValue::Rotation2 { angle: ws[i + 1] as u32 }, i + 2))
        } else {
            None
        }
    } else if t == RIGID_BODY_BALL_DEF_TYPE {
        if len - i >= 3 && ws[i + 1] <= u32::MAX as u128 && ws[i + 2] <= 1 {
            Some((ComponentValue::RigidBodyBallDef {
                radius: ws[i + 1] as u32,
                is_static: ws[i + 2] == 1,
            }, i + 3))
        } else {
            None
        }
    } else if t == RIGID_BODY_BOX_DEF_TYPE {
        if len - i >= 4 && ws[i + 1] <= u32::MAX as u128 && ws[i + 2] <= u32::MAX as u128
            && ws[i + 3] <= 1 {
            Some((ComponentValue::RigidBodyBoxDef {
                half_x: ws[i + 1] as u32,
                half_y: ws[i + 2] as u32,
                is_static: ws[i + 3] == 1,
            }, i + 4))
        } else {
            None
        }
    } else if t == RIGID_BODY_TYPE {
        if len - i >= 2 && ws[i + 1] <= u64::MAX as u128 {
            Some((ComponentValue::RigidBody { handle: ws[i + 1] as u64 }, i + 2))
        } else {
            None
        }
    } else {
        None
    }
}

/// Deserializes canonical bytes back into a cooked prefab; fails exactly
/// where the byte form is not a canonical cooked prefab.
pub fn deserialize_cooked(bytes: &Vec<u8>) -> (r: Option<CookedPrefab>)
    ensures
        match r {
            Some(cp) => cp.wf() && spec_deserialize(bytes@)
                == Some((cp.world@, cp.entities.keys(), cp.entities.vals())),
            None => spec_deserialize(bytes@) is None,
        },
{
    let ws = match text_to_words(bytes) {
        Some(ws) => ws,
        None => {
            return None;
        },
    };
    if ws.len() < 1 {
        return None;
    }
    let w0 = ws[0];
    if w0 > usize::MAX as u128 {
        return None;
    }
    let n = w0 as usize;
    let mut world = World::new();
    let mut i: usize = 1;
    let mut e: usize = 0;
    proof {
        assert(world@ =~= Seq::<Seq<ComponentValue>>::empty());
    }
    while e < n
        invariant
            e <= n,
            parse_text(bytes@, 0) == Some(ws@),
            n as u128 == ws@[0],
            1 <= ws@.len(),
            i <= ws@.len(),
            world.wf(),
            match parse_world(ws@, i as int, n - e) {
                Some(pw) => parse_world(ws@, 1, n as int) == Some((world@ + pw.0, pw.1)),
                None => parse_world(ws@, 1, n as int) is None,
            },
        decreases n - e,
    {
        if i >= ws.len() || ws[i] > usize::MAX as u128 {
            proof {
                assert(parse_entity(ws@, i as int) is None);
                assert(parse_world(ws@, i as int, n - e) is None);
            }
            return None;
        }
        let cnt = ws[i] as usize;
        let mut row: Vec<ComponentValue> = Vec::new();
        let mut i2: usize = i + 1;
        let mut c2: usize = 0;
        proof {
            assert(row@ =~= Seq::<ComponentValue>::empty());
        }
        while c2 < cnt
            invariant
                c2 <= cnt,
                parse_text(bytes@, 0) == Some(ws@),
                1 <= ws@.len(),
                row@.len() == c2,
                i2 <= ws@.len(),
                i < ws@.len(),
                ws@[i as int] == cnt as u128,
                e < n,
                n as u128 == ws@[0],
                match parse_comps(ws@, i2 as int, cnt - c2) {
                    Some(pc) => parse_comps(ws@, i as int + 1, cnt as int)
                        == Some((row@ + pc.0, pc.1)),
                    None => parse_comps(ws@, i as int + 1, cnt as int) is None,
                },
                match parse_world(ws@, i as int, n - e) {
                    Some(pw) => parse_world(ws@, 1, n as int) == Some((world@ + pw.0, pw.1)),
                    None => parse_world(ws@, 1, n as int) is None,
                },
            decreases cnt - c2,
        {
            match parse_comp_exec(&ws, i2) {
                Some((cv, inext)) => {
                    let ghost prow = row@;
                    row.push(cv);
                    proof {
                        match parse_comps(ws@, inext as int, cnt - c2 - 1) {
                            Some(pc2) => {
                                assert(parse_comps(ws@, i2 as int, cnt - c2)
                                    == Some((seq![cv] + pc2.0, pc2.1)));
                                assert(prow + (seq![cv] + pc2.0) =~= row@ + pc2.0);
                            },
                            None => {
                                assert(parse_comps(ws@, i2 as int, cnt - c2) is None);
                            },
                        }
                    }
                    i2 = inext;
                    proof {
                        assert(i2 <= ws@.len());
                    }
                    c2 += 1;
                },
                None => {
                    proof {
                        assert(parse_comps(ws@, i2 as int, cnt - c2) is None);
                        assert(parse_entity(ws@, i as int) is None);
                        assert(parse_world(ws@, i as int, n - e) is None);
                    }
                    return None;
                },
            }
        }
        // canonical order check
        let rl = row.len();
        let mut m: usize = 1;
        while m < rl
            invariant
                m >= 1,
                parse_text(bytes@, 0) == Some(ws@),
                1 <= ws@.len(),
                rl == row@.len(),
                i < ws@.len(),
                ws@[i as int] == cnt as u128,
                cnt == row@.len(),
                e < n,
                n as u128 == ws@[0],
                parse_comps(ws@, i as int + 1, cnt as int) == Some((row@, i2 as int)),
                forall|x: int| 0 <= x < m - 1 ==>
                    spec_type_of(#[trigger] row@[x]) < spec_type_of(row@[x + 1]),
                match parse_world(ws@, i as int, n - e) {
                    Some(pw) => parse_world(ws@, 1, n as int) == Some((world@ + pw.0, pw.1)),
                    None => parse_world(ws@, 1, n as int) is None,
                },
            decreases rl - m,
        {
            if type_of(&row[m - 1]) >= type_of(&row[m]) {
                proof {
                    assert(!comps_sorted(row@));
                    assert(parse_entity(ws@, i as int) is None);
                    assert(parse_world(ws@, i as int, n - e) is None);
                }
                return None;
            }
            m += 1;
        }
        proof {
            lemma_adj_sorted(row@);
            assert(parse_entity(ws@, i as int) == Some((row@, i2 as int)));
        }
        let ghost pworld = world@;
        let ghost prow2 = row@;
        let _eid = world.push_entity(row);
        proof {
            match parse_world(ws@, i2 as int, n - e - 1) {
                Some(pw2) => {
                    assert(parse_world(ws@, i as int, n - e)
                        == Some((seq![prow2] + pw2.0, pw2.1)));
                    assert(pworld + (seq![prow2] + pw2.0) =~= world@ + pw2.0);
                },
                None => {
                    assert(parse_world(ws@, i as int, n - e) is None);
                },
            }
        }
        i = i2;
        e += 1;
    }
    proof {
        assert(parse_world(ws@, i as int, 0) == Some((Seq::<Seq<ComponentValue>>::empty(), i as int)));
        assert(world@ + Seq::<Seq<ComponentValue>>::empty() =~= world@);
        assert(parse_world(ws@, 1, n as int) == Some((world@, i as int)));
    }
    // identity section
    if i >= ws.len() || ws[i] > usize::MAX as u128 {
        return None;
    }
    let kc = ws[i] as usize;
    let ghost icount = i as int;
    let mut kvec: Vec<u128> = Vec::new();
    let mut vvec: Vec<usize> = Vec::new();
    let nents = world.num_entities();
    i = i + 1;
    let mut q: usize = 0;
    proof {
        assert(kvec@ =~= Seq::<u128>::empty());
        assert(vvec@ =~= Seq::<usize>::empty());
    }
    while q < kc
        invariant
            q <= kc,
            parse_text(bytes@, 0) == Some(ws@),
            1 <= ws@.len(),
            kvec@.len() == q,
            vvec@.len() == q,
            i <= ws@.len(),
            nents == world@.len(),
            world.wf(),
            forall|x: int| 0 <= x < q ==> (#[trigger] vvec@[x]) < world@.len(),
            icount < ws@.len(),
            ws@[icount] == kc as u128,
            n as u128 == ws@[0],
            parse_world(ws@, 1, n as int) == Some((world@, icount)),
            match parse_ident(ws@, i as int, kc - q, world@.len() as int) {
                Some(pi) => parse_ident(ws@, icount + 1, kc as int, world@.len() as int)
                    == Some((kvec@ + pi.0, vvec@ + pi.1, pi.2)),
                None => parse_ident(ws@, icount + 1, kc as int, world@.len() as int) is None,
            },
        decreases kc - q,
    {
        if ws.len() - i < 2 || ws[i + 1] > usize::MAX as u128
            || ws[i + 1] as usize >= nents {
            proof {
                assert(parse_ident(ws@, i as int, kc - q, world@.len() as int) is None);
            }
            return None;
        }
        let key = ws[i];
        let v = ws[i + 1] as usize;
        let ghost pk = kvec@;
        let ghost pv = vvec@;
        kvec.push(key);
        vvec.push(v);
        proof {
            match parse_ident(ws@, i as int + 2, kc - q - 1, world@.len() as int) {
                Some(pi2) => {
                    assert(parse_ident(ws@, i as int, kc - q, world@.len() as int)
                        == Some((seq![key] + pi2.0, seq![v] + pi2.1, pi2.2)));
                    assert(pk + (seq![key] + pi2.0) =~= kvec@ + pi2.0);
                    assert(pv + (seq![v] + pi2.1) =~= vvec@ + pi2.1);
                },
                None => {
                    assert(parse_ident(ws@, i as int, kc - q, world@.len() as int) is None);
                },
            }
        }
        i = i + 2;
        q += 1;
    }
    proof {
        assert(parse_ident(ws@, i as int, 0, world@.len() as int)
            == Some((Seq::<u128>::empty(), Seq::<usize>::empty(), i as int)));
        assert(kvec@ + Seq::<u128>::empty() =~= kvec@);
        assert(vvec@ + Seq::<usize>::empty() =~= vvec@);
        assert(parse_ident(ws@, icount + 1, kc as int, world@.len() as int)
            == Some((kvec@, vvec@, i as int)));
    }
    if i != ws.len() {
        return None;
    }
    // distinct authored ids
    let kl = kvec.len();
    let mut a: usize = 0;
    while a < kl
        invariant
            a <= kl,
            parse_text(bytes@, 0) == Some(ws@),
            1 <= ws@.len(),
            n as u128 == ws@[0],
            0 <= icount < ws@.len(),
            ws@[icount] == kc as u128,
            parse_world(ws@, 1, n as int) == Some((world@, icount)),
            parse_ident(ws@, icount + 1, kc as int, world@.len() as int)
                == Some((kvec@, vvec@, ws@.len() as int)),
            kl == kvec@.len(),
            forall|x: int, y: int| 0 <= x < a && x < y < kvec@.len() ==> kvec@[x] != kvec@[y],
        decreases kl - a,
    {
        let mut b: usize = a + 1;
        while b < kl
            invariant
                a < b <= kl || (a + 1 == b && b > kl),
                a < kl,
                parse_text(bytes@, 0) == Some(ws@),
                1 <= ws@.len(),
                n as u128 == ws@[0],
                0 <= icount < ws@.len(),
                ws@[icount] == kc as u128,
                parse_world(ws@, 1, n as int) == Some((world@, icount)),
                parse_ident(ws@, icount + 1, kc as int, world@.len() as int)
                    == Some((kvec@, vvec@, ws@.len() as int)),
                kl == kvec@.len(),
                forall|y: int| a < y < b ==> kvec@[a as int] != kvec@[y],
            decreases kl - b,
        {
            if kvec[a] == kvec[b] {
                proof {
                    assert(!kvec@.no_duplicates());
                }
                return None;
            }
            b += 1;
        }
        a += 1;
    }
    proof {
        assert(kvec@.no_duplicates());
    }
    // build the identity table
    let mut ident: UuidMap<usize> = UuidMap::new();
    let mut t: usize = 0;
    while t < kl
        invariant
            t <= kl,
            kl == kvec@.len(),
            vvec@.len() == kvec@.len(),
            kvec@.no_duplicates(),
            ident.wf(),
            ident.keys() == kvec@.subrange(0, t as int),
            ident.vals() == vvec@.subrange(0, t as int),
        decreases kl - t,
    {
        proof {
            assert(!ident.contains_spec(kvec@[t as int])) by {
                if ident.keys().contains(kvec@[t as int]) {
                    let x = choose|x: int| 0 <= x < ident.keys().len()
                        && ident.keys()[x] == kvec@[t as int];
                    assert(kvec@[x] == kvec@[t as int]);
                }
            }
        }
        ident.insert(kvec[t], vvec[t]);
        proof {
            assert(ident.keys() =~= kvec@.subrange(0, t as int + 1));
            assert(ident.vals() =~= vvec@.subrange(0, t as int + 1));
        }
        t += 1;
    }
    proof {
        assert(ident.keys() =~= kvec@);
        assert(ident.vals() =~= vvec@);
        assert(parse_cooked_words(ws@) == Some((world@, kvec@, vvec@)));
    }
    let cp = CookedPrefab { world, entities: ident };
    proof {
        assert(cp.wf());
    }
    Some(cp)
}

} // verus!
