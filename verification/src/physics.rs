//! The modeled physics subsystem and the one-way release channel.
//!
//! The cooking pipeline does not simulate physics; it only allocates
//! bodies and colliders while spawn transforms run, and promises that a
//! cooked world's teardown releases every allocated body through a one-way
//! notification channel.  Bodies and colliders are therefore modeled as
//! plain records owned by a `PhysicsWorld`; the channel is the real
//! `crossbeam_channel` one, behind trusted wrappers.

use vstd::prelude::*;

verus! {

/// One allocated body: the static ground body, or a dynamic rigid body at
/// its spawn position (fixed-point milli-units).
#[derive(Clone, Copy, Debug, PartialEq, Eq, Structural)]
pub struct BodyRecord {
    /// A static body is attached to the ground and carries no position of
    /// its own.
    pub is_ground: bool,
    pub x: u32,
    pub y: u32,
}

/// A collision shape, in fixed-point milli-units.
#[derive(Clone, Copy, Debug, PartialEq, Eq, Structural)]
pub enum ShapeRecord {
    Ball { radius: u64 },
    Box { half_x: u64, half_y: u64 },
}

/// One allocated collider, attached to a body; for a static body the
/// offset carries the spawn position.
#[derive(Clone, Copy, Debug, PartialEq, Eq, Structural)]
pub struct ColliderRecord {
    pub shape: ShapeRecord,
    pub body: u64,
    pub offset_x: u32,
    pub offset_y: u32,
}

/// The body and collider sets of the physics subsystem, as the cooking
/// pipeline sees them.  A handle is an index into `bodies`.
pub struct PhysicsWorld {
    pub bodies: Vec<BodyRecord>,
    pub colliders: Vec<ColliderRecord>,
}

impl PhysicsWorld {
    /// An empty physics world.
    pub fn new() -> (r: Self)
        ensures
            r.bodies@ == Seq::<BodyRecord>::empty(),
            r.colliders@ == Seq::<ColliderRecord>::empty(),
    {
        PhysicsWorld { bodies: Vec::new(), colliders: Vec::new() }
    }

    /// Allocates one body and hands its handle out.
    pub fn allocate_body(&mut self, b: BodyRecord) -> (h: u64)
        ensures
            final(self).bodies@ == old(self).bodies@.push(b),
            final(self).colliders@ == old(self).colliders@,
            h == old(self).bodies@.len(),
    {
        let h = self.bodies.len() as u64;
        self.bodies.push(b);
        h
    }

    /// Allocates one collider attached to an already-allocated body.
    pub fn allocate_collider(&mut self, c: ColliderRecord)
        requires
            c.body < old(self).bodies@.len(),
        ensures
            final(self).colliders@ == old(self).colliders@.push(c),
            final(self).bodies@ == old(self).bodies@,
    {
        self.colliders.push(c);
    }
}

#[verifier::external_type_specification]
#[verifier::external_body]
#[verifier::reject_recursive_types(T)]
pub struct ExSender<T>(crossbeam_channel::Sender<T>);

#[verifier::external_type_specification]
#[verifier::external_body]
#[verifier::reject_recursive_types(T)]
pub struct ExReceiver<T>(crossbeam_channel::Receiver<T>);

/// Relies on `crossbeam_channel::unbounded`: a channel of unbounded
/// capacity whose receiver yields the sent messages.
#[verifier::external_body]
pub fn release_channel() -> (crossbeam_channel::Sender<u64>, crossbeam_channel::Receiver<u64>) {
    crossbeam_channel::unbounded()
}

/// Relies on `crossbeam_channel::Sender::send`: queues the message, or
/// reports failure when every receiver is gone.  Nothing can be promised
/// about the result: it depends on the other endpoint.
#[verifier::external_body]
pub(crate) fn send_release(tx: &crossbeam_channel::Sender<u64>, handle: u64) -> (delivered: bool) {
    tx.send(handle).is_ok()
}

/// Relies on `crossbeam_channel::Receiver::try_recv`: takes one queued
/// message if any is waiting.  Nothing can be promised about the result:
/// it depends on what was sent in this process so far.
#[verifier::external_body]
pub fn try_recv_release(rx: &crossbeam_channel::Receiver<u64>) -> (r: Option<u64>) {
    rx.try_recv().ok()
}

} // verus!
