//! Broadcast envelopes and the delivery filter.
//!
//! The fan-out channel itself is plain infrastructure around the library;
//! what is specified here is the envelope shape and the one decision every
//! receiving connection makes: keep an envelope or drop it silently.

use vstd::prelude::*;

verus! {

/// Who an envelope is for.
#[derive(Clone, Copy, PartialEq, Eq, Structural, Debug)]
pub enum Target {
    /// Every connection in the room.
    All,
    /// Exactly the connection with this identifier.
    One(i64),
}

/// A (target, payload) pair travelling over a room's fan-out channel.
pub struct BroadcastMsg<T> {
    pub target: Target,
    pub content: T,
}

impl<T: Clone> Clone for BroadcastMsg<T> {
    fn clone(&self) -> (r: Self)
        ensures
            r.target == self.target,
    {
        BroadcastMsg { target: self.target, content: self.content.clone() }
    }
}

/// Whether the connection with identifier `id` keeps an envelope addressed
/// to `target`.
pub open spec fn spec_should_deliver(target: Target, id: i64) -> bool {
    match target {
        Target::All => true,
        Target::One(t) => t == id,
    }
}

/// LAW: an envelope addressed to the whole room is kept by every
/// connection; one addressed to a single connection is kept by that
/// connection alone.
pub proof fn lemma_delivery_filter(id: i64, other: i64)
    ensures
        spec_should_deliver(Target::All, id),
        spec_should_deliver(Target::One(id), id),
        id != other ==> !spec_should_deliver(Target::One(other), id),
{
}

/// The receiving loop's filter: keep an envelope exactly when it is for
/// everyone or for this connection.
pub fn should_deliver(target: &Target, id: i64) -> (r: bool)
    ensures
        r == spec_should_deliver(*target, id),
{
    match target {
        Target::All => true,
        Target::One(t) => *t == id,
    }
}

} // verus!
