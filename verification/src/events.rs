use crate::collision::ColliderKey;
use crate::id::Id;
use vstd::prelude::*;

verus! {

/// Whether a body entered or left a sensor.
#[derive(Debug, Clone, Copy, PartialEq, Eq, Structural)]
pub enum TriggerKind {
    Enter,
    Exit,
}

/// A body (`owner`) entered or left the sensor collider `sensor`.
#[derive(Debug, Clone, Copy, PartialEq, Eq, Structural)]
pub struct TriggerEvent {
    pub owner: Id,
    pub sensor: ColliderKey,
    pub kind: TriggerKind,
}

/// Carries one object to be spawned; the first `take` hands it out and
/// every later one finds nothing.
pub struct SpawnEvent<T> {
    payload: Option<T>,
}

impl<T> SpawnEvent<T> {
    /// What the event still carries.
    pub closed spec fn payload(self) -> Option<T> {
        self.payload
    }

    /// An event carrying `obj`.
    pub fn new(obj: T) -> (r: Self)
        ensures
            r.payload() == Some(obj),
    {
        SpawnEvent { payload: Some(obj) }
    }

    /// Hands out what the event carries and leaves it empty.
    pub fn take(&mut self) -> (r: Option<T>)
        ensures
            r == old(self).payload(),
            final(self).payload() == None::<T>,
    {
        self.payload.take()
    }
}

} // verus!
