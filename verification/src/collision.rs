use crate::id::Id;
use vstd::prelude::*;

verus! {

/// Names one collider: the collider's own key within its object, and the
/// id of the object that owns it.
#[derive(Debug, Clone, Copy, PartialEq, Eq, Hash, Structural)]
pub struct ColliderKey {
    pub key: u32,
    pub id: Id,
}

} // verus!
