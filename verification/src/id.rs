use vstd::prelude::*;

verus! {

/// The version field (bits 76 to 79) of a UUID held as a big-endian `u128`.
pub open spec fn uuid_version(bits: u128) -> u128 {
    (bits >> 76u128) & 0xfu128
}

/// The variant field (bits 62 and 63) of a UUID held as a big-endian `u128`.
pub open spec fn uuid_variant(bits: u128) -> u128 {
    (bits >> 62u128) & 0x3u128
}

/// Calls `uuid::Uuid::now_v7` and hands back the UUID as its big-endian
/// `u128` (`Uuid::as_u128`). The timestamp and random bits depend on the
/// clock and on chance, so the contract states only what holds of every
/// outcome: the uuid source writes the version nibble 7 and the RFC 4122
/// variant bits `10` into every version-7 UUID.
#[verifier::external_body]
fn uuid_now_v7_bits() -> (bits: u128)
    ensures
        uuid_version(bits) == 7,
        uuid_variant(bits) == 2,
{
    uuid::Uuid::now_v7().as_u128()
}

/// Identifies a game object; two ids are equal exactly when their UUIDs are.
#[derive(Debug, Clone, Copy, PartialEq, Eq, Hash, Structural)]
pub struct Id {
    id: u128,
}

impl Id {
    /// The UUID of this id, as a big-endian `u128`.
    pub closed spec fn bits(self) -> u128 {
        self.id
    }

    /// A fresh id made from a time-ordered version-7 UUID.
    pub fn new() -> (r: Self)
        ensures
            uuid_version(r.bits()) == 7,
            uuid_variant(r.bits()) == 2,
    {
        Id { id: uuid_now_v7_bits() }
    }
}

impl Default for Id {
    fn default() -> (r: Self)
        ensures
            uuid_version(r.bits()) == 7,
            uuid_variant(r.bits()) == 2,
    {
        Self::new()
    }
}

} // verus!
