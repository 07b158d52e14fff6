use vstd::prelude::*;

verus! {

/// A handle to an entity of the table: the table's index and generation packed into
/// one integer, the generation in the high half and the index in the low half.
///
/// A handle whose entity has been despawned never resolves again, since the table
/// issues a fresh generation whenever it reuses an index.
#[derive(Clone, Copy, Debug, PartialEq, Eq, Structural, Hash, PartialOrd, Ord)]
pub struct Entity {
    pub bits: u64,
}

impl Entity {
    /// The handle with the given packed representation.
    pub fn from_bits(bits: u64) -> (r: Entity)
        ensures
            r.bits == bits,
    {
        Entity { bits }
    }

    /// The packed representation of this handle.
    pub fn to_bits(self) -> (r: u64)
        ensures
            r == self.bits,
    {
        self.bits
    }
}

/// Why an operation on a hierarchy failed.
#[derive(Clone, Copy, Debug, PartialEq, Eq, Structural)]
pub enum HierarchyError {
    /// The handle does not resolve to a live entity.
    NoSuchEntity(Entity),
    /// The entity is live but lacks the `Parent` or `Child` component the operation needs.
    MissingComponent(Entity),
}

} // verus!
