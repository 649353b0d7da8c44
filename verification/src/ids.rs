//! Identifiers of partitions and of elements.
//!
//! An element identifier has 64 bits. Its upper 40 bits are the number of the
//! partition that owns the element, its lower 24 bits number the element
//! within that partition.

use vstd::prelude::*;

verus! {

/// Number of element identifiers in each partition: 2 to the power 24.
pub const ELTS_PER_PART: u64 = 0x100_0000;

/// The largest partition number: 2 to the power 40, less one.
pub const MAX_PART_NUM: u64 = 0xFF_FFFF_FFFF;

/// The partition bits of an element identifier: the identifier with its
/// lower 24 bits cleared.
pub open spec fn part_bits(id: u64) -> u64 {
    (id - id % ELTS_PER_PART) as u64
}

/// Identifier of a partition: its number in the upper 40 bits.
#[derive(Clone, Copy, Debug, PartialEq, Eq, Structural, Hash)]
pub struct PartId {
    pub id: u64,
}

/// Identifier of an element.
#[derive(Clone, Copy, Debug, PartialEq, Eq, Structural, Hash)]
pub struct EltId {
    pub id: u64,
}

impl PartId {
    /// A partition identifier is a number from 1 to `MAX_PART_NUM`, shifted
    /// into the upper 40 bits.
    pub open spec fn wf(self) -> bool {
        self.id != 0 && self.id % ELTS_PER_PART == 0
    }

    /// The partition's number.
    pub open spec fn num(self) -> u64 {
        self.id / ELTS_PER_PART
    }

    /// The partition with number `n`.
    pub fn from_num(n: u64) -> (p: PartId)
        requires
            1 <= n <= MAX_PART_NUM,
        ensures
            p.wf(),
            p.num() == n,
            p.id == n * ELTS_PER_PART,
    {
        PartId { id: n * ELTS_PER_PART }
    }

    /// The partition whose identifier, already shifted, is `id`; `None` where
    /// `id` is no partition identifier.
    pub fn try_from(id: u64) -> (r: Option<PartId>)
        ensures
            r is Some <==> (PartId { id }).wf(),
            r matches Some(p) ==> p.id == id,
    {
        if id != 0 && id % ELTS_PER_PART == 0 {
            Some(PartId { id })
        } else {
            None
        }
    }

    /// The partition's number.
    pub fn into_num(self) -> (n: u64)
        ensures
            n == self.num(),
    {
        self.id / ELTS_PER_PART
    }

    /// The identifier, shifted into the upper 40 bits.
    pub fn into_raw(self) -> (n: u64)
        ensures
            n == self.id,
    {
        self.id
    }

    /// The identifier of element number `n` of this partition.
    pub fn elt_id(self, n: u32) -> (e: EltId)
        requires
            self.wf(),
            n < ELTS_PER_PART,
        ensures
            e.id == self.id + n,
            part_bits(e.id) == self.id,
            e.seq() == n,
    {
        EltId { id: self.id + n as u64 }
    }

    /// Whether the element `id` belongs to this partition.
    pub fn owns(self, id: EltId) -> (r: bool)
        ensures
            r == (part_bits(id.id) == self.id),
    {
        id.id - id.id % ELTS_PER_PART == self.id
    }
}

impl EltId {
    /// The element's number within its partition.
    pub open spec fn seq(self) -> u64 {
        self.id % ELTS_PER_PART
    }

    /// The element with the raw identifier `id`.
    pub fn from_raw(id: u64) -> (e: EltId)
        ensures
            e.id == id,
    {
        EltId { id }
    }

    /// The raw identifier.
    pub fn into_raw(self) -> (n: u64)
        ensures
            n == self.id,
    {
        self.id
    }

    /// The partition bits of the identifier.
    pub fn part_bits(self) -> (n: u64)
        ensures
            n == part_bits(self.id),
    {
        self.id - self.id % ELTS_PER_PART
    }

    /// The element's number within its partition.
    pub fn seq_num(self) -> (n: u32)
        ensures
            n == self.seq(),
    {
        (self.id % ELTS_PER_PART) as u32
    }
}

} // verus!
