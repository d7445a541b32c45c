//! Regions of physical memory, what they hold, and how they are ranked and
//! ordered.

use vstd::prelude::*;

verus! {

/// What a stretch of physical memory holds.
///
/// The variants are listed from the weakest claim on memory to the
/// strongest; see [`Type::rank`].
#[derive(Clone, Copy, Debug, PartialEq, Eq, Structural)]
pub enum Type {
    /// Usable memory.
    RAM,
    /// Memory that the firmware keeps for itself.
    Reserved,
    /// Firmware tables that may be reclaimed once they have been read.
    ACPI,
    /// Memory that must survive a sleep state.
    NonVolatile,
    /// Memory that the firmware found to be broken.
    Defective,
    /// The loaded image of the running loader.
    Loader,
    /// A payload that the boot loader placed in memory.
    Module,
}

impl Type {
    /// The rank of a type when two regions claim the same address: the
    /// higher rank keeps the address.
    ///
    /// What the kernel itself has claimed (`Loader`, `Module`) outranks
    /// everything the firmware reports, and among the firmware's types any
    /// restriction outranks plain `RAM`.
    pub open spec fn rank(self) -> nat {
        match self {
            Type::RAM => 0,
            Type::Reserved => 1,
            Type::ACPI => 2,
            Type::NonVolatile => 3,
            Type::Defective => 4,
            Type::Loader => 5,
            Type::Module => 6,
        }
    }

    /// Whether the firmware's memory map can report this type.
    pub open spec fn is_firmware(self) -> bool {
        self.rank() < Type::Loader.rank()
    }

    /// Whether this type marks memory that the kernel has claimed for
    /// itself.
    pub open spec fn is_claimed(self) -> bool {
        self == Type::Loader || self == Type::Module
    }

    /// Computes [`Type::rank`].
    pub fn priority(self) -> (p: u8)
        ensures
            p as nat == self.rank(),
    {
        match self {
            Type::RAM => 0,
            Type::Reserved => 1,
            Type::ACPI => 2,
            Type::NonVolatile => 3,
            Type::Defective => 4,
            Type::Loader => 5,
            Type::Module => 6,
        }
    }
}

/// Two types of the same rank are the same type.
pub proof fn lemma_rank_injective(a: Type, b: Type)
    requires
        a.rank() == b.rank(),
    ensures
        a == b,
{
}

/// The addresses from `start` up to, but not including, `end`, and what
/// they hold.
///
/// A region with `end <= start` holds no address.
#[derive(Clone, Copy, Debug, PartialEq, Eq, Structural)]
pub struct Region {
    pub start: u64,
    pub end: u64,
    pub typ: Type,
}

impl Region {
    /// Whether address `x` lies in the region.
    pub open spec fn covers(self, x: int) -> bool {
        self.start <= x < self.end
    }

    /// Whether the region holds no address.
    pub open spec fn is_void(self) -> bool {
        self.end <= self.start
    }

    /// The order in which regions are walked: by start address; among equal
    /// starts the higher rank first; among equal ranks the longer region
    /// first.
    pub open spec fn precedes(self, other: Region) -> bool {
        self.start < other.start || (self.start == other.start && (self.typ.rank()
            > other.typ.rank() || (self.typ.rank() == other.typ.rank() && self.end >= other.end)))
    }

    /// Whether `self` keeps an address that both regions cover: the higher
    /// rank does, among equal ranks the later start, and among equal starts
    /// the shorter region.
    pub open spec fn dominates(self, other: Region) -> bool {
        self.typ.rank() > other.typ.rank() || (self.typ.rank() == other.typ.rank() && (self.start
            > other.start || (self.start == other.start && self.end <= other.end)))
    }

    /// Computes [`Region::precedes`].
    pub fn sorts_before(&self, other: &Region) -> (b: bool)
        ensures
            b == self.precedes(*other),
    {
        if self.start != other.start {
            self.start < other.start
        } else {
            let mine: u8 = self.typ.priority();
            let theirs: u8 = other.typ.priority();
            mine > theirs || (mine == theirs && self.end >= other.end)
        }
    }
}

/// `precedes` is a total order on regions: any two regions are comparable,
/// two regions that precede each other are equal, and the order is
/// transitive.
pub proof fn lemma_precedes_total_order(a: Region, b: Region, c: Region)
    ensures
        a.precedes(b) || b.precedes(a),
        a.precedes(b) && b.precedes(a) ==> a == b,
        a.precedes(b) && b.precedes(c) ==> a.precedes(c),
{
    if a.precedes(b) && b.precedes(a) {
        lemma_rank_injective(a.typ, b.typ);
    }
}

/// `dominates` is a total order on regions.
pub proof fn lemma_dominates_total_order(a: Region, b: Region, c: Region)
    ensures
        a.dominates(b) || b.dominates(a),
        a.dominates(b) && b.dominates(a) ==> a == b,
        a.dominates(b) && b.dominates(c) ==> a.dominates(c),
{
    if a.dominates(b) && b.dominates(a) {
        lemma_rank_injective(a.typ, b.typ);
    }
}

} // verus!
