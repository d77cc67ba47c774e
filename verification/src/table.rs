//! Page tables, table slots, valid entries, and entry flag bits.
//!
//! Both supported paging schemes share one 64-bit entry encoding: flag bits
//! in the low byte, the physical page number in bits 10..54. A slot is any
//! row of a table and may be invalid; an entry is the content of a slot
//! whose valid bit is set. An entry is a leaf exactly when any of its
//! read/write/execute bits is set; otherwise it points to a child table.
use vstd::prelude::*;

verus! {

/// Flag bits of a page-table entry: valid, read, write, execute, user,
/// global, accessed, dirty, from the lowest bit up.
#[derive(Copy, Clone, PartialEq, Eq, Structural, Debug)]
pub struct Sv39Flags(pub u8);

impl Sv39Flags {
    /// V: the entry is valid.
    pub fn valid() -> (r: Self)
        ensures
            r.0 == 1u8,
    {
        Sv39Flags(1)
    }

    /// R: readable.
    pub fn readable() -> (r: Self)
        ensures
            r.0 == 2u8,
    {
        Sv39Flags(2)
    }

    /// W: writable.
    pub fn writable() -> (r: Self)
        ensures
            r.0 == 4u8,
    {
        Sv39Flags(4)
    }

    /// X: executable.
    pub fn executable() -> (r: Self)
        ensures
            r.0 == 8u8,
    {
        Sv39Flags(8)
    }

    /// U: accessible from user mode.
    pub fn user() -> (r: Self)
        ensures
            r.0 == 16u8,
    {
        Sv39Flags(16)
    }

    /// G: global mapping.
    pub fn global() -> (r: Self)
        ensures
            r.0 == 32u8,
    {
        Sv39Flags(32)
    }

    /// A: accessed.
    pub fn accessed() -> (r: Self)
        ensures
            r.0 == 64u8,
    {
        Sv39Flags(64)
    }

    /// D: dirty.
    pub fn dirty() -> (r: Self)
        ensures
            r.0 == 128u8,
    {
        Sv39Flags(128)
    }

    /// The raw flag byte.
    pub fn bits(&self) -> (r: u8)
        ensures
            r == self.0,
    {
        self.0
    }

    /// The union of two flag sets.
    pub fn union(self, other: Self) -> (r: Self)
        ensures
            r.0 == (self.0 | other.0),
    {
        Sv39Flags(self.0 | other.0)
    }

    /// Whether every flag of `other` is also set in `self`.
    pub fn contains(self, other: Self) -> (r: bool)
        ensures
            r == ((self.0 & other.0) == other.0),
    {
        (self.0 & other.0) == other.0
    }

    /// Whether any flag of `other` is set in `self`.
    pub fn intersects(self, other: Self) -> (r: bool)
        ensures
            r == ((self.0 & other.0) != 0),
    {
        (self.0 & other.0) != 0
    }
}

/// Whether a raw slot value has its valid bit set.
pub open spec fn spec_slot_is_valid(bits: u64) -> bool {
    bits & 1 == 1
}

/// The physical page number stored in an entry.
pub open spec fn spec_entry_ppn(bits: u64) -> u64 {
    (bits >> 10) & 0xFFF_FFFF_FFFFu64
}

/// The flag byte stored in an entry.
pub open spec fn spec_entry_flags(bits: u64) -> u8 {
    (bits & 0xFF) as u8
}

/// Whether an entry terminates translation at its level: any of the
/// read/write/execute bits is set.
pub open spec fn spec_entry_is_leaf(bits: u64) -> bool {
    bits & 0xE != 0
}

/// The raw value encoding a physical page number and a flag byte.
pub open spec fn spec_entry_encode(ppn: u64, flags: u8) -> u64 {
    (ppn << 10) | (flags as u64)
}

/// Writing an entry and reading it back returns the page number and flags
/// that were written, for any page number the architecture can encode.
pub proof fn lemma_entry_encode_decode(ppn: u64, flags: u8)
    requires
        ppn < 0x1000_0000_0000,
    ensures
        spec_entry_ppn(spec_entry_encode(ppn, flags)) == ppn,
        spec_entry_flags(spec_entry_encode(ppn, flags)) == flags,
        spec_slot_is_valid(spec_entry_encode(ppn, flags)) == (flags & 1 == 1),
        spec_entry_is_leaf(spec_entry_encode(ppn, flags)) == (flags & 0xE != 0),
{
    assert(((ppn << 10) | (flags as u64)) >> 10 & 0xFFF_FFFF_FFFFu64 == ppn) by (bit_vector)
        requires
            ppn < 0x1000_0000_0000,
    ;
    assert((((ppn << 10) | (flags as u64)) & 0xFF) as u8 == flags) by (bit_vector);
    assert((((ppn << 10) | (flags as u64)) & 1 == 1) == (flags & 1 == 1)) by (bit_vector);
    assert((((ppn << 10) | (flags as u64)) & 0xE != 0) == (flags & 0xE != 0)) by (bit_vector);
}

/// A possibly-invalid row of a page table.
#[derive(Copy, Clone, PartialEq, Eq, Structural, Debug)]
pub struct Sv39PageSlot {
    pub bits: u64,
}

/// A row of a page table whose valid bit is set.
#[derive(Copy, Clone, PartialEq, Eq, Structural, Debug)]
pub struct Sv39PageEntry {
    pub bits: u64,
}

impl Sv39PageEntry {
    /// The physical page number this entry maps or points to.
    pub fn ppn(&self) -> (r: crate::addr::PhysPageNum)
        ensures
            r.0 == spec_entry_ppn(self.bits),
    {
        crate::addr::PhysPageNum((self.bits >> 10) & 0xFFF_FFFF_FFFF)
    }

    /// The flag byte of this entry.
    pub fn flags(&self) -> (r: Sv39Flags)
        ensures
            r.0 == spec_entry_flags(self.bits),
    {
        Sv39Flags((self.bits & 0xFF) as u8)
    }

    /// Overwrite this entry with the given page number and flags.
    pub fn write_ppn_flags(&mut self, ppn: crate::addr::PhysPageNum, flags: Sv39Flags)
        requires
            ppn.0 < 0x1000_0000_0000,
        ensures
            final(self).bits == spec_entry_encode(ppn.0, flags.0),
    {
        self.bits = (ppn.0 << 10) | (flags.0 as u64);
    }
}

/// One page table: a fixed number of slots, all held in memory owned by
/// the address space that allocated the table's frame.
#[derive(Debug)]
pub struct Sv39PageTable {
    pub slots: Vec<Sv39PageSlot>,
}

impl Sv39PageTable {
    /// The raw slot values of the table, in index order.
    pub open spec fn bits_seq(self) -> Seq<u64> {
        self.slots@.map_values(|s: Sv39PageSlot| s.bits)
    }

    /// A freshly initialized table of `len` slots, every slot invalid.
    pub fn new_all_invalid(len: usize) -> (r: Self)
        ensures
            r.bits_seq().len() == len,
            forall|i: int| 0 <= i < len ==> r.bits_seq()[i] == 0u64,
    {
        let mut slots: Vec<Sv39PageSlot> = Vec::new();
        let mut k: usize = 0;
        while k < len
            invariant
                k <= len,
                slots@.len() == k,
                forall|i: int| 0 <= i < k ==> slots@[i].bits == 0u64,
            decreases len - k,
        {
            slots.push(Sv39PageSlot { bits: 0 });
            k = k + 1;
        }
        Sv39PageTable { slots }
    }

    /// Read the raw value of one slot.
    pub fn slot_bits(&self, idx: usize) -> (r: u64)
        requires
            idx < self.bits_seq().len(),
        ensures
            r == self.bits_seq()[idx as int],
    {
        self.slots[idx].bits
    }

    /// Overwrite one slot with a raw value.
    pub fn write_slot(&mut self, idx: usize, bits: u64)
        requires
            idx < old(self).bits_seq().len(),
        ensures
            final(self).bits_seq() =~= old(self).bits_seq().update(idx as int, bits),
    {
        self.slots[idx] = Sv39PageSlot { bits };
    }
}

} // verus!
