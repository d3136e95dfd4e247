//! AArch64 translation-table entries and tables.
use vstd::prelude::*;
use crate::addr::{PhysAddr, Addr};

verus! {

/// Output-address bits of an entry.
pub const ADDR_MASK: u64 = 0x0000_ffff_ffff_f000;

/// Attribute bits of an entry.
pub const PGFLAG_MASK: u64 = 0xffff_0000_0000_0fff;

/// The entry is valid.
pub const VALID: u64 = 1;

/// Set: the entry points to a table (or, at the last level, a page);
/// clear: the entry maps a block.
pub const TABLE_OR_BLOCK: u64 = 2;

/// Memory-attribute index field, bits 2 to 4.
pub const ATTR_INDEX_SHIFT: u64 = 2;

/// Access permission: read-write at EL0 and above.
pub const AP_EL0_RW_ELX_RW: u64 = 0b01 << 6;

/// Access permission: read-only at EL0 and above.
pub const AP_EL0_OR_ELX_OR: u64 = 0b11 << 6;

/// Inner shareable.
pub const SH_INNERSHARE: u64 = 0b11 << 8;

/// Access flag.
pub const AF: u64 = 1 << 10;

/// Privileged execute-never.
pub const PXN: u64 = 1 << 53;

/// Unprivileged execute-never.
pub const UXN: u64 = 1 << 54;

/// Number of entries in a table.
pub const ENTRY_COUNT: usize = 512;

/// A set of entry attribute bits, merged into entries as a whole.
#[derive(Clone, Copy, PartialEq, Eq, Debug)]
pub struct PageTableFlagsField {
    pub value: u64,
}

impl PageTableFlagsField {
    /// The attribute bits `value`.
    pub fn new(value: u64) -> (r: PageTableFlagsField)
        ensures
            r.value == value,
    {
        PageTableFlagsField { value }
    }

    /// Both sets of bits together.
    pub fn plus(&self, other: PageTableFlagsField) -> (r: PageTableFlagsField)
        ensures
            r.value == self.value | other.value,
    {
        PageTableFlagsField { value: self.value | other.value }
    }

    /// Whether every bit of `bits` is set.
    pub fn matches_all(&self, bits: u64) -> (r: bool)
        ensures
            r == (self.value & bits == bits),
    {
        self.value & bits == bits
    }

    /// Whether some bit of `bits` is set.
    pub fn matches_any(&self, bits: u64) -> (r: bool)
        ensures
            r == (self.value & bits != 0),
    {
        self.value & bits != 0
    }
}

/// The bits of an optional flag set; none is no bits.
pub open spec fn flag_bits(flags: Option<PageTableFlagsField>) -> u64 {
    match flags {
        Some(f) => f.value,
        None => 0,
    }
}

/// A 64-bit translation-table entry.
#[derive(Clone, Copy, PartialEq, Eq, Debug)]
pub struct PageTableEntry {
    pub entry: u64,
}

impl PageTableEntry {
    /// An unused (zero) entry.
    pub fn new() -> (r: PageTableEntry)
        ensures
            r.entry == 0,
    {
        PageTableEntry { entry: 0 }
    }

    /// Whether the entry is zero.
    pub fn is_unused(&self) -> (r: bool)
        ensures
            r == (self.entry == 0),
    {
        self.entry == 0
    }

    /// Sets the entry to zero.
    pub fn set_unused(&mut self)
        ensures
            final(self).entry == 0,
    {
        self.entry = 0;
    }

    /// The attribute bits of the entry.
    pub fn flags(&self) -> (r: PageTableFlagsField)
        ensures
            r.value == self.entry & PGFLAG_MASK,
    {
        PageTableFlagsField::new(self.entry & PGFLAG_MASK)
    }

    /// The output address of the entry, possibly zero.
    pub fn addr(&self) -> (r: PhysAddr)
        ensures
            r.view() == self.entry & ADDR_MASK,
    {
        let a = self.entry & ADDR_MASK;
        proof {
            let e = self.entry;
            assert((e & 0x0000_ffff_ffff_f000u64) & 0x0000_ffff_ffff_ffffu64 == e & 0x0000_ffff_ffff_f000u64)
                by (bit_vector);
        }
        PhysAddr::new(a)
    }

    /// Whether the entry is valid.
    pub open spec fn spec_valid(&self) -> bool {
        self.entry & VALID == VALID
    }

    /// Whether the entry's table bit is set.
    pub open spec fn spec_table_bit(&self) -> bool {
        self.entry & TABLE_OR_BLOCK == TABLE_OR_BLOCK
    }

    /// The table this entry points to, when it is a valid table entry.
    pub fn get_table(&self) -> (r: Option<PhysAddr>)
        ensures
            r.is_some() == (self.spec_valid() && self.spec_table_bit()),
            r.is_some() ==> r.unwrap().view() == self.entry & ADDR_MASK,
    {
        if self.is_table_page() {
            Some(self.addr())
        } else {
            None
        }
    }

    /// Whether the entry maps a block.
    pub fn is_huge_page(&self) -> (r: bool)
        ensures
            r == (self.spec_valid() && !self.spec_table_bit()),
    {
        self.is_valid() && !self.is_table_or_page()
    }

    /// Whether the entry points to a table, or to a page at the last level.
    pub fn is_table_page(&self) -> (r: bool)
        ensures
            r == (self.spec_valid() && self.spec_table_bit()),
    {
        self.is_valid() && self.is_table_or_page()
    }

    fn is_table_or_page(&self) -> (r: bool)
        ensures
            r == self.spec_table_bit(),
    {
        let f = self.flags();
        proof {
            let e = self.entry;
            assert((e & 0xffff_0000_0000_0fffu64) & 2u64 == e & 2u64) by (bit_vector);
        }
        f.matches_all(TABLE_OR_BLOCK)
    }

    /// Whether the entry is valid.
    pub fn is_valid(&self) -> (r: bool)
        ensures
            r == self.spec_valid(),
    {
        let f = self.flags();
        proof {
            let e = self.entry;
            assert((e & 0xffff_0000_0000_0fffu64) & 1u64 == e & 1u64) by (bit_vector);
        }
        f.matches_all(VALID)
    }

    fn set_ppn(&mut self, pa: PhysAddr, flags: PageTableFlagsField)
        ensures
            final(self).entry == pa.view() | flags.value,
    {
        self.entry = pa.addr() | flags.value;
    }

    /// Points the entry at the table (or last-level page) at `pa`.
    pub fn set_table_page(&mut self, pa: PhysAddr, flags: Option<PageTableFlagsField>)
        ensures
            final(self).entry == pa.view() | flag_bits(flags) | TABLE_OR_BLOCK | VALID,
    {
        let base = PageTableFlagsField::new(TABLE_OR_BLOCK | VALID);
        let new_flags = match flags {
            Some(f) => f.plus(base),
            None => base,
        };
        proof {
            let (p, f) = (pa.view(), flag_bits(flags));
            assert(p | (f | (2u64 | 1u64)) == p | f | 2u64 | 1u64) by (bit_vector);
            assert(p | (0u64 | (2u64 | 1u64)) == p | 0u64 | 2u64 | 1u64) by (bit_vector);
            assert(p | (2u64 | 1u64) == p | 0u64 | 2u64 | 1u64) by (bit_vector);
        }
        self.set_ppn(pa, new_flags);
    }

    /// Maps a block at `pa`: valid, with the table bit clear.
    pub fn set_huge_page(&mut self, pa: PhysAddr, flags: Option<PageTableFlagsField>)
        ensures
            final(self).entry == ((pa.view() | flag_bits(flags)) & !TABLE_OR_BLOCK) | VALID,
    {
        let bits = match flags {
            Some(f) => f.value,
            None => 0,
        };
        self.entry = ((pa.addr() | bits) & !TABLE_OR_BLOCK) | VALID;
    }

    /// Replaces the attribute bits, keeping the output address, and marks
    /// the entry valid.
    pub fn set_flags(&mut self, flags: Option<PageTableFlagsField>)
        ensures
            final(self).entry == (old(self).entry & !PGFLAG_MASK) | flag_bits(flags) | VALID,
    {
        let bits = match flags {
            Some(f) => f.value,
            None => 0,
        };
        self.entry = (self.entry & !PGFLAG_MASK) | bits | VALID;
    }

    /// Fills a slot that has no memory behind it: the attribute bits
    /// without the valid bit, so that any access faults.
    pub fn set_placeholder(&mut self, flags: Option<PageTableFlagsField>)
        ensures
            final(self).entry == flag_bits(flags) & PGFLAG_MASK & !VALID,
            !final(self).spec_valid(),
    {
        let bits = match flags {
            Some(f) => f.value,
            None => 0,
        };
        let e = bits & PGFLAG_MASK & !VALID;
        proof {
            assert((bits & 0xffff_0000_0000_0fffu64 & !1u64) & 1u64 != 1u64) by (bit_vector);
        }
        self.entry = e;
    }

    /// Sets the entry to zero.
    pub fn clear(&mut self)
        ensures
            final(self).entry == 0,
    {
        self.entry = 0;
    }
}

/// A translation table of 512 entries.
#[derive(Debug)]
pub struct PageTable {
    entries: Vec<PageTableEntry>,
}

impl PageTable {
    /// The entries of the table.
    pub closed spec fn view(&self) -> Seq<PageTableEntry> {
        self.entries@
    }

    /// A table has 512 entries.
    pub open spec fn wf(&self) -> bool {
        self.view().len() == 512
    }

    /// A table of 512 unused entries.
    pub fn new() -> (r: PageTable)
        ensures
            r.wf(),
            forall|i: int| 0 <= i < 512 ==> (#[trigger] r.view()[i]).entry == 0,
    {
        let mut entries: Vec<PageTableEntry> = Vec::new();
        let mut i: usize = 0;
        while i < ENTRY_COUNT
            invariant
                i <= 512,
                entries@.len() == i,
                forall|j: int| 0 <= j < i ==> (#[trigger] entries@[j]).entry == 0,
            decreases 512 - i,
        {
            entries.push(PageTableEntry::new());
            i = i + 1;
        }
        PageTable { entries }
    }

    /// Sets every entry unused.
    pub fn zero(&mut self)
        requires
            old(self).wf(),
        ensures
            final(self).wf(),
            forall|i: int| 0 <= i < 512 ==> (#[trigger] final(self).view()[i]).entry == 0,
    {
        let mut i: usize = 0;
        while i < ENTRY_COUNT
            invariant
                i <= 512,
                self.entries@.len() == 512,
                forall|j: int| 0 <= j < i ==> (#[trigger] self.entries@[j]).entry == 0,
            decreases 512 - i,
        {
            self.entries.set(i, PageTableEntry::new());
            i = i + 1;
        }
    }

    /// The entries, in order.
    pub fn iter(&self) -> (r: &Vec<PageTableEntry>)
        ensures
            r@ == self.view(),
    {
        &self.entries
    }

    /// The entry at `index`.
    pub fn entry(&self, index: usize) -> (r: PageTableEntry)
        requires
            self.wf(),
            index < 512,
        ensures
            r == self.view()[index as int],
    {
        self.entries[index]
    }

    /// Replaces the entry at `index`.
    pub fn set_entry(&mut self, index: usize, e: PageTableEntry)
        requires
            old(self).wf(),
            index < 512,
        ensures
            final(self).view() == old(self).view().update(index as int, e),
            final(self).wf(),
    {
        self.entries.set(index, e);
    }
}

} // verus!
