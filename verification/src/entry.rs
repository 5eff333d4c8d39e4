//! Page-table entries: 64-bit words whose bits 12..48 carry a physical
//! address and whose remaining bits carry the hardware and software flags.

use vstd::prelude::*;

verus! {

/// Entry maps something.
pub const FLAG_PRESENT: u64 = 0x1;
/// Entry is a 4 KiB page or a next-level table; clear means a 2 MiB block.
pub const FLAG_SMALL_PAGE: u64 = 0x2;
/// EL0 may access the page.
pub const FLAG_USER: u64 = 0x40;
/// Page is read-only.
pub const FLAG_NO_WRITE: u64 = 0x80;
/// Inner-shareable attribute.
pub const FLAG_INNER_SHARE: u64 = 0x200;
/// Outer-shareable attribute.
pub const FLAG_OUTER_SHARE: u64 = 0x300;
/// Hardware access flag.
pub const FLAG_ACCESSED: u64 = 0x400;
/// Software bit 53: page is shared copy-on-write.
pub const FLAG_COPY_ON_WRITE: u64 = 0x20_0000_0000_0000;
/// Execution forbidden.
pub const FLAG_NO_EXEC: u64 = 0x40_0000_0000_0000;

/// PRESENT | SMALL_PAGE | OUTER_SHARE | ACCESSED: the flags of every
/// intermediate page-table entry.
pub const PAGE_TABLE_FLAGS: u64 = 0x703;

/// Bits 12..48: the physical address carried by an entry.
pub const ADDRESS_MASK: u64 = 0x0000_ffff_ffff_f000;

/// The entry maps something.
pub open spec fn e_present(e: u64) -> bool {
    e & FLAG_PRESENT == FLAG_PRESENT
}

/// The entry is a 4 KiB page or a pointer to a next-level table.
pub open spec fn e_small(e: u64) -> bool {
    e & FLAG_SMALL_PAGE == FLAG_SMALL_PAGE
}

/// The physical address carried by the entry.
pub open spec fn e_addr(e: u64) -> u64 {
    e & ADDRESS_MASK
}

/// The flag bits of the entry (all bits outside the address field).
pub open spec fn e_flags(e: u64) -> u64 {
    e & !ADDRESS_MASK
}

/// `fl` contains all flag bits of `f`.
pub open spec fn has_flag(fl: u64, f: u64) -> bool {
    fl & f == f
}

/// A well-formed physical address for an entry: page-aligned and below 2^48.
pub open spec fn addr_field_ok(a: u64) -> bool {
    a & ADDRESS_MASK == a
}

/// A well-formed flag word: no bit inside the address field.
pub open spec fn flags_field_ok(f: u64) -> bool {
    f & ADDRESS_MASK == 0
}

/// Composing an address field and a flag word decomposes back into the two.
pub proof fn lemma_entry_encode(a: u64, f: u64)
    by (bit_vector)
    requires
        a & 0x0000_ffff_ffff_f000u64 == a,
        f & 0x0000_ffff_ffff_f000u64 == 0,
    ensures
        (a | f) & 0x0000_ffff_ffff_f000u64 == a,
        (a | f) & !0x0000_ffff_ffff_f000u64 == f,
{
}

/// The address and flag fields of any entry are themselves well formed,
/// and together they reconstitute the entry.
pub proof fn lemma_entry_decompose(e: u64)
    by (bit_vector)
    ensures
        (e & 0x0000_ffff_ffff_f000u64) & 0x0000_ffff_ffff_f000u64 == e
            & 0x0000_ffff_ffff_f000u64,
        (e & !0x0000_ffff_ffff_f000u64) & 0x0000_ffff_ffff_f000u64 == 0,
        (e & 0x0000_ffff_ffff_f000u64) | (e & !0x0000_ffff_ffff_f000u64) == e,
{
}

/// The small facts about flag bits the rest of the engine leans on: zero
/// is absent; OR-ing a flag word keeps its PRESENT and SMALL_PAGE bits;
/// an aligned address contributes no low bits; the intermediate-table
/// flag word is well formed, present and small.
pub proof fn lemma_flag_bits()
    by (bit_vector)
    ensures
        !(0u64 & 0x1u64 == 0x1u64),
        !(0u64 & 0x2u64 == 0x2u64),
        forall|a: u64, fl: u64| fl & 0x1u64 == 0x1 ==> #[trigger] (a | fl) & 0x1u64 == 0x1,
        forall|a: u64, fl: u64| fl & 0x2u64 == 0x2 ==> #[trigger] (a | fl) & 0x2u64 == 0x2,
        forall|a: u64, fl: u64|
            a & 0x0000_ffff_ffff_f000u64 == a && fl & 0x2u64 == 0 ==> #[trigger] (a | fl)
                & 0x2u64 == 0,
        0x703u64 & 0x0000_ffff_ffff_f000u64 == 0,
        0x703u64 & 0x1u64 == 0x1,
        0x703u64 & 0x2u64 == 0x2,
{
}

/// One entry of a page table.
#[derive(Clone, Copy, PartialEq, Eq, Structural, Debug)]
pub struct PageTableEntry(pub u64);

impl PageTableEntry {
    /// Zero the entry: afterwards it maps nothing.
    pub fn clear(&mut self)
        ensures
            final(self).0 == 0,
            !e_present(final(self).0),
    {
        proof {
            assert(0u64 & FLAG_PRESENT == 0) by (bit_vector);
        }
        self.0 = 0;
    }

    /// The PRESENT flag is set.
    pub fn present(&self) -> (r: bool)
        ensures
            r == e_present(self.0),
    {
        self.0 & FLAG_PRESENT == FLAG_PRESENT
    }

    /// The entry maps a 2 MiB block rather than a page or a table.
    pub fn is_block(&self) -> (r: bool)
        ensures
            r == !e_small(self.0),
    {
        self.0 & FLAG_SMALL_PAGE != FLAG_SMALL_PAGE
    }

    /// The physical address the entry points at.
    pub fn address(&self) -> (r: u64)
        ensures
            r == e_addr(self.0),
            addr_field_ok(r),
    {
        proof {
            lemma_entry_decompose(self.0);
        }
        self.0 & ADDRESS_MASK
    }

    /// The flag bits of the entry.
    pub fn flags(&self) -> (r: u64)
        ensures
            r == e_flags(self.0),
            flags_field_ok(r),
    {
        proof {
            lemma_entry_decompose(self.0);
        }
        self.0 & !ADDRESS_MASK
    }

    /// Keep the physical address, replace every flag bit.
    pub fn update_flags(&mut self, new_flags: u64)
        requires
            flags_field_ok(new_flags),
        ensures
            final(self).0 == e_addr(old(self).0) | new_flags,
            e_addr(final(self).0) == e_addr(old(self).0),
            e_flags(final(self).0) == new_flags,
    {
        proof {
            lemma_entry_decompose(self.0);
            lemma_entry_encode(e_addr(self.0), new_flags);
        }
        self.0 = (self.0 & ADDRESS_MASK) | new_flags;
    }

    /// Point the entry at `addr` with exactly the flags `flags`.
    pub fn set(&mut self, addr: u64, flags: u64)
        requires
            addr_field_ok(addr),
            flags_field_ok(flags),
        ensures
            final(self).0 == addr | flags,
            e_addr(final(self).0) == addr,
            e_flags(final(self).0) == flags,
    {
        proof {
            lemma_entry_encode(addr, flags);
        }
        self.0 = addr | flags;
    }
}

} // verus!
