use vstd::prelude::*;

verus! {

pub const PAGE_SIZE: u64 = 4096;
pub const HPAGE_SIZE: u64 = 0x200000;
pub const PAGE_TABLE_SHIFT: u64 = 9;
pub const SV39_MASK: u64 = 0x7f_ffff_ffff;

pub const PTE_VALID: u64 = 0x1;
pub const PTE_READ: u64 = 0x2;
pub const PTE_WRITE: u64 = 0x4;
pub const PTE_EXECUTE: u64 = 0x8;
pub const PTE_USER: u64 = 0x10;
pub const PTE_GLOBAL: u64 = 0x20;
pub const PTE_ACCESSED: u64 = 0x40;
pub const PTE_DIRTY: u64 = 0x80;
pub const PTE_RSV_MASK: u64 = 0x300;
pub const PTE_AD: u64 = 0xc0;
pub const PTE_RWXV: u64 = 0xf;

/// Physical address of the boot-time page table.
pub const BOOT_PAGE_TABLE: u64 = 0x80017000;
/// Byte offset, inside a root table, of the first direct-map entry.
pub const DIRECT_MAP_PT_INDEX: u64 = 0xf80;
/// Virtual address at which the direct map of physical memory begins.
pub const DIRECT_MAP_OFFSET: u64 = 0xffff_fffc_0000_0000;
/// Number of 1 GiB pages in the direct map.
pub const DIRECT_MAP_PAGES: u64 = 4;
/// Byte offset, inside a root table, of the hypervisor code entry.
pub const HYPERVISOR_CODE_SLOT: u64 = 0xff8;
/// The hypervisor code entry: a 1 GiB leaf over physical 2 GiB.
pub const HYPERVISOR_CODE_PTE: u64 = 0x200000cf;

/// The entry is valid.
pub open spec fn pte_valid(w: u64) -> bool {
    w & PTE_VALID != 0
}

/// The entry is valid and grants none of read, write or execute: it points
/// to a table of the next level.
pub open spec fn pte_is_pointer(w: u64) -> bool {
    w & PTE_RWXV == PTE_VALID
}

/// Physical address of the page that an entry names.
pub open spec fn pte_page(w: u64) -> u64 {
    (w >> 10u64) << 12u64
}

/// The pointer entry that names the page at `pa`.
pub open spec fn pointer_pte(pa: u64) -> u64 {
    (pa >> 2u64) | PTE_VALID
}

/// Index into the table of level `level` (0 is the root) for address `va`.
pub open spec fn va_index(va: u64, level: int) -> u64 {
    if level == 0 {
        (va >> 30u64) & 0x1ff
    } else if level == 1 {
        (va >> 21u64) & 0x1ff
    } else {
        (va >> 12u64) & 0x1ff
    }
}

pub open spec fn sv39_spec(va: u64) -> bool {
    va >> 38u64 == 0 || va >> 38u64 == 0x3ffffff
}

/// A valid entry whose permission bits are zero is a pointer, and a page
/// named by one is page-aligned.
pub proof fn lemma_pointer_bits(w: u64)
    ensures
        (pte_valid(w) && w & (PTE_READ | PTE_WRITE | PTE_EXECUTE) == 0) == pte_is_pointer(w),
        pte_is_pointer(w) ==> pte_valid(w),
        pte_page(w) % 4096 == 0,
{
    assert((w & 1u64 != 0 && w & (2u64 | 4u64 | 8u64) == 0) == (w & 0xfu64 == 1u64)) by (bit_vector);
    assert(w & 0xfu64 == 1u64 ==> w & 1u64 != 0) by (bit_vector);
    assert(((w >> 10u64) << 12u64) % 4096 == 0) by (bit_vector);
}

/// The pointer entry for a page-aligned address is a pointer to it.
pub proof fn lemma_pointer_pte(pa: u64)
    requires
        pa % 4096 == 0,
    ensures
        pte_is_pointer(pointer_pte(pa)),
        pte_page(pointer_pte(pa)) == pa,
{
    assert(pa % 4096 == 0 ==> ((pa >> 2u64) | 1u64) & 0xfu64 == 1u64) by (bit_vector);
    assert(pa % 4096 == 0 ==> ((((pa >> 2u64) | 1u64) >> 10u64) << 12u64) == pa) by (bit_vector);
}

/// Every table index is below 512.
pub proof fn lemma_va_index_bound(va: u64)
    ensures
        va_index(va, 0) < 512,
        va_index(va, 1) < 512,
        va_index(va, 2) < 512,
{
    assert((va >> 30u64) & 0x1ffu64 < 512) by (bit_vector);
    assert((va >> 21u64) & 0x1ffu64 < 512) by (bit_vector);
    assert((va >> 12u64) & 0x1ffu64 < 512) by (bit_vector);
}

/// Maps a physical address to its virtual address in the direct map.
pub fn pa2va(pa: u64) -> (r: u64)
    requires
        pa <= u64::MAX - DIRECT_MAP_OFFSET,
    ensures
        r == pa + DIRECT_MAP_OFFSET,
{
    pa + DIRECT_MAP_OFFSET
}

/// Maps a virtual address of the direct map back to its physical address.
pub fn va2pa(va: u64) -> (r: u64)
    requires
        DIRECT_MAP_OFFSET <= va < DIRECT_MAP_OFFSET + (DIRECT_MAP_PAGES << 30u64),
    ensures
        r == va - DIRECT_MAP_OFFSET,
{
    va - DIRECT_MAP_OFFSET
}

/// Returns whether `va` is a sign-extended 39-bit address.
pub fn is_sv39(va: u64) -> (r: bool)
    ensures
        r == sv39_spec(va),
{
    let shifted = va >> 38;
    shifted == 0 || shifted == 0x3ffffff
}

/// Returns whether `va` is a sign-extended 48-bit address.
pub fn is_sv48(va: u64) -> (r: bool)
    ensures
        r == (va >> 47u64 == 0 || va >> 47u64 == 0x1ffff),
{
    let shifted = va >> 47;
    shifted == 0 || shifted == 0x1ffff
}

} // verus!
