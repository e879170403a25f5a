use vstd::prelude::*;

use crate::memory_region::MemoryRegion;
use crate::pte::{is_sv39, pte_valid, sv39_spec, va_index, PAGE_SIZE, PTE_EXECUTE, PTE_READ, PTE_VALID, PTE_WRITE};

verus! {

/// The kind of access that a guest makes to an address.
pub enum AccessType {
    Read,
    Write,
    Execute,
}

/// A guest virtual address resolved through the guest's own tables.
pub struct AddressTranslation {
    /// The leaf entry that resolved it.
    pub pte_value: u64,
    /// Guest physical address of that entry.
    pub pte_addr: u64,
    /// The guest physical address it resolves to.
    pub guest_pa: u64,
}

/// An entry that the paging rules forbid: write without read.
pub open spec fn pte_malformed(pte: u64) -> bool {
    pte & PTE_WRITE != 0 && pte & PTE_READ == 0
}

/// An entry that ends the walk: read or execute is set.
pub open spec fn pte_is_leaf(pte: u64) -> bool {
    pte & (PTE_READ | PTE_EXECUTE) != 0
}

/// The guest physical address for `addr` through a leaf `pte` found at
/// `level`: a 1 GiB page at level 0, 2 MiB at level 1, 4 KiB at level 2.
pub open spec fn leaf_address(pte: u64, addr: u64, level: int) -> u64 {
    if level == 2 {
        ((pte >> 10u64) << 12u64) | (addr & 0xfff)
    } else if level == 1 {
        ((pte >> 19u64) << 21u64) | (addr & 0x1fffff)
    } else {
        ((pte >> 28u64) << 30u64) | (addr & 0x3fffffff)
    }
}

/// Address of the entry for `addr` in the table at `table`, of level `level`.
pub open spec fn entry_addr(table: u64, addr: u64, level: int) -> int {
    table + va_index(addr, level) * 8
}

/// The walk over guest tables from the table at `table`, of level `level`.
pub open spec fn guest_walk(mem: MemoryRegion, table: u64, addr: u64, level: int) -> Option<
    AddressTranslation,
>
    decreases 3 - level,
{
    if level < 0 || level > 2 {
        None
    } else {
        let pte_addr = entry_addr(table, addr, level);
        if !mem.holds_word(pte_addr) {
            None
        } else {
            let pte = mem.word(pte_addr);
            if !pte_valid(pte) || pte_malformed(pte) {
                None
            } else if pte_is_leaf(pte) {
                Some(
                    AddressTranslation {
                        guest_pa: leaf_address(pte, addr, level),
                        pte_addr: pte_addr as u64,
                        pte_value: pte,
                    },
                )
            } else {
                guest_walk(mem, (pte >> 10u64) << 12u64, addr, level + 1)
            }
        }
    }
}

/// What `translate_guest_address` returns.
pub open spec fn translate_spec(mem: MemoryRegion, root_page_table: u64, addr: u64) -> Option<
    AddressTranslation,
> {
    if !sv39_spec(addr) || root_page_table % 4096 != 0 {
        None
    } else {
        guest_walk(mem, root_page_table, addr, 0)
    }
}

/// A table address from an entry, plus an entry offset, fits in 64 bits.
proof fn lemma_entry_addr_fits(table: u64, addr: u64, level: int)
    requires
        table % 4096 == 0,
        0 <= level <= 2,
    ensures
        entry_addr(table, addr, level) <= u64::MAX,
        va_index(addr, level) < 512,
{
    assert((addr >> 30u64) & 0x1ffu64 < 512) by (bit_vector);
    assert((addr >> 21u64) & 0x1ffu64 < 512) by (bit_vector);
    assert((addr >> 12u64) & 0x1ffu64 < 512) by (bit_vector);
    assert(table % 4096 == 0 ==> table <= 0xffff_ffff_ffff_f000) by (bit_vector);
}

/// Returns the guest physical address for the guest virtual address `addr`
/// by walking the guest's tables from `root_page_table`. Every entry is read
/// through a bounds check on `guest_memory`; an entry out of bounds, invalid
/// or malformed, or a walk that finds no leaf, gives `None`.
pub fn translate_guest_address(guest_memory: &MemoryRegion, root_page_table: u64, addr: u64) -> (r:
    Option<AddressTranslation>)
    requires
        guest_memory.wf(),
    ensures
        r == translate_spec(*guest_memory, root_page_table, addr),
{
    if !is_sv39(addr) || root_page_table % PAGE_SIZE != 0 {
        return None;
    }
    let mut page_table = root_page_table;
    let mut level: u64 = 0;
    while level < 3
        invariant
            level <= 3,
            page_table % 4096 == 0,
            guest_memory.wf(),
            translate_spec(*guest_memory, root_page_table, addr) == guest_walk(
                *guest_memory,
                page_table,
                addr,
                level as int,
            ),
        decreases 3 - level,
    {
        proof {
            lemma_entry_addr_fits(page_table, addr, level as int);
        }
        let pte_index = (addr >> (30 - 9 * level)) & 0x1ff;
        proof {
            assert(pte_index == va_index(addr, level as int)) by {
                if level == 0 {
                    assert((addr >> (30u64 - 9u64 * 0u64)) == (addr >> 30u64)) by (bit_vector);
                } else if level == 1 {
                    assert((addr >> (30u64 - 9u64 * 1u64)) == (addr >> 21u64)) by (bit_vector);
                } else {
                    assert((addr >> (30u64 - 9u64 * 2u64)) == (addr >> 12u64)) by (bit_vector);
                }
            }
        }
        let pte_addr = page_table + pte_index * 8;
        let pte = match guest_memory.get(pte_addr) {
            Some(v) => v,
            None => return None,
        };
        if pte & PTE_VALID == 0 || ((pte & PTE_WRITE) != 0 && (pte & PTE_READ) == 0) {
            return None;
        } else if pte & (PTE_READ | PTE_EXECUTE) != 0 {
            let guest_pa = if level == 2 {
                ((pte >> 10) << 12) | (addr & 0xfff)
            } else if level == 1 {
                ((pte >> 19) << 21) | (addr & 0x1fffff)
            } else {
                ((pte >> 28) << 30) | (addr & 0x3fffffff)
            };
            return Some(AddressTranslation { guest_pa, pte_addr, pte_value: pte });
        } else {
            page_table = (pte >> 10) << 12;
            proof {
                assert(((pte >> 10u64) << 12u64) % 4096 == 0) by (bit_vector);
            }
        }
        level += 1;
    }
    None
}

/// The bounds-checked read of the word at `pa`, as `MemoryRegion::get` does it.
pub open spec fn read_spec(mem: MemoryRegion, pa: int) -> Option<u64> {
    if mem.holds_word(pa) {
        Some(mem.word(pa))
    } else {
        None
    }
}

/// What `read64` returns.
pub open spec fn read64_spec(mem: MemoryRegion, page_table_ppn: u64, guest_va: u64) -> Option<u64> {
    match translate_spec(mem, page_table_ppn << 12u64, guest_va & !0xfffu64) {
        Some(t) => read_spec(mem, ((t.guest_pa & !0xfffu64) | (guest_va & 0xfff)) as int),
        None => None,
    }
}

/// Reads the word at guest virtual address `guest_va`, translated through
/// the guest tables whose root has page number `page_table_ppn`.
pub fn read64(guest_memory: &MemoryRegion, page_table_ppn: u64, guest_va: u64) -> (r: Option<u64>)
    requires
        guest_memory.wf(),
    ensures
        r == read64_spec(*guest_memory, page_table_ppn, guest_va),
{
    let guest_page = guest_va & !0xfff;
    if let Some(page_translation) = translate_guest_address(
        guest_memory,
        page_table_ppn << 12,
        guest_page,
    ) {
        let guest_pa = (page_translation.guest_pa & !0xfff) | (guest_va & 0xfff);
        return guest_memory.get(guest_pa);
    }
    None
}

} // verus!
