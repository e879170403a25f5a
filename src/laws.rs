use vstd::prelude::*;

use crate::guest::{entry_addr, guest_walk, leaf_address, translate_spec, AddressTranslation};
use crate::memory_region::MemoryRegion;
use crate::page_tables::{install_spec, PageTableRoot, PageTables};
use crate::pte::{pte_page, pte_valid, sv39_spec, va_index, PTE_EXECUTE, PTE_READ, PTE_VALID, PTE_WRITE};

verus! {

/// Walking to the same address twice, with nothing in between, finds the
/// same last-level entry, and the second walk changes nothing.
pub proof fn lemma_walk_idempotent(
    t0: PageTables,
    t1: PageTables,
    t2: PageTables,
    root: PageTableRoot,
    va: u64,
    r1: u64,
    r2: u64,
)
    requires
        t0.wf(),
        PageTables::walk_outcome(t0, t1, root, va, r1),
        PageTables::walk_outcome(t1, t2, root, va, r2),
    ensures
        r1 == r2,
        t2 == t1,
{
}

/// After the entries `start_index..end_index` of a root are invalidated, a
/// walk to an address whose root entry lies in that range builds both of
/// its lower tables anew, from the two pages at the head of the free list.
pub proof fn lemma_walk_after_clear(
    t0: PageTables,
    t1: PageTables,
    t2: PageTables,
    root: PageTableRoot,
    start_index: u64,
    end_index: u64,
    va: u64,
    r: u64,
)
    requires
        t0.wf(),
        PageTables::clear_outcome(t0, t1, t0.root_spec(root), start_index, end_index),
        start_index <= va_index(va, 0) < end_index,
        PageTables::walk_outcome(t1, t2, root, va, r),
    ensures
        t1.missing_tables(root, va) == 2,
        t2.free_pages() == t1.free_pages().skip(2),
        pte_page(t2.entry0(root, va)) == t1.free_pages()[0],
        t2.leaf_table(root, va) == t1.free_pages()[1],
{
    assert(t1.pte_at(t1.root_spec(root), va_index(va, 0) as int) == 0);
    assert(!pte_valid(0)) by (bit_vector);
}

/// Clearing a range of a table a second time changes nothing: no entry of
/// any page, and not the free list.
pub proof fn lemma_clear_twice(
    t0: PageTables,
    t1: PageTables,
    t2: PageTables,
    pa: u64,
    start_index: u64,
    end_index: u64,
)
    requires
        t0.wf(),
        start_index <= end_index <= 512,
        PageTables::clear_outcome(t0, t1, pa, start_index, end_index),
        PageTables::clear_outcome(t1, t2, pa, start_index, end_index),
    ensures
        t2.free_pages() == t1.free_pages(),
        forall|q: u64, j: int| t1.is_page(q) && 0 <= j < 512 ==> #[trigger] t2.pte_at(q, j) == t1.pte_at(q, j),
{
    assert(!crate::pte::pte_is_pointer(0)) by (bit_vector);
    assert forall|q: u64| !#[trigger] t1.reclaimed(pa, start_index as int, end_index as int, q) by {
        if t1.reclaimed(pa, start_index as int, end_index as int, q) {
            let i = choose|i: int| start_index <= i < end_index && #[trigger] t1.hangs_from(pa, i, q);
            assert(t1.pte_at(pa, i) == 0);
        }
    }
    if t2.free_pages().len() > t1.free_pages().len() {
        assert(t1.reclaimed(pa, start_index as int, end_index as int, t2.free_pages()[0]));
    }
    assert(t2.free_pages().subrange(0, t2.free_pages().len() as int) =~= t2.free_pages());
    assert forall|q: u64, j: int| t1.is_page(q) && 0 <= j < 512 implies #[trigger] t2.pte_at(q, j) == t1.pte_at(q, j) by {
        if q == pa && start_index <= j < end_index {
            assert(t1.pte_at(pa, j) == 0);
        }
    }
}

/// Two pages freed one after the other come back from the next two
/// allocations in the opposite order, and the free list is as it was.
pub proof fn lemma_free_list_lifo(
    t0: PageTables,
    t1: PageTables,
    t2: PageTables,
    t3: PageTables,
    t4: PageTables,
    a: u64,
    b: u64,
    r1: u64,
    r2: u64,
)
    requires
        t0.free_list_ok(),
        PageTables::free_outcome(t0, t1, a),
        PageTables::free_outcome(t1, t2, b),
        PageTables::alloc_outcome(t2, t3, r1),
        PageTables::alloc_outcome(t3, t4, r2),
    ensures
        r1 == b,
        r2 == a,
        t4.free_pages() == t0.free_pages(),
{
    assert(t2.free_pages() == seq![b] + (seq![a] + t0.free_pages()));
    assert(t3.free_pages() =~= seq![a] + t0.free_pages());
    assert(t4.free_pages() =~= t0.free_pages());
}

/// Once `install_root` has asked for a register write, asking again with
/// the value written asks for none.
pub proof fn lemma_install_root_once(root_pa: u64, satp: u64, written: u64)
    requires
        install_spec(root_pa, satp) == Some(written),
    ensures
        install_spec(root_pa, written) == None::<u64>,
{
}

/// A translation reads its entry from inside the guest region, and a root
/// whose first entry lies outside the region translates nothing.
pub proof fn lemma_translate_in_region(mem: MemoryRegion, root_page_table: u64, addr: u64)
    requires
        mem.wf(),
    ensures
        translate_spec(mem, root_page_table, addr) matches Some(t) ==> mem.holds_word(t.pte_addr as int),
        !mem.holds_word(entry_addr(root_page_table, addr, 0)) ==> translate_spec(mem, root_page_table, addr) == None::<AddressTranslation>,
{
    lemma_walk_in_region(mem, root_page_table, addr, 0);
}

proof fn lemma_walk_in_region(mem: MemoryRegion, table: u64, addr: u64, level: int)
    requires
        mem.wf(),
    ensures
        guest_walk(mem, table, addr, level) matches Some(t) ==> mem.holds_word(t.pte_addr as int),
    decreases 3 - level,
{
    if 0 <= level <= 2 {
        let pte_addr = entry_addr(table, addr, level);
        if mem.holds_word(pte_addr) {
            let pte = mem.word(pte_addr);
            lemma_walk_in_region(mem, (pte >> 10u64) << 12u64, addr, level + 1);
        }
    }
}

/// Entry `e` at `pte_addr` is a usable pointer to the table at `next`.
pub open spec fn guest_pointer(mem: MemoryRegion, pte_addr: int, next: u64) -> bool {
    let e = mem.word(pte_addr);
    &&& mem.holds_word(pte_addr)
    &&& e & PTE_VALID != 0
    &&& e & (PTE_READ | PTE_WRITE | PTE_EXECUTE) == 0
    &&& (e >> 10u64) << 12u64 == next
}

/// Entry at `pte_addr` is a valid, well-formed leaf.
pub open spec fn guest_leaf(mem: MemoryRegion, pte_addr: int) -> bool {
    let e = mem.word(pte_addr);
    &&& mem.holds_word(pte_addr)
    &&& e & PTE_VALID != 0
    &&& e & (PTE_READ | PTE_EXECUTE) != 0
    &&& !(e & PTE_WRITE != 0 && e & PTE_READ == 0)
}

/// A 4 KiB leaf installed at the last level for physical page `base`
/// translates every address of its page to `base` plus the page offset, and
/// reports the entry itself.
pub proof fn lemma_translate_4k_leaf(
    mem: MemoryRegion,
    root_page_table: u64,
    t1: u64,
    t2: u64,
    va: u64,
    base: u64,
)
    requires
        mem.wf(),
        sv39_spec(va),
        root_page_table % 4096 == 0,
        guest_pointer(mem, entry_addr(root_page_table, va, 0), t1),
        guest_pointer(mem, entry_addr(t1, va, 1), t2),
        guest_leaf(mem, entry_addr(t2, va, 2)),
        base % 4096 == 0,
        mem.word(entry_addr(t2, va, 2)) >> 10u64 == base >> 12u64,
    ensures
        translate_spec(mem, root_page_table, va) == Some(
            AddressTranslation {
                guest_pa: base | (va & 0xfff),
                pte_addr: entry_addr(t2, va, 2) as u64,
                pte_value: mem.word(entry_addr(t2, va, 2)),
            },
        ),
{
    let e = mem.word(entry_addr(t2, va, 2));
    let e0 = mem.word(entry_addr(root_page_table, va, 0));
    let e1 = mem.word(entry_addr(t1, va, 1));
    assert(e0 & (PTE_READ | PTE_WRITE | PTE_EXECUTE) == 0 ==> e0 & (PTE_READ | PTE_EXECUTE) == 0 && e0 & PTE_WRITE == 0) by (bit_vector);
    assert(e1 & (PTE_READ | PTE_WRITE | PTE_EXECUTE) == 0 ==> e1 & (PTE_READ | PTE_EXECUTE) == 0 && e1 & PTE_WRITE == 0) by (bit_vector);
    assert(base % 4096 == 0 && e >> 10u64 == base >> 12u64 ==> (e >> 10u64) << 12u64 == base) by (bit_vector);
    assert(leaf_address(e, va, 2) == base | (va & 0xfff));
    let want = AddressTranslation {
        guest_pa: base | (va & 0xfff),
        pte_addr: entry_addr(t2, va, 2) as u64,
        pte_value: e,
    };
    assert(guest_walk(mem, t2, va, 2) == Some(want));
    assert(guest_walk(mem, t1, va, 1) == Some(want));
    assert(guest_walk(mem, root_page_table, va, 0) == Some(want));
}

/// A 2 MiB leaf installed at the middle level for the 2 MiB-aligned
/// physical address `base` translates every address of its megapage to
/// `base` plus the low 21 bits of the address.
pub proof fn lemma_translate_2m_leaf(
    mem: MemoryRegion,
    root_page_table: u64,
    t1: u64,
    va: u64,
    base: u64,
)
    requires
        mem.wf(),
        sv39_spec(va),
        root_page_table % 4096 == 0,
        guest_pointer(mem, entry_addr(root_page_table, va, 0), t1),
        guest_leaf(mem, entry_addr(t1, va, 1)),
        base % 0x200000 == 0,
        mem.word(entry_addr(t1, va, 1)) >> 19u64 == base >> 21u64,
    ensures
        translate_spec(mem, root_page_table, va) == Some(
            AddressTranslation {
                guest_pa: base | (va & 0x1fffff),
                pte_addr: entry_addr(t1, va, 1) as u64,
                pte_value: mem.word(entry_addr(t1, va, 1)),
            },
        ),
{
    let e = mem.word(entry_addr(t1, va, 1));
    let e0 = mem.word(entry_addr(root_page_table, va, 0));
    assert(e0 & (PTE_READ | PTE_WRITE | PTE_EXECUTE) == 0 ==> e0 & (PTE_READ | PTE_EXECUTE) == 0 && e0 & PTE_WRITE == 0) by (bit_vector);
    assert(base % 0x200000 == 0 && e >> 19u64 == base >> 21u64 ==> (e >> 19u64) << 21u64 == base) by (bit_vector);
    assert(leaf_address(e, va, 1) == base | (va & 0x1fffff));
    let want = AddressTranslation {
        guest_pa: base | (va & 0x1fffff),
        pte_addr: entry_addr(t1, va, 1) as u64,
        pte_value: e,
    };
    assert(guest_walk(mem, t1, va, 1) == Some(want));
    assert(guest_walk(mem, root_page_table, va, 0) == Some(want));
}

} // verus!
