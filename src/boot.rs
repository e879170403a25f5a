use vstd::prelude::*;

use crate::memory_region::MemoryRegion;
use crate::page_tables::{
    direct_map_pte_spec, guest_megapage_pte, kept_pages, PageTables,
};
use crate::pte::{pte_is_pointer, pte_page, pte_valid, HPAGE_SIZE, HYPERVISOR_CODE_PTE};

verus! {

/// What the boot sequence needs to know of the machine: where guest
/// physical memory sits and how large it is, how far host memory is shifted
/// from it, and where the boot loader put the init RAM disk.
pub struct MachineMeta {
    pub gpm_offset: u64,
    pub gpm_size: u64,
    pub guest_shift: u64,
    pub initrd_start: u64,
    pub initrd_end: u64,
}

/// Number of 2 MiB pages of guest memory.
pub open spec fn guest_pages(machine: &MachineMeta) -> int {
    machine.gpm_size as int / 0x200000
}

/// Guest virtual address of 2 MiB guest page `p`.
pub open spec fn guest_page_va(machine: &MachineMeta, p: int) -> u64 {
    (machine.gpm_offset + p * 0x200000) as u64
}

/// The machine-physical root maps guest page `p`: its root entry points to
/// a middle table whose entry for `p` is a 2 MiB leaf onto the host page at
/// the guest address plus `guest_shift`.
pub open spec fn guest_mapped(t: PageTables, machine: &MachineMeta, p: int) -> bool {
    let e = t.pte_at(t.roots()[0], 2 + p / 512);
    &&& pte_is_pointer(e)
    &&& t.pte_at(pte_page(e), p % 512) == guest_megapage_pte(
        (guest_page_va(machine, p) + machine.guest_shift) as u64,
    )
}

proof fn lemma_megapage_index(p: u64)
    requires
        p < 494 * 512,
    ensures
        (0x8000_0000 + p * 0x200000) <= u64::MAX,
        ((0x8000_0000 + p * 0x200000) as u64) >> 30u64 == 2 + p / 512,
        (((0x8000_0000 + p * 0x200000) as u64) >> 21u64) & 0x1ff == p % 512,
{
    let va = (0x8000_0000 + p * 0x200000) as u64;
    assert(va >> 30u64 == va / 0x4000_0000) by (bit_vector);
    assert((va >> 21u64) & 0x1ffu64 == (va / 0x200000) % 512) by (bit_vector);
    assert(va / 0x4000_0000 == 2 + p / 512) by (nonlinear_arith)
        requires
            va == 0x8000_0000 + p * 0x200000,
    ;
    assert(va / 0x200000 == 1024 + p) by (nonlinear_arith)
        requires
            va == 0x8000_0000 + p * 0x200000,
    ;
    assert((1024 + p) % 512 == p % 512) by (nonlinear_arith);
}

/// Builds the shadow tables over `table_memory`: seeds the free list with
/// every page outside the init RAM disk, gives each of the four roots the
/// direct-map window and the hypervisor code entry, and maps guest memory
/// into the machine-physical root with 2 MiB pages onto host memory shifted
/// by `guest_shift`.
pub fn init(machine: &MachineMeta, table_memory: MemoryRegion) -> (r: PageTables)
    requires
        table_memory.wf(),
        table_memory.base_spec() % 4096 == 0,
        table_memory.words().len() % 512 == 0,
        machine.gpm_offset == 0x8000_0000,
        machine.gpm_size % 0x200000 == 0,
        machine.gpm_offset + machine.gpm_size <= 496 * 0x4000_0000,
        machine.gpm_offset + machine.gpm_size + machine.guest_shift <= u64::MAX,
        kept_pages(
            table_memory.base_spec(),
            (table_memory.words().len() / 512) as nat,
            machine.initrd_start as int,
            machine.initrd_end as int,
        ).len() >= 4 + (guest_pages(machine) + 511) / 512,
    ensures
        r.wf(),
        forall|k: int, i: int|
            0 <= k < 4 && 0 <= i < 4 ==> #[trigger] r.pte_at(r.roots()[k], 496 + i)
                == direct_map_pte_spec(i as u64),
        forall|k: int| 0 <= k < 4 ==> #[trigger] r.pte_at(r.roots()[k], 511) == HYPERVISOR_CODE_PTE,
        forall|p: int|
            0 <= p < guest_pages(machine) ==> #[trigger] guest_mapped(r, machine, p),
        forall|k: int, i: int|
            0 <= k < 4 && (0 <= i < 496 || 500 <= i < 511) && !(k == 0 && 2 <= i < 2 + (guest_pages(machine) + 511) / 512)
                ==> #[trigger] r.pte_at(r.roots()[k], i) == 0,
{
    let mut pt = PageTables::new(table_memory, machine.initrd_start, machine.initrd_end);
    let ghost roots = pt.roots();
    let ghost f0 = pt.free_pages().len();
    let mut k: usize = 0;
    while k < 4
        invariant
            k <= 4,
            pt.wf(),
            pt.roots() == roots,
            pt.free_pages().len() == f0,
            forall|j: int, i: int|
                0 <= j < 4 && (0 <= i < 496 || 500 <= i < 511) ==> #[trigger] pt.pte_at(roots[j], i) == 0,
            forall|j: int, i: int|
                0 <= j < k && 0 <= i < 4 ==> #[trigger] pt.pte_at(roots[j], 496 + i)
                    == direct_map_pte_spec(i as u64),
            forall|j: int| 0 <= j < k ==> #[trigger] pt.pte_at(roots[j], 511) == HYPERVISOR_CODE_PTE,
        decreases 4 - k,
    {
        let ghost s0 = pt;
        pt.map_kernel_entries(k);
        proof {
            assert forall|j: int, i: int| 0 <= j < 4 && (0 <= i < 496 || 500 <= i < 511) implies #[trigger] pt.pte_at(
                roots[j],
                i,
            ) == 0 by {
                assert(s0.is_page(roots[j]));
                assert(s0.pte_at(roots[j], i) == 0);
            }
            assert forall|j: int, i: int| 0 <= j < k + 1 && 0 <= i < 4 implies #[trigger] pt.pte_at(
                roots[j],
                496 + i,
            ) == direct_map_pte_spec(i as u64) by {
                if j < k {
                    assert(s0.is_page(roots[j]));
                    assert(s0.pte_at(roots[j], 496 + i) == direct_map_pte_spec(i as u64));
                }
            }
            assert forall|j: int| 0 <= j < k + 1 implies #[trigger] pt.pte_at(roots[j], 511)
                == HYPERVISOR_CODE_PTE by {
                if j < k {
                    assert(s0.is_page(roots[j]));
                    assert(s0.pte_at(roots[j], 511) == HYPERVISOR_CODE_PTE);
                }
            }
        }
        k += 1;
    }
    let npages = machine.gpm_size / HPAGE_SIZE;
    let mut p: u64 = 0;
    proof {
        assert(!pte_valid(0)) by (bit_vector);
        assert(npages <= 494 * 512);
    }
    while p < npages
        invariant
            p <= npages,
            npages == guest_pages(machine),
            npages <= 494 * 512,
            machine.gpm_offset == 0x8000_0000,
            machine.gpm_offset + machine.gpm_size + machine.guest_shift <= u64::MAX,
            pt.wf(),
            pt.roots() == roots,
            f0 >= 4 + (npages + 511) / 512 - 4,
            pt.free_pages().len() + (p + 511) / 512 == f0,
            forall|j: int|
                2 + (p + 511) / 512 <= j < 496 ==> #[trigger] pt.pte_at(roots[0], j) == 0,
            forall|j: int| 2 <= j < 2 + (p + 511) / 512 ==> pte_is_pointer(#[trigger] pt.pte_at(roots[0], j)),
            forall|j: int, i: int|
                0 <= j < 4 && 0 <= i < 4 ==> #[trigger] pt.pte_at(roots[j], 496 + i)
                    == direct_map_pte_spec(i as u64),
            forall|j: int| 0 <= j < 4 ==> #[trigger] pt.pte_at(roots[j], 511) == HYPERVISOR_CODE_PTE,
            forall|q: int| 0 <= q < p ==> #[trigger] guest_mapped(pt, machine, q),
            forall|j: int, i: int|
                0 <= j < 4 && ((0 <= i < 496 && (j >= 1 || i < 2)) || 500 <= i < 511) ==> #[trigger] pt.pte_at(roots[j], i) == 0,
        decreases npages - p,
    {
        proof {
            lemma_megapage_index(p);
            assert(pt.levels().contains_key(roots[0]));
        }
        let va = machine.gpm_offset + p * HPAGE_SIZE;
        let pa = va + machine.guest_shift;
        let ghost s0 = pt;
        proof {
            assert(!pte_valid(0)) by (bit_vector);
            assert(va == (0x8000_0000 + p * 0x200000) as u64);
            if p % 512 == 0 {
                assert((p + 511) / 512 == p / 512) by (nonlinear_arith)
                    requires
                        p % 512 == 0,
                ;
                assert(s0.pte_at(roots[0], 2 + p / 512) == 0);
                assert(p / 512 + 1 <= (npages + 511) / 512) by (nonlinear_arith)
                    requires
                        p % 512 == 0,
                        p < npages,
                ;
            } else {
                assert((p + 511) / 512 == p / 512 + 1) by (nonlinear_arith)
                    requires
                        p % 512 != 0,
                ;
                assert(pte_is_pointer(s0.pte_at(roots[0], 2 + p / 512)));
                crate::pte::lemma_pointer_bits(s0.pte_at(roots[0], 2 + p / 512));
            }
        }
        pt.map_guest_megapage(va, pa);
        proof {
            let j0 = 2 + p / 512;
            assert((p + 1 + 511) / 512 == p / 512 + 1) by (nonlinear_arith);
            assert(s0.is_page(roots[0]));
            assert forall|j: int| 2 + (p + 1 + 511) / 512 <= j < 496 implies #[trigger] pt.pte_at(roots[0], j) == 0 by {
                assert(s0.pte_at(roots[0], j) == 0);
            }
            assert forall|j: int| 2 <= j < 2 + (p + 1 + 511) / 512 implies pte_is_pointer(#[trigger] pt.pte_at(roots[0], j)) by {
                if j != j0 {
                    assert(pte_is_pointer(s0.pte_at(roots[0], j)));
                }
            }
            assert forall|j: int, i: int|
                0 <= j < 4 && 0 <= i < 4 implies #[trigger] pt.pte_at(roots[j], 496 + i)
                    == direct_map_pte_spec(i as u64) by {
                assert(s0.is_page(roots[j]));
                assert(s0.levels().contains_key(roots[j]));
                assert(s0.pte_at(roots[j], 496 + i) == direct_map_pte_spec(i as u64));
            }
            assert forall|j: int| 0 <= j < 4 implies #[trigger] pt.pte_at(roots[j], 511) == HYPERVISOR_CODE_PTE by {
                assert(s0.is_page(roots[j]));
                assert(s0.levels().contains_key(roots[j]));
                assert(s0.pte_at(roots[j], 511) == HYPERVISOR_CODE_PTE);
            }
            assert forall|j: int, i: int|
                0 <= j < 4 && ((0 <= i < 496 && (j >= 1 || i < 2)) || 500 <= i < 511) implies #[trigger] pt.pte_at(roots[j], i) == 0 by {
                assert(s0.is_page(roots[j]));
                assert(s0.levels().contains_key(roots[j]));
                assert(s0.pte_at(roots[j], i) == 0);
            }
            let tp = pte_page(pt.pte_at(roots[0], j0));
            assert(guest_page_va(machine, p as int) == va);
            assert forall|q: int| 0 <= q < p + 1 implies #[trigger] guest_mapped(pt, machine, q) by {
                if q < p {
                    assert(guest_mapped(s0, machine, q));
                    let jq = 2 + q / 512;
                    let eq = s0.pte_at(roots[0], jq);
                    let tq = pte_page(eq);
                    assert(q / 512 <= p / 512) by (nonlinear_arith)
                        requires
                            q < p,
                    ;
                    assert(s0.levels().contains_key(tq));
                    assert(s0.levels()[tq] == 1);
                    assert(s0.is_page(tq));
                    if jq == j0 {
                        assert(q % 512 != p % 512) by (nonlinear_arith)
                            requires
                                q < p,
                                q / 512 == p / 512,
                                0 <= q,
                        ;
                        crate::pte::lemma_pointer_bits(eq);
                        assert(pt.pte_at(roots[0], jq) == eq);
                        assert(pt.pte_at(tq, q % 512) == s0.pte_at(tq, q % 512));
                    } else {
                        assert(pt.pte_at(roots[0], jq) == eq);
                        assert(s0.owners()[tq] == crate::page_tables::slot_addr(roots[0], jq));
                        assert(pt.levels().contains_key(tp));
                        if tq == tp {
                            assert(s0.pte_at(roots[0], j0) == 0 || pte_is_pointer(s0.pte_at(roots[0], j0)));
                            assert(pt.owners()[tp] == crate::page_tables::slot_addr(roots[0], j0));
                            crate::page_tables::lemma_slots_distinct(
                                s0.region_spec(),
                                roots[0],
                                jq,
                                roots[0],
                                j0,
                            );
                        }
                        assert(pt.pte_at(tq, q % 512) == s0.pte_at(tq, q % 512));
                    }
                }
            }
        }
        p += 1;
    }
    pt
}

} // verus!
