use pmap::boot::{init, MachineMeta};
use pmap::flush::{flush_shadow_page_table, handle_sfence_vma};
use pmap::memory_region::MemoryRegion;
use pmap::page_tables::{count_kept_pages, direct_map_pte, PageTableRoot, PageTables};

const BASE: u64 = 0x8000_0000;

fn region(pages: usize, fill: u64) -> MemoryRegion {
    MemoryRegion::new(BASE, vec![fill; pages * 512])
}

fn word(pt: &PageTables, pa: u64) -> u64 {
    pt.region().get(pa).unwrap()
}

#[test]
fn new_takes_roots_from_top_and_skips_initrd() {
    let pt = PageTables::new(region(16, 0), BASE + 0x1000, BASE + 0x3000);
    assert_eq!(pt.root_pa(PageTableRoot::MPA), BASE + 0xf000);
    assert_eq!(pt.root_pa(PageTableRoot::UVA), BASE + 0xe000);
    assert_eq!(pt.root_pa(PageTableRoot::KVA), BASE + 0xd000);
    assert_eq!(pt.root_pa(PageTableRoot::MVA), BASE + 0xc000);
}

#[test]
fn free_list_skips_initrd_pages() {
    let mut pt = PageTables::new(region(8, 0), BASE + 0x1000, BASE + 0x3000);
    // pages 7..4 are roots; 3 is next, then 0 (1 and 2 hold the init RAM disk)
    assert_eq!(pt.alloc_page(), BASE + 0x3000);
    assert_eq!(pt.alloc_page(), BASE);
}

#[test]
fn allocated_page_is_all_invalid() {
    let mut pt = PageTables::new(region(8, 0xdead_beef), 0, 0);
    let page = pt.alloc_page();
    for i in 0..512u64 {
        assert_eq!(word(&pt, page + i * 8), 0);
    }
}

#[test]
fn free_list_is_lifo() {
    let mut pt = PageTables::new(region(8, 0), 0, 0);
    let a = pt.alloc_page();
    let b = pt.alloc_page();
    pt.free_page(a);
    pt.free_page(b);
    assert_eq!(pt.alloc_page(), b);
    assert_eq!(pt.alloc_page(), a);
}

#[test]
fn free_page_links_previous_head() {
    let mut pt = PageTables::new(region(8, 0), 0, 0);
    let a = pt.alloc_page();
    let b = pt.alloc_page();
    pt.free_page(a);
    pt.free_page(b);
    assert_eq!(word(&pt, b), a);
}

#[test]
fn set_mapping_installs_leaf() {
    let mut pt = PageTables::new(region(16, 0), 0, 0);
    let pte = (0x9000_0000u64 >> 2) | 0xcf;
    pt.set_mapping(PageTableRoot::UVA, 0x1000, pte);
    let slot = pt.pte_for_addr(PageTableRoot::UVA, 0x1000);
    assert_eq!(word(&pt, slot), pte);
    let root = pt.root_pa(PageTableRoot::UVA);
    let e0 = word(&pt, root);
    assert_eq!(e0 & 0xf, 1);
    let t1 = (e0 >> 10) << 12;
    let e1 = word(&pt, t1);
    assert_eq!(e1 & 0xf, 1);
    assert_eq!(slot, ((e1 >> 10) << 12) + 8);
}

#[test]
fn walk_twice_gives_same_slot() {
    let mut pt = PageTables::new(region(16, 0), 0, 0);
    let va = 0xffff_ffc0_1234_5000u64;
    let first = pt.pte_for_addr(PageTableRoot::KVA, va);
    let next_free = pt.alloc_page();
    pt.free_page(next_free);
    let second = pt.pte_for_addr(PageTableRoot::KVA, va);
    assert_eq!(first, second);
    // the second walk allocated nothing
    assert_eq!(pt.alloc_page(), next_free);
}

#[test]
fn walk_allocates_two_tables_from_free_list() {
    let mut pt = PageTables::new(region(16, 0), 0, 0);
    let slot = pt.pte_for_addr(PageTableRoot::MVA, 0x4000_0000 | (5 << 21) | (7 << 12));
    // roots are pages 15..12; the walk took 11 then 10
    assert_eq!(slot, BASE + 0xa000 + 7 * 8);
    assert_eq!(word(&pt, BASE + 0xb000 + 5 * 8), ((BASE + 0xa000) >> 2) | 1);
    assert_eq!(word(&pt, BASE + 0xc000 + 8), ((BASE + 0xb000) >> 2) | 1);
}

#[test]
fn clear_range_returns_subtree_to_free_list() {
    let mut pt = PageTables::new(region(16, 0), 0, 0);
    pt.set_mapping(PageTableRoot::UVA, 0x1000, 0x2000_00cf);
    let root = pt.root_pa(PageTableRoot::UVA);
    let t1 = (word(&pt, root) >> 10) << 12;
    let t2 = (word(&pt, t1) >> 10) << 12;
    pt.clear_page_table_range(root, 0, 1);
    assert_eq!(word(&pt, root), 0);
    assert_eq!(pt.alloc_page(), t1);
    assert_eq!(pt.alloc_page(), t2);
}

#[test]
fn clear_range_keeps_entries_outside_range() {
    let mut pt = PageTables::new(region(16, 0), 0, 0);
    pt.set_mapping(PageTableRoot::UVA, 0x1000, 0x2000_00cf);
    pt.set_mapping(PageTableRoot::UVA, 0x4000_0000, 0x3000_00cf);
    let root = pt.root_pa(PageTableRoot::UVA);
    let kept = word(&pt, root + 8);
    pt.clear_page_table_range(root, 0, 1);
    assert_eq!(word(&pt, root), 0);
    assert_eq!(word(&pt, root + 8), kept);
    assert_eq!(pt.pte_for_addr(PageTableRoot::UVA, 0x4000_0000) != 0, true);
}

#[test]
fn walk_after_flush_builds_new_tables() {
    let mut pt = PageTables::new(region(16, 0), 0, 0);
    pt.set_mapping(PageTableRoot::UVA, 0x1000, 0x2000_00cf);
    let root = pt.root_pa(PageTableRoot::UVA);
    let t1 = (word(&pt, root) >> 10) << 12;
    flush_shadow_page_table(&mut pt);
    assert_eq!(word(&pt, root), 0);
    let slot = pt.pte_for_addr(PageTableRoot::UVA, 0x1000);
    // the two freed tables are taken again, most recently freed first
    assert_eq!(word(&pt, root), (t1 >> 2) | 1);
    assert_eq!(word(&pt, slot), 0);
}

#[test]
fn flush_keeps_machine_root_and_direct_map_slots() {
    let mut pt = PageTables::new(region(16, 0), 0, 0);
    pt.set_mapping(PageTableRoot::KVA, 0x1000, 0x2000_00cf);
    let mpa = pt.root_pa(PageTableRoot::MPA);
    let kva = pt.root_pa(PageTableRoot::KVA);
    let before: Vec<u64> = (0..512u64).map(|i| word(&pt, mpa + i * 8)).collect();
    flush_shadow_page_table(&mut pt);
    let after: Vec<u64> = (0..512u64).map(|i| word(&pt, mpa + i * 8)).collect();
    assert_eq!(before, after);
    assert_eq!(word(&pt, kva), 0);
}

#[test]
fn sfence_vma_flushes() {
    let mut pt = PageTables::new(region(16, 0), 0, 0);
    pt.set_mapping(PageTableRoot::MVA, 0x1000, 0x2000_00cf);
    let mva = pt.root_pa(PageTableRoot::MVA);
    let instruction = riscv_decode::decode(0x1200_0073).unwrap();
    handle_sfence_vma(&mut pt, instruction);
    assert_eq!(word(&pt, mva), 0);
}

#[test]
fn install_root_writes_once() {
    let pt = PageTables::new(region(16, 0), 0, 0);
    let satp = pt.install_root(PageTableRoot::MPA, 0);
    assert_eq!(satp, Some((8u64 << 60) | ((BASE + 0xf000) >> 12)));
    assert_eq!(pt.install_root(PageTableRoot::MPA, satp.unwrap()), None);
    assert_eq!(pt.install_root(PageTableRoot::UVA, satp.unwrap()), Some((8u64 << 60) | ((BASE + 0xe000) >> 12)));
}

#[test]
fn init_installs_kernel_entries_and_guest_megapages() {
    let machine = MachineMeta {
        gpm_offset: 0x8000_0000,
        gpm_size: 0x40_0000,
        guest_shift: 0x1000_0000,
        initrd_start: 0,
        initrd_end: 0,
    };
    let pt = init(&machine, region(16, 0));
    for root in [PageTableRoot::MPA, PageTableRoot::UVA, PageTableRoot::KVA, PageTableRoot::MVA] {
        let r = pt.root_pa(root);
        for i in 0..4u64 {
            assert_eq!(word(&pt, r + 0xf80 + i * 8), direct_map_pte(i));
        }
        assert_eq!(word(&pt, r + 0xff8), 0x2000_00cf);
    }
    assert_eq!(direct_map_pte(1), 0x1000_00cf);
    let mpa = pt.root_pa(PageTableRoot::MPA);
    let e0 = word(&pt, mpa + 2 * 8);
    assert_eq!(e0 & 0xf, 1);
    let t1 = (e0 >> 10) << 12;
    assert_eq!(word(&pt, t1), (0x9000_0000u64 >> 2) | 0xdf);
    assert_eq!(word(&pt, t1 + 8), (0x9020_0000u64 >> 2) | 0xdf);
    assert_eq!(word(&pt, t1 + 16), 0);
}

#[test]
fn kept_pages_exclude_initrd() {
    let mem = region(16, 0);
    assert_eq!(count_kept_pages(&mem, 0, 0), 16);
    assert_eq!(count_kept_pages(&mem, BASE + 0x1000, BASE + 0x3000), 14);
    // a page that the init RAM disk only partly covers is kept back too
    assert_eq!(count_kept_pages(&mem, BASE + 0x1800, BASE + 0x2800), 14);
}

#[test]
fn clear_twice_changes_nothing() {
    let mut pt = PageTables::new(region(16, 0), 0, 0);
    pt.set_mapping(PageTableRoot::UVA, 0x1000, 0x2000_00cf);
    let root = pt.root_pa(PageTableRoot::UVA);
    pt.clear_page_table_range(root, 0, 1);
    let before: Vec<u64> = (0..16 * 512u64).map(|i| word(&pt, BASE + i * 8)).collect();
    pt.clear_page_table_range(root, 0, 1);
    let after: Vec<u64> = (0..16 * 512u64).map(|i| word(&pt, BASE + i * 8)).collect();
    assert_eq!(before, after);
}

#[test]
fn flush_keeps_guest_megapage_tables() {
    let machine = MachineMeta {
        gpm_offset: 0x8000_0000,
        gpm_size: 0x40_0000,
        guest_shift: 0x1000_0000,
        initrd_start: 0,
        initrd_end: 0,
    };
    let mut pt = init(&machine, region(16, 0));
    pt.set_mapping(PageTableRoot::KVA, 0x1000, 0x2000_00cf);
    let mpa = pt.root_pa(PageTableRoot::MPA);
    let t1 = (word(&pt, mpa + 16) >> 10) << 12;
    let before: Vec<u64> = (0..512u64).map(|i| word(&pt, t1 + i * 8)).collect();
    flush_shadow_page_table(&mut pt);
    let after: Vec<u64> = (0..512u64).map(|i| word(&pt, t1 + i * 8)).collect();
    assert_eq!(before, after);
    assert_eq!(word(&pt, pt.root_pa(PageTableRoot::KVA)), 0);
}
