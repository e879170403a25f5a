use pmap::guest::{read64, translate_guest_address};
use pmap::memory_region::MemoryRegion;
use pmap::pte::{is_sv39, is_sv48, pa2va, va2pa};

#[test]
fn sv39_shapes() {
    assert!(is_sv39(0x3f_ffff_ffff));
    assert!(is_sv39(0xffff_ffc0_0000_0000));
    assert!(!is_sv39(0x40_0000_0000));
    assert!(!is_sv39(0x8000_0000_0000_0000));
}

#[test]
fn sv48_shapes() {
    assert!(is_sv48(0x7fff_ffff_ffff));
    assert!(is_sv48(0xffff_8000_0000_0000));
    assert!(!is_sv48(0x8000_0000_0000));
}

#[test]
fn direct_map_conversions() {
    assert_eq!(pa2va(0x8000_0000), 0xffff_fffc_8000_0000);
    assert_eq!(va2pa(0xffff_fffc_8000_0000), 0x8000_0000);
    assert_eq!(va2pa(pa2va(0x1234)), 0x1234);
}

#[test]
fn region_get_checks_bounds() {
    let mut data = vec![0u64; 512];
    data[3] = 77;
    let mem = MemoryRegion::new(0x1000, data);
    assert_eq!(mem.get(0x1018), Some(77));
    assert_eq!(mem.get(0x0ff8), None);
    assert_eq!(mem.get(0x2000), None);
    assert!(mem.in_region(0x1fff));
    assert!(!mem.in_region(0x2000));
    assert_eq!(mem.len(), 4096);
}

// Guest tables: root at 0x0, level-1 table at 0x1000, level-2 table at 0x2000.
fn guest(entries: &[(u64, u64)]) -> MemoryRegion {
    let mut data = vec![0u64; 8 * 512];
    for &(pa, v) in entries {
        data[(pa / 8) as usize] = v;
    }
    MemoryRegion::new(0, data)
}

const VA: u64 = (1 << 30) | (2 << 21) | (3 << 12) | 0xabc;

#[test]
fn translate_4k_leaf() {
    let mem = guest(&[(8, 0x401), (0x1010, 0x801), (0x2018, (0x1234_5000 >> 2) | 0x7)]);
    let t = translate_guest_address(&mem, 0, VA).unwrap();
    assert_eq!(t.guest_pa, 0x1234_5abc);
    assert_eq!(t.pte_addr, 0x2018);
    assert_eq!(t.pte_value, (0x1234_5000 >> 2) | 0x7);
}

#[test]
fn translate_2m_leaf() {
    let leaf = (0x4020_0000u64 >> 2) | 0xf;
    let mem = guest(&[(8, 0x401), (0x1010, leaf)]);
    let t = translate_guest_address(&mem, 0, 0x4040_0000 + 0x1ffff).unwrap();
    assert_eq!(t.guest_pa, 0x4021_ffff);
    assert_eq!(t.pte_addr, 0x1010);
    assert_eq!(t.pte_value, leaf);
}

#[test]
fn translate_1g_leaf() {
    let leaf = (0x8000_0000u64 >> 2) | 0xb;
    let mem = guest(&[(8, leaf)]);
    let t = translate_guest_address(&mem, 0, 0x4765_4321).unwrap();
    assert_eq!(t.guest_pa, 0x8765_4321);
    assert_eq!(t.pte_addr, 8);
}

#[test]
fn translate_root_outside_region() {
    let mem = guest(&[(8, 0x401), (0x1010, 0x801), (0x2018, 0x7)]);
    assert!(translate_guest_address(&mem, 0x10_0000, VA).is_none());
}

#[test]
fn translate_pointer_outside_region() {
    let mem = guest(&[(8, (0x10_0000 >> 2) | 1)]);
    assert!(translate_guest_address(&mem, 0, VA).is_none());
}

#[test]
fn translate_rejects_write_without_read() {
    let mem = guest(&[(8, 0x401), (0x1010, 0x801), (0x2018, (0x5000 >> 2) | 0x5)]);
    assert!(translate_guest_address(&mem, 0, VA).is_none());
}

#[test]
fn translate_rejects_invalid_entry() {
    let mem = guest(&[(8, 0x401), (0x1010, 0x800)]);
    assert!(translate_guest_address(&mem, 0, VA).is_none());
}

#[test]
fn translate_rejects_unaligned_root_and_bad_address() {
    let mem = guest(&[(8, 0x401), (0x1010, 0x801), (0x2018, 0x7)]);
    assert!(translate_guest_address(&mem, 0x8, VA).is_none());
    assert!(translate_guest_address(&mem, 0, 0x40_0000_0000).is_none());
}

#[test]
fn translate_without_leaf_is_none() {
    let mem = guest(&[(8, 0x401), (0x1010, 0x801), (0x2018, 0x1)]);
    assert!(translate_guest_address(&mem, 0, VA).is_none());
}

#[test]
fn read64_through_guest_tables() {
    let mem = guest(&[(8, 0x401), (0x1010, 0x801), (0x2018, (0x3000 >> 2) | 0x3), (0x3008, 0x1122_3344_5566_7788)]);
    let va = (1 << 30) | (2 << 21) | (3 << 12) | 0x8;
    assert_eq!(read64(&mem, 0, va), Some(0x1122_3344_5566_7788));
    assert_eq!(read64(&mem, 1, va), None);
}
