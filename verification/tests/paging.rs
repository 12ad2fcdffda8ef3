use bogokernel::mem::{AddressSpace, UserFrames};
use bogokernel::sv39::{
    pte_address, pte_is_leaf, pte_is_valid, pte_new, MapError, PageTables, DRAM_BASE, DRAM_SIZE, PTE_A, PTE_D,
    PTE_R, PTE_U, PTE_V, PTE_W, PTE_X, RW, RWX, UART0, USER_PA_POOL_END, USER_PA_POOL_START,
};

const PT_BASE: usize = 0x8020_0000;

fn tables(pages: usize) -> PageTables {
    PageTables::new(vec![0xdead_beef_u64; pages * 512], PT_BASE).unwrap()
}

#[test]
fn pool_must_be_whole_pages_inside_memory() {
    assert!(PageTables::new(vec![0; 512], 0x1000).is_some());
    assert!(PageTables::new(Vec::new(), 0x1000).is_some());
    assert!(PageTables::new(vec![0; 511], 0x1000).is_none());
    assert!(PageTables::new(vec![0; 512], 0x1001).is_none());
    assert!(PageTables::new(vec![0; 512], 0).is_none());
    assert!(PageTables::new(vec![0; 1024], 0x100_0000_0000_0000 - 0x1000).is_none());
    assert!(PageTables::new(vec![0; 512], 0x100_0000_0000_0000 - 0x1000).is_some());
    assert!(UserFrames::new(vec![0; 4096], 0x2000).is_some());
    assert!(UserFrames::new(vec![0; 4095], 0x2000).is_none());
    assert!(UserFrames::new(vec![0; 4096], 0x2004).is_none());
    assert!(UserFrames::new(vec![0; 8192], 0x100_0000_0000_0000 - 0x1000).is_none());
}

#[test]
fn entries_hold_address_and_flags() {
    let e = pte_new(0x8765_4000, PTE_V | PTE_R | PTE_X);
    assert_eq!(e, (0x87654 << 10) | 0b1011);
    assert!(pte_is_valid(e));
    assert!(pte_is_leaf(e));
    assert_eq!(pte_address(e), 0x8765_4000);
    let t = pte_new(0x8765_4fff, PTE_V);
    assert!(pte_is_valid(t) && !pte_is_leaf(t));
    assert_eq!(pte_address(t), 0x8765_4000);
    assert!(!pte_is_valid(0));
    assert_eq!(pte_address(u64::MAX), 0xff_ffff_ffff_f000);
}

#[test]
fn pages_are_handed_out_in_order_and_zeroed() {
    let mut pt = tables(3);
    assert_eq!(pt.pt_free(), 3);
    assert_eq!(pt.root_pt(), 0);
    assert_eq!(pt.alloc_pt_page(), PT_BASE);
    let root = pt.new_root();
    assert_eq!(root, PT_BASE + 0x1000);
    assert_eq!(pt.root_pt(), root);
    assert_eq!(pt.pt_free(), 1);
    assert!(pt.walk(root, 0).is_none());
    assert!(pt.walk(root, 0x7f_ffff_f000).is_none());
}

#[test]
fn mapped_page_is_found_with_its_frame_and_flags() {
    let mut pt = tables(8);
    let root = pt.new_root();
    let flags = PTE_V | PTE_R | PTE_W | PTE_U | PTE_A | PTE_D;
    assert_eq!(pt.map_4k(root, 0x4000_3000, 0x8765_4000, flags), Ok(()));
    assert_eq!(pt.pt_free(), 5);
    let (pte, level) = pt.walk(root, 0x4000_3abc).unwrap();
    assert_eq!(level, 0);
    assert_eq!(pte >> 10, 0x8765_4000 >> 12);
    assert_eq!(pte & 0x3ff, flags);
    assert_eq!(pt.translate(root, 0x4000_3abc), Some(0x8765_4abc));
    assert!(pt.walk(root, 0x4000_2fff).is_none());
    assert!(pt.walk(root, 0x4000_4000).is_none());
    // a neighbour shares both tables
    assert_eq!(pt.map_4k(root, 0x4000_4000, 0x1000, PTE_V | PTE_X), Ok(()));
    assert_eq!(pt.pt_free(), 5);
    assert_eq!(pt.translate(root, 0x4000_3abc), Some(0x8765_4abc));
    assert_eq!(pt.translate(root, 0x4000_4004), Some(0x1004));
    // a page in another 2 MiB region needs one more table, one in another 1 GiB region two
    assert_eq!(pt.map_4k(root, 0x4020_0000, 0x2000, PTE_V | PTE_R), Ok(()));
    assert_eq!(pt.pt_free(), 4);
    assert_eq!(pt.map_4k(root, 0x8000_0000, 0x3000, PTE_V | PTE_R), Ok(()));
    assert_eq!(pt.pt_free(), 2);
    // the last writer wins
    assert_eq!(pt.map_4k(root, 0x4000_3000, 0x9000, PTE_V | PTE_R), Ok(()));
    assert_eq!(pt.translate(root, 0x4000_3abc), Some(0x9abc));
    assert_eq!(pt.translate(root, 0x4000_4004), Some(0x1004));
    assert_eq!(pt.translate(root, 0x4020_0000), Some(0x2000));
    assert_eq!(pt.translate(root, 0x8000_0fff), Some(0x3fff));
    // an entry that is not valid maps nothing
    assert_eq!(pt.map_4k(root, 0x4000_4000, 0x1000, PTE_R), Ok(()));
    assert!(pt.walk(root, 0x4000_4004).is_none());
}

#[test]
fn mapping_fails_whole_when_tables_run_out() {
    let mut pt = tables(2);
    let root = pt.new_root();
    assert_eq!(pt.map_4k(root, 0x4000_0000, 0x1000, PTE_V | PTE_R), Err(MapError::OutOfPtPages));
    assert_eq!(pt.pt_free(), 1);
    assert!(pt.walk(root, 0x4000_0000).is_none());
    assert_eq!(pt.map_2m(root, 0x4000_0000, 0x20_0000, PTE_V | PTE_R), Ok(()));
    assert_eq!(pt.pt_free(), 0);
    assert_eq!(pt.map_2m(root, 0x4020_0000, 0x40_0000, PTE_V | PTE_R), Ok(()));
    assert_eq!(pt.map_2m(root, 0x8000_0000, 0x40_0000, PTE_V | PTE_R), Err(MapError::OutOfPtPages));
    assert_eq!(pt.map_4k(root, 0x4040_0000, 0x40_0000, PTE_V | PTE_R), Err(MapError::OutOfPtPages));
    assert_eq!(pt.translate(root, 0x4000_0000), Some(0x20_0000));
}

#[test]
fn large_pages_cover_their_region() {
    let mut pt = tables(8);
    let root = pt.new_root();
    assert_eq!(pt.map_2m(root, 0x4020_0000, 0x8040_0000, PTE_V | PTE_R | PTE_W), Ok(()));
    let (pte, level) = pt.walk(root, 0x4021_2345).unwrap();
    assert_eq!(level, 1);
    assert_eq!(pte & 0x3ff, PTE_V | PTE_R | PTE_W);
    assert_eq!(pt.translate(root, 0x4021_2345), Some(0x8041_2345));
    assert_eq!(pt.translate(root, 0x403f_ffff), Some(0x805f_ffff));
    assert!(pt.walk(root, 0x4040_0000).is_none());
    assert!(pt.walk(root, 0x401f_ffff).is_none());
    // a small page inside takes the place of the large one
    assert_eq!(pt.map_4k(root, 0x4021_2000, 0x5000, PTE_V | PTE_R), Ok(()));
    assert_eq!(pt.translate(root, 0x4021_2345), Some(0x5345));
    assert!(pt.walk(root, 0x4021_3000).is_none());
    assert!(pt.walk(root, 0x4020_0000).is_none());
    // and a large page takes the place of the small ones
    assert_eq!(pt.map_2m(root, 0x4020_0000, 0x8040_0000, PTE_V | PTE_X), Ok(()));
    assert_eq!(pt.translate(root, 0x4021_2345), Some(0x8041_2345));
}

#[test]
fn addresses_beyond_39_bits_fold_onto_the_space() {
    let mut pt = tables(8);
    let root = pt.new_root();
    assert_eq!(pt.map_4k(root, 0x80_4000_3000, 0x7000, PTE_V | PTE_R), Ok(()));
    assert_eq!(pt.translate(root, 0x4000_3010), Some(0x7010));
}

#[test]
fn region_is_mapped_with_the_largest_pages_that_fit() {
    let mut pt = tables(16);
    let root = pt.new_root();
    let base = 0x401f_e800;
    let len = 0x40_3000;
    assert_eq!(pt.id_map_region(root, base, len, PTE_V | PTE_R | PTE_X, PTE_V | PTE_R | PTE_W), Ok(()));
    let leaf = |pt: &PageTables, va: usize| pt.walk(root, va).map(|(pte, level)| (pte & 0x3ff, level));
    assert_eq!(leaf(&pt, 0x401f_d000), None);
    assert_eq!(leaf(&pt, 0x401f_e000), Some((PTE_V | PTE_R | PTE_W, 0)));
    assert_eq!(leaf(&pt, 0x401f_f000), Some((PTE_V | PTE_R | PTE_W, 0)));
    assert_eq!(leaf(&pt, 0x4020_0000), Some((PTE_V | PTE_R | PTE_X, 1)));
    assert_eq!(leaf(&pt, 0x405f_ffff), Some((PTE_V | PTE_R | PTE_X, 1)));
    assert_eq!(leaf(&pt, 0x4060_0000), Some((PTE_V | PTE_R | PTE_W, 0)));
    assert_eq!(leaf(&pt, 0x4060_1fff), Some((PTE_V | PTE_R | PTE_W, 0)));
    assert_eq!(leaf(&pt, 0x4060_2000), None);
    for va in [0x401f_e000usize, 0x401f_ffff, 0x4020_0000, 0x4031_4159, 0x405f_ffff, 0x4060_1234] {
        assert_eq!(pt.translate(root, va), Some(va as u64));
    }
    // root, one level-1 table, and a level-0 table each for head and tail
    assert_eq!(pt.pt_free(), 16 - 4);
}

#[test]
fn region_of_nothing_maps_its_page() {
    let mut pt = tables(4);
    let root = pt.new_root();
    assert_eq!(pt.id_map_region(root, 0x5000, 0, PTE_V | PTE_R, PTE_V | PTE_R), Ok(()));
    assert!(pt.walk(root, 0x5000).is_none());
    assert_eq!(pt.id_map_region(root, 0x5001, 0, PTE_V | PTE_R, PTE_V | PTE_R), Ok(()));
    assert_eq!(pt.translate(root, 0x5001), Some(0x5001));
    assert!(pt.walk(root, 0x6000).is_none());
}

#[test]
fn region_reports_exhaustion() {
    let mut pt = tables(3);
    let root = pt.new_root();
    let r = pt.id_map_region(root, 0x401f_f000, 0x20_2000, PTE_V | PTE_R, PTE_V | PTE_R);
    assert_eq!(r, Err(MapError::OutOfPtPages));
    assert_eq!(pt.translate(root, 0x401f_f000), Some(0x401f_f000));
    assert_eq!(pt.translate(root, 0x4020_0000), Some(0x4020_0000));
    assert!(pt.walk(root, 0x4040_0000).is_none());
}

#[test]
fn kernel_map_covers_dram_and_uart() {
    let mut pt = tables(32);
    let satp = pt.enable_sv39().unwrap();
    let root = pt.root_pt();
    assert_eq!(root, PT_BASE);
    assert_eq!(satp, (8u64 << 60) | (PT_BASE as u64 >> 12));
    assert_eq!(pt.pt_free(), 32 - 4);
    let (pte, level) = pt.walk(root, DRAM_BASE).unwrap();
    assert_eq!((pte & 0x3ff, level), (RWX, 1));
    assert_eq!(RWX, PTE_V | PTE_R | PTE_W | PTE_X | PTE_A | PTE_D);
    let (pte, level) = pt.walk(root, UART0).unwrap();
    assert_eq!((pte & 0x3ff, level), (RW, 0));
    assert_eq!(RW, PTE_V | PTE_R | PTE_W | PTE_A | PTE_D);
    assert_eq!(pte & PTE_U, 0);
    for va in [DRAM_BASE, DRAM_BASE + DRAM_SIZE - 1, USER_PA_POOL_START, USER_PA_POOL_END - 1, UART0 + 0xfff] {
        assert_eq!(pt.translate(root, va), Some(va as u64));
    }
    assert!(pt.walk(root, DRAM_BASE - 1).is_none());
    assert!(pt.walk(root, DRAM_BASE + DRAM_SIZE).is_none());
    assert!(pt.walk(root, UART0 + 0x1000).is_none());
    assert!(pt.walk(root, 0x4000_0000).is_none());
}

#[test]
fn kernel_map_needs_four_pages() {
    for pages in 0..4 {
        let mut pt = tables(pages);
        assert_eq!(pt.enable_sv39(), Err(MapError::OutOfPtPages));
    }
    let mut pt = tables(4);
    assert!(pt.enable_sv39().is_ok());
}

#[test]
fn clearing_unmaps_user_addresses_only() {
    let mut pt = tables(32);
    pt.enable_sv39().unwrap();
    let root = pt.root_pt();
    pt.map_4k(root, 0x4000_0000, 0x87f0_0000, PTE_V | PTE_U | PTE_R).unwrap();
    pt.map_4k(root, 0x7fff_f000, 0x87f0_1000, PTE_V | PTE_U | PTE_R).unwrap();
    pt.map_4k(root, 0x3fff_f000, 0x87f0_2000, PTE_V | PTE_R).unwrap();
    let free = pt.pt_free();
    pt.clear_user_mappings(root);
    assert!(pt.walk(root, 0x4000_0000).is_none());
    assert!(pt.walk(root, 0x7fff_f000).is_none());
    assert_eq!(pt.translate(root, 0x3fff_f000), Some(0x87f0_2000));
    assert_eq!(pt.translate(root, UART0), Some(UART0 as u64));
    assert_eq!(pt.translate(root, DRAM_BASE + 4), Some(DRAM_BASE as u64 + 4));
    assert_eq!(pt.pt_free(), free);
    // mapping again takes fresh tables
    pt.map_4k(root, 0x4000_0000, 0x87f0_3000, PTE_V | PTE_U | PTE_R).unwrap();
    assert_eq!(pt.pt_free(), free - 2);
    assert_eq!(pt.translate(root, 0x4000_0000), Some(0x87f0_3000));
    assert!(pt.walk(root, 0x7fff_f000).is_none());
}

#[test]
fn frames_are_handed_out_in_order() {
    let mut fr = UserFrames::new(vec![7u8; 3 * 4096], USER_PA_POOL_START).unwrap();
    assert_eq!(fr.user_pages_free(), 3);
    assert_eq!(fr.alloc_user_page(), USER_PA_POOL_START);
    assert_eq!(fr.alloc_user_page(), USER_PA_POOL_START + 4096);
    assert_eq!(fr.next_frame(), USER_PA_POOL_START + 8192);
    assert_eq!(fr.user_pages_free(), 1);
    fr.memcpy_pa(USER_PA_POOL_START as u64 + 4094, &[1, 2, 3, 4]);
    fr.memzero_pa(USER_PA_POOL_START as u64 + 4097, 1);
    assert_eq!(fr.read_pa(USER_PA_POOL_START as u64 + 4093, 6), vec![7, 1, 2, 3, 0, 7]);
    fr.reset_user_pages();
    assert_eq!(fr.user_pages_free(), 3);
    assert_eq!(fr.alloc_user_page(), USER_PA_POOL_START);
    assert_eq!(fr.read_pa(USER_PA_POOL_START as u64 + 4093, 6), vec![7, 1, 2, 3, 0, 7]);
    assert!(fr.contains(USER_PA_POOL_START as u64, 3 * 4096));
    assert!(!fr.contains(USER_PA_POOL_START as u64, 3 * 4096 + 1));
    assert!(!fr.contains(USER_PA_POOL_START as u64 - 1, 1));
    assert!(fr.contains(USER_PA_POOL_START as u64 + 3 * 4096, 0));
    assert!(!fr.contains(u64::MAX, 2));
}

fn space() -> AddressSpace {
    let mut pt = tables(16);
    pt.new_root();
    AddressSpace { pt, frames: UserFrames::new(vec![0u8; 8 * 4096], USER_PA_POOL_START).unwrap() }
}

#[test]
fn user_access_respects_permissions() {
    let mut s = space();
    let urw = PTE_V | PTE_U | PTE_R | PTE_W | PTE_A | PTE_D;
    let ur = PTE_V | PTE_U | PTE_R | PTE_A;
    let krw = PTE_V | PTE_R | PTE_W | PTE_A | PTE_D;
    assert_eq!(s.map_user_page(0x4000_0000, urw), Ok(USER_PA_POOL_START));
    assert_eq!(s.map_user_page(0x4000_1000, ur), Ok(USER_PA_POOL_START + 4096));
    assert_eq!(s.map_user_page(0x4000_2000, krw), Ok(USER_PA_POOL_START + 8192));
    assert_eq!(s.map_user_page(0x4000_3000, urw & !PTE_A), Ok(USER_PA_POOL_START + 3 * 4096));
    assert_eq!(s.map_user_page(0x4000_4000, urw & !PTE_D), Ok(USER_PA_POOL_START + 4 * 4096));
    assert_eq!(s.user_page_pa(0x4000_0123, false), Some(USER_PA_POOL_START as u64));
    assert_eq!(s.user_page_pa(0x4000_0123, true), Some(USER_PA_POOL_START as u64));
    assert_eq!(s.user_page_pa(0x4000_1000, false), Some(USER_PA_POOL_START as u64 + 4096));
    assert_eq!(s.user_page_pa(0x4000_1000, true), None);
    assert_eq!(s.user_page_pa(0x4000_2000, false), None);
    assert_eq!(s.user_page_pa(0x4000_3000, false), None);
    assert_eq!(s.user_page_pa(0x4000_4000, false), Some(USER_PA_POOL_START as u64 + 4 * 4096));
    assert_eq!(s.user_page_pa(0x4000_4000, true), None);
    assert_eq!(s.user_page_pa(0x4000_5000, false), None);
    assert!(s.write_user_in_page(0x4000_0ffe, &[1, 2]));
    assert!(!s.write_user_in_page(0x4000_1000, &[3]));
    assert_eq!(s.read_user_in_page(0x4000_0ffe, 2), Some(vec![1, 2]));
    assert_eq!(s.read_user_bytes(0x4000_0ffe, 4), Some(vec![1, 2, 0, 0]));
    assert!(!s.write_user_bytes(0x4000_0ffe, &[5, 6, 7]));
    assert_eq!(s.read_user_bytes(0x4000_0ffe, 3), Some(vec![5, 6, 0]));
    assert_eq!(s.read_user_bytes(0x4000_1ffe, 3), None);
    assert_eq!(s.read_user_bytes(usize::MAX, 2), None);
    assert!(s.write_user_bytes(0x4100_0000, &[]));
    assert_eq!(s.read_user_bytes(0x4100_0000, 0), Some(Vec::new()));
    // frames outside the pool are out of reach
    let root = s.pt.root_pt();
    s.pt.map_4k(root, 0x4000_6000, 0x1000, urw).unwrap();
    assert_eq!(s.user_page_pa(0x4000_6000, false), None);
    // and so are pages that a large leaf maps
    s.pt.map_2m(root, 0x4020_0000, 0x8000_0000, urw).unwrap();
    assert_eq!(s.user_page_pa(0x4020_0000, false), None);
}

#[test]
fn page_cap_counts_to_the_end_of_the_page() {
    assert_eq!(AddressSpace::cap_to_page(0x1000, 10), 10);
    assert_eq!(AddressSpace::cap_to_page(0x1000, 4096), 4096);
    assert_eq!(AddressSpace::cap_to_page(0x1000, 4097), 4096);
    assert_eq!(AddressSpace::cap_to_page(0x1ffb, 18), 5);
    assert_eq!(AddressSpace::cap_to_page(0x1fff, usize::MAX), 1);
    assert_eq!(AddressSpace::cap_to_page(usize::MAX, 3), 1);
    assert_eq!(AddressSpace::cap_to_page(0, 0), 0);
}

#[test]
fn mapping_user_pages_fails_without_harm() {
    let mut pt = tables(3);
    pt.new_root();
    let mut s = AddressSpace { pt, frames: UserFrames::new(vec![0u8; 4096], USER_PA_POOL_START).unwrap() };
    assert_eq!(s.map_user_page(0x4000_0000, 0xd7), Ok(USER_PA_POOL_START));
    assert_eq!(s.map_user_page(0x4000_1000, 0xd7), Err(MapError::OutOfFrames));
    s.frames.reset_user_pages();
    assert_eq!(s.map_user_page(0x8000_0000, 0xd7), Err(MapError::OutOfPtPages));
    assert_eq!(s.frames.user_pages_free(), 1);
    assert_eq!(s.map_user_page(0x4000_1000, 0xd7), Ok(USER_PA_POOL_START));
}
