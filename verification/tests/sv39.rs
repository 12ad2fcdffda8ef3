use bogokernel::elf::pte_flags_from_pf;
use bogokernel::sv39::{
    ppn, vpn_indices, DRAM_BASE, DRAM_SIZE, PTE_A, PTE_D, PTE_G, PTE_R, PTE_U, PTE_V, PTE_W, PTE_X, SIZE_1G,
    SIZE_2M, SIZE_4K, USER_CODE_VA, USER_PA_POOL_END, USER_PA_POOL_START, USER_STACK_VA, USER_VA_BASE,
};

#[test]
fn test_ppn_calculation() {
    assert_eq!(ppn(0x0000), 0);
    assert_eq!(ppn(0x1000), 1);
    assert_eq!(ppn(0x2000), 2);
    assert_eq!(ppn(0x8000_0000), 0x80000);
    assert_eq!(ppn(0xFFFF_F000), 0xFFFFF);
}

#[test]
fn test_vpn_indices_simple() {
    let indices = vpn_indices(0x0000_0000);
    assert_eq!(indices, [0, 0, 0]);
    
    let indices = vpn_indices(0x0000_1000);
    assert_eq!(indices, [1, 0, 0]);
    
    let indices = vpn_indices(0x0020_0000);
    assert_eq!(indices, [0, 1, 0]);
}

#[test]
fn test_vpn_indices_complex() {
    let va = (0x6 << 30) | (0x45 << 21) | (0x123 << 12);
    let indices = vpn_indices(va);
    assert_eq!(indices, [0x123, 0x45, 0x6]);
}

#[test]
fn test_vpn_indices_mask() {
    let va = (0x1FF << 30) | (0x1FF << 21) | (0x1FF << 12);
    let indices = vpn_indices(va);
    assert_eq!(indices, [0x1FF, 0x1FF, 0x1FF]);
    
    assert!(indices[0] <= 0x1FF);
    assert!(indices[1] <= 0x1FF);
    assert!(indices[2] <= 0x1FF);
}

#[test]
fn test_vpn_indices_kernel_addresses() {
    let indices = vpn_indices(DRAM_BASE);
    assert_eq!(indices, [0, 0, 2]);
    
    let indices = vpn_indices(USER_VA_BASE);
    assert_eq!(indices, [0, 0, 1]);
}

#[test]
fn test_pte_flags_constants() {
    assert_eq!(PTE_V, 1 << 0);
    assert_eq!(PTE_R, 1 << 1);
    assert_eq!(PTE_W, 1 << 2);
    assert_eq!(PTE_X, 1 << 3);
    assert_eq!(PTE_U, 1 << 4);
    assert_eq!(PTE_G, 1 << 5);
    assert_eq!(PTE_A, 1 << 6);
    assert_eq!(PTE_D, 1 << 7);
}

#[test]
fn test_page_size_constants() {
    assert_eq!(SIZE_4K, 1 << 12);
    assert_eq!(SIZE_2M, 1 << 21);
    assert_eq!(SIZE_1G, 1 << 30);
}

#[test]
fn test_memory_layout_constants() {
    assert!(DRAM_SIZE > 0);
    assert!(USER_PA_POOL_START < USER_PA_POOL_END);
    assert!(USER_PA_POOL_END <= DRAM_BASE + DRAM_SIZE);
}

#[test]
fn test_user_address_space() {
    assert_eq!(USER_CODE_VA, USER_VA_BASE);
    assert_eq!(USER_STACK_VA, USER_VA_BASE + 0x1000);
    assert!(USER_STACK_VA > USER_CODE_VA);
}

#[test]
fn lib_test_pte_flags_from_pf_no_perms() {
    let flags = pte_flags_from_pf(0);
    assert_eq!(flags & PTE_V, PTE_V);
    assert_eq!(flags & PTE_U, PTE_U);
    assert_eq!(flags & PTE_A, PTE_A);
    assert_eq!(flags & PTE_R, 0);
    assert_eq!(flags & PTE_W, 0);
    assert_eq!(flags & PTE_X, 0);
}

#[test]
fn lib_test_pte_flags_from_pf_read_only() {
    let flags = pte_flags_from_pf(0x4);
    assert_eq!(flags & PTE_R, PTE_R);
    assert_eq!(flags & PTE_W, 0);
    assert_eq!(flags & PTE_X, 0);
    assert_eq!(flags & PTE_D, 0);
}

#[test]
fn lib_test_pte_flags_from_pf_read_write() {
    let flags = pte_flags_from_pf(0x6);
    assert_eq!(flags & PTE_R, PTE_R);
    assert_eq!(flags & PTE_W, PTE_W);
    assert_eq!(flags & PTE_D, PTE_D);
    assert_eq!(flags & PTE_X, 0);
}

#[test]
fn lib_test_pte_flags_from_pf_read_exec() {
    let flags = pte_flags_from_pf(0x5);
    assert_eq!(flags & PTE_R, PTE_R);
    assert_eq!(flags & PTE_X, PTE_X);
    assert_eq!(flags & PTE_W, 0);
    assert_eq!(flags & PTE_D, 0);
}

#[test]
fn lib_test_pte_flags_from_pf_all_perms() {
    let flags = pte_flags_from_pf(0x7);
    assert_eq!(flags & PTE_R, PTE_R);
    assert_eq!(flags & PTE_W, PTE_W);
    assert_eq!(flags & PTE_X, PTE_X);
    assert_eq!(flags & PTE_D, PTE_D);
    assert_eq!(flags & PTE_V, PTE_V);
    assert_eq!(flags & PTE_U, PTE_U);
    assert_eq!(flags & PTE_A, PTE_A);
}

#[test]
fn lib_test_pte_flags_from_pf_write_only() {
    let flags = pte_flags_from_pf(0x2);
    assert_eq!(flags & PTE_W, PTE_W);
    assert_eq!(flags & PTE_D, PTE_D);
    assert_eq!(flags & PTE_R, 0);
    assert_eq!(flags & PTE_X, 0);
}

#[test]
fn lib_test_pte_flags_from_pf_exec_only() {
    let flags = pte_flags_from_pf(0x1);
    assert_eq!(flags & PTE_X, PTE_X);
    assert_eq!(flags & PTE_R, 0);
    assert_eq!(flags & PTE_W, 0);
    assert_eq!(flags & PTE_D, 0);
}

#[test]
fn indices_rebuild_the_page_address() {
    for va in [0usize, 0xfff, 0x1000, 0x4000_3abc, 0x7f_ffff_ffff, 0x12_3456_7890] {
        let [i0, i1, i2] = vpn_indices(va);
        assert!(i0 < 512 && i1 < 512 && i2 < 512);
        assert_eq!((i2 << 30) | (i1 << 21) | (i0 << 12), va & !0xfff);
    }
    assert_eq!(vpn_indices(0x80_0000_0000), [0, 0, 0]);
    assert_eq!(ppn(usize::MAX), (usize::MAX >> 12) as u64);
}

#[test]
fn flags_for_every_permission_set() {
    for pf in 0..8u32 {
        let f = pte_flags_from_pf(pf);
        assert_eq!(f & (PTE_V | PTE_U | PTE_A), PTE_V | PTE_U | PTE_A);
        assert_eq!(f & PTE_R != 0, pf & 4 != 0);
        assert_eq!(f & PTE_X != 0, pf & 1 != 0);
        assert_eq!(f & PTE_W != 0, pf & 2 != 0);
        assert_eq!(f & PTE_D != 0, pf & 2 != 0);
        assert_eq!(f & PTE_G, 0);
        assert_eq!(f >> 8, 0);
        assert_eq!(pte_flags_from_pf(pf | 0xffff_fff8), f);
    }
    assert_eq!(pte_flags_from_pf(6), 0xd7);
}
