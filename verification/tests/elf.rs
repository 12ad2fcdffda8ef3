use bogokernel::elf::{pte_flags_from_pf, ElfLoadError, Loaded};
use core::mem::discriminant;
use goblin::elf::header::{ELFCLASS64, ELFDATA2LSB, EM_RISCV};
use bogokernel::sv39::{PTE_A, PTE_D, PTE_R, PTE_U, PTE_V, PTE_W, PTE_X};

#[test]
fn elf_test_pte_flags_from_pf_no_perms() {
    // No permissions (0)
    let flags = pte_flags_from_pf(0);
    assert_eq!(flags & PTE_V, PTE_V); // Valid
    assert_eq!(flags & PTE_U, PTE_U); // User
    assert_eq!(flags & PTE_A, PTE_A); // Accessed
    assert_eq!(flags & PTE_R, 0);     // Not readable
    assert_eq!(flags & PTE_W, 0);     // Not writable
    assert_eq!(flags & PTE_X, 0);     // Not executable
}

#[test]
fn elf_test_pte_flags_from_pf_read_only() {
    // Read-only (PF_R = 0x4)
    let flags = pte_flags_from_pf(0x4);
    assert_eq!(flags & PTE_R, PTE_R);
    assert_eq!(flags & PTE_W, 0);
    assert_eq!(flags & PTE_X, 0);
    assert_eq!(flags & PTE_D, 0); // No dirty bit for read-only
}

#[test]
fn elf_test_pte_flags_from_pf_read_write() {
    // Read-write (PF_R | PF_W = 0x6)
    let flags = pte_flags_from_pf(0x6);
    assert_eq!(flags & PTE_R, PTE_R);
    assert_eq!(flags & PTE_W, PTE_W);
    assert_eq!(flags & PTE_D, PTE_D); // Dirty bit set for writable
    assert_eq!(flags & PTE_X, 0);
}

#[test]
fn elf_test_pte_flags_from_pf_read_exec() {
    // Read-execute (PF_R | PF_X = 0x5)
    let flags = pte_flags_from_pf(0x5);
    assert_eq!(flags & PTE_R, PTE_R);
    assert_eq!(flags & PTE_X, PTE_X);
    assert_eq!(flags & PTE_W, 0);
    assert_eq!(flags & PTE_D, 0);
}

#[test]
fn elf_test_pte_flags_from_pf_all_perms() {
    // All permissions (PF_R | PF_W | PF_X = 0x7)
    let flags = pte_flags_from_pf(0x7);
    assert_eq!(flags & PTE_R, PTE_R);
    assert_eq!(flags & PTE_W, PTE_W);
    assert_eq!(flags & PTE_X, PTE_X);
    assert_eq!(flags & PTE_D, PTE_D);
    assert_eq!(flags & PTE_V, PTE_V);
    assert_eq!(flags & PTE_U, PTE_U);
    assert_eq!(flags & PTE_A, PTE_A);
}

#[test]
fn elf_test_pte_flags_from_pf_write_only() {
    // Write-only (PF_W = 0x2) - unusual but valid
    let flags = pte_flags_from_pf(0x2);
    assert_eq!(flags & PTE_W, PTE_W);
    assert_eq!(flags & PTE_D, PTE_D);
    assert_eq!(flags & PTE_R, 0);
    assert_eq!(flags & PTE_X, 0);
}

#[test]
fn elf_test_pte_flags_from_pf_exec_only() {
    // Execute-only (PF_X = 0x1)
    let flags = pte_flags_from_pf(0x1);
    assert_eq!(flags & PTE_X, PTE_X);
    assert_eq!(flags & PTE_R, 0);
    assert_eq!(flags & PTE_W, 0);
    assert_eq!(flags & PTE_D, 0);
}

#[test]
fn test_elf_load_error_types() {
    // Verify error types are distinct
    assert_ne!(discriminant(&ElfLoadError::Short), discriminant(&ElfLoadError::BadMagic));
    assert_ne!(discriminant(&ElfLoadError::Not64LE), discriminant(&ElfLoadError::NotRiscv));
    assert_ne!(discriminant(&ElfLoadError::PhOutOfBounds), discriminant(&ElfLoadError::SatpNotSet));
}

#[test]
fn test_loaded_struct_fields() {
    // Test that Loaded struct can be created and accessed
    let loaded = Loaded {
        entry_va: 0x10000,
        user_sp: 0x20000,
        argc: 2,
        argv_va: 0x1F000,
        envp_va: 0x1E000,
        brk: 0x30000,
    };
    
    assert_eq!(loaded.entry_va, 0x10000);
    assert_eq!(loaded.user_sp, 0x20000);
    assert_eq!(loaded.argc, 2);
    assert_eq!(loaded.argv_va, 0x1F000);
    assert_eq!(loaded.envp_va, 0x1E000);
    assert_eq!(loaded.brk, 0x30000);
}

#[test]
fn test_elf_constants() {
    // Verify ELF constants are correct
    assert_eq!(ELFCLASS64, 2);
    assert_eq!(ELFDATA2LSB, 1);
    assert_eq!(EM_RISCV, 243);
}
