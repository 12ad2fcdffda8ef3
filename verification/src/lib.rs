//! Core of a small RISC-V (Sv39) teaching kernel: page tables, ELF loading,
//! syscall dispatch, descriptor and file tables, with every rule stated as a
//! contract and proved.

pub mod boot;
pub mod console;
pub mod display;
pub mod elf;
pub mod forth;
pub mod fs;
pub mod keyboard;
pub mod kmap;
pub mod logging;
pub mod mem;
pub mod sbi;
pub mod sv39;
pub mod text;
pub mod timer;
pub mod trap;
pub mod uapi;
pub mod uart;
pub mod usys;
