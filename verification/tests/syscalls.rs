use bogokernel::boot::{rust_start, BootError, BootInfo};
use bogokernel::display::{DisplayMode, FramebufferInfo};
use bogokernel::elf::ElfLoadError;
use bogokernel::fs::{lookup_writable, stat_file, File, RamFs};
use bogokernel::keyboard::push_input;
use bogokernel::mem::{AddressSpace, UserFrames};
use bogokernel::sv39::{PageTables, DRAM_BASE, UART0, USER_PA_POOL_START};
use bogokernel::trap::{
    fd_get, get_framebuffer, register_framebuffer, rust_trap, FileType, Kernel, Trap, TrapFrame, TrapOutcome,
    USER_FB_VA, USER_STACK_TOP,
};

const PT_BASE: usize = 0x8020_0000;
const SENTINEL: usize = usize::MAX;
const BUF: usize = 0x4000_4000;
const SHELL_ENTRY: u64 = 0x4000_0000;
const PROG_ENTRY: u64 = 0x4000_0010;

fn put16(v: &mut Vec<u8>, x: u16) {
    v.extend_from_slice(&x.to_le_bytes());
}

fn put32(v: &mut Vec<u8>, x: u32) {
    v.extend_from_slice(&x.to_le_bytes());
}

fn put64(v: &mut Vec<u8>, x: u64) {
    v.extend_from_slice(&x.to_le_bytes());
}

fn tiny_elf(entry: u64) -> Vec<u8> {
    let mut v: Vec<u8> = vec![0x7f, 0x45, 0x4c, 0x46, 2, 1, 1, 0, 0, 0, 0, 0, 0, 0, 0, 0];
    put16(&mut v, 2);
    put16(&mut v, 243);
    put32(&mut v, 1);
    put64(&mut v, entry);
    put64(&mut v, 64);
    put64(&mut v, 0);
    put32(&mut v, 0);
    put16(&mut v, 64);
    put16(&mut v, 56);
    put16(&mut v, 1);
    put16(&mut v, 64);
    put16(&mut v, 0);
    put16(&mut v, 0);
    put32(&mut v, 1);
    put32(&mut v, 7);
    put64(&mut v, 120);
    put64(&mut v, 0x4000_0000);
    put64(&mut v, 0x4000_0000);
    put64(&mut v, 32);
    put64(&mut v, 0x1800);
    put64(&mut v, 4096);
    v.extend_from_slice(&[0x13u8; 32]);
    v
}

fn leak(v: Vec<u8>) -> &'static [u8] {
    Box::leak(v.into_boxed_slice())
}

fn kernel_with(files: Vec<File>) -> Kernel {
    let pt = PageTables::new(vec![0u64; 32 * 512], PT_BASE).unwrap();
    let frames = UserFrames::new(vec![0u8; 256 * 4096], USER_PA_POOL_START).unwrap();
    Kernel::new(AddressSpace { pt, frames }, RamFs::new(files))
}

fn default_files() -> Vec<File> {
    vec![
        File { name: "shell.elf", data: leak(tiny_elf(SHELL_ENTRY)) },
        File { name: "prog.elf", data: leak(tiny_elf(PROG_ENTRY)) },
        File { name: "hello.txt", data: b"Hello from RAMFS!\n" },
        File { name: "broken.elf", data: b"this is no program at all, only text that is long enough to pass for a header" },
    ]
}

fn booted() -> (Kernel, BootInfo) {
    let mut k = kernel_with(default_files());
    let info = rust_start(&mut k, "").unwrap();
    (k, info)
}

fn frame(nr: usize, a0: usize, a1: usize, a2: usize) -> TrapFrame {
    TrapFrame {
        ra: 1,
        sp: 2,
        t0: 3,
        t1: 4,
        t2: 5,
        a0,
        a1,
        a2,
        a3: 6,
        a4: 7,
        a5: 8,
        a6: 9,
        a7: nr,
        t3: 10,
        t4: 11,
        t5: 12,
        t6: 13,
        sepc: 0x4000_0100,
        sstatus_bits: 0x20,
    }
}

fn call(k: &mut Kernel, nr: usize, a0: usize, a1: usize, a2: usize) -> (usize, TrapOutcome, TrapFrame) {
    let mut tf = frame(nr, a0, a1, a2);
    let out = rust_trap(k, &mut tf, Trap::UserEnvCall, 0);
    (tf.a0, out, tf)
}

fn ok(k: &mut Kernel, nr: usize, a0: usize, a1: usize, a2: usize) -> usize {
    let (v, out, tf) = call(k, nr, a0, a1, a2);
    assert_eq!(out, TrapOutcome::Resume);
    assert_eq!(tf.sepc, 0x4000_0104);
    assert_eq!((tf.ra, tf.sp, tf.a7, tf.sstatus_bits), (1, 2, nr, 0x20));
    v
}

fn poke(k: &mut Kernel, va: usize, bytes: &[u8]) {
    assert!(k.space.write_user_bytes(va, bytes));
}

fn peek(k: &Kernel, va: usize, len: usize) -> Vec<u8> {
    k.space.read_user_bytes(va, len).unwrap()
}

fn path(k: &mut Kernel, va: usize, name: &str) -> usize {
    let mut b = name.as_bytes().to_vec();
    b.push(0);
    poke(k, va, &b);
    va
}

fn drain(k: &mut Kernel) -> Vec<u8> {
    std::mem::take(&mut k.console)
}

#[test]
fn boot_brings_up_the_shell() {
    let (k, info) = booted();
    assert_eq!(info.image.entry_va, SHELL_ENTRY as usize);
    assert_eq!(info.image.argc, 1);
    assert_eq!(info.image.brk, 0x4000_1800);
    assert_eq!(k.brk, 0x4000_1800);
    assert_eq!(info.display, DisplayMode::Ansi);
    assert_eq!(info.image.user_sp % 16, 0);
    let root = k.space.pt.root_pt();
    assert_ne!(root, 0);
    assert_eq!(info.satp, (8u64 << 60) | (root as u64 >> 12));
    // argv[0] is "shell", envp[0] is "PATH=/"
    let argv0 = u64::from_le_bytes(peek(&k, info.image.argv_va, 8).try_into().unwrap()) as usize;
    assert_eq!(peek(&k, argv0, 6), b"shell\0".to_vec());
    let envp0 = u64::from_le_bytes(peek(&k, info.image.envp_va, 8).try_into().unwrap()) as usize;
    assert_eq!(peek(&k, envp0, 7), b"PATH=/\0".to_vec());
    // the kernel's memory and the UART are mapped to themselves
    assert_eq!(k.space.pt.translate(root, DRAM_BASE + 0x12_3456), Some((DRAM_BASE + 0x12_3456) as u64));
    assert_eq!(k.space.pt.translate(root, DRAM_BASE + 0x7ff_ffff), Some((DRAM_BASE + 0x7ff_ffff) as u64));
    assert_eq!(k.space.pt.translate(root, UART0 + 5), Some((UART0 + 5) as u64));
    assert!(k.space.pt.translate(root, DRAM_BASE + 0x800_0000).is_none());
    // every embedded file is writable now, programs executable
    assert_eq!(stat_file(&k.fs, "shell.elf").unwrap().mode, 0o755);
    assert_eq!(stat_file(&k.fs, "hello.txt").unwrap().mode, 0o644);
    assert!(stat_file(&k.fs, "hello.txt").unwrap().is_writable);
    assert_eq!(lookup_writable(&k.fs, "hello.txt"), Some(2));
}

#[test]
fn boot_reads_the_display_from_the_arguments() {
    let mut k = kernel_with(default_files());
    assert_eq!(rust_start(&mut k, "quiet display=gpu").unwrap().display, DisplayMode::Gpu);
    let mut k = kernel_with(default_files());
    assert_eq!(rust_start(&mut k, "display=gpu display=vga").unwrap().display, DisplayMode::Ansi);
}

#[test]
fn boot_fails_without_shell_or_room() {
    let mut k = kernel_with(vec![File { name: "hello.txt", data: b"x" }]);
    assert_eq!(rust_start(&mut k, ""), Err(BootError::ShellMissing));
    let mut k = kernel_with(vec![File { name: "shell.elf", data: b"not a program, but sixty-four bytes are needed to get past the size" }]);
    assert_eq!(rust_start(&mut k, ""), Err(BootError::Load(ElfLoadError::BadMagic)));
    let pt = PageTables::new(vec![0u64; 3 * 512], PT_BASE).unwrap();
    let frames = UserFrames::new(vec![0u8; 16 * 4096], USER_PA_POOL_START).unwrap();
    let mut k = Kernel::new(AddressSpace { pt, frames }, RamFs::new(default_files()));
    assert_eq!(rust_start(&mut k, ""), Err(BootError::PageTables));
}

#[test]
fn cat_prints_a_file() {
    let (mut k, _) = booted();
    let p = path(&mut k, BUF, "hello.txt");
    let fd = ok(&mut k, 4, p, 0, 0);
    assert_eq!(fd, 3);
    let n = ok(&mut k, 5, fd, BUF + 0x100, 128);
    assert_eq!(n, 18);
    assert_eq!(ok(&mut k, 6, 1, BUF + 0x100, n), 18);
    assert_eq!(drain(&mut k), b"Hello from RAMFS!\r\n".to_vec());
    assert_eq!(ok(&mut k, 5, fd, BUF + 0x100, 128), 0);
    assert_eq!(ok(&mut k, 7, fd, 0, 0), 0);
    assert_eq!(ok(&mut k, 7, fd, 0, 0), SENTINEL);
    assert_eq!(ok(&mut k, 5, fd, BUF + 0x100, 128), SENTINEL);
}

#[test]
fn open_falls_back_to_the_embedded_layer() {
    let mut k = kernel_with(default_files());
    let mut tf = frame(0, 0, 0, 0);
    // no boot: the writable layer is empty, and user memory has to be set up by hand
    k.space.pt.new_root();
    assert!(k.space.map_user_page(BUF, 0xd7).is_ok());
    let p = path(&mut k, BUF, "hello.txt");
    tf.a7 = 4;
    tf.a0 = p;
    assert_eq!(rust_trap(&mut k, &mut tf, Trap::UserEnvCall, 0), TrapOutcome::Resume);
    assert_eq!(tf.a0, 3);
    let e = fd_get(&k.fds, 3).unwrap();
    assert_eq!(e.file_type, FileType::ReadOnly(2));
    assert!(!e.writable);
    assert_eq!(ok(&mut k, 5, 3, BUF + 0x100, 5), 5);
    assert_eq!(peek(&k, BUF + 0x100, 5), b"Hello".to_vec());
    assert_eq!(ok(&mut k, 6, 3, BUF + 0x100, 5), SENTINEL);
    assert_eq!(ok(&mut k, 8, 3, 0, 2), 18);
}

#[test]
fn descriptor_records_the_layer_it_was_opened_in() {
    let (mut k, _) = booted();
    let p = path(&mut k, BUF, "hello.txt");
    let fd = ok(&mut k, 4, p, 0, 0);
    assert_eq!(fd_get(&k.fds, fd).unwrap().file_type, FileType::Writable(2));
    ok(&mut k, 5, fd, BUF + 0x100, 4);
    ok(&mut k, 8, fd, 1, 0);
    assert_eq!(fd_get(&k.fds, fd).unwrap().file_type, FileType::Writable(2));
    assert_eq!(fd_get(&k.fds, fd).unwrap().offset, 1);
    let q = path(&mut k, BUF, "new.txt");
    let fd2 = ok(&mut k, 14, q, 0, 0);
    assert_eq!(fd2, 4);
    let e = fd_get(&k.fds, fd2).unwrap();
    assert_eq!(e.file_type, FileType::Writable(4));
    assert!(e.writable);
}

#[test]
fn creat_write_read_unlink() {
    let (mut k, _) = booted();
    let text = b"Hello, writable filesystem!\n";
    let p = path(&mut k, BUF, "test.txt");
    let fd = ok(&mut k, 14, p, 0o644, 0);
    assert_eq!(fd, 3);
    poke(&mut k, BUF + 0x200, text);
    assert_eq!(ok(&mut k, 6, fd, BUF + 0x200, text.len()), text.len());
    assert_eq!(ok(&mut k, 7, fd, 0, 0), 0);
    let fd = ok(&mut k, 4, p, 0, 0);
    assert_eq!(fd, 3);
    assert_eq!(ok(&mut k, 5, fd, BUF + 0x400, 128), text.len());
    assert_eq!(peek(&k, BUF + 0x400, text.len()), text.to_vec());
    assert_eq!(ok(&mut k, 6, fd, BUF + 0x200, 4), SENTINEL);
    assert_eq!(ok(&mut k, 7, fd, 0, 0), 0);
    assert_eq!(ok(&mut k, 15, p, 0, 0), 0);
    assert_eq!(ok(&mut k, 16, p, BUF + 0x600, 0), SENTINEL);
    assert_eq!(ok(&mut k, 15, p, 0, 0), SENTINEL);
    assert_eq!(ok(&mut k, 4, p, 0, 0), SENTINEL);
}

#[test]
fn creat_truncates_and_resets_the_mode() {
    let (mut k, _) = booted();
    let p = path(&mut k, BUF, "hello.txt");
    assert_eq!(ok(&mut k, 17, p, 0o777, 0), 0);
    assert_eq!(ok(&mut k, 16, p, BUF + 0x100, 0), 0);
    assert_eq!(peek(&k, BUF + 0x100, 16), [18u64.to_le_bytes(), 0o777u64.to_le_bytes()].concat());
    let fd = ok(&mut k, 14, p, 0, 0);
    assert_eq!(ok(&mut k, 16, p, BUF + 0x100, 0), 0);
    assert_eq!(peek(&k, BUF + 0x100, 16), [0u64.to_le_bytes(), 0o600u64.to_le_bytes()].concat());
    assert_eq!(ok(&mut k, 5, fd, BUF + 0x200, 10), 0);
    assert_eq!(lookup_writable(&k.fs, "hello.txt"), Some(2));
    assert_eq!(k.fs.files.len(), 4);
}

#[test]
fn writes_past_the_end_fill_the_gap_with_zeros() {
    let (mut k, _) = booted();
    let p = path(&mut k, BUF, "gap");
    let fd = ok(&mut k, 14, p, 0, 0);
    poke(&mut k, BUF + 0x100, b"abcdef");
    assert_eq!(ok(&mut k, 8, fd, 4, 0), 4);
    assert_eq!(ok(&mut k, 6, fd, BUF + 0x100, 3), 3);
    assert_eq!(ok(&mut k, 8, fd, 1, 0), 1);
    assert_eq!(ok(&mut k, 6, fd, BUF + 0x103, 2), 2);
    assert_eq!(ok(&mut k, 8, fd, 0, 2), 7);
    assert_eq!(ok(&mut k, 8, fd, 0, 0), 0);
    assert_eq!(ok(&mut k, 7, fd, 0, 0), 0);
    let fd = ok(&mut k, 4, p, 0, 0);
    assert_eq!(ok(&mut k, 5, fd, BUF + 0x200, 64), 7);
    assert_eq!(peek(&k, BUF + 0x200, 7), vec![0, b'd', b'e', 0, b'a', b'b', b'c']);
}

#[test]
fn descriptors_run_out_after_29() {
    let (mut k, _) = booted();
    let p = path(&mut k, BUF, "hello.txt");
    for i in 0..29 {
        assert_eq!(ok(&mut k, 4, p, 0, 0), 3 + i);
    }
    assert_eq!(ok(&mut k, 4, p, 0, 0), SENTINEL);
    assert_eq!(ok(&mut k, 14, p, 0, 0), SENTINEL);
    assert_eq!(ok(&mut k, 7, 10, 0, 0), 0);
    assert_eq!(ok(&mut k, 7, 20, 0, 0), 0);
    assert_eq!(ok(&mut k, 4, p, 0, 0), 10);
    assert_eq!(ok(&mut k, 4, p, 0, 0), 20);
    assert_eq!(ok(&mut k, 4, p, 0, 0), SENTINEL);
    for fd in [0usize, 1, 2, 32, 1000, SENTINEL] {
        assert_eq!(ok(&mut k, 7, fd, 0, 0), SENTINEL);
    }
}

#[test]
fn lseek_moves_the_offset() {
    let (mut k, _) = booted();
    let p = path(&mut k, BUF, "hello.txt");
    let fd = ok(&mut k, 4, p, 0, 0);
    assert_eq!(ok(&mut k, 8, fd, 7, 0), 7);
    assert_eq!(ok(&mut k, 8, fd, 0, 1), 7);
    assert_eq!(ok(&mut k, 8, fd, 7, 0), 7);
    assert_eq!(ok(&mut k, 8, fd, 3, 1), 10);
    assert_eq!(ok(&mut k, 8, fd, (-4isize) as usize, 1), 6);
    assert_eq!(ok(&mut k, 8, fd, (-7isize) as usize, 1), SENTINEL);
    assert_eq!(ok(&mut k, 8, fd, 0, 1), 6);
    assert_eq!(ok(&mut k, 8, fd, 0, 2), 18);
    assert_eq!(ok(&mut k, 8, fd, (-18isize) as usize, 2), 0);
    assert_eq!(ok(&mut k, 8, fd, (-19isize) as usize, 2), SENTINEL);
    assert_eq!(ok(&mut k, 8, fd, 100, 2), 118);
    assert_eq!(ok(&mut k, 5, fd, BUF + 0x100, 8), 0);
    assert_eq!(ok(&mut k, 8, fd, 0, 3), SENTINEL);
    assert_eq!(ok(&mut k, 8, fd, (-1isize) as usize, 0), SENTINEL);
    assert_eq!(ok(&mut k, 8, fd, isize::MAX as usize, 1), SENTINEL);
    assert_eq!(ok(&mut k, 8, fd, isize::MAX as usize, 0), isize::MAX as usize);
    assert_eq!(ok(&mut k, 8, 9, 0, 0), SENTINEL);
    assert_eq!(ok(&mut k, 8, 0, 0, 0), SENTINEL);
}

#[test]
fn lseek_sees_a_removed_file_as_gone() {
    let (mut k, _) = booted();
    let p = path(&mut k, BUF, "last");
    let fd = ok(&mut k, 14, p, 0, 0);
    assert_eq!(ok(&mut k, 15, p, 0, 0), 0);
    assert_eq!(ok(&mut k, 8, fd, 0, 0), SENTINEL);
    assert_eq!(ok(&mut k, 5, fd, BUF + 0x100, 8), SENTINEL);
    poke(&mut k, BUF + 0x100, b"x");
    assert_eq!(ok(&mut k, 6, fd, BUF + 0x100, 1), SENTINEL);
}

#[test]
fn unlink_closes_what_was_open_on_the_file_and_keeps_the_rest_on_theirs() {
    let (mut k, _) = booted();
    let a = path(&mut k, BUF, "a.txt");
    let fa = ok(&mut k, 14, a, 0, 0);
    let b = path(&mut k, BUF + 0x40, "b.txt");
    let fb = ok(&mut k, 14, b, 0, 0);
    let h = path(&mut k, BUF + 0x80, "hello.txt");
    let fh = ok(&mut k, 4, h, 0, 0);
    assert_eq!((fa, fb, fh), (3, 4, 5));
    poke(&mut k, BUF + 0x200, b"bee");
    assert_eq!(ok(&mut k, 6, fb, BUF + 0x200, 3), 3);
    assert_eq!(fd_get(&k.fds, fa).unwrap().file_type, FileType::Writable(4));
    assert_eq!(fd_get(&k.fds, fb).unwrap().file_type, FileType::Writable(5));
    assert_eq!(fd_get(&k.fds, fh).unwrap().file_type, FileType::Writable(2));
    assert_eq!(ok(&mut k, 15, a, 0, 0), 0);
    // the descriptor on the removed file is closed
    assert!(fd_get(&k.fds, fa).is_none());
    assert_eq!(ok(&mut k, 7, fa, 0, 0), SENTINEL);
    // the one on the file behind it follows its file, offset and all
    let e = fd_get(&k.fds, fb).unwrap();
    assert_eq!(e.file_type, FileType::Writable(4));
    assert_eq!(e.offset, 3);
    assert!(e.writable);
    assert_eq!(lookup_writable(&k.fs, "b.txt"), Some(4));
    assert_eq!(ok(&mut k, 8, fb, 0, 0), 0);
    assert_eq!(ok(&mut k, 5, fb, BUF + 0x400, 16), 3);
    assert_eq!(peek(&k, BUF + 0x400, 3), b"bee".to_vec());
    // the one on a file before it stays
    assert_eq!(fd_get(&k.fds, fh).unwrap().file_type, FileType::Writable(2));
    assert_eq!(ok(&mut k, 5, fh, BUF + 0x400, 5), 5);
    assert_eq!(peek(&k, BUF + 0x400, 5), b"Hello".to_vec());
    // the freed descriptor is the next to be handed out
    assert_eq!(ok(&mut k, 4, h, 0, 0), 3);
}

#[test]
fn null_buffer_and_no_length_transfer_nothing() {
    let (mut k, _) = booted();
    let p = path(&mut k, BUF, "hello.txt");
    let fd = ok(&mut k, 4, p, 0, 0);
    assert_eq!(ok(&mut k, 5, fd, 0, 10), 0);
    assert_eq!(ok(&mut k, 5, fd, BUF, 0), 0);
    assert_eq!(ok(&mut k, 5, 0, 0, 10), 0);
    assert_eq!(ok(&mut k, 5, 77, 0, 10), 0);
    assert_eq!(ok(&mut k, 6, 1, 0, 10), 0);
    assert_eq!(ok(&mut k, 6, 1, BUF, 0), 0);
    assert_eq!(ok(&mut k, 6, fd, 0, 0), 0);
    assert_eq!(ok(&mut k, 1, 0, 10, 0), 0);
    assert_eq!(ok(&mut k, 1, BUF, 0, 0), 0);
    assert_eq!(ok(&mut k, 3, 0, 0, 0), 0);
    assert_eq!(ok(&mut k, 18, 0, 100, 0), 0);
    assert_eq!(ok(&mut k, 18, BUF, 0, 0), 0);
    assert_eq!(fd_get(&k.fds, fd).unwrap().offset, 0);
    assert!(drain(&mut k).is_empty());
}

#[test]
fn transfers_stop_at_the_end_of_the_page() {
    let (mut k, _) = booted();
    let p = path(&mut k, BUF, "hello.txt");
    let fd = ok(&mut k, 4, p, 0, 0);
    let near = BUF + 0x1000 - 5;
    assert_eq!(ok(&mut k, 5, fd, near, 18), 5);
    assert_eq!(ok(&mut k, 5, fd, near + 5, 13), 13);
    assert_eq!(peek(&k, near, 18), b"Hello from RAMFS!\n".to_vec());
    assert_eq!(ok(&mut k, 6, 1, near, 18), 5);
    assert_eq!(ok(&mut k, 6, 2, near + 5, 13), 13);
    assert_eq!(drain(&mut k), b"Hello from RAMFS!\r\n".to_vec());
    let q = path(&mut k, BUF, "copy");
    let out = ok(&mut k, 14, q, 0, 0);
    assert_eq!(ok(&mut k, 6, out, near, 18), 5);
    assert_eq!(ok(&mut k, 6, out, near + 5, 13), 13);
    assert_eq!(k.fs.files[4].data, b"Hello from RAMFS!\n".to_vec());
}

#[test]
fn stdout_is_not_readable_and_stdin_not_writable() {
    let (mut k, _) = booted();
    assert_eq!(ok(&mut k, 5, 1, BUF, 4), SENTINEL);
    assert_eq!(ok(&mut k, 5, 2, BUF, 4), SENTINEL);
    poke(&mut k, BUF, b"abc");
    assert_eq!(ok(&mut k, 6, 0, BUF, 3), SENTINEL);
    assert_eq!(ok(&mut k, 6, 5, BUF, 3), SENTINEL);
}

#[test]
fn stdin_waits_for_input_and_then_drains_it() {
    let (mut k, _) = booted();
    let mut tf = frame(5, 0, BUF, 16);
    let before = tf;
    assert_eq!(rust_trap(&mut k, &mut tf, Trap::UserEnvCall, 0), TrapOutcome::NeedInput);
    assert_eq!(tf, before);
    for b in b"ls -l\n" {
        push_input(&mut k.input, *b);
    }
    assert_eq!(rust_trap(&mut k, &mut tf, Trap::UserEnvCall, 0), TrapOutcome::Resume);
    assert_eq!(tf.a0, 6);
    assert_eq!(tf.sepc, 0x4000_0104);
    assert_eq!(peek(&k, BUF, 6), b"ls -l\n".to_vec());
    assert_eq!(k.input.len(), 0);
    for b in b"abcdef" {
        push_input(&mut k.input, *b);
    }
    assert_eq!(ok(&mut k, 5, 0, BUF, 4), 4);
    assert_eq!(peek(&k, BUF, 4), b"abcd".to_vec());
    assert_eq!(k.input.len(), 2);
    // a buffer that cannot be written leaves the input where it is
    assert_eq!(ok(&mut k, 5, 0, 0x4100_0000, 4), SENTINEL);
    assert_eq!(k.input.len(), 2);
    assert_eq!(ok(&mut k, 5, 0, BUF, 4), 2);
    assert_eq!(peek(&k, BUF, 2), b"ef".to_vec());
}

#[test]
fn plain_writes_reach_the_console() {
    let (mut k, _) = booted();
    poke(&mut k, BUF, b"a\nb\n\0c");
    assert_eq!(ok(&mut k, 1, BUF, 4, 0), 4);
    assert_eq!(drain(&mut k), b"a\r\nb\r\n".to_vec());
    assert_eq!(ok(&mut k, 3, BUF, 0, 0), 4);
    assert_eq!(drain(&mut k), b"a\r\nb\r\n".to_vec());
    // write(ptr, len) crosses pages, write_cstr stops at the end of the page
    let near = BUF + 0x1000 - 3;
    poke(&mut k, near, b"xyzuvw");
    assert_eq!(ok(&mut k, 1, near, 6, 0), 6);
    assert_eq!(drain(&mut k), b"xyzuvw".to_vec());
    assert_eq!(ok(&mut k, 3, near, 0, 0), 3);
    assert_eq!(drain(&mut k), b"xyz".to_vec());
}

#[test]
fn unmapped_pointers_fail_without_harm() {
    let (mut k, _) = booted();
    let nowhere = 0x4100_0000;
    let p = path(&mut k, BUF, "hello.txt");
    let fd = ok(&mut k, 4, p, 0, 0);
    assert_eq!(ok(&mut k, 4, nowhere, 0, 0), SENTINEL);
    assert_eq!(ok(&mut k, 5, fd, nowhere, 4), SENTINEL);
    assert_eq!(fd_get(&k.fds, fd).unwrap().offset, 0);
    assert_eq!(ok(&mut k, 6, 1, nowhere, 4), SENTINEL);
    assert_eq!(ok(&mut k, 1, nowhere, 4, 0), SENTINEL);
    assert_eq!(ok(&mut k, 3, nowhere, 0, 0), SENTINEL);
    assert_eq!(ok(&mut k, 14, nowhere, 0, 0), SENTINEL);
    assert_eq!(ok(&mut k, 15, nowhere, 0, 0), SENTINEL);
    assert_eq!(ok(&mut k, 16, p, nowhere, 0), SENTINEL);
    assert_eq!(ok(&mut k, 16, nowhere, BUF, 0), SENTINEL);
    assert_eq!(ok(&mut k, 17, nowhere, 0, 0), SENTINEL);
    assert_eq!(ok(&mut k, 18, nowhere, 64, 0), SENTINEL);
    assert_eq!(ok(&mut k, 12, nowhere, 0, 0), SENTINEL);
    assert_eq!(ok(&mut k, 13, p, nowhere, 0), SENTINEL);
    // kernel memory is mapped, but not for the program
    assert_eq!(ok(&mut k, 6, 1, DRAM_BASE, 4), SENTINEL);
    assert_eq!(ok(&mut k, 5, fd, DRAM_BASE, 4), SENTINEL);
    assert!(drain(&mut k).is_empty());
    // a write across pages that fails half way reports failure
    assert_eq!(ok(&mut k, 1, USER_STACK_TOP - 2, 4, 0), SENTINEL);
}

#[test]
fn paths_must_end_and_be_text() {
    let (mut k, _) = booted();
    // no zero byte before the end of the page
    let near = BUF + 0x1000 - 4;
    poke(&mut k, near, b"abcd");
    assert_eq!(ok(&mut k, 4, near, 0, 0), SENTINEL);
    // no zero byte within 255 bytes
    poke(&mut k, BUF, &[b'a'; 300]);
    assert_eq!(ok(&mut k, 14, BUF, 0, 0), SENTINEL);
    poke(&mut k, BUF + 254, &[0]);
    assert_eq!(ok(&mut k, 14, BUF, 0, 0), 3);
    assert_eq!(k.fs.files[4].name.len(), 254);
    // bytes that are not UTF-8
    poke(&mut k, BUF, &[0xff, 0xfe, 0]);
    assert_eq!(ok(&mut k, 14, BUF, 0, 0), SENTINEL);
    assert_eq!(k.fs.files.len(), 5);
    // text beyond ASCII is a name like any other
    let p = path(&mut k, BUF, "grüße.txt");
    assert_eq!(ok(&mut k, 14, p, 0, 0), 4);
    assert_eq!(lookup_writable(&k.fs, "grüße.txt"), Some(5));
}

#[test]
fn stat_chmod_readdir() {
    let (mut k, _) = booted();
    let p = path(&mut k, BUF, "prog.elf");
    assert_eq!(ok(&mut k, 16, p, BUF + 0x100, 0), 0);
    let size = tiny_elf(PROG_ENTRY).len() as u64;
    assert_eq!(peek(&k, BUF + 0x100, 16), [size.to_le_bytes(), 0o755u64.to_le_bytes()].concat());
    assert_eq!(ok(&mut k, 17, p, 0x1_0000_0000 | 0o700, 0), 0);
    assert_eq!(stat_file(&k.fs, "prog.elf").unwrap().mode, 0o700);
    let q = path(&mut k, BUF, "missing");
    assert_eq!(ok(&mut k, 17, q, 0o700, 0), SENTINEL);
    assert_eq!(ok(&mut k, 16, q, BUF + 0x100, 0), SENTINEL);
    let listing = b"shell.elf\0prog.elf\0hello.txt\0broken.elf\0".to_vec();
    poke(&mut k, BUF + 0x200, &[0x55; 64]);
    assert_eq!(ok(&mut k, 18, BUF + 0x200, 64, 0), 4);
    assert_eq!(peek(&k, BUF + 0x200, listing.len()), listing);
    assert_eq!(peek(&k, BUF + 0x200 + listing.len(), 4), vec![0x55; 4]);
    // room for two names and a half: two are listed
    poke(&mut k, BUF + 0x200, &[0x55; 64]);
    assert_eq!(ok(&mut k, 18, BUF + 0x200, 25, 0), 2);
    assert_eq!(peek(&k, BUF + 0x200, 24), b"shell.elf\0prog.elf\0UUUUU".to_vec());
    assert_eq!(ok(&mut k, 18, BUF + 0x200, 9, 0), 0);
    assert_eq!(ok(&mut k, 18, BUF + 0x200, 10, 0), 1);
    // the page's end limits the room as well
    assert_eq!(ok(&mut k, 18, BUF + 0x1000 - 12, 64, 0), 1);
}

#[test]
fn exec_of_a_missing_file_returns_to_the_caller() {
    let (mut k, _) = booted();
    let p = path(&mut k, BUF, "no_such.elf");
    poke(&mut k, BUF + 0x800, b"still here");
    let (v, out, tf) = call(&mut k, 13, p, 0, 0);
    assert_eq!(v, SENTINEL);
    assert_eq!(out, TrapOutcome::Resume);
    assert_eq!(tf.sepc, 0x4000_0104);
    assert_eq!(peek(&k, BUF + 0x800, 10), b"still here".to_vec());
    let q = path(&mut k, BUF + 0x900, "hello.txt");
    let fd = ok(&mut k, 4, q, 0, 0);
    assert_eq!(ok(&mut k, 12, p, 0, 0), SENTINEL);
    assert!(fd_get(&k.fds, fd).is_some());
    assert_eq!(k.brk, 0x4000_1800);
}

#[test]
fn exec_replaces_the_program() {
    let (mut k, _) = booted();
    let p = path(&mut k, BUF, "hello.txt");
    let fd = ok(&mut k, 4, p, 0, 0);
    assert_eq!(ok(&mut k, 9, 0x4000_5000, 0, 0), 0x4000_5000);
    let p = path(&mut k, BUF, "prog.elf");
    let (_, out, tf) = call(&mut k, 12, p, 0, 0);
    assert_eq!(out, TrapOutcome::ResumeFlushed);
    assert_eq!(tf.sepc, PROG_ENTRY as usize);
    assert_eq!(tf.a0, 1);
    assert_eq!(tf.sp % 16, 0);
    assert_eq!((tf.ra, tf.a3, tf.a7), (1, 6, 12));
    let argv0 = u64::from_le_bytes(peek(&k, tf.a1, 8).try_into().unwrap()) as usize;
    assert_eq!(peek(&k, argv0, 9), b"prog.elf\0".to_vec());
    assert_eq!(u64::from_le_bytes(peek(&k, tf.a1 + 8, 8).try_into().unwrap()), 0);
    let envp0 = u64::from_le_bytes(peek(&k, tf.a2, 8).try_into().unwrap()) as usize;
    assert_eq!(peek(&k, envp0, 7), b"PATH=/\0".to_vec());
    assert_eq!(k.brk, 0x4000_1800);
    // exec closes the descriptors; frames are handed out from the start again
    assert!(fd_get(&k.fds, fd).is_none());
    assert_eq!(k.space.frames.next_frame(), USER_PA_POOL_START + 6 * 4096);
    assert_eq!(peek(&k, 0x4000_0000, 4), vec![0x13; 4]);
    assert_eq!(peek(&k, 0x4000_0020, 4), vec![0; 4]);
}

#[test]
fn exec_survives_many_rounds() {
    let (mut k, _) = booted();
    for _ in 0..8 {
        let p = path(&mut k, BUF, "prog.elf");
        let (_, out, tf) = call(&mut k, 12, p, 0, 0);
        assert_eq!(out, TrapOutcome::ResumeFlushed);
        assert_eq!(tf.sepc, PROG_ENTRY as usize);
    }
}

#[test]
fn exec_of_a_broken_file_fails_after_the_memory_is_gone() {
    let (mut k, _) = booted();
    let p = path(&mut k, BUF, "broken.elf");
    let (v, out, tf) = call(&mut k, 12, p, 0, 0);
    assert_eq!(v, SENTINEL);
    assert_eq!(out, TrapOutcome::ResumeFlushed);
    assert_eq!(tf.sepc, 0x4000_0104);
    assert!(k.space.read_user_bytes(BUF, 1).is_none());
    assert_eq!(k.brk, 0x4000_1800);
}

#[test]
fn execv_passes_the_arguments_on() {
    let (mut k, _) = booted();
    let p = path(&mut k, BUF, "prog.elf");
    let a0 = path(&mut k, BUF + 0x100, "prog");
    let a1 = path(&mut k, BUF + 0x200, "--flag");
    poke(&mut k, BUF + 0x300, &[0xff, 0xff, 0]);
    let a3 = path(&mut k, BUF + 0x400, &"z".repeat(80));
    let mut vector = Vec::new();
    for a in [a0, a1, BUF + 0x300, a3, 0, a0] {
        vector.extend_from_slice(&(a as u64).to_le_bytes());
    }
    poke(&mut k, BUF + 0x800, &vector);
    let (_, out, tf) = call(&mut k, 13, p, BUF + 0x800, 0);
    assert_eq!(out, TrapOutcome::ResumeFlushed);
    assert_eq!(tf.sepc, PROG_ENTRY as usize);
    assert_eq!(tf.a0, 4);
    let mut args = Vec::new();
    for i in 0..4 {
        let ptr = u64::from_le_bytes(peek(&k, tf.a1 + 8 * i, 8).try_into().unwrap()) as usize;
        let mut s = Vec::new();
        let mut at = ptr;
        loop {
            let b = peek(&k, at, 1)[0];
            if b == 0 {
                break;
            }
            s.push(b);
            at += 1;
        }
        args.push(s);
    }
    assert_eq!(args[0], b"prog".to_vec());
    assert_eq!(args[1], b"--flag".to_vec());
    assert_eq!(args[2], b"".to_vec());
    assert_eq!(args[3], vec![b'z'; 63]);
    assert_eq!(u64::from_le_bytes(peek(&k, tf.a1 + 32, 8).try_into().unwrap()), 0);
}

#[test]
fn execv_takes_at_most_16_arguments() {
    let (mut k, _) = booted();
    let p = path(&mut k, BUF, "prog.elf");
    let a = path(&mut k, BUF + 0x100, "a");
    let mut vector = Vec::new();
    for _ in 0..20 {
        vector.extend_from_slice(&(a as u64).to_le_bytes());
    }
    poke(&mut k, BUF + 0x800, &vector);
    let (_, out, tf) = call(&mut k, 13, p, BUF + 0x800, 0);
    assert_eq!(out, TrapOutcome::ResumeFlushed);
    assert_eq!(tf.a0, 16);
}

#[test]
fn exit_returns_to_the_shell() {
    let (mut k, _) = booted();
    let p = path(&mut k, BUF, "prog.elf");
    call(&mut k, 12, p, 0, 0);
    let q = path(&mut k, BUF, "hello.txt");
    let fd = ok(&mut k, 4, q, 0, 0);
    assert_eq!(fd, 3);
    let (_, out, tf) = call(&mut k, 2, 0, 0, 0);
    assert_eq!(out, TrapOutcome::ResumeFlushed);
    assert_eq!(tf.sepc, SHELL_ENTRY as usize);
    assert_eq!(tf.a0, 1);
    let argv0 = u64::from_le_bytes(peek(&k, tf.a1, 8).try_into().unwrap()) as usize;
    assert_eq!(peek(&k, argv0, 6), b"shell\0".to_vec());
    assert!(fd_get(&k.fds, fd).is_none());
    let q = path(&mut k, BUF, "hello.txt");
    assert_eq!(ok(&mut k, 4, q, 0, 0), 3);
}

#[test]
fn exit_without_a_shell_fails() {
    let (mut k, _) = booted();
    let p = path(&mut k, BUF, "shell.elf");
    assert_eq!(ok(&mut k, 15, p, 0, 0), 0);
    let (v, out, tf) = call(&mut k, 2, 0, 0, 0);
    assert_eq!((v, out, tf.sepc), (SENTINEL, TrapOutcome::Resume, 0x4000_0104));
}

#[test]
fn brk_grows_and_the_pages_can_be_used() {
    let (mut k, _) = booted();
    let b = ok(&mut k, 9, 0, 0, 0);
    assert_eq!(b, 0x4000_1800);
    assert!(k.space.read_user_bytes(0x4000_2000, 1).is_none());
    assert_eq!(ok(&mut k, 9, b + 8192, 0, 0), b + 8192);
    assert_eq!(ok(&mut k, 9, 0, 0, 0), b + 8192);
    poke(&mut k, 0x4000_2000, b"first page");
    poke(&mut k, 0x4000_3ff0, b"second page");
    assert_eq!(ok(&mut k, 10, 0, 0, 0), 0);
    assert_eq!(peek(&k, 0x4000_2000, 10), b"first page".to_vec());
    assert_eq!(peek(&k, 0x4000_3ff0, 11), b"second page".to_vec());
    // asking for the same break again changes nothing
    let frames = k.space.frames.next_frame();
    assert_eq!(ok(&mut k, 9, b + 8192, 0, 0), b + 8192);
    assert_eq!(k.space.frames.next_frame(), frames);
    // growth within the last page maps nothing
    assert_eq!(ok(&mut k, 9, b + 8192 + 100, 0, 0), b + 8192 + 100);
    assert_eq!(k.space.frames.next_frame(), frames);
    // shrinking is recorded, nothing is unmapped
    assert_eq!(ok(&mut k, 9, b, 0, 0), b);
    assert_eq!(ok(&mut k, 9, 0, 0, 0), b);
    assert_eq!(peek(&k, 0x4000_2000, 10), b"first page".to_vec());
}

#[test]
fn brk_fails_when_memory_runs_out() {
    let (mut k, _) = booted();
    let b = ok(&mut k, 9, 0, 0, 0);
    assert_eq!(ok(&mut k, 9, b + 1024 * 4096, 0, 0), SENTINEL);
    assert_eq!(ok(&mut k, 9, 0, 0, 0), b);
    assert_eq!(ok(&mut k, 9, SENTINEL, 0, 0), SENTINEL);
    assert_eq!(ok(&mut k, 9, SENTINEL - 10, 0, 0), SENTINEL);
    assert_eq!(ok(&mut k, 9, 0, 0, 0), b);
}

#[test]
fn failed_calls_keep_what_they_did_before_failing() {
    // brk hands out every frame that is left, and the break stays
    let (mut k, _) = booted();
    let b = ok(&mut k, 9, 0, 0, 0);
    assert!(k.space.frames.user_pages_free() > 0);
    assert_eq!(ok(&mut k, 9, b + 1024 * 4096, 0, 0), SENTINEL);
    assert_eq!(k.space.frames.user_pages_free(), 0);
    assert_eq!(k.brk, b);
    assert!(k.space.read_user_bytes((b + 4095) / 4096 * 4096, 1).is_some());
    // stat into a buffer that runs into an unmapped page stores the part before it
    let (mut k, _) = booted();
    let p = path(&mut k, BUF, "hello.txt");
    poke(&mut k, 0x4000_7ff8, &[0xee; 8]);
    assert_eq!(ok(&mut k, 16, p, 0x4000_7ff8, 0), SENTINEL);
    assert_eq!(peek(&k, 0x4000_7ff8, 8), 18u64.to_le_bytes().to_vec());
    // a framebuffer stays mapped when its description cannot be stored
    let fb = FramebufferInfo { width: 64, height: 32, stride: 64, phys_addr: 0x8400_0000, size: 64 * 32 * 4 };
    register_framebuffer(&mut k, fb);
    assert_eq!(ok(&mut k, 19, 0x4100_0000, 0, 0), SENTINEL);
    let root = k.space.pt.root_pt();
    assert_eq!(k.space.pt.translate(root, USER_FB_VA + 0x10), Some(0x8400_0010));
    // a shell that cannot be loaded leaves the kernel's map and no user page
    let mut k = kernel_with(vec![File { name: "shell.elf", data: b"not a program, but sixty-four bytes are needed to get past the size" }]);
    assert_eq!(rust_start(&mut k, ""), Err(BootError::Load(ElfLoadError::BadMagic)));
    let root = k.space.pt.root_pt();
    assert_eq!(k.space.pt.translate(root, DRAM_BASE + 0x1000), Some((DRAM_BASE + 0x1000) as u64));
    assert_eq!(k.space.frames.user_pages_free(), 256);
}

#[test]
fn timer_ticks_and_blinks() {
    let (mut k, _) = booted();
    let mut tf = frame(4, 0, 0, 0);
    let before = tf;
    for i in 1..=100u64 {
        let out = rust_trap(&mut k, &mut tf, Trap::SupervisorTimer, 1000 * i);
        assert_eq!(out, TrapOutcome::Timer { deadline: 1000 * i + 100_000, blink: i % 50 == 0 });
    }
    assert_eq!(tf, before);
    assert_eq!(ok(&mut k, 10, 0, 0, 0), 100);
    let out = rust_trap(&mut k, &mut tf, Trap::SupervisorTimer, u64::MAX - 5);
    assert_eq!(out, TrapOutcome::Timer { deadline: u64::MAX, blink: false });
    k.ticks = u64::MAX;
    let out = rust_trap(&mut k, &mut tf, Trap::SupervisorTimer, 0);
    assert_eq!(out, TrapOutcome::Timer { deadline: 100_000, blink: true });
    assert_eq!(k.ticks, 0);
}

#[test]
fn other_traps_are_fatal_and_unknown_calls_fail() {
    let (mut k, _) = booted();
    let mut tf = frame(4, 0, 0, 0);
    let before = tf;
    assert_eq!(rust_trap(&mut k, &mut tf, Trap::Other, 0), TrapOutcome::Fatal);
    assert_eq!(tf, before);
    assert_eq!(ok(&mut k, 0, 1, 2, 3), SENTINEL);
    assert_eq!(ok(&mut k, 21, 1, 2, 3), SENTINEL);
    assert_eq!(ok(&mut k, SENTINEL, 1, 2, 3), SENTINEL);
    let (_, out, tf) = call(&mut k, 11, 5, 6, 7);
    assert_eq!(out, TrapOutcome::PowerOff);
    assert_eq!((tf.a0, tf.sepc), (5, 0x4000_0100));
}

#[test]
fn return_address_wraps_at_the_end_of_the_address_space() {
    let (mut k, _) = booted();
    let mut tf = frame(10, 0, 0, 0);
    tf.sepc = usize::MAX - 1;
    rust_trap(&mut k, &mut tf, Trap::UserEnvCall, 0);
    assert_eq!(tf.sepc, 2);
}

#[test]
fn framebuffer_is_mapped_on_request() {
    let (mut k, _) = booted();
    assert_eq!(ok(&mut k, 19, BUF, 0, 0), SENTINEL);
    let (v, out, _) = call(&mut k, 20, 0, 0, 0);
    assert_eq!((v, out), (SENTINEL, TrapOutcome::Resume));
    assert_eq!(get_framebuffer(&k), None);
    let fb = FramebufferInfo { width: 64, height: 32, stride: 64, phys_addr: 0x8400_0000, size: 64 * 32 * 4 };
    register_framebuffer(&mut k, fb);
    assert_eq!(get_framebuffer(&k), Some(fb));
    assert_eq!(ok(&mut k, 19, 0, 0, 0), SENTINEL);
    assert_eq!(ok(&mut k, 19, 0x4100_0000, 0, 0), SENTINEL);
    assert_eq!(ok(&mut k, 19, BUF, 0, 0), 0);
    let words: Vec<u64> = peek(&k, BUF, 32).chunks(8).map(|c| u64::from_le_bytes(c.try_into().unwrap())).collect();
    assert_eq!(words, vec![64, 32, 64, USER_FB_VA as u64]);
    let root = k.space.pt.root_pt();
    assert_eq!(k.space.pt.translate(root, USER_FB_VA + 0x1234), Some(0x8400_1234));
    assert_eq!(k.space.pt.translate(root, USER_FB_VA + 0x1fff), Some(0x8400_1fff));
    assert!(k.space.pt.translate(root, USER_FB_VA + 0x2000).is_none());
    let (v, out, _) = call(&mut k, 20, 0, 0, 0);
    assert_eq!((v, out), (0, TrapOutcome::FlushDisplay));
    k.fb = Some(FramebufferInfo { width: 64, height: 32, stride: 64, phys_addr: 0x8400_0800, size: 4096 });
    assert_eq!(ok(&mut k, 19, BUF, 0, 0), SENTINEL);
}
