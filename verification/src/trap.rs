//! The trap frame, the descriptor table, and the syscalls that a user
//! program can make.

use vstd::prelude::*;
use vstd::slice::slice_subrange;
use crate::display::FramebufferInfo;
use crate::fs::{
    chmodded, created, find, lemma_find, lemma_ro_find, listed, listing, read_data, ro_find, wrote, File, RamFs,
    WritableFile, MODE_READ_ONLY,
};
use crate::keyboard::InputBuffer;
use crate::elf::{
    bytes_of, goblin_parse, load_left, load_outcome, load_user_elf, map_stack, map_stack_from, map_stack_left,
    Loaded,
};
use crate::mem::{
    page_cap, user_load, user_load_all, user_page, user_store, user_stored, AddressSpace, Frames, Space,
};
use crate::uapi::{
    BRK, CHMOD, CLOSE, CREAT, EXEC, EXECV, EXIT, FB_FLUSH, GETTIME, GET_FB_INFO, LSEEK, OPEN, POWEROFF, READ,
    READDIR, SEEK_CUR, SEEK_END, SEEK_SET, SENTINEL, STAT, UNLINK, WRITE, WRITE_CSTR, WRITE_FD,
};
use crate::sv39::{make_pte, Tables};
use crate::uart::{crlf, emit};

verus! {

/// Slots in the descriptor table.
pub const MAX_FD: usize = 32;

/// The lowest descriptor that names a file; 0, 1 and 2 are stdin, stdout
/// and stderr.
pub const FIRST_FD: usize = 3;

/// Longest path that a syscall reads.
pub const MAX_PATH: usize = 255;

/// The registers that a trap saves, with the program counter and status to
/// return with.
#[derive(Clone, Copy, Debug, PartialEq, Eq, Structural)]
pub struct TrapFrame {
    pub ra: usize,
    pub sp: usize,
    pub t0: usize,
    pub t1: usize,
    pub t2: usize,
    pub a0: usize,
    pub a1: usize,
    pub a2: usize,
    pub a3: usize,
    pub a4: usize,
    pub a5: usize,
    pub a6: usize,
    pub a7: usize,
    pub t3: usize,
    pub t4: usize,
    pub t5: usize,
    pub t6: usize,
    pub sepc: usize,
    pub sstatus_bits: usize,
}

/// Which layer a descriptor's file lies in, with its index there.
#[derive(Clone, Copy, Debug, PartialEq, Eq, Structural)]
pub enum FileType {
    ReadOnly(usize),
    Writable(usize),
}

/// One slot of the descriptor table.
#[derive(Clone, Copy, Debug, PartialEq, Eq, Structural)]
pub struct FdEntry {
    pub in_use: bool,
    pub file_type: FileType,
    pub offset: usize,
    pub writable: bool,
}

/// A free slot.
pub open spec fn empty_entry() -> FdEntry {
    FdEntry { in_use: false, file_type: FileType::ReadOnly(0), offset: 0, writable: false }
}

/// The table of open files.
pub struct FdTable {
    slots: Vec<FdEntry>,
}

impl View for FdTable {
    type V = Seq<FdEntry>;

    closed spec fn view(&self) -> Seq<FdEntry> {
        self.slots@
    }
}

/// Whether a table has its 32 slots, the first three of them never in use.
pub open spec fn table_wf(t: Seq<FdEntry>) -> bool {
    &&& t.len() == MAX_FD
    &&& forall|i: int| 0 <= i < FIRST_FD ==> !(#[trigger] t[i]).in_use
}

/// Whether `fd` is the lowest free descriptor.
pub open spec fn is_first_free(t: Seq<FdEntry>, fd: int) -> bool {
    &&& FIRST_FD <= fd < MAX_FD
    &&& !t[fd].in_use
    &&& forall|j: int| FIRST_FD <= j < fd ==> (#[trigger] t[j]).in_use
}

/// Whether every descriptor is in use.
pub open spec fn table_full(t: Seq<FdEntry>) -> bool {
    forall|j: int| FIRST_FD <= j < MAX_FD ==> (#[trigger] t[j]).in_use
}

/// The entry of an open descriptor.
pub open spec fn open_entry(t: Seq<FdEntry>, fd: int) -> Option<FdEntry> {
    if 0 <= fd < MAX_FD && t[fd].in_use {
        Some(t[fd])
    } else {
        None
    }
}

/// The sum of two sizes, held at the largest size.
pub open spec fn saturating(a: usize, b: usize) -> usize {
    if a + b > usize::MAX {
        usize::MAX
    } else {
        (a + b) as usize
    }
}

/// The table after the offset of `fd` moved on by `inc`; an unopened
/// descriptor changes nothing.
pub open spec fn advanced(t: Seq<FdEntry>, fd: int, inc: usize) -> Seq<FdEntry> {
    if open_entry(t, fd) is Some {
        t.update(fd, FdEntry { offset: saturating(t[fd].offset, inc), ..t[fd] })
    } else {
        t
    }
}

/// The table after the offset of `fd` was set; an unopened descriptor
/// changes nothing.
pub open spec fn sought(t: Seq<FdEntry>, fd: int, offset: usize) -> Seq<FdEntry> {
    if open_entry(t, fd) is Some {
        t.update(fd, FdEntry { offset, ..t[fd] })
    } else {
        t
    }
}

/// The table after `fd` was closed; an unopened descriptor changes nothing.
pub open spec fn released(t: Seq<FdEntry>, fd: int) -> Seq<FdEntry> {
    if open_entry(t, fd) is Some {
        t.update(fd, empty_entry())
    } else {
        t
    }
}

/// Whether an entry names a file that its layer holds, of `ro_len` embedded
/// and `files_len` writable files.
pub open spec fn entry_live(e: FdEntry, ro_len: int, files_len: int) -> bool {
    match e.file_type {
        FileType::ReadOnly(i) => i < ro_len,
        FileType::Writable(i) => i < files_len,
    }
}

/// Whether every descriptor in use names a file that its layer holds.
pub open spec fn fds_live(t: Seq<FdEntry>, ro_len: int, files_len: int) -> bool {
    forall|fd: int| 0 <= fd < t.len() && (#[trigger] t[fd]).in_use ==> entry_live(t[fd], ro_len, files_len)
}

/// An entry after the writable file `i` was removed: an open descriptor on
/// that file is closed, one on a file behind it follows its file one index
/// down, and every other entry stays.
pub open spec fn unlinked_entry(e: FdEntry, i: int) -> FdEntry {
    match e.file_type {
        FileType::Writable(j) => if !e.in_use || j < i {
            e
        } else if j == i {
            empty_entry()
        } else {
            FdEntry { file_type: FileType::Writable((j - 1) as usize), ..e }
        },
        FileType::ReadOnly(j) => e,
    }
}

/// The table after the writable file `i` was removed.
pub open spec fn unlinked(t: Seq<FdEntry>, i: int) -> Seq<FdEntry> {
    Seq::new(t.len(), |fd: int| unlinked_entry(t[fd], i))
}

/// The table with every file descriptor closed.
pub open spec fn all_closed(t: Seq<FdEntry>) -> Seq<FdEntry> {
    Seq::new(
        t.len(),
        |i: int|
            if FIRST_FD <= i {
                empty_entry()
            } else {
                t[i]
            },
    )
}

impl FdTable {
    /// Whether the table has its slots, the first three never in use.
    pub open spec fn wf(&self) -> bool {
        table_wf(self@)
    }

    /// A table with every slot free.
    pub fn new() -> (r: Self)
        ensures
            r.wf(),
            forall|i: int| 0 <= i < MAX_FD ==> #[trigger] r@[i] == empty_entry(),
    {
        let mut slots: Vec<FdEntry> = Vec::new();
        let mut i: usize = 0;
        while i < MAX_FD
            invariant
                i <= MAX_FD,
                slots@.len() == i,
                forall|j: int| 0 <= j < i ==> #[trigger] slots@[j] == empty_entry(),
            decreases MAX_FD - i,
        {
            slots.push(
                FdEntry { in_use: false, file_type: FileType::ReadOnly(0), offset: 0, writable: false },
            );
            i += 1;
        }
        FdTable { slots }
    }
}

/// Opens the lowest free descriptor for a file, at offset 0. `None`, with
/// the table unchanged, when every descriptor is in use.
pub fn fd_alloc(tbl: &mut FdTable, file_type: FileType, writable: bool) -> (r: Option<usize>)
    requires
        old(tbl).wf(),
    ensures
        final(tbl).wf(),
        match r {
            Some(fd) => is_first_free(old(tbl)@, fd as int) && final(tbl)@ == old(tbl)@.update(
                fd as int,
                FdEntry { in_use: true, file_type, offset: 0, writable },
            ),
            None => table_full(old(tbl)@) && final(tbl)@ == old(tbl)@,
        },
{
    let mut fd: usize = FIRST_FD;
    while fd < MAX_FD
        invariant
            FIRST_FD <= fd <= MAX_FD,
            tbl.wf(),
            tbl@ == old(tbl)@,
            forall|j: int| FIRST_FD <= j < fd ==> (#[trigger] tbl@[j]).in_use,
        decreases MAX_FD - fd,
    {
        if !tbl.slots[fd].in_use {
            tbl.slots.set(fd, FdEntry { in_use: true, file_type, offset: 0, writable });
            return Some(fd);
        }
        fd += 1;
    }
    None
}

/// A copy of the entry of an open descriptor.
pub fn fd_get(tbl: &FdTable, fd: usize) -> (r: Option<FdEntry>)
    requires
        tbl.wf(),
    ensures
        r == open_entry(tbl@, fd as int),
{
    if fd < MAX_FD && tbl.slots[fd].in_use {
        Some(tbl.slots[fd])
    } else {
        None
    }
}

/// Moves the offset of an open descriptor on by `inc`, holding at the
/// largest offset.
pub fn fd_advance(tbl: &mut FdTable, fd: usize, inc: usize)
    requires
        old(tbl).wf(),
    ensures
        final(tbl).wf(),
        final(tbl)@ == advanced(old(tbl)@, fd as int, inc),
{
    if fd < MAX_FD && tbl.slots[fd].in_use {
        let e = tbl.slots[fd];
        let offset = if e.offset > usize::MAX - inc {
            usize::MAX
        } else {
            e.offset + inc
        };
        tbl.slots.set(fd, FdEntry { in_use: e.in_use, file_type: e.file_type, offset, writable: e.writable });
    }
}

/// Sets the offset of an open descriptor.
pub fn fd_seek(tbl: &mut FdTable, fd: usize, offset: usize)
    requires
        old(tbl).wf(),
    ensures
        final(tbl).wf(),
        final(tbl)@ == sought(old(tbl)@, fd as int, offset),
{
    if fd < MAX_FD && tbl.slots[fd].in_use {
        let e = tbl.slots[fd];
        tbl.slots.set(fd, FdEntry { in_use: e.in_use, file_type: e.file_type, offset, writable: e.writable });
    }
}

/// Closes an open descriptor. `false`, with the table unchanged, for one
/// that is not open.
pub fn fd_close(tbl: &mut FdTable, fd: usize) -> (r: bool)
    requires
        old(tbl).wf(),
    ensures
        final(tbl).wf(),
        r == open_entry(old(tbl)@, fd as int) is Some,
        final(tbl)@ == released(old(tbl)@, fd as int),
{
    if fd < MAX_FD && tbl.slots[fd].in_use {
        tbl.slots.set(
            fd,
            FdEntry { in_use: false, file_type: FileType::ReadOnly(0), offset: 0, writable: false },
        );
        true
    } else {
        false
    }
}

/// Closes every file descriptor.
pub fn fd_clear(tbl: &mut FdTable)
    requires
        old(tbl).wf(),
    ensures
        final(tbl).wf(),
        final(tbl)@ == all_closed(old(tbl)@),
{
    let mut fd: usize = FIRST_FD;
    while fd < MAX_FD
        invariant
            FIRST_FD <= fd <= MAX_FD,
            tbl@.len() == MAX_FD,
            forall|j: int| 0 <= j < FIRST_FD ==> #[trigger] tbl@[j] == old(tbl)@[j],
            forall|j: int| fd <= j < MAX_FD ==> #[trigger] tbl@[j] == old(tbl)@[j],
            forall|j: int| FIRST_FD <= j < fd ==> #[trigger] tbl@[j] == empty_entry(),
        decreases MAX_FD - fd,
    {
        tbl.slots.set(
            fd,
            FdEntry { in_use: false, file_type: FileType::ReadOnly(0), offset: 0, writable: false },
        );
        fd += 1;
    }
    assert(tbl@ =~= all_closed(old(tbl)@));
}

/// Takes note that the writable file `idx` was removed: closes the
/// descriptors on it and lets those on the files behind it follow their
/// files.
pub fn fd_unlink(tbl: &mut FdTable, idx: usize)
    requires
        old(tbl).wf(),
    ensures
        final(tbl).wf(),
        final(tbl)@ == unlinked(old(tbl)@, idx as int),
{
    let mut fd: usize = FIRST_FD;
    while fd < MAX_FD
        invariant
            FIRST_FD <= fd <= MAX_FD,
            tbl@.len() == MAX_FD,
            old(tbl).wf(),
            forall|j: int| 0 <= j < FIRST_FD ==> #[trigger] tbl@[j] == old(tbl)@[j],
            forall|j: int| fd <= j < MAX_FD ==> #[trigger] tbl@[j] == old(tbl)@[j],
            forall|j: int| FIRST_FD <= j < fd ==> #[trigger] tbl@[j] == unlinked_entry(old(tbl)@[j], idx as int),
        decreases MAX_FD - fd,
    {
        let e = tbl.slots[fd];
        if e.in_use {
            match e.file_type {
                FileType::Writable(j) => {
                    if j == idx {
                        tbl.slots.set(
                            fd,
                            FdEntry { in_use: false, file_type: FileType::ReadOnly(0), offset: 0, writable: false },
                        );
                    } else if j > idx {
                        tbl.slots.set(
                            fd,
                            FdEntry {
                                in_use: e.in_use,
                                file_type: FileType::Writable(j - 1),
                                offset: e.offset,
                                writable: e.writable,
                            },
                        );
                    }
                },
                FileType::ReadOnly(_) => {},
            }
        }
        fd += 1;
    }
    assert(tbl@ =~= unlinked(old(tbl)@, idx as int));
}

/// Removing a file keeps every descriptor in use on a file that its layer
/// holds: the descriptors on the removed file are closed, and those on the
/// files behind it name the same files as before.
pub proof fn lemma_unlinked_live(t: Seq<FdEntry>, ro_len: int, files_len: int, i: int)
    requires
        table_wf(t),
        fds_live(t, ro_len, files_len),
        0 <= i < files_len,
    ensures
        table_wf(unlinked(t, i)),
        fds_live(unlinked(t, i), ro_len, files_len - 1),
        forall|fd: int|
            0 <= fd < MAX_FD && (#[trigger] unlinked(t, i)[fd]).in_use ==> t[fd].in_use && unlinked(
                t,
                i,
            )[fd].offset == t[fd].offset && unlinked(t, i)[fd].writable == t[fd].writable,
{
    assert forall|fd: int| 0 <= fd < MAX_FD && (#[trigger] unlinked(t, i)[fd]).in_use implies entry_live(
        unlinked(t, i)[fd],
        ro_len,
        files_len - 1,
    ) by {
        assert(t[fd].in_use);
    }
}

/// Moving and setting offsets never changes which file, in which layer, a
/// descriptor names, nor whether it is open.
pub proof fn lemma_kind_is_kept(t: Seq<FdEntry>, fd: int, other: int, n: usize)
    requires
        table_wf(t),
        0 <= other < MAX_FD,
    ensures
        advanced(t, fd, n)[other].file_type == t[other].file_type,
        advanced(t, fd, n)[other].in_use == t[other].in_use,
        advanced(t, fd, n)[other].writable == t[other].writable,
        sought(t, fd, n)[other].file_type == t[other].file_type,
        sought(t, fd, n)[other].in_use == t[other].in_use,
        sought(t, fd, n)[other].writable == t[other].writable,
        table_wf(advanced(t, fd, n)),
        table_wf(sought(t, fd, n)),
{
}

/// A descriptor that was just opened is found with the kind it was opened
/// with, and stays so through any move of an offset.
pub proof fn lemma_opened_kind(t: Seq<FdEntry>, fd: int, kind: FileType, writable: bool, fd2: int, n: usize)
    requires
        table_wf(t),
        is_first_free(t, fd),
    ensures
        ({
            let opened = t.update(fd, FdEntry { in_use: true, file_type: kind, offset: 0, writable });
            &&& open_entry(opened, fd) is Some
            &&& open_entry(opened, fd).unwrap().file_type == kind
            &&& open_entry(advanced(opened, fd2, n), fd).unwrap().file_type == kind
            &&& open_entry(sought(opened, fd2, n), fd).unwrap().file_type == kind
        }),
{
}

/// Closing a descriptor frees its slot, and the lowest free descriptor is
/// then no higher than it.
pub proof fn lemma_close_frees(t: Seq<FdEntry>, fd: int, next: int)
    requires
        table_wf(t),
        open_entry(t, fd) is Some,
        is_first_free(released(t, fd), next),
    ensures
        next <= fd,
        !table_full(released(t, fd)),
{
    if next > fd {
        assert(released(t, fd)[fd].in_use);
    }
}

/// With 29 descriptors open, none is free.
pub proof fn lemma_table_exhausts(t: Seq<FdEntry>)
    requires
        table_wf(t),
        forall|j: int| FIRST_FD <= j < MAX_FD ==> (#[trigger] t[j]).in_use,
    ensures
        table_full(t),
        forall|fd: int| !is_first_free(t, fd),
{
}

/// Everything the kernel keeps between traps.
pub struct Kernel {
    /// Page tables and user frames.
    pub space: AddressSpace,
    /// Both layers of the file system.
    pub fs: RamFs,
    /// The open files of the running program.
    pub fds: FdTable,
    /// Input that stdin has yet to read.
    pub input: InputBuffer,
    /// The running program's break.
    pub brk: usize,
    /// Timer ticks since boot.
    pub ticks: u64,
    /// Bytes that programs wrote and the console has yet to show.
    pub console: Vec<u8>,
    /// The framebuffer, if a display registered one.
    pub fb: Option<FramebufferInfo>,
}

/// The kernel's state as the contracts see it.
pub struct KernelView {
    pub space: Space,
    pub ro: Seq<File>,
    pub files: Seq<WritableFile>,
    pub fds: Seq<FdEntry>,
    pub input: Seq<u8>,
    pub brk: usize,
    pub ticks: u64,
    pub console: Seq<u8>,
    pub fb: Option<FramebufferInfo>,
}

impl View for Kernel {
    type V = KernelView;

    open spec fn view(&self) -> KernelView {
        KernelView {
            space: self.space@,
            ro: self.fs.ro@,
            files: self.fs.files@,
            fds: self.fds@,
            input: self.input@,
            brk: self.brk,
            ticks: self.ticks,
            console: self.console@,
            fb: self.fb,
        }
    }
}

/// What the trap handler's caller has to do before the program goes on.
#[derive(Clone, Copy, Debug, PartialEq, Eq, Structural)]
pub enum TrapOutcome {
    /// Return to the program.
    Resume,
    /// Flush the whole TLB, then return to the program.
    ResumeFlushed,
    /// Program the timer for `deadline`, blink the cursor if `blink`, then
    /// return to the program.
    Timer { deadline: u64, blink: bool },
    /// Stdin has nothing to read: take what the console has typed, at least
    /// one byte, into the input and handle the same trap again.
    NeedInput,
    /// Send the framebuffer to the display, then return to the program.
    FlushDisplay,
    /// Power the machine off.
    PowerOff,
    /// An unexpected trap: report it and halt.
    Fatal,
}

impl Kernel {
    /// Whether address space, descriptor table and input are sound, and
    /// every descriptor in use names a file that its layer holds.
    pub open spec fn wf(&self) -> bool {
        self.space.wf() && self.fds.wf() && self.input.wf() && fds_live(
            self.fds@,
            self.fs.ro@.len() as int,
            self.fs.files@.len() as int,
        )
    }

    /// A kernel over an address space and a file system, before any program
    /// runs.
    pub fn new(space: AddressSpace, fs: RamFs) -> (r: Self)
        requires
            space.wf(),
        ensures
            r.wf(),
            r@.space == space@,
            r@.ro == fs.ro@,
            r@.files == fs.files@,
            r@.fds == FdTable::new_view(),
            r@.input.len() == 0,
            r@.brk == 0,
            r@.ticks == 0,
            r@.console.len() == 0,
            r@.fb is None,
    {
        let fds = FdTable::new();
        assert(fds@ =~= FdTable::new_view());
        Kernel {
            space,
            fs,
            fds,
            input: InputBuffer::new(),
            brk: 0,
            ticks: 0,
            console: Vec::new(),
            fb: None,
        }
    }
}

impl FdTable {
    /// A table with every slot free.
    pub open spec fn new_view() -> Seq<FdEntry> {
        Seq::new(MAX_FD as nat, |i: int| empty_entry())
    }
}

/// The address of the instruction after an `ecall`, wrapping at the end of
/// the address space.
pub open spec fn next_pc(pc: usize) -> usize {
    if pc + 4 > usize::MAX {
        (pc + 4 - usize::MAX - 1) as usize
    } else {
        (pc + 4) as usize
    }
}

/// The frame after a syscall returned `value`: `a0` holds it, and the
/// program goes on behind the `ecall`.
pub open spec fn returned(tf: TrapFrame, value: usize) -> TrapFrame {
    TrapFrame { a0: value, sepc: next_pc(tf.sepc), ..tf }
}

/// Returns `value` from a syscall.
fn ret(tf: &mut TrapFrame, value: usize)
    ensures
        *final(tf) == returned(*old(tf), value),
{
    tf.a0 = value;
    tf.sepc = if tf.sepc > usize::MAX - 4 {
        tf.sepc - (usize::MAX - 3)
    } else {
        tf.sepc + 4
    };
}

/// Whether `z` is the position of the first zero byte.
pub open spec fn is_first_nul(s: Seq<u8>, z: int) -> bool {
    &&& 0 <= z < s.len()
    &&& s[z] == 0
    &&& forall|j: int| 0 <= j < z ==> #[trigger] s[j] != 0
}

/// The bytes before the first zero byte; all bytes if there is none.
pub open spec fn before_nul(s: Seq<u8>) -> Seq<u8> {
    if exists|z: int| is_first_nul(s, z) {
        s.take(choose|z: int| is_first_nul(s, z))
    } else {
        s
    }
}

/// Whether a zero byte occurs.
pub open spec fn has_nul(s: Seq<u8>) -> bool {
    exists|z: int| is_first_nul(s, z)
}

/// Position of the first zero byte.
fn find_nul(s: &[u8]) -> (r: Option<usize>)
    ensures
        match r {
            Some(z) => is_first_nul(s@, z as int) && before_nul(s@) == s@.take(z as int),
            None => !has_nul(s@) && before_nul(s@) == s@,
        },
{
    let mut i: usize = 0;
    while i < s.len()
        invariant
            i <= s.len(),
            forall|j: int| 0 <= j < i ==> #[trigger] s@[j] != 0,
        decreases s.len() - i,
    {
        if s[i] == 0 {
            proof {
                let z = choose|z: int| is_first_nul(s@, z);
                assert(is_first_nul(s@, i as int));
                assert(z == i) by {
                    if z < i {
                        assert(s@[z] != 0);
                    }
                    if z > i {
                        assert(s@[i as int] != 0);
                    }
                }
            }
            return Some(i);
        }
        i += 1;
    }
    proof {
        assert forall|z: int| !is_first_nul(s@, z) by {
            if 0 <= z < s@.len() {
                assert(s@[z] != 0);
            }
        }
    }
    None
}

/// The string at a user address: the bytes before the first zero byte among
/// the first `max` bytes of its page; `None` for address 0, for a page that
/// the program may not read, and where no zero byte is found.
pub open spec fn user_cstr(pt: Tables, fr: Frames, va: usize, max: usize) -> Option<Seq<u8>> {
    if va == 0 {
        None
    } else {
        match user_load(pt, fr, va, page_cap(va, max) as int) {
            None => None,
            Some(data) => if has_nul(data) {
                Some(before_nul(data))
            } else {
                None
            },
        }
    }
}

/// The path at a user address: a string of at most 255 bytes that is valid
/// UTF-8.
pub open spec fn user_path(pt: Tables, fr: Frames, va: usize) -> Option<Seq<char>> {
    match user_cstr(pt, fr, va, MAX_PATH) {
        Some(b) => if vstd::utf8::valid_utf8(b) {
            Some(vstd::utf8::decode_utf8(b))
        } else {
            None
        },
        None => None,
    }
}

/// Reads a zero-terminated string of at most `max` bytes from the page of a
/// user address.
pub fn read_user_cstr_in_page(space: &AddressSpace, va: usize, max: usize) -> (r: Option<Vec<u8>>)
    requires
        space.wf(),
    ensures
        r is Some == user_cstr(space.pt@, space.frames@, va, max) is Some,
        r is Some ==> r.unwrap()@ == user_cstr(space.pt@, space.frames@, va, max).unwrap(),
{
    if va == 0 {
        return None;
    }
    let n = AddressSpace::cap_to_page(va, max);
    match space.read_user_in_page(va, n) {
        None => None,
        Some(mut data) => match find_nul(data.as_slice()) {
            None => None,
            Some(z) => {
                data.truncate(z);
                Some(data)
            },
        },
    }
}

/// `String::from_utf8`: the text whose UTF-8 encoding the bytes are, and
/// `None` for bytes that are not valid UTF-8.
#[verifier::external_body]
fn string_from_utf8(bytes: Vec<u8>) -> (r: Option<String>)
    ensures
        r is Some == vstd::utf8::valid_utf8(bytes@),
        r is Some ==> vstd::utf8::encode_utf8(r.unwrap()@) == bytes@,
{
    String::from_utf8(bytes).ok()
}

/// Reads the path at a user address.
pub fn read_user_path(space: &AddressSpace, va: usize) -> (r: Option<String>)
    requires
        space.wf(),
    ensures
        r is Some == user_path(space.pt@, space.frames@, va) is Some,
        r is Some ==> r.unwrap()@ == user_path(space.pt@, space.frames@, va).unwrap(),
{
    match read_user_cstr_in_page(space, va, MAX_PATH) {
        None => None,
        Some(bytes) => {
            let ghost b = bytes@;
            let r = string_from_utf8(bytes);
            proof {
                if r is Some {
                    vstd::utf8::encode_utf8_decode_utf8(r.unwrap()@);
                }
            }
            r
        },
    }
}

/// Copies the front of `src` to a user address, as much as its page takes.
/// Returns how many bytes were copied: 0 for address 0; `None`, with
/// nothing copied, where the program may not write the page.
pub fn copy_to_user(space: &mut AddressSpace, dst_va: usize, src: &[u8]) -> (r: Option<usize>)
    requires
        old(space).wf(),
    ensures
        final(space).wf(),
        final(space).pt@ == old(space).pt@,
        dst_va == 0 || src@.len() == 0 ==> r == Some(0usize) && final(space)@ == old(space)@,
        dst_va != 0 && src@.len() > 0 ==> ({
            let n = page_cap(dst_va, src@.len() as usize);
            match user_page(old(space).pt@, old(space).frames@, dst_va, true) {
                Some(pa) => r == Some(n) && final(space).frames@ == old(space).frames@.store(
                    pa + dst_va as int % 4096,
                    src@.take(n as int),
                ),
                None => r is None && final(space)@ == old(space)@,
            }
        }),
{
    if dst_va == 0 || src.len() == 0 {
        return Some(0);
    }
    let n = AddressSpace::cap_to_page(dst_va, src.len());
    let chunk = slice_subrange(src, 0, n);
    assert(chunk@ =~= src@.take(n as int));
    if space.write_user_in_page(dst_va, chunk) {
        Some(n)
    } else {
        None
    }
}

/// `close(fd)`: closes an open descriptor and returns 0; the sentinel for
/// one that is not open.
pub open spec fn sys_close_post(k0: KernelView, tf0: TrapFrame, k1: KernelView, tf1: TrapFrame) -> bool {
    &&& k1 == (KernelView { fds: released(k0.fds, tf0.a0 as int), ..k0 })
    &&& tf1 == returned(
        tf0,
        if open_entry(k0.fds, tf0.a0 as int) is Some {
            0
        } else {
            SENTINEL
        },
    )
}

/// Handles `close(fd)`.
pub fn sys_close(k: &mut Kernel, tf: &mut TrapFrame)
    requires
        old(k).wf(),
    ensures
        final(k).wf(),
        sys_close_post(old(k)@, *old(tf), final(k)@, *final(tf)),
{
    let fd = tf.a0;
    let v = if fd_close(&mut k.fds, fd) {
        0
    } else {
        SENTINEL
    };
    ret(tf, v);
}

/// A register's value read as a signed number.
pub open spec fn to_signed(x: usize) -> int {
    if x > isize::MAX {
        x - usize::MAX - 1
    } else {
        x as int
    }
}

/// Length of the file that a descriptor names; `None` where the layer has
/// no file at that index.
pub open spec fn file_len(k: KernelView, kind: FileType) -> Option<usize> {
    match kind {
        FileType::ReadOnly(i) => if i < k.ro.len() {
            Some(k.ro[i as int].data@.len() as usize)
        } else {
            None
        },
        FileType::Writable(i) => if i < k.files.len() {
            Some(k.files[i as int].data@.len() as usize)
        } else {
            None
        },
    }
}

/// Where a seek leads: `offset`, read as a signed number, from the start of
/// the file, from the current offset `cur` or from the end of a file of
/// `len` bytes; `None` for another `whence` and for a target that is
/// negative or beyond the largest signed number.
pub open spec fn seek_target(cur: usize, len: usize, offset: usize, whence: usize) -> Option<usize> {
    let target = if whence == SEEK_SET {
        to_signed(offset)
    } else if whence == SEEK_CUR {
        to_signed(cur) + to_signed(offset)
    } else if whence == SEEK_END {
        to_signed(len) + to_signed(offset)
    } else {
        -1
    };
    if 0 <= target <= isize::MAX {
        Some(target as usize)
    } else {
        None
    }
}

/// What `lseek` returns and leaves as the descriptor's offset; `None` where
/// it fails.
pub open spec fn lseek_result(k: KernelView, fd: usize, offset: usize, whence: usize) -> Option<usize> {
    match open_entry(k.fds, fd as int) {
        None => None,
        Some(e) => match file_len(k, e.file_type) {
            None => None,
            Some(len) => seek_target(e.offset, len, offset, whence),
        },
    }
}

fn signed(x: usize) -> (r: i128)
    ensures
        r == to_signed(x),
{
    if x > isize::MAX as usize {
        x as i128 - usize::MAX as i128 - 1
    } else {
        x as i128
    }
}

/// Length of the file that a descriptor names.
fn length_of(k: &Kernel, kind: FileType) -> (r: Option<usize>)
    ensures
        r == file_len(k@, kind),
{
    match kind {
        FileType::ReadOnly(i) => if i < k.fs.ro.len() {
            Some(k.fs.ro[i].data.len())
        } else {
            None
        },
        FileType::Writable(i) => crate::fs::file_size(&k.fs, i),
    }
}

/// `lseek(fd, offset, whence)`: moves the offset of an open descriptor and
/// returns it; the sentinel, with nothing moved, where the seek fails.
pub open spec fn sys_lseek_post(k0: KernelView, tf0: TrapFrame, k1: KernelView, tf1: TrapFrame) -> bool {
    &&& match lseek_result(k0, tf0.a0, tf0.a1, tf0.a2) {
        Some(off) => tf1 == returned(tf0, off) && k1 == (KernelView {
            fds: sought(k0.fds, tf0.a0 as int, off),
            ..k0
        }),
        None => tf1 == returned(tf0, SENTINEL) && k1 == k0,
    }
}

/// Handles `lseek(fd, offset, whence)`.
pub fn sys_lseek(k: &mut Kernel, tf: &mut TrapFrame)
    requires
        old(k).wf(),
    ensures
        final(k).wf(),
        sys_lseek_post(old(k)@, *old(tf), final(k)@, *final(tf)),
{
    let fd = tf.a0;
    let offset = tf.a1;
    let whence = tf.a2;
    let entry = match fd_get(&k.fds, fd) {
        Some(e) => e,
        None => {
            ret(tf, SENTINEL);
            return ;
        },
    };
    let len = match length_of(k, entry.file_type) {
        Some(n) => n,
        None => {
            ret(tf, SENTINEL);
            return ;
        },
    };
    let target: i128 = if whence == SEEK_SET {
        signed(offset)
    } else if whence == SEEK_CUR {
        signed(entry.offset) + signed(offset)
    } else if whence == SEEK_END {
        signed(len) + signed(offset)
    } else {
        -1
    };
    if target < 0 || target > isize::MAX as i128 {
        ret(tf, SENTINEL);
    } else {
        let new_off = target as usize;
        fd_seek(&mut k.fds, fd, new_off);
        ret(tf, new_off);
    }
}

/// Seeking by nothing from the current offset gives the current offset, and
/// seeking to that from the start leads back to it: together they leave an
/// offset that is no larger than the largest signed number where it was.
pub proof fn lemma_lseek_identity(cur: usize, len: usize)
    requires
        cur <= isize::MAX,
    ensures
        seek_target(cur, len, 0, SEEK_CUR) == Some(cur),
        seek_target(cur, len, cur, SEEK_SET) == Some(cur),
{
}

/// `gettime()`: returns the ticks since boot.
pub open spec fn sys_gettime_post(k0: KernelView, tf0: TrapFrame, k1: KernelView, tf1: TrapFrame) -> bool {
    &&& k1 == k0
    &&& tf1 == returned(tf0, k0.ticks as usize)
}

/// Handles `gettime()`.
pub fn sys_gettime(k: &mut Kernel, tf: &mut TrapFrame)
    requires
        old(k).wf(),
    ensures
        final(k).wf(),
        sys_gettime_post(old(k)@, *old(tf), final(k)@, *final(tf)),
{
    let t = #[verifier::truncate] (k.ticks as usize);
    ret(tf, t);
}

/// The next page boundary at or above an address.
pub open spec fn page_up(x: int) -> int {
    (x + 4095) / 4096 * 4096
}

/// How many pages a break that grows from `cur` to `req` adds.
pub open spec fn brk_pages(cur: usize, req: usize) -> int {
    (page_up(req as int) - page_up(cur as int)) / 4096
}

/// Whether a request to `brk` asks for growth that cannot even be tried: the
/// break's page would end beyond the address space, or pages are needed and
/// there is no root table.
pub open spec fn brk_refused(k: KernelView, req: usize) -> bool {
    req + 4095 > usize::MAX || (brk_pages(k.brk, req) > 0 && k.space.pt.root == 0)
}

/// `brk(addr)`: for 0 returns the break. A higher address maps the pages
/// between the old and the new break, each in a fresh frame that the program
/// may read and write, and moves the break there; an address at or below
/// the break moves the break without unmapping anything. The sentinel, with
/// the break where it was, where pages cannot be mapped; the pages before
/// the first that could not be stay mapped.
pub open spec fn sys_brk_post(k0: KernelView, tf0: TrapFrame, k1: KernelView, tf1: TrapFrame) -> bool {
    &&& k1.ro == k0.ro
    &&& k1.files == k0.files
    &&& k1.fds == k0.fds
    &&& k1.input == k0.input
    &&& k1.ticks == k0.ticks
    &&& k1.console == k0.console
    &&& k1.fb == k0.fb
    &&& tf0.a0 == 0 ==> k1 == k0 && tf1 == returned(tf0, k0.brk)
    &&& tf0.a0 != 0 && tf0.a0 <= k0.brk ==> k1 == (KernelView {
        brk: tf0.a0,
        ..k0
    }) && tf1 == returned(tf0, tf0.a0)
    &&& tf0.a0 > k0.brk && brk_refused(k0, tf0.a0) ==> k1 == k0 && tf1
        == returned(tf0, SENTINEL)
    &&& tf0.a0 > k0.brk && !brk_refused(k0, tf0.a0) ==> (match map_stack_from(
        k0.space,
        page_up(k0.brk as int),
        brk_pages(k0.brk, tf0.a0),
        0,
    ) {
        Ok(s) => k1 == (KernelView { space: s, brk: tf0.a0, ..k0 }) && tf1
            == returned(tf0, tf0.a0),
        Err(e) => k1 == (KernelView {
            space: map_stack_left(k0.space, page_up(k0.brk as int), brk_pages(k0.brk, tf0.a0), 0),
            ..k0
        }) && tf1 == returned(tf0, SENTINEL),
    })
}

/// Handles `brk(addr)`.
pub fn sys_brk(k: &mut Kernel, tf: &mut TrapFrame)
    requires
        old(k).wf(),
    ensures
        final(k).wf(),
        sys_brk_post(old(k)@, *old(tf), final(k)@, *final(tf)),
{
    let req = tf.a0;
    let cur = k.brk;
    if req == 0 {
        ret(tf, cur);
        return ;
    }
    if req <= cur {
        k.brk = req;
        ret(tf, req);
        return ;
    }
    if req > usize::MAX - 4095 {
        ret(tf, SENTINEL);
        return ;
    }
    let old_end = (cur + 4095) / 4096 * 4096;
    let new_end = (req + 4095) / 4096 * 4096;
    let pages = (new_end - old_end) / 4096;
    if pages > 0 {
        if k.space.pt.root_pt() == 0 {
            ret(tf, SENTINEL);
            return ;
        }
        match map_stack(&mut k.space, old_end, pages) {
            Ok(()) => {},
            Err(e) => {
                ret(tf, SENTINEL);
                return ;
            },
        }
    }
    k.brk = req;
    ret(tf, req);
}

/// `poweroff()`: asks for the machine to be powered off.
pub open spec fn sys_poweroff_post(k0: KernelView, tf0: TrapFrame, k1: KernelView, tf1: TrapFrame, r: TrapOutcome) -> bool {
    &&& k1 == k0
    &&& tf1 == tf0
    &&& r == TrapOutcome::PowerOff
}

/// Handles `poweroff()`.
pub fn sys_poweroff(k: &mut Kernel, tf: &mut TrapFrame) -> (r: TrapOutcome)
    requires
        old(k).wf(),
    ensures
        final(k).wf(),
        sys_poweroff_post(old(k)@, *old(tf), final(k)@, *final(tf), r),
{
    TrapOutcome::PowerOff
}

/// `fb_flush()`: with a framebuffer, returns 0 and asks for it to be sent to
/// the display; the sentinel without one.
pub open spec fn sys_fb_flush_post(k0: KernelView, tf0: TrapFrame, k1: KernelView, tf1: TrapFrame, r: TrapOutcome) -> bool {
    &&& k1 == k0
    &&& k0.fb is Some ==> r == TrapOutcome::FlushDisplay && tf1 == returned(tf0, 0)
    &&& k0.fb is None ==> r == TrapOutcome::Resume && tf1 == returned(tf0, SENTINEL)
}

/// Handles `fb_flush()`.
pub fn sys_fb_flush(k: &mut Kernel, tf: &mut TrapFrame) -> (r: TrapOutcome)
    requires
        old(k).wf(),
    ensures
        final(k).wf(),
        sys_fb_flush_post(old(k)@, *old(tf), final(k)@, *final(tf), r),
{
    if k.fb.is_some() {
        ret(tf, 0);
        TrapOutcome::FlushDisplay
    } else {
        ret(tf, SENTINEL);
        TrapOutcome::Resume
    }
}

/// The lowest free descriptor.
pub open spec fn first_free(t: Seq<FdEntry>) -> Option<int> {
    if exists|fd: int| is_first_free(t, fd) {
        Some(choose|fd: int| is_first_free(t, fd))
    } else {
        None
    }
}

/// The lowest free descriptor is found, and only it; none where the table
/// is full.
pub proof fn lemma_first_free(t: Seq<FdEntry>)
    requires
        t.len() == MAX_FD,
    ensures
        forall|fd: int| is_first_free(t, fd) ==> first_free(t) == Some(fd),
        table_full(t) <==> first_free(t) is None,
        first_free(t) is Some ==> is_first_free(t, first_free(t).unwrap()),
{
    assert forall|fd: int| is_first_free(t, fd) implies first_free(t) == Some(fd) by {
        let j = choose|j: int| is_first_free(t, j);
        assert(is_first_free(t, j));
        if j < fd {
            assert(t[j].in_use);
        }
        if fd < j {
            assert(t[fd].in_use);
        }
    }
    if !table_full(t) {
        lemma_free_exists(t, MAX_FD as int);
    }
    if first_free(t) is Some {
        let j = choose|j: int| is_first_free(t, j);
        assert(!t[j].in_use);
    }
}

proof fn lemma_free_exists(t: Seq<FdEntry>, n: int)
    requires
        FIRST_FD <= n <= MAX_FD,
        t.len() == MAX_FD,
        exists|j: int| FIRST_FD <= j < n && !t[j].in_use,
    ensures
        exists|fd: int| is_first_free(t, fd),
    decreases n,
{
    if exists|j: int| FIRST_FD <= j < n - 1 && !t[j].in_use {
        lemma_free_exists(t, n - 1);
    } else {
        assert(is_first_free(t, n - 1));
    }
}

/// The table after a file was opened at offset 0 on the lowest free
/// descriptor, with that descriptor; the table as it was, with the
/// sentinel, where none is free.
pub open spec fn opened(t: Seq<FdEntry>, kind: FileType, writable: bool) -> (Seq<FdEntry>, usize) {
    match first_free(t) {
        Some(fd) => (
            t.update(fd, FdEntry { in_use: true, file_type: kind, offset: 0, writable }),
            fd as usize,
        ),
        None => (t, SENTINEL),
    }
}

/// Opens a file on the lowest free descriptor and returns it, or the
/// sentinel.
fn open_fd(tbl: &mut FdTable, kind: FileType, writable: bool) -> (r: usize)
    requires
        old(tbl).wf(),
    ensures
        final(tbl).wf(),
        final(tbl)@ == opened(old(tbl)@, kind, writable).0,
        r == opened(old(tbl)@, kind, writable).1,
{
    proof {
        lemma_first_free(tbl@);
    }
    match fd_alloc(tbl, kind, writable) {
        Some(fd) => fd,
        None => SENTINEL,
    }
}

/// The file that a name opens: the first writable file of that name, else
/// the first embedded one.
pub open spec fn open_kind(k: KernelView, name: Seq<char>) -> Option<FileType> {
    match find(k.files, name) {
        Some(i) => Some(FileType::Writable(i as usize)),
        None => match ro_find(k.ro, name) {
            Some(i) => Some(FileType::ReadOnly(i as usize)),
            None => None,
        },
    }
}

/// `open(path)`: opens the file of that name for reading on the lowest free
/// descriptor and returns the descriptor; the sentinel for a path that
/// cannot be read, a name that no file has, and a full table.
pub open spec fn sys_open_post(k0: KernelView, tf0: TrapFrame, k1: KernelView, tf1: TrapFrame) -> bool {
    &&& match user_path(k0.space.pt, k0.space.fr, tf0.a0) {
        None => k1 == k0 && tf1 == returned(tf0, SENTINEL),
        Some(name) => match open_kind(k0, name) {
            None => k1 == k0 && tf1 == returned(tf0, SENTINEL),
            Some(kind) => k1 == (KernelView {
                fds: opened(k0.fds, kind, false).0,
                ..k0
            }) && tf1 == returned(tf0, opened(k0.fds, kind, false).1),
        },
    }
}

/// Handles `open(path)`.
pub fn sys_open(k: &mut Kernel, tf: &mut TrapFrame)
    requires
        old(k).wf(),
    ensures
        final(k).wf(),
        sys_open_post(old(k)@, *old(tf), final(k)@, *final(tf)),
{
    let path = match read_user_path(&k.space, tf.a0) {
        Some(p) => p,
        None => {
            ret(tf, SENTINEL);
            return ;
        },
    };
    proof {
        lemma_find(k.fs.files@, path@);
        lemma_ro_find(k.fs.ro@, path@);
    }
    let kind = match crate::fs::lookup_writable(&k.fs, path.as_str()) {
        Some(idx) => FileType::Writable(idx),
        None => match crate::fs::lookup_index(&k.fs, path.as_str()) {
            Some(idx) => FileType::ReadOnly(idx),
            None => {
                ret(tf, SENTINEL);
                return ;
            },
        },
    };
    let fd = open_fd(&mut k.fds, kind, false);
    ret(tf, fd);
}

/// Index that `creat` gives the file of a name: that of the first file of
/// the name, else the next free index.
pub open spec fn creat_index(files: Seq<WritableFile>, name: Seq<char>) -> int {
    match find(files, name) {
        Some(i) => i,
        None => files.len() as int,
    }
}

/// `creat(path)`: creates the file of that name, or empties it, with mode
/// `0o600`, opens it for writing on the lowest free descriptor and returns
/// the descriptor; the sentinel for a path that cannot be read, and, with
/// the file created all the same, for a full table.
pub open spec fn sys_creat_post(k0: KernelView, tf0: TrapFrame, k1: KernelView, tf1: TrapFrame) -> bool {
    &&& match user_path(k0.space.pt, k0.space.fr, tf0.a0) {
        None => k1 == k0 && tf1 == returned(tf0, SENTINEL),
        Some(name) => {
            let idx = creat_index(k0.files, name);
            let kind = FileType::Writable(idx as usize);
            &&& created(k0.files, k1.files, name, idx)
            &&& k1 == (KernelView {
                files: k1.files,
                fds: opened(k0.fds, kind, true).0,
                ..k0
            })
            &&& tf1 == returned(tf0, opened(k0.fds, kind, true).1)
        },
    }
}

/// Handles `creat(path)`.
pub fn sys_creat(k: &mut Kernel, tf: &mut TrapFrame)
    requires
        old(k).wf(),
    ensures
        final(k).wf(),
        sys_creat_post(old(k)@, *old(tf), final(k)@, *final(tf)),
{
    let path = match read_user_path(&k.space, tf.a0) {
        Some(p) => p,
        None => {
            ret(tf, SENTINEL);
            return ;
        },
    };
    match crate::fs::create_file(&mut k.fs, path.as_str()) {
        Ok(idx) => {
            let fd = open_fd(&mut k.fds, FileType::Writable(idx), true);
            ret(tf, fd);
        },
        Err(_) => {
            ret(tf, SENTINEL);
        },
    }
}

/// `unlink(path)`: removes the first writable file of that name and returns
/// 0; the sentinel for a path that cannot be read and a name that no
/// writable file has. The descriptors on the removed file are closed, and
/// those on the files behind it follow their files.
pub open spec fn sys_unlink_post(k0: KernelView, tf0: TrapFrame, k1: KernelView, tf1: TrapFrame) -> bool {
    &&& match user_path(k0.space.pt, k0.space.fr, tf0.a0) {
        None => k1 == k0 && tf1 == returned(tf0, SENTINEL),
        Some(name) => match find(k0.files, name) {
            None => k1 == k0 && tf1 == returned(tf0, SENTINEL),
            Some(i) => k1 == (KernelView { files: k0.files.remove(i), fds: unlinked(k0.fds, i), ..k0 })
                && tf1 == returned(tf0, 0),
        },
    }
}

/// Handles `unlink(path)`.
pub fn sys_unlink(k: &mut Kernel, tf: &mut TrapFrame)
    requires
        old(k).wf(),
    ensures
        final(k).wf(),
        sys_unlink_post(old(k)@, *old(tf), final(k)@, *final(tf)),
{
    let path = match read_user_path(&k.space, tf.a0) {
        Some(p) => p,
        None => {
            ret(tf, SENTINEL);
            return ;
        },
    };
    proof {
        lemma_find(k.fs.files@, path@);
    }
    let found = crate::fs::lookup_writable(&k.fs, path.as_str());
    match crate::fs::unlink_file(&mut k.fs, path.as_str()) {
        Ok(_) => {
            match found {
                Some(idx) => {
                    proof {
                        lemma_unlinked_live(
                            k.fds@,
                            k.fs.ro@.len() as int,
                            old(k).fs.files@.len() as int,
                            idx as int,
                        );
                    }
                    fd_unlink(&mut k.fds, idx);
                },
                None => {},
            }
            ret(tf, 0)
        },
        Err(_) => ret(tf, SENTINEL),
    }
}

/// `chmod(path, mode)`: sets the mode of the first writable file of that
/// name to the low 32 bits of `mode` and returns 0; the sentinel for a path
/// that cannot be read and a name that no writable file has.
pub open spec fn sys_chmod_post(k0: KernelView, tf0: TrapFrame, k1: KernelView, tf1: TrapFrame) -> bool {
    &&& match user_path(k0.space.pt, k0.space.fr, tf0.a0) {
        None => k1 == k0 && tf1 == returned(tf0, SENTINEL),
        Some(name) => match find(k0.files, name) {
            None => k1 == k0 && tf1 == returned(tf0, SENTINEL),
            Some(i) => chmodded(k0.files, k1.files, name, tf0.a1 as u32) && k1
                == (KernelView { files: k1.files, ..k0 }) && tf1 == returned(
                tf0,
                0,
            ),
        },
    }
}

/// Handles `chmod(path, mode)`.
pub fn sys_chmod(k: &mut Kernel, tf: &mut TrapFrame)
    requires
        old(k).wf(),
    ensures
        final(k).wf(),
        sys_chmod_post(old(k)@, *old(tf), final(k)@, *final(tf)),
{
    let mode = #[verifier::truncate] (tf.a1 as u32);
    let path = match read_user_path(&k.space, tf.a0) {
        Some(p) => p,
        None => {
            ret(tf, SENTINEL);
            return ;
        },
    };
    proof {
        lemma_find(k.fs.files@, path@);
    }
    match crate::fs::chmod_file(&mut k.fs, path.as_str(), mode) {
        Ok(_) => ret(tf, 0),
        Err(_) => ret(tf, SENTINEL),
    }
}

/// Size and mode that `stat` reports for a name.
pub open spec fn stat_of(k: KernelView, name: Seq<char>) -> Option<(usize, u32)> {
    match find(k.files, name) {
        Some(i) => Some((k.files[i].data@.len() as usize, k.files[i].mode)),
        None => match ro_find(k.ro, name) {
            Some(i) => Some((k.ro[i].data@.len() as usize, MODE_READ_ONLY)),
            None => None,
        },
    }
}

/// The bytes that `stat` stores: size, then mode, as 64-bit little-endian
/// words.
pub open spec fn stat_bytes(size: usize, mode: u32) -> Seq<u8> {
    vstd::bytes::spec_u64_to_le_bytes(size as u64) + vstd::bytes::spec_u64_to_le_bytes(mode as u64)
}

/// `stat(path, buf)`: stores size and mode of the file of that name at
/// `buf` and returns 0; the sentinel for a path that cannot be read, a name
/// that no file has, and a buffer that cannot be written whole: of such a
/// buffer the pages before the first that cannot be written hold their part.
pub open spec fn sys_stat_post(k0: KernelView, tf0: TrapFrame, k1: KernelView, tf1: TrapFrame) -> bool {
    &&& k1 == (KernelView { space: k1.space, ..k0 })
    &&& k1.space.pt == k0.space.pt
    &&& match user_path(k0.space.pt, k0.space.fr, tf0.a0) {
        None => k1 == k0 && tf1 == returned(tf0, SENTINEL),
        Some(name) => match stat_of(k0, name) {
            None => k1 == k0 && tf1 == returned(tf0, SENTINEL),
            Some((size, mode)) => k1.space.fr == user_stored(
                k0.space.pt,
                k0.space.fr,
                tf0.a1 as int,
                stat_bytes(size, mode),
            ) && (match user_store(k0.space.pt, k0.space.fr, tf0.a1 as int, stat_bytes(size, mode)) {
                Some(f) => k1.space.fr == f && tf1 == returned(tf0, 0),
                None => tf1 == returned(tf0, SENTINEL),
            }),
        },
    }
}

/// Handles `stat(path, buf)`.
pub fn sys_stat(k: &mut Kernel, tf: &mut TrapFrame)
    requires
        old(k).wf(),
    ensures
        final(k).wf(),
        sys_stat_post(old(k)@, *old(tf), final(k)@, *final(tf)),
{
    let stat_buf = tf.a1;
    let path = match read_user_path(&k.space, tf.a0) {
        Some(p) => p,
        None => {
            ret(tf, SENTINEL);
            return ;
        },
    };
    proof {
        lemma_find(k.fs.files@, path@);
        lemma_ro_find(k.fs.ro@, path@);
    }
    match crate::fs::stat_file(&k.fs, path.as_str()) {
        Some(stat) => {
            let mut bytes = vstd::bytes::u64_to_le_bytes(stat.size as u64);
            let mut mode = vstd::bytes::u64_to_le_bytes(stat.mode as u64);
            bytes.append(&mut mode);
            if k.space.write_user_bytes(stat_buf, bytes.as_slice()) {
                ret(tf, 0);
            } else {
                ret(tf, SENTINEL);
            }
        },
        None => {
            ret(tf, SENTINEL);
        },
    }
}

/// Length of the listing of the first `count` files.
fn listing_len(fs: &RamFs, count: usize, room: usize) -> (r: usize)
    requires
        count <= fs.files@.len(),
        listing(fs.files@, count as int).len() <= room,
    ensures
        r == listing(fs.files@, count as int).len(),
{
    let mut total: usize = 0;
    let mut i: usize = 0;
    while i < count
        invariant
            i <= count,
            count <= fs.files@.len(),
            total == listing(fs.files@, i as int).len(),
            listing(fs.files@, count as int).len() <= room,
        decreases count - i,
    {
        proof {
            lemma_listing_grows(fs.files@, i + 1, count as int);
        }
        total = total + fs.files[i].name.as_str().as_bytes().len() + 1;
        i += 1;
    }
    total
}

/// A listing of more names is no shorter.
proof fn lemma_listing_grows(files: Seq<WritableFile>, a: int, b: int)
    requires
        0 <= a <= b,
    ensures
        listing(files, a).len() <= listing(files, b).len(),
    decreases b - a,
{
    if a < b {
        lemma_listing_grows(files, a, b - 1);
    }
}

/// `readdir(buf, len)`: stores at `buf` the names of the writable files,
/// each followed by a zero byte, as many as fit whole into `len` bytes and
/// into the page of `buf`, and returns their number; 0 for a null buffer or
/// no room; the sentinel where names are to be stored and the program may
/// not write the page.
pub open spec fn sys_readdir_post(k0: KernelView, tf0: TrapFrame, k1: KernelView, tf1: TrapFrame) -> bool {
    &&& k1 == (KernelView { space: k1.space, ..k0 })
    &&& k1.space.pt == k0.space.pt
    &&& tf0.a0 == 0 || tf0.a1 == 0 ==> k1 == k0 && tf1 == returned(tf0, 0)
    &&& tf0.a0 != 0 && tf0.a1 != 0 ==> ({
        let room = page_cap(tf0.a0, tf0.a1);
        let count = listed(k0.files, room as int, 0);
        if count == 0 {
            k1 == k0 && tf1 == returned(tf0, 0)
        } else {
            match user_page(k0.space.pt, k0.space.fr, tf0.a0, true) {
                Some(pa) => k1.space.fr == k0.space.fr.store(
                    pa + tf0.a0 as int % 4096,
                    listing(k0.files, count),
                ) && tf1 == returned(tf0, count as usize),
                None => k1 == k0 && tf1 == returned(tf0, SENTINEL),
            }
        }
    })
}

/// Handles `readdir(buf, len)`.
pub fn sys_readdir(k: &mut Kernel, tf: &mut TrapFrame)
    requires
        old(k).wf(),
    ensures
        final(k).wf(),
        sys_readdir_post(old(k)@, *old(tf), final(k)@, *final(tf)),
{
    let buf_va = tf.a0;
    let len = tf.a1;
    if buf_va == 0 || len == 0 {
        ret(tf, 0);
        return ;
    }
    let room = AddressSpace::cap_to_page(buf_va, len);
    let mut kernel_buf: Vec<u8> = vec![0u8; room];
    let count = crate::fs::list_writable_files(&k.fs, &mut kernel_buf);
    if count == 0 {
        ret(tf, 0);
        return ;
    }
    let used = listing_len(&k.fs, count, room);
    let out = slice_subrange(kernel_buf.as_slice(), 0, used);
    proof {
        assert(out@ =~= listing(k.fs.files@, count as int));
        assert(out@.take(used as int) =~= out@);
    }
    match copy_to_user(&mut k.space, buf_va, out) {
        Some(_) => ret(tf, count),
        None => ret(tf, SENTINEL),
    }
}

/// The bytes of the file that a descriptor names; `None` where the layer
/// has no file at that index.
pub open spec fn file_bytes(k: KernelView, kind: FileType) -> Option<Seq<u8>> {
    match kind {
        FileType::ReadOnly(i) => if i < k.ro.len() {
            Some(k.ro[i as int].data@)
        } else {
            None
        },
        FileType::Writable(i) => if i < k.files.len() {
            Some(k.files[i as int].data@)
        } else {
            None
        },
    }
}

/// The smaller of two lengths.
pub open spec fn min_len(a: int, b: int) -> int {
    if a <= b {
        a
    } else {
        b
    }
}

/// What `read` does on a file descriptor: the bytes that the file has from
/// the descriptor's offset on, as many as the buffer's page takes, go to
/// the buffer, and the offset moves past them. `None` where it fails.
pub open spec fn read_file_result(k: KernelView, fd: usize, buf: usize, len: usize) -> Option<(KernelView, usize)> {
    match open_entry(k.fds, fd as int) {
        None => None,
        Some(e) => match file_bytes(k, e.file_type) {
            None => None,
            Some(data) => {
                let chunk = read_data(data, e.offset as int, page_cap(buf, len) as int);
                if chunk.len() == 0 {
                    Some((k, 0usize))
                } else {
                    match user_page(k.space.pt, k.space.fr, buf, true) {
                        None => None,
                        Some(pa) => Some(
                            (
                                KernelView {
                                    space: k.space.with_frames(k.space.fr.store(pa + buf as int % 4096, chunk)),
                                    fds: advanced(k.fds, fd as int, chunk.len() as usize),
                                    ..k
                                },
                                chunk.len() as usize,
                            ),
                        ),
                    }
                }
            },
        },
    }
}

/// What `read` does on stdin with input waiting: as much of the input as
/// the buffer's page takes goes to the buffer and leaves the input. `None`
/// where the program may not write the page.
pub open spec fn read_stdin_result(k: KernelView, buf: usize, len: usize) -> Option<(KernelView, usize)> {
    let n = min_len(page_cap(buf, len) as int, k.input.len() as int);
    match user_page(k.space.pt, k.space.fr, buf, true) {
        None => None,
        Some(pa) => Some(
            (
                KernelView {
                    space: k.space.with_frames(k.space.fr.store(pa + buf as int % 4096, k.input.take(n))),
                    input: k.input.skip(n),
                    ..k
                },
                n as usize,
            ),
        ),
    }
}

/// Reads from a file descriptor.
fn read_from_file(k: &mut Kernel, fd: usize, buf: usize, len: usize) -> (r: Option<usize>)
    requires
        old(k).wf(),
        buf != 0,
        len != 0,
    ensures
        final(k).wf(),
        match read_file_result(old(k)@, fd, buf, len) {
            Some((v, n)) => final(k)@ == v && r == Some(n),
            None => final(k)@ == old(k)@ && r is None,
        },
{
    let want = AddressSpace::cap_to_page(buf, len);
    let entry = match fd_get(&k.fds, fd) {
        Some(e) => e,
        None => {
            return None;
        },
    };
    let copied = match entry.file_type {
        FileType::ReadOnly(idx) => {
            if idx >= k.fs.ro.len() {
                return None;
            }
            let data: &'static [u8] = k.fs.ro[idx].data;
            if entry.offset >= data.len() {
                return Some(0);
            }
            let avail = data.len() - entry.offset;
            let n = if want <= avail {
                want
            } else {
                avail
            };
            let chunk = slice_subrange(data, entry.offset, entry.offset + n);
            proof {
                assert(chunk@.take(n as int) =~= chunk@);
            }
            copy_to_user(&mut k.space, buf, chunk)
        },
        FileType::Writable(idx) => {
            let mut temp: Vec<u8> = vec![0u8; want];
            match crate::fs::read_file(&k.fs, idx, entry.offset, &mut temp) {
                Err(_) => {
                    return None;
                },
                Ok(n) => {
                    if n == 0 {
                        return Some(0);
                    }
                    let chunk = slice_subrange(temp.as_slice(), 0, n);
                    proof {
                        let data = k.fs.files@[idx as int].data@;
                        assert(chunk@ =~= read_data(data, entry.offset as int, want as int));
                        assert(chunk@.take(n as int) =~= chunk@);
                    }
                    copy_to_user(&mut k.space, buf, chunk)
                },
            }
        },
    };
    match copied {
        Some(n) => {
            fd_advance(&mut k.fds, fd, n);
            Some(n)
        },
        None => None,
    }
}

/// Reads from stdin, with input waiting.
fn read_from_stdin(k: &mut Kernel, buf: usize, len: usize) -> (r: Option<usize>)
    requires
        old(k).wf(),
        buf != 0,
        len != 0,
        old(k)@.input.len() > 0,
    ensures
        final(k).wf(),
        match read_stdin_result(old(k)@, buf, len) {
            Some((v, n)) => final(k)@ == v && r == Some(n) && n > 0,
            None => final(k)@ == old(k)@ && r is None,
        },
{
    let want = AddressSpace::cap_to_page(buf, len);
    if k.space.user_page_pa(buf, true).is_none() {
        return None;
    }
    let have = k.input.len();
    let n = if want <= have {
        want
    } else {
        have
    };
    let mut bytes: Vec<u8> = Vec::new();
    let mut i: usize = 0;
    while i < n
        invariant
            i <= n,
            n <= old(k)@.input.len(),
            k.input.wf(),
            k.space == old(k).space,
            k.fs == old(k).fs,
            k.fds == old(k).fds,
            k.brk == old(k).brk,
            k.ticks == old(k).ticks,
            k.console == old(k).console,
            k.fb == old(k).fb,
            k.input@ == old(k)@.input.skip(i as int),
            bytes@ == old(k)@.input.take(i as int),
        decreases n - i,
    {
        match k.input.pop() {
            Some(b) => {
                bytes.push(b);
                proof {
                    assert(bytes@ =~= old(k)@.input.take(i + 1));
                    assert(k.input@ =~= old(k)@.input.skip(i + 1));
                }
            },
            None => {},
        }
        i += 1;
    }
    proof {
        assert(bytes@.take(n as int) =~= bytes@);
    }
    copy_to_user(&mut k.space, buf, bytes.as_slice())
}

/// `read(fd, buf, len)`: returns 0 for a null buffer or no length. On stdin
/// it needs input: without any it asks for some and changes nothing; with
/// some it moves as much of it to the buffer as the buffer's page takes. On
/// stdout and stderr it fails. On an open file it reads at the descriptor's
/// offset. Returns the number of bytes read, or the sentinel.
pub open spec fn sys_read_post(k0: KernelView, tf0: TrapFrame, k1: KernelView, tf1: TrapFrame, r: TrapOutcome) -> bool {
    &&& tf0.a1 == 0 || tf0.a2 == 0 ==> k1 == k0 && tf1 == returned(tf0, 0)
        && r == TrapOutcome::Resume
    &&& tf0.a1 != 0 && tf0.a2 != 0 ==> (if tf0.a0 == 0 {
        if k0.input.len() == 0 {
            k1 == k0 && tf1 == tf0 && r == TrapOutcome::NeedInput
        } else {
            r == TrapOutcome::Resume && (match read_stdin_result(k0, tf0.a1, tf0.a2) {
                Some((v, n)) => k1 == v && tf1 == returned(tf0, n),
                None => k1 == k0 && tf1 == returned(tf0, SENTINEL),
            })
        }
    } else {
        r == TrapOutcome::Resume && (match read_file_result(
            k0,
            tf0.a0,
            tf0.a1,
            tf0.a2,
        ) {
            Some((v, n)) => k1 == v && tf1 == returned(tf0, n),
            None => k1 == k0 && tf1 == returned(tf0, SENTINEL),
        })
    })
}

/// Handles `read(fd, buf, len)`.
pub fn sys_read(k: &mut Kernel, tf: &mut TrapFrame) -> (r: TrapOutcome)
    requires
        old(k).wf(),
    ensures
        final(k).wf(),
        sys_read_post(old(k)@, *old(tf), final(k)@, *final(tf), r),
{
    let fd = tf.a0;
    let buf = tf.a1;
    let len = tf.a2;
    if buf == 0 || len == 0 {
        ret(tf, 0);
        return TrapOutcome::Resume;
    }
    let got = if fd == 0 {
        if k.input.is_empty() {
            return TrapOutcome::NeedInput;
        }
        read_from_stdin(k, buf, len)
    } else {
        read_from_file(k, fd, buf, len)
    };
    match got {
        Some(n) => ret(tf, n),
        None => ret(tf, SENTINEL),
    }
    TrapOutcome::Resume
}

/// What `write` does on a file descriptor: the bytes at the buffer, as many
/// as its page holds, go into the file at the descriptor's offset, and the
/// offset moves past them. `None` where it fails: for a descriptor that is
/// not open for writing, a buffer that the program may not read, and a
/// write that the file cannot take. The last field is the file written.
pub open spec fn write_file_target(k: KernelView, fd: usize, buf: usize, len: usize) -> Option<
    (Seq<u8>, usize, usize),
> {
    match open_entry(k.fds, fd as int) {
        None => None,
        Some(e) => if !e.writable {
            None
        } else {
            match e.file_type {
                FileType::ReadOnly(_) => None,
                FileType::Writable(idx) => match user_load(
                    k.space.pt,
                    k.space.fr,
                    buf,
                    page_cap(buf, len) as int,
                ) {
                    None => None,
                    Some(data) => if idx < k.files.len() && e.offset + data.len() <= usize::MAX {
                        Some((data, e.offset, idx))
                    } else {
                        None
                    },
                },
            }
        },
    }
}

/// `write(fd, buf, len)`: returns 0 for a null buffer or no length. On
/// stdout and stderr the bytes at the buffer, as many as its page holds, go
/// to the console. On a descriptor open for writing they go into the file.
/// Returns the number of bytes written, or the sentinel.
pub open spec fn sys_write_fd_post(k0: KernelView, tf0: TrapFrame, k1: KernelView, tf1: TrapFrame) -> bool {
    &&& tf0.a1 == 0 || tf0.a2 == 0 ==> k1 == k0 && tf1 == returned(tf0, 0)
    &&& tf0.a1 != 0 && tf0.a2 != 0 ==> (if tf0.a0 == 1 || tf0.a0 == 2 {
        match user_load(
            k0.space.pt,
            k0.space.fr,
            tf0.a1,
            page_cap(tf0.a1, tf0.a2) as int,
        ) {
            Some(data) => k1 == (KernelView {
                console: k0.console + crlf(data),
                ..k0
            }) && tf1 == returned(tf0, page_cap(tf0.a1, tf0.a2)),
            None => k1 == k0 && tf1 == returned(tf0, SENTINEL),
        }
    } else {
        match write_file_target(k0, tf0.a0, tf0.a1, tf0.a2) {
            Some((data, off, idx)) => wrote(
                k0.files,
                k1.files,
                idx as int,
                off as int,
                data,
            ) && k1 == (KernelView {
                files: k1.files,
                fds: advanced(k0.fds, tf0.a0 as int, data.len() as usize),
                ..k0
            }) && tf1 == returned(tf0, data.len() as usize),
            None => k1 == k0 && tf1 == returned(tf0, SENTINEL),
        }
    })
}

/// Handles `write(fd, buf, len)`.
pub fn sys_write_fd(k: &mut Kernel, tf: &mut TrapFrame)
    requires
        old(k).wf(),
    ensures
        final(k).wf(),
        sys_write_fd_post(old(k)@, *old(tf), final(k)@, *final(tf)),
{
    let fd = tf.a0;
    let buf = tf.a1;
    let len = tf.a2;
    if buf == 0 || len == 0 {
        ret(tf, 0);
        return ;
    }
    let want = AddressSpace::cap_to_page(buf, len);
    if fd == 1 || fd == 2 {
        match k.space.read_user_in_page(buf, want) {
            Some(data) => {
                emit(&mut k.console, data.as_slice());
                ret(tf, want);
            },
            None => ret(tf, SENTINEL),
        }
        return ;
    }
    let entry = match fd_get(&k.fds, fd) {
        Some(e) => e,
        None => {
            ret(tf, SENTINEL);
            return ;
        },
    };
    if !entry.writable {
        ret(tf, SENTINEL);
        return ;
    }
    match entry.file_type {
        FileType::Writable(idx) => {
            let data = match k.space.read_user_in_page(buf, want) {
                Some(d) => d,
                None => {
                    ret(tf, SENTINEL);
                    return ;
                },
            };
            match crate::fs::write_file(&mut k.fs, idx, entry.offset, data.as_slice()) {
                Ok(n) => {
                    fd_advance(&mut k.fds, fd, n);
                    ret(tf, n);
                },
                Err(_) => ret(tf, SENTINEL),
            }
        },
        FileType::ReadOnly(_) => ret(tf, SENTINEL),
    }
}

/// `write(ptr, len)`: the `len` bytes at `ptr` go to the console, and `len`
/// comes back; a null pointer counts as no bytes. The sentinel where the
/// program may not read all of them.
pub open spec fn sys_write_ptrlen_post(k0: KernelView, tf0: TrapFrame, k1: KernelView, tf1: TrapFrame) -> bool {
    &&& tf0.a0 == 0 || tf0.a1 == 0 ==> k1 == k0 && tf1 == returned(tf0, 0)
    &&& tf0.a0 != 0 && tf0.a1 != 0 ==> (match user_load_all(
        k0.space.pt,
        k0.space.fr,
        tf0.a0 as int,
        tf0.a1 as nat,
    ) {
        Some(data) => k1 == (KernelView { console: k0.console + crlf(data), ..k0 })
            && tf1 == returned(tf0, tf0.a1),
        None => k1 == k0 && tf1 == returned(tf0, SENTINEL),
    })
}

/// Handles `write(ptr, len)`.
pub fn sys_write_ptrlen(k: &mut Kernel, tf: &mut TrapFrame)
    requires
        old(k).wf(),
    ensures
        final(k).wf(),
        sys_write_ptrlen_post(old(k)@, *old(tf), final(k)@, *final(tf)),
{
    let ptr = tf.a0;
    let len = tf.a1;
    if ptr == 0 || len == 0 {
        ret(tf, 0);
        return ;
    }
    match k.space.read_user_bytes(ptr, len) {
        Some(data) => {
            emit(&mut k.console, data.as_slice());
            ret(tf, len);
        },
        None => ret(tf, SENTINEL),
    }
}

/// `write_cstr(ptr)`: the bytes at `ptr` up to the first zero byte, or to
/// the end of the page without one, go to the console, and their number
/// comes back; a null pointer counts as no bytes. The sentinel where the
/// program may not read the page.
pub open spec fn sys_write_cstr_post(k0: KernelView, tf0: TrapFrame, k1: KernelView, tf1: TrapFrame) -> bool {
    &&& tf0.a0 == 0 ==> k1 == k0 && tf1 == returned(tf0, 0)
    &&& tf0.a0 != 0 ==> (match user_load(
        k0.space.pt,
        k0.space.fr,
        tf0.a0,
        page_cap(tf0.a0, 4096) as int,
    ) {
        Some(data) => k1 == (KernelView {
            console: k0.console + crlf(before_nul(data)),
            ..k0
        }) && tf1 == returned(tf0, before_nul(data).len() as usize),
        None => k1 == k0 && tf1 == returned(tf0, SENTINEL),
    })
}

/// Handles `write_cstr(ptr)`.
pub fn sys_write_cstr(k: &mut Kernel, tf: &mut TrapFrame)
    requires
        old(k).wf(),
    ensures
        final(k).wf(),
        sys_write_cstr_post(old(k)@, *old(tf), final(k)@, *final(tf)),
{
    let ptr = tf.a0;
    if ptr == 0 {
        ret(tf, 0);
        return ;
    }
    let room = AddressSpace::cap_to_page(ptr, 4096);
    match k.space.read_user_in_page(ptr, room) {
        Some(data) => {
            let n = match find_nul(data.as_slice()) {
                Some(z) => z,
                None => data.len(),
            };
            let text = slice_subrange(data.as_slice(), 0, n);
            proof {
                assert(text@ =~= before_nul(data@));
            }
            emit(&mut k.console, text);
            ret(tf, n);
        },
        None => ret(tf, SENTINEL),
    }
}

/// Top of the user stack of every program.
pub const USER_STACK_TOP: usize = 0x4000_8000;

/// Size of the user stack of every program.
pub const USER_STACK_BYTES: usize = 0x4000;

/// Most arguments that `execv` passes on.
pub const MAX_ARGS: usize = 16;

/// Most bytes of an argument that `execv` passes on.
pub const MAX_ARG_LEN: usize = 63;

/// The space as a new program finds it: nothing mapped for user addresses,
/// every frame free.
pub open spec fn exec_space(sp: Space) -> Space {
    Space {
        pt: if sp.pt.root == 0 {
            sp.pt
        } else {
            sp.pt.cleared(sp.pt.root as int)
        },
        fr: Frames { next: sp.fr.base, ..sp.fr },
    }
}

/// The frame with which a loaded program starts.
pub open spec fn entered(tf: TrapFrame, l: Loaded) -> TrapFrame {
    TrapFrame { sepc: l.entry_va, sp: l.user_sp, a0: l.argc, a1: l.argv_va, a2: l.envp_va, ..tf }
}

/// The environment of every program.
pub open spec fn default_env() -> Seq<Seq<u8>> {
    seq![vstd::utf8::encode_utf8("PATH=/"@)]
}

/// What replacing the running program by the file called `name` comes to.
/// Without such a file nothing changes and the sentinel comes back. With
/// it, the program's file descriptors are closed, its mappings and frames
/// are given up, and the file is loaded: where that succeeds, the frame
/// enters the new program and the break is the loaded one's; where it
/// fails, the sentinel comes back to a program whose memory is gone, and
/// the space holds what of the file was loaded up to the failure.
pub open spec fn load_program_post(
    k0: KernelView,
    tf0: TrapFrame,
    k1: KernelView,
    tf1: TrapFrame,
    r: TrapOutcome,
    name: Seq<char>,
    argv: Seq<Seq<u8>>,
) -> bool {
    match find(k0.files, name) {
        None => k1 == k0 && tf1 == returned(tf0, SENTINEL) && r == TrapOutcome::Resume,
        Some(i) => {
            let image = k0.files[i].data@;
            &&& r == TrapOutcome::ResumeFlushed
            &&& k1 == (KernelView { space: k1.space, brk: k1.brk, fds: all_closed(k0.fds), ..k0 })
            &&& match load_outcome(
                goblin_parse(image),
                image,
                exec_space(k0.space),
                USER_STACK_TOP as int,
                USER_STACK_BYTES as int,
                argv,
                default_env(),
            ) {
                Ok((s, l)) => k1.space == s && k1.brk == l.brk && tf1 == entered(tf0, l),
                Err(e) => k1.brk == k0.brk && tf1 == returned(tf0, SENTINEL),
            }
            &&& k1.space == load_left(
                goblin_parse(image),
                image,
                exec_space(k0.space),
                USER_STACK_TOP as int,
                USER_STACK_BYTES as int,
                argv,
                default_env(),
            )
        },
    }
}

/// Replaces the running program by the file called `name`, started with
/// the arguments `argv` and the default environment.
pub fn load_program(k: &mut Kernel, tf: &mut TrapFrame, name: &str, argv: &[&str]) -> (r: TrapOutcome)
    requires
        old(k).wf(),
    ensures
        final(k).wf(),
        load_program_post(old(k)@, *old(tf), final(k)@, *final(tf), r, name@, bytes_of(argv@)),
{
    proof {
        lemma_find(k.fs.files@, name@);
    }
    let image = match crate::fs::get_file_data(&k.fs, name) {
        Some(data) => data,
        None => {
            ret(tf, SENTINEL);
            return TrapOutcome::Resume;
        },
    };
    let envp: [&str; 1] = ["PATH=/"];
    fd_clear(&mut k.fds);
    k.space.frames.reset_user_pages();
    let root = k.space.pt.root_pt();
    if root != 0 {
        k.space.pt.clear_user_mappings(root);
    }
    proof {
        assert(bytes_of(envp@) =~= default_env());
    }
    match load_user_elf(
        &mut k.space,
        image.as_slice(),
        USER_STACK_TOP,
        USER_STACK_BYTES,
        argv,
        vstd::array::array_as_slice(&envp),
    ) {
        Ok(img) => {
            tf.sepc = img.entry_va;
            tf.sp = img.user_sp;
            tf.a0 = img.argc;
            tf.a1 = img.argv_va;
            tf.a2 = img.envp_va;
            k.brk = img.brk;
        },
        Err(e) => {
            ret(tf, SENTINEL);
        },
    }
    TrapOutcome::ResumeFlushed
}

/// The arguments with which the shell starts.
pub open spec fn shell_args() -> Seq<Seq<u8>> {
    seq![vstd::utf8::encode_utf8("shell"@)]
}

/// `exit()`: closes every file descriptor, also where there is no shell to
/// go back to, and replaces the program by the shell.
pub open spec fn sys_exit_post(k0: KernelView, tf0: TrapFrame, k1: KernelView, tf1: TrapFrame, r: TrapOutcome) -> bool {
    &&& load_program_post(
        KernelView { fds: all_closed(k0.fds), ..k0 },
        tf0,
        k1,
        tf1,
        r,
        "shell.elf"@,
        shell_args(),
    )
}

/// Handles `exit()`.
pub fn sys_exit(k: &mut Kernel, tf: &mut TrapFrame) -> (r: TrapOutcome)
    requires
        old(k).wf(),
    ensures
        final(k).wf(),
        sys_exit_post(old(k)@, *old(tf), final(k)@, *final(tf), r),
{
    fd_clear(&mut k.fds);
    let argv: [&str; 1] = ["shell"];
    proof {
        assert(bytes_of(argv@) =~= shell_args());
    }
    load_program(k, tf, "shell.elf", vstd::array::array_as_slice(&argv))
}

/// `exec(path)`: replaces the program by the file of that name, with the
/// name as its only argument. The sentinel for a path that cannot be read.
pub open spec fn sys_exec_post(k0: KernelView, tf0: TrapFrame, k1: KernelView, tf1: TrapFrame, r: TrapOutcome) -> bool {
    &&& match user_path(k0.space.pt, k0.space.fr, tf0.a0) {
        None => k1 == k0 && tf1 == returned(tf0, SENTINEL) && r
            == TrapOutcome::Resume,
        Some(name) => load_program_post(
            k0,
            tf0,
            k1,
            tf1,
            r,
            name,
            seq![vstd::utf8::encode_utf8(name)],
        ),
    }
}

/// Handles `exec(path)`.
pub fn sys_exec(k: &mut Kernel, tf: &mut TrapFrame) -> (r: TrapOutcome)
    requires
        old(k).wf(),
    ensures
        final(k).wf(),
        sys_exec_post(old(k)@, *old(tf), final(k)@, *final(tf), r),
{
    let path = match read_user_path(&k.space, tf.a0) {
        Some(p) => p,
        None => {
            ret(tf, SENTINEL);
            return TrapOutcome::Resume;
        },
    };
    let argv: [&str; 1] = [path.as_str()];
    proof {
        assert(bytes_of(argv@) =~= seq![vstd::utf8::encode_utf8(path@)]);
    }
    load_program(k, tf, path.as_str(), vstd::array::array_as_slice(&argv))
}

/// An argument as the new program gets it: its bytes if they are valid
/// UTF-8, else nothing.
pub open spec fn arg_text(b: Seq<u8>) -> Seq<u8> {
    if vstd::utf8::valid_utf8(b) {
        b
    } else {
        Seq::empty()
    }
}

/// The arguments that a vector of pointers at `argv_va` names, from the
/// `i`-th on: each pointer leads to a string, read up to its first zero
/// byte, the end of its page or 63 bytes; a null pointer or the sixteenth
/// argument ends the vector. `None` where the program may not read a
/// pointer or a string.
pub open spec fn user_args(pt: Tables, fr: Frames, argv_va: usize, i: int) -> Option<Seq<Seq<u8>>>
    decreases MAX_ARGS - i,
{
    if i < 0 || i >= MAX_ARGS {
        Some(Seq::empty())
    } else {
        match user_load_all(pt, fr, argv_va + 8 * i, 8) {
            None => None,
            Some(w) => {
                let ptr = vstd::bytes::spec_u64_from_le_bytes(w) as usize;
                if ptr == 0 {
                    Some(Seq::empty())
                } else {
                    match user_load(pt, fr, ptr, page_cap(ptr, MAX_ARG_LEN) as int) {
                        None => None,
                        Some(data) => match user_args(pt, fr, argv_va, i + 1) {
                            None => None,
                            Some(rest) => Some(seq![arg_text(before_nul(data))] + rest),
                        },
                    }
                }
            },
        }
    }
}

/// The bytes of each text of a list.
pub open spec fn texts(args: Seq<String>) -> Seq<Seq<u8>> {
    Seq::new(args.len(), |i: int| vstd::utf8::encode_utf8(args[i]@))
}

/// Reads the argument vector at a user address.
fn read_user_args(space: &AddressSpace, argv_va: usize) -> (r: Option<Vec<String>>)
    requires
        space.wf(),
    ensures
        match user_args(space.pt@, space.frames@, argv_va, 0) {
            Some(args) => r is Some && texts(r.unwrap()@) == args,
            None => r is None,
        },
{
    let ghost goal = user_args(space.pt@, space.frames@, argv_va, 0);
    let mut args: Vec<String> = Vec::new();
    let mut i: usize = 0;
    proof {
        match goal {
            Some(rest) => {
                assert(texts(args@) + rest =~= rest);
            },
            None => {},
        }
    }
    while i < MAX_ARGS
        invariant
            i <= MAX_ARGS,
            space.wf(),
            goal == user_args(space.pt@, space.frames@, argv_va, 0),
            match user_args(space.pt@, space.frames@, argv_va, i as int) {
                Some(rest) => goal == Some(texts(args@) + rest),
                None => goal is None,
            },
        decreases MAX_ARGS - i,
    {
        if argv_va > usize::MAX - 8 * i {
            proof {
                crate::mem::lemma_user_load_edge(space.pt@, space.frames@, argv_va + 8 * i, 8);
            }
            return None;
        }
        let word = match space.read_user_bytes(argv_va + 8 * i, 8) {
            Some(w) => w,
            None => {
                return None;
            },
        };
        proof {
            crate::mem::lemma_user_load_len(space.pt@, space.frames@, argv_va + 8 * i, 8);
        }
        let ptr = #[verifier::truncate] (vstd::bytes::u64_from_le_bytes(word.as_slice()) as usize);
        if ptr == 0 {
            proof {
                assert(texts(args@) + Seq::<Seq<u8>>::empty() =~= texts(args@));
            }
            return Some(args);
        }
        let room = AddressSpace::cap_to_page(ptr, MAX_ARG_LEN);
        let mut data = match space.read_user_in_page(ptr, room) {
            Some(d) => d,
            None => {
                return None;
            },
        };
        let ghost raw = data@;
        match find_nul(data.as_slice()) {
            Some(z) => {
                data.truncate(z);
            },
            None => {},
        }
        assert(data@ == before_nul(raw));
        let text = match string_from_utf8(data) {
            Some(t) => t,
            None => String::new(),
        };
        proof {
            if !vstd::utf8::valid_utf8(before_nul(raw)) {
                assert(text@.len() == 0);
                assert(vstd::utf8::encode_utf8(text@) =~= Seq::<u8>::empty());
            }
            let done = texts(args@);
            match user_args(space.pt@, space.frames@, argv_va, i + 1) {
                Some(rest) => {
                    assert(texts(args@.push(text)) + rest =~= done + (seq![arg_text(before_nul(raw))]
                        + rest));
                },
                None => {},
            }
        }
        args.push(text);
        i += 1;
    }
    proof {
        assert(texts(args@) + Seq::<Seq<u8>>::empty() =~= texts(args@));
    }
    Some(args)
}

/// `execv(path, argv)`: replaces the program by the file of that name,
/// started with the arguments that the vector at `argv` names. The
/// sentinel, with nothing changed, for a path or a vector that cannot be
/// read.
pub open spec fn sys_execv_post(k0: KernelView, tf0: TrapFrame, k1: KernelView, tf1: TrapFrame, r: TrapOutcome) -> bool {
    &&& match user_path(k0.space.pt, k0.space.fr, tf0.a0) {
        None => k1 == k0 && tf1 == returned(tf0, SENTINEL) && r
            == TrapOutcome::Resume,
        Some(name) => match user_args(k0.space.pt, k0.space.fr, tf0.a1, 0) {
            None => k1 == k0 && tf1 == returned(tf0, SENTINEL) && r
                == TrapOutcome::Resume,
            Some(argv) => load_program_post(k0, tf0, k1, tf1, r, name, argv),
        },
    }
}

/// Handles `execv(path, argv)`.
pub fn sys_execv(k: &mut Kernel, tf: &mut TrapFrame) -> (r: TrapOutcome)
    requires
        old(k).wf(),
    ensures
        final(k).wf(),
        sys_execv_post(old(k)@, *old(tf), final(k)@, *final(tf), r),
{
    let path = match read_user_path(&k.space, tf.a0) {
        Some(p) => p,
        None => {
            ret(tf, SENTINEL);
            return TrapOutcome::Resume;
        },
    };
    let args = match read_user_args(&k.space, tf.a1) {
        Some(a) => a,
        None => {
            ret(tf, SENTINEL);
            return TrapOutcome::Resume;
        },
    };
    let mut refs: Vec<&str> = Vec::new();
    let mut i: usize = 0;
    while i < args.len()
        invariant
            i <= args@.len(),
            refs@.len() == i,
            forall|j: int| 0 <= j < i ==> (#[trigger] refs@[j])@ == args@[j]@,
        decreases args@.len() - i,
    {
        refs.push(args[i].as_str());
        i += 1;
    }
    proof {
        assert(bytes_of(refs@) =~= texts(args@));
    }
    load_program(k, tf, path.as_str(), refs.as_slice())
}

/// Records the framebuffer that a display brought up.
pub fn register_framebuffer(k: &mut Kernel, fb: FramebufferInfo)
    requires
        old(k).wf(),
    ensures
        final(k).wf(),
        final(k)@ == (KernelView { fb: Some(fb), ..old(k)@ }),
{
    k.fb = Some(fb);
}

/// The framebuffer, if a display registered one.
pub fn get_framebuffer(k: &Kernel) -> (r: Option<FramebufferInfo>)
    ensures
        r == k@.fb,
{
    k.fb
}

/// Where a program finds the framebuffer.
pub const USER_FB_VA: usize = 0x5000_0000;

/// Flags of a framebuffer page: V, R, W, U, A, D.
pub const FB_FLAGS: u64 = 0xd7;

/// Number of pages of a framebuffer.
pub open spec fn fb_pages(fb: FramebufferInfo) -> int {
    (fb.size + 4095) / 4096
}

/// Whether a framebuffer can be mapped at all: it starts at a page, and
/// neither its memory nor its place in the program ends beyond the address
/// space.
pub open spec fn fb_mappable(fb: FramebufferInfo) -> bool {
    fb.phys_addr % 4096 == 0 && fb.phys_addr + fb.size + 4095 <= usize::MAX && USER_FB_VA + fb.size
        + 4095 <= usize::MAX
}

/// The tables after the framebuffer's pages from the `i`-th on were mapped
/// for the program; `None` where the pool runs out of pages.
pub open spec fn map_fb_from(pt: Tables, pa: int, pages: int, i: int) -> Option<Tables>
    decreases pages - i,
{
    if i < 0 || i >= pages {
        Some(pt)
    } else if !pt.map_fits(pt.root as int, (USER_FB_VA + i * 4096) as usize, 0) {
        None
    } else {
        map_fb_from(
            pt.map_leaf(
                pt.root as int,
                (USER_FB_VA + i * 4096) as usize,
                0,
                make_pte((pa + i * 4096) as usize, FB_FLAGS),
            ),
            pa,
            pages,
            i + 1,
        )
    }
}

/// The tables that mapping the framebuffer's pages from the `i`-th on
/// leaves, whether all of them could be mapped or not: the pages before the
/// first that could not be stay mapped.
pub open spec fn map_fb_left(pt: Tables, pa: int, pages: int, i: int) -> Tables
    decreases pages - i,
{
    if i < 0 || i >= pages || !pt.map_fits(pt.root as int, (USER_FB_VA + i * 4096) as usize, 0) {
        pt
    } else {
        map_fb_left(
            pt.map_leaf(
                pt.root as int,
                (USER_FB_VA + i * 4096) as usize,
                0,
                make_pte((pa + i * 4096) as usize, FB_FLAGS),
            ),
            pa,
            pages,
            i + 1,
        )
    }
}

/// What `get_fb_info` stores: width, height, stride and the framebuffer's
/// user address, as 64-bit little-endian words.
pub open spec fn fb_reply(fb: FramebufferInfo) -> Seq<u8> {
    vstd::bytes::spec_u64_to_le_bytes(fb.width as u64) + vstd::bytes::spec_u64_to_le_bytes(
        fb.height as u64,
    ) + vstd::bytes::spec_u64_to_le_bytes(fb.stride as u64) + vstd::bytes::spec_u64_to_le_bytes(
        USER_FB_VA as u64,
    )
}

/// Maps the framebuffer for the program.
fn map_framebuffer_to_user(k: &mut Kernel, fb: &FramebufferInfo) -> (ok: bool)
    requires
        old(k).wf(),
        old(k)@.space.pt.root != 0,
        fb_mappable(*fb),
    ensures
        final(k).wf(),
        final(k)@ == (KernelView { space: final(k)@.space, ..old(k)@ }),
        final(k)@.space.fr == old(k)@.space.fr,
        final(k)@.space.pt.root == old(k)@.space.pt.root,
        match map_fb_from(old(k)@.space.pt, fb.phys_addr as int, fb_pages(*fb), 0) {
            Some(pt) => ok && final(k)@.space.pt == pt,
            None => !ok,
        },
        final(k)@.space.pt == map_fb_left(old(k)@.space.pt, fb.phys_addr as int, fb_pages(*fb), 0),
{
    let pages = (fb.size + 4095) / 4096;
    let root = k.space.pt.root_pt();
    let mut i: usize = 0;
    while i < pages
        invariant
            i <= pages,
            pages == fb_pages(*fb),
            fb_mappable(*fb),
            k.wf(),
            k@ == (KernelView { space: k@.space, ..old(k)@ }),
            k@.space.fr == old(k)@.space.fr,
            k@.space.pt.root == root,
            root == old(k)@.space.pt.root,
            root != 0,
            map_fb_from(k@.space.pt, fb.phys_addr as int, pages as int, i as int) == map_fb_from(
                old(k)@.space.pt,
                fb.phys_addr as int,
                fb_pages(*fb),
                0,
            ),
            map_fb_left(k@.space.pt, fb.phys_addr as int, pages as int, i as int) == map_fb_left(
                old(k)@.space.pt,
                fb.phys_addr as int,
                fb_pages(*fb),
                0,
            ),
        decreases pages - i,
    {
        let va = USER_FB_VA + i * 4096;
        let pa = fb.phys_addr + i * 4096;
        match k.space.pt.map_4k(root, va, pa, FB_FLAGS) {
            Ok(()) => {},
            Err(_) => {
                return false;
            },
        }
        i += 1;
    }
    true
}

/// `get_fb_info(buf)`: maps the framebuffer for the program, stores its
/// description at `buf` and returns 0. The sentinel for a null buffer,
/// without a framebuffer or a root table, for a framebuffer that cannot be
/// mapped, and for a buffer that cannot be written whole. Of a framebuffer
/// that cannot be mapped the pages before the first that could not be stay
/// mapped; with a buffer that cannot be written the framebuffer stays
/// mapped, and the buffer's pages before the first that cannot be written
/// hold their part.
pub open spec fn sys_get_fb_info_post(k0: KernelView, tf0: TrapFrame, k1: KernelView, tf1: TrapFrame) -> bool {
    &&& k1 == (KernelView { space: k1.space, ..k0 })
    &&& tf0.a0 == 0 || k0.fb is None || k0.space.pt.root == 0 || !fb_mappable(
        k0.fb.unwrap(),
    ) ==> k1 == k0 && tf1 == returned(tf0, SENTINEL)
    &&& tf0.a0 != 0 && k0.fb is Some && k0.space.pt.root != 0 && fb_mappable(
        k0.fb.unwrap(),
    ) ==> (match map_fb_from(
        k0.space.pt,
        k0.fb.unwrap().phys_addr as int,
        fb_pages(k0.fb.unwrap()),
        0,
    ) {
        None => k1.space == (Space {
            pt: map_fb_left(k0.space.pt, k0.fb.unwrap().phys_addr as int, fb_pages(k0.fb.unwrap()), 0),
            fr: k0.space.fr,
        }) && tf1 == returned(tf0, SENTINEL),
        Some(pt) => k1.space.pt == pt && k1.space.fr == user_stored(
            pt,
            k0.space.fr,
            tf0.a0 as int,
            fb_reply(k0.fb.unwrap()),
        ) && (match user_store(pt, k0.space.fr, tf0.a0 as int, fb_reply(k0.fb.unwrap())) {
            Some(f) => k1.space.fr == f && tf1 == returned(tf0, 0),
            None => tf1 == returned(tf0, SENTINEL),
        }),
    })
}

/// Handles `get_fb_info(buf)`.
pub fn sys_get_fb_info(k: &mut Kernel, tf: &mut TrapFrame)
    requires
        old(k).wf(),
    ensures
        final(k).wf(),
        sys_get_fb_info_post(old(k)@, *old(tf), final(k)@, *final(tf)),
{
    let info_va = tf.a0;
    if info_va == 0 {
        ret(tf, SENTINEL);
        return ;
    }
    let fb = match k.fb {
        Some(fb) => fb,
        None => {
            ret(tf, SENTINEL);
            return ;
        },
    };
    if k.space.pt.root_pt() == 0 || fb.phys_addr % 4096 != 0 || fb.size > usize::MAX - 4095
        || fb.phys_addr > usize::MAX - 4095 - fb.size || USER_FB_VA > usize::MAX - 4095 - fb.size {
        ret(tf, SENTINEL);
        return ;
    }
    if !map_framebuffer_to_user(k, &fb) {
        ret(tf, SENTINEL);
        return ;
    }
    let mut reply = vstd::bytes::u64_to_le_bytes(fb.width as u64);
    let mut height = vstd::bytes::u64_to_le_bytes(fb.height as u64);
    let mut stride = vstd::bytes::u64_to_le_bytes(fb.stride as u64);
    let mut addr = vstd::bytes::u64_to_le_bytes(USER_FB_VA as u64);
    reply.append(&mut height);
    reply.append(&mut stride);
    reply.append(&mut addr);
    if k.space.write_user_bytes(info_va, reply.as_slice()) {
        ret(tf, 0);
    } else {
        ret(tf, SENTINEL);
    }
}

/// Timer cycles between two ticks.
pub const TICK_INTERVAL: u64 = 100_000;

/// Ticks between two blinks of the cursor.
pub const CURSOR_BLINK_TICKS: u64 = 50;

/// The tick count after one more tick; it wraps to 0 after the largest.
pub open spec fn next_tick(t: u64) -> u64 {
    if t == u64::MAX {
        0
    } else {
        (t + 1) as u64
    }
}

/// When the timer fires next: one interval after `now`, at the latest at
/// the largest time.
pub open spec fn next_deadline(now: u64) -> u64 {
    if now + TICK_INTERVAL > u64::MAX {
        u64::MAX
    } else {
        (now + TICK_INTERVAL) as u64
    }
}

/// A timer interrupt at time `now`: counts the tick, asks for the next
/// interrupt one interval on, and for a blink of the cursor on every
/// fiftieth tick.
pub fn on_timer(k: &mut Kernel, now: u64) -> (r: TrapOutcome)
    requires
        old(k).wf(),
    ensures
        final(k).wf(),
        final(k)@ == (KernelView { ticks: next_tick(old(k)@.ticks), ..old(k)@ }),
        r == (TrapOutcome::Timer {
            deadline: next_deadline(now),
            blink: next_tick(old(k)@.ticks) % CURSOR_BLINK_TICKS == 0,
        }),
{
    let deadline = if now > u64::MAX - TICK_INTERVAL {
        u64::MAX
    } else {
        now + TICK_INTERVAL
    };
    let t = if k.ticks == u64::MAX {
        0
    } else {
        k.ticks + 1
    };
    k.ticks = t;
    TrapOutcome::Timer { deadline, blink: t % CURSOR_BLINK_TICKS == 0 }
}

/// Why the processor trapped.
#[derive(Clone, Copy, Debug, PartialEq, Eq, Structural)]
pub enum Trap {
    /// The supervisor timer fired.
    SupervisorTimer,
    /// A user program executed `ecall`.
    UserEnvCall,
    /// Anything else.
    Other,
}

/// What a syscall does, by its number in `a7`. An unknown number returns
/// the sentinel and changes nothing.
pub open spec fn syscall_post(k0: KernelView, tf0: TrapFrame, k1: KernelView, tf1: TrapFrame, r: TrapOutcome) -> bool {
    let nr = tf0.a7;
    if nr == WRITE {
        sys_write_ptrlen_post(k0, tf0, k1, tf1) && r == TrapOutcome::Resume
    } else if nr == EXIT {
        sys_exit_post(k0, tf0, k1, tf1, r)
    } else if nr == WRITE_CSTR {
        sys_write_cstr_post(k0, tf0, k1, tf1) && r == TrapOutcome::Resume
    } else if nr == OPEN {
        sys_open_post(k0, tf0, k1, tf1) && r == TrapOutcome::Resume
    } else if nr == READ {
        sys_read_post(k0, tf0, k1, tf1, r)
    } else if nr == WRITE_FD {
        sys_write_fd_post(k0, tf0, k1, tf1) && r == TrapOutcome::Resume
    } else if nr == CLOSE {
        sys_close_post(k0, tf0, k1, tf1) && r == TrapOutcome::Resume
    } else if nr == LSEEK {
        sys_lseek_post(k0, tf0, k1, tf1) && r == TrapOutcome::Resume
    } else if nr == BRK {
        sys_brk_post(k0, tf0, k1, tf1) && r == TrapOutcome::Resume
    } else if nr == GETTIME {
        sys_gettime_post(k0, tf0, k1, tf1) && r == TrapOutcome::Resume
    } else if nr == POWEROFF {
        sys_poweroff_post(k0, tf0, k1, tf1, r)
    } else if nr == EXEC {
        sys_exec_post(k0, tf0, k1, tf1, r)
    } else if nr == EXECV {
        sys_execv_post(k0, tf0, k1, tf1, r)
    } else if nr == CREAT {
        sys_creat_post(k0, tf0, k1, tf1) && r == TrapOutcome::Resume
    } else if nr == UNLINK {
        sys_unlink_post(k0, tf0, k1, tf1) && r == TrapOutcome::Resume
    } else if nr == STAT {
        sys_stat_post(k0, tf0, k1, tf1) && r == TrapOutcome::Resume
    } else if nr == CHMOD {
        sys_chmod_post(k0, tf0, k1, tf1) && r == TrapOutcome::Resume
    } else if nr == READDIR {
        sys_readdir_post(k0, tf0, k1, tf1) && r == TrapOutcome::Resume
    } else if nr == GET_FB_INFO {
        sys_get_fb_info_post(k0, tf0, k1, tf1) && r == TrapOutcome::Resume
    } else if nr == FB_FLUSH {
        sys_fb_flush_post(k0, tf0, k1, tf1, r)
    } else {
        k1 == k0 && tf1 == returned(tf0, SENTINEL) && r == TrapOutcome::Resume
    }
}

/// What a trap does: a timer interrupt counts a tick, an `ecall` of the
/// program runs the syscall that `a7` names, and anything else is fatal
/// and changes nothing.
pub open spec fn trap_post(
    k0: KernelView,
    tf0: TrapFrame,
    k1: KernelView,
    tf1: TrapFrame,
    cause: Trap,
    now: u64,
    r: TrapOutcome,
) -> bool {
    match cause {
        Trap::SupervisorTimer => k1 == (KernelView { ticks: next_tick(k0.ticks), ..k0 }) && tf1 == tf0 && r
            == (TrapOutcome::Timer {
            deadline: next_deadline(now),
            blink: next_tick(k0.ticks) % CURSOR_BLINK_TICKS == 0,
        }),
        Trap::UserEnvCall => syscall_post(k0, tf0, k1, tf1, r),
        Trap::Other => k1 == k0 && tf1 == tf0 && r == TrapOutcome::Fatal,
    }
}

/// Handles a trap at time `now` and says what has to happen before the
/// program goes on.
pub fn rust_trap(k: &mut Kernel, tf: &mut TrapFrame, cause: Trap, now: u64) -> (r: TrapOutcome)
    requires
        old(k).wf(),
    ensures
        final(k).wf(),
        trap_post(old(k)@, *old(tf), final(k)@, *final(tf), cause, now, r),
{
    match cause {
        Trap::SupervisorTimer => on_timer(k, now),
        Trap::UserEnvCall => {
            let nr = tf.a7;
            if nr == WRITE {
                sys_write_ptrlen(k, tf);
                TrapOutcome::Resume
            } else if nr == EXIT {
                sys_exit(k, tf)
            } else if nr == WRITE_CSTR {
                sys_write_cstr(k, tf);
                TrapOutcome::Resume
            } else if nr == OPEN {
                sys_open(k, tf);
                TrapOutcome::Resume
            } else if nr == READ {
                sys_read(k, tf)
            } else if nr == WRITE_FD {
                sys_write_fd(k, tf);
                TrapOutcome::Resume
            } else if nr == CLOSE {
                sys_close(k, tf);
                TrapOutcome::Resume
            } else if nr == LSEEK {
                sys_lseek(k, tf);
                TrapOutcome::Resume
            } else if nr == BRK {
                sys_brk(k, tf);
                TrapOutcome::Resume
            } else if nr == GETTIME {
                sys_gettime(k, tf);
                TrapOutcome::Resume
            } else if nr == POWEROFF {
                sys_poweroff(k, tf)
            } else if nr == EXEC {
                sys_exec(k, tf)
            } else if nr == EXECV {
                sys_execv(k, tf)
            } else if nr == CREAT {
                sys_creat(k, tf);
                TrapOutcome::Resume
            } else if nr == UNLINK {
                sys_unlink(k, tf);
                TrapOutcome::Resume
            } else if nr == STAT {
                sys_stat(k, tf);
                TrapOutcome::Resume
            } else if nr == CHMOD {
                sys_chmod(k, tf);
                TrapOutcome::Resume
            } else if nr == READDIR {
                sys_readdir(k, tf);
                TrapOutcome::Resume
            } else if nr == GET_FB_INFO {
                sys_get_fb_info(k, tf);
                TrapOutcome::Resume
            } else if nr == FB_FLUSH {
                sys_fb_flush(k, tf)
            } else {
                ret(tf, SENTINEL);
                TrapOutcome::Resume
            }
        },
        Trap::Other => TrapOutcome::Fatal,
    }
}

/// A `brk` that returned the address it was asked for, other than the
/// sentinel, left that address as the break: asking again, by `brk(0)`,
/// returns it, and asking for the same address once more returns it and
/// changes nothing.
pub proof fn lemma_brk_settles(
    k0: KernelView,
    tf0: TrapFrame,
    k1: KernelView,
    tf1: TrapFrame,
    tf2: TrapFrame,
    k3: KernelView,
    tf3: TrapFrame,
)
    requires
        sys_brk_post(k0, tf0, k1, tf1),
        tf0.a0 >= k0.brk,
        tf0.a0 != SENTINEL,
        tf1.a0 == tf0.a0,
        sys_brk_post(k1, tf2, k3, tf3),
        tf2.a0 == 0 || tf2.a0 == tf0.a0,
    ensures
        k1.brk == tf0.a0,
        tf3.a0 == tf0.a0,
        k3 == k1,
{
}

/// A syscall that reads or writes through a descriptor returns 0 for a null
/// buffer and for no length, and changes nothing.
pub proof fn lemma_null_transfer(k0: KernelView, tf0: TrapFrame, k1: KernelView, tf1: TrapFrame, r: TrapOutcome)
    requires
        tf0.a1 == 0 || tf0.a2 == 0,
        sys_read_post(k0, tf0, k1, tf1, r) || sys_write_fd_post(k0, tf0, k1, tf1),
    ensures
        k1 == k0,
        tf1.a0 == 0,
{
}

/// No transfer through a descriptor passes the end of the buffer's page.
pub proof fn lemma_transfer_stays_in_page(buf: usize, len: usize)
    ensures
        page_cap(buf, len) <= len,
        buf as int % 4096 + page_cap(buf, len) <= 4096,
{
}

/// Whether two entries name the same file, opened the same way: the
/// embedded file of the same index, or a writable file of the same name.
pub open spec fn same_file(k0: KernelView, e0: FdEntry, k1: KernelView, e1: FdEntry) -> bool {
    &&& e1.writable == e0.writable
    &&& k1.ro == k0.ro
    &&& match e0.file_type {
        FileType::ReadOnly(a) => e1.file_type == FileType::ReadOnly(a),
        FileType::Writable(a) => match e1.file_type {
            FileType::ReadOnly(b) => false,
            FileType::Writable(b) => a < k0.files.len() && b < k1.files.len() && k1.files[b as int].name@
                == k0.files[a as int].name@,
        },
    }
}

/// Whether an entry is what the syscall in a frame opens: for `open` the
/// file that the name finds, in the layer in which it finds it, not to be
/// written; for `creat` the writable file of the name, to be written.
pub open spec fn opened_by(k0: KernelView, tf0: TrapFrame, e: FdEntry) -> bool {
    match user_path(k0.space.pt, k0.space.fr, tf0.a0) {
        None => false,
        Some(name) => e.offset == 0 && (if tf0.a7 == OPEN {
            open_kind(k0, name) == Some(e.file_type) && !e.writable
        } else {
            tf0.a7 == CREAT && e.file_type == FileType::Writable(creat_index(k0.files, name) as usize)
                && e.writable
        }),
    }
}

/// Through any trap a descriptor keeps its file. One that is in use after
/// the trap either was in use before, and then names the same file in the
/// same layer, opened the same way, or was opened by this trap, an `open`
/// or a `creat`, and then names the file that the syscall looked up, in the
/// layer in which it found it. So whatever descriptor a program holds, after
/// any run of traps, its kind is the one that opening it gave it.
pub proof fn lemma_trap_keeps_kinds(
    k0: KernelView,
    tf0: TrapFrame,
    k1: KernelView,
    tf1: TrapFrame,
    cause: Trap,
    now: u64,
    r: TrapOutcome,
)
    requires
        table_wf(k0.fds),
        fds_live(k0.fds, k0.ro.len() as int, k0.files.len() as int),
        trap_post(k0, tf0, k1, tf1, cause, now, r),
    ensures
        forall|fd: int|
            0 <= fd < MAX_FD && (#[trigger] k1.fds[fd]).in_use ==> if k0.fds[fd].in_use {
                same_file(k0, k0.fds[fd], k1, k1.fds[fd])
            } else {
                cause == Trap::UserEnvCall && opened_by(k0, tf0, k1.fds[fd])
            },
{
    assert forall|fd: int| 0 <= fd < MAX_FD && (#[trigger] k1.fds[fd]).in_use implies if k0.fds[fd].in_use {
        same_file(k0, k0.fds[fd], k1, k1.fds[fd])
    } else {
        cause == Trap::UserEnvCall && opened_by(k0, tf0, k1.fds[fd])
    } by {
        lemma_first_free(k0.fds);
        if k0.fds[fd].in_use {
            assert(entry_live(k0.fds[fd], k0.ro.len() as int, k0.files.len() as int));
        }
        if cause == Trap::UserEnvCall && (tf0.a7 == UNLINK || tf0.a7 == CREAT || tf0.a7 == CHMOD) {
            match user_path(k0.space.pt, k0.space.fr, tf0.a0) {
                None => {},
                Some(name) => {
                    lemma_find(k0.files, name);
                },
            }
        }
    }
}

/// A transfer that stopped at the end of the buffer's page is completed by a
/// second one from the address behind it, where what is left ends in the
/// next page: the two counts add up to `len`.
pub proof fn lemma_transfer_continues(buf: usize, len: usize)
    requires
        buf + len <= usize::MAX,
        len <= 4096 - buf % 4096 + 4096,
    ensures
        ({
            let n = page_cap(buf, len);
            n + page_cap((buf + n) as usize, (len - n) as usize) == len
        }),
{
    let n = page_cap(buf, len);
    if n < len {
        assert((buf + n) % 4096 == 0);
    }
}

/// A write through a descriptor stops at the end of the buffer's page. With
/// a buffer that the program may read, on stdout, stderr or a descriptor
/// open for writing on a writable file, it returns the number of bytes
/// between the buffer and the end of its page, at most `len`; just these
/// bytes go to the console, or into the file at the descriptor's offset,
/// which moves on by as many. A file takes them only where it does not
/// grow beyond the largest size.
pub proof fn lemma_write_stops_at_page_end(k0: KernelView, tf0: TrapFrame, k1: KernelView, tf1: TrapFrame)
    requires
        k0.space.wf(),
        table_wf(k0.fds),
        fds_live(k0.fds, k0.ro.len() as int, k0.files.len() as int),
        sys_write_fd_post(k0, tf0, k1, tf1),
        tf0.a1 != 0,
        tf0.a2 != 0,
        user_load(k0.space.pt, k0.space.fr, tf0.a1, page_cap(tf0.a1, tf0.a2) as int) is Some,
        tf0.a0 == 1 || tf0.a0 == 2 || (open_entry(k0.fds, tf0.a0 as int) matches Some(e) && e.writable
            && e.file_type is Writable && e.offset + page_cap(tf0.a1, tf0.a2) <= usize::MAX),
    ensures
        ({
            let n = page_cap(tf0.a1, tf0.a2);
            let data = user_load(k0.space.pt, k0.space.fr, tf0.a1, n as int).unwrap();
            &&& n == (if tf0.a2 <= 4096 - tf0.a1 % 4096 {
                tf0.a2 as int
            } else {
                4096 - tf0.a1 % 4096
            })
            &&& 0 < n
            &&& data.len() == n
            &&& tf1 == returned(tf0, n)
            &&& k1.space == k0.space
            &&& tf0.a0 == 1 || tf0.a0 == 2 ==> k1 == (KernelView { console: k0.console + crlf(data), ..k0 })
            &&& !(tf0.a0 == 1 || tf0.a0 == 2) ==> {
                let e = k0.fds[tf0.a0 as int];
                let idx = e.file_type->Writable_0 as int;
                &&& idx < k0.files.len()
                &&& k1.files.len() == k0.files.len()
                &&& k1.files[idx].data@ == crate::fs::write_data(k0.files[idx].data@, e.offset as int, data)
                &&& forall|j: int| 0 <= j < k0.files.len() && j != idx ==> #[trigger] k1.files[j] == k0.files[j]
                &&& k1.fds == k0.fds.update(tf0.a0 as int, FdEntry { offset: (e.offset + n) as usize, ..e })
                &&& k1.console == k0.console
            }
        }),
{
    let n = page_cap(tf0.a1, tf0.a2);
    let data = user_load(k0.space.pt, k0.space.fr, tf0.a1, n as int).unwrap();
    let pa = user_page(k0.space.pt, k0.space.fr, tf0.a1, false).unwrap();
    assert(data == k0.space.fr.read(pa + tf0.a1 as int % 4096, n as int));
    if !(tf0.a0 == 1 || tf0.a0 == 2) {
        let e = k0.fds[tf0.a0 as int];
        assert(entry_live(e, k0.ro.len() as int, k0.files.len() as int));
    }
}

/// An `exit()` that finds the shell and can load it enters the shell. Every
/// file descriptor is free; the frame holds the shell's entry, its stack
/// pointer, the argument count 1 and the addresses of the two vectors; the
/// break is the shell's. Where the layout stayed inside the stack's pages,
/// the program reads at `a1` one address and the closing null word, and at
/// that address `shell` with its closing zero byte.
pub proof fn lemma_exit_enters_shell(k0: KernelView, tf0: TrapFrame, k1: KernelView, tf1: TrapFrame, r: TrapOutcome)
    requires
        table_wf(k0.fds),
        k0.space.wf(),
        sys_exit_post(k0, tf0, k1, tf1, r),
        find(k0.files, "shell.elf"@) is Some,
        load_outcome(
            goblin_parse(k0.files[find(k0.files, "shell.elf"@).unwrap()].data@),
            k0.files[find(k0.files, "shell.elf"@).unwrap()].data@,
            exec_space(k0.space),
            USER_STACK_TOP as int,
            USER_STACK_BYTES as int,
            shell_args(),
            default_env(),
        ) is Ok,
        crate::elf::stack_base(USER_STACK_TOP as int, USER_STACK_BYTES as int) <= tf1.sp,
    ensures
        ({
            let image = k0.files[find(k0.files, "shell.elf"@).unwrap()].data@;
            let (s, l) = load_outcome(
                goblin_parse(image),
                image,
                exec_space(k0.space),
                USER_STACK_TOP as int,
                USER_STACK_BYTES as int,
                shell_args(),
                default_env(),
            ).unwrap();
            &&& r == TrapOutcome::ResumeFlushed
            &&& forall|fd: int| FIRST_FD <= fd < MAX_FD ==> !(#[trigger] k1.fds[fd]).in_use
            &&& k1.space == s
            &&& k1.brk == l.brk
            &&& tf1.sepc == l.entry_va
            &&& l.entry_va == goblin_parse(image).unwrap().entry as usize
            &&& tf1.sp == l.user_sp
            &&& tf1.a0 == 1
            &&& tf1.a1 == l.argv_va
            &&& tf1.a2 == l.envp_va
            &&& exists|p: usize|
                user_load_all(k1.space.pt, k1.space.fr, tf1.a1 as int, 16) == Some(
                    crate::elf::words_le(seq![p, 0usize]),
                ) && #[trigger] user_load_all(k1.space.pt, k1.space.fr, p as int, shell_args()[0].len() + 1) == Some(
                    shell_args()[0] + seq![0u8],
                )
        }),
{
    let image = k0.files[find(k0.files, "shell.elf"@).unwrap()].data@;
    let e = goblin_parse(image).unwrap();
    let sp = exec_space(k0.space);
    let top = USER_STACK_TOP as int;
    let bytes = USER_STACK_BYTES as int;
    let s1 = crate::elf::load_segments_from(sp, e.segments, image, 0, 0).unwrap().0;
    crate::sv39::lemma_cleared_wf(k0.space.pt, k0.space.pt.root as int);
    crate::elf::lemma_segments_sound(sp, e.segments, image, 0, 0);
    crate::elf::lemma_stack_contents(s1, top, bytes, shell_args(), default_env());
    let sm = map_stack_from(s1, crate::elf::stack_base(top, bytes), crate::elf::stack_pages(bytes), 0).unwrap();
    let aptrs = crate::elf::stack_strings(sm.pt, sm.fr, top, shell_args(), default_env()).unwrap().3;
    assert(aptrs.push(0) =~= seq![aptrs[0], 0usize]);
    assert(shell_args().len() == 1);
    let p = aptrs[0];
    assert(user_load_all(k1.space.pt, k1.space.fr, p as int, shell_args()[0].len() + 1) == Some(
        shell_args()[0] + seq![0u8],
    ));
}

} // verus!
