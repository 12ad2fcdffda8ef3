//! Loading ELF64 RISC-V programs: the header checks, the segments and the
//! initial user stack.

use vstd::prelude::*;
use vstd::bytes::{spec_u64_to_le_bytes, u64_to_le_bytes};
use vstd::slice::{slice_subrange, slice_to_vec};
use vstd::string::StringSliceAdditionalSpecFns;
use crate::mem::{page_cap, user_load, user_store, user_stored, AddressSpace, Frames, Space};
use crate::sv39::{
    make_pte, pte_addr, pte_flags, Leaf, MapError, Tables, PTE_A, PTE_D, PTE_R, PTE_U, PTE_V, PTE_W, PTE_X,
};

verus! {

/// Segment type of a loadable segment.
pub const PT_LOAD: u32 = 1;

/// Machine number of RISC-V.
pub const EM_RISCV: u16 = 243;

/// Identification byte of the 64-bit class.
pub const ELFCLASS64: u8 = 2;

/// Identification byte of little-endian data.
pub const ELFDATA2LSB: u8 = 1;

/// Size of the ELF64 file header.
pub const EHDR_SIZE: usize = 64;

/// Most strings that a program can be given, arguments and environment
/// together.
pub const MAX_POINTERS: usize = 32;

/// Flags of a stack page: V, R, W, U, A, D.
pub const STACK_FLAGS: u64 = 0xd7;

/// Why a program could not be loaded.
#[derive(Debug, Copy, Clone, PartialEq, Eq, Structural)]
pub enum ElfLoadError {
    /// The image is shorter than the file header.
    Short,
    /// The image does not start with the ELF magic number, or does not
    /// parse.
    BadMagic,
    /// The image is not of the 64-bit class, or not little-endian.
    Not64LE,
    /// The image is not for RISC-V.
    NotRiscv,
    /// A loadable segment's bytes lie outside the image, or its memory
    /// outside the address space.
    PhOutOfBounds,
    /// The kernel has no root page table.
    SatpNotSet,
    /// Arguments, environment or their pointer vectors do not fit the stack.
    SegmentOverflow,
    /// No frame, or no page for a page table, is left.
    OutOfMemory,
}

/// A loaded program: what the first entry into user mode needs.
#[derive(Debug, Copy, Clone, PartialEq, Eq, Structural)]
pub struct Loaded {
    pub entry_va: usize,
    pub user_sp: usize,
    pub argc: usize,
    pub argv_va: usize,
    pub envp_va: usize,
    pub brk: usize,
}

/// The page flags for a segment's permission bits: always V, U and A; R for
/// bit 2, W and D for bit 1, X for bit 0.
pub open spec fn pf_flags(pf: u32) -> u64 {
    0x51u64 | (if pf & 0x4 != 0 {
        0x02u64
    } else {
        0u64
    }) | (if pf & 0x2 != 0 {
        0x84u64
    } else {
        0u64
    }) | (if pf & 0x1 != 0 {
        0x08u64
    } else {
        0u64
    })
}

/// The page flags for a segment's permission bits.
pub fn pte_flags_from_pf(pf: u32) -> (f: u64)
    ensures
        f == pf_flags(pf),
        f & (PTE_V | PTE_U | PTE_A) == PTE_V | PTE_U | PTE_A,
        (f & PTE_R != 0) == (pf & 0x4 != 0),
        (f & PTE_X != 0) == (pf & 0x1 != 0),
        (f & PTE_W != 0) == (pf & 0x2 != 0),
        (f & PTE_D != 0) == (pf & 0x2 != 0),
        f & !(PTE_V | PTE_U | PTE_A | PTE_R | PTE_W | PTE_D | PTE_X) == 0,
{
    let r: u64 = if pf & 0x4 != 0 {
        PTE_R
    } else {
        0
    };
    let wd: u64 = PTE_W | PTE_D;
    let w: u64 = if pf & 0x2 != 0 {
        wd
    } else {
        0
    };
    let x: u64 = if pf & 0x1 != 0 {
        PTE_X
    } else {
        0
    };
    let base: u64 = PTE_V | PTE_U | PTE_A;
    let f = base | r | w | x;
    proof {
        assert(0x01u64 | 0x10 | 0x40 == 0x51) by (bit_vector);
        assert(0x04u64 | 0x80 == 0x84) by (bit_vector);
        assert(0x01u64 | 0x10 | 0x40 | 0x02 | 0x04 | 0x80 | 0x08 == 0xdf) by (bit_vector);
        lemma_pf_flags(pf);
    }
    f
}

/// The flags of a segment with any permission bits hold V, U and A; R
/// exactly with permission bit 2, X with bit 0, W and D with bit 1; and no
/// other bit.
pub proof fn lemma_pf_flags(pf: u32)
    ensures
        pf_flags(pf) & 0x51 == 0x51,
        (pf_flags(pf) & 0x02 != 0) == (pf & 0x4 != 0),
        (pf_flags(pf) & 0x08 != 0) == (pf & 0x1 != 0),
        (pf_flags(pf) & 0x04 != 0) == (pf & 0x2 != 0),
        (pf_flags(pf) & 0x80 != 0) == (pf & 0x2 != 0),
        pf_flags(pf) & !0xdfu64 == 0,
        pf_flags(pf) < 0x400,
{
    let r: u64 = if pf & 0x4 != 0 {
        0x02
    } else {
        0
    };
    let w: u64 = if pf & 0x2 != 0 {
        0x84
    } else {
        0
    };
    let x: u64 = if pf & 0x1 != 0 {
        0x08
    } else {
        0
    };
    let f = 0x51u64 | r | w | x;
    assert((r == 0 || r == 0x02) && (w == 0 || w == 0x84) && (x == 0 || x == 0x08) && f == 0x51u64 | r
        | w | x ==> {
        &&& f & 0x51 == 0x51
        &&& (f & 0x02 != 0) == (r != 0)
        &&& (f & 0x08 != 0) == (x != 0)
        &&& (f & 0x04 != 0) == (w != 0)
        &&& (f & 0x80 != 0) == (w != 0)
        &&& f & !0xdfu64 == 0
        &&& f < 0x400
    }) by (bit_vector);
}

/// A program header, as far as loading reads it.
#[derive(Debug, Copy, Clone, PartialEq, Eq, Structural)]
pub struct Segment {
    pub p_type: u32,
    pub p_flags: u32,
    pub p_offset: u64,
    pub p_vaddr: u64,
    pub p_filesz: u64,
    pub p_memsz: u64,
}

/// A parsed image, as far as loading reads it.
pub struct ElfImage {
    /// The 16 identification bytes.
    pub ident: [u8; 16],
    pub machine: u16,
    pub entry: u64,
    /// All program headers, in file order.
    pub segments: Vec<Segment>,
}

/// A parsed image as the contracts see it.
pub struct ElfView {
    pub ident: Seq<u8>,
    pub machine: u16,
    pub entry: u64,
    pub segments: Seq<Segment>,
}

impl View for ElfImage {
    type V = ElfView;

    open spec fn view(&self) -> ElfView {
        ElfView {
            ident: self.ident@,
            machine: self.machine,
            entry: self.entry,
            segments: self.segments@,
        }
    }
}

/// What `goblin` makes of an image: header and program headers where it
/// parses, `None` where `goblin` rejects it.
pub uninterp spec fn goblin_parse(image: Seq<u8>) -> Option<ElfView>;

/// Calls `goblin::elf::Elf::parse` on the image and keeps, of what it
/// returns, the identification bytes, machine and entry of the header and
/// six fields of every program header. That the outcome depends on the
/// image's bytes alone is taken on trust; nothing more is claimed of it.
#[verifier::external_body]
fn parse_elf(image: &[u8]) -> (r: Option<ElfImage>)
    ensures
        r is Some == goblin_parse(image@) is Some,
        r is Some ==> r.unwrap()@ == goblin_parse(image@).unwrap(),
{
    match goblin::elf::Elf::parse(image) {
        Ok(elf) => Some(ElfImage {
            ident: elf.header.e_ident,
            machine: elf.header.e_machine,
            entry: elf.header.e_entry,
            segments: elf.program_headers.iter().map(|p| Segment {
                p_type: p.p_type, p_flags: p.p_flags, p_offset: p.p_offset,
                p_vaddr: p.p_vaddr, p_filesz: p.p_filesz, p_memsz: p.p_memsz,
            }).collect(),
        }),
        Err(_) => None,
    }
}

/// The first header check that an image fails.
pub open spec fn header_error(e: ElfView) -> Option<ElfLoadError> {
    if !(e.ident[0] == 0x7f && e.ident[1] == 0x45 && e.ident[2] == 0x4c && e.ident[3] == 0x46) {
        Some(ElfLoadError::BadMagic)
    } else if e.ident[4] != ELFCLASS64 || e.ident[5] != ELFDATA2LSB {
        Some(ElfLoadError::Not64LE)
    } else if e.machine != EM_RISCV {
        Some(ElfLoadError::NotRiscv)
    } else {
        None
    }
}

/// Whether the bytes that a segment takes from the file lie in an image of
/// the given length.
pub open spec fn seg_in_image(seg: Segment, image_len: int) -> bool {
    seg.p_offset + seg.p_filesz <= image_len
}

/// Whether a segment's memory, rounded out to whole pages, has addresses.
pub open spec fn seg_addressable(seg: Segment) -> bool {
    seg.p_vaddr + seg.p_memsz + 4095 <= usize::MAX
}

/// Address of the first page that a segment touches.
pub open spec fn seg_va0(seg: Segment) -> int {
    seg.p_vaddr - seg.p_vaddr % 4096
}

/// Number of pages that a segment touches.
pub open spec fn seg_pages(seg: Segment) -> int {
    (seg.p_vaddr + seg.p_memsz + 4095) / 4096 - seg.p_vaddr / 4096
}

/// The bytes of the `i`-th page of a segment, given what its frame held:
/// from the segment's start on, the file's bytes as far as they reach, then
/// zeros to the end of the segment's memory; elsewhere what the frame held.
pub open spec fn page_fill(held: Seq<u8>, seg: Segment, image: Seq<u8>, i: int) -> Seq<u8> {
    Seq::new(
        4096,
        |o: int|
            {
                let j = seg_va0(seg) + i * 4096 + o - seg.p_vaddr;
                if j < 0 {
                    held[o]
                } else if j < seg.p_filesz {
                    image[seg.p_offset + j]
                } else if j < seg.p_memsz {
                    0u8
                } else {
                    held[o]
                }
            },
    )
}

/// The space after the `i`-th page of a segment was loaded: the page gets
/// the next frame, and the frame its bytes.
pub open spec fn load_page(sp: Space, seg: Segment, image: Seq<u8>, i: int) -> Result<Space, MapError> {
    match sp.map_user_page((seg_va0(seg) + i * 4096) as usize, pf_flags(seg.p_flags)) {
        Err(e) => Err(e),
        Ok(s1) => {
            let pa = sp.fr.next as int;
            Ok(s1.with_frames(s1.fr.store(pa, page_fill(s1.fr.read(pa, 4096), seg, image, i))))
        },
    }
}

/// The space after the pages of a segment from the `i`-th on were loaded,
/// or the error of the first that could not be.
pub open spec fn load_segment_from(sp: Space, seg: Segment, image: Seq<u8>, i: int) -> Result<
    Space,
    MapError,
>
    decreases seg_pages(seg) - i,
{
    if i < 0 || i >= seg_pages(seg) {
        Ok(sp)
    } else {
        match load_page(sp, seg, image, i) {
            Err(e) => Err(e),
            Ok(s1) => load_segment_from(s1, seg, image, i + 1),
        }
    }
}

/// The space that loading the pages of a segment from the `i`-th on leaves,
/// whether all of them could be loaded or not: the pages before the first
/// that could not be stay loaded.
pub open spec fn segment_left(sp: Space, seg: Segment, image: Seq<u8>, i: int) -> Space
    decreases seg_pages(seg) - i,
{
    if i < 0 || i >= seg_pages(seg) {
        sp
    } else {
        match load_page(sp, seg, image, i) {
            Err(e) => sp,
            Ok(s1) => segment_left(s1, seg, image, i + 1),
        }
    }
}

/// The larger of two addresses.
pub open spec fn max_int(a: int, b: int) -> int {
    if a >= b {
        a
    } else {
        b
    }
}

/// The space after the segments from the `k`-th on were loaded, with the
/// highest end of any loaded segment, at least `brk`; or the error of the
/// first segment that could not be loaded. Only loadable segments count, and
/// of those only the ones that take memory.
pub open spec fn load_segments_from(sp: Space, segs: Seq<Segment>, image: Seq<u8>, k: int, brk: int) -> Result<
    (Space, int),
    ElfLoadError,
>
    decreases segs.len() - k,
{
    if k < 0 || k >= segs.len() {
        Ok((sp, brk))
    } else if segs[k].p_type != PT_LOAD {
        load_segments_from(sp, segs, image, k + 1, brk)
    } else if !seg_in_image(segs[k], image.len() as int) {
        Err(ElfLoadError::PhOutOfBounds)
    } else if segs[k].p_memsz == 0 {
        load_segments_from(sp, segs, image, k + 1, brk)
    } else if !seg_addressable(segs[k]) {
        Err(ElfLoadError::PhOutOfBounds)
    } else {
        match load_segment_from(sp, segs[k], image, 0) {
            Err(e) => Err(ElfLoadError::OutOfMemory),
            Ok(s1) => load_segments_from(
                s1,
                segs,
                image,
                k + 1,
                max_int(brk, segs[k].p_vaddr + segs[k].p_memsz),
            ),
        }
    }
}

/// The space that loading the segments from the `k`-th on leaves, whether
/// all of them could be loaded or not: the segments before the first that
/// could not be stay loaded, and of that one the pages that could be.
pub open spec fn segments_left(sp: Space, segs: Seq<Segment>, image: Seq<u8>, k: int) -> Space
    decreases segs.len() - k,
{
    if k < 0 || k >= segs.len() {
        sp
    } else if segs[k].p_type != PT_LOAD {
        segments_left(sp, segs, image, k + 1)
    } else if !seg_in_image(segs[k], image.len() as int) {
        sp
    } else if segs[k].p_memsz == 0 {
        segments_left(sp, segs, image, k + 1)
    } else if !seg_addressable(segs[k]) {
        sp
    } else {
        match load_segment_from(sp, segs[k], image, 0) {
            Err(e) => segment_left(sp, segs[k], image, 0),
            Ok(s1) => segments_left(s1, segs, image, k + 1),
        }
    }
}

/// Offset in a segment of the byte at offset `o` of its `i`-th page.
pub open spec fn seg_offset(seg: Segment, i: int, o: int) -> int {
    i * 4096 + o - seg.p_vaddr % 4096
}

/// Writes into a frame what the `i`-th page of a segment holds.
fn fill_page(frames: &mut crate::mem::UserFrames, pa: usize, seg: &Segment, image: &[u8], i: usize)
    requires
        old(frames)@.wf(),
        old(frames)@.contains(pa as int, 4096),
        seg_in_image(*seg, image@.len() as int),
        seg_addressable(*seg),
        i < seg_pages(*seg),
    ensures
        final(frames)@.wf(),
        final(frames)@ == old(frames)@.store(
            pa as int,
            page_fill(old(frames)@.read(pa as int, 4096), *seg, image@, i as int),
        ),
{
    let image_len = image.len();
    let vaddr = seg.p_vaddr as usize;
    let filesz = seg.p_filesz as usize;
    let memsz = seg.p_memsz as usize;
    let offset = seg.p_offset as usize;
    let head = vaddr % 4096;
    let page_off: usize = if i == 0 {
        head
    } else {
        0
    };
    // offset in the segment of the first byte of the page that belongs to it
    let seg_off: usize = if i == 0 {
        0
    } else {
        i * 4096 - head
    };
    let room = 4096 - page_off;
    let file_chunk: usize = if seg_off < filesz {
        if filesz - seg_off <= room {
            filesz - seg_off
        } else {
            room
        }
    } else {
        0
    };
    let ghost before = frames@;
    let ghost held = before.read(pa as int, 4096);
    let ghost base = before.base as int;
    if file_chunk > 0 {
        let src = slice_subrange(image, offset + seg_off, offset + seg_off + file_chunk);
        frames.memcpy_pa((pa + page_off) as u64, src);
    }
    let ghost copied = frames@;
    let covered: usize = if memsz - seg_off >= room {
        4096
    } else {
        page_off + (memsz - seg_off)
    };
    let zero_start = page_off + file_chunk;
    if covered > zero_start {
        frames.memzero_pa((pa + zero_start) as u64, covered - zero_start);
    }
    proof {
        let fill = page_fill(held, *seg, image@, i as int);
        let want = before.store(pa as int, fill);
        assert(seg_va0(*seg) + i * 4096 - seg.p_vaddr == i * 4096 - head);
        assert forall|k: int| 0 <= k < before.bytes.len() implies frames@.bytes[k] == want.bytes[k] by {
            let o = k - (pa - base);
            if 0 <= o < 4096 {
                let j = i * 4096 + o - head;
                assert(fill[o] == if j < 0 {
                    held[o]
                } else if j < seg.p_filesz {
                    image@[seg.p_offset + j]
                } else if j < seg.p_memsz {
                    0u8
                } else {
                    held[o]
                });
                assert(held[o] == before.bytes[k]);
                if page_off <= o < page_off + file_chunk {
                    assert(copied.bytes[k] == image@.subrange(
                        offset + seg_off,
                        offset + seg_off + file_chunk,
                    )[o - page_off]);
                }
            }
        }
        assert(frames@.bytes =~= want.bytes);
    }
}

/// Loads one page of a segment.
fn load_one_page(space: &mut AddressSpace, seg: &Segment, image: &[u8], i: usize) -> (r: Result<
    (),
    MapError,
>)
    requires
        old(space).wf(),
        old(space).pt@.root != 0,
        seg_in_image(*seg, image@.len() as int),
        seg_addressable(*seg),
        i < seg_pages(*seg),
    ensures
        final(space).wf(),
        final(space).pt@.root == old(space).pt@.root,
        match r {
            Ok(()) => load_page(old(space)@, *seg, image@, i as int) == Ok::<Space, MapError>(final(space)@),
            Err(e) => load_page(old(space)@, *seg, image@, i as int) == Err::<Space, MapError>(e)
                && final(space)@ == old(space)@,
        },
{
    let vaddr = seg.p_vaddr as usize;
    let va0 = vaddr - vaddr % 4096;
    let va = va0 + i * 4096;
    let flags = pte_flags_from_pf(seg.p_flags);
    proof {
        crate::mem::lemma_map_user_page(space@, va, flags);
    }
    let pa = match space.map_user_page(va, flags) {
        Ok(pa) => pa,
        Err(e) => {
            return Err(e);
        },
    };
    fill_page(&mut space.frames, pa, seg, image, i);
    Ok(())
}

/// Loads the pages of one segment, in order.
fn load_segment(space: &mut AddressSpace, seg: &Segment, image: &[u8]) -> (r: Result<(), MapError>)
    requires
        old(space).wf(),
        old(space).pt@.root != 0,
        seg_in_image(*seg, image@.len() as int),
        seg_addressable(*seg),
    ensures
        final(space).wf(),
        final(space).pt@.root == old(space).pt@.root,
        match r {
            Ok(()) => load_segment_from(old(space)@, *seg, image@, 0) == Ok::<Space, MapError>(
                final(space)@,
            ),
            Err(e) => load_segment_from(old(space)@, *seg, image@, 0) == Err::<Space, MapError>(e),
        },
        final(space)@ == segment_left(old(space)@, *seg, image@, 0),
{
    let first = (seg.p_vaddr / 4096) as usize;
    let last = ((seg.p_vaddr + seg.p_memsz + 4095) / 4096) as usize;
    let pages = last - first;
    let mut i: usize = 0;
    while i < pages
        invariant
            i <= pages,
            pages == seg_pages(*seg),
            space.wf(),
            space.pt@.root == old(space).pt@.root,
            space.pt@.root != 0,
            seg_in_image(*seg, image@.len() as int),
            seg_addressable(*seg),
            load_segment_from(space@, *seg, image@, i as int) == load_segment_from(
                old(space)@,
                *seg,
                image@,
                0,
            ),
            segment_left(space@, *seg, image@, i as int) == segment_left(old(space)@, *seg, image@, 0),
        decreases pages - i,
    {
        match load_one_page(space, seg, image, i) {
            Ok(()) => {},
            Err(e) => {
                return Err(e);
            },
        }
        i += 1;
    }
    Ok(())
}

/// Loads the segments of an image from the `k`-th on.
fn load_segments(space: &mut AddressSpace, segs: &Vec<Segment>, image: &[u8]) -> (r: Result<
    usize,
    ElfLoadError,
>)
    requires
        old(space).wf(),
        old(space).pt@.root != 0,
    ensures
        final(space).wf(),
        final(space).pt@.root == old(space).pt@.root,
        match r {
            Ok(brk) => load_segments_from(old(space)@, segs@, image@, 0, 0) == Ok::<
                (Space, int),
                ElfLoadError,
            >((final(space)@, brk as int)),
            Err(e) => load_segments_from(old(space)@, segs@, image@, 0, 0) == Err::<
                (Space, int),
                ElfLoadError,
            >(e),
        },
        final(space)@ == segments_left(old(space)@, segs@, image@, 0),
{
    let n = segs.len();
    let image_len = image.len();
    let mut max_brk: usize = 0;
    let mut k: usize = 0;
    while k < n
        invariant
            k <= n,
            n == segs@.len(),
            image_len == image@.len(),
            space.wf(),
            space.pt@.root == old(space).pt@.root,
            space.pt@.root != 0,
            load_segments_from(space@, segs@, image@, k as int, max_brk as int) == load_segments_from(
                old(space)@,
                segs@,
                image@,
                0,
                0,
            ),
            segments_left(space@, segs@, image@, k as int) == segments_left(old(space)@, segs@, image@, 0),
        decreases n - k,
    {
        let seg = segs[k];
        if seg.p_type == PT_LOAD {
            let in_image = match seg.p_offset.checked_add(seg.p_filesz) {
                Some(end) => end <= image_len as u64,
                None => false,
            };
            if !in_image {
                return Err(ElfLoadError::PhOutOfBounds);
            }
            if seg.p_memsz != 0 {
                let addressable = match seg.p_vaddr.checked_add(seg.p_memsz) {
                    Some(end) => end <= usize::MAX as u64 && end <= usize::MAX as u64 - 4095,
                    None => false,
                };
                if !addressable {
                    return Err(ElfLoadError::PhOutOfBounds);
                }
                match load_segment(space, &seg, image) {
                    Ok(()) => {},
                    Err(e) => {
                        return Err(ElfLoadError::OutOfMemory);
                    },
                }
                let seg_end = (seg.p_vaddr + seg.p_memsz) as usize;
                if seg_end > max_brk {
                    max_brk = seg_end;
                }
            }
        }
        k += 1;
    }
    Ok(max_brk)
}

/// The bytes of each string of a list.
pub open spec fn bytes_of(strs: Seq<&str>) -> Seq<Seq<u8>> {
    Seq::new(strs.len(), |i: int| strs[i].spec_bytes())
}

/// The frames, the stack pointer and the addresses of the strings after the
/// strings from the `k`-th on were put on the stack, each below the one
/// before and followed by a zero byte; `None` where the stack pointer would
/// pass address 0 or a store fails.
#[verifier::opaque]
pub open spec fn strings_from(pt: Tables, fr: Frames, sp: int, strs: Seq<Seq<u8>>, k: int) -> Option<
    (Frames, int, Seq<usize>),
>
    decreases strs.len() - k,
{
    if k < 0 || k >= strs.len() {
        Some((fr, sp, Seq::empty()))
    } else {
        let at = sp - strs[k].len() - 1;
        match user_store(pt, fr, at, strs[k] + seq![0u8]) {
            None => None,
            Some(f2) => match strings_from(pt, f2, at, strs, k + 1) {
                None => None,
                Some((f3, s3, rest)) => Some((f3, s3, seq![at as usize] + rest)),
            },
        }
    }
}

/// The frames that putting the strings from the `k`-th on on the stack
/// leaves, whether all of them went there or not: the strings before the
/// first that did not fit stay stored, and of that one what its pages took.
pub open spec fn strings_left(pt: Tables, fr: Frames, sp: int, strs: Seq<Seq<u8>>, k: int) -> Frames
    decreases strs.len() - k,
{
    if k < 0 || k >= strs.len() {
        fr
    } else {
        let at = sp - strs[k].len() - 1;
        match user_store(pt, fr, at, strs[k] + seq![0u8]) {
            None => user_stored(pt, fr, at, strs[k] + seq![0u8]),
            Some(f2) => strings_left(pt, f2, at, strs, k + 1),
        }
    }
}

/// The bytes of a run of 64-bit words, each little-endian.
pub open spec fn words_le(ws: Seq<usize>) -> Seq<u8>
    decreases ws.len(),
{
    if ws.len() == 0 {
        Seq::empty()
    } else {
        words_le(ws.drop_last()) + spec_u64_to_le_bytes(ws.last() as u64)
    }
}

/// What the stack holds once a program is loaded.
pub struct StackInfo {
    pub user_sp: usize,
    pub envp_va: usize,
    pub argv_va: usize,
    pub argc: usize,
}

/// The frames, the stack pointer and the addresses of the strings after the
/// environment strings and then the argument strings were put on the stack
/// below a guard of 16 bytes under `top`.
pub open spec fn stack_strings(pt: Tables, fr: Frames, top: int, argv: Seq<Seq<u8>>, envp: Seq<Seq<u8>>) -> Option<
    (Frames, int, Seq<usize>, Seq<usize>),
> {
    if top < 16 {
        None
    } else {
        match strings_from(pt, fr, top - 16, envp, 0) {
            None => None,
            Some((f1, s1, eptrs)) => match strings_from(pt, f1, s1, argv, 0) {
                None => None,
                Some((f2, s2, aptrs)) => Some((f2, s2, eptrs, aptrs)),
            },
        }
    }
}

/// The frames and the addresses after the pointer vectors and the argument
/// count were put below `sp`, rounded down to 16 bytes: from high to low the
/// environment vector, the argument vector, each ended by a null word, and
/// the count. The stack pointer is the count's address rounded down to 16
/// bytes.
pub open spec fn stack_vectors(pt: Tables, fr: Frames, sp: int, eptrs: Seq<usize>, aptrs: Seq<usize>) -> Option<
    (Frames, StackInfo),
> {
    let s3 = sp - sp % 16;
    let envp_va = s3 - 8 * (eptrs.len() + 1);
    match user_store(pt, fr, envp_va, words_le(eptrs.push(0))) {
        None => None,
        Some(f3) => {
            let argv_va = envp_va - 8 * (aptrs.len() + 1);
            match user_store(pt, f3, argv_va, words_le(aptrs.push(0))) {
                None => None,
                Some(f4) => {
                    let argc_at = argv_va - 8;
                    match user_store(pt, f4, argc_at, spec_u64_to_le_bytes(aptrs.len() as u64)) {
                        None => None,
                        Some(f5) => Some(
                            (
                                f5,
                                StackInfo {
                                    user_sp: (argc_at - argc_at % 16) as usize,
                                    envp_va: envp_va as usize,
                                    argv_va: argv_va as usize,
                                    argc: aptrs.len() as usize,
                                },
                            ),
                        ),
                    }
                },
            }
        },
    }
}

/// The frames that putting the pointer vectors and the argument count below
/// `sp` leaves, whether all of it went there or not: what was stored before
/// the first store that failed stays stored, and of that one what its pages
/// took.
pub open spec fn vectors_left(pt: Tables, fr: Frames, sp: int, eptrs: Seq<usize>, aptrs: Seq<usize>) -> Frames {
    let s3 = sp - sp % 16;
    let envp_va = s3 - 8 * (eptrs.len() + 1);
    match user_store(pt, fr, envp_va, words_le(eptrs.push(0))) {
        None => user_stored(pt, fr, envp_va, words_le(eptrs.push(0))),
        Some(f3) => {
            let argv_va = envp_va - 8 * (aptrs.len() + 1);
            match user_store(pt, f3, argv_va, words_le(aptrs.push(0))) {
                None => user_stored(pt, f3, argv_va, words_le(aptrs.push(0))),
                Some(f4) => user_stored(pt, f4, argv_va - 8, spec_u64_to_le_bytes(aptrs.len() as u64)),
            }
        },
    }
}

/// The frames that laying out the stack below `top` leaves, whether all of
/// it could be laid out or not.
pub open spec fn layout_left(pt: Tables, fr: Frames, top: int, argv: Seq<Seq<u8>>, envp: Seq<Seq<u8>>) -> Frames {
    if top < 16 {
        fr
    } else {
        match strings_from(pt, fr, top - 16, envp, 0) {
            None => strings_left(pt, fr, top - 16, envp, 0),
            Some((f1, s1, eptrs)) => match strings_from(pt, f1, s1, argv, 0) {
                None => strings_left(pt, f1, s1, argv, 0),
                Some((f2, s2, aptrs)) => vectors_left(pt, f2, s2, eptrs, aptrs),
            },
        }
    }
}

/// The frames and the addresses after the stack was laid out below `top`:
/// a guard of 16 bytes, the environment strings, the argument strings, then
/// the pointer vectors and the argument count.
pub open spec fn stack_layout(pt: Tables, fr: Frames, top: int, argv: Seq<Seq<u8>>, envp: Seq<Seq<u8>>) -> Option<
    (Frames, StackInfo),
> {
    match stack_strings(pt, fr, top, argv, envp) {
        None => None,
        Some((f2, s2, eptrs, aptrs)) => stack_vectors(pt, f2, s2, eptrs, aptrs),
    }
}

/// Number of pages of a stack of the given size.
pub open spec fn stack_pages(bytes: int) -> int {
    (bytes + 4095) / 4096
}

/// Address of the lowest stack page.
pub open spec fn stack_base(top: int, bytes: int) -> int {
    let low = top - stack_pages(bytes) * 4096;
    low - low % 4096
}

/// The space after the stack pages from the `i`-th on were mapped, each
/// readable and writable by the program.
pub open spec fn map_stack_from(sp: Space, base: int, pages: int, i: int) -> Result<Space, MapError>
    decreases pages - i,
{
    if i < 0 || i >= pages {
        Ok(sp)
    } else {
        match sp.map_user_page((base + i * 4096) as usize, STACK_FLAGS) {
            Err(e) => Err(e),
            Ok(s1) => map_stack_from(s1, base, pages, i + 1),
        }
    }
}

/// The space that mapping the stack pages from the `i`-th on leaves, whether
/// all of them could be mapped or not: the pages before the first that could
/// not be stay mapped.
pub open spec fn map_stack_left(sp: Space, base: int, pages: int, i: int) -> Space
    decreases pages - i,
{
    if i < 0 || i >= pages {
        sp
    } else {
        match sp.map_user_page((base + i * 4096) as usize, STACK_FLAGS) {
            Err(e) => sp,
            Ok(s1) => map_stack_left(s1, base, pages, i + 1),
        }
    }
}

/// The space that setting up the stack leaves, whether it succeeded or not:
/// untouched where the strings are too many or the stack would reach below
/// address 0; else with the pages that could be mapped and, where all could
/// be, what of the layout could be stored.
pub open spec fn stack_left(sp: Space, top: int, bytes: int, argv: Seq<Seq<u8>>, envp: Seq<Seq<u8>>) -> Space {
    if argv.len() + envp.len() > MAX_POINTERS || bytes + 4095 > usize::MAX || top < stack_pages(bytes)
        * 4096 {
        sp
    } else {
        match map_stack_from(sp, stack_base(top, bytes), stack_pages(bytes), 0) {
            Err(e) => map_stack_left(sp, stack_base(top, bytes), stack_pages(bytes), 0),
            Ok(s1) => s1.with_frames(layout_left(s1.pt, s1.fr, top, argv, envp)),
        }
    }
}

/// The space and the addresses after the stack was mapped and laid out.
/// With more strings than `MAX_POINTERS`, arguments and environment
/// together, or a stack that would reach below address 0, nothing is mapped.
pub open spec fn stack_outcome(sp: Space, top: int, bytes: int, argv: Seq<Seq<u8>>, envp: Seq<Seq<u8>>) -> Result<
    (Space, StackInfo),
    ElfLoadError,
> {
    if argv.len() + envp.len() > MAX_POINTERS {
        Err(ElfLoadError::SegmentOverflow)
    } else if bytes + 4095 > usize::MAX || top < stack_pages(bytes) * 4096 {
        Err(ElfLoadError::SegmentOverflow)
    } else {
        match map_stack_from(sp, stack_base(top, bytes), stack_pages(bytes), 0) {
            Err(e) => Err(ElfLoadError::OutOfMemory),
            Ok(s1) => match stack_layout(s1.pt, s1.fr, top, argv, envp) {
                None => Err(ElfLoadError::SegmentOverflow),
                Some((fr, info)) => Ok((s1.with_frames(fr), info)),
            },
        }
    }
}

/// A pointer vector of `heapless`: at most 32 addresses.
#[verifier::external_type_specification]
#[verifier::external_body]
#[verifier::reject_recursive_types(T)]
pub struct ExHeaplessVec<T, const N: usize>(heapless::Vec<T, N>);

/// What a pointer vector holds, in order.
pub uninterp spec fn ptrs_held(v: heapless::Vec<usize, 32>) -> Seq<usize>;

/// `heapless::Vec::new`: an empty vector.
#[verifier::external_body]
fn ptrs_new() -> (v: heapless::Vec<usize, 32>)
    ensures
        ptrs_held(v) == Seq::<usize>::empty(),
{
    heapless::Vec::new()
}

/// `heapless::Vec::push`: appends where the vector holds fewer than its 32
/// elements, and reports so; a full vector stays as it is.
#[verifier::external_body]
fn ptrs_push(v: &mut heapless::Vec<usize, 32>, p: usize) -> (ok: bool)
    ensures
        ok == (ptrs_held(*old(v)).len() < 32),
        ok ==> ptrs_held(*final(v)) == ptrs_held(*old(v)).push(p),
        !ok ==> ptrs_held(*final(v)) == ptrs_held(*old(v)),
{
    v.push(p).is_ok()
}

/// `heapless::Vec::as_slice`: the elements, in order.
#[verifier::external_body]
fn ptrs_slice(v: &heapless::Vec<usize, 32>) -> (s: &[usize])
    ensures
        s@ == ptrs_held(*v),
{
    v.as_slice()
}

/// Puts strings on the stack, each below the one before, and records their
/// addresses.
fn push_strings(space: &mut AddressSpace, sp: usize, strs: &[&str], ptrs: &mut heapless::Vec<usize, 32>) -> (r: Option<
    usize,
>)
    requires
        old(space).wf(),
        ptrs_held(*old(ptrs)).len() == 0,
        strs@.len() <= MAX_POINTERS,
    ensures
        final(space).wf(),
        final(space).pt@ == old(space).pt@,
        final(space).frames@.base == old(space).frames@.base,
        final(space).frames@.next == old(space).frames@.next,
        match strings_from(old(space).pt@, old(space).frames@, sp as int, bytes_of(strs@), 0) {
            Some((f, s, held)) => r is Some && r.unwrap() == s && final(space).frames@ == f && ptrs_held(
                *final(ptrs),
            ) == held,
            None => r is None,
        },
        final(space).frames@ == strings_left(old(space).pt@, old(space).frames@, sp as int, bytes_of(strs@), 0),
{
    reveal(strings_from);
    let n = strs.len();
    let ghost pt = space.pt@;
    let ghost all = bytes_of(strs@);
    let ghost goal = strings_from(pt, space.frames@, sp as int, all, 0);
    let ghost left = strings_left(pt, space.frames@, sp as int, all, 0);
    let mut cur = sp;
    let mut k: usize = 0;
    proof {
        match goal {
            Some((f, s, rest)) => {
                assert(ptrs_held(*ptrs) + rest =~= rest);
            },
            None => {},
        }
    }
    while k < n
        invariant
            k <= n,
            n == strs@.len(),
            all == bytes_of(strs@),
            space.wf(),
            space.pt@ == pt,
            pt == old(space).pt@,
            space.frames@.base == old(space).frames@.base,
            space.frames@.next == old(space).frames@.next,
            goal == strings_from(old(space).pt@, old(space).frames@, sp as int, all, 0),
            left == strings_left(old(space).pt@, old(space).frames@, sp as int, all, 0),
            strings_left(pt, space.frames@, cur as int, all, k as int) == left,
            ptrs_held(*ptrs).len() == k,
            n <= MAX_POINTERS,
            match strings_from(pt, space.frames@, cur as int, all, k as int) {
                Some((f, s, rest)) => goal == Some((f, s, ptrs_held(*ptrs) + rest)),
                None => goal is None,
            },
        decreases n - k,
    {
        reveal(strings_from);
        let b = strs[k].as_bytes();
        let len = b.len();
        if len >= cur {
            proof {
                assert(all[k as int] == b@);
                crate::mem::lemma_user_store_edge(pt, space.frames@, cur - len - 1, b@ + seq![0u8]);
                crate::mem::lemma_user_store_whole(pt, space.frames@, cur - len - 1, b@ + seq![0u8]);
            }
            return None;
        }
        let at = cur - len - 1;
        let mut text = slice_to_vec(b);
        text.push(0);
        proof {
            assert(all[k as int] == b@);
            assert(text@ =~= all[k as int] + seq![0u8]);
        }
        if !space.write_user_bytes(at, text.as_slice()) {
            return None;
        }
        let ghost held = ptrs_held(*ptrs);
        if !ptrs_push(ptrs, at) {
            return None;
        }
        proof {
            match strings_from(pt, space.frames@, at as int, all, k + 1) {
                Some((f, s, rest)) => {
                    assert(held + (seq![at] + rest) =~= held.push(at) + rest);
                },
                None => {},
            }
        }
        cur = at;
        k += 1;
    }
    proof {
        assert(ptrs_held(*ptrs) + Seq::<usize>::empty() =~= ptrs_held(*ptrs));
    }
    Some(cur)
}

/// Stores a pointer vector and its closing null word below `sp`.
fn push_vector(space: &mut AddressSpace, sp: usize, ptrs: &[usize]) -> (r: Option<usize>)
    requires
        old(space).wf(),
        ptrs@.len() <= 32,
    ensures
        final(space).wf(),
        final(space).pt@ == old(space).pt@,
        final(space).frames@.base == old(space).frames@.base,
        final(space).frames@.next == old(space).frames@.next,
        match user_store(
            old(space).pt@,
            old(space).frames@,
            sp - 8 * (ptrs@.len() + 1),
            words_le(ptrs@.push(0)),
        ) {
            Some(f) => r is Some && r.unwrap() == sp - 8 * (ptrs@.len() + 1) && final(space).frames@ == f,
            None => r is None,
        },
        final(space).frames@ == user_stored(
            old(space).pt@,
            old(space).frames@,
            sp - 8 * (ptrs@.len() + 1),
            words_le(ptrs@.push(0)),
        ),
{
    let n = ptrs.len();
    let size = 8 * (n + 1);
    let mut block: Vec<u8> = Vec::new();
    let mut i: usize = 0;
    while i < n
        invariant
            i <= n,
            n == ptrs@.len(),
            block@ == words_le(ptrs@.take(i as int)),
        decreases n - i,
    {
        let mut word = u64_to_le_bytes(ptrs[i] as u64);
        proof {
            assert(ptrs@.take(i + 1).drop_last() =~= ptrs@.take(i as int));
        }
        block.append(&mut word);
        i += 1;
    }
    let mut null = u64_to_le_bytes(0);
    proof {
        assert(ptrs@.take(n as int) =~= ptrs@);
        assert(ptrs@.push(0).drop_last() =~= ptrs@);
    }
    block.append(&mut null);
    if size > sp {
        proof {
            lemma_words_len(ptrs@.push(0));
            crate::mem::lemma_user_store_edge(
                space.pt@,
                space.frames@,
                sp - 8 * (ptrs@.len() + 1),
                words_le(ptrs@.push(0)),
            );
            crate::mem::lemma_user_store_whole(
                space.pt@,
                space.frames@,
                sp - 8 * (ptrs@.len() + 1),
                words_le(ptrs@.push(0)),
            );
        }
        return None;
    }
    let at = sp - size;
    if space.write_user_bytes(at, block.as_slice()) {
        Some(at)
    } else {
        None
    }
}

/// A run of words takes 8 bytes for each.
pub proof fn lemma_words_len(ws: Seq<usize>)
    ensures
        words_le(ws).len() == 8 * ws.len(),
    decreases ws.len(),
{
    if ws.len() > 0 {
        lemma_words_len(ws.drop_last());
        vstd::bytes::spec_u64_to_le_bytes_to_open(ws.last() as u64);
    }
}

/// Maps `pages` pages from `base` on, each in a fresh frame that the program
/// may read and write: the pages of a stack, or of a grown heap.
pub fn map_stack(space: &mut AddressSpace, base: usize, pages: usize) -> (r: Result<(), MapError>)
    requires
        old(space).wf(),
        old(space).pt@.root != 0,
        base + pages * 4096 <= usize::MAX,
    ensures
        final(space).wf(),
        final(space).pt@.root == old(space).pt@.root,
        match r {
            Ok(()) => map_stack_from(old(space)@, base as int, pages as int, 0) == Ok::<Space, MapError>(
                final(space)@,
            ),
            Err(e) => map_stack_from(old(space)@, base as int, pages as int, 0) == Err::<Space, MapError>(
                e,
            ),
        },
        final(space)@ == map_stack_left(old(space)@, base as int, pages as int, 0),
{
    let mut i: usize = 0;
    while i < pages
        invariant
            i <= pages,
            base + pages * 4096 <= usize::MAX,
            space.wf(),
            space.pt@.root == old(space).pt@.root,
            space.pt@.root != 0,
            map_stack_from(space@, base as int, pages as int, i as int) == map_stack_from(
                old(space)@,
                base as int,
                pages as int,
                0,
            ),
            map_stack_left(space@, base as int, pages as int, i as int) == map_stack_left(
                old(space)@,
                base as int,
                pages as int,
                0,
            ),
        decreases pages - i,
    {
        assert(i * 4096 < pages * 4096) by (nonlinear_arith)
            requires
                i < pages,
        ;
        let va = base + i * 4096;
        proof {
            crate::mem::lemma_map_user_page(space@, va, STACK_FLAGS);
        }
        match space.map_user_page(va, STACK_FLAGS) {
            Ok(_) => {},
            Err(e) => {
                return Err(e);
            },
        }
        i += 1;
    }
    Ok(())
}

/// Every string that `strings_from` records has an address.
proof fn lemma_strings_count(pt: Tables, fr: Frames, sp: int, strs: Seq<Seq<u8>>, k: int)
    requires
        0 <= k <= strs.len(),
    ensures
        strings_from(pt, fr, sp, strs, k) is Some ==> strings_from(pt, fr, sp, strs, k).unwrap().2.len()
            == strs.len() - k,
    decreases strs.len() - k,
{
    reveal(strings_from);
    if k < strs.len() {
        let at = sp - strs[k].len() - 1;
        match user_store(pt, fr, at, strs[k] + seq![0u8]) {
            None => {},
            Some(f2) => {
                lemma_strings_count(pt, f2, at, strs, k + 1);
            },
        }
    }
}

/// Puts the pointer vectors and the argument count on the stack.
fn push_vectors(space: &mut AddressSpace, sp: usize, eptrs: &[usize], aptrs: &[usize]) -> (r: Option<
    (usize, usize, usize, usize),
>)
    requires
        old(space).wf(),
        eptrs@.len() <= 32,
        aptrs@.len() <= 32,
    ensures
        final(space).wf(),
        final(space).pt@ == old(space).pt@,
        final(space).frames@.base == old(space).frames@.base,
        final(space).frames@.next == old(space).frames@.next,
        match stack_vectors(old(space).pt@, old(space).frames@, sp as int, eptrs@, aptrs@) {
            Some((f, info)) => final(space).frames@ == f && r == Some(
                (info.user_sp, info.envp_va, info.argv_va, info.argc),
            ),
            None => r is None,
        },
        final(space).frames@ == vectors_left(old(space).pt@, old(space).frames@, sp as int, eptrs@, aptrs@),
{
    let s3 = sp - sp % 16;
    let ghost pt = space.pt@;
    let ghost fr0 = space.frames@;
    let envp_va = match push_vector(space, s3, eptrs) {
        Some(s) => s,
        None => {
            assert(user_store(pt, fr0, s3 - 8 * (eptrs@.len() + 1), words_le(eptrs@.push(0))) is None);
            assert(stack_vectors(pt, fr0, sp as int, eptrs@, aptrs@) is None);
            return None;
        },
    };
    let ghost fr1 = space.frames@;
    assert(user_store(pt, fr0, s3 - 8 * (eptrs@.len() + 1), words_le(eptrs@.push(0))) == Some(fr1));
    let argv_va = match push_vector(space, envp_va, aptrs) {
        Some(s) => s,
        None => {
            assert(user_store(pt, fr1, envp_va - 8 * (aptrs@.len() + 1), words_le(aptrs@.push(0))) is None);
            assert(stack_vectors(pt, fr0, sp as int, eptrs@, aptrs@) is None);
            return None;
        },
    };
    let ghost fr2 = space.frames@;
    assert(user_store(pt, fr1, envp_va - 8 * (aptrs@.len() + 1), words_le(aptrs@.push(0))) == Some(fr2));
    let argc = aptrs.len();
    if argv_va < 8 {
        proof {
            vstd::bytes::spec_u64_to_le_bytes_to_open(argc as u64);
            crate::mem::lemma_user_store_edge(pt, fr2, argv_va - 8, spec_u64_to_le_bytes(argc as u64));
            crate::mem::lemma_user_store_whole(pt, fr2, argv_va - 8, spec_u64_to_le_bytes(argc as u64));
            assert(stack_vectors(pt, fr0, sp as int, eptrs@, aptrs@) is None);
        }
        return None;
    }
    let argc_at = argv_va - 8;
    let word = u64_to_le_bytes(argc as u64);
    if !space.write_user_bytes(argc_at, word.as_slice()) {
        assert(user_store(pt, fr2, argc_at as int, spec_u64_to_le_bytes(argc as u64)) is None);
        assert(stack_vectors(pt, fr0, sp as int, eptrs@, aptrs@) is None);
        return None;
    }
    let ghost fr3 = space.frames@;
    assert(user_store(pt, fr2, argc_at as int, spec_u64_to_le_bytes(argc as u64)) == Some(fr3));
    assert(stack_vectors(pt, fr0, sp as int, eptrs@, aptrs@) == Some(
        (
            fr3,
            StackInfo {
                user_sp: (argc_at - argc_at % 16) as usize,
                envp_va: envp_va,
                argv_va: argv_va,
                argc: argc,
            },
        ),
    ));
    Some((argc_at - argc_at % 16, envp_va, argv_va, argc))
}

/// Lays out the stack below `top`.
fn layout_stack(space: &mut AddressSpace, top: usize, argv: &[&str], envp: &[&str]) -> (r: Option<
    (usize, usize, usize, usize),
>)
    requires
        old(space).wf(),
        argv@.len() + envp@.len() <= MAX_POINTERS,
    ensures
        final(space).wf(),
        final(space).pt@ == old(space).pt@,
        final(space).frames@.base == old(space).frames@.base,
        final(space).frames@.next == old(space).frames@.next,
        match stack_layout(old(space).pt@, old(space).frames@, top as int, bytes_of(argv@), bytes_of(envp@)) {
            Some((f, info)) => final(space).frames@ == f && r == Some(
                (info.user_sp, info.envp_va, info.argv_va, info.argc),
            ),
            None => r is None,
        },
        final(space).frames@ == layout_left(
            old(space).pt@,
            old(space).frames@,
            top as int,
            bytes_of(argv@),
            bytes_of(envp@),
        ),
{
    if top < 16 {
        return None;
    }
    let mut env_ptrs = ptrs_new();
    proof {
        lemma_strings_count(space.pt@, space.frames@, top - 16, bytes_of(envp@), 0);
    }
    let ghost pt = space.pt@;
    let ghost fr0 = space.frames@;
    let s1 = match push_strings(space, top - 16, envp, &mut env_ptrs) {
        Some(s) => s,
        None => {
            return None;
        },
    };
    let ghost fr1 = space.frames@;
    assert(strings_from(pt, fr0, top - 16, bytes_of(envp@), 0) == Some((fr1, s1 as int, ptrs_held(env_ptrs))));
    let mut arg_ptrs = ptrs_new();
    proof {
        lemma_strings_count(space.pt@, space.frames@, s1 as int, bytes_of(argv@), 0);
    }
    let s2 = match push_strings(space, s1, argv, &mut arg_ptrs) {
        Some(s) => s,
        None => {
            assert(strings_from(pt, fr1, s1 as int, bytes_of(argv@), 0) is None);
            assert(stack_strings(pt, fr0, top as int, bytes_of(argv@), bytes_of(envp@)) is None);
            return None;
        },
    };
    let ghost fr2 = space.frames@;
    assert(strings_from(pt, fr1, s1 as int, bytes_of(argv@), 0) == Some((fr2, s2 as int, ptrs_held(arg_ptrs))));
    assert(stack_strings(pt, fr0, top as int, bytes_of(argv@), bytes_of(envp@)) == Some(
        (fr2, s2 as int, ptrs_held(env_ptrs), ptrs_held(arg_ptrs)),
    ));
    assert(bytes_of(argv@).len() == ptrs_held(arg_ptrs).len());
    push_vectors(space, s2, ptrs_slice(&env_ptrs), ptrs_slice(&arg_ptrs))
}

/// Maps the user stack below `user_stack_top_va` and lays out on it the
/// environment, the arguments, their pointer vectors and the argument
/// count. Returns stack pointer, environment vector, argument vector and
/// argument count.
pub fn setup_user_stack(
    space: &mut AddressSpace,
    user_stack_top_va: usize,
    user_stack_bytes: usize,
    argv: &[&str],
    envp: &[&str],
) -> (r: Result<(usize, usize, usize, usize), ElfLoadError>)
    requires
        old(space).wf(),
        old(space).pt@.root != 0,
    ensures
        final(space).wf(),
        final(space).pt@.root == old(space).pt@.root,
        match stack_outcome(
            old(space)@,
            user_stack_top_va as int,
            user_stack_bytes as int,
            bytes_of(argv@),
            bytes_of(envp@),
        ) {
            Ok((s, info)) => final(space)@ == s && r == Ok::<(usize, usize, usize, usize), ElfLoadError>(
                (info.user_sp, info.envp_va, info.argv_va, info.argc),
            ),
            Err(e) => r == Err::<(usize, usize, usize, usize), ElfLoadError>(e),
        },
        final(space)@ == stack_left(
            old(space)@,
            user_stack_top_va as int,
            user_stack_bytes as int,
            bytes_of(argv@),
            bytes_of(envp@),
        ),
{
    if argv.len() > MAX_POINTERS || envp.len() > MAX_POINTERS - argv.len() {
        return Err(ElfLoadError::SegmentOverflow);
    }
    if user_stack_bytes > usize::MAX - 4095 {
        return Err(ElfLoadError::SegmentOverflow);
    }
    let pages = (user_stack_bytes + 4095) / 4096;
    if user_stack_top_va / 4096 < pages {
        return Err(ElfLoadError::SegmentOverflow);
    }
    let low = user_stack_top_va - pages * 4096;
    let base = low - low % 4096;
    match map_stack(space, base, pages) {
        Ok(()) => {},
        Err(e) => {
            return Err(ElfLoadError::OutOfMemory);
        },
    }
    match layout_stack(space, user_stack_top_va, argv, envp) {
        Some(info) => Ok(info),
        None => Err(ElfLoadError::SegmentOverflow),
    }
}

/// What loading a parsed image gives: the first failing header check, else
/// `SatpNotSet` without a root table, else the error of the first segment
/// that cannot be loaded, else that of the stack; or the space with all of
/// it loaded, and the program's entry, stack and break.
pub open spec fn load_parsed_outcome(
    e: ElfView,
    image: Seq<u8>,
    sp: Space,
    top: int,
    bytes: int,
    argv: Seq<Seq<u8>>,
    envp: Seq<Seq<u8>>,
) -> Result<(Space, Loaded), ElfLoadError> {
    match header_error(e) {
        Some(err) => Err(err),
        None => if sp.pt.root == 0 {
            Err(ElfLoadError::SatpNotSet)
        } else {
            match load_segments_from(sp, e.segments, image, 0, 0) {
                Err(err) => Err(err),
                Ok((s1, brk)) => match stack_outcome(s1, top, bytes, argv, envp) {
                    Err(err) => Err(err),
                    Ok((s2, info)) => Ok(
                        (
                            s2,
                            Loaded {
                                entry_va: e.entry as usize,
                                user_sp: info.user_sp,
                                argc: info.argc,
                                argv_va: info.argv_va,
                                envp_va: info.envp_va,
                                brk: brk as usize,
                            },
                        ),
                    ),
                },
            }
        },
    }
}

/// The first check that the bytes of an image's file header fail: the magic
/// number in the first four, then the 64-bit class and the little-endian
/// byte order in the two that follow, then the machine, a little-endian
/// half word at offset 18.
pub open spec fn header_bytes_error(image: Seq<u8>) -> Option<ElfLoadError> {
    if !(image[0] == 0x7f && image[1] == 0x45 && image[2] == 0x4c && image[3] == 0x46) {
        Some(ElfLoadError::BadMagic)
    } else if image[4] != ELFCLASS64 || image[5] != ELFDATA2LSB {
        Some(ElfLoadError::Not64LE)
    } else if image[18] + 256 * image[19] != EM_RISCV {
        Some(ElfLoadError::NotRiscv)
    } else {
        None
    }
}

/// Checks the bytes of an image's file header.
fn check_header_bytes(image: &[u8]) -> (r: Option<ElfLoadError>)
    requires
        image@.len() >= EHDR_SIZE,
    ensures
        r == header_bytes_error(image@),
{
    if !(image[0] == 0x7f && image[1] == 0x45 && image[2] == 0x4c && image[3] == 0x46) {
        Some(ElfLoadError::BadMagic)
    } else if image[4] != ELFCLASS64 || image[5] != ELFDATA2LSB {
        Some(ElfLoadError::Not64LE)
    } else if image[18] != 243 || image[19] != 0 {
        Some(ElfLoadError::NotRiscv)
    } else {
        None
    }
}

/// What loading an image gives, given what the parser made of it: `Short`
/// for an image shorter than the file header, else the first failing check
/// of the header's bytes, `BadMagic` for one that does not parse, else what
/// loading the parsed image gives.
pub open spec fn load_outcome(
    parsed: Option<ElfView>,
    image: Seq<u8>,
    sp: Space,
    top: int,
    bytes: int,
    argv: Seq<Seq<u8>>,
    envp: Seq<Seq<u8>>,
) -> Result<(Space, Loaded), ElfLoadError> {
    if image.len() < EHDR_SIZE {
        Err(ElfLoadError::Short)
    } else {
        match header_bytes_error(image) {
            Some(err) => Err(err),
            None => match parsed {
                None => Err(ElfLoadError::BadMagic),
                Some(e) => load_parsed_outcome(e, image, sp, top, bytes, argv, envp),
            },
        }
    }
}

/// The space that loading a parsed image leaves, whether it succeeded or
/// not: untouched where a header check fails or there is no root table; else
/// with what of the segments could be loaded and, where all could be, what
/// of the stack could be set up.
pub open spec fn load_parsed_left(
    e: ElfView,
    image: Seq<u8>,
    sp: Space,
    top: int,
    bytes: int,
    argv: Seq<Seq<u8>>,
    envp: Seq<Seq<u8>>,
) -> Space {
    if header_error(e) is Some || sp.pt.root == 0 {
        sp
    } else {
        match load_segments_from(sp, e.segments, image, 0, 0) {
            Err(err) => segments_left(sp, e.segments, image, 0),
            Ok((s1, brk)) => stack_left(s1, top, bytes, argv, envp),
        }
    }
}

/// The space that loading an image leaves, whether it succeeded or not:
/// untouched where the image is too short, fails a check of its header's
/// bytes or does not parse; else what loading the parsed image leaves.
pub open spec fn load_left(
    parsed: Option<ElfView>,
    image: Seq<u8>,
    sp: Space,
    top: int,
    bytes: int,
    argv: Seq<Seq<u8>>,
    envp: Seq<Seq<u8>>,
) -> Space {
    if image.len() < EHDR_SIZE || header_bytes_error(image) is Some {
        sp
    } else {
        match parsed {
            None => sp,
            Some(e) => load_parsed_left(e, image, sp, top, bytes, argv, envp),
        }
    }
}

/// Checks the header of a parsed image.
fn check_header(elf: &ElfImage) -> (r: Option<ElfLoadError>)
    ensures
        r == header_error(elf@),
{
    if !(elf.ident[0] == 0x7f && elf.ident[1] == 0x45 && elf.ident[2] == 0x4c && elf.ident[3] == 0x46) {
        Some(ElfLoadError::BadMagic)
    } else if elf.ident[4] != ELFCLASS64 || elf.ident[5] != ELFDATA2LSB {
        Some(ElfLoadError::Not64LE)
    } else if elf.machine != EM_RISCV {
        Some(ElfLoadError::NotRiscv)
    } else {
        None
    }
}

/// Loads a parsed image into the address space: its loadable segments page
/// by page, each page in a fresh frame, then the user stack. After a
/// failure the space holds what was loaded up to it, and is untouched where
/// a header check failed or there is no root table.
pub fn load_parsed(
    space: &mut AddressSpace,
    elf: &ElfImage,
    image: &[u8],
    user_stack_top_va: usize,
    user_stack_bytes: usize,
    argv: &[&str],
    envp: &[&str],
) -> (r: Result<Loaded, ElfLoadError>)
    requires
        old(space).wf(),
    ensures
        final(space).wf(),
        final(space).pt@.root == old(space).pt@.root,
        match load_parsed_outcome(
            elf@,
            image@,
            old(space)@,
            user_stack_top_va as int,
            user_stack_bytes as int,
            bytes_of(argv@),
            bytes_of(envp@),
        ) {
            Ok((s, l)) => final(space)@ == s && r == Ok::<Loaded, ElfLoadError>(l),
            Err(e) => r == Err::<Loaded, ElfLoadError>(e),
        },
        final(space)@ == load_parsed_left(
            elf@,
            image@,
            old(space)@,
            user_stack_top_va as int,
            user_stack_bytes as int,
            bytes_of(argv@),
            bytes_of(envp@),
        ),
{
    match check_header(elf) {
        Some(e) => {
            return Err(e);
        },
        None => {},
    }
    if space.pt.root_pt() == 0 {
        return Err(ElfLoadError::SatpNotSet);
    }
    let brk = match load_segments(space, &elf.segments, image) {
        Ok(brk) => brk,
        Err(e) => {
            return Err(e);
        },
    };
    let (user_sp, envp_va, argv_va, argc) = match setup_user_stack(
        space,
        user_stack_top_va,
        user_stack_bytes,
        argv,
        envp,
    ) {
        Ok(t) => t,
        Err(e) => {
            return Err(e);
        },
    };
    Ok(Loaded { entry_va: #[verifier::truncate] (elf.entry as usize), user_sp, argc, argv_va, envp_va, brk })
}

/// Loads an image into the address space: parses it, checks its header,
/// maps and fills its loadable segments and builds the user stack. An image
/// that is too short, fails a header check or does not parse leaves the
/// space untouched, and so does a missing root table; after a later failure
/// the space holds what was loaded up to it.
pub fn load_user_elf(
    space: &mut AddressSpace,
    image: &[u8],
    user_stack_top_va: usize,
    user_stack_bytes: usize,
    argv: &[&str],
    envp: &[&str],
) -> (r: Result<Loaded, ElfLoadError>)
    requires
        old(space).wf(),
    ensures
        final(space).wf(),
        final(space).pt@.root == old(space).pt@.root,
        match load_outcome(
            goblin_parse(image@),
            image@,
            old(space)@,
            user_stack_top_va as int,
            user_stack_bytes as int,
            bytes_of(argv@),
            bytes_of(envp@),
        ) {
            Ok((s, l)) => final(space)@ == s && r == Ok::<Loaded, ElfLoadError>(l),
            Err(e) => r == Err::<Loaded, ElfLoadError>(e),
        },
        final(space)@ == load_left(
            goblin_parse(image@),
            image@,
            old(space)@,
            user_stack_top_va as int,
            user_stack_bytes as int,
            bytes_of(argv@),
            bytes_of(envp@),
        ),
{
    if image.len() < EHDR_SIZE {
        return Err(ElfLoadError::Short);
    }
    match check_header_bytes(image) {
        Some(e) => {
            return Err(e);
        },
        None => {},
    }
    match parse_elf(image) {
        None => Err(ElfLoadError::BadMagic),
        Some(elf) => load_parsed(space, &elf, image, user_stack_top_va, user_stack_bytes, argv, envp),
    }
}

/// Segments fail to load only for bytes outside the image or memory outside
/// the address space, or for want of a frame or a page for a table.
pub proof fn lemma_segment_errors(sp: Space, segs: Seq<Segment>, image: Seq<u8>, k: int, brk: int)
    ensures
        load_segments_from(sp, segs, image, k, brk) matches Err(e) ==> e == ElfLoadError::PhOutOfBounds || e
            == ElfLoadError::OutOfMemory,
    decreases segs.len() - k,
{
    if 0 <= k < segs.len() {
        lemma_segment_errors(sp, segs, image, k + 1, brk);
        if segs[k].p_type == PT_LOAD && seg_in_image(segs[k], image.len() as int) && segs[k].p_memsz != 0
            && seg_addressable(segs[k]) {
            match load_segment_from(sp, segs[k], image, 0) {
                Err(e) => {},
                Ok(s1) => {
                    lemma_segment_errors(s1, segs, image, k + 1, max_int(brk, segs[k].p_vaddr + segs[k].p_memsz));
                },
            }
        }
    }
}

/// An image that is refused for its length, for its header or because it
/// does not parse, or for want of a root table, leaves the space as it was:
/// nothing is mapped, no frame is taken and no byte is written.
pub proof fn lemma_refused_untouched(
    parsed: Option<ElfView>,
    image: Seq<u8>,
    sp: Space,
    top: int,
    bytes: int,
    argv: Seq<Seq<u8>>,
    envp: Seq<Seq<u8>>,
)
    requires
        load_outcome(parsed, image, sp, top, bytes, argv, envp) matches Err(e) && (e == ElfLoadError::Short
            || e == ElfLoadError::BadMagic || e == ElfLoadError::Not64LE || e == ElfLoadError::NotRiscv || e
            == ElfLoadError::SatpNotSet),
    ensures
        load_left(parsed, image, sp, top, bytes, argv, envp) == sp,
{
    if image.len() >= EHDR_SIZE && header_bytes_error(image) is None && parsed is Some {
        let e = parsed.unwrap();
        if header_error(e) is None && sp.pt.root != 0 {
            lemma_segment_errors(sp, e.segments, image, 0, 0);
        }
    }
}

/// An image without loadable segments loads nothing: the space stays as it
/// is and the break is 0.
pub proof fn lemma_no_loadable_segments(sp: Space, segs: Seq<Segment>, image: Seq<u8>, k: int, brk: int)
    requires
        forall|i: int| 0 <= i < segs.len() ==> (#[trigger] segs[i]).p_type != PT_LOAD,
    ensures
        load_segments_from(sp, segs, image, k, brk) == Ok::<(Space, int), ElfLoadError>((sp, brk)),
    decreases segs.len() - k,
{
    if 0 <= k < segs.len() {
        lemma_no_loadable_segments(sp, segs, image, k + 1, brk);
    }
}

/// A parsed image with a sound header and no loadable segments loads exactly
/// when its stack can be set up; the program then starts at the header's
/// entry with break 0.
pub proof fn lemma_load_without_segments(
    e: ElfView,
    image: Seq<u8>,
    sp: Space,
    top: int,
    bytes: int,
    argv: Seq<Seq<u8>>,
    envp: Seq<Seq<u8>>,
)
    requires
        header_error(e) is None,
        sp.pt.root != 0,
        forall|i: int| 0 <= i < e.segments.len() ==> (#[trigger] e.segments[i]).p_type != PT_LOAD,
    ensures
        load_parsed_outcome(e, image, sp, top, bytes, argv, envp) is Ok == stack_outcome(
            sp,
            top,
            bytes,
            argv,
            envp,
        ) is Ok,
        load_parsed_outcome(e, image, sp, top, bytes, argv, envp) is Ok ==> {
            let l = load_parsed_outcome(e, image, sp, top, bytes, argv, envp).unwrap().1;
            l.brk == 0 && l.entry_va == e.entry as usize
        },
{
    lemma_no_loadable_segments(sp, e.segments, image, 0, 0);
}

/// With more than 32 strings, arguments and environment together, no stack
/// is set up: the outcome is `SegmentOverflow`, whatever the space, the
/// stack's place and its size.
pub proof fn lemma_vector_overflow(sp: Space, top: int, bytes: int, argv: Seq<Seq<u8>>, envp: Seq<Seq<u8>>)
    requires
        argv.len() + envp.len() > MAX_POINTERS,
    ensures
        stack_outcome(sp, top, bytes, argv, envp) == Err::<(Space, StackInfo), ElfLoadError>(
            ElfLoadError::SegmentOverflow,
        ),
{
}

/// A parsed image with a sound header whose segments load is refused with
/// `SegmentOverflow` when it is given more than 32 strings, arguments and
/// environment together.
pub proof fn lemma_load_overflow(
    e: ElfView,
    image: Seq<u8>,
    sp: Space,
    top: int,
    bytes: int,
    argv: Seq<Seq<u8>>,
    envp: Seq<Seq<u8>>,
)
    requires
        header_error(e) is None,
        sp.pt.root != 0,
        load_segments_from(sp, e.segments, image, 0, 0) is Ok,
        argv.len() + envp.len() > MAX_POINTERS,
    ensures
        load_parsed_outcome(e, image, sp, top, bytes, argv, envp) == Err::<(Space, Loaded), ElfLoadError>(
            ElfLoadError::SegmentOverflow,
        ),
{
}

/// What a loaded page holds: at each byte of the segment that the page
/// covers, the file's byte as far as the file reaches, and zero from there to
/// the end of the segment's memory.
pub proof fn lemma_page_fill(held: Seq<u8>, seg: Segment, image: Seq<u8>, i: int, o: int)
    requires
        0 <= o < 4096,
        0 <= seg_offset(seg, i, o) < seg.p_memsz || 0 <= seg_offset(seg, i, o) < seg.p_filesz,
    ensures
        page_fill(held, seg, image, i)[o] == (if seg_offset(seg, i, o) < seg.p_filesz {
            image[seg.p_offset + seg_offset(seg, i, o)]
        } else {
            0u8
        }),
{
}

/// Loading a page fills the frame that was free next and leaves every byte
/// below it alone.
pub proof fn lemma_load_page_bytes(sp: Space, seg: Segment, image: Seq<u8>, i: int)
    requires
        sp.wf(),
        sp.pt.root != 0,
        load_page(sp, seg, image, i) is Ok,
    ensures
        ({
            let s1 = load_page(sp, seg, image, i).unwrap();
            let at = sp.fr.next - sp.fr.base;
            &&& s1.wf()
            &&& s1.pt.root == sp.pt.root
            &&& s1.fr.base == sp.fr.base
            &&& s1.fr.bytes.len() == sp.fr.bytes.len()
            &&& s1.fr.next == sp.fr.next + 4096
            &&& s1.fr.next <= s1.fr.end()
            &&& forall|k: int| 0 <= k < at ==> #[trigger] s1.fr.bytes[k] == sp.fr.bytes[k]
            &&& forall|o: int|
                0 <= o < 4096 ==> #[trigger] s1.fr.bytes[at + o] == page_fill(
                    sp.fr.read(sp.fr.next as int, 4096),
                    seg,
                    image,
                    i,
                )[o]
        }),
{
    crate::mem::lemma_map_user_page(sp, (seg_va0(seg) + i * 4096) as usize, pf_flags(seg.p_flags));
}

/// Loading the rest of a segment leaves every byte below the frame that was
/// free next alone.
pub proof fn lemma_load_keeps_bytes(sp: Space, seg: Segment, image: Seq<u8>, i: int)
    requires
        sp.wf(),
        sp.pt.root != 0,
        load_segment_from(sp, seg, image, i) is Ok,
    ensures
        ({
            let s = load_segment_from(sp, seg, image, i).unwrap();
            &&& s.wf()
            &&& s.pt.root == sp.pt.root
            &&& s.fr.base == sp.fr.base
            &&& s.fr.bytes.len() == sp.fr.bytes.len()
            &&& s.fr.next >= sp.fr.next
            &&& forall|k: int| 0 <= k < sp.fr.next - sp.fr.base ==> #[trigger] s.fr.bytes[k] == sp.fr.bytes[k]
        }),
    decreases seg_pages(seg) - i,
{
    if 0 <= i < seg_pages(seg) {
        lemma_load_page_bytes(sp, seg, image, i);
        let s1 = load_page(sp, seg, image, i).unwrap();
        lemma_load_keeps_bytes(s1, seg, image, i + 1);
    }
}

/// After the pages of a segment from the `i`-th on were loaded, the frame of
/// its `p`-th page holds, at each byte of the segment, the file's byte as
/// far as the file reaches and zero from there to the end of the segment's
/// memory. The frames follow each other from the one that was free next.
pub proof fn lemma_segment_page(sp: Space, seg: Segment, image: Seq<u8>, i: int, p: int, o: int)
    requires
        sp.wf(),
        sp.pt.root != 0,
        load_segment_from(sp, seg, image, i) is Ok,
        0 <= i <= p < seg_pages(seg),
        0 <= o < 4096,
        0 <= seg_offset(seg, p, o) < seg.p_memsz || 0 <= seg_offset(seg, p, o) < seg.p_filesz,
    ensures
        ({
            let s = load_segment_from(sp, seg, image, i).unwrap();
            let at = sp.fr.next - sp.fr.base + (p - i) * 4096 + o;
            &&& 0 <= at < s.fr.bytes.len()
            &&& s.fr.bytes[at] == (if seg_offset(seg, p, o) < seg.p_filesz {
                image[seg.p_offset + seg_offset(seg, p, o)]
            } else {
                0u8
            })
        }),
    decreases p - i,
{
    lemma_load_page_bytes(sp, seg, image, i);
    let s1 = load_page(sp, seg, image, i).unwrap();
    lemma_load_keeps_bytes(s1, seg, image, i + 1);
    if p == i {
        let at = sp.fr.next - sp.fr.base;
        assert(s1.fr.bytes[at + o] == page_fill(sp.fr.read(sp.fr.next as int, 4096), seg, image, i)[o]);
        lemma_page_fill(sp.fr.read(sp.fr.next as int, 4096), seg, image, i, o);
    } else {
        lemma_segment_page(s1, seg, image, i + 1, p, o);
    }
}

/// After a segment was loaded, its memory holds the file's bytes as far as
/// the file reaches, and zeros from there to the segment's end: the byte at
/// offset `j` of the segment lies `j` bytes behind the segment's start in
/// the frames that were handed out for it, which follow each other.
pub proof fn lemma_segment_memory(sp: Space, seg: Segment, image: Seq<u8>, j: int)
    requires
        sp.wf(),
        sp.pt.root != 0,
        load_segment_from(sp, seg, image, 0) is Ok,
        0 <= j < seg.p_memsz,
    ensures
        ({
            let s = load_segment_from(sp, seg, image, 0).unwrap();
            let at = sp.fr.next - sp.fr.base + seg.p_vaddr % 4096 + j;
            &&& 0 <= at < s.fr.bytes.len()
            &&& s.fr.bytes[at] == (if j < seg.p_filesz {
                image[seg.p_offset + j]
            } else {
                0u8
            })
        }),
{
    let head = seg.p_vaddr as int % 4096;
    let p = (head + j) / 4096;
    let o = (head + j) % 4096;
    assert(seg_offset(seg, p, o) == j);
    assert(p < seg_pages(seg));
    lemma_segment_page(sp, seg, image, 0, p, o);
}

/// Loading the rest of a segment leaves the translation of a page alone
/// that a 4 KiB leaf maps and that is none of the pages still to load.
proof fn lemma_load_keeps_walk(sp: Space, seg: Segment, image: Seq<u8>, i: int, va: usize)
    requires
        sp.wf(),
        sp.pt.root != 0,
        load_segment_from(sp, seg, image, i) is Ok,
        0 <= i,
        seg_addressable(seg),
        seg.p_vaddr + seg.p_memsz + 4095 < 0x80_0000_0000u64,
        va < 0x80_0000_0000u64,
        va as int / 4096 < seg.p_vaddr / 4096 + i || va as int / 4096 >= seg.p_vaddr / 4096 + seg_pages(seg),
        sp.pt.walk(sp.pt.root as int, va) is Some,
        sp.pt.walk(sp.pt.root as int, va).unwrap().level == 0,
    ensures
        load_segment_from(sp, seg, image, i).unwrap().pt.walk(sp.pt.root as int, va) == sp.pt.walk(
            sp.pt.root as int,
            va,
        ),
    decreases seg_pages(seg) - i,
{
    if i < seg_pages(seg) {
        let page = (seg_va0(seg) + i * 4096) as usize;
        let flags = pf_flags(seg.p_flags);
        crate::mem::lemma_map_user_page(sp, page, flags);
        lemma_load_page_bytes(sp, seg, image, i);
        let s1 = load_page(sp, seg, image, i).unwrap();
        lemma_page_geometry(seg, i);
        if crate::sv39::same_region(page, va, 0) {
            crate::sv39::lemma_same_page(page, va);
        }
        crate::sv39::lemma_install_frame(sp.pt, s1.pt, sp.pt.root as int, page, 0, va);
        lemma_load_keeps_walk(s1, seg, image, i + 1, va);
    }
}

/// After a segment with a permission bit was loaded inside the 39-bit
/// space, each of its addresses translates into the frames that were handed
/// out for it: the byte at offset `j` of the segment to the byte `j` behind
/// the segment's start there.
pub proof fn lemma_segment_mapped(sp: Space, seg: Segment, image: Seq<u8>, i: int, j: int)
    requires
        sp.wf(),
        sp.pt.root != 0,
        load_segment_from(sp, seg, image, i) is Ok,
        seg_addressable(seg),
        seg.p_vaddr + seg.p_memsz + 4095 < 0x80_0000_0000u64,
        seg.p_flags & 7 != 0,
        0 <= i,
        0 <= j < seg.p_memsz,
        i <= (seg.p_vaddr % 4096 + j) / 4096,
    ensures
        load_segment_from(sp, seg, image, i).unwrap().pt.translate(
            sp.pt.root as int,
            (seg.p_vaddr + j) as usize,
        ) == Some(sp.fr.next + seg.p_vaddr % 4096 + j - i * 4096),
{
    let s = load_segment_from(sp, seg, image, i).unwrap();
    let p = (seg.p_vaddr % 4096 + j) / 4096;
    let pa = sp.fr.next + (p - i) * 4096;
    assert(i <= p < seg_pages(seg));
    lemma_segment_leaf(sp, seg, image, i, j);
    lemma_segment_frames(sp, seg, image, i);
    lemma_load_keeps_bytes(sp, seg, image, i);
    lemma_pf_leaf(seg.p_flags);
    assert(0 <= pa && pa + 4096 <= s.fr.next) by (nonlinear_arith)
        requires
            pa == sp.fr.next + (p - i) * 4096,
            i <= p < seg_pages(seg),
            s.fr.next == sp.fr.next + (seg_pages(seg) - i) * 4096,
    ;
    crate::sv39::lemma_make_pte_leaf(pa as usize, pf_flags(seg.p_flags));
}

/// The `i`-th page of a segment starts at a page boundary, `i` pages behind
/// the page of the segment's start, and has an address.
proof fn lemma_page_geometry(seg: Segment, i: int)
    requires
        seg_addressable(seg),
        0 <= i < seg_pages(seg),
    ensures
        0 <= seg_va0(seg) + i * 4096 <= usize::MAX - 4095,
        (seg_va0(seg) + i * 4096) % 4096 == 0,
        (seg_va0(seg) + i * 4096) / 4096 == seg.p_vaddr / 4096 + i,
        seg_va0(seg) + i * 4096 + 4096 <= seg.p_vaddr + seg.p_memsz + 4095,
{
    let v = seg.p_vaddr as int;
    assert(seg_va0(seg) == (v / 4096) * 4096);
    assert(((v / 4096) + i) * 4096 == (v / 4096) * 4096 + i * 4096);
}

/// The flags of a segment with a permission bit describe a leaf.
proof fn lemma_pf_leaf(pf: u32)
    requires
        pf & 7 != 0,
    ensures
        crate::sv39::leaf_flags(pf_flags(pf)),
{
    lemma_pf_flags(pf);
    let f = pf_flags(pf);
    assert(pf & 7 != 0 ==> pf & 4 != 0 || pf & 2 != 0 || pf & 1 != 0) by (bit_vector);
    assert(f & 0x51 == 0x51 && (f & 0x02 != 0 || f & 0x04 != 0 || f & 0x08 != 0) ==> f & 0x01 != 0 && f & 0x0e
        != 0) by (bit_vector);
}

/// An address has the indices of its page.
proof fn lemma_in_page(page: usize, va: usize)
    requires
        page % 4096 == 0,
        page <= va < page + 4096,
    ensures
        crate::sv39::same_region(page, va, 0),
{
    let x: u64 = page as u64;
    let y: u64 = va as u64;
    assert(x % 4096 == 0 && x <= y && y - x < 4096 ==> ((x >> 12) & 0x1ff) == ((y >> 12) & 0x1ff) && ((x >> 21)
        & 0x1ff) == ((y >> 21) & 0x1ff) && ((x >> 30) & 0x1ff) == ((y >> 30) & 0x1ff)) by (bit_vector);
}

/// The byte at offset `j` of a segment's memory: the file's byte as far as
/// the file reaches, zero behind it.
pub open spec fn segment_byte(seg: Segment, image: Seq<u8>, j: int) -> u8 {
    if j < seg.p_filesz {
        image[seg.p_offset + j]
    } else {
        0u8
    }
}

/// Whether the page of `va` is mapped by a 4 KiB leaf with these flags to a
/// frame that was handed out, and that frame holds `byte` at the place of
/// `va`.
pub open spec fn byte_mapped(s: Space, va: usize, flags: u64, byte: u8) -> bool {
    match s.pt.walk(s.pt.root as int, va) {
        Some(l) => {
            let pa = pte_addr(l.pte) as int;
            &&& l.level == 0
            &&& pte_flags(l.pte) == flags
            &&& s.fr.base <= pa
            &&& pa + 4096 <= s.fr.next
            &&& s.fr.bytes[pa - s.fr.base + va as int % 4096] == byte
        },
        None => false,
    }
}

/// Whether a segment lies inside the 39-bit space and clear of the page of
/// `va`.
pub open spec fn seg_clear_of(seg: Segment, va: usize) -> bool {
    &&& seg.p_vaddr + seg.p_memsz + 4095 < 0x80_0000_0000u64
    &&& va as int / 4096 < seg.p_vaddr / 4096 || va as int / 4096 >= seg.p_vaddr / 4096 + seg_pages(seg)
}

/// Whether every address from `lo` up to `hi` that a 4 KiB leaf maps lies in
/// a frame at or above `floor`.
pub open spec fn mapped_above(pt: Tables, lo: int, hi: int, floor: int) -> bool {
    forall|a: usize|
        lo <= a < hi ==> match #[trigger] pt.walk(pt.root as int, a) {
            Some(l) => l.level == 0 ==> pte_addr(l.pte) >= floor,
            None => true,
        }
}

/// Loading the pages of a segment from the `i`-th on hands out one frame for
/// each.
proof fn lemma_segment_frames(sp: Space, seg: Segment, image: Seq<u8>, i: int)
    requires
        sp.wf(),
        sp.pt.root != 0,
        0 <= i <= seg_pages(seg),
        load_segment_from(sp, seg, image, i) is Ok,
    ensures
        load_segment_from(sp, seg, image, i).unwrap().fr.next == sp.fr.next + (seg_pages(seg) - i) * 4096,
    decreases seg_pages(seg) - i,
{
    if i < seg_pages(seg) {
        lemma_load_page_bytes(sp, seg, image, i);
        lemma_segment_frames(load_page(sp, seg, image, i).unwrap(), seg, image, i + 1);
    }
}

/// After the pages of a segment from the `i`-th on were loaded, a 4 KiB
/// leaf with the segment's flags maps each of them to its frame.
proof fn lemma_segment_leaf(sp: Space, seg: Segment, image: Seq<u8>, i: int, j: int)
    requires
        sp.wf(),
        sp.pt.root != 0,
        load_segment_from(sp, seg, image, i) is Ok,
        seg_addressable(seg),
        seg.p_vaddr + seg.p_memsz + 4095 < 0x80_0000_0000u64,
        seg.p_flags & 7 != 0,
        0 <= i,
        0 <= j < seg.p_memsz,
        i <= (seg.p_vaddr % 4096 + j) / 4096,
    ensures
        load_segment_from(sp, seg, image, i).unwrap().pt.walk(sp.pt.root as int, (seg.p_vaddr + j) as usize)
            == Some(
            Leaf {
                pte: make_pte(
                    (sp.fr.next + ((seg.p_vaddr % 4096 + j) / 4096 - i) * 4096) as usize,
                    pf_flags(seg.p_flags),
                ),
                level: 0,
            },
        ),
    decreases (seg.p_vaddr % 4096 + j) / 4096 - i,
{
    let head = seg.p_vaddr as int % 4096;
    let p = (head + j) / 4096;
    let va = (seg.p_vaddr + j) as usize;
    let page = (seg_va0(seg) + i * 4096) as usize;
    let flags = pf_flags(seg.p_flags);
    assert(p < seg_pages(seg));
    lemma_page_geometry(seg, i);
    crate::mem::lemma_map_user_page(sp, page, flags);
    lemma_load_page_bytes(sp, seg, image, i);
    let s1 = load_page(sp, seg, image, i).unwrap();
    if p == i {
        lemma_pf_leaf(seg.p_flags);
        assert(crate::sv39::same_region(page, va, 0)) by {
            lemma_in_page(page, va);
        }
        crate::sv39::lemma_make_pte_leaf(sp.fr.next as usize, flags);
        crate::sv39::lemma_install_walk(sp.pt, s1.pt, sp.pt.root as int, page, 0, va);
        lemma_load_keeps_walk(s1, seg, image, i + 1, va);
    } else {
        lemma_segment_leaf(s1, seg, image, i + 1, j);
    }
}

/// After a segment with a permission bit was loaded inside the 39-bit
/// space, the byte at offset `j` of its memory is mapped with the segment's
/// flags and holds the file's byte, or zero behind the file's bytes.
pub proof fn lemma_segment_byte(sp: Space, seg: Segment, image: Seq<u8>, j: int)
    requires
        sp.wf(),
        sp.pt.root != 0,
        load_segment_from(sp, seg, image, 0) is Ok,
        seg_addressable(seg),
        seg.p_vaddr + seg.p_memsz + 4095 < 0x80_0000_0000u64,
        seg.p_flags & 7 != 0,
        0 <= j < seg.p_memsz,
    ensures
        byte_mapped(
            load_segment_from(sp, seg, image, 0).unwrap(),
            (seg.p_vaddr + j) as usize,
            pf_flags(seg.p_flags),
            segment_byte(seg, image, j),
        ),
{
    let s = load_segment_from(sp, seg, image, 0).unwrap();
    let head = seg.p_vaddr as int % 4096;
    let p = (head + j) / 4096;
    let o = (head + j) % 4096;
    let va = (seg.p_vaddr + j) as usize;
    let pa = sp.fr.next + p * 4096;
    assert(p < seg_pages(seg));
    assert(va as int % 4096 == o);
    lemma_segment_leaf(sp, seg, image, 0, j);
    lemma_segment_memory(sp, seg, image, j);
    lemma_segment_frames(sp, seg, image, 0);
    lemma_load_keeps_bytes(sp, seg, image, 0);
    lemma_pf_leaf(seg.p_flags);
    assert(pa + 4096 <= s.fr.next) by (nonlinear_arith)
        requires
            pa == sp.fr.next + p * 4096,
            p < seg_pages(seg),
            s.fr.next == sp.fr.next + (seg_pages(seg) - 0) * 4096,
    ;
    crate::sv39::lemma_make_pte_leaf(pa as usize, pf_flags(seg.p_flags));
}

/// Loading the segments from the `k0`-th on keeps a byte that is mapped, as
/// long as each of them lies clear of its page.
proof fn lemma_segments_keep(
    sp: Space,
    segs: Seq<Segment>,
    image: Seq<u8>,
    k0: int,
    brk: int,
    va: usize,
    flags: u64,
    byte: u8,
)
    requires
        sp.wf(),
        sp.pt.root != 0,
        0 <= k0,
        load_segments_from(sp, segs, image, k0, brk) is Ok,
        va < 0x80_0000_0000u64,
        byte_mapped(sp, va, flags, byte),
        forall|m: int|
            k0 <= m < segs.len() && (#[trigger] segs[m]).p_type == PT_LOAD && segs[m].p_memsz != 0
                ==> seg_clear_of(segs[m], va),
    ensures
        ({
            let s = load_segments_from(sp, segs, image, k0, brk).unwrap().0;
            &&& s.wf()
            &&& s.pt.root == sp.pt.root
            &&& s.fr.base == sp.fr.base
            &&& byte_mapped(s, va, flags, byte)
        }),
    decreases segs.len() - k0,
{
    if k0 < segs.len() {
        let seg = segs[k0];
        if seg.p_type != PT_LOAD || seg.p_memsz == 0 {
            lemma_segments_keep(sp, segs, image, k0 + 1, brk, va, flags, byte);
        } else {
            let s1 = load_segment_from(sp, seg, image, 0).unwrap();
            assert(seg_clear_of(seg, va));
            lemma_load_keeps_bytes(sp, seg, image, 0);
            lemma_load_keeps_walk(sp, seg, image, 0, va);
            lemma_segments_keep(s1, segs, image, k0 + 1, max_int(brk, seg.p_vaddr + seg.p_memsz), va, flags, byte);
        }
    }
}

/// After the segments from the `k0`-th on were loaded, the byte at offset
/// `j` of the `k`-th is mapped with that segment's flags and holds its
/// byte, as long as the segments behind it lie clear of its page.
proof fn lemma_segments_byte(sp: Space, segs: Seq<Segment>, image: Seq<u8>, k0: int, brk: int, k: int, j: int)
    requires
        sp.wf(),
        sp.pt.root != 0,
        0 <= k0 <= k < segs.len(),
        load_segments_from(sp, segs, image, k0, brk) is Ok,
        segs[k].p_type == PT_LOAD,
        segs[k].p_flags & 7 != 0,
        segs[k].p_vaddr + segs[k].p_memsz + 4095 < 0x80_0000_0000u64,
        0 <= j < segs[k].p_memsz,
        forall|m: int|
            k < m < segs.len() && (#[trigger] segs[m]).p_type == PT_LOAD && segs[m].p_memsz != 0
                ==> seg_clear_of(segs[m], (segs[k].p_vaddr + j) as usize),
    ensures
        ({
            let s = load_segments_from(sp, segs, image, k0, brk).unwrap().0;
            &&& s.wf()
            &&& s.pt.root == sp.pt.root
            &&& s.fr.base == sp.fr.base
            &&& seg_addressable(segs[k])
            &&& byte_mapped(
                s,
                (segs[k].p_vaddr + j) as usize,
                pf_flags(segs[k].p_flags),
                segment_byte(segs[k], image, j),
            )
        }),
    decreases k - k0,
{
    let seg = segs[k0];
    if k0 < k {
        if seg.p_type != PT_LOAD || seg.p_memsz == 0 {
            lemma_segments_byte(sp, segs, image, k0 + 1, brk, k, j);
        } else {
            let s1 = load_segment_from(sp, seg, image, 0).unwrap();
            lemma_load_keeps_bytes(sp, seg, image, 0);
            lemma_segments_byte(s1, segs, image, k0 + 1, max_int(brk, seg.p_vaddr + seg.p_memsz), k, j);
        }
    } else {
        let s1 = load_segment_from(sp, seg, image, 0).unwrap();
        lemma_load_keeps_bytes(sp, seg, image, 0);
        lemma_segment_byte(sp, seg, image, j);
        lemma_segments_keep(
            s1,
            segs,
            image,
            k + 1,
            max_int(brk, seg.p_vaddr + seg.p_memsz),
            (seg.p_vaddr + j) as usize,
            pf_flags(seg.p_flags),
            segment_byte(seg, image, j),
        );
    }
}

/// Segments that load leave a sound space with its root in place.
pub proof fn lemma_segments_sound(sp: Space, segs: Seq<Segment>, image: Seq<u8>, k: int, brk: int)
    requires
        sp.wf(),
        sp.pt.root != 0,
        0 <= k,
        load_segments_from(sp, segs, image, k, brk) is Ok,
    ensures
        load_segments_from(sp, segs, image, k, brk).unwrap().0.wf(),
        load_segments_from(sp, segs, image, k, brk).unwrap().0.pt.root == sp.pt.root,
    decreases segs.len() - k,
{
    if k < segs.len() {
        let seg = segs[k];
        if seg.p_type != PT_LOAD || seg.p_memsz == 0 {
            lemma_segments_sound(sp, segs, image, k + 1, brk);
        } else {
            lemma_load_keeps_bytes(sp, seg, image, 0);
            lemma_segments_sound(
                load_segment_from(sp, seg, image, 0).unwrap(),
                segs,
                image,
                k + 1,
                max_int(brk, seg.p_vaddr + seg.p_memsz),
            );
        }
    }
}

/// Mapping the pages of a stack from the `i`-th on hands out one frame for
/// each and changes no byte.
proof fn lemma_stack_frames(sp: Space, base: int, pages: int, i: int)
    requires
        sp.wf(),
        sp.pt.root != 0,
        0 <= i,
        map_stack_from(sp, base, pages, i) is Ok,
    ensures
        ({
            let s = map_stack_from(sp, base, pages, i).unwrap();
            &&& s.wf()
            &&& s.pt.root == sp.pt.root
            &&& s.fr.base == sp.fr.base
            &&& s.fr.bytes == sp.fr.bytes
            &&& s.fr.next == sp.fr.next + (if i < pages {
                (pages - i) * 4096
            } else {
                0
            })
        }),
    decreases pages - i,
{
    if i < pages {
        let page = (base + i * 4096) as usize;
        crate::mem::lemma_map_user_page(sp, page, STACK_FLAGS);
        lemma_stack_frames(sp.map_user_page(page, STACK_FLAGS).unwrap(), base, pages, i + 1);
    }
}

/// The `i`-th page of a stack starts at a page boundary, `i` pages behind
/// the stack's base, and has an address.
proof fn lemma_stack_page(base: int, pages: int, i: int)
    requires
        0 <= base,
        base % 4096 == 0,
        0 <= i < pages,
        base + pages * 4096 <= usize::MAX,
    ensures
        0 <= base + i * 4096 <= usize::MAX - 4096,
        (base + i * 4096) % 4096 == 0,
        (base + i * 4096) / 4096 == base / 4096 + i,
{
    assert(i * 4096 + 4096 <= pages * 4096) by (nonlinear_arith)
        requires
            0 <= i < pages,
    ;
}

/// Mapping the rest of a stack leaves the translation of a page alone that
/// a 4 KiB leaf maps and that is none of the pages still to map.
proof fn lemma_stack_keeps_walk(sp: Space, base: int, pages: int, i: int, va: usize)
    requires
        sp.wf(),
        sp.pt.root != 0,
        map_stack_from(sp, base, pages, i) is Ok,
        0 <= i,
        0 <= base,
        base % 4096 == 0,
        base + pages * 4096 <= 0x80_0000_0000u64,
        base + pages * 4096 <= usize::MAX,
        va < 0x80_0000_0000u64,
        va as int / 4096 < base / 4096 + i || va as int / 4096 >= base / 4096 + pages,
        sp.pt.walk(sp.pt.root as int, va) is Some,
        sp.pt.walk(sp.pt.root as int, va).unwrap().level == 0,
    ensures
        map_stack_from(sp, base, pages, i).unwrap().pt.walk(sp.pt.root as int, va) == sp.pt.walk(
            sp.pt.root as int,
            va,
        ),
    decreases pages - i,
{
    if i < pages {
        let page = (base + i * 4096) as usize;
        crate::mem::lemma_map_user_page(sp, page, STACK_FLAGS);
        let s1 = sp.map_user_page(page, STACK_FLAGS).unwrap();
        lemma_stack_page(base, pages, i);
        if crate::sv39::same_region(page, va, 0) {
            crate::sv39::lemma_same_page(page, va);
        }
        crate::sv39::lemma_install_frame(sp.pt, s1.pt, sp.pt.root as int, page, 0, va);
        lemma_stack_keeps_walk(s1, base, pages, i + 1, va);
    }
}

/// After the pages of a stack from the `i`-th on were mapped, a 4 KiB leaf
/// maps each of them, readable and writable, to its frame.
proof fn lemma_stack_leaf(sp: Space, base: int, pages: int, i: int, a: usize)
    requires
        sp.wf(),
        sp.pt.root != 0,
        map_stack_from(sp, base, pages, i) is Ok,
        0 <= i,
        0 <= base,
        base % 4096 == 0,
        base + pages * 4096 <= 0x80_0000_0000u64,
        base + pages * 4096 <= usize::MAX,
        base + i * 4096 <= a < base + pages * 4096,
    ensures
        map_stack_from(sp, base, pages, i).unwrap().pt.walk(sp.pt.root as int, a) == Some(
            Leaf { pte: make_pte((sp.fr.next + ((a - base) / 4096 - i) * 4096) as usize, STACK_FLAGS), level: 0 },
        ),
    decreases pages - i,
{
    let q = (a - base) / 4096;
    let page = (base + i * 4096) as usize;
    assert(i < pages) by (nonlinear_arith)
        requires
            base + i * 4096 < base + pages * 4096,
    ;
    lemma_stack_page(base, pages, i);
    crate::mem::lemma_map_user_page(sp, page, STACK_FLAGS);
    let s1 = sp.map_user_page(page, STACK_FLAGS).unwrap();
    if q == i {
        assert(crate::sv39::leaf_flags(STACK_FLAGS)) by {
            assert(0xd7u64 < 0x400 && 0xd7u64 & 0x01 != 0 && 0xd7u64 & 0x0e != 0) by (bit_vector);
        }
        assert(crate::sv39::same_region(page, a, 0)) by {
            lemma_in_page(page, a);
        }
        crate::sv39::lemma_make_pte_leaf(sp.fr.next as usize, STACK_FLAGS);
        crate::sv39::lemma_install_walk(sp.pt, s1.pt, sp.pt.root as int, page, 0, a);
        lemma_stack_keeps_walk(s1, base, pages, i + 1, a);
    } else {
        lemma_stack_leaf(s1, base, pages, i + 1, a);
    }
}

/// A store between `lo` and `hi`, where every mapped address lies in a frame
/// at or above `floor`, leaves the bytes of the frames below `floor` alone.
proof fn lemma_store_keeps_low(pt: Tables, fr: Frames, va: int, src: Seq<u8>, lo: int, hi: int, floor: int)
    requires
        user_store(pt, fr, va, src) is Some,
        mapped_above(pt, lo, hi, floor),
        lo <= va,
        va + src.len() <= hi,
        fr.base <= floor,
    ensures
        ({
            let f = user_store(pt, fr, va, src).unwrap();
            &&& f.base == fr.base
            &&& f.next == fr.next
            &&& f.bytes.len() == fr.bytes.len()
            &&& forall|x: int| 0 <= x < floor - fr.base && x < fr.bytes.len() ==> f.bytes[x] == fr.bytes[x]
        }),
    decreases src.len(),
{
    reveal(user_store);
    if src.len() > 0 {
        let n = page_cap(va as usize, src.len() as usize) as int;
        let l = pt.walk(pt.root as int, va as usize).unwrap();
        let pa = crate::mem::user_page(pt, fr, va as usize, true).unwrap();
        assert(pa >= floor);
        let f1 = fr.store(pa + va % 4096, src.take(n));
        lemma_store_keeps_low(pt, f1, va + n, src.skip(n), lo, hi, floor);
    }
}

/// Putting strings on the stack moves the stack pointer down, if at all,
/// and changes bytes only.
proof fn lemma_strings_layout(pt: Tables, fr: Frames, sp: int, strs: Seq<Seq<u8>>, k: int)
    requires
        0 <= k,
        strings_from(pt, fr, sp, strs, k) is Some,
    ensures
        ({
            let (f, s, ptrs) = strings_from(pt, fr, sp, strs, k).unwrap();
            &&& s <= sp
            &&& f.base == fr.base
            &&& f.next == fr.next
            &&& f.bytes.len() == fr.bytes.len()
        }),
    decreases strs.len() - k,
{
    reveal(strings_from);
    if k < strs.len() {
        let at = sp - strs[k].len() - 1;
        crate::mem::lemma_user_store_layout(pt, fr, at, strs[k] + seq![0u8]);
        lemma_strings_layout(pt, user_store(pt, fr, at, strs[k] + seq![0u8]).unwrap(), at, strs, k + 1);
    }
}

/// Strings that go on the stack between `lo` and `hi`, where every mapped
/// address lies in a frame at or above `floor`, leave the bytes of the
/// frames below `floor` alone.
proof fn lemma_strings_keep_low(
    pt: Tables,
    fr: Frames,
    sp: int,
    strs: Seq<Seq<u8>>,
    k: int,
    lo: int,
    hi: int,
    floor: int,
)
    requires
        0 <= k,
        strings_from(pt, fr, sp, strs, k) is Some,
        mapped_above(pt, lo, hi, floor),
        sp <= hi,
        lo <= strings_from(pt, fr, sp, strs, k).unwrap().1,
        fr.base <= floor,
    ensures
        ({
            let f = strings_from(pt, fr, sp, strs, k).unwrap().0;
            forall|x: int| 0 <= x < floor - fr.base && x < fr.bytes.len() ==> f.bytes[x] == fr.bytes[x]
        }),
    decreases strs.len() - k,
{
    reveal(strings_from);
    if k < strs.len() {
        let at = sp - strs[k].len() - 1;
        let text = strs[k] + seq![0u8];
        let f2 = user_store(pt, fr, at, text).unwrap();
        crate::mem::lemma_user_store_layout(pt, fr, at, text);
        lemma_strings_layout(pt, f2, at, strs, k + 1);
        lemma_store_keeps_low(pt, fr, at, text, lo, hi, floor);
        lemma_strings_keep_low(pt, f2, at, strs, k + 1, lo, hi, floor);
    }
}

/// Pointer vectors and argument count that go on the stack between `lo`
/// and `hi`, where every mapped address lies in a frame at or above `floor`,
/// leave the bytes of the frames below `floor` alone.
proof fn lemma_vectors_keep_low(
    pt: Tables,
    fr: Frames,
    sp: int,
    eptrs: Seq<usize>,
    aptrs: Seq<usize>,
    lo: int,
    hi: int,
    floor: int,
)
    requires
        stack_vectors(pt, fr, sp, eptrs, aptrs) is Some,
        mapped_above(pt, lo, hi, floor),
        sp <= hi,
        lo <= stack_vectors(pt, fr, sp, eptrs, aptrs).unwrap().1.user_sp,
        fr.base <= floor,
    ensures
        ({
            let f = stack_vectors(pt, fr, sp, eptrs, aptrs).unwrap().0;
            &&& lo <= sp
            &&& f.base == fr.base
            &&& f.next == fr.next
            &&& f.bytes.len() == fr.bytes.len()
            &&& forall|x: int| 0 <= x < floor - fr.base && x < fr.bytes.len() ==> f.bytes[x] == fr.bytes[x]
        }),
{
    let s3 = sp - sp % 16;
    let envp_va = s3 - 8 * (eptrs.len() + 1);
    let argv_va = envp_va - 8 * (aptrs.len() + 1);
    let argc_at = argv_va - 8;
    let ewords = words_le(eptrs.push(0));
    let awords = words_le(aptrs.push(0));
    let count = spec_u64_to_le_bytes(aptrs.len() as u64);
    let f3 = user_store(pt, fr, envp_va, ewords).unwrap();
    let f4 = user_store(pt, f3, argv_va, awords).unwrap();
    lemma_words_len(eptrs.push(0));
    lemma_words_len(aptrs.push(0));
    vstd::bytes::spec_u64_to_le_bytes_to_open(aptrs.len() as u64);
    crate::mem::lemma_user_store_edge(pt, f4, argc_at, count);
    assert(argc_at >= 0);
    assert(lo <= argc_at);
    lemma_store_keeps_low(pt, fr, envp_va, ewords, lo, hi, floor);
    lemma_store_keeps_low(pt, f3, argv_va, awords, lo, hi, floor);
    lemma_store_keeps_low(pt, f4, argc_at, count, lo, hi, floor);
}

/// A stack that is laid out between `lo` and `hi`, where every mapped
/// address lies in a frame at or above `floor`, leaves the bytes of the
/// frames below `floor` alone.
proof fn lemma_layout_keeps_low(
    pt: Tables,
    fr: Frames,
    top: int,
    argv: Seq<Seq<u8>>,
    envp: Seq<Seq<u8>>,
    lo: int,
    floor: int,
)
    requires
        stack_layout(pt, fr, top, argv, envp) is Some,
        mapped_above(pt, lo, top, floor),
        lo <= stack_layout(pt, fr, top, argv, envp).unwrap().1.user_sp,
        fr.base <= floor,
    ensures
        ({
            let f = stack_layout(pt, fr, top, argv, envp).unwrap().0;
            &&& f.base == fr.base
            &&& f.next == fr.next
            &&& f.bytes.len() == fr.bytes.len()
            &&& forall|x: int| 0 <= x < floor - fr.base && x < fr.bytes.len() ==> f.bytes[x] == fr.bytes[x]
        }),
{
    let (f1, s1, eptrs) = strings_from(pt, fr, top - 16, envp, 0).unwrap();
    let (f2, s2, aptrs) = strings_from(pt, f1, s1, argv, 0).unwrap();
    lemma_strings_layout(pt, fr, top - 16, envp, 0);
    lemma_strings_layout(pt, f1, s1, argv, 0);
    lemma_vectors_keep_low(pt, f2, s2, eptrs, aptrs, lo, top, floor);
    lemma_strings_keep_low(pt, f1, s1, argv, 0, lo, top, floor);
    lemma_strings_keep_low(pt, fr, top - 16, envp, 0, lo, top, floor);
}

/// Setting up a stack keeps a byte that is mapped, where the stack starts
/// at a page inside the 39-bit space, lies clear of the byte's page, and
/// its layout stays inside its pages.
proof fn lemma_stack_keeps(
    sp: Space,
    top: int,
    bytes: int,
    argv: Seq<Seq<u8>>,
    envp: Seq<Seq<u8>>,
    va: usize,
    flags: u64,
    byte: u8,
)
    requires
        sp.wf(),
        sp.pt.root != 0,
        stack_outcome(sp, top, bytes, argv, envp) is Ok,
        va < 0x80_0000_0000u64,
        byte_mapped(sp, va, flags, byte),
        top % 4096 == 0,
        top <= 0x80_0000_0000u64,
        top <= usize::MAX,
        va as int / 4096 < stack_base(top, bytes) / 4096 || va as int / 4096 >= top / 4096,
        stack_base(top, bytes) <= stack_outcome(sp, top, bytes, argv, envp).unwrap().1.user_sp,
    ensures
        byte_mapped(stack_outcome(sp, top, bytes, argv, envp).unwrap().0, va, flags, byte),
{
    let base = stack_base(top, bytes);
    let pages = stack_pages(bytes);
    assert(base == top - pages * 4096 && base % 4096 == 0 && base >= 0);
    let sm = map_stack_from(sp, base, pages, 0).unwrap();
    lemma_stack_frames(sp, base, pages, 0);
    lemma_stack_keeps_walk(sp, base, pages, 0, va);
    let floor = sp.fr.next as int;
    assert forall|a: usize| base <= a < top implies match #[trigger] sm.pt.walk(sm.pt.root as int, a) {
        Some(l) => l.level == 0 ==> pte_addr(l.pte) >= floor,
        None => true,
    } by {
        let q = (a - base) / 4096;
        assert(0 <= q < pages) by (nonlinear_arith)
            requires
                base <= a < base + pages * 4096,
                q == (a - base) / 4096,
        ;
        lemma_stack_leaf(sp, base, pages, 0, a);
        assert(crate::sv39::leaf_flags(STACK_FLAGS)) by {
            assert(0xd7u64 < 0x400 && 0xd7u64 & 0x01 != 0 && 0xd7u64 & 0x0e != 0) by (bit_vector);
        }
        assert(floor + q * 4096 + 4096 <= sm.fr.next) by (nonlinear_arith)
            requires
                0 <= q < pages,
                sm.fr.next == floor + pages * 4096,
        ;
        crate::sv39::lemma_make_pte_leaf((floor + q * 4096) as usize, STACK_FLAGS);
    }
    assert(mapped_above(sm.pt, base, top, floor));
    lemma_layout_keeps_low(sm.pt, sm.fr, top, argv, envp, base, floor);
}

/// What a loaded program finds in a segment: at offset `j` of a readable
/// segment's memory the file's byte, as far as the file reaches, and zero
/// from there to the segment's end, in the page that holds the end of the
/// file's bytes and in every page behind it. This holds where the segment
/// lies inside the 39-bit space, no segment behind it and no page of the
/// stack lies on the byte's page, and the stack, which starts at a page,
/// keeps its layout inside its own pages.
pub proof fn lemma_loaded_memory(
    e: ElfView,
    image: Seq<u8>,
    sp: Space,
    top: int,
    bytes: int,
    argv: Seq<Seq<u8>>,
    envp: Seq<Seq<u8>>,
    k: int,
    j: int,
)
    requires
        sp.wf(),
        load_parsed_outcome(e, image, sp, top, bytes, argv, envp) is Ok,
        0 <= k < e.segments.len(),
        e.segments[k].p_type == PT_LOAD,
        e.segments[k].p_flags & 4 != 0,
        e.segments[k].p_vaddr + e.segments[k].p_memsz + 4095 < 0x80_0000_0000u64,
        0 <= j < e.segments[k].p_memsz,
        forall|m: int|
            k < m < e.segments.len() && (#[trigger] e.segments[m]).p_type == PT_LOAD && e.segments[m].p_memsz
                != 0 ==> seg_clear_of(e.segments[m], (e.segments[k].p_vaddr + j) as usize),
        top % 4096 == 0,
        top <= 0x80_0000_0000u64,
        top <= usize::MAX,
        (e.segments[k].p_vaddr + j) / 4096 < stack_base(top, bytes) / 4096 || (e.segments[k].p_vaddr + j) / 4096
            >= top / 4096,
        stack_base(top, bytes) <= load_parsed_outcome(e, image, sp, top, bytes, argv, envp).unwrap().1.user_sp,
    ensures
        ({
            let s = load_parsed_outcome(e, image, sp, top, bytes, argv, envp).unwrap().0;
            user_load(s.pt, s.fr, (e.segments[k].p_vaddr + j) as usize, 1) == Some(
                seq![segment_byte(e.segments[k], image, j)],
            )
        }),
{
    let seg = e.segments[k];
    let va = (seg.p_vaddr + j) as usize;
    let flags = pf_flags(seg.p_flags);
    let byte = segment_byte(seg, image, j);
    let pf = seg.p_flags;
    assert(pf & 4 != 0 ==> pf & 7 != 0) by (bit_vector);
    lemma_segments_byte(sp, e.segments, image, 0, 0, k, j);
    let s1 = load_segments_from(sp, e.segments, image, 0, 0).unwrap().0;
    lemma_stack_keeps(s1, top, bytes, argv, envp, va, flags, byte);
    let s2 = load_parsed_outcome(e, image, sp, top, bytes, argv, envp).unwrap().0;
    lemma_pf_flags(pf);
    assert(flags & 0x51 == 0x51 && flags & 0x02 != 0 ==> flags & 0x53 == 0x53) by (bit_vector);
    lemma_stack_left_sound(s1, top, bytes, argv, envp);
    let l = s2.pt.walk(s2.pt.root as int, va).unwrap();
    let pa = pte_addr(l.pte) as int;
    assert(byte_mapped(s2, va, flags, byte));
    assert(s2.pt.root != 0);
    assert(crate::mem::access_ok(pte_flags(l.pte), false));
    assert(s2.fr.contains(pa, 4096));
    assert(crate::mem::user_page(s2.pt, s2.fr, va, false) == Some(pa));
    assert(s2.fr.read(pa + va as int % 4096, 1) =~= seq![byte]);
}

/// A stack that was set up leaves a sound space.
proof fn lemma_stack_left_sound(sp: Space, top: int, bytes: int, argv: Seq<Seq<u8>>, envp: Seq<Seq<u8>>)
    requires
        sp.wf(),
        sp.pt.root != 0,
        stack_outcome(sp, top, bytes, argv, envp) is Ok,
    ensures
        stack_outcome(sp, top, bytes, argv, envp).unwrap().0.fr.wf(),
        stack_outcome(sp, top, bytes, argv, envp).unwrap().0.pt.root == sp.pt.root,
{
    let base = stack_base(top, bytes);
    let pages = stack_pages(bytes);
    let sm = map_stack_from(sp, base, pages, 0).unwrap();
    lemma_stack_frames(sp, base, pages, 0);
    let (f1, s1, eptrs) = strings_from(sm.pt, sm.fr, top - 16, envp, 0).unwrap();
    let (f2, s2, aptrs) = strings_from(sm.pt, f1, s1, argv, 0).unwrap();
    lemma_strings_layout(sm.pt, sm.fr, top - 16, envp, 0);
    lemma_strings_layout(sm.pt, f1, s1, argv, 0);
    let s3 = s2 - s2 % 16;
    let envp_va = s3 - 8 * (eptrs.len() + 1);
    let argv_va = envp_va - 8 * (aptrs.len() + 1);
    let f3 = user_store(sm.pt, f2, envp_va, words_le(eptrs.push(0))).unwrap();
    let f4 = user_store(sm.pt, f3, argv_va, words_le(aptrs.push(0))).unwrap();
    crate::mem::lemma_user_store_layout(sm.pt, f2, envp_va, words_le(eptrs.push(0)));
    crate::mem::lemma_user_store_layout(sm.pt, f3, argv_va, words_le(aptrs.push(0)));
    crate::mem::lemma_user_store_layout(sm.pt, f4, argv_va - 8, spec_u64_to_le_bytes(aptrs.len() as u64));
}

/// Whether the pages from `base` up to `top` are mapped one behind the
/// other, for the program to read and write, to the frames from `floor` on.
pub open spec fn flat(pt: Tables, base: int, top: int, floor: int) -> bool {
    forall|a: usize|
        base <= a < top ==> #[trigger] pt.walk(pt.root as int, a) == Some(
            Leaf { pte: make_pte((floor + (a - base) / 4096 * 4096) as usize, STACK_FLAGS), level: 0 },
        )
}

/// Whether tables and frames hold a flat region: whole pages from `base` up
/// to `top`, mapped flat to frames of the pool from `floor` on.
pub open spec fn flat_region(pt: Tables, fr: Frames, base: int, top: int, floor: int) -> bool {
    &&& pt.root != 0
    &&& fr.wf()
    &&& flat(pt, base, top, floor)
    &&& 0 <= base <= top <= usize::MAX
    &&& base % 4096 == 0
    &&& top % 4096 == 0
    &&& floor % 4096 == 0
    &&& fr.base <= floor
    &&& floor + (top - base) <= fr.end()
}

/// In a flat region the frame behind an address lies as far behind `floor`
/// as the address's page behind `base`.
proof fn lemma_flat_page(pt: Tables, fr: Frames, base: int, top: int, floor: int, a: usize, write: bool)
    requires
        flat_region(pt, fr, base, top, floor),
        base <= a < top,
    ensures
        crate::mem::user_page(pt, fr, a, write) == Some(floor + (a - base) / 4096 * 4096),
        floor + (a - base) / 4096 * 4096 + a as int % 4096 == floor + a - base,
        a as int % 4096 + (floor + a - base) + 4096 - a as int % 4096 <= floor + (top - base) + a as int % 4096,
{
    let pa = floor + (a - base) / 4096 * 4096;
    assert(crate::sv39::leaf_flags(STACK_FLAGS) && crate::mem::access_ok(STACK_FLAGS, write)) by {
        assert(0xd7u64 < 0x400 && 0xd7u64 & 0x01 != 0 && 0xd7u64 & 0x0e != 0 && 0xd7u64 & 0xd5 == 0xd5 && 0xd7u64
            & 0x53 == 0x53) by (bit_vector);
    }
    crate::sv39::lemma_make_pte_leaf(pa as usize, STACK_FLAGS);
}

/// A store into a flat region lays the bytes over the frames in one piece.
proof fn lemma_flat_store(pt: Tables, fr: Frames, base: int, top: int, floor: int, va: int, src: Seq<u8>)
    requires
        flat_region(pt, fr, base, top, floor),
        base <= va,
        va + src.len() <= top,
    ensures
        user_store(pt, fr, va, src) == Some(fr.store(floor + va - base, src)),
    decreases src.len(),
{
    reveal(user_store);
    let at = floor + va - base;
    if src.len() == 0 {
        assert(fr.store(at, src).bytes =~= fr.bytes);
    } else {
        let n = page_cap(va as usize, src.len() as usize) as int;
        lemma_flat_page(pt, fr, base, top, floor, va as usize, true);
        let f1 = fr.store(at, src.take(n));
        lemma_flat_store(pt, f1, base, top, floor, va + n, src.skip(n));
        assert(f1.store(at + n, src.skip(n)).bytes =~= fr.store(at, src).bytes);
    }
}

/// A load from a flat region reads the frames in one piece.
proof fn lemma_flat_load(pt: Tables, fr: Frames, base: int, top: int, floor: int, va: int, len: nat)
    requires
        flat_region(pt, fr, base, top, floor),
        base <= va,
        va + len <= top,
    ensures
        crate::mem::user_load_all(pt, fr, va, len) == Some(fr.read(floor + va - base, len as int)),
    decreases len,
{
    reveal(crate::mem::user_load_all);
    let at = floor + va - base;
    if len == 0 {
        assert(fr.read(at, 0) =~= Seq::<u8>::empty());
    } else {
        let n = page_cap(va as usize, len as usize) as int;
        lemma_flat_page(pt, fr, base, top, floor, va as usize, false);
        lemma_flat_load(pt, fr, base, top, floor, va + n, (len - n) as nat);
        assert(fr.read(at, n) + fr.read(at + n, len - n) =~= fr.read(at, len as int));
    }
}

/// What strings that were put into a flat region left: each is read back
/// at its address with its closing zero byte, the addresses lie one below
/// the other under `sp`, and outside the bytes between the new stack pointer
/// and `sp` the frames are as they were.
proof fn lemma_strings_held(
    pt: Tables,
    fr: Frames,
    base: int,
    top: int,
    floor: int,
    sp: int,
    strs: Seq<Seq<u8>>,
    k: int,
)
    requires
        flat_region(pt, fr, base, top, floor),
        0 <= k <= strs.len(),
        strings_from(pt, fr, sp, strs, k) is Some,
        base <= strings_from(pt, fr, sp, strs, k).unwrap().1,
        sp <= top,
    ensures
        ({
            let (f, s, ptrs) = strings_from(pt, fr, sp, strs, k).unwrap();
            let off = floor - base - fr.base;
            &&& s <= sp
            &&& ptrs.len() == strs.len() - k
            &&& flat_region(pt, f, base, top, floor)
            &&& f.base == fr.base
            &&& f.next == fr.next
            &&& forall|x: int|
                0 <= x < fr.bytes.len() && !(s + off <= x < sp + off) ==> #[trigger] f.bytes[x] == fr.bytes[x]
            &&& forall|i: int|
                0 <= i < ptrs.len() ==> s <= (#[trigger] ptrs[i]) && ptrs[i] + strs[k + i].len() + 1 <= sp
                    && f.read(floor + ptrs[i] - base, (strs[k + i].len() + 1) as int) == strs[k + i] + seq![0u8]
        }),
    decreases strs.len() - k,
{
    reveal(strings_from);
    if k < strs.len() {
        let at = sp - strs[k].len() - 1;
        let text = strs[k] + seq![0u8];
        let f2 = user_store(pt, fr, at, text).unwrap();
        let (f, s, ptrs) = strings_from(pt, fr, sp, strs, k).unwrap();
        let off = floor - base - fr.base;
        lemma_strings_layout(pt, f2, at, strs, k + 1);
        crate::mem::lemma_user_store_layout(pt, fr, at, text);
        lemma_flat_store(pt, fr, base, top, floor, at, text);
        lemma_strings_held(pt, f2, base, top, floor, at, strs, k + 1);
        let rest = strings_from(pt, f2, at, strs, k + 1).unwrap().2;
        assert(ptrs == seq![at as usize] + rest);
        assert(f.read(floor + at - base, text.len() as int) =~= text);
        assert forall|i: int| 0 <= i < ptrs.len() implies s <= (#[trigger] ptrs[i]) && ptrs[i] + strs[k + i].len()
            + 1 <= sp && f.read(floor + ptrs[i] - base, (strs[k + i].len() + 1) as int) == strs[k + i] + seq![0u8] by {
            if i > 0 {
                assert(ptrs[i] == rest[i - 1]);
            }
        }
    }
}

/// What pointer vectors and argument count that were put into a flat
/// region left: the environment vector, the argument vector and the count
/// are read back at their addresses, and outside them the frames are as they
/// were.
proof fn lemma_vectors_held(
    pt: Tables,
    fr: Frames,
    base: int,
    top: int,
    floor: int,
    sp: int,
    eptrs: Seq<usize>,
    aptrs: Seq<usize>,
)
    requires
        flat_region(pt, fr, base, top, floor),
        stack_vectors(pt, fr, sp, eptrs, aptrs) is Some,
        base <= stack_vectors(pt, fr, sp, eptrs, aptrs).unwrap().1.user_sp,
        sp <= top,
    ensures
        ({
            let (f, info) = stack_vectors(pt, fr, sp, eptrs, aptrs).unwrap();
            let off = floor - base - fr.base;
            &&& base <= info.user_sp <= info.argv_va - 8
            &&& info.argv_va + 8 * (aptrs.len() + 1) == info.envp_va
            &&& info.envp_va + 8 * (eptrs.len() + 1) <= sp
            &&& info.argc == aptrs.len()
            &&& info.user_sp % 16 == 0
            &&& flat_region(pt, f, base, top, floor)
            &&& f.base == fr.base
            &&& forall|x: int|
                0 <= x < fr.bytes.len() && !(info.argv_va - 8 + off <= x < sp + off) ==> #[trigger] f.bytes[x]
                    == fr.bytes[x]
            &&& f.read(floor + info.envp_va - base, (8 * (eptrs.len() + 1)) as int) == words_le(eptrs.push(0))
            &&& f.read(floor + info.argv_va - base, (8 * (aptrs.len() + 1)) as int) == words_le(aptrs.push(0))
            &&& f.read(floor + info.argv_va - 8 - base, 8) == spec_u64_to_le_bytes(aptrs.len() as u64)
        }),
{
    let s3 = sp - sp % 16;
    let envp_va = s3 - 8 * (eptrs.len() + 1);
    let argv_va = envp_va - 8 * (aptrs.len() + 1);
    let argc_at = argv_va - 8;
    let ewords = words_le(eptrs.push(0));
    let awords = words_le(aptrs.push(0));
    let count = spec_u64_to_le_bytes(aptrs.len() as u64);
    let f3 = user_store(pt, fr, envp_va, ewords).unwrap();
    let f4 = user_store(pt, f3, argv_va, awords).unwrap();
    let f5 = user_store(pt, f4, argc_at, count).unwrap();
    lemma_words_len(eptrs.push(0));
    lemma_words_len(aptrs.push(0));
    vstd::bytes::spec_u64_to_le_bytes_to_open(aptrs.len() as u64);
    crate::mem::lemma_user_store_edge(pt, f4, argc_at, count);
    crate::mem::lemma_user_store_layout(pt, fr, envp_va, ewords);
    crate::mem::lemma_user_store_layout(pt, f3, argv_va, awords);
    crate::mem::lemma_user_store_layout(pt, f4, argc_at, count);
    assert(argc_at >= 0);
    assert(base <= argc_at);
    lemma_flat_store(pt, fr, base, top, floor, envp_va, ewords);
    lemma_flat_store(pt, f3, base, top, floor, argv_va, awords);
    lemma_flat_store(pt, f4, base, top, floor, argc_at, count);
    assert(f5.read(floor + envp_va - base, ewords.len() as int) =~= ewords);
    assert(f5.read(floor + argv_va - base, awords.len() as int) =~= awords);
    assert(f5.read(floor + argc_at - base, 8) =~= count);
}

/// What a program finds on its stack. Where the stack starts at a page
/// inside the 39-bit space and its layout stays inside its pages, the
/// program reads at `argv_va` the addresses of its arguments, in order and
/// closed by a null word, at each of these addresses the argument with a
/// closing zero byte, the same for the environment at `envp_va`, and the
/// number of arguments in the word below the argument vector.
pub proof fn lemma_stack_contents(sp: Space, top: int, bytes: int, argv: Seq<Seq<u8>>, envp: Seq<Seq<u8>>)
    requires
        sp.wf(),
        sp.pt.root != 0,
        stack_outcome(sp, top, bytes, argv, envp) is Ok,
        top % 4096 == 0,
        top <= 0x80_0000_0000u64,
        top <= usize::MAX,
        stack_base(top, bytes) <= stack_outcome(sp, top, bytes, argv, envp).unwrap().1.user_sp,
    ensures
        ({
            let (s, info) = stack_outcome(sp, top, bytes, argv, envp).unwrap();
            let sm = map_stack_from(sp, stack_base(top, bytes), stack_pages(bytes), 0).unwrap();
            let (f2, s2, eptrs, aptrs) = stack_strings(sm.pt, sm.fr, top, argv, envp).unwrap();
            &&& info.argc == argv.len()
            &&& aptrs.len() == argv.len()
            &&& eptrs.len() == envp.len()
            &&& info.user_sp % 16 == 0
            &&& crate::mem::user_load_all(s.pt, s.fr, info.argv_va as int, (8 * (argv.len() + 1)) as nat) == Some(
                words_le(aptrs.push(0)),
            )
            &&& crate::mem::user_load_all(s.pt, s.fr, info.envp_va as int, (8 * (envp.len() + 1)) as nat) == Some(
                words_le(eptrs.push(0)),
            )
            &&& crate::mem::user_load_all(s.pt, s.fr, info.argv_va - 8, 8) == Some(
                spec_u64_to_le_bytes(argv.len() as u64),
            )
            &&& forall|i: int|
                0 <= i < argv.len() ==> crate::mem::user_load_all(
                    s.pt,
                    s.fr,
                    (#[trigger] aptrs[i]) as int,
                    (argv[i].len() + 1) as nat,
                ) == Some(argv[i] + seq![0u8])
            &&& forall|i: int|
                0 <= i < envp.len() ==> crate::mem::user_load_all(
                    s.pt,
                    s.fr,
                    (#[trigger] eptrs[i]) as int,
                    (envp[i].len() + 1) as nat,
                ) == Some(envp[i] + seq![0u8])
        }),
{
    let base = stack_base(top, bytes);
    let pages = stack_pages(bytes);
    let (s, info) = stack_outcome(sp, top, bytes, argv, envp).unwrap();
    let sm = map_stack_from(sp, base, pages, 0).unwrap();
    let floor = sp.fr.next as int;
    assert(base == top - pages * 4096 && base % 4096 == 0 && base >= 0);
    lemma_stack_frames(sp, base, pages, 0);
    let pt = sm.pt;
    let (f1, s1, eptrs) = strings_from(pt, sm.fr, top - 16, envp, 0).unwrap();
    let (f2, s2, aptrs) = strings_from(pt, f1, s1, argv, 0).unwrap();
    let (f, info2) = stack_vectors(pt, f2, s2, eptrs, aptrs).unwrap();
    lemma_strings_layout(pt, sm.fr, top - 16, envp, 0);
    lemma_strings_layout(pt, f1, s1, argv, 0);
    lemma_strings_count(pt, sm.fr, top - 16, envp, 0);
    lemma_strings_count(pt, f1, s1, argv, 0);
    // the vectors lie below the strings, so the stack pointer bounds them all
    let s3 = s2 - s2 % 16;
    assert(info2.user_sp <= s2) by {
        lemma_words_len(eptrs.push(0));
        lemma_words_len(aptrs.push(0));
        vstd::bytes::spec_u64_to_le_bytes_to_open(aptrs.len() as u64);
        crate::mem::lemma_user_store_edge(
            pt,
            user_store(
                pt,
                user_store(pt, f2, s3 - 8 * (eptrs.len() + 1), words_le(eptrs.push(0))).unwrap(),
                s3 - 8 * (eptrs.len() + 1) - 8 * (aptrs.len() + 1),
                words_le(aptrs.push(0)),
            ).unwrap(),
            s3 - 8 * (eptrs.len() + 1) - 8 * (aptrs.len() + 1) - 8,
            spec_u64_to_le_bytes(aptrs.len() as u64),
        );
    }
    assert(base <= top && 0 <= pages);
    assert forall|a: usize| base <= a < top implies #[trigger] sm.pt.walk(sm.pt.root as int, a) == Some(
        Leaf { pte: make_pte((floor + (a - base) / 4096 * 4096) as usize, STACK_FLAGS), level: 0 },
    ) by {
        lemma_stack_leaf(sp, base, pages, 0, a);
    }
    assert(flat_region(pt, sm.fr, base, top, floor));
    lemma_strings_held(pt, sm.fr, base, top, floor, top - 16, envp, 0);
    lemma_strings_held(pt, f1, base, top, floor, s1, argv, 0);
    lemma_vectors_held(pt, f2, base, top, floor, s2, eptrs, aptrs);
    lemma_flat_load(pt, f, base, top, floor, info.argv_va as int, (8 * (argv.len() + 1)) as nat);
    lemma_flat_load(pt, f, base, top, floor, info.envp_va as int, (8 * (envp.len() + 1)) as nat);
    lemma_flat_load(pt, f, base, top, floor, info.argv_va - 8, 8);
    assert forall|i: int| 0 <= i < argv.len() implies crate::mem::user_load_all(
        s.pt,
        s.fr,
        (#[trigger] aptrs[i]) as int,
        (argv[i].len() + 1) as nat,
    ) == Some(argv[i] + seq![0u8]) by {
        lemma_flat_load(pt, f, base, top, floor, aptrs[i] as int, (argv[i].len() + 1) as nat);
        assert(f.read(floor + aptrs[i] - base, (argv[i].len() + 1) as int) =~= f2.read(
            floor + aptrs[i] - base,
            (argv[i].len() + 1) as int,
        ));
    }
    assert forall|i: int| 0 <= i < envp.len() implies crate::mem::user_load_all(
        s.pt,
        s.fr,
        (#[trigger] eptrs[i]) as int,
        (envp[i].len() + 1) as nat,
    ) == Some(envp[i] + seq![0u8]) by {
        lemma_flat_load(pt, f, base, top, floor, eptrs[i] as int, (envp[i].len() + 1) as nat);
        assert(f1.read(floor + eptrs[i] - base, (envp[i].len() + 1) as int) =~= f2.read(
            floor + eptrs[i] - base,
            (envp[i].len() + 1) as int,
        ));
        assert(f.read(floor + eptrs[i] - base, (envp[i].len() + 1) as int) =~= f2.read(
            floor + eptrs[i] - base,
            (envp[i].len() + 1) as int,
        ));
    }
}

} // verus!
