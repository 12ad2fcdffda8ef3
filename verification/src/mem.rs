//! Physical frames for user programs, and access to them through user
//! virtual addresses.

use vstd::prelude::*;
use vstd::slice::slice_subrange;
use crate::sv39::{make_pte, pte_address, pte_addr, pte_flags, MapError, PageTables, Tables, PA_LIMIT};
use crate::text::{overlay, zeros};

verus! {

/// Bytes in a page.
pub const PAGE_SIZE: usize = 4096;

/// The frame pool as the contracts see it.
pub struct Frames {
    /// The pool's memory.
    pub bytes: Seq<u8>,
    /// Physical address of the pool's first byte.
    pub base: nat,
    /// Physical address of the next frame to hand out.
    pub next: nat,
}

impl Frames {
    /// Physical address behind the pool's last byte.
    pub open spec fn end(self) -> nat {
        self.base + self.bytes.len()
    }

    /// Whether the pool is whole pages inside the physical address space,
    /// with a cursor at a page inside it.
    pub open spec fn wf(self) -> bool {
        &&& self.base % 4096 == 0
        &&& self.bytes.len() % 4096 == 0
        &&& self.end() <= PA_LIMIT
        &&& self.end() <= usize::MAX
        &&& self.base <= self.next <= self.end()
        &&& self.next % 4096 == 0
    }

    /// Whether `len` bytes from physical address `pa` on lie in the pool.
    pub open spec fn contains(self, pa: int, len: int) -> bool {
        self.base <= pa && 0 <= len && pa + len <= self.end()
    }

    /// Frames that are still free.
    pub open spec fn free_pages(self) -> nat {
        ((self.end() - self.next) / 4096) as nat
    }

    /// The bytes at a physical range of the pool.
    pub open spec fn read(self, pa: int, len: int) -> Seq<u8> {
        self.bytes.subrange(pa - self.base, pa - self.base + len)
    }

    /// The pool after `src` was stored at `pa`.
    pub open spec fn store(self, pa: int, src: Seq<u8>) -> Frames {
        Frames { bytes: overlay(self.bytes, pa - self.base, src), ..self }
    }
}

/// The pool of physical frames that user programs get: a bump allocator over
/// one stretch of memory.
pub struct UserFrames {
    mem: Vec<u8>,
    base: usize,
    next: usize,
}

impl View for UserFrames {
    type V = Frames;

    closed spec fn view(&self) -> Frames {
        Frames { bytes: self.mem@, base: self.base as nat, next: self.next as nat }
    }
}

impl UserFrames {
    /// A pool over the given memory, whose first byte has physical address
    /// `base`. `None` unless the memory is a whole number of pages and lies
    /// page-aligned inside the physical address space.
    pub fn new(mem: Vec<u8>, base: usize) -> (r: Option<Self>)
        ensures
            r is Some <==> mem@.len() % 4096 == 0 && base % 4096 == 0 && base + mem@.len() <= PA_LIMIT
                && base + mem@.len() <= usize::MAX,
            r is Some ==> r.unwrap()@.wf() && r.unwrap()@ == (Frames {
                bytes: mem@,
                base: base as nat,
                next: base as nat,
            }),
    {
        let n = mem.len();
        if n % 4096 != 0 || base % 4096 != 0 {
            return None;
        }
        if n as u64 > PA_LIMIT || base as u64 > PA_LIMIT - n as u64 {
            return None;
        }
        if base > usize::MAX - n {
            return None;
        }
        Some(UserFrames { mem, base, next: base })
    }

    /// Frames that are still free.
    pub fn user_pages_free(&self) -> (r: usize)
        requires
            self@.wf(),
        ensures
            r == self@.free_pages(),
    {
        (self.base + self.mem.len() - self.next) / 4096
    }

    /// Physical address of the frame that is handed out next.
    pub fn next_frame(&self) -> (pa: usize)
        ensures
            pa == self@.next,
    {
        self.next
    }

    /// Hands out the next frame. Its bytes are whatever the frame held.
    pub fn alloc_user_page(&mut self) -> (pa: usize)
        requires
            old(self)@.wf(),
            old(self)@.free_pages() > 0,
        ensures
            final(self)@.wf(),
            pa == old(self)@.next,
            pa % 4096 == 0,
            final(self)@ == (Frames { next: old(self)@.next + 4096, ..old(self)@ }),
            final(self)@.contains(pa as int, 4096),
            final(self)@.free_pages() == old(self)@.free_pages() - 1,
    {
        let pa = self.next;
        self.next = pa + 4096;
        pa
    }

    /// Makes every frame free again. The memory keeps its bytes.
    pub fn reset_user_pages(&mut self)
        requires
            old(self)@.wf(),
        ensures
            final(self)@.wf(),
            final(self)@ == (Frames { next: old(self)@.base, ..old(self)@ }),
    {
        self.next = self.base;
    }

    /// Whether `len` bytes from `pa` on lie in the pool.
    pub fn contains(&self, pa: u64, len: usize) -> (r: bool)
        requires
            self@.wf(),
        ensures
            r == self@.contains(pa as int, len as int),
    {
        let base = self.base as u64;
        let n = self.mem.len() as u64;
        pa >= base && pa - base <= n && len as u64 <= n - (pa - base)
    }

    /// The bytes at a physical range of the pool.
    pub fn read_pa(&self, pa: u64, len: usize) -> (r: Vec<u8>)
        requires
            self@.wf(),
            self@.contains(pa as int, len as int),
        ensures
            r@ == self@.read(pa as int, len as int),
    {
        let off = (pa - self.base as u64) as usize;
        let mut out: Vec<u8> = Vec::new();
        let total = self.mem.len();
        let mut i: usize = 0;
        while i < len
            invariant
                i <= len,
                total == self.mem@.len(),
                off + len <= self.mem@.len(),
                out@ == self.mem@.subrange(off as int, off + i),
            decreases len - i,
        {
            out.push(self.mem[off + i]);
            assert(out@ =~= self.mem@.subrange(off as int, off + i + 1));
            i += 1;
        }
        out
    }

    /// Copies `src` to the physical address `dst_pa`.
    pub fn memcpy_pa(&mut self, dst_pa: u64, src: &[u8])
        requires
            old(self)@.wf(),
            old(self)@.contains(dst_pa as int, src@.len() as int),
        ensures
            final(self)@.wf(),
            final(self)@ == old(self)@.store(dst_pa as int, src@),
    {
        let off = (dst_pa - self.base as u64) as usize;
        let n = src.len();
        let ghost before = self@;
        let total = self.mem.len();
        let mut i: usize = 0;
        while i < n
            invariant
                i <= n,
                n == src@.len(),
                total == self.mem@.len(),
                off + n <= self.mem@.len(),
                self.base == before.base,
                self.next == before.next,
                self.mem@ == overlay(before.bytes, off as int, src@.take(i as int)),
            decreases n - i,
        {
            self.mem.set(off + i, src[i]);
            assert(self.mem@ =~= overlay(before.bytes, off as int, src@.take(i + 1)));
            i += 1;
        }
        assert(src@.take(n as int) =~= src@);
        assert(before.bytes =~= overlay(before.bytes, off as int, src@.take(0)));
    }

    /// Zeroes `len` bytes at the physical address `dst_pa`.
    pub fn memzero_pa(&mut self, dst_pa: u64, len: usize)
        requires
            old(self)@.wf(),
            old(self)@.contains(dst_pa as int, len as int),
        ensures
            final(self)@.wf(),
            final(self)@ == old(self)@.store(dst_pa as int, zeros(len as nat)),
    {
        let off = (dst_pa - self.base as u64) as usize;
        let ghost before = self@;
        let total = self.mem.len();
        let mut i: usize = 0;
        while i < len
            invariant
                i <= len,
                total == self.mem@.len(),
                off + len <= self.mem@.len(),
                self.base == before.base,
                self.next == before.next,
                self.mem@ == overlay(before.bytes, off as int, zeros(i as nat)),
            decreases len - i,
        {
            self.mem.set(off + i, 0);
            assert(self.mem@ =~= overlay(before.bytes, off as int, zeros((i + 1) as nat)));
            i += 1;
        }
        assert(before.bytes =~= overlay(before.bytes, off as int, zeros(0)));
    }
}

/// Flag bits that a leaf needs for a load by a user program: V, R, U, A.
pub const USER_READ: u64 = 0x53;

/// Flag bits that a leaf needs for a store by a user program: V, W, U, A, D.
pub const USER_WRITE: u64 = 0xd5;

/// Whether a leaf with these flags lets a user program load, or store.
pub open spec fn access_ok(flags: u64, write: bool) -> bool {
    if write {
        flags & 0xd5 == 0xd5
    } else {
        flags & 0x53 == 0x53
    }
}

/// The frame behind the page of a user address: the physical address of its
/// first byte, where the kernel's tables map the page with a 4 KiB leaf that
/// permits the access and the frame lies in the pool.
pub open spec fn user_page(pt: Tables, fr: Frames, va: usize, write: bool) -> Option<int> {
    if pt.root == 0 {
        None
    } else {
        match pt.walk(pt.root as int, va) {
            Some(l) => if l.level == 0 && access_ok(pte_flags(l.pte), write) && fr.contains(
                pte_addr(l.pte) as int,
                4096,
            ) {
                Some(pte_addr(l.pte) as int)
            } else {
                None
            },
            None => None,
        }
    }
}

/// How many of `len` bytes from `va` on lie in the page of `va`.
pub open spec fn page_cap(va: usize, len: usize) -> usize {
    if len as int <= 4096 - va as int % 4096 {
        len
    } else {
        (4096 - va as int % 4096) as usize
    }
}

/// What a user program has at `len` bytes from `va` on, all inside one page;
/// `None` where it may not load from that page.
pub open spec fn user_load(pt: Tables, fr: Frames, va: usize, len: int) -> Option<Seq<u8>> {
    match user_page(pt, fr, va, false) {
        Some(pa) => Some(fr.read(pa + va as int % 4096, len)),
        None => None,
    }
}

/// What a user program has at `len` bytes from `va` on, page by page; `None`
/// where it may not load from one of the pages.
#[verifier::opaque]
pub open spec fn user_load_all(pt: Tables, fr: Frames, va: int, len: nat) -> Option<Seq<u8>>
    decreases len,
{
    if len == 0 {
        Some(Seq::empty())
    } else if va < 0 || va > usize::MAX || len > usize::MAX {
        None
    } else {
        let n = page_cap(va as usize, len as usize) as int;
        match user_load(pt, fr, va as usize, n) {
            Some(head) => if 0 < n <= len {
                match user_load_all(pt, fr, va + n, (len - n) as nat) {
                    Some(tail) => Some(head + tail),
                    None => None,
                }
            } else {
                None
            },
            None => None,
        }
    }
}

/// The frames after `src` was stored at the user address `va`, page by page;
/// `None` where one of the pages does not permit the store.
#[verifier::opaque]
pub open spec fn user_store(pt: Tables, fr: Frames, va: int, src: Seq<u8>) -> Option<Frames>
    decreases src.len(),
{
    if src.len() == 0 {
        Some(fr)
    } else if va < 0 || va > usize::MAX {
        None
    } else {
        let n = page_cap(va as usize, src.len() as usize) as int;
        match user_page(pt, fr, va as usize, true) {
            Some(pa) => if 0 < n <= src.len() {
                user_store(pt, fr.store(pa + va % 4096, src.take(n)), va + n, src.skip(n))
            } else {
                None
            },
            None => None,
        }
    }
}

/// The frames after as much of `src` was stored at the user address `va` as
/// the pages permit: the store goes page by page and stops at the first page
/// that does not permit it, with what went before stored.
#[verifier::opaque]
pub open spec fn user_stored(pt: Tables, fr: Frames, va: int, src: Seq<u8>) -> Frames
    decreases src.len(),
{
    if src.len() == 0 || va < 0 || va > usize::MAX {
        fr
    } else {
        let n = page_cap(va as usize, src.len() as usize) as int;
        match user_page(pt, fr, va as usize, true) {
            Some(pa) => if 0 < n <= src.len() {
                user_stored(pt, fr.store(pa + va % 4096, src.take(n)), va + n, src.skip(n))
            } else {
                fr
            },
            None => fr,
        }
    }
}

/// Page tables and frames as the contracts see them.
pub struct Space {
    pub pt: Tables,
    pub fr: Frames,
}

impl Space {
    /// Whether tables and frames are sound.
    pub open spec fn wf(self) -> bool {
        self.pt.wf() && self.fr.wf()
    }

    /// The space after the page at `va` got the next free frame, mapped with
    /// `flags`; the error where no frame or no page for a table is left.
    pub open spec fn map_user_page(self, va: usize, flags: u64) -> Result<Space, MapError> {
        if self.fr.free_pages() == 0 {
            Err(MapError::OutOfFrames)
        } else if !self.pt.map_fits(self.pt.root as int, va, 0) {
            Err(MapError::OutOfPtPages)
        } else {
            Ok(
                Space {
                    pt: self.pt.map_leaf(
                        self.pt.root as int,
                        va,
                        0,
                        make_pte(self.fr.next as usize, flags),
                    ),
                    fr: Frames { next: self.fr.next + 4096, ..self.fr },
                },
            )
        }
    }

    /// The space with other bytes in its frames.
    pub open spec fn with_frames(self, fr: Frames) -> Space {
        Space { pt: self.pt, fr }
    }
}

/// Mapping a page keeps a sound space sound and its root in place.
pub proof fn lemma_map_user_page(sp: Space, va: usize, flags: u64)
    requires
        sp.wf(),
        sp.pt.root != 0,
    ensures
        sp.map_user_page(va, flags) is Ok ==> {
            let s2 = sp.map_user_page(va, flags).unwrap();
            &&& s2.wf()
            &&& s2.pt.root == sp.pt.root
            &&& s2.fr.contains(sp.fr.next as int, 4096)
            &&& s2.fr.bytes == sp.fr.bytes
            &&& s2.fr.base == sp.fr.base
            &&& s2.pt.installed(sp.pt, sp.pt.root as int, va, 0)
            &&& s2.pt.slot_entry(sp.pt.root as int, va, 0) == Some(make_pte(sp.fr.next as usize, flags))
        },
{
    if sp.map_user_page(va, flags) is Ok {
        crate::sv39::lemma_map_leaf(
            sp.pt,
            sp.pt.root as int,
            va,
            0,
            make_pte(sp.fr.next as usize, flags),
        );
    }
}

/// Bytes have no place beyond the address space.
pub proof fn lemma_user_load_edge(pt: Tables, fr: Frames, va: int, len: nat)
    requires
        len > 0,
        va < 0 || va > usize::MAX,
    ensures
        user_load_all(pt, fr, va, len) is None,
{
    reveal(user_load_all);
}

/// What was loaded is as long as was asked for.
pub proof fn lemma_user_load_len(pt: Tables, fr: Frames, va: int, len: nat)
    ensures
        user_load_all(pt, fr, va, len) is Some ==> user_load_all(pt, fr, va, len).unwrap().len() == len,
    decreases len,
{
    reveal(user_load_all);
    if len > 0 && 0 <= va <= usize::MAX && len <= usize::MAX {
        let n = page_cap(va as usize, len as usize) as int;
        if 0 < n <= len {
            lemma_user_load_len(pt, fr, va + n, (len - n) as nat);
        }
    }
}

/// Storing nothing changes nothing, and bytes have no place below address 0.
pub proof fn lemma_user_store_edge(pt: Tables, fr: Frames, va: int, src: Seq<u8>)
    ensures
        src.len() == 0 ==> user_store(pt, fr, va, src) == Some(fr),
        src.len() > 0 && va < 0 ==> user_store(pt, fr, va, src) is None,
{
    reveal(user_store);
}

/// A store changes bytes only: the pool stays where it is, as long as it
/// was, with the same frames handed out.
pub proof fn lemma_user_store_layout(pt: Tables, fr: Frames, va: int, src: Seq<u8>)
    ensures
        user_store(pt, fr, va, src) is Some ==> {
            let f = user_store(pt, fr, va, src).unwrap();
            f.base == fr.base && f.next == fr.next && f.bytes.len() == fr.bytes.len()
        },
    decreases src.len(),
{
    reveal(user_store);
    if src.len() > 0 && 0 <= va <= usize::MAX {
        let n = page_cap(va as usize, src.len() as usize) as int;
        match user_page(pt, fr, va as usize, true) {
            Some(pa) => {
                if 0 < n <= src.len() {
                    lemma_user_store_layout(pt, fr.store(pa + va % 4096, src.take(n)), va + n, src.skip(n));
                }
            },
            None => {},
        }
    }
}

/// A store that all its pages permit leaves what a store as far as the pages
/// permit leaves; a store of nothing, or below address 0, leaves the frames
/// as they are.
pub proof fn lemma_user_store_whole(pt: Tables, fr: Frames, va: int, src: Seq<u8>)
    ensures
        user_store(pt, fr, va, src) is Some ==> user_stored(pt, fr, va, src) == user_store(
            pt,
            fr,
            va,
            src,
        ).unwrap(),
        src.len() == 0 || va < 0 ==> user_stored(pt, fr, va, src) == fr,
    decreases src.len(),
{
    reveal(user_store);
    reveal(user_stored);
    if src.len() != 0 && 0 <= va <= usize::MAX {
        let n = page_cap(va as usize, src.len() as usize) as int;
        match user_page(pt, fr, va as usize, true) {
            Some(pa) => {
                if 0 < n <= src.len() {
                    lemma_user_store_whole(pt, fr.store(pa + va % 4096, src.take(n)), va + n, src.skip(n));
                }
            },
            None => {},
        }
    }
}

/// The page tables of the kernel together with the frames of user programs.
pub struct AddressSpace {
    pub pt: PageTables,
    pub frames: UserFrames,
}

impl View for AddressSpace {
    type V = Space;

    open spec fn view(&self) -> Space {
        Space { pt: self.pt@, fr: self.frames@ }
    }
}

impl AddressSpace {
    /// Whether tables and frames are sound.
    pub open spec fn wf(&self) -> bool {
        self.pt@.wf() && self.frames@.wf()
    }

    /// How many of `len` bytes from `va` on lie in the page of `va`.
    pub fn cap_to_page(va: usize, len: usize) -> (r: usize)
        ensures
            r == page_cap(va, len),
            r <= len,
            r <= 4096,
            va as int % 4096 + r <= 4096,
            len > 0 ==> r > 0,
    {
        let room = 4096 - va % 4096;
        if len <= room {
            len
        } else {
            room
        }
    }

    /// Physical address of the frame behind the page of a user address.
    pub fn user_page_pa(&self, va: usize, write: bool) -> (r: Option<u64>)
        requires
            self.wf(),
        ensures
            r is Some == user_page(self.pt@, self.frames@, va, write) is Some,
            r is Some ==> r.unwrap() == user_page(self.pt@, self.frames@, va, write).unwrap(),
    {
        let root = self.pt.root_pt();
        if root == 0 {
            return None;
        }
        match self.pt.walk(root, va) {
            None => None,
            Some((pte, level)) => {
                let mask: u64 = if write {
                    USER_WRITE
                } else {
                    USER_READ
                };
                let pa = pte_address(pte);
                if level == 0 && (pte & 0x3ff) & mask == mask && self.frames.contains(pa, 4096) {
                    Some(pa)
                } else {
                    None
                }
            },
        }
    }

    /// Loads `len` bytes from the user address `va`, all inside one page.
    pub fn read_user_in_page(&self, va: usize, len: usize) -> (r: Option<Vec<u8>>)
        requires
            self.wf(),
            va as int % 4096 + len <= 4096,
        ensures
            r is Some == user_load(self.pt@, self.frames@, va, len as int) is Some,
            r is Some ==> r.unwrap()@ == user_load(self.pt@, self.frames@, va, len as int).unwrap(),
    {
        match self.user_page_pa(va, false) {
            None => None,
            Some(pa) => Some(self.frames.read_pa(pa + (va % 4096) as u64, len)),
        }
    }

    /// Loads `len` bytes from the user address `va`, across pages.
    pub fn read_user_bytes(&self, va: usize, len: usize) -> (r: Option<Vec<u8>>)
        requires
            self.wf(),
        ensures
            r is Some == user_load_all(self.pt@, self.frames@, va as int, len as nat) is Some,
            r is Some ==> r.unwrap()@ == user_load_all(
                self.pt@,
                self.frames@,
                va as int,
                len as nat,
            ).unwrap(),
    {
        reveal(user_load_all);
        let ghost goal = user_load_all(self.pt@, self.frames@, va as int, len as nat);
        let mut out: Vec<u8> = Vec::new();
        let mut i: usize = 0;
        proof {
            match goal {
                Some(rest) => {
                    assert(out@ + rest =~= rest);
                },
                None => {},
            }
        }
        while i < len
            invariant
                i <= len,
                self.wf(),
                goal == user_load_all(self.pt@, self.frames@, va as int, len as nat),
                match user_load_all(self.pt@, self.frames@, va + i, (len - i) as nat) {
                    Some(rest) => goal == Some(out@ + rest),
                    None => goal is None,
                },
            decreases len - i,
        {
            reveal(user_load_all);
            if i > usize::MAX - va {
                return None;
            }
            let cur = va + i;
            let n = Self::cap_to_page(cur, len - i);
            match self.read_user_in_page(cur, n) {
                None => {
                    return None;
                },
                Some(mut chunk) => {
                    proof {
                        let head = chunk@;
                        match user_load_all(self.pt@, self.frames@, cur + n, (len - i - n) as nat) {
                            Some(tail) => {
                                assert(out@ + (head + tail) =~= (out@ + head) + tail);
                            },
                            None => {},
                        }
                    }
                    out.append(&mut chunk);
                },
            }
            i += n;
        }
        proof {
            assert(out@ + Seq::<u8>::empty() =~= out@);
        }
        Some(out)
    }

    /// Stores `src` at the user address `va`, all inside one page. Nothing
    /// changes where the page does not permit it.
    pub fn write_user_in_page(&mut self, va: usize, src: &[u8]) -> (ok: bool)
        requires
            old(self).wf(),
            va as int % 4096 + src@.len() <= 4096,
        ensures
            final(self).wf(),
            final(self).pt@ == old(self).pt@,
            ok == user_page(old(self).pt@, old(self).frames@, va, true) is Some,
            ok ==> final(self).frames@ == old(self).frames@.store(
                user_page(old(self).pt@, old(self).frames@, va, true).unwrap() + va as int % 4096,
                src@,
            ),
            !ok ==> final(self).frames@ == old(self).frames@,
    {
        match self.user_page_pa(va, true) {
            None => false,
            Some(pa) => {
                self.frames.memcpy_pa(pa + (va % 4096) as u64, src);
                true
            },
        }
    }

    /// Stores `src` at the user address `va`, across pages. Stops at the first
    /// page that does not permit it; what was stored before stays stored.
    pub fn write_user_bytes(&mut self, va: usize, src: &[u8]) -> (ok: bool)
        requires
            old(self).wf(),
        ensures
            final(self).wf(),
            final(self).pt@ == old(self).pt@,
            final(self).frames@.base == old(self).frames@.base,
            final(self).frames@.next == old(self).frames@.next,
            final(self).frames@.bytes.len() == old(self).frames@.bytes.len(),
            ok == user_store(old(self).pt@, old(self).frames@, va as int, src@) is Some,
            ok ==> final(self).frames@ == user_store(
                old(self).pt@,
                old(self).frames@,
                va as int,
                src@,
            ).unwrap(),
            final(self).frames@ == user_stored(old(self).pt@, old(self).frames@, va as int, src@),
    {
        reveal(user_store);
        reveal(user_stored);
        let len = src.len();
        let ghost pt = self.pt@;
        let ghost goal = user_store(self.pt@, self.frames@, va as int, src@);
        let ghost left = user_stored(self.pt@, self.frames@, va as int, src@);
        let mut i: usize = 0;
        proof {
            assert(src@.skip(0) =~= src@);
        }
        while i < len
            invariant
                i <= len,
                len == src@.len(),
                self.wf(),
                self.pt@ == pt,
                pt == old(self).pt@,
                goal == user_store(old(self).pt@, old(self).frames@, va as int, src@),
                left == user_stored(old(self).pt@, old(self).frames@, va as int, src@),
                user_stored(pt, self.frames@, va + i, src@.skip(i as int)) == left,
                self.frames@.base == old(self).frames@.base,
                self.frames@.next == old(self).frames@.next,
                self.frames@.bytes.len() == old(self).frames@.bytes.len(),
                user_store(pt, self.frames@, va + i, src@.skip(i as int)) == goal,
            decreases len - i,
        {
            reveal(user_store);
            reveal(user_stored);
            if i > usize::MAX - va {
                return false;
            }
            let cur = va + i;
            let n = Self::cap_to_page(cur, len - i);
            let chunk = slice_subrange(src, i, i + n);
            proof {
                assert(chunk@ =~= src@.skip(i as int).take(n as int));
                assert(src@.skip(i as int).skip(n as int) =~= src@.skip(i + n));
            }
            if !self.write_user_in_page(cur, chunk) {
                return false;
            }
            i += n;
        }
        proof {
            reveal(user_stored);
        }
        true
    }

    /// Gives the page at `va_page` a fresh frame, mapped with `flags`, and
    /// returns the frame's physical address. Nothing changes on failure.
    pub fn map_user_page(&mut self, va_page: usize, flags: u64) -> (r: Result<usize, MapError>)
        requires
            old(self).wf(),
            old(self).pt@.root != 0,
        ensures
            final(self).wf(),
            match r {
                Ok(pa) => {
                    &&& old(self)@.map_user_page(va_page, flags) == Ok::<Space, MapError>(final(self)@)
                    &&& pa == old(self).frames@.next
                    &&& pa % 4096 == 0
                    &&& final(self).frames@.contains(pa as int, 4096)
                },
                Err(e) => {
                    &&& old(self)@.map_user_page(va_page, flags) == Err::<Space, MapError>(e)
                    &&& final(self)@ == old(self)@
                },
            },
    {
        if self.frames.user_pages_free() == 0 {
            return Err(MapError::OutOfFrames);
        }
        let root = self.pt.root_pt();
        let pa = self.frames.next_frame();
        match self.pt.map_4k(root, va_page, pa, flags) {
            Err(e) => Err(MapError::OutOfPtPages),
            Ok(()) => {
                let got = self.frames.alloc_user_page();
                Ok(got)
            },
        }
    }
}

} // verus!
