//! Sv39 paging: address arithmetic, page-table entries and the two frame pools.

use vstd::prelude::*;

verus! {

/// Entry is valid.
pub const PTE_V: u64 = 0x01;
/// Readable.
pub const PTE_R: u64 = 0x02;
/// Writable.
pub const PTE_W: u64 = 0x04;
/// Executable.
pub const PTE_X: u64 = 0x08;
/// Accessible from user mode.
pub const PTE_U: u64 = 0x10;
/// Global mapping.
pub const PTE_G: u64 = 0x20;
/// Accessed.
pub const PTE_A: u64 = 0x40;
/// Dirty.
pub const PTE_D: u64 = 0x80;

/// Bytes that a leaf of level 0 maps.
pub const SIZE_4K: usize = 0x1000;
/// Bytes that a leaf of level 1 maps.
pub const SIZE_2M: usize = 0x20_0000;
/// Bytes that a leaf of level 2 maps.
pub const SIZE_1G: usize = 0x4000_0000;

/// Where DRAM starts.
pub const DRAM_BASE: usize = 0x8000_0000;
/// Bytes of DRAM.
pub const DRAM_SIZE: usize = 0x0800_0000;
/// Where user addresses start.
pub const USER_VA_BASE: usize = 0x4000_0000;
/// Where the frames of user programs start: 1 MiB and 64 KiB below the
/// top of DRAM.
pub const USER_PA_POOL_START: usize = 0x87EF_0000;
/// Where the frames of user programs end: 64 KiB below the top of DRAM.
pub const USER_PA_POOL_END: usize = 0x87FF_0000;
/// Where user code is linked.
pub const USER_CODE_VA: usize = 0x4000_0000;
/// The page above the first page of user code.
pub const USER_STACK_VA: usize = 0x4000_1000;
/// Where the UART's registers lie.
pub const UART0: usize = 0x1000_0000;

/// Physical page number of a physical address.
pub open spec fn spec_ppn(pa: usize) -> u64 {
    (pa as u64) >> 12
}

/// One of the three 9-bit table indices of a virtual address; level 0 selects
/// the 4 KiB leaf, level 2 the root entry.
pub open spec fn spec_vpn(va: usize, level: int) -> usize {
    if level == 0 {
        (((va as u64) >> 12) & 0x1ff) as usize
    } else if level == 1 {
        (((va as u64) >> 21) & 0x1ff) as usize
    } else {
        (((va as u64) >> 30) & 0x1ff) as usize
    }
}

/// Physical page number of a physical address.
pub fn ppn(pa: usize) -> (r: u64)
    ensures
        r == spec_ppn(pa),
        r as int == pa as int / 4096,
{
    let p: u64 = pa as u64;
    assert((p >> 12) == p / 4096) by (bit_vector);
    p >> 12
}

/// The three table indices of a virtual address, lowest level first.
pub fn vpn_indices(va: usize) -> (r: [usize; 3])
    ensures
        r[0] == spec_vpn(va, 0),
        r[1] == spec_vpn(va, 1),
        r[2] == spec_vpn(va, 2),
        r[0] < 512 && r[1] < 512 && r[2] < 512,
        r[0] as int == (va as int / 0x1000) % 512,
        r[1] as int == (va as int / 0x20_0000) % 512,
        r[2] as int == (va as int / 0x4000_0000) % 512,
{
    let v: u64 = va as u64;
    assert(((v >> 12) & 0x1ff) == (v / 0x1000) % 512) by (bit_vector);
    assert(((v >> 21) & 0x1ff) == (v / 0x20_0000) % 512) by (bit_vector);
    assert(((v >> 30) & 0x1ff) == (v / 0x4000_0000) % 512) by (bit_vector);
    [((v >> 12) & 0x1ff) as usize, ((v >> 21) & 0x1ff) as usize, ((v >> 30) & 0x1ff) as usize]
}

/// Joining the three indices of an address in the 39-bit space gives back the
/// address with its page offset cleared.
pub proof fn lemma_vpn_indices_rebuild(va: usize)
    requires
        va < 0x80_0000_0000u64,
    ensures
        spec_vpn(va, 0) < 512,
        spec_vpn(va, 1) < 512,
        spec_vpn(va, 2) < 512,
        ((spec_vpn(va, 2) as u64) << 30) | ((spec_vpn(va, 1) as u64) << 21) | ((spec_vpn(va, 0) as u64)
            << 12) == (va as u64) & !0xFFFu64,
{
    let v: u64 = va as u64;
    assert(((v >> 12) & 0x1ff) < 512) by (bit_vector);
    assert(((v >> 21) & 0x1ff) < 512) by (bit_vector);
    assert(((v >> 30) & 0x1ff) < 512) by (bit_vector);
    assert(v < 0x80_0000_0000u64 ==> ((((v >> 30) & 0x1ff) << 30) | (((v >> 21) & 0x1ff) << 21) | (((v
        >> 12) & 0x1ff) << 12)) == v & !0xFFFu64) by (bit_vector);
}

/// First root entry that serves user addresses.
pub const USER_L2_FIRST: usize = 1;

/// First root entry past those that serve user addresses.
pub const USER_L2_END: usize = 2;

/// Entries in one page-table page.
pub const ENTRIES: usize = 512;

/// Physical addresses have 56 bits.
pub const PA_LIMIT: u64 = 0x100_0000_0000_0000;

/// Whether an entry is valid.
pub open spec fn pte_valid(e: u64) -> bool {
    e & 0x01 != 0
}

/// A leaf grants at least one of read, write, execute.
pub open spec fn pte_leaf(e: u64) -> bool {
    e & 0x0e != 0
}

/// A valid entry without permissions points to the next table.
pub open spec fn pte_is_table(e: u64) -> bool {
    pte_valid(e) && !pte_leaf(e)
}

/// The physical address that an entry holds in bits 10..53.
pub open spec fn pte_addr(e: u64) -> u64 {
    ((e >> 10) & 0xfff_ffff_ffff) << 12
}

/// The flag bits 0..9 of an entry.
pub open spec fn pte_flags(e: u64) -> u64 {
    e & 0x3ff
}

/// The entry for a physical address and flag bits.
pub open spec fn make_pte(pa: usize, flags: u64) -> u64 {
    (spec_ppn(pa) << 10) | flags
}

/// Flag bits that describe a valid leaf and stay clear of the address bits.
pub open spec fn leaf_flags(flags: u64) -> bool {
    flags < 0x400 && flags & 0x01 != 0 && flags & 0x0e != 0
}

/// Whether an entry is valid.
pub fn pte_is_valid(e: u64) -> (r: bool)
    ensures
        r == pte_valid(e),
{
    e & 0x01 != 0
}

/// Whether an entry grants a permission, as a leaf does.
pub fn pte_is_leaf(e: u64) -> (r: bool)
    ensures
        r == pte_leaf(e),
{
    e & 0x0e != 0
}

/// The physical address that an entry holds.
pub fn pte_address(e: u64) -> (r: u64)
    ensures
        r == pte_addr(e),
        r < PA_LIMIT,
        r % 4096 == 0,
{
    assert((((e >> 10) & 0xfff_ffff_ffff) << 12) < 0x100_0000_0000_0000u64) by (bit_vector);
    assert((((e >> 10) & 0xfff_ffff_ffff) << 12) % 4096 == 0) by (bit_vector);
    ((e >> 10) & 0xfff_ffff_ffff) << 12
}

/// The entry for a physical address and flag bits.
pub fn pte_new(pa: usize, flags: u64) -> (r: u64)
    ensures
        r == make_pte(pa, flags),
{
    (ppn(pa) << 10) | flags
}

/// An entry made of a page-aligned 56-bit address and leaf flags gives both back.
pub proof fn lemma_make_pte_leaf(pa: usize, flags: u64)
    requires
        pa < PA_LIMIT,
        leaf_flags(flags),
    ensures
        pte_valid(make_pte(pa, flags)),
        pte_leaf(make_pte(pa, flags)),
        pte_flags(make_pte(pa, flags)) == flags,
        pte_addr(make_pte(pa, flags)) >> 12 == spec_ppn(pa),
        pa % 4096 == 0 ==> pte_addr(make_pte(pa, flags)) == pa,
{
    let p: u64 = pa as u64;
    assert(p < 0x100_0000_0000_0000u64 && flags < 0x400 && flags & 0x01 != 0 && flags & 0x0e != 0 ==> {
        let e = ((p >> 12) << 10) | flags;
        &&& e & 0x01 != 0
        &&& e & 0x0e != 0
        &&& e & 0x3ff == flags
        &&& (((e >> 10) & 0xfff_ffff_ffff) << 12) >> 12 == p >> 12
        &&& (p % 4096 == 0 ==> ((e >> 10) & 0xfff_ffff_ffff) << 12 == p)
    }) by (bit_vector);
}

/// An entry made with a permission among its flags is a leaf, no pointer.
pub proof fn lemma_leaf_pte(pa: usize, flags: u64)
    requires
        pte_leaf(flags),
    ensures
        pte_leaf(make_pte(pa, flags)),
        !pte_is_table(make_pte(pa, flags)),
{
    let p: u64 = spec_ppn(pa);
    assert(flags & 0x0e != 0 ==> ((p << 10) | flags) & 0x0e != 0) by (bit_vector);
}

proof fn lemma_make_pte_table(p: u64)
    requires
        p < 0x100_0000_0000_0000u64,
        p % 4096 == 0,
    ensures
        ({
            let e = ((p >> 12) << 10) | 0x01;
            &&& e & 0x01 != 0
            &&& e & 0x0e == 0
            &&& ((e >> 10) & 0xfff_ffff_ffff) << 12 == p
        }),
        p <= usize::MAX ==> pte_is_table(make_pte(p as usize, PTE_V)) && pte_addr(
            make_pte(p as usize, PTE_V),
        ) == p,
{
    assert(p < 0x100_0000_0000_0000u64 && p % 4096 == 0 ==> {
        let e = ((p >> 12) << 10) | 0x01;
        &&& e & 0x01 != 0
        &&& e & 0x0e == 0
        &&& ((e >> 10) & 0xfff_ffff_ffff) << 12 == p
    }) by (bit_vector);
}

/// The page-table pool as the contracts see it.
pub struct Tables {
    /// All entries of the pool, 512 for each page.
    pub entries: Seq<u64>,
    /// Pages handed out so far.
    pub used: nat,
    /// Physical address of the pool's first page.
    pub base: nat,
    /// Physical address of the kernel's root table, 0 before there is one.
    pub root: nat,
    /// Of each handed-out page, the level it serves at: 2 for a root.
    pub level: Seq<nat>,
    /// Of each handed-out page, the table and index of the entry it was made for.
    pub parent: Seq<(int, int)>,
}

/// What a walk finds: the leaf entry and the level it stands at.
pub struct Leaf {
    pub pte: u64,
    pub level: nat,
}

impl Tables {
    /// Pages in the pool.
    pub open spec fn cap(self) -> nat {
        (self.entries.len() / 512) as nat
    }

    /// Entry `i` of table `t`.
    pub open spec fn entry(self, t: int, i: int) -> u64 {
        self.entries[t * 512 + i]
    }

    /// The handed-out page at a physical address.
    pub open spec fn table_of(self, pa: int) -> Option<int> {
        if self.base <= pa < self.base + self.used * 4096 && (pa - self.base) % 4096 == 0 {
            Some((pa - self.base) / 4096)
        } else {
            None
        }
    }

    /// Physical address of pool page `t`.
    pub open spec fn table_pa(self, t: int) -> int {
        self.base + t * 4096
    }

    /// The table that an entry of a table points to.
    pub open spec fn child(self, t: int, i: int) -> Option<int> {
        if pte_is_table(self.entry(t, i)) {
            self.table_of(pte_addr(self.entry(t, i)) as int)
        } else {
            None
        }
    }

    /// Whether an address is that of a root table.
    pub open spec fn is_root(self, root: int) -> bool {
        self.table_of(root) is Some && self.level[self.table_of(root).unwrap()] == 2
    }

    /// Whether an entry, if it is a pointer in a table above the lowest
    /// level, leads to a handed-out page one level down that was made for it.
    pub open spec fn entry_ok(self, t: int, i: int) -> bool {
        self.level[t] >= 1 && pte_is_table(self.entry(t, i)) ==> {
            &&& self.child(t, i) is Some
            &&& self.level[self.child(t, i).unwrap()] + 1 == self.level[t]
            &&& self.parent[self.child(t, i).unwrap()] == (t, i)
        }
    }

    /// The pool is laid out soundly, and every pointer in a table leads to a
    /// handed-out page one level down that was made for that entry alone.
    pub open spec fn wf(self) -> bool {
        &&& self.entries.len() == self.cap() * 512
        &&& self.used <= self.cap()
        &&& self.base % 4096 == 0
        &&& self.base > 0
        &&& self.base + self.cap() * 4096 <= PA_LIMIT
        &&& self.base + self.cap() * 4096 <= usize::MAX
        &&& self.level.len() == self.used
        &&& self.parent.len() == self.used
        &&& (self.root == 0 || self.is_root(self.root as int))
        &&& forall|t: int| 0 <= t < self.used ==> #[trigger] self.level[t] <= 2
        &&& forall|t: int, i: int|
            0 <= t < self.used && 0 <= i < 512 ==> #[trigger] self.entry_ok(t, i)
    }

    /// The root entry that translation reads for an address.
    pub open spec fn slot2(self, root: int, va: usize) -> Option<(int, int)> {
        match self.table_of(root) {
            Some(r) => Some((r, spec_vpn(va, 2) as int)),
            None => None,
        }
    }

    /// The entry read at level 1; `None` where the root entry is no pointer.
    pub open spec fn slot1(self, root: int, va: usize) -> Option<(int, int)> {
        match self.slot2(root, va) {
            Some((t, i)) => match self.child(t, i) {
                Some(c) => Some((c, spec_vpn(va, 1) as int)),
                None => None,
            },
            None => None,
        }
    }

    /// The entry read at level 0; `None` where an entry above is no pointer.
    pub open spec fn slot0(self, root: int, va: usize) -> Option<(int, int)> {
        match self.slot1(root, va) {
            Some((t, i)) => match self.child(t, i) {
                Some(c) => Some((c, spec_vpn(va, 0) as int)),
                None => None,
            },
            None => None,
        }
    }

    /// The leaf at a slot, if the entry there is one.
    pub open spec fn leaf_at(self, slot: Option<(int, int)>, level: nat) -> Option<Leaf> {
        match slot {
            Some((t, i)) => if pte_valid(self.entry(t, i)) && pte_leaf(self.entry(t, i)) {
                Some(Leaf { pte: self.entry(t, i), level })
            } else {
                None
            },
            None => None,
        }
    }

    /// The leaf that translation reaches for an address: the first leaf on the
    /// way down from the root, `None` where the way ends in an entry that is
    /// neither a leaf nor a pointer.
    pub open spec fn walk(self, root: int, va: usize) -> Option<Leaf> {
        if self.leaf_at(self.slot2(root, va), 2) is Some {
            self.leaf_at(self.slot2(root, va), 2)
        } else if self.leaf_at(self.slot1(root, va), 1) is Some {
            self.leaf_at(self.slot1(root, va), 1)
        } else {
            self.leaf_at(self.slot0(root, va), 0)
        }
    }

    /// The physical address that a virtual address translates to.
    pub open spec fn translate(self, root: int, va: usize) -> Option<int> {
        match self.walk(root, va) {
            None => None,
            Some(l) => Some(pte_addr(l.pte) as int + page_offset(va, l.level)),
        }
    }

    /// The slot read at a level: 2 is the root's.
    pub open spec fn slot(self, root: int, va: usize, level: nat) -> Option<(int, int)> {
        if level >= 2 {
            self.slot2(root, va)
        } else if level == 1 {
            self.slot1(root, va)
        } else {
            self.slot0(root, va)
        }
    }

    /// The entry that stands where the leaf of the given level for an address
    /// belongs, whatever it holds; `None` where the tables above it are missing.
    pub open spec fn slot_entry(self, root: int, va: usize, level: nat) -> Option<u64> {
        match self.slot(root, va, level) {
            Some((t, i)) => Some(self.entry(t, i)),
            None => None,
        }
    }

    /// How many tables are missing between the root and the leaf of the given
    /// level for an address.
    pub open spec fn tables_needed(self, root: int, va: usize, level: nat) -> nat {
        if level >= 2 || self.slot(root, va, level) is Some {
            0
        } else if level == 1 || self.slot1(root, va) is Some {
            1
        } else {
            2
        }
    }

    /// Whether `va2` was translated by a larger page that also covers `va` and
    /// stands above the given level, so that a mapping of `va` at that level
    /// takes its place.
    pub open spec fn displaced(self, root: int, va: usize, level: nat, va2: usize) -> bool {
        match self.walk(root, va2) {
            Some(l) => l.level > level && same_region(va, va2, l.level),
            None => false,
        }
    }

    /// The same pool with more pages handed out, the old pages keeping their
    /// place in the tree.
    pub open spec fn extends(self, old: Tables) -> bool {
        &&& self.entries.len() == old.entries.len()
        &&& self.base == old.base
        &&& self.root == old.root
        &&& self.used >= old.used
        &&& forall|t: int|
            0 <= t < old.used ==> #[trigger] self.level[t] == old.level[t] && self.parent[t]
                == old.parent[t]
    }

    /// Whether an entry is one of those that translation of `va` reads down
    /// to the given level.
    pub open spec fn on_path(self, root: int, va: usize, level: nat, t: int, i: int) -> bool {
        self.slot2(root, va) == Some((t, i)) || self.slot1(root, va) == Some((t, i)) || (level == 0
            && self.slot0(root, va) == Some((t, i)))
    }

    /// `self` came from `old` by making sure that entry `i` of table `t` points
    /// to a table, `c`: a fresh, empty one where the entry was no pointer.
    pub open spec fn grew_child(self, old: Tables, t: int, i: int, c: int) -> bool {
        &&& self.wf()
        &&& self.extends(old)
        &&& self.child(t, i) == Some(c)
        &&& 0 <= c < self.used
        &&& self.level[c] + 1 == self.level[t]
        &&& old.child(t, i) is Some ==> self == old
        &&& old.child(t, i) is None ==> {
            &&& c == old.used
            &&& self.used == old.used + 1
            &&& forall|j: int| 0 <= j < 512 ==> #[trigger] self.entry(c, j) == 0
            &&& forall|t2: int, i2: int|
                0 <= t2 < old.used && 0 <= i2 < 512 && !(t2 == t && i2 == i)
                    ==> #[trigger] self.entry(t2, i2) == old.entry(t2, i2)
        }
    }

    /// `self` came from `old` by installing a leaf for `va` at `level`: tables
    /// were added where the way down lacked them, and nothing else changed.
    #[verifier::opaque]
    pub open spec fn installed(self, old: Tables, root: int, va: usize, level: nat) -> bool {
        &&& old.wf()
        &&& self.wf()
        &&& old.is_root(root)
        &&& self.extends(old)
        &&& level <= 1
        &&& self.slot(root, va, level) is Some
        &&& old.slot1(root, va) is None ==> self.slot1(root, va).unwrap().0 >= old.used
        &&& level == 0 && old.slot0(root, va) is None ==> self.slot0(root, va).unwrap().0 >= old.used
        &&& level == 0 ==> pte_is_table(self.entry(self.slot1(root, va).unwrap().0, self.slot1(root, va).unwrap().1))
        &&& pte_is_table(self.entry(self.slot2(root, va).unwrap().0, self.slot2(root, va).unwrap().1))
        &&& forall|t: int, i: int|
            0 <= t < old.used && 0 <= i < 512 && !self.on_path(root, va, level, t, i)
                ==> #[trigger] self.entry(t, i) == old.entry(t, i)
        &&& forall|t: int, i: int|
            old.used <= t < self.used && 0 <= i < 512 && !self.on_path(root, va, level, t, i)
                ==> #[trigger] self.entry(t, i) == 0
        &&& forall|t: int, i: int|
            0 <= t < old.used && 0 <= i < 512 && old.level[t] >= 1 && old.child(t, i) is Some
                && !(self.slot(root, va, level) == Some((t, i))) ==> #[trigger] self.entry(t, i)
                == old.entry(t, i)
    }

    /// The tables after entry `i` of table `t` was set to `e`.
    pub open spec fn set(self, t: int, i: int, e: u64) -> Tables {
        Tables { entries: self.entries.update(t * 512 + i, e), ..self }
    }

    /// The tables after the next page of the pool was handed out, zeroed, to
    /// serve at `level` for the entry `parent`.
    pub open spec fn grown(self, level: nat, parent: (int, int)) -> Tables {
        Tables {
            entries: Seq::new(
                self.entries.len(),
                |k: int|
                    if self.used * 512 <= k < self.used * 512 + 512 {
                        0u64
                    } else {
                        self.entries[k]
                    },
            ),
            used: self.used + 1,
            level: self.level.push(level),
            parent: self.parent.push(parent),
            ..self
        }
    }

    /// The tables after entry `i` of table `t` was made to point to a table:
    /// unchanged where it did, else with a fresh, empty table behind it.
    pub open spec fn with_child(self, t: int, i: int) -> Tables {
        if self.child(t, i) is Some {
            self
        } else {
            self.grown((self.level[t] - 1) as nat, (t, i)).set(
                t,
                i,
                make_pte(self.table_pa(self.used as int) as usize, PTE_V),
            )
        }
    }

    /// The tables after the entry `e` was installed as the leaf of the given
    /// level for `va`, with the tables on the way down made where they were
    /// missing.
    #[verifier::opaque]
    pub open spec fn map_leaf(self, root: int, va: usize, level: nat, e: u64) -> Tables {
        let r = self.table_of(root).unwrap();
        let s1 = self.with_child(r, spec_vpn(va, 2) as int);
        let t1 = s1.child(r, spec_vpn(va, 2) as int).unwrap();
        if level >= 1 {
            s1.set(t1, spec_vpn(va, 1) as int, e)
        } else {
            let s2 = s1.with_child(t1, spec_vpn(va, 1) as int);
            let t0 = s2.child(t1, spec_vpn(va, 1) as int).unwrap();
            s2.set(t0, spec_vpn(va, 0) as int, e)
        }
    }

    /// The tables after the root entries that serve user addresses were
    /// cleared.
    pub open spec fn cleared(self, root: int) -> Tables {
        self.set(self.table_of(root).unwrap(), USER_L2_FIRST as int, 0)
    }

    /// Whether the pool has the pages left that installing a leaf of the
    /// given level for `va` needs.
    pub open spec fn map_fits(self, root: int, va: usize, level: nat) -> bool {
        self.tables_needed(root, va, level) <= self.cap() - self.used
    }

    /// The tables differ from `old` in nothing but content of entries.
    pub open spec fn same_layout(self, old: Tables) -> bool {
        &&& self.entries.len() == old.entries.len()
        &&& self.base == old.base
        &&& self.root == old.root
    }
}

/// Offset of an address inside the page of a leaf at the given level.
pub open spec fn page_offset(va: usize, level: nat) -> int {
    if level == 0 {
        va as int % 0x1000
    } else if level == 1 {
        va as int % 0x20_0000
    } else {
        va as int % 0x4000_0000
    }
}

/// Two addresses lie in the same page of the size that a leaf of the given
/// level maps.
pub open spec fn same_region(a: usize, b: usize, level: nat) -> bool {
    spec_vpn(a, 2) == spec_vpn(b, 2) && (level <= 1 ==> spec_vpn(a, 1) == spec_vpn(b, 1)) && (level
        == 0 ==> spec_vpn(a, 0) == spec_vpn(b, 0))
}

/// Installing a leaf for `va` leaves the translation of every address outside
/// its page as it was, except under a larger page that the new tables replace:
/// there nothing is mapped any more.
pub proof fn lemma_install_frame(old: Tables, new: Tables, root: int, va: usize, level: nat, va2: usize)
    requires
        new.installed(old, root, va, level),
        !same_region(va, va2, level),
    ensures
        new.walk(root, va2) == (if old.displaced(root, va, level, va2) {
            None
        } else {
            old.walk(root, va2)
        }),
{
    reveal(Tables::installed);
    let r = old.table_of(root).unwrap();
    assert(new.table_of(root) == Some(r));
    let i2 = spec_vpn(va, 2) as int;
    let j2 = spec_vpn(va2, 2) as int;
    assert(0 <= i2 < 512 && 0 <= j2 < 512) by {
        lemma_vpn_bounds(va);
        lemma_vpn_bounds(va2);
    }
    lemma_vpn_bounds(va);
    lemma_vpn_bounds(va2);
    let i1 = spec_vpn(va, 1) as int;
    let j1 = spec_vpn(va2, 1) as int;
    let i0 = spec_vpn(va, 0) as int;
    let j0 = spec_vpn(va2, 0) as int;
    let t1 = new.slot1(root, va).unwrap().0;
    assert(new.entry_ok(r, i2));
    assert(old.entry_ok(r, i2));
    assert(old.entry_ok(r, j2));
    assert(new.entry_ok(r, j2));
    assert(new.level[r] == 2);
    assert(new.level[t1] == 1);
    if level == 0 {
        let t0 = new.slot0(root, va).unwrap().0;
        assert(new.entry_ok(t1, i1));
        assert(new.level[t0] == 0);
    }
    if j2 != i2 {
        // another root entry: untouched, and so is all below it
        assert(!new.on_path(root, va, level, r, j2));
        assert(new.entry(r, j2) == old.entry(r, j2));
        if old.child(r, j2) is Some {
            let c1 = old.child(r, j2).unwrap();
            assert(new.child(r, j2) == Some(c1));
            assert(c1 != t1);
            assert(old.entry_ok(c1, j1));
            assert(new.entry_ok(c1, j1));
            assert(!new.on_path(root, va, level, c1, j1));
            assert(new.entry(c1, j1) == old.entry(c1, j1));
            if old.child(c1, j1) is Some {
                let c0 = old.child(c1, j1).unwrap();
                assert(new.child(c1, j1) == Some(c0));
                assert(!new.on_path(root, va, level, c0, j0));
                assert(new.entry(c0, j0) == old.entry(c0, j0));
            }
        }
    } else if old.child(r, i2) is None {
        // the root entry was no pointer: a fresh level-1 table stands there now
        assert(t1 >= old.used);
        if level == 1 {
            assert(j1 != i1);
            assert(!new.on_path(root, va, level, t1, j1));
            assert(new.entry(t1, j1) == 0);
        } else if j1 != i1 {
            assert(!new.on_path(root, va, level, t1, j1));
            assert(new.entry(t1, j1) == 0);
        } else {
            let t0 = new.slot0(root, va).unwrap().0;
            assert(t0 >= old.used);
            assert(j0 != i0);
            assert(!new.on_path(root, va, level, t0, j0));
            assert(new.entry(t0, j0) == 0);
        }
        assert(0u64 & 0x01 == 0) by (bit_vector);
    } else {
        // the level-1 table was there already
        assert(new.entry(r, i2) == old.entry(r, i2));
        assert(old.child(r, i2) == Some(t1));
        assert(old.entry_ok(t1, j1));
        assert(new.entry_ok(t1, j1));
        assert(old.entry_ok(t1, i1));
        if j1 != i1 {
            assert(!new.on_path(root, va, level, t1, j1));
            assert(new.entry(t1, j1) == old.entry(t1, j1));
            if old.child(t1, j1) is Some {
                let c0 = old.child(t1, j1).unwrap();
                assert(new.child(t1, j1) == Some(c0));
                if level == 0 {
                    let t0 = new.slot0(root, va).unwrap().0;
                    assert(new.entry_ok(t1, i1));
                    assert(c0 != t0);
                }
                assert(!new.on_path(root, va, level, c0, j0));
                assert(new.entry(c0, j0) == old.entry(c0, j0));
            }
        } else {
            // level is 0 here, and the two addresses part at the last index
            let t0 = new.slot0(root, va).unwrap().0;
            assert(j0 != i0);
            assert(new.entry_ok(t1, i1));
            if old.child(t1, i1) is None {
                assert(t0 >= old.used);
                assert(!new.on_path(root, va, level, t0, j0));
                assert(new.entry(t0, j0) == 0);
                assert(0u64 & 0x01 == 0) by (bit_vector);
            } else {
                assert(new.entry(t1, i1) == old.entry(t1, i1));
                assert(old.child(t1, i1) == Some(t0));
                assert(!new.on_path(root, va, level, t0, j0));
                assert(new.entry(t0, j0) == old.entry(t0, j0));
            }
        }
    }
}

/// After a leaf was installed for `va`, translation of every address in its
/// page reaches that leaf, at the level it was installed at.
pub proof fn lemma_install_walk(old: Tables, new: Tables, root: int, va: usize, level: nat, va2: usize)
    requires
        new.installed(old, root, va, level),
        same_region(va, va2, level),
        pte_valid(new.slot_entry(root, va, level).unwrap()),
        pte_leaf(new.slot_entry(root, va, level).unwrap()),
    ensures
        new.walk(root, va2) == Some(Leaf { pte: new.slot_entry(root, va, level).unwrap(), level }),
{
    reveal(Tables::installed);
}

/// Mapping a page-aligned physical address below 2^56 with leaf flags makes
/// translation of the page's addresses yield that physical page and those
/// flags.
pub proof fn lemma_mapped_leaf(old: Tables, new: Tables, root: int, va: usize, pa: usize, flags: u64)
    requires
        new.installed(old, root, va, 0),
        new.slot_entry(root, va, 0) == Some(make_pte(pa, flags)),
        leaf_flags(flags),
        pa < PA_LIMIT,
    ensures
        new.walk(root, va) is Some,
        new.walk(root, va).unwrap().level == 0,
        pte_addr(new.walk(root, va).unwrap().pte) >> 12 == spec_ppn(pa),
        pte_flags(new.walk(root, va).unwrap().pte) == flags,
        pa % 4096 == 0 ==> new.translate(root, va) == Some(pa as int + va as int % 0x1000),
{
    lemma_make_pte_leaf(pa, flags);
    lemma_install_walk(old, new, root, va, 0, va);
}

proof fn lemma_install_2m(s0: Tables, s1: Tables, s2: Tables, root: int, va: usize, r: int, t1: int, e: u64)
    requires
        s0.wf(),
        s0.is_root(root),
        s0.table_of(root) == Some(r),
        s1.grew_child(s0, r, spec_vpn(va, 2) as int, t1),
        s2.wf(),
        s2 == (Tables { entries: s1.entries.update(t1 * 512 + spec_vpn(va, 1), e), ..s1 }),
    ensures
        s2.installed(s0, root, va, 1),
        s2.used == s0.used + s0.tables_needed(root, va, 1),
        s2.slot_entry(root, va, 1) == Some(e),
{
    reveal(Tables::installed);
    lemma_vpn_bounds(va);
    let i2 = spec_vpn(va, 2) as int;
    let i1 = spec_vpn(va, 1) as int;
    assert(s1.table_of(root) == Some(r));
    assert(s2.table_of(root) == Some(r));
    assert(s1.level[r] == 2 && s1.level[t1] == 1);
    assert(r != t1);
    assert(r * 512 + i2 != t1 * 512 + i1);
    assert(t1 * 512 + i1 < s1.entries.len()) by (nonlinear_arith)
        requires
            0 <= t1 < s1.used,
            s1.used <= s1.cap(),
            0 <= i1 < 512,
            s1.entries.len() == s1.cap() * 512,
    ;
    assert(s2.entry(r, i2) == s1.entry(r, i2));
    assert(s2.entry(t1, i1) == e);
    assert(s2.slot2(root, va) == Some((r, i2)));
    assert(s2.child(r, i2) == Some(t1));
    assert(s2.slot1(root, va) == Some((t1, i1)));
    assert(s0.slot2(root, va) == Some((r, i2)));
    assert(s0.entry_ok(r, i2));
    if s0.child(r, i2) is Some {
        assert(s1 == s0);
    }
    assert(s2.extends(s0));
    assert forall|t: int, i: int|
        0 <= t < s0.used && 0 <= i < 512 && !s2.on_path(root, va, 1, t, i) implies #[trigger] s2.entry(
        t,
        i,
    ) == s0.entry(t, i) by {
        lemma_cell_index(s1, t, i, t1, i1);
        assert(s2.entry(t, i) == s1.entry(t, i));
        assert(s1.entry(t, i) == s0.entry(t, i));
    }
    assert forall|t: int, i: int|
        s0.used <= t < s2.used && 0 <= i < 512 && !s2.on_path(root, va, 1, t, i) implies #[trigger] s2.entry(
        t,
        i,
    ) == 0 by {
        lemma_cell_index(s1, t, i, t1, i1);
        assert(s2.entry(t, i) == s1.entry(t, i));
    }
    assert forall|t: int, i: int|
        0 <= t < s0.used && 0 <= i < 512 && s0.level[t] >= 1 && s0.child(t, i) is Some && !(s2.slot(
            root,
            va,
            1,
        ) == Some((t, i))) implies #[trigger] s2.entry(t, i) == s0.entry(t, i) by {
        lemma_cell_index(s1, t, i, t1, i1);
        assert(s2.entry(t, i) == s1.entry(t, i));
    }
}

proof fn lemma_install_4k(
    s0: Tables,
    s1: Tables,
    s2: Tables,
    s3: Tables,
    root: int,
    va: usize,
    r: int,
    t1: int,
    t0: int,
    e: u64,
)
    requires
        s0.wf(),
        s0.is_root(root),
        s0.table_of(root) == Some(r),
        s1.grew_child(s0, r, spec_vpn(va, 2) as int, t1),
        s2.grew_child(s1, t1, spec_vpn(va, 1) as int, t0),
        s3.wf(),
        s3 == (Tables { entries: s2.entries.update(t0 * 512 + spec_vpn(va, 0), e), ..s2 }),
    ensures
        s3.installed(s0, root, va, 0),
        s3.used == s0.used + s0.tables_needed(root, va, 0),
        s3.slot_entry(root, va, 0) == Some(e),
{
    reveal(Tables::installed);
    lemma_vpn_bounds(va);
    let i2 = spec_vpn(va, 2) as int;
    let i1 = spec_vpn(va, 1) as int;
    let i0 = spec_vpn(va, 0) as int;
    assert(s1.table_of(root) == Some(r));
    assert(s2.table_of(root) == Some(r));
    assert(s3.table_of(root) == Some(r));
    assert(s1.level[r] == 2 && s1.level[t1] == 1);
    assert(s2.level[r] == 2 && s2.level[t1] == 1 && s2.level[t0] == 0);
    assert(r != t1 && r != t0 && t1 != t0);
    assert(r * 512 + i2 != t0 * 512 + i0);
    assert(t1 * 512 + i1 != t0 * 512 + i0);
    assert(t0 * 512 + i0 < s2.entries.len()) by (nonlinear_arith)
        requires
            0 <= t0 < s2.used,
            s2.used <= s2.cap(),
            0 <= i0 < 512,
            s2.entries.len() == s2.cap() * 512,
    ;
    assert(s2.entry(r, i2) == s1.entry(r, i2));
    assert(s3.entry(r, i2) == s1.entry(r, i2));
    assert(s3.entry(t1, i1) == s2.entry(t1, i1));
    assert(s3.entry(t0, i0) == e);
    assert(s2.child(r, i2) == Some(t1));
    assert(s3.slot2(root, va) == Some((r, i2)));
    assert(s3.child(r, i2) == Some(t1));
    assert(s3.slot1(root, va) == Some((t1, i1)));
    assert(s3.child(t1, i1) == Some(t0));
    assert(s3.slot0(root, va) == Some((t0, i0)));
    assert(s0.slot2(root, va) == Some((r, i2)));
    assert(s0.entry_ok(r, i2));
    if s0.child(r, i2) is Some {
        assert(s1 == s0);
        assert(s0.slot1(root, va) == Some((t1, i1)));
        if s0.child(t1, i1) is Some {
            assert(s2 == s0);
        }
    } else {
        assert(s1.child(t1, i1) is None) by {
            assert(s1.entry(t1, i1) == 0);
            assert(0u64 & 0x01 == 0) by (bit_vector);
        }
    }
    assert(s3.extends(s0));
    assert forall|t: int, i: int|
        0 <= t < s0.used && 0 <= i < 512 && !s3.on_path(root, va, 0, t, i) implies #[trigger] s3.entry(
        t,
        i,
    ) == s0.entry(t, i) by {
        lemma_cell_index(s2, t, i, t0, i0);
        assert(s3.entry(t, i) == s2.entry(t, i));
        assert(s2.entry(t, i) == s1.entry(t, i));
        assert(s1.entry(t, i) == s0.entry(t, i));
    }
    assert forall|t: int, i: int|
        s0.used <= t < s3.used && 0 <= i < 512 && !s3.on_path(root, va, 0, t, i) implies #[trigger] s3.entry(
        t,
        i,
    ) == 0 by {
        lemma_cell_index(s2, t, i, t0, i0);
        assert(s3.entry(t, i) == s2.entry(t, i));
        if t == t0 {
        } else {
            assert(t == t1);
            assert(s2.entry(t, i) == s1.entry(t, i));
        }
    }
    assert forall|t: int, i: int|
        0 <= t < s0.used && 0 <= i < 512 && s0.level[t] >= 1 && s0.child(t, i) is Some && !(s3.slot(
            root,
            va,
            0,
        ) == Some((t, i))) implies #[trigger] s3.entry(t, i) == s0.entry(t, i) by {
        lemma_cell_index(s2, t, i, t0, i0);
        assert(s3.entry(t, i) == s2.entry(t, i));
    }
}

/// Whether an address lies in the part of the 39-bit space that belongs to
/// user programs: from `USER_VA_BASE` up to the kernel's identity map.
pub open spec fn user_va(va: usize) -> bool {
    USER_L2_FIRST <= spec_vpn(va, 2) < USER_L2_END
}

/// Writing a root entry changes the translation of no address that is looked
/// up through another root entry.
proof fn lemma_root_write_frame(old: Tables, new: Tables, root: int, i: int, e: u64, va: usize)
    requires
        old.wf(),
        old.is_root(root),
        0 <= i < 512,
        new == (Tables { entries: old.entries.update(old.table_of(root).unwrap() * 512 + i, e), ..old }),
        spec_vpn(va, 2) != i,
    ensures
        new.walk(root, va) == old.walk(root, va),
{
    lemma_vpn_bounds(va);
    let r = old.table_of(root).unwrap();
    let j2 = spec_vpn(va, 2) as int;
    let j1 = spec_vpn(va, 1) as int;
    let j0 = spec_vpn(va, 0) as int;
    assert(new.table_of(root) == Some(r));
    assert(old.entry_ok(r, j2));
    assert(r * 512 + i < old.entries.len()) by (nonlinear_arith)
        requires
            0 <= r < old.used,
            old.used <= old.cap(),
            0 <= i < 512,
            old.entries.len() == old.cap() * 512,
    ;
    lemma_cell_index(old, r, j2, r, i);
    assert(new.entry(r, j2) == old.entry(r, j2));
    if old.child(r, j2) is Some {
        let c1 = old.child(r, j2).unwrap();
        assert(new.child(r, j2) == Some(c1));
        assert(old.entry_ok(c1, j1));
        lemma_cell_index(old, c1, j1, r, i);
        assert(new.entry(c1, j1) == old.entry(c1, j1));
        if old.child(c1, j1) is Some {
            let c0 = old.child(c1, j1).unwrap();
            assert(new.child(c1, j1) == Some(c0));
            lemma_cell_index(old, c0, j0, r, i);
            assert(new.entry(c0, j0) == old.entry(c0, j0));
        }
    }
}

/// Handing out a page changes no translation.
proof fn lemma_grow_frame(old: Tables, new: Tables, root: int, va: usize)
    requires
        old.wf(),
        old.is_root(root),
        new.entries.len() == old.entries.len(),
        new.base == old.base,
        new.used >= old.used,
        forall|k: int| 0 <= k < old.used * 512 ==> #[trigger] new.entries[k] == old.entries[k],
    ensures
        new.walk(root, va) == old.walk(root, va),
        new.slot2(root, va) == old.slot2(root, va),
        new.slot1(root, va) == old.slot1(root, va),
        new.slot0(root, va) == old.slot0(root, va),
{
    lemma_vpn_bounds(va);
    let r = old.table_of(root).unwrap();
    let j2 = spec_vpn(va, 2) as int;
    let j1 = spec_vpn(va, 1) as int;
    let j0 = spec_vpn(va, 0) as int;
    assert(new.table_of(root) == Some(r));
    assert(old.entry_ok(r, j2));
    assert(new.entry(r, j2) == old.entry(r, j2)) by {
        assert(r * 512 + j2 < old.used * 512);
    }
    if old.child(r, j2) is Some {
        let c1 = old.child(r, j2).unwrap();
        assert(new.child(r, j2) == Some(c1));
        assert(old.entry_ok(c1, j1));
        assert(new.entry(c1, j1) == old.entry(c1, j1)) by {
            assert(c1 * 512 + j1 < old.used * 512);
        }
        if old.child(c1, j1) is Some {
            let c0 = old.child(c1, j1).unwrap();
            assert(new.child(c1, j1) == Some(c0));
            assert(new.entry(c0, j0) == old.entry(c0, j0)) by {
                assert(c0 * 512 + j0 < old.used * 512);
            }
        }
    }
}

proof fn lemma_cell_bound(s: Tables, t: int, i: int)
    requires
        s.entries.len() == s.cap() * 512,
        0 <= t < s.cap(),
        0 <= i < 512,
    ensures
        0 <= t * 512 + i < s.entries.len(),
{
    assert(t * 512 + i < s.cap() * 512) by (nonlinear_arith)
        requires
            0 <= t < s.cap(),
            0 <= i < 512,
    ;
}

proof fn lemma_set_wf(s: Tables, t: int, i: int, e: u64)
    requires
        s.wf(),
        0 <= t < s.used,
        0 <= i < 512,
        s.level[t] >= 1 && pte_is_table(e) ==> {
            let c = s.table_of(pte_addr(e) as int);
            &&& c is Some
            &&& s.level[c.unwrap()] + 1 == s.level[t]
            &&& s.parent[c.unwrap()] == (t, i)
        },
    ensures
        s.set(t, i, e).wf(),
        s.set(t, i, e).entry(t, i) == e,
        forall|t2: int, i2: int|
            0 <= t2 < s.used && 0 <= i2 < 512 && !(t2 == t && i2 == i) ==> #[trigger] s.set(t, i, e).entry(
                t2,
                i2,
            ) == s.entry(t2, i2),
{
    let after = s.set(t, i, e);
    lemma_cell_bound(s, t, i);
    assert forall|t2: int, i2: int| 0 <= t2 < s.used && 0 <= i2 < 512 && !(t2 == t && i2 == i) implies #[trigger] after.entry(
        t2,
        i2,
    ) == s.entry(t2, i2) by {
        lemma_cell_index(s, t2, i2, t, i);
    }
    assert forall|t2: int, i2: int| 0 <= t2 < after.used && 0 <= i2 < 512 implies #[trigger] after.entry_ok(
        t2,
        i2,
    ) by {
        assert(s.entry_ok(t2, i2));
        if t2 == t && i2 == i {
        } else {
            assert(after.entry(t2, i2) == s.entry(t2, i2));
        }
    }
}

/// Clearing the root entries that serve user addresses keeps the tables
/// sound and the root in place.
pub proof fn lemma_cleared_wf(s: Tables, root: int)
    requires
        s.wf(),
        s.is_root(root),
    ensures
        s.cleared(root).wf(),
        s.cleared(root).root == s.root,
{
    assert(!pte_is_table(0u64)) by {
        assert(0u64 & 0x01 == 0) by (bit_vector);
    }
    lemma_set_wf(s, s.table_of(root).unwrap(), USER_L2_FIRST as int, 0);
}

proof fn lemma_alloc_wf(s: Tables, level: nat, parent: (int, int))
    requires
        s.wf(),
        s.used < s.cap(),
        level <= 2,
    ensures
        s.grown(level, parent).wf(),
        s.grown(level, parent).extends(s),
        s.grown(level, parent).table_of(s.table_pa(s.used as int)) == Some(s.used as int),
        s.table_pa(s.used as int) < PA_LIMIT,
        s.table_pa(s.used as int) <= usize::MAX,
        s.table_pa(s.used as int) % 4096 == 0,
        forall|i: int| 0 <= i < 512 ==> #[trigger] s.grown(level, parent).entry(s.used as int, i) == 0,
        forall|t: int, i: int|
            0 <= t < s.used && 0 <= i < 512 ==> #[trigger] s.grown(level, parent).entry(t, i) == s.entry(
                t,
                i,
            ),
{
    let after = s.grown(level, parent);
    let t = s.used as int;
    assert(t * 4096 + 4096 <= s.cap() * 4096) by (nonlinear_arith)
        requires
            0 <= t < s.cap(),
    ;
    assert forall|i: int| 0 <= i < 512 implies #[trigger] after.entry(t, i) == 0 by {
        lemma_cell_bound(s, t, i);
    }
    assert forall|t2: int, i2: int| 0 <= t2 < s.used && 0 <= i2 < 512 implies #[trigger] after.entry(
        t2,
        i2,
    ) == s.entry(t2, i2) by {
        lemma_cell_bound(s, t2, i2);
    }
    assert(0u64 & 0x01 == 0) by (bit_vector);
    assert forall|t2: int, i2: int| 0 <= t2 < after.used && 0 <= i2 < 512 implies #[trigger] after.entry_ok(
        t2,
        i2,
    ) by {
        if t2 == t {
            assert(after.entry(t2, i2) == 0);
        } else {
            assert(s.entry_ok(t2, i2));
            assert(after.entry(t2, i2) == s.entry(t2, i2));
        }
    }
    assert forall|t2: int| 0 <= t2 < after.used implies #[trigger] after.level[t2] <= 2 by {
        if t2 < t {
            assert(s.level[t2] <= 2);
        }
    }
}

/// Making sure that an entry points to a table keeps the tables sound and
/// changes nothing but that entry and the fresh table.
proof fn lemma_with_child(s: Tables, t: int, i: int)
    requires
        s.wf(),
        0 <= t < s.used,
        0 <= i < 512,
        s.level[t] >= 1,
        s.child(t, i) is None ==> s.used < s.cap(),
    ensures
        s.with_child(t, i).child(t, i) is Some,
        s.with_child(t, i).grew_child(s, t, i, s.with_child(t, i).child(t, i).unwrap()),
{
    if s.child(t, i) is Some {
        assert(s.entry_ok(t, i));
    } else {
        assert(s.level[t] <= 2);
        let level = (s.level[t] - 1) as nat;
        let mid = s.grown(level, (t, i));
        lemma_alloc_wf(s, level, (t, i));
        let pa = s.table_pa(s.used as int);
        let e = make_pte(pa as usize, PTE_V);
        lemma_make_pte_table(pa as u64);
        assert(mid.table_of(pte_addr(e) as int) == Some(s.used as int));
        lemma_set_wf(mid, t, i, e);
        let after = mid.set(t, i, e);
        assert(after == s.with_child(t, i));
        assert forall|j: int| 0 <= j < 512 implies #[trigger] after.entry(s.used as int, j) == 0 by {
            assert(mid.entry(s.used as int, j) == 0);
        }
        assert forall|t2: int, i2: int|
            0 <= t2 < s.used && 0 <= i2 < 512 && !(t2 == t && i2 == i) implies #[trigger] after.entry(
            t2,
            i2,
        ) == s.entry(t2, i2) by {
            assert(mid.entry(t2, i2) == s.entry(t2, i2));
        }
    }
}

/// Installing a leaf where the pool has the pages for it keeps the tables
/// sound, puts the entry in its place, and changes nothing but the way down
/// to it. An entry installed at level 1 must not look like a pointer.
pub proof fn lemma_map_leaf(s: Tables, root: int, va: usize, level: nat, e: u64)
    requires
        s.wf(),
        s.is_root(root),
        level <= 1,
        s.map_fits(root, va, level),
        level == 1 ==> !pte_is_table(e),
    ensures
        s.map_leaf(root, va, level, e).wf(),
        s.map_leaf(root, va, level, e).installed(s, root, va, level),
        s.map_leaf(root, va, level, e).used == s.used + s.tables_needed(root, va, level),
        s.map_leaf(root, va, level, e).slot_entry(root, va, level) == Some(e),
        forall|r2: int| s.is_root(r2) ==> s.map_leaf(root, va, level, e).is_root(r2),
        s.map_leaf(root, va, level, e).extends(s),
{
    reveal(Tables::map_leaf);
    reveal(Tables::installed);
    lemma_vpn_bounds(va);
    let r = s.table_of(root).unwrap();
    let i2 = spec_vpn(va, 2) as int;
    let i1 = spec_vpn(va, 1) as int;
    let i0 = spec_vpn(va, 0) as int;
    assert(s.slot2(root, va) == Some((r, i2)));
    if s.child(r, i2) is None {
        assert(s.slot1(root, va) is None);
        assert(s.slot0(root, va) is None);
    }
    lemma_with_child(s, r, i2);
    let s1 = s.with_child(r, i2);
    let t1 = s1.child(r, i2).unwrap();
    assert(s1.level[r] == 2);
    if level == 1 {
        lemma_set_wf(s1, t1, i1, e);
        lemma_install_2m(s, s1, s1.set(t1, i1, e), root, va, r, t1, e);
    } else {
        if s.child(r, i2) is Some {
            assert(s1 == s);
            assert(s.slot1(root, va) == Some((t1, i1)));
            if s.child(t1, i1) is None {
                assert(s.slot0(root, va) is None);
            }
        } else {
            assert(s1.entry(t1, i1) == 0);
            assert(0u64 & 0x01 == 0) by (bit_vector);
            assert(s1.child(t1, i1) is None);
            assert(s1.used == s.used + 1);
        }
        lemma_with_child(s1, t1, i1);
        let s2 = s1.with_child(t1, i1);
        let t0 = s2.child(t1, i1).unwrap();
        assert(s2.level[t1] == 1);
        assert(s2.level[t0] == 0);
        lemma_set_wf(s2, t0, i0, e);
        lemma_install_4k(s, s1, s2, s2.set(t0, i0, e), root, va, r, t1, t0, e);
    }
}

/// Different cells of the pool have different positions in it.
proof fn lemma_cell_index(s: Tables, t: int, i: int, t2: int, i2: int)
    requires
        0 <= i < 512,
        0 <= i2 < 512,
        0 <= t,
        0 <= t2,
    ensures
        (t * 512 + i == t2 * 512 + i2) <==> (t == t2 && i == i2),
{
}

/// The first page boundary at or below an address.
pub open spec fn page_floor(x: int) -> int {
    x - x % 4096
}

/// The first page boundary at or above an address.
pub open spec fn page_ceil(x: int) -> int {
    (x + 4095) / 4096 * 4096
}

/// How far `va` is below `end`.
pub open spec fn gap(va: int, end: int) -> nat {
    if va < end {
        (end - va) as nat
    } else {
        0
    }
}

/// The tables and the address reached after 4 KiB identity leaves were
/// installed from `va` up to the next 2 MiB boundary, or to `end` if that
/// comes first; `None` where the pool runs out of pages.
pub open spec fn id_map_head(pt: Tables, root: int, va: int, end: int, flags: u64) -> Option<(Tables, int)>
    decreases gap(va, end),
{
    if va < end && va % 0x20_0000 != 0 {
        if !pt.map_fits(root, va as usize, 0) {
            None
        } else {
            id_map_head(
                pt.map_leaf(root, va as usize, 0, make_pte(va as usize, flags)),
                root,
                va + 4096,
                end,
                flags,
            )
        }
    } else {
        Some((pt, va))
    }
}

/// The tables and the address reached after 2 MiB identity leaves were
/// installed from `va` on, as many as end at or below `end`; `None` where
/// the pool runs out of pages.
pub open spec fn id_map_middle(pt: Tables, root: int, va: int, end: int, flags: u64) -> Option<(Tables, int)>
    decreases gap(va, end),
{
    if end - va >= 0x20_0000 {
        if !pt.map_fits(root, va as usize, 1) {
            None
        } else {
            id_map_middle(
                pt.map_leaf(root, va as usize, 1, make_pte(va as usize, flags)),
                root,
                va + 0x20_0000,
                end,
                flags,
            )
        }
    } else {
        Some((pt, va))
    }
}

/// The tables after 4 KiB identity leaves were installed from `va` up to
/// `end`; `None` where the pool runs out of pages.
pub open spec fn id_map_tail(pt: Tables, root: int, va: int, end: int, flags: u64) -> Option<Tables>
    decreases gap(va, end),
{
    if va < end {
        if !pt.map_fits(root, va as usize, 0) {
            None
        } else {
            id_map_tail(
                pt.map_leaf(root, va as usize, 0, make_pte(va as usize, flags)),
                root,
                va + 4096,
                end,
                flags,
            )
        }
    } else {
        Some(pt)
    }
}

/// The tables after the bytes from `base` to `base + len`, rounded out to
/// pages, were mapped to themselves: with 4 KiB leaves up to the first
/// 2 MiB boundary, 2 MiB leaves as far as whole ones fit, and 4 KiB leaves
/// for the rest. `None` where the pool runs out of pages.
pub open spec fn id_map(pt: Tables, root: int, base: int, len: int, flags_2m: u64, flags_4k: u64) -> Option<
    Tables,
> {
    let end = page_ceil(base + len);
    match id_map_head(pt, root, page_floor(base), end, flags_4k) {
        None => None,
        Some((headed, at)) => match id_map_middle(headed, root, at, end, flags_2m) {
            None => None,
            Some((filled, rest)) => id_map_tail(filled, root, rest, end, flags_4k),
        },
    }
}

/// The tables that installing 4 KiB identity leaves from `va` up to the next
/// 2 MiB boundary, or to `end`, leaves, whether all of them found room or
/// not: the leaves before the first that found none stay.
pub open spec fn id_head_left(pt: Tables, root: int, va: int, end: int, flags: u64) -> Tables
    decreases gap(va, end),
{
    if va < end && va % 0x20_0000 != 0 && pt.map_fits(root, va as usize, 0) {
        id_head_left(pt.map_leaf(root, va as usize, 0, make_pte(va as usize, flags)), root, va + 4096, end, flags)
    } else {
        pt
    }
}

/// The tables that installing 2 MiB identity leaves from `va` on leaves,
/// whether all of them found room or not.
pub open spec fn id_middle_left(pt: Tables, root: int, va: int, end: int, flags: u64) -> Tables
    decreases gap(va, end),
{
    if end - va >= 0x20_0000 && pt.map_fits(root, va as usize, 1) {
        id_middle_left(
            pt.map_leaf(root, va as usize, 1, make_pte(va as usize, flags)),
            root,
            va + 0x20_0000,
            end,
            flags,
        )
    } else {
        pt
    }
}

/// The tables that installing 4 KiB identity leaves from `va` up to `end`
/// leaves, whether all of them found room or not.
pub open spec fn id_tail_left(pt: Tables, root: int, va: int, end: int, flags: u64) -> Tables
    decreases gap(va, end),
{
    if va < end && pt.map_fits(root, va as usize, 0) {
        id_tail_left(pt.map_leaf(root, va as usize, 0, make_pte(va as usize, flags)), root, va + 4096, end, flags)
    } else {
        pt
    }
}

/// The tables that mapping the bytes from `base` to `base + len` to
/// themselves leaves, whether the pool sufficed or not: the leaves before
/// the first that found no room stay.
pub open spec fn id_map_left(pt: Tables, root: int, base: int, len: int, flags_2m: u64, flags_4k: u64) -> Tables {
    let end = page_ceil(base + len);
    match id_map_head(pt, root, page_floor(base), end, flags_4k) {
        None => id_head_left(pt, root, page_floor(base), end, flags_4k),
        Some((headed, at)) => match id_map_middle(headed, root, at, end, flags_2m) {
            None => id_middle_left(headed, root, at, end, flags_2m),
            Some((filled, rest)) => id_tail_left(filled, root, rest, end, flags_4k),
        },
    }
}

/// Flags of kernel memory: V, R, W, X, A, D.
pub const RWX: u64 = 0xcf;

/// Flags of a device page: V, R, W, A, D.
pub const RW: u64 = 0xc7;

/// Translation mode number of Sv39.
pub const SATP_SV39: u64 = 8;

/// The value of the translation register for a root table: mode Sv39,
/// address space 0, and the root's page number.
pub open spec fn satp_for(root: usize) -> u64 {
    (8u64 << 60) | (spec_ppn(root) & 0xfff_ffff_ffff)
}

/// The tables after the kernel's map was built in a fresh root: DRAM mapped
/// to itself, readable, writable and executable, and the UART's page mapped
/// to itself, readable and writable. `None` where the pool runs out of
/// pages.
pub open spec fn kernel_map(pt: Tables) -> Option<Tables> {
    if pt.used >= pt.cap() {
        None
    } else {
        let rooted = Tables { root: pt.table_pa(pt.used as int) as nat, ..pt.grown(2, (0, 0)) };
        let root = rooted.root as int;
        match id_map(rooted, root, DRAM_BASE as int, DRAM_SIZE as int, RWX, RWX) {
            None => None,
            Some(mapped) => if !mapped.map_fits(root, UART0, 0) {
                None
            } else {
                Some(mapped.map_leaf(root, UART0, 0, make_pte(UART0, RW)))
            },
        }
    }
}

/// The tables that building the kernel's map leaves, whether the pool
/// sufficed or not: untouched where not even a root found room, else with
/// the fresh root and the leaves before the first that found no room.
pub open spec fn kernel_map_left(pt: Tables) -> Tables {
    if pt.used >= pt.cap() {
        pt
    } else {
        let rooted = Tables { root: pt.table_pa(pt.used as int) as nat, ..pt.grown(2, (0, 0)) };
        let root = rooted.root as int;
        match id_map(rooted, root, DRAM_BASE as int, DRAM_SIZE as int, RWX, RWX) {
            None => id_map_left(rooted, root, DRAM_BASE as int, DRAM_SIZE as int, RWX, RWX),
            Some(mapped) => if !mapped.map_fits(root, UART0, 0) {
                mapped
            } else {
                mapped.map_leaf(root, UART0, 0, make_pte(UART0, RW))
            },
        }
    }
}

/// Two addresses of the 39-bit space with the same three indices lie in the
/// same 4 KiB page.
pub proof fn lemma_same_page(a: usize, b: usize)
    requires
        a < 0x80_0000_0000u64,
        b < 0x80_0000_0000u64,
        same_region(a, b, 0),
    ensures
        a as int / 4096 == b as int / 4096,
{
    let x: u64 = a as u64;
    let y: u64 = b as u64;
    lemma_vpn_bounds(a);
    lemma_vpn_bounds(b);
    assert(((x >> 12) & 0x1ff) < 512 && ((x >> 21) & 0x1ff) < 512 && ((x >> 30) & 0x1ff) < 512) by (bit_vector);
    assert(((y >> 12) & 0x1ff) < 512 && ((y >> 21) & 0x1ff) < 512 && ((y >> 30) & 0x1ff) < 512) by (bit_vector);
    assert(((x >> 12) & 0x1ff) == ((y >> 12) & 0x1ff));
    assert(((x >> 21) & 0x1ff) == ((y >> 21) & 0x1ff));
    assert(((x >> 30) & 0x1ff) == ((y >> 30) & 0x1ff));
    assert(x < 0x80_0000_0000u64 && y < 0x80_0000_0000u64 && ((x >> 12) & 0x1ff) == ((y >> 12) & 0x1ff) && ((x
        >> 21) & 0x1ff) == ((y >> 21) & 0x1ff) && ((x >> 30) & 0x1ff) == ((y >> 30) & 0x1ff) ==> x / 4096 == y
        / 4096) by (bit_vector);
}

/// A pool with a page left stays sound when a root table is made in it.
pub proof fn lemma_rooted(pt: Tables)
    requires
        pt.wf(),
        pt.used < pt.cap(),
    ensures
        ({
            let rooted = Tables { root: pt.table_pa(pt.used as int) as nat, ..pt.grown(2, (0, 0)) };
            &&& rooted.wf()
            &&& rooted.is_root(rooted.root as int)
            &&& rooted.root != 0
        }),
{
    lemma_alloc_wf(pt, 2, (0, 0));
    let mid = pt.grown(2, (0, 0));
    let rooted = Tables { root: pt.table_pa(pt.used as int) as nat, ..mid };
    assert forall|t: int, i: int| 0 <= t < rooted.used && 0 <= i < 512 implies #[trigger] rooted.entry_ok(t, i) by {
        assert(mid.entry_ok(t, i));
    }
}

/// Each table index of an address is below 512.
pub proof fn lemma_vpn_bounds(va: usize)
    ensures
        spec_vpn(va, 0) < 512,
        spec_vpn(va, 1) < 512,
        spec_vpn(va, 2) < 512,
{
    let v: u64 = va as u64;
    assert(((v >> 12) & 0x1ff) < 512) by (bit_vector);
    assert(((v >> 21) & 0x1ff) < 512) by (bit_vector);
    assert(((v >> 30) & 0x1ff) < 512) by (bit_vector);
}

/// Why a mapping could not be installed.
#[derive(Clone, Copy, Debug, PartialEq, Eq, Structural)]
pub enum MapError {
    /// The pool has too few pages left for the tables that the mapping needs.
    OutOfPtPages,
    /// No physical frame is left for the page.
    OutOfFrames,
}

/// The pool of page-table pages and the tables built in it.
pub struct PageTables {
    pool: Vec<u64>,
    used: usize,
    base: usize,
    root: usize,
    level: Ghost<Seq<nat>>,
    parent: Ghost<Seq<(int, int)>>,
}

impl View for PageTables {
    type V = Tables;

    closed spec fn view(&self) -> Tables {
        Tables {
            entries: self.pool@,
            used: self.used as nat,
            base: self.base as nat,
            root: self.root as nat,
            level: self.level@,
            parent: self.parent@,
        }
    }
}

impl PageTables {
    /// A pool over the given storage, whose first page has physical address
    /// `base`. `None` unless the storage is a whole number of pages and lies
    /// page-aligned inside the physical address space, above address 0.
    pub fn new(pool: Vec<u64>, base: usize) -> (r: Option<Self>)
        ensures
            r is Some <==> pool@.len() % 512 == 0 && base % 4096 == 0 && base > 0 && base + (pool@.len()
                / 512) * 4096 <= PA_LIMIT && base + (pool@.len() / 512) * 4096 <= usize::MAX,
            r is Some ==> r.unwrap()@.wf() && r.unwrap()@.entries == pool@ && r.unwrap()@.used == 0
                && r.unwrap()@.base == base && r.unwrap()@.root == 0,
    {
        let n = pool.len();
        if n % 512 != 0 || base % 4096 != 0 || base == 0 {
            return None;
        }
        let pages = n / 512;
        if pages as u64 > 0x1000_0000_0000u64 {
            return None;
        }
        let bytes: u64 = (pages as u64) * 4096;
        if base as u64 > PA_LIMIT - bytes {
            return None;
        }
        if base as u64 + bytes > usize::MAX as u64 {
            return None;
        }
        Some(
            PageTables {
                pool,
                used: 0,
                base,
                root: 0,
                level: Ghost(Seq::empty()),
                parent: Ghost(Seq::empty()),
            },
        )
    }

    /// Pages of the pool that are still free.
    pub fn pt_free(&self) -> (r: usize)
        requires
            self@.wf(),
        ensures
            r == self@.cap() - self@.used,
    {
        self.pool.len() / 512 - self.used
    }

    /// Physical address of the kernel's root table, 0 before there is one.
    pub fn root_pt(&self) -> (r: usize)
        ensures
            r == self@.root,
    {
        self.root
    }

    /// Index of the handed-out page at a physical address.
    fn table_index(&self, pa: u64) -> (r: Option<usize>)
        requires
            self@.wf(),
        ensures
            r is Some == self@.table_of(pa as int) is Some,
            r is Some ==> r.unwrap() == self@.table_of(pa as int).unwrap() && r.unwrap() < self@.used,
    {
        let base = self.base as u64;
        if pa < base || pa % 4096 != 0 {
            return None;
        }
        let off = pa - base;
        let t = off / 4096;
        if t >= self.used as u64 {
            return None;
        }
        Some(t as usize)
    }

    fn entry(&self, t: usize, i: usize) -> (r: u64)
        requires
            self@.wf(),
            t < self@.used,
            i < 512,
        ensures
            r == self@.entry(t as int, i as int),
    {
        assert(t * 512 + i < self@.cap() * 512) by (nonlinear_arith)
            requires
                t < self@.used,
                self@.used <= self@.cap(),
                i < 512,
        ;
        self.pool[t * 512 + i]
    }

    /// The table that an entry points to.
    fn child(&self, t: usize, i: usize) -> (r: Option<usize>)
        requires
            self@.wf(),
            t < self@.used,
            i < 512,
        ensures
            r is Some == self@.child(t as int, i as int) is Some,
            r is Some ==> r.unwrap() == self@.child(t as int, i as int).unwrap() && r.unwrap()
                < self@.used,
    {
        let e = self.entry(t, i);
        if pte_is_valid(e) && !pte_is_leaf(e) {
            self.table_index(pte_address(e))
        } else {
            None
        }
    }

    /// Writes one entry. A pointer written into a table above the lowest level
    /// leads to a page one level down that was made for this entry.
    fn set_entry(&mut self, t: usize, i: usize, e: u64)
        requires
            old(self)@.wf(),
            t < old(self)@.used,
            i < 512,
            old(self)@.level[t as int] >= 1 && pte_is_table(e) ==> {
                let c = old(self)@.table_of(pte_addr(e) as int);
                &&& c is Some
                &&& old(self)@.level[c.unwrap()] + 1 == old(self)@.level[t as int]
                &&& old(self)@.parent[c.unwrap()] == (t as int, i as int)
            },
        ensures
            final(self)@.wf(),
            final(self)@ == old(self)@.set(t as int, i as int, e),
    {
        proof {
            lemma_cell_bound(self@, t as int, i as int);
            lemma_set_wf(self@, t as int, i as int, e);
        }
        self.pool.set(t * 512 + i, e);
    }

    /// Hands out the next page of the pool, zeroed, to serve at `level` for
    /// the entry `parent`.
    fn alloc_table(&mut self, level: Ghost<nat>, parent: Ghost<(int, int)>) -> (t: usize)
        requires
            old(self)@.wf(),
            old(self)@.used < old(self)@.cap(),
            level@ <= 2,
        ensures
            final(self)@.wf(),
            t == old(self)@.used,
            final(self)@ == old(self)@.grown(level@, parent@),
    {
        let t = self.used;
        let ghost before = self@;
        assert(t * 512 + 512 <= self@.cap() * 512) by (nonlinear_arith)
            requires
                t < self@.cap(),
        ;
        let n = self.pool.len();
        let mut i: usize = 0;
        while i < 512
            invariant
                i <= 512,
                t == self.used,
                n == self.pool@.len(),
                self@.level == before.level,
                self@.parent == before.parent,
                self@.used == before.used,
                self@.same_layout(before),
                t * 512 + 512 <= self.pool@.len(),
                forall|j: int| 0 <= j < i ==> #[trigger] self.pool@[t * 512 + j] == 0,
                forall|k: int|
                    0 <= k < before.entries.len() && !(t * 512 <= k < t * 512 + 512)
                        ==> #[trigger] self.pool@[k] == before.entries[k],
            decreases 512 - i,
        {
            self.pool.set(t * 512 + i, 0);
            i += 1;
        }
        self.used = t + 1;
        self.level = Ghost(self.level@.push(level@));
        self.parent = Ghost(self.parent@.push(parent@));
        proof {
            let want = before.grown(level@, parent@);
            assert forall|k: int| 0 <= k < before.entries.len() implies self@.entries[k]
                == want.entries[k] by {
                if t * 512 <= k < t * 512 + 512 {
                    assert(self.pool@[t * 512 + (k - t * 512)] == 0);
                }
            }
            assert(self@.entries =~= want.entries);
            lemma_alloc_wf(before, level@, parent@);
        }
        t
    }

    /// The table that an entry points to, made now if the entry is no pointer.
    fn ensure_child(&mut self, t: usize, i: usize) -> (c: usize)
        requires
            old(self)@.wf(),
            t < old(self)@.used,
            i < 512,
            old(self)@.level[t as int] >= 1,
            old(self)@.child(t as int, i as int) is None ==> old(self)@.used < old(self)@.cap(),
        ensures
            final(self)@ == old(self)@.with_child(t as int, i as int),
            final(self)@.child(t as int, i as int) == Some(c as int),
            final(self)@.grew_child(old(self)@, t as int, i as int, c as int),
    {
        proof {
            lemma_with_child(self@, t as int, i as int);
        }
        match self.child(t, i) {
            Some(c) => c,
            None => {
                let ghost before = self@;
                proof {
                    assert(before.level[t as int] <= 2);
                    lemma_alloc_wf(before, (before.level[t as int] - 1) as nat, (t as int, i as int));
                }
                let c = self.alloc_table(
                    Ghost((before.level[t as int] - 1) as nat),
                    Ghost((t as int, i as int)),
                );
                let pa: usize = self.base + c * 4096;
                let e = pte_new(pa, PTE_V);
                proof {
                    lemma_make_pte_table(pa as u64);
                }
                self.set_entry(t, i, e);
                c
            },
        }
    }

    /// Installs a 4 KiB leaf for `va` under the root at `root`, making the
    /// tables on the way down that are missing; an entry on the way that is
    /// a larger leaf gives way to a table. Fails, changing nothing, when the
    /// pool has fewer pages left than tables are missing.
    pub fn map_4k(&mut self, root: usize, va: usize, pa: usize, flags: u64) -> (r: Result<(), MapError>)
        requires
            old(self)@.wf(),
            old(self)@.is_root(root as int),
        ensures
            final(self)@.wf(),
            r is Err <==> !old(self)@.map_fits(root as int, va, 0),
            r is Err ==> final(self)@ == old(self)@ && r == Err::<(), MapError>(MapError::OutOfPtPages),
            r is Ok ==> final(self)@ == old(self)@.map_leaf(root as int, va, 0, make_pte(pa, flags)),
            r is Ok ==> final(self)@.installed(old(self)@, root as int, va, 0),
            r is Ok ==> final(self)@.slot_entry(root as int, va, 0) == Some(make_pte(pa, flags)),
            forall|r2: int| old(self)@.is_root(r2) ==> final(self)@.is_root(r2),
            final(self)@.root == old(self)@.root,
    {
        reveal(Tables::map_leaf);
        let idx = vpn_indices(va);
        let ghost s0 = self@;
        let r = self.table_index(root as u64).unwrap();
        let c1 = self.child(r, idx[2]);
        let c0 = match c1 {
            Some(t1) => {
                assert(self@.entry_ok(r as int, idx[2] as int));
                self.child(t1, idx[1])
            },
            None => None,
        };
        let needed: usize = if c1.is_none() {
            2
        } else if c0.is_none() {
            1
        } else {
            0
        };
        if self.pt_free() < needed {
            return Err(MapError::OutOfPtPages);
        }
        proof {
            lemma_map_leaf(s0, root as int, va, 0, make_pte(pa, flags));
        }
        let t1 = self.ensure_child(r, idx[2]);
        let t0 = self.ensure_child(t1, idx[1]);
        self.set_entry(t0, idx[0], pte_new(pa, flags));
        Ok(())
    }

    /// Installs a 2 MiB leaf for `va` under the root at `root`, making the
    /// level-1 table if it is missing. Fails, changing nothing, when that
    /// table is missing and the pool is used up.
    pub fn map_2m(&mut self, root: usize, va: usize, pa: usize, flags: u64) -> (r: Result<(), MapError>)
        requires
            old(self)@.wf(),
            old(self)@.is_root(root as int),
            va % SIZE_2M == 0,
            pa % SIZE_2M == 0,
            pte_leaf(flags),
        ensures
            final(self)@.wf(),
            r is Err <==> !old(self)@.map_fits(root as int, va, 1),
            r is Err ==> final(self)@ == old(self)@ && r == Err::<(), MapError>(MapError::OutOfPtPages),
            r is Ok ==> final(self)@ == old(self)@.map_leaf(root as int, va, 1, make_pte(pa, flags)),
            r is Ok ==> final(self)@.installed(old(self)@, root as int, va, 1),
            r is Ok ==> final(self)@.slot_entry(root as int, va, 1) == Some(make_pte(pa, flags)),
            forall|r2: int| old(self)@.is_root(r2) ==> final(self)@.is_root(r2),
            final(self)@.root == old(self)@.root,
    {
        reveal(Tables::map_leaf);
        let idx = vpn_indices(va);
        let ghost s0 = self@;
        let r = self.table_index(root as u64).unwrap();
        if self.child(r, idx[2]).is_none() && self.pt_free() < 1 {
            return Err(MapError::OutOfPtPages);
        }
        let e = pte_new(pa, flags);
        proof {
            lemma_leaf_pte(pa, flags);
            lemma_map_leaf(s0, root as int, va, 1, e);
        }
        let t1 = self.ensure_child(r, idx[2]);
        self.set_entry(t1, idx[1], e);
        Ok(())
    }

    /// Hands out the next page of the pool, zeroed, and returns its physical
    /// address. The page joins no tree yet.
    pub fn alloc_pt_page(&mut self) -> (pa: usize)
        requires
            old(self)@.wf(),
            old(self)@.used < old(self)@.cap(),
        ensures
            final(self)@.wf(),
            final(self)@.extends(old(self)@),
            final(self)@.used == old(self)@.used + 1,
            pa == old(self)@.table_pa(old(self)@.used as int),
            final(self)@.table_of(pa as int) == Some(old(self)@.used as int),
            forall|i: int| 0 <= i < 512 ==> #[trigger] final(self)@.entry(old(self)@.used as int, i) == 0,
            forall|t: int, i: int|
                0 <= t < old(self)@.used && 0 <= i < 512 ==> #[trigger] final(self)@.entry(t, i) == old(self)@.entry(t, i),
    {
        proof {
            lemma_alloc_wf(self@, 0, (0, 0));
        }
        let t = self.alloc_table(Ghost(0), Ghost((0, 0)));
        self.base + t * 4096
    }

    /// Makes an empty root table and records it as the kernel's root.
    pub fn new_root(&mut self) -> (root: usize)
        requires
            old(self)@.wf(),
            old(self)@.used < old(self)@.cap(),
        ensures
            final(self)@.wf(),
            final(self)@ == (Tables { root: root as nat, ..old(self)@.grown(2, (0, 0)) }),
            root == old(self)@.table_pa(old(self)@.used as int),
            final(self)@.is_root(root as int),
            final(self)@.root == root,
            root != 0,
            final(self)@.used == old(self)@.used + 1,
            final(self)@.entries.len() == old(self)@.entries.len(),
            final(self)@.base == old(self)@.base,
            forall|r: int| old(self)@.is_root(r) ==> final(self)@.is_root(r),
            forall|va: usize| #[trigger] final(self)@.walk(root as int, va) is None,
            forall|r: int, va: usize|
                old(self)@.is_root(r) ==> #[trigger] final(self)@.walk(r, va) == old(self)@.walk(r, va),
    {
        let ghost before = self@;
        proof {
            lemma_alloc_wf(self@, 2, (0, 0));
        }
        let t = self.alloc_table(Ghost(2), Ghost((0, 0)));
        let ghost mid = self@;
        let root = self.base + t * 4096;
        self.root = root;
        proof {
            let after = self@;
            assert(after == Tables { root: root as nat, ..mid });
            assert(after.table_of(root as int) == Some(t as int));
            assert forall|t2: int, i2: int| 0 <= t2 < after.used && 0 <= i2 < 512 implies #[trigger] after.entry_ok(
                t2,
                i2,
            ) by {
                assert(mid.entry_ok(t2, i2));
            }
            assert forall|i: int| 0 <= i < 512 implies #[trigger] after.entry(t as int, i) == 0 by {
                assert(mid.entry(t as int, i) == 0);
            }
            assert(0u64 & 0x01 == 0) by (bit_vector);
            assert forall|va: usize| #[trigger] after.walk(root as int, va) is None by {
                lemma_vpn_bounds(va);
                assert(after.entry(t as int, spec_vpn(va, 2) as int) == 0);
            }
            assert forall|r: int, va: usize| before.is_root(r) implies #[trigger] after.walk(r, va)
                == before.walk(r, va) by {
                lemma_grow_frame(before, after, r, va);
            }
        }
        root
    }

    /// Translates as the hardware does: the first leaf on the way down from
    /// the root, with the level it stands at.
    pub fn walk(&self, root: usize, va: usize) -> (r: Option<(u64, u8)>)
        requires
            self@.wf(),
            self@.is_root(root as int),
        ensures
            match r {
                Some((pte, level)) => self@.walk(root as int, va) == Some(
                    Leaf { pte, level: level as nat },
                ),
                None => self@.walk(root as int, va) is None,
            },
    {
        let idx = vpn_indices(va);
        let rt = self.table_index(root as u64).unwrap();
        let e2 = self.entry(rt, idx[2]);
        if !pte_is_valid(e2) {
            return None;
        }
        if pte_is_leaf(e2) {
            return Some((e2, 2));
        }
        proof {
            assert(self@.entry_ok(rt as int, idx[2] as int));
        }
        let t1 = self.table_index(pte_address(e2)).unwrap();
        let e1 = self.entry(t1, idx[1]);
        if !pte_is_valid(e1) {
            return None;
        }
        if pte_is_leaf(e1) {
            return Some((e1, 1));
        }
        proof {
            assert(self@.entry_ok(t1 as int, idx[1] as int));
        }
        let t0 = self.table_index(pte_address(e1)).unwrap();
        let e0 = self.entry(t0, idx[0]);
        if pte_is_valid(e0) && pte_is_leaf(e0) {
            Some((e0, 0))
        } else {
            None
        }
    }

    /// The physical address that a virtual address translates to.
    pub fn translate(&self, root: usize, va: usize) -> (r: Option<u64>)
        requires
            self@.wf(),
            self@.is_root(root as int),
        ensures
            r is Some == self@.translate(root as int, va) is Some,
            r is Some ==> r.unwrap() == self@.translate(root as int, va).unwrap(),
    {
        match self.walk(root, va) {
            None => None,
            Some((pte, level)) => {
                let v = va as u64;
                let off: u64 = if level == 0 {
                    v % 0x1000
                } else if level == 1 {
                    v % 0x20_0000
                } else {
                    v % 0x4000_0000
                };
                Some(pte_address(pte) + off)
            },
        }
    }

    /// Unmaps everything a user program had: the root entries that serve user
    /// addresses are cleared. Tables below them are not handed back.
    pub fn clear_user_mappings(&mut self, root: usize)
        requires
            old(self)@.wf(),
            old(self)@.is_root(root as int),
        ensures
            final(self)@.wf(),
            final(self)@ == old(self)@.cleared(root as int),
            final(self)@.extends(old(self)@),
            final(self)@.used == old(self)@.used,
            final(self)@.is_root(root as int),
            forall|va: usize|
                #[trigger] final(self)@.walk(root as int, va) == (if user_va(va) {
                    None
                } else {
                    old(self)@.walk(root as int, va)
                }),
    {
        let rt = self.table_index(root as u64).unwrap();
        let ghost before = self@;
        assert(0u64 & 0x01 == 0) by (bit_vector);
        self.set_entry(rt, USER_L2_FIRST, 0);
        proof {
            let after = self@;
            assert(rt * 512 + 1 < before.entries.len()) by (nonlinear_arith)
                requires
                    0 <= rt < before.used,
                    before.used <= before.cap(),
                    before.entries.len() == before.cap() * 512,
            ;
            assert forall|va: usize|
                #[trigger] after.walk(root as int, va) == (if user_va(va) {
                    None
                } else {
                    before.walk(root as int, va)
                }) by {
                if user_va(va) {
                    assert(after.entry(rt as int, 1) == 0);
                } else {
                    lemma_root_write_frame(before, after, root as int, 1, 0, va);
                }
            }
        }
    }

    /// Installs 4 KiB identity leaves from `va` up to the next 2 MiB
    /// boundary, or to `end`; returns the address reached.
    fn id_head(&mut self, root: usize, va: usize, end: usize, flags: u64) -> (r: Result<usize, MapError>)
        requires
            old(self)@.wf(),
            old(self)@.is_root(root as int),
            va % 4096 == 0,
            end % 4096 == 0,
        ensures
            final(self)@.wf(),
            final(self)@.is_root(root as int),
            final(self)@.root == old(self)@.root,
            match id_map_head(old(self)@, root as int, va as int, end as int, flags) {
                Some((pt, v)) => r == Ok::<usize, MapError>(v as usize) && final(self)@ == pt && v % 4096 == 0
                    && va <= v && (v <= end || v == va) && (v % 0x20_0000 == 0 || v >= end),
                None => r == Err::<usize, MapError>(MapError::OutOfPtPages),
            },
            final(self)@ == id_head_left(old(self)@, root as int, va as int, end as int, flags),
    {
        let mut cur = va;
        while cur < end && cur % SIZE_2M != 0
            invariant
                va <= cur,
                cur <= end || cur == va,
                cur % 4096 == 0,
                end % 4096 == 0,
                self@.wf(),
                self@.is_root(root as int),
                self@.root == old(self)@.root,
                id_map_head(self@, root as int, cur as int, end as int, flags) == id_map_head(
                    old(self)@,
                    root as int,
                    va as int,
                    end as int,
                    flags,
                ),
                id_head_left(self@, root as int, cur as int, end as int, flags) == id_head_left(
                    old(self)@,
                    root as int,
                    va as int,
                    end as int,
                    flags,
                ),
            decreases end - cur,
        {
            match self.map_4k(root, cur, cur, flags) {
                Ok(()) => {},
                Err(e) => {
                    return Err(e);
                },
            }
            cur += SIZE_4K;
        }
        Ok(cur)
    }

    /// Installs 2 MiB identity leaves from `va` on, as many as end at or
    /// below `end`; returns the address reached.
    fn id_middle(&mut self, root: usize, va: usize, end: usize, flags: u64) -> (r: Result<usize, MapError>)
        requires
            old(self)@.wf(),
            old(self)@.is_root(root as int),
            va % 4096 == 0,
            end % 4096 == 0,
            va % SIZE_2M == 0 || end - va < SIZE_2M,
            pte_leaf(flags),
        ensures
            final(self)@.wf(),
            final(self)@.is_root(root as int),
            final(self)@.root == old(self)@.root,
            match id_map_middle(old(self)@, root as int, va as int, end as int, flags) {
                Some((pt, v)) => r == Ok::<usize, MapError>(v as usize) && final(self)@ == pt && v % 4096 == 0
                    && va <= v && (v <= end || v == va),
                None => r == Err::<usize, MapError>(MapError::OutOfPtPages),
            },
            final(self)@ == id_middle_left(old(self)@, root as int, va as int, end as int, flags),
    {
        let mut cur = va;
        while cur <= end && end - cur >= SIZE_2M
            invariant
                va <= cur,
                cur <= end || cur == va,
                cur % 4096 == 0,
                end % 4096 == 0,
                cur % SIZE_2M == 0 || end - cur < SIZE_2M,
                pte_leaf(flags),
                self@.wf(),
                self@.is_root(root as int),
                self@.root == old(self)@.root,
                id_map_middle(self@, root as int, cur as int, end as int, flags) == id_map_middle(
                    old(self)@,
                    root as int,
                    va as int,
                    end as int,
                    flags,
                ),
                id_middle_left(self@, root as int, cur as int, end as int, flags) == id_middle_left(
                    old(self)@,
                    root as int,
                    va as int,
                    end as int,
                    flags,
                ),
            decreases end - cur,
        {
            match self.map_2m(root, cur, cur, flags) {
                Ok(()) => {},
                Err(e) => {
                    return Err(e);
                },
            }
            cur += SIZE_2M;
        }
        Ok(cur)
    }

    /// Installs 4 KiB identity leaves from `va` up to `end`.
    fn id_tail(&mut self, root: usize, va: usize, end: usize, flags: u64) -> (r: Result<(), MapError>)
        requires
            old(self)@.wf(),
            old(self)@.is_root(root as int),
            va % 4096 == 0,
            end % 4096 == 0,
        ensures
            final(self)@.wf(),
            final(self)@.is_root(root as int),
            final(self)@.root == old(self)@.root,
            match id_map_tail(old(self)@, root as int, va as int, end as int, flags) {
                Some(pt) => r is Ok && final(self)@ == pt,
                None => r == Err::<(), MapError>(MapError::OutOfPtPages),
            },
            final(self)@ == id_tail_left(old(self)@, root as int, va as int, end as int, flags),
    {
        let mut cur = va;
        while cur < end
            invariant
                cur % 4096 == 0,
                end % 4096 == 0,
                self@.wf(),
                self@.is_root(root as int),
                self@.root == old(self)@.root,
                id_map_tail(self@, root as int, cur as int, end as int, flags) == id_map_tail(
                    old(self)@,
                    root as int,
                    va as int,
                    end as int,
                    flags,
                ),
                id_tail_left(self@, root as int, cur as int, end as int, flags) == id_tail_left(
                    old(self)@,
                    root as int,
                    va as int,
                    end as int,
                    flags,
                ),
            decreases end - cur,
        {
            match self.map_4k(root, cur, cur, flags) {
                Ok(()) => {},
                Err(e) => {
                    return Err(e);
                },
            }
            cur += SIZE_4K;
        }
        Ok(())
    }

    /// Maps the bytes from `base` to `base + len`, rounded out to pages, to
    /// themselves, with the largest pages that fit. After a failure the
    /// tables hold the leaves installed up to it.
    pub fn id_map_region(&mut self, root: usize, base: usize, len: usize, flags_2m: u64, flags_4k: u64) -> (r:
        Result<(), MapError>)
        requires
            old(self)@.wf(),
            old(self)@.is_root(root as int),
            base + len + 4095 <= usize::MAX,
            pte_leaf(flags_2m),
        ensures
            final(self)@.wf(),
            final(self)@.is_root(root as int),
            final(self)@.root == old(self)@.root,
            match id_map(old(self)@, root as int, base as int, len as int, flags_2m, flags_4k) {
                Some(pt) => r is Ok && final(self)@ == pt,
                None => r == Err::<(), MapError>(MapError::OutOfPtPages),
            },
            final(self)@ == id_map_left(old(self)@, root as int, base as int, len as int, flags_2m, flags_4k),
    {
        let start: usize = base - base % 4096;
        let end: usize = (base + len + 4095) / 4096 * 4096;
        let v1 = match self.id_head(root, start, end, flags_4k) {
            Ok(v) => v,
            Err(e) => {
                return Err(e);
            },
        };
        let v2 = match self.id_middle(root, v1, end, flags_2m) {
            Ok(v) => v,
            Err(e) => {
                return Err(e);
            },
        };
        self.id_tail(root, v2, end, flags_4k)
    }

    /// Builds the kernel's map in a fresh root table, records the root, and
    /// returns the value to write to the translation register. After a
    /// failure the tables hold what was built up to it.
    pub fn enable_sv39(&mut self) -> (r: Result<u64, MapError>)
        requires
            old(self)@.wf(),
        ensures
            final(self)@.wf(),
            match kernel_map(old(self)@) {
                Some(pt) => final(self)@ == pt && r == Ok::<u64, MapError>(satp_for(pt.root as usize)) && pt.root
                    != 0,
                None => r == Err::<u64, MapError>(MapError::OutOfPtPages),
            },
            final(self)@ == kernel_map_left(old(self)@),
    {
        if self.pt_free() == 0 {
            return Err(MapError::OutOfPtPages);
        }
        let ghost before = self@;
        let root = self.new_root();
        assert(0xcfu64 & 0x0e != 0) by (bit_vector);
        match self.id_map_region(root, DRAM_BASE, DRAM_SIZE, RWX, RWX) {
            Ok(()) => {},
            Err(e) => {
                return Err(e);
            },
        }
        match self.map_4k(root, UART0, UART0, RW) {
            Ok(()) => {},
            Err(e) => {
                return Err(e);
            },
        }
        let satp: u64 = (SATP_SV39 << 60) | (ppn(root) & 0xfff_ffff_ffff);
        Ok(satp)
    }
}

} // verus!
