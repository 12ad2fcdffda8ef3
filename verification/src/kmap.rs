//! What the identity maps guarantee: every address that was mapped to
//! itself translates to itself.

use vstd::prelude::*;
use crate::sv39::{
    gap, id_map, id_map_head, id_map_middle, id_map_tail, kernel_map, leaf_flags, lemma_install_frame,
    lemma_install_walk, lemma_leaf_pte, lemma_make_pte_leaf, lemma_map_leaf, lemma_vpn_bounds, make_pte, page_ceil,
    page_floor, page_offset, pte_addr, pte_is_table, same_region, spec_vpn, Leaf, Tables, DRAM_BASE, DRAM_SIZE,
    PA_LIMIT, RW, RWX, UART0,
};

verus! {

/// End of the 39-bit address space.
pub const VA_LIMIT: u64 = 0x80_0000_0000;

/// Bytes that a leaf of the given level maps.
pub open spec fn region_size(level: nat) -> int {
    if level == 0 {
        0x1000
    } else {
        0x20_0000
    }
}

/// Whether an address translates to itself through a leaf of the given level.
pub open spec fn maps_to_itself(pt: Tables, root: int, a: usize, level: nat) -> bool {
    &&& pt.walk(root, a) is Some
    &&& pt.walk(root, a).unwrap().level == level
    &&& pt.translate(root, a) == Some(a as int)
}

/// In the 39-bit space, two addresses have the same indices down to a level
/// exactly when they lie in the same region of that level's size.
pub proof fn lemma_regions(x: usize, y: usize)
    requires
        x < VA_LIMIT,
        y < VA_LIMIT,
    ensures
        same_region(x, y, 0) <==> x as int / 0x1000 == y as int / 0x1000,
        same_region(x, y, 1) <==> x as int / 0x20_0000 == y as int / 0x20_0000,
{
    let a: u64 = x as u64;
    let b: u64 = y as u64;
    lemma_vpn_bounds(x);
    lemma_vpn_bounds(y);
    assert(((a >> 12) & 0x1ff) < 512 && ((a >> 21) & 0x1ff) < 512 && ((a >> 30) & 0x1ff) < 512) by (bit_vector);
    assert(((b >> 12) & 0x1ff) < 512 && ((b >> 21) & 0x1ff) < 512 && ((b >> 30) & 0x1ff) < 512) by (bit_vector);
    assert(a < 0x80_0000_0000u64 && b < 0x80_0000_0000u64 ==> ((((a >> 12) & 0x1ff) == ((b >> 12) & 0x1ff) && ((a
        >> 21) & 0x1ff) == ((b >> 21) & 0x1ff) && ((a >> 30) & 0x1ff) == ((b >> 30) & 0x1ff)) <==> a / 0x1000
        == b / 0x1000)) by (bit_vector);
    assert(a < 0x80_0000_0000u64 && b < 0x80_0000_0000u64 ==> ((((a >> 21) & 0x1ff) == ((b >> 21) & 0x1ff) && ((a
        >> 30) & 0x1ff) == ((b >> 30) & 0x1ff)) <==> a / 0x20_0000 == b / 0x20_0000)) by (bit_vector);
    assert(spec_vpn(x, 0) == spec_vpn(y, 0) <==> ((a >> 12) & 0x1ff) == ((b >> 12) & 0x1ff));
    assert(spec_vpn(x, 1) == spec_vpn(y, 1) <==> ((a >> 21) & 0x1ff) == ((b >> 21) & 0x1ff));
    assert(spec_vpn(x, 2) == spec_vpn(y, 2) <==> ((a >> 30) & 0x1ff) == ((b >> 30) & 0x1ff));
}

/// Installing a leaf leaves the translation of an address alone that a leaf
/// of level 0 or 1 maps, and that shares no region with the new leaf at the
/// higher of the two levels.
proof fn lemma_step_keeps(pt: Tables, root: int, va: usize, level: nat, e: u64, a: usize)
    requires
        pt.wf(),
        pt.is_root(root),
        level <= 1,
        pt.map_fits(root, va, level),
        level == 1 ==> !pte_is_table(e),
        va < VA_LIMIT,
        a < VA_LIMIT,
        pt.walk(root, a) is Some,
        pt.walk(root, a).unwrap().level <= 1,
        va as int / 0x20_0000 != a as int / 0x20_0000 || (level == 0 && pt.walk(root, a).unwrap().level == 0
            && va as int / 0x1000 != a as int / 0x1000),
    ensures
        pt.map_leaf(root, va, level, e).walk(root, a) == pt.walk(root, a),
        pt.map_leaf(root, va, level, e).translate(root, a) == pt.translate(root, a),
{
    lemma_regions(va, a);
    lemma_map_leaf(pt, root, va, level, e);
    lemma_install_frame(pt, pt.map_leaf(root, va, level, e), root, va, level, a);
}

/// Installing a leaf for an address that lies at the start of its region,
/// with that address as the physical one, makes every address of the region
/// translate to itself.
proof fn lemma_step_maps(pt: Tables, root: int, va: usize, level: nat, flags: u64, a: usize)
    requires
        pt.wf(),
        pt.is_root(root),
        level <= 1,
        pt.map_fits(root, va, level),
        leaf_flags(flags),
        va < VA_LIMIT,
        a < VA_LIMIT,
        va as int % region_size(level) == 0,
        va <= a < va + region_size(level),
    ensures
        maps_to_itself(pt.map_leaf(root, va, level, make_pte(va, flags)), root, a, level),
{
    let e = make_pte(va, flags);
    lemma_regions(va, a);
    lemma_leaf_pte(va, flags);
    lemma_make_pte_leaf(va, flags);
    lemma_map_leaf(pt, root, va, level, e);
    lemma_install_walk(pt, pt.map_leaf(root, va, level, e), root, va, level, a);
}

/// Mapping pages from `va` on keeps the tables sound and, if `keep`, leaves
/// alone an address that was mapped below `va`.
proof fn lemma_tail_keeps(pt: Tables, root: int, va: int, end: int, flags: u64, a: usize, level: nat, keep: bool)
    requires
        pt.wf(),
        pt.is_root(root),
        0 <= va,
        va % 0x1000 == 0,
        end <= VA_LIMIT,
        end <= usize::MAX,
        id_map_tail(pt, root, va, end, flags) is Some,
        keep ==> {
            &&& maps_to_itself(pt, root, a, level)
            &&& level <= 1
            &&& a < VA_LIMIT
            &&& level == 0 ==> a as int / 0x1000 < va / 0x1000
            &&& level == 1 ==> a as int / 0x20_0000 < va / 0x20_0000
        },
    ensures
        keep ==> maps_to_itself(id_map_tail(pt, root, va, end, flags).unwrap(), root, a, level),
        id_map_tail(pt, root, va, end, flags).unwrap().wf(),
        id_map_tail(pt, root, va, end, flags).unwrap().is_root(root),
        id_map_tail(pt, root, va, end, flags).unwrap().root == pt.root,
    decreases gap(va, end),
{
    if va < end {
        let e = make_pte(va as usize, flags);
        lemma_map_leaf(pt, root, va as usize, 0, e);
        if keep {
            lemma_step_keeps(pt, root, va as usize, 0, e, a);
        }
        lemma_tail_keeps(pt.map_leaf(root, va as usize, 0, e), root, va + 4096, end, flags, a, level, keep);
    }
}

/// Mapping pages from `va` up to `end` maps each of their addresses to
/// itself.
proof fn lemma_tail_maps(pt: Tables, root: int, va: int, end: int, flags: u64, a: usize)
    requires
        pt.wf(),
        pt.is_root(root),
        0 <= va,
        va % 0x1000 == 0,
        end % 0x1000 == 0,
        end <= VA_LIMIT,
        end <= usize::MAX,
        leaf_flags(flags),
        id_map_tail(pt, root, va, end, flags) is Some,
        va <= a < end,
    ensures
        maps_to_itself(id_map_tail(pt, root, va, end, flags).unwrap(), root, a, 0),
    decreases gap(va, end),
{
    let e = make_pte(va as usize, flags);
    let s1 = pt.map_leaf(root, va as usize, 0, e);
    lemma_map_leaf(pt, root, va as usize, 0, e);
    if a < va + 4096 {
        lemma_step_maps(pt, root, va as usize, 0, flags, a);
        lemma_tail_keeps(s1, root, va + 4096, end, flags, a, 0, true);
    } else {
        lemma_tail_maps(s1, root, va + 4096, end, flags, a);
    }
}

/// Mapping the head ends at a 2 MiB boundary or at `end`, keeps the tables
/// sound and, if `keep`, leaves alone an address that was mapped below `va`.
proof fn lemma_head_keeps(pt: Tables, root: int, va: int, end: int, flags: u64, a: usize, level: nat, keep: bool)
    requires
        pt.wf(),
        pt.is_root(root),
        0 <= va,
        va % 0x1000 == 0,
        end % 0x1000 == 0,
        end <= VA_LIMIT,
        end <= usize::MAX,
        id_map_head(pt, root, va, end, flags) is Some,
        keep ==> {
            &&& maps_to_itself(pt, root, a, level)
            &&& level <= 1
            &&& a < VA_LIMIT
            &&& level == 0 ==> a as int / 0x1000 < va / 0x1000
            &&& level == 1 ==> a as int / 0x20_0000 < va / 0x20_0000
        },
    ensures
        ({
            let r = id_map_head(pt, root, va, end, flags).unwrap();
            &&& r.0.wf()
            &&& r.0.is_root(root)
            &&& r.0.root == pt.root
            &&& va <= r.1
            &&& r.1 % 0x1000 == 0
            &&& r.1 <= end || r.1 == va
            &&& r.1 % 0x20_0000 == 0 || r.1 >= end
            &&& keep ==> maps_to_itself(r.0, root, a, level)
        }),
    decreases gap(va, end),
{
    if va < end && va % 0x20_0000 != 0 {
        let e = make_pte(va as usize, flags);
        lemma_map_leaf(pt, root, va as usize, 0, e);
        if keep {
            lemma_step_keeps(pt, root, va as usize, 0, e, a);
        }
        lemma_head_keeps(pt.map_leaf(root, va as usize, 0, e), root, va + 4096, end, flags, a, level, keep);
    }
}

/// Mapping the head maps each address between `va` and where it ends to
/// itself.
proof fn lemma_head_maps(pt: Tables, root: int, va: int, end: int, flags: u64, a: usize)
    requires
        pt.wf(),
        pt.is_root(root),
        0 <= va,
        va % 0x1000 == 0,
        end % 0x1000 == 0,
        end <= VA_LIMIT,
        end <= usize::MAX,
        leaf_flags(flags),
        id_map_head(pt, root, va, end, flags) is Some,
        va <= a < id_map_head(pt, root, va, end, flags).unwrap().1,
    ensures
        maps_to_itself(id_map_head(pt, root, va, end, flags).unwrap().0, root, a, 0),
    decreases gap(va, end),
{
    if va < end && va % 0x20_0000 != 0 {
        let e = make_pte(va as usize, flags);
        let s1 = pt.map_leaf(root, va as usize, 0, e);
        lemma_map_leaf(pt, root, va as usize, 0, e);
        if a < va + 4096 {
            lemma_step_maps(pt, root, va as usize, 0, flags, a);
            lemma_head_keeps(s1, root, va + 4096, end, flags, a, 0, true);
        } else {
            lemma_head_maps(s1, root, va + 4096, end, flags, a);
        }
    }
}

/// Mapping large pages from `va` on ends at a 2 MiB boundary if it maps
/// any, keeps the tables sound and, if `keep`, leaves alone an address that
/// was mapped below `va`.
proof fn lemma_middle_keeps(pt: Tables, root: int, va: int, end: int, flags: u64, a: usize, level: nat, keep: bool)
    requires
        pt.wf(),
        pt.is_root(root),
        0 <= va,
        va % 0x1000 == 0,
        va % 0x20_0000 == 0 || end - va < 0x20_0000,
        end <= VA_LIMIT,
        end <= usize::MAX,
        leaf_flags(flags),
        id_map_middle(pt, root, va, end, flags) is Some,
        keep ==> {
            &&& maps_to_itself(pt, root, a, level)
            &&& level <= 1
            &&& a < va
        },
    ensures
        ({
            let r = id_map_middle(pt, root, va, end, flags).unwrap();
            &&& r.0.wf()
            &&& r.0.is_root(root)
            &&& r.0.root == pt.root
            &&& va <= r.1
            &&& r.1 % 0x1000 == 0
            &&& r.1 <= end || r.1 == va
            &&& r.1 == va || r.1 % 0x20_0000 == 0
            &&& end - r.1 < 0x20_0000
            &&& keep ==> maps_to_itself(r.0, root, a, level)
        }),
    decreases gap(va, end),
{
    if end - va >= 0x20_0000 {
        let e = make_pte(va as usize, flags);
        lemma_leaf_pte(va as usize, flags);
        lemma_map_leaf(pt, root, va as usize, 1, e);
        if keep {
            lemma_step_keeps(pt, root, va as usize, 1, e, a);
        }
        lemma_middle_keeps(pt.map_leaf(root, va as usize, 1, e), root, va + 0x20_0000, end, flags, a, level, keep);
    }
}

/// Mapping large pages maps each address between `va` and where it ends to
/// itself.
proof fn lemma_middle_maps(pt: Tables, root: int, va: int, end: int, flags: u64, a: usize)
    requires
        pt.wf(),
        pt.is_root(root),
        0 <= va,
        va % 0x20_0000 == 0,
        end <= VA_LIMIT,
        end <= usize::MAX,
        leaf_flags(flags),
        id_map_middle(pt, root, va, end, flags) is Some,
        va <= a < id_map_middle(pt, root, va, end, flags).unwrap().1,
    ensures
        maps_to_itself(id_map_middle(pt, root, va, end, flags).unwrap().0, root, a, 1),
    decreases gap(va, end),
{
    if end - va >= 0x20_0000 {
        let e = make_pte(va as usize, flags);
        let s1 = pt.map_leaf(root, va as usize, 1, e);
        lemma_leaf_pte(va as usize, flags);
        lemma_map_leaf(pt, root, va as usize, 1, e);
        if a < va + 0x20_0000 {
            lemma_step_maps(pt, root, va as usize, 1, flags, a);
            lemma_middle_keeps(s1, root, va + 0x20_0000, end, flags, a, 1, true);
        } else {
            lemma_middle_maps(s1, root, va + 0x20_0000, end, flags, a);
        }
    }
}

/// After a range inside the 39-bit space was mapped to itself with leaf
/// flags, each address of its pages translates to itself.
pub proof fn lemma_id_map_identity(pt: Tables, root: int, base: int, len: int, flags_2m: u64, flags_4k: u64, a: usize)
    requires
        pt.wf(),
        pt.is_root(root),
        0 <= base,
        0 <= len,
        page_ceil(base + len) <= VA_LIMIT,
        page_ceil(base + len) <= usize::MAX,
        leaf_flags(flags_2m),
        leaf_flags(flags_4k),
        id_map(pt, root, base, len, flags_2m, flags_4k) is Some,
        page_floor(base) <= a < page_ceil(base + len),
    ensures
        id_map(pt, root, base, len, flags_2m, flags_4k).unwrap().translate(root, a) == Some(a as int),
        id_map(pt, root, base, len, flags_2m, flags_4k).unwrap().wf(),
        id_map(pt, root, base, len, flags_2m, flags_4k).unwrap().is_root(root),
        id_map(pt, root, base, len, flags_2m, flags_4k).unwrap().root == pt.root,
{
    let start = page_floor(base);
    let end = page_ceil(base + len);
    let headed = id_map_head(pt, root, start, end, flags_4k).unwrap();
    let filled = id_map_middle(headed.0, root, headed.1, end, flags_2m).unwrap();
    let last = id_map_tail(filled.0, root, filled.1, end, flags_4k).unwrap();
    lemma_head_keeps(pt, root, start, end, flags_4k, a, 0, false);
    lemma_middle_keeps(headed.0, root, headed.1, end, flags_2m, a, 0, false);
    lemma_tail_keeps(filled.0, root, filled.1, end, flags_4k, a, 0, false);
    if a < headed.1 {
        lemma_head_maps(pt, root, start, end, flags_4k, a);
        lemma_head_keeps(pt, root, start, end, flags_4k, a, 0, false);
        lemma_middle_keeps(headed.0, root, headed.1, end, flags_2m, a, 0, true);
        lemma_tail_keeps(filled.0, root, filled.1, end, flags_4k, a, 0, true);
    } else if a < filled.1 {
        lemma_head_keeps(pt, root, start, end, flags_4k, a, 0, false);
        lemma_middle_maps(headed.0, root, headed.1, end, flags_2m, a);
        lemma_middle_keeps(headed.0, root, headed.1, end, flags_2m, a, 0, false);
        lemma_tail_keeps(filled.0, root, filled.1, end, flags_4k, a, 1, true);
    } else {
        lemma_head_keeps(pt, root, start, end, flags_4k, a, 0, false);
        lemma_middle_keeps(headed.0, root, headed.1, end, flags_2m, a, 0, false);
        lemma_tail_maps(filled.0, root, filled.1, end, flags_4k, a);
        lemma_tail_keeps(filled.0, root, filled.1, end, flags_4k, a, 0, false);
    }
}

/// In the kernel's map, every address of DRAM and of the UART's page
/// translates to itself.
pub proof fn lemma_kernel_map_identity(pt: Tables, a: usize)
    requires
        pt.wf(),
        kernel_map(pt) is Some,
        DRAM_BASE <= a < DRAM_BASE + DRAM_SIZE || UART0 <= a < UART0 + 0x1000,
    ensures
        kernel_map(pt).unwrap().wf(),
        kernel_map(pt).unwrap().root != 0,
        kernel_map(pt).unwrap().translate(kernel_map(pt).unwrap().root as int, a) == Some(a as int),
{
    let rooted = Tables { root: pt.table_pa(pt.used as int) as nat, ..pt.grown(2, (0, 0)) };
    let root = rooted.root as int;
    crate::sv39::lemma_rooted(pt);
    assert(0xcfu64 < 0x400 && 0xcfu64 & 0x01 != 0 && 0xcfu64 & 0x0e != 0) by (bit_vector);
    assert(0xc7u64 < 0x400 && 0xc7u64 & 0x01 != 0 && 0xc7u64 & 0x0e != 0) by (bit_vector);
    let mapped = id_map(rooted, root, DRAM_BASE as int, DRAM_SIZE as int, RWX, RWX).unwrap();
    lemma_id_map_identity(rooted, root, DRAM_BASE as int, DRAM_SIZE as int, RWX, RWX, DRAM_BASE);
    if a >= DRAM_BASE {
        lemma_id_map_identity(rooted, root, DRAM_BASE as int, DRAM_SIZE as int, RWX, RWX, a);
        lemma_map_leaf(mapped, root, UART0, 0, make_pte(UART0, RW));
        lemma_dram_leaf(rooted, root, a);
        lemma_step_keeps(mapped, root, UART0, 0, make_pte(UART0, RW), a);
    } else {
        lemma_step_maps(mapped, root, UART0, 0, RW, a);
        lemma_map_leaf(mapped, root, UART0, 0, make_pte(UART0, RW));
    }
}

/// DRAM is mapped by leaves of level 0 or 1.
proof fn lemma_dram_leaf(pt: Tables, root: int, a: usize)
    requires
        pt.wf(),
        pt.is_root(root),
        id_map(pt, root, DRAM_BASE as int, DRAM_SIZE as int, RWX, RWX) is Some,
        DRAM_BASE <= a < DRAM_BASE + DRAM_SIZE,
    ensures
        id_map(pt, root, DRAM_BASE as int, DRAM_SIZE as int, RWX, RWX).unwrap().walk(root, a) is Some,
        id_map(pt, root, DRAM_BASE as int, DRAM_SIZE as int, RWX, RWX).unwrap().walk(root, a).unwrap().level <= 1,
{
    assert(0xcfu64 < 0x400 && 0xcfu64 & 0x01 != 0 && 0xcfu64 & 0x0e != 0) by (bit_vector);
    let start = page_floor(DRAM_BASE as int);
    let end = page_ceil(DRAM_BASE + DRAM_SIZE);
    let headed = id_map_head(pt, root, start, end, RWX).unwrap();
    let filled = id_map_middle(headed.0, root, headed.1, end, RWX).unwrap();
    if a < headed.1 {
        lemma_head_maps(pt, root, start, end, RWX, a);
        lemma_head_keeps(pt, root, start, end, RWX, a, 0, false);
        lemma_middle_keeps(headed.0, root, headed.1, end, RWX, a, 0, true);
        lemma_tail_keeps(filled.0, root, filled.1, end, RWX, a, 0, true);
    } else if a < filled.1 {
        lemma_head_keeps(pt, root, start, end, RWX, a, 0, false);
        lemma_middle_maps(headed.0, root, headed.1, end, RWX, a);
        lemma_middle_keeps(headed.0, root, headed.1, end, RWX, a, 0, false);
        lemma_tail_keeps(filled.0, root, filled.1, end, RWX, a, 1, true);
    } else {
        lemma_head_keeps(pt, root, start, end, RWX, a, 0, false);
        lemma_middle_keeps(headed.0, root, headed.1, end, RWX, a, 0, false);
        lemma_tail_maps(filled.0, root, filled.1, end, RWX, a);
    }
}

} // verus!
