//! Page-table entry encoding and virtual-address slicing.
use vstd::prelude::*;

verus! {

/// Width of the in-page offset of a virtual or physical address.
pub const PAGE_SHIFT: usize = 12;

/// Size of one giant page: the leaf granularity at level 2 (1 GiB).
pub const GIGA_PGSIZE: u64 = 0x4000_0000;

/// Valid bit of a page-table entry.
pub const PTE_V: u64 = 0x01;

/// Index of the translation level that holds giant-page leaves.
pub const LEAF_LEVEL: usize = 2;

/// Bit position of the first index bit for `level`.
pub open spec fn level_shift(level: usize) -> u64 {
    (12 + 9 * level) as u64
}

/// The 9-bit slice of `va` that selects an entry at `level`.
pub open spec fn table_index(level: usize, va: u64) -> usize {
    ((va >> level_shift(level)) & 0x1ff) as usize
}

/// The entry field that holds the frame number of `pa`.
pub open spec fn frame_field(pa: u64) -> u64 {
    (pa >> 12u64) << 10u64
}

/// The physical address whose frame number `pte` holds.
pub open spec fn entry_frame(pte: u64) -> u64 {
    (pte >> 10u64) << 12u64
}

/// A leaf entry mapping `pa` with the permission bits `prot`.
pub open spec fn leaf_entry(pa: u64, prot: u64) -> u64 {
    frame_field(pa) | prot | PTE_V
}

/// Extracts the index into the table at `level` that `va` selects.
pub fn px(level: usize, va: u64) -> (r: usize)
    requires
        level <= 5,
    ensures
        r == table_index(level, va),
        r < 512,
{
    let shift: u64 = 12 + 9 * level as u64;
    let r: u64 = (va >> shift) & 0x1ff;
    assert(r < 512) by (bit_vector)
        requires r == (va >> shift) & 0x1ff;
    r as usize
}

/// Packs the frame number of `pa` into the frame field of an entry.
pub fn pa2_pte(pa: u64) -> (r: u64)
    ensures
        r == frame_field(pa),
{
    (pa >> 12u64) << 10u64
}

/// Unpacks the physical address whose frame number `pte` holds.
pub fn pte2_pa(pte: u64) -> (r: u64)
    ensures
        r == entry_frame(pte),
{
    (pte >> 10u64) << 12u64
}

/// Builds a valid leaf entry for `pa` with the permission bits `prot`.
pub fn encode_leaf(pa: u64, prot: u64) -> (r: u64)
    ensures
        r == leaf_entry(pa, prot),
{
    pa2_pte(pa) | prot | PTE_V
}

/// Rounds `a` down to a giant-page boundary.
pub fn pg_round_down(a: u64) -> (r: u64)
    ensures
        r == a - a % GIGA_PGSIZE,
        r % GIGA_PGSIZE == 0,
{
    let r = a & !(GIGA_PGSIZE - 1);
    assert(a & !0x3fff_ffffu64 == a - a % 0x4000_0000u64 && (a & !0x3fff_ffffu64) % 0x4000_0000u64 == 0) by (bit_vector);
    r
}

/// Decoding the frame of a leaf entry gives back the page-aligned
/// physical address it was built from, whatever permission bits (below
/// the frame field) it carries.
pub proof fn lemma_leaf_round_trip(pa: u64, prot: u64)
    requires
        pa % 4096 == 0,
        prot < 1024,
    ensures
        entry_frame(leaf_entry(pa, prot)) == pa,
{
    assert(((((pa >> 12u64) << 10u64) | prot | 1u64) >> 10u64) << 12u64 == pa) by (bit_vector)
        requires pa % 4096 == 0, prot < 1024;
}

/// The index for a level lies in `[0, 512)`, and depends on the address
/// alone: equal addresses select equal entries.
pub proof fn lemma_table_index(level: usize, v1: u64, v2: u64)
    requires
        level <= 5,
    ensures
        table_index(level, v1) < 512,
        v1 == v2 ==> table_index(level, v1) == table_index(level, v2),
{
    let s = level_shift(level);
    assert((v1 >> s) & 0x1ff < 512) by (bit_vector);
}

} // verus!
