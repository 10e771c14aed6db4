//! The boot sequence: the three boot aliases, the translation-mode
//! setting that switches translation on, and the call-frame fixup after it.
use vstd::prelude::*;
use crate::codec::{
    entry_frame, frame_field, leaf_entry, lemma_leaf_round_trip, level_shift, table_index, GIGA_PGSIZE,
};
use crate::tables::{
    chunk_count, entry_at, lemma_reach_dead, lemma_reach_indices, missing_down, reach, idx, giant_floor, mapped_range, same_giant, table_addr, BootTables, POOL_PAGES,
};

verus! {

/// Virtual address the kernel is linked at (the high-half alias).
pub const KERNEL_BASE: u64 = 0xffff_ffff_c000_0000;

/// Gap between a physical address and its linear alias.
pub const PHYS_VIRT_OFFSET: u64 = 0xffff_ffc0_0000_0000;

/// Physical address the kernel image is loaded at.
pub const PHYS_LOAD_BASE: u64 = 0x8000_0000;

/// Linear alias of the physical load address.
pub const LINEAR_LOAD_BASE: u64 = PHYS_LOAD_BASE + PHYS_VIRT_OFFSET;

/// Size of the loaded region that the boot aliases cover.
pub const PHYS_LOAD_SIZE: u64 = 0x4000_0000;

/// Valid, readable, writable, executable, global, accessed and dirty.
pub const BOOT_PROT: u64 = 0xef;

/// The leaf entry that every boot alias holds.
pub open spec fn boot_leaf() -> u64 {
    leaf_entry(PHYS_LOAD_BASE, BOOT_PROT)
}

/// The address `o` bytes past `a`.
pub open spec fn offset(a: u64, o: u64) -> u64 {
    (a + o) as u64
}

/// Linear-alias virtual address of the physical address `paddr`.
pub fn phys_to_virt(paddr: u64) -> (r: u64)
    requires
        paddr <= u64::MAX - PHYS_VIRT_OFFSET,
    ensures
        r == paddr + PHYS_VIRT_OFFSET,
{
    paddr + PHYS_VIRT_OFFSET
}

/// Addresses within one giant page from a giant-page boundary select the
/// same entries as the boundary at every level from 2 up.
pub proof fn lemma_giant_offset(depth: int, a: u64, o: u64)
    requires
        depth <= 5,
        a % 0x4000_0000 == 0,
        o < 0x4000_0000,
    ensures
        same_giant(depth, (a + o) as u64, a),
{
    let x = (a + o) as u64;
    assert(a + o <= u64::MAX) by {
        assert(a <= u64::MAX - 0x3fff_ffff);
    }
    assert forall|l: int| 2 <= l < depth implies #[trigger] idx(l, x) == idx(l, a) by {
        let s = level_shift(l as usize);
        assert(30 <= s < 64);
        assert((x >> s) & 0x1ff == (a >> s) & 0x1ff) by (bit_vector)
            requires
                x == a + o,
                a % 0x4000_0000 == 0,
                o < 0x4000_0000,
                30 <= s < 64,
        ;
    }
}

/// The entries that the three boot aliases select at levels 2 to 4.
proof fn lemma_alias_indices()
    ensures
        idx(2, PHYS_LOAD_BASE) == 2,
        idx(3, PHYS_LOAD_BASE) == 0,
        idx(4, PHYS_LOAD_BASE) == 0,
        idx(2, LINEAR_LOAD_BASE) == 0x102,
        idx(3, LINEAR_LOAD_BASE) == 0x1ff,
        idx(4, LINEAR_LOAD_BASE) == 0x1ff,
        idx(2, KERNEL_BASE) == 0x1ff,
        idx(3, KERNEL_BASE) == 0x1ff,
        idx(4, KERNEL_BASE) == 0x1ff,
{
    assert((0x8000_0000u64 >> 30u64) & 0x1ffu64 == 2) by (bit_vector);
    assert((0x8000_0000u64 >> 39u64) & 0x1ffu64 == 0) by (bit_vector);
    assert((0x8000_0000u64 >> 48u64) & 0x1ffu64 == 0) by (bit_vector);
    assert((0xffff_ffc0_8000_0000u64 >> 30u64) & 0x1ffu64 == 0x102) by (bit_vector);
    assert((0xffff_ffc0_8000_0000u64 >> 39u64) & 0x1ffu64 == 0x1ff) by (bit_vector);
    assert((0xffff_ffc0_8000_0000u64 >> 48u64) & 0x1ffu64 == 0x1ff) by (bit_vector);
    assert((0xffff_ffff_c000_0000u64 >> 30u64) & 0x1ffu64 == 0x1ff) by (bit_vector);
    assert((0xffff_ffff_c000_0000u64 >> 39u64) & 0x1ffu64 == 0x1ff) by (bit_vector);
    assert((0xffff_ffff_c000_0000u64 >> 48u64) & 0x1ffu64 == 0x1ff) by (bit_vector);
}

/// A walk that finds the root entry of `va` invalid reaches no lower level.
proof fn lemma_root_gap(m: Seq<u64>, base: u64, depth: int, va: u64)
    requires
        3 <= depth <= 5,
        entry_at(m, 0, idx(depth - 1, va)) == 0,
    ensures
        forall|l: int| 2 <= l < depth - 1 ==> #[trigger] reach(m, base, 0, depth - 1, va, l) < 0,
{
    assert(0u64 & 1 == 0) by (bit_vector);
}

/// The count of missing levels when the walk reaches none, or all, of them.
proof fn lemma_missing_count(m: Seq<u64>, base: u64, depth: int, va: u64)
    requires
        3 <= depth <= 5,
    ensures
        (forall|l: int| 2 <= l < depth - 1 ==> #[trigger] reach(m, base, 0, depth - 1, va, l) < 0)
            ==> missing_down(m, base, depth, va, 2) == depth - 3,
        (forall|l: int| 2 <= l < depth - 1 ==> #[trigger] reach(m, base, 0, depth - 1, va, l) >= 0)
            ==> missing_down(m, base, depth, va, 2) == 0,
{
    assert(missing_down(m, base, depth, va, 5) == 0);
    assert(missing_down(m, base, depth, va, 4) == if depth == 5 {
        missing_down(m, base, depth, va, 5)
    } else {
        0
    });
    if depth >= 5 {
        assert(missing_down(m, base, depth, va, 3) == (if reach(m, base, 0, depth - 1, va, 3) < 0 {
            1int
        } else {
            0int
        }) + missing_down(m, base, depth, va, 4));
    }
    if depth >= 4 {
        assert(missing_down(m, base, depth, va, 2) == (if reach(m, base, 0, depth - 1, va, 2) < 0 {
            1int
        } else {
            0int
        }) + missing_down(m, base, depth, va, 3));
    }
}

/// Maps the loaded kernel region three times: at its own address, at its
/// linear alias and at the kernel's linked base, each with `BOOT_PROT`.
/// `false` when the pool ran out of tables.
pub fn pre_mmu(tables: &mut BootTables) -> (ok: bool)
    requires
        old(tables).wf(),
    ensures
        final(tables).wf(),
        final(tables).base() == old(tables).base(),
        final(tables).depth() == old(tables).depth(),
        ok ==> forall|v: u64|
            final(tables).translate(v) == if same_giant(old(tables).depth(), v, PHYS_LOAD_BASE)
                || same_giant(old(tables).depth(), v, LINEAR_LOAD_BASE)
                || same_giant(old(tables).depth(), v, KERNEL_BASE) {
                boot_leaf()
            } else {
                old(tables).translate(v)
            },
        ok ==> forall|o: u64|
            #![trigger offset(PHYS_LOAD_BASE, o)]
            #![trigger offset(LINEAR_LOAD_BASE, o)]
            #![trigger offset(KERNEL_BASE, o)]
            o < PHYS_LOAD_SIZE ==> {
                &&& final(tables).translate(offset(PHYS_LOAD_BASE, o)) == boot_leaf()
                &&& final(tables).translate(offset(LINEAR_LOAD_BASE, o)) == boot_leaf()
                &&& final(tables).translate(offset(KERNEL_BASE, o)) == boot_leaf()
            },
        entry_frame(boot_leaf()) == PHYS_LOAD_BASE,
        boot_leaf() == 0x2000_00ef,
        ok ==> {
            &&& final(tables).leaf_table(PHYS_LOAD_BASE) >= 0
            &&& final(tables).leaf_table(LINEAR_LOAD_BASE) >= 0
            &&& final(tables).leaf_table(KERNEL_BASE) >= 0
            &&& final(tables).entry_spec(final(tables).leaf_table(PHYS_LOAD_BASE), 2) == boot_leaf()
            &&& final(tables).entry_spec(final(tables).leaf_table(LINEAR_LOAD_BASE), 0x102)
                == boot_leaf()
            &&& final(tables).entry_spec(final(tables).leaf_table(KERNEL_BASE), 0x1ff)
                == boot_leaf()
        },
        forall|j: int|
            0 <= j < 512 && j != idx(old(tables).depth() - 1, PHYS_LOAD_BASE) && j != idx(
                old(tables).depth() - 1,
                LINEAR_LOAD_BASE,
            ) && j != idx(old(tables).depth() - 1, KERNEL_BASE)
                ==> #[trigger] final(tables).entry_spec(0, j) == old(tables).entry_spec(0, j),
        old(tables).allocated() == 0 && (forall|j: int|
            0 <= j < 512 ==> #[trigger] old(tables).entry_spec(0, j) == 0) ==> ok && final(
            tables).allocated() == 2 * (old(tables).depth() - 3),
        old(tables).allocated() == 0 && (forall|j: int|
            0 <= j < 512 ==> #[trigger] old(tables).entry_spec(0, j) == 0) && old(tables).depth()
            > 3 ==> {
            &&& final(tables).entry_spec(0, 0) == frame_field(table_addr(old(tables).base(), 1)) | 1
            &&& final(tables).entry_spec(0, 0x1ff) == frame_field(
                table_addr(old(tables).base(), old(tables).depth() - 2),
            ) | 1
        },
        ok && old(tables).depth() == 3 ==> forall|j: int|
            0 <= j < 512 ==> #[trigger] final(tables).entry_spec(0, j) == if j == 2 || j == 0x102
                || j == 0x1ff {
                boot_leaf()
            } else {
                old(tables).entry_spec(0, j)
            },
        old(tables).allocated() + 3 * (old(tables).depth() - 3) <= POOL_PAGES ==> ok,
{
    let ghost s0 = *tables;
    let ghost depth = tables.depth();
    let ident = PHYS_LOAD_BASE;
    let linear = LINEAR_LOAD_BASE;
    proof {
        lemma_leaf_round_trip(PHYS_LOAD_BASE, BOOT_PROT);
        tables.lemma_wf_bounds();
        assert(chunk_count(ident, GIGA_PGSIZE) == 1);
        assert(chunk_count(linear, GIGA_PGSIZE) == 1);
        assert(chunk_count(KERNEL_BASE, GIGA_PGSIZE) == 1);
    }
    let ghost fresh = s0.allocated() == 0 && (forall|j: int|
        0 <= j < 512 ==> #[trigger] s0.entry_spec(0, j) == 0);
    proof {
        lemma_alias_indices();
        assert(leaf_entry(PHYS_LOAD_BASE, BOOT_PROT) == 0x2000_00ef) by {
            assert((((0x8000_0000u64 >> 12u64) << 10u64) | 0xefu64 | 1u64) == 0x2000_00ef) by (bit_vector);
        }
        assert(giant_floor(ident) == ident);
        assert(giant_floor(linear) == linear);
        assert(giant_floor(KERNEL_BASE) == KERNEL_BASE);
        if fresh {
            crate::codec::lemma_table_index((depth - 1) as usize, ident, ident);
            assert(s0.entry_spec(0, idx(depth - 1, ident)) == 0);
            lemma_root_gap(s0.memory(), s0.base(), depth, ident);
            lemma_missing_count(s0.memory(), s0.base(), depth, ident);
        }
    }
    if !tables.boot_map(ident, PHYS_LOAD_BASE, GIGA_PGSIZE, BOOT_PROT) {
        return false;
    }
    let ghost s1 = *tables;
    proof {
        if fresh {
            crate::codec::lemma_table_index((depth - 1) as usize, linear, linear);
            if depth > 3 {
                assert(s1.entry_spec(0, idx(depth - 1, linear)) == 0);
                lemma_root_gap(s1.memory(), s1.base(), depth, linear);
            }
            lemma_missing_count(s1.memory(), s1.base(), depth, linear);
        }
    }
    if !tables.boot_map(linear, PHYS_LOAD_BASE, GIGA_PGSIZE, BOOT_PROT) {
        return false;
    }
    let ghost s2 = *tables;
    proof {
        lemma_reach_indices(s2.memory(), s2.base(), 0, depth - 1, KERNEL_BASE, linear, 2);
        assert forall|l: int| 2 <= l < depth - 1 implies #[trigger] reach(
            s2.memory(),
            s2.base(),
            0,
            depth - 1,
            KERNEL_BASE,
            l,
        ) >= 0 by {
            if reach(s2.memory(), s2.base(), 0, depth - 1, KERNEL_BASE, l) < 0 {
                lemma_reach_dead(s2.memory(), s2.base(), depth - 1, KERNEL_BASE, l, 2);
            }
        }
        lemma_missing_count(s2.memory(), s2.base(), depth, KERNEL_BASE);
    }
    if !tables.boot_map(KERNEL_BASE, PHYS_LOAD_BASE, GIGA_PGSIZE, BOOT_PROT) {
        return false;
    }
    proof {
        if fresh && depth > 3 {
            assert(s1.entry_spec(0, 0) == frame_field(table_addr(s0.base(), 1)) | 1);
            assert(s1.entry_spec(0, 0x1ff) == 0);
            assert(s2.entry_spec(0, 0) == s1.entry_spec(0, 0));
            assert(s2.entry_spec(0, 0x1ff) == frame_field(table_addr(s0.base(), depth - 2)) | 1);
            assert(tables.entry_spec(0, 0) == s2.entry_spec(0, 0));
            assert(tables.entry_spec(0, 0x1ff) == s2.entry_spec(0, 0x1ff));
        }
        assert(s1.leaf_table(ident) >= 0);
        assert(s2.leaf_table(ident) >= 0);
        assert(s2.leaf_table(linear) >= 0);
        assert(tables.leaf_table(ident) >= 0);
        assert(tables.leaf_table(linear) >= 0);
        assert forall|v: u64|
            tables.translate(v) == if same_giant(depth, v, ident) || same_giant(depth, v, linear)
                || same_giant(depth, v, KERNEL_BASE) {
                boot_leaf()
            } else {
                s0.translate(v)
            } by {
            assert(mapped_range(s0, ident, PHYS_LOAD_BASE, 0, BOOT_PROT, v) == s0.translate(v));
            assert(mapped_range(s1, linear, PHYS_LOAD_BASE, 0, BOOT_PROT, v) == s1.translate(v));
            assert(mapped_range(s2, KERNEL_BASE, PHYS_LOAD_BASE, 0, BOOT_PROT, v) == s2.translate(
                v,
            ));
        }
        assert forall|o: u64|
            #![trigger offset(PHYS_LOAD_BASE, o)]
            #![trigger offset(LINEAR_LOAD_BASE, o)]
            #![trigger offset(KERNEL_BASE, o)]
            o < PHYS_LOAD_SIZE implies {
            &&& tables.translate(offset(PHYS_LOAD_BASE, o)) == boot_leaf()
            &&& tables.translate(offset(LINEAR_LOAD_BASE, o)) == boot_leaf()
            &&& tables.translate(offset(KERNEL_BASE, o)) == boot_leaf()
        } by {
            lemma_giant_offset(depth, ident, o);
            lemma_giant_offset(depth, linear, o);
            lemma_giant_offset(depth, KERNEL_BASE, o);
        }
        assert(offset(PHYS_LOAD_BASE, 0) == PHYS_LOAD_BASE);
        assert(offset(LINEAR_LOAD_BASE, 0) == LINEAR_LOAD_BASE);
        assert(offset(KERNEL_BASE, 0) == KERNEL_BASE);
        assert(tables.translate(offset(PHYS_LOAD_BASE, 0)) == boot_leaf());
        assert(tables.translate(offset(LINEAR_LOAD_BASE, 0)) == boot_leaf());
        assert(tables.translate(offset(KERNEL_BASE, 0)) == boot_leaf());
    }
    true
}

/// The translation schemes, by number of levels.
#[derive(Debug, PartialEq, Eq)]
pub enum TranslationMode {
    Sv39,
    Sv48,
    Sv57,
}

/// The scheme whose walk has `depth` levels.
pub open spec fn mode_for(depth: int) -> TranslationMode {
    if depth == 3 {
        TranslationMode::Sv39
    } else if depth == 4 {
        TranslationMode::Sv48
    } else {
        TranslationMode::Sv57
    }
}

/// What the translation-mode selector is to hold: the scheme, the
/// address-space id and the frame number of the root table.
pub struct SatpSetting {
    pub mode: TranslationMode,
    pub asid: u64,
    pub ppn: u64,
}

/// The selector setting that turns translation on over `tables`: the
/// scheme matching its depth, address-space 0, and the root's frame number.
/// Writing it must be followed by a global flush of cached translations.
pub fn enable_mmu(tables: &BootTables) -> (r: SatpSetting)
    requires
        tables.wf(),
    ensures
        r.mode == mode_for(tables.depth()),
        r.asid == 0,
        r.ppn == tables.base() / 4096,
{
    let depth = tables.levels();
    let mode = if depth == 3 {
        TranslationMode::Sv39
    } else if depth == 4 {
        TranslationMode::Sv48
    } else {
        TranslationMode::Sv57
    };
    let base = tables.root_pa();
    let ppn = base >> 12u64;
    assert(base >> 12u64 == base / 4096) by (bit_vector);
    SatpSetting { mode, asid: 0, ppn }
}

/// Stack pointer and return address of the running call.
pub struct CallFrame {
    pub sp: u64,
    pub ra: u64,
}

/// The call frame moved into the linear alias: both registers advanced by
/// `PHYS_VIRT_OFFSET`, modulo 2^64 as the hardware adds.
pub fn post_mmu(frame: CallFrame) -> (r: CallFrame)
    ensures
        r.sp == (frame.sp + PHYS_VIRT_OFFSET) % 0x1_0000_0000_0000_0000,
        r.ra == (frame.ra + PHYS_VIRT_OFFSET) % 0x1_0000_0000_0000_0000,
{
    CallFrame {
        sp: frame.sp.wrapping_add(PHYS_VIRT_OFFSET),
        ra: frame.ra.wrapping_add(PHYS_VIRT_OFFSET),
    }
}

/// Stages of the boot sequence, in the one order they are passed through.
#[derive(Debug, PartialEq, Eq)]
pub enum BootState {
    PhysOnly,
    TablesBuilt,
    MmuEnabled,
    VirtActive,
}

/// The actions that move the boot sequence on.
#[derive(Debug, PartialEq, Eq)]
pub enum BootStep {
    BuildTables,
    EnableTranslation,
    FixUp,
}

/// The stage after `step` taken in `state`, where the sequence allows it.
pub open spec fn successor(state: BootState, step: BootStep) -> Option<BootState> {
    match (state, step) {
        (BootState::PhysOnly, BootStep::BuildTables) => Some(BootState::TablesBuilt),
        (BootState::TablesBuilt, BootStep::EnableTranslation) => Some(BootState::MmuEnabled),
        (BootState::MmuEnabled, BootStep::FixUp) => Some(BootState::VirtActive),
        _ => None,
    }
}

/// Moves the sequence on by `step`; `None` when `step` is not the one
/// that `state` calls for (a skipped, repeated or reordered step).
pub fn advance(state: BootState, step: BootStep) -> (r: Option<BootState>)
    ensures
        r == successor(state, step),
        r is Some <==> (state is PhysOnly && step is BuildTables) || (state is TablesBuilt
            && step is EnableTranslation) || (state is MmuEnabled && step is FixUp),
{
    match (state, step) {
        (BootState::PhysOnly, BootStep::BuildTables) => Some(BootState::TablesBuilt),
        (BootState::TablesBuilt, BootStep::EnableTranslation) => Some(BootState::MmuEnabled),
        (BootState::MmuEnabled, BootStep::FixUp) => Some(BootState::VirtActive),
        _ => None,
    }
}

} // verus!
