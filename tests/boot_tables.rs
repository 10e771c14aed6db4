use mmu_boot::boot::{
    advance, BootState, BootStep, enable_mmu, phys_to_virt, post_mmu, pre_mmu, CallFrame, TranslationMode, BOOT_PROT,
    KERNEL_BASE, PHYS_LOAD_BASE, PHYS_VIRT_OFFSET,
};
use mmu_boot::codec::{encode_leaf, pa2_pte, pg_round_down, pte2_pa, px, GIGA_PGSIZE};
use mmu_boot::driver::{CallEntry, Driver};
use mmu_boot::tables::{BootTables, ENTRIES};

const BASE: u64 = 0x8020_0000;

fn root_valid(t: &BootTables) -> Vec<usize> {
    (0..ENTRIES).filter(|&j| t.entry(0, j) != 0).collect()
}

#[test]
fn table_index_slices_nine_bits() {
    assert_eq!(px(2, 0x8000_0000), 2);
    assert_eq!(px(2, 0xffff_ffc0_8000_0000), 0x102);
    assert_eq!(px(2, 0xffff_ffff_c000_0000), 0x1ff);
    assert_eq!(px(0, 0x1234_5678), 0x145);
    assert_eq!(px(1, 0x1234_5678), 0x91);
    assert_eq!(px(3, 0xffff_ffc0_8000_0000), 0x1ff);
    assert_eq!(px(3, 0x8000_0000), 0);
}

#[test]
fn table_index_in_range_and_stable() {
    for level in 0..=5usize {
        for v in [0u64, 1, 0x8000_0000, u64::MAX, 0xdead_beef_cafe_f00d] {
            let i = px(level, v);
            assert!(i < 512);
            assert_eq!(i, px(level, v));
        }
    }
}

#[test]
fn leaf_round_trips_frame() {
    for p in [0u64, 0x1000, 0x8000_0000, 0x8020_3000, 0x3f_ffff_f000] {
        for prot in [0u64, 0x1, 0xef, 0x3ff] {
            assert_eq!(pte2_pa(encode_leaf(p, prot)), p);
        }
    }
}

#[test]
fn leaf_encoding_exact() {
    assert_eq!(encode_leaf(0x8000_0000, 0xef), (0x80000 << 10) | 0xef);
    assert_eq!(pa2_pte(0x8000_0000), 0x2000_0000);
    assert_eq!(pa2_pte(0x8000_0fff), 0x2000_0000);
    assert_eq!(pte2_pa(0x2000_00ef), 0x8000_0000);
}

#[test]
fn round_down_to_giant_page() {
    assert_eq!(pg_round_down(0x8000_0000), 0x8000_0000);
    assert_eq!(pg_round_down(0xbfff_ffff), 0x8000_0000);
    assert_eq!(pg_round_down(0x3fff_ffff), 0);
    assert_eq!(pg_round_down(u64::MAX), 0xffff_ffff_c000_0000);
}

#[test]
fn linear_alias_address() {
    assert_eq!(phys_to_virt(0x8000_0000), 0xffff_ffc0_8000_0000);
    assert_eq!(phys_to_virt(0), PHYS_VIRT_OFFSET);
}

#[test]
fn fresh_tables_are_empty() {
    let t = BootTables::new(BASE, 3);
    assert!(root_valid(&t).is_empty());
    assert_eq!(t.allocated_pages(), 0);
    assert_eq!(t.root_pa(), BASE);
    assert_eq!(t.levels(), 3);
}

#[test]
fn boot_aliases_three_level_scenario() {
    let mut t = BootTables::new(BASE, 3);
    assert!(pre_mmu(&mut t));
    assert_eq!(root_valid(&t), vec![2, 0x102, 0x1ff]);
    for j in [2usize, 0x102, 0x1ff] {
        assert_eq!(t.entry(0, j), (0x80000 << 10) | 0xef);
    }
    assert_eq!(t.allocated_pages(), 0);
}

#[test]
fn boot_aliases_decode_to_same_frame() {
    let mut t = BootTables::new(BASE, 3);
    assert!(pre_mmu(&mut t));
    let ident = t.entry(0, px(2, PHYS_LOAD_BASE));
    let linear = t.entry(0, px(2, PHYS_LOAD_BASE + PHYS_VIRT_OFFSET));
    let high = t.entry(0, px(2, KERNEL_BASE));
    assert_eq!(pte2_pa(ident), PHYS_LOAD_BASE);
    assert_eq!(pte2_pa(linear), PHYS_LOAD_BASE);
    assert_eq!(pte2_pa(high), PHYS_LOAD_BASE);
    assert_eq!(ident & 0x3ff, BOOT_PROT);
    assert_eq!(high & 0x3ff, BOOT_PROT);
}

#[test]
fn boot_aliases_four_levels() {
    let mut t = BootTables::new(BASE, 4);
    assert!(pre_mmu(&mut t));
    // identity under root entry 0, linear and high-half share root entry 0x1ff
    assert_eq!(root_valid(&t), vec![0, 0x1ff]);
    assert_eq!(t.allocated_pages(), 2);
    let low = t.entry(0, 0);
    let high = t.entry(0, 0x1ff);
    assert_eq!(low, pa2_pte(BASE + 0x1000) | 1);
    assert_eq!(high, pa2_pte(BASE + 0x2000) | 1);
    assert_eq!(t.entry(1, 2), (0x80000 << 10) | 0xef);
    assert_eq!(t.entry(2, 0x102), (0x80000 << 10) | 0xef);
    assert_eq!(t.entry(2, 0x1ff), (0x80000 << 10) | 0xef);
}

#[test]
fn boot_aliases_five_levels() {
    let mut t = BootTables::new(BASE, 5);
    assert!(pre_mmu(&mut t));
    assert_eq!(root_valid(&t), vec![0, 0x1ff]);
    assert_eq!(t.allocated_pages(), 4);
}

#[test]
fn range_maps_consecutive_giant_pages() {
    let mut t = BootTables::new(BASE, 3);
    let k = 3u64;
    assert!(t.boot_map(0x4000_0000, 0x1_0000_0000, k * GIGA_PGSIZE, 0xe));
    assert_eq!(root_valid(&t), vec![1, 2, 3]);
    for i in 0..k {
        let e = t.entry(0, (1 + i) as usize);
        assert_eq!(pte2_pa(e), 0x1_0000_0000 + i * GIGA_PGSIZE);
        assert_eq!(e & 0x3ff, 0xf);
    }
}

#[test]
fn range_rounds_unaligned_ends() {
    let mut t = BootTables::new(BASE, 3);
    // from inside giant page 1 to inside giant page 2: two pages
    assert!(t.boot_map(0x4000_1000, 0x8000_0000, GIGA_PGSIZE, 0xe));
    assert_eq!(root_valid(&t), vec![1, 2]);
    assert_eq!(pte2_pa(t.entry(0, 2)), 0x8000_0000 + GIGA_PGSIZE);
}

#[test]
fn remap_overwrites_without_allocating() {
    let mut t = BootTables::new(BASE, 4);
    assert!(t.boot_map(0x8000_0000, 0x8000_0000, GIGA_PGSIZE, 0xe));
    assert_eq!(t.allocated_pages(), 1);
    assert_eq!(t.entry(1, 2), encode_leaf(0x8000_0000, 0xe));
    assert!(t.boot_map(0x8000_0000, 0xc000_0000, GIGA_PGSIZE, 0x2));
    assert_eq!(t.allocated_pages(), 1);
    assert_eq!(t.entry(1, 2), encode_leaf(0xc000_0000, 0x2));
    assert_eq!(root_valid(&t), vec![0]);
}

#[test]
fn allocator_hands_out_distinct_tables() {
    let mut t = BootTables::new(BASE, 4);
    for (n, top) in [0u64, 1, 2, 3].iter().enumerate() {
        assert!(t.boot_map(top << 39, 0, GIGA_PGSIZE, 0xe));
        assert_eq!(t.allocated_pages(), n + 1);
    }
    let frames: Vec<u64> = (0..4).map(|j| pte2_pa(t.entry(0, j))).collect();
    for a in 0..4 {
        for b in 0..4 {
            if a != b {
                assert_ne!(frames[a], frames[b]);
            }
        }
        assert_eq!(frames[a], BASE + 0x1000 * (a as u64 + 1));
    }
}

#[test]
fn pool_exhaustion_reported() {
    let mut t = BootTables::new(BASE, 5);
    assert!(pre_mmu(&mut t));
    assert!(!t.boot_map(1u64 << 48, 0, GIGA_PGSIZE, 0xe));
    assert_eq!(t.allocated_pages(), 4);
}

#[test]
fn selector_setting_per_depth() {
    let t3 = BootTables::new(BASE, 3);
    let s = enable_mmu(&t3);
    assert_eq!(s.mode, TranslationMode::Sv39);
    assert_eq!(s.asid, 0);
    assert_eq!(s.ppn, 0x80200);
    assert_eq!(enable_mmu(&BootTables::new(BASE, 4)).mode, TranslationMode::Sv48);
    assert_eq!(enable_mmu(&BootTables::new(BASE, 5)).mode, TranslationMode::Sv57);
}

#[test]
fn fixup_moves_frame_to_linear_alias() {
    let r = post_mmu(CallFrame { sp: 0x8020_1000, ra: 0x8020_0040 });
    assert_eq!(r.sp, 0xffff_ffc0_8020_1000);
    assert_eq!(r.ra, 0xffff_ffc0_8020_0040);
    let w = post_mmu(CallFrame { sp: 0x40_0000_0000, ra: 0x40_0000_0010 });
    assert_eq!(w.sp, 0);
    assert_eq!(w.ra, 0x10);
}

fn sample_driver() -> Driver<'static> {
    Driver::info("virtio-blk", "virtio,mmio")
}

#[test]
fn driver_info_keeps_fields() {
    let d = Driver::info("uart", "ns16550a");
    assert_eq!(d.name, "uart");
    assert_eq!(d.compatible, "ns16550a");
    let entry: CallEntry<fn() -> Driver<'static>> = CallEntry { init_fn: sample_driver };
    let got = (entry.init_fn)();
    assert_eq!(got.name, "virtio-blk");
    assert_eq!(got.compatible, "virtio,mmio");
}

#[test]
fn boot_sequence_in_order() {
    let s = advance(BootState::PhysOnly, BootStep::BuildTables).unwrap();
    assert_eq!(s, BootState::TablesBuilt);
    let s = advance(s, BootStep::EnableTranslation).unwrap();
    assert_eq!(s, BootState::MmuEnabled);
    let s = advance(s, BootStep::FixUp).unwrap();
    assert_eq!(s, BootState::VirtActive);
}

#[test]
fn boot_sequence_refuses_skips_and_repeats() {
    assert_eq!(advance(BootState::PhysOnly, BootStep::EnableTranslation), None);
    assert_eq!(advance(BootState::PhysOnly, BootStep::FixUp), None);
    assert_eq!(advance(BootState::TablesBuilt, BootStep::BuildTables), None);
    assert_eq!(advance(BootState::MmuEnabled, BootStep::EnableTranslation), None);
    assert_eq!(advance(BootState::VirtActive, BootStep::FixUp), None);
}

fn all_entries(t: &BootTables) -> Vec<u64> {
    let mut v = Vec::new();
    for tb in 0..mmu_boot::tables::TABLES {
        for j in 0..ENTRIES {
            v.push(t.entry(tb, j));
        }
    }
    v
}

#[test]
fn identical_second_map_changes_nothing() {
    for depth in 3..=5usize {
        let mut t = BootTables::new(BASE, depth);
        assert!(t.boot_map(0x4000_0000, 0x1_0000_0000, 3 * GIGA_PGSIZE, 0xe));
        let before = all_entries(&t);
        let used = t.allocated_pages();
        assert!(t.boot_map(0x4000_0000, 0x1_0000_0000, 3 * GIGA_PGSIZE, 0xe));
        assert_eq!(all_entries(&t), before);
        assert_eq!(t.allocated_pages(), used);
    }
}

#[test]
fn five_level_pointer_layout() {
    let mut t = BootTables::new(BASE, 5);
    assert!(pre_mmu(&mut t));
    assert_eq!(t.entry(0, 0), pa2_pte(BASE + 0x1000) | 1);
    assert_eq!(t.entry(0, 0x1ff), pa2_pte(BASE + 0x3000) | 1);
    assert_eq!(t.entry(1, 0), pa2_pte(BASE + 0x2000) | 1);
    assert_eq!(t.entry(3, 0x1ff), pa2_pte(BASE + 0x4000) | 1);
    assert_eq!(t.entry(2, 2), 0x2000_00ef);
    assert_eq!(t.entry(4, 0x102), 0x2000_00ef);
    assert_eq!(t.entry(4, 0x1ff), 0x2000_00ef);
}
