//! The page-table engine: map, remap, unmap, translate, flags.

use proton_core::entry::{
    PageTableEntry, FLAG_ACCESSED, FLAG_COPY_ON_WRITE, FLAG_NO_WRITE, FLAG_PRESENT,
    FLAG_SMALL_PAGE, FLAG_USER, PAGE_TABLE_FLAGS,
};
use proton_core::mem::{FrameSlot, PhysicalMemory};
use proton_core::table::{PageSize, PageTable};
use proton_core::task::TaskTable;
use proton_core::KernelError;

const USER_RW: u64 = 0x742;

fn fresh_space(cap: usize) -> (PhysicalMemory, PageTable) {
    let mut mem = PhysicalMemory::new(cap);
    let pt = PageTable::new(&mut mem).unwrap();
    (mem, pt)
}

#[test]
fn entry_bits_round_trip() {
    let mut e = PageTableEntry(0);
    assert!(!e.present());
    e.set(0x1234000, USER_RW | FLAG_PRESENT);
    assert!(e.present());
    assert!(!e.is_block());
    assert_eq!(e.address(), 0x1234000);
    assert_eq!(e.flags(), USER_RW | FLAG_PRESENT);
    e.update_flags(FLAG_PRESENT | FLAG_SMALL_PAGE | FLAG_NO_WRITE);
    assert_eq!(e.address(), 0x1234000);
    assert_eq!(e.flags(), FLAG_PRESENT | FLAG_SMALL_PAGE | FLAG_NO_WRITE);
    e.clear();
    assert!(!e.present());
    assert_eq!(e.0, 0);
}

#[test]
fn page_table_flags_value() {
    assert_eq!(
        PAGE_TABLE_FLAGS,
        FLAG_PRESENT | FLAG_SMALL_PAGE | 0x300 | FLAG_ACCESSED
    );
}

#[test]
fn translate_unmapped_is_none() {
    let (mem, pt) = fresh_space(64);
    assert_eq!(pt.translate(&mem, 0x10000), None);
    assert_eq!(pt.translate(&mem, 0x7fff_ffff_e000), None);
}

#[test]
fn map_then_translate() {
    let (mut mem, pt) = fresh_space(64);
    let frame = mem.alloc_page().unwrap();
    let fa = frame * 4096;
    pt.map(&mut mem, PageSize::Size4K, 0x10000, fa, USER_RW).unwrap();
    // the most recent operation for the page decides the translation
    assert_eq!(
        pt.translate(&mem, 0x10000),
        Some((fa, USER_RW | FLAG_PRESENT))
    );
    assert_eq!(
        pt.translate(&mem, 0x10abc),
        Some((fa + 0xabc, USER_RW | FLAG_PRESENT))
    );
    // other pages are untouched
    assert_eq!(pt.translate(&mem, 0x11000), None);
}

#[test]
fn remap_overwrites() {
    let (mut mem, pt) = fresh_space(64);
    let f1 = mem.alloc_page().unwrap();
    let f2 = mem.alloc_page().unwrap();
    pt.map(&mut mem, PageSize::Size4K, 0x10000, f1 * 4096, USER_RW).unwrap();
    pt.remap(&mut mem, PageSize::Size4K, 0x10000, f2 * 4096, USER_RW).unwrap();
    assert_eq!(
        pt.translate(&mem, 0x10000),
        Some((f2 * 4096, USER_RW | FLAG_PRESENT))
    );
}

#[test]
fn unmap_clears_only_its_page() {
    let (mut mem, pt) = fresh_space(64);
    let f1 = mem.alloc_page().unwrap();
    let f2 = mem.alloc_page().unwrap();
    pt.map(&mut mem, PageSize::Size4K, 0x10000, f1 * 4096, USER_RW).unwrap();
    pt.map(&mut mem, PageSize::Size4K, 0x11000, f2 * 4096, USER_RW).unwrap();
    pt.unmap(&mut mem, PageSize::Size4K, 0x10000);
    assert_eq!(pt.translate(&mem, 0x10000), None);
    assert_eq!(
        pt.translate(&mem, 0x11000),
        Some((f2 * 4096, USER_RW | FLAG_PRESENT))
    );
}

#[test]
fn block_mapping_covers_two_megabytes() {
    let (mut mem, pt) = fresh_space(64);
    let flags = FLAG_USER | FLAG_ACCESSED;
    pt.map(&mut mem, PageSize::Size2M, 0x4000_0000, 0x20_0000, flags).unwrap();
    assert_eq!(
        pt.translate(&mem, 0x4000_0000),
        Some((0x20_0000, flags | FLAG_PRESENT))
    );
    // anywhere in the block resolves through the same entry
    assert_eq!(
        pt.translate(&mem, 0x4000_0000 + 0x1f_f123),
        Some((0x20_0000 + 0x123, flags | FLAG_PRESENT))
    );
    assert_eq!(pt.translate(&mem, 0x4020_0000), None);
}

#[test]
fn update_flags_keeps_address() {
    let (mut mem, pt) = fresh_space(64);
    let f1 = mem.alloc_page().unwrap();
    pt.map(&mut mem, PageSize::Size4K, 0x10000, f1 * 4096, USER_RW).unwrap();
    let ro = USER_RW | FLAG_NO_WRITE;
    pt.update_flags(&mut mem, PageSize::Size4K, 0x10000, ro);
    assert_eq!(
        pt.translate(&mem, 0x10000),
        Some((f1 * 4096, ro | FLAG_PRESENT))
    );
}

#[test]
fn identity_map_maps_itself() {
    let (mut mem, pt) = fresh_space(64);
    pt.identity_map(&mut mem, PageSize::Size4K, 0x30000, USER_RW).unwrap();
    assert_eq!(
        pt.translate(&mem, 0x30000),
        Some((0x30000, USER_RW | FLAG_PRESENT))
    );
}

#[test]
fn out_of_memory_is_reported() {
    let mut mem = PhysicalMemory::new(0);
    assert!(matches!(
        PageTable::new(&mut mem),
        Err(KernelError::OutOfMemory)
    ));
    // one frame is just enough for the root, nothing else
    let mut mem = PhysicalMemory::new(1);
    let pt = PageTable::new(&mut mem).unwrap();
    assert!(matches!(
        pt.map(&mut mem, PageSize::Size4K, 0x10000, 0x5000, USER_RW),
        Err(KernelError::OutOfMemory)
    ));
}

#[test]
fn cow_flag_is_software_bit_53() {
    assert_eq!(FLAG_COPY_ON_WRITE, 1u64 << 53);
}

#[test]
fn fresh_table_is_all_zero_until_self_reference() {
    // the constructor clears all 512 entries; the self-reference is a
    // separate step, as the original's two-phase construction has it
    let mut mem = PhysicalMemory::new(8);
    let pt = PageTable::new(&mut mem).unwrap();
    assert_eq!(mem.read_entry(pt.root, 0), 0);
    assert_eq!(mem.read_entry(pt.root, 511), 0);
    pt.install_self_reference(&mut mem);
    let e = mem.read_entry(pt.root, 511);
    assert_eq!(e & 0x0000_ffff_ffff_f000, pt.root * 4096);
    assert_eq!(e & 0x703, 0x703);
    // nothing translates through an empty root either way
    assert_eq!(pt.translate(&mem, 0x10000), None);
}

#[test]
fn recursive_map_address_shifts_indices() {
    // the self-map arithmetic: the child-table address carries the
    // table's own indices one level up and the child index at the bottom
    let table = 0xffff_ffff_ffff_f000u64; // the root seen through itself
    let r = proton_core::table::next_table_address(table, 5);
    assert_eq!(r, (table << 9) | (5 << 12));
    let low = proton_core::table::next_table_address(0x0000_ffff_ffff_f000, 7);
    assert_eq!(low, (((0x0000_ffff_ffff_f000u64 << 9) | (7 << 12)) & 0x0000_ffff_ffff_ffff));
}

#[test]
fn fork_marks_the_parent_tree_in_place() {
    let mut mem = PhysicalMemory::new(64);
    let pt = PageTable::new(&mut mem).unwrap();
    let f = mem.alloc_page().unwrap();
    pt.map(&mut mem, PageSize::Size4K, 0x10000, f * 4096, USER_RW).unwrap();
    let old_root = pt.root;
    let stacks: Vec<(u64, u64)> = Vec::new();
    let child = pt.fork(&mut mem, &stacks).unwrap();
    // the parent keeps its root frame; only the child gets a new tree
    assert_eq!(pt.root, old_root);
    assert!(matches!(mem.frames[old_root as usize], FrameSlot::Table(_)));
    assert_ne!(child.root, old_root);
    // the data page survived untouched
    assert!(matches!(mem.frames[f as usize], FrameSlot::Page(_)));
}

#[test]
fn spawn_fails_exactly_when_nine_frames_are_missing() {
    let mut small = PhysicalMemory::new(8);
    let mut tbl = TaskTable::new();
    assert!(matches!(
        tbl.spawn(&mut small, 0x1000, 0xffff_0000_0010_0000),
        Err(KernelError::OutOfMemory)
    ));
    let mut enough = PhysicalMemory::new(9);
    assert!(tbl.spawn(&mut enough, 0x1000, 0xffff_0000_0010_0000).is_ok());
}

#[test]
fn kernel_stack_init_maps_pages_not_guard() {
    let mut mem = PhysicalMemory::new(64);
    let pt = PageTable::new(&mut mem).unwrap();
    let guard = 0xffff_0000_0010_0000u64;
    let stack = proton_core::stack::KernelStack::new(&mut mem, guard).unwrap();
    stack.init(&pt, &mut mem).unwrap();
    // the guard page stays unmapped; the eight stack pages are writable
    assert_eq!(pt.translate(&mem, guard), None);
    for k in 0..8u64 {
        let va = guard + 4096 + k * 4096;
        let (pa, fl) = pt.translate(&mem, va).unwrap();
        assert_eq!(pa, stack.frames[k as usize] * 4096);
        assert_eq!(fl & proton_core::entry::FLAG_NO_WRITE, 0);
        assert_eq!(fl & proton_core::entry::FLAG_USER, 0);
    }
    assert_eq!(stack.start_address(), guard + 4096);
    assert_eq!(stack.end_address(), guard + 4096 + 32768);
}
