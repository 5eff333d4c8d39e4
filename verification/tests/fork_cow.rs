//! Fork with copy-on-write, and the page-fault handler that resolves it.

use proton_core::entry::{FLAG_COPY_ON_WRITE, FLAG_NO_WRITE, FLAG_PRESENT};
use proton_core::fault::FaultOutcome;
use proton_core::mem::PhysicalMemory;
use proton_core::table::{PageSize, PageTable};

const USER_RW: u64 = 0x742;

fn space_with_page(va: u64, byte: u8) -> (PhysicalMemory, PageTable, u64) {
    let mut mem = PhysicalMemory::new(256);
    let pt = PageTable::new(&mut mem).unwrap();
    let f = mem.alloc_page().unwrap();
    mem.write_byte(f, 0, byte);
    pt.map(&mut mem, PageSize::Size4K, va, f * 4096, USER_RW).unwrap();
    (mem, pt, f)
}

fn read_user_byte(pt: &PageTable, mem: &PhysicalMemory, va: u64) -> u8 {
    let (pa, _fl) = pt.translate(mem, va).unwrap();
    mem.read_byte(pa / 4096, (pa % 4096) as usize)
}

#[test]
fn fork_shares_pages_copy_on_write() {
    // every page present in the parent and not a kernel stack is shared:
    // same physical address, COPY_ON_WRITE and NO_WRITE set in both trees
    let (mut mem, pt, f) = space_with_page(0x10000, 0xaa);
    let stacks: Vec<(u64, u64)> = Vec::new();
    let child = pt.fork(&mut mem, &stacks).unwrap();
    let (ppa, pfl) = pt.translate(&mem, 0x10000).unwrap();
    let (cpa, cfl) = child.translate(&mem, 0x10000).unwrap();
    assert_eq!(ppa, f * 4096);
    assert_eq!(cpa, ppa);
    assert_eq!(pfl, cfl);
    assert!(pfl & FLAG_COPY_ON_WRITE != 0);
    assert!(pfl & FLAG_NO_WRITE != 0);
    assert!(cfl & FLAG_COPY_ON_WRITE != 0);
    assert!(cfl & FLAG_NO_WRITE != 0);
}

#[test]
fn fork_roots_are_distinct() {
    let (mut mem, pt, _f) = space_with_page(0x10000, 0xaa);
    let before = pt.root;
    let stacks: Vec<(u64, u64)> = Vec::new();
    let child = pt.fork(&mut mem, &stacks).unwrap();
    assert_ne!(child.root, pt.root);
    assert_ne!(child.root, before);
}

#[test]
fn fork_redirects_kernel_stack_pages() {
    let mut mem = PhysicalMemory::new(256);
    let pt = PageTable::new(&mut mem).unwrap();
    let parent_stack = mem.alloc_page().unwrap();
    let child_stack = mem.alloc_page().unwrap();
    mem.write_byte(parent_stack, 7, 0x5a);
    pt.map(
        &mut mem,
        PageSize::Size4K,
        0xf000_0000,
        parent_stack * 4096,
        USER_RW,
    )
    .unwrap();
    let stacks = vec![(parent_stack * 4096, child_stack * 4096)];
    let child = pt.fork(&mut mem, &stacks).unwrap();
    // the parent keeps its stack frame with its flags untouched
    let (ppa, pfl) = pt.translate(&mem, 0xf000_0000).unwrap();
    assert_eq!(ppa, parent_stack * 4096);
    assert_eq!(pfl, USER_RW | FLAG_PRESENT);
    // the child points at the pre-allocated frame, same flags
    let (cpa, cfl) = child.translate(&mem, 0xf000_0000).unwrap();
    assert_eq!(cpa, child_stack * 4096);
    assert_eq!(cfl, USER_RW | FLAG_PRESENT);
}

#[test]
fn cow_write_fault_copies_and_reowns() {
    // a COW page, on a write fault, leaves the handler with COW = 0,
    // NO_WRITE = 0, and the pre-fault contents
    let (mut mem, pt, _f) = space_with_page(0x10000, 0xaa);
    let stacks: Vec<(u64, u64)> = Vec::new();
    let child = pt.fork(&mut mem, &stacks).unwrap();
    let r = pt.handle_page_fault(&mut mem, 0x10000, true, true);
    let nfa = match r {
        FaultOutcome::CowResolved(nfa) => nfa,
        other => panic!("expected a copy, got {:?}", other),
    };
    let (ppa, pfl) = pt.translate(&mem, 0x10000).unwrap();
    assert_eq!(ppa, nfa);
    assert_eq!(pfl & FLAG_COPY_ON_WRITE, 0);
    assert_eq!(pfl & FLAG_NO_WRITE, 0);
    // contents equal the pre-fault contents
    assert_eq!(read_user_byte(&pt, &mem, 0x10000), 0xaa);
    // the child still points at the shared frame
    assert_eq!(read_user_byte(&child, &mem, 0x10000), 0xaa);
    let (cpa, _) = child.translate(&mem, 0x10000).unwrap();
    assert_ne!(cpa, ppa);
}

#[test]
fn cow_scenario_parent_writes_child_unchanged() {
    // parent writes 0xAA, forks; child reads 0xAA; parent writes 0xBB;
    // child still reads 0xAA, parent reads 0xBB, and the frames differ
    let (mut mem, pt, _f) = space_with_page(0x10000, 0xaa);
    let stacks: Vec<(u64, u64)> = Vec::new();
    let child = pt.fork(&mut mem, &stacks).unwrap();
    assert_eq!(read_user_byte(&child, &mem, 0x10000), 0xaa);
    // the parent's write faults on the read-only shared page
    match pt.handle_page_fault(&mut mem, 0x10000, true, true) {
        FaultOutcome::CowResolved(_) => {},
        other => panic!("expected a copy, got {:?}", other),
    }
    let (ppa, _) = pt.translate(&mem, 0x10000).unwrap();
    mem.write_byte(ppa / 4096, 0, 0xbb);
    assert_eq!(read_user_byte(&pt, &mem, 0x10000), 0xbb);
    assert_eq!(read_user_byte(&child, &mem, 0x10000), 0xaa);
    let (cpa, _) = child.translate(&mem, 0x10000).unwrap();
    assert_ne!(ppa, cpa);
}

#[test]
fn cow_break_releases_one_reference_and_frees_at_zero() {
    // fork raises the shared frame's count; each resolved write fault
    // releases one reference, and the last one frees the frame
    let (mut mem, pt, f) = space_with_page(0x10000, 0xaa);
    let stacks: Vec<(u64, u64)> = Vec::new();
    let child = pt.fork(&mut mem, &stacks).unwrap();
    assert_eq!(mem.refcount(f), 2);
    match pt.handle_page_fault(&mut mem, 0x10000, true, true) {
        FaultOutcome::CowResolved(_) => {},
        other => panic!("expected a copy, got {:?}", other),
    }
    assert_eq!(mem.refcount(f), 1);
    match child.handle_page_fault(&mut mem, 0x10000, true, true) {
        FaultOutcome::CowResolved(_) => {},
        other => panic!("expected a copy, got {:?}", other),
    }
    // the last reference is gone: the frame went back to the pool
    assert!(matches!(
        mem.frames[f as usize],
        proton_core::mem::FrameSlot::Free
    ));
}

#[test]
fn demand_map_fills_zero_page() {
    // a user task touching fresh stack gets a mapped zero page
    let mut mem = PhysicalMemory::new(256);
    let pt = PageTable::new(&mut mem).unwrap();
    let va = 0x7fff_ffff_f000u64 - 1;
    match pt.handle_page_fault(&mut mem, va, true, true) {
        FaultOutcome::Mapped(_) => {},
        other => panic!("expected a fresh mapping, got {:?}", other),
    }
    assert_eq!(read_user_byte(&pt, &mem, va), 0);
}

#[test]
fn kernel_half_access_from_user_kills() {
    let mut mem = PhysicalMemory::new(256);
    let pt = PageTable::new(&mut mem).unwrap();
    let r = pt.handle_page_fault(&mut mem, 0xffff_0000_0000_0000, false, true);
    assert_eq!(
        r,
        FaultOutcome::Killed(proton_core::KernelError::InvalidAddress)
    );
}

#[test]
fn unmapped_outside_vma_kills() {
    let mut mem = PhysicalMemory::new(256);
    let pt = PageTable::new(&mut mem).unwrap();
    // below the user heap: no known region
    let r = pt.handle_page_fault(&mut mem, 0x1000, true, true);
    assert_eq!(
        r,
        FaultOutcome::Killed(proton_core::KernelError::InvalidAddress)
    );
}

#[test]
fn write_to_plain_readonly_page_kills() {
    let mut mem = PhysicalMemory::new(256);
    let pt = PageTable::new(&mut mem).unwrap();
    let f = mem.alloc_page().unwrap();
    pt.map(
        &mut mem,
        PageSize::Size4K,
        0x10000,
        f * 4096,
        USER_RW | FLAG_NO_WRITE,
    )
    .unwrap();
    let r = pt.handle_page_fault(&mut mem, 0x10000, true, true);
    assert_eq!(
        r,
        FaultOutcome::Killed(proton_core::KernelError::PermissionDenied)
    );
}
