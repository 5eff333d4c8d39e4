//! Per-task kernel stacks: one guard page followed by eight writable
//! pages, backed by frames from the pool.

use vstd::prelude::*;
use crate::mem::{is_page, mem_inv, page_bytes, spec_avail, PhysicalMemory};
use crate::KernelError;

verus! {

/// Stack pages per task.
pub const KERNEL_STACK_PAGES: usize = 8;

/// Bytes of usable stack: eight 4 KiB pages.
pub const KERNEL_STACK_SIZE: u64 = 32768;

/// A task's kernel stack: the virtual address of its guard page and the
/// physical frames of the eight stack pages that follow it.
pub struct KernelStack {
    /// Virtual address of the guard page.
    pub guard: u64,
    /// Physical frame numbers of the stack pages, lowest address first.
    pub frames: Vec<u64>,
}

/// Kernel-window addresses keep clear of the self-reference slot.
proof fn lemma_kernel_window_vaddr(v: u64)
    by (bit_vector)
    requires
        0xffff_0000_0000_0000u64 <= v,
        v < 0xffff_ff80_0000_0000u64,
    ensures
        (v >> 39) & 0x1ff != 511,
{
}

/// Distinct page-aligned addresses of the kernel window lie in distinct
/// pages.
proof fn lemma_distinct_pages(a: u64, b: u64)
    by (bit_vector)
    requires
        a % 4096 == 0,
        b % 4096 == 0,
        a != b,
        0xffff_0000_0000_0000u64 <= a,
        a < 0xffff_ff80_0000_0000u64,
        0xffff_0000_0000_0000u64 <= b,
        b < 0xffff_ff80_0000_0000u64,
    ensures
        !((a >> 12) & 0xf_ffff_ffff == (b >> 12) & 0xf_ffff_ffff),
{
}

/// A well-formed stack: eight distinct data pages.
pub open spec fn stack_wf(s: Seq<crate::mem::FrameSlot>, st: KernelStack) -> bool {
    &&& st.frames@.len() == KERNEL_STACK_PAGES
    &&& forall|k: int| 0 <= k < KERNEL_STACK_PAGES ==> is_page(s, #[trigger] st.frames@[k])
    &&& forall|k: int| 0 <= k < KERNEL_STACK_PAGES ==> #[trigger] st.frames@[k] < 0x1000_0000
    &&& st.frames@.no_duplicates()
}

impl KernelStack {
    /// Allocate the eight stack pages. `guard` is the virtual address of
    /// the guard page; the stack occupies the next eight pages.
    pub fn new(mem: &mut PhysicalMemory, guard: u64) -> (r: Result<KernelStack, KernelError>)
        requires
            mem_inv(*old(mem)),
        ensures
            mem_inv(*final(mem)),
            final(mem).capacity == old(mem).capacity,
            r is Ok <==> spec_avail(*old(mem)) >= 8,
            match r {
                Result::Err(e) => e == KernelError::OutOfMemory && spec_avail(*final(mem)) == 0,
                Result::Ok(st) => {
                    &&& spec_avail(*final(mem)) == spec_avail(*old(mem)) - 8
                    &&& stack_wf(final(mem).frames@, st)
                    &&& forall|g: u64, i: int|
                        #[trigger] crate::mem::ent(final(mem).frames@, g, i) == crate::mem::ent(
                            old(mem).frames@,
                            g,
                            i,
                        )
                    &&& forall|g: u64|
                        #[trigger] crate::mem::is_table(final(mem).frames@, g)
                            <==> crate::mem::is_table(old(mem).frames@, g)
                    &&& forall|g: u64|
                        crate::mem::is_table(old(mem).frames@, g)
                            ==> #[trigger] crate::mem::table_level(final(mem).frames@, g)
                            == crate::mem::table_level(old(mem).frames@, g)
                    &&& forall|g: u64|
                        is_page(old(mem).frames@, g) ==> #[trigger] is_page(final(mem).frames@, g)
                            && page_bytes(final(mem).frames@, g) == page_bytes(
                            old(mem).frames@,
                            g,
                        )
                    &&& st.guard == guard
                    &&& forall|k: int|
                        0 <= k < KERNEL_STACK_PAGES ==> !is_page(
                            old(mem).frames@,
                            #[trigger] st.frames@[k],
                        ) && !crate::mem::is_table(old(mem).frames@, st.frames@[k])
                    &&& forall|k: int|
                        0 <= k < KERNEL_STACK_PAGES ==> #[trigger] st.frames@[k] < 0x1000_0000
                },
            },
    {
        let mut frames: Vec<u64> = Vec::new();
        let mut k: usize = 0;
        while k < KERNEL_STACK_PAGES
            invariant
                mem_inv(*mem),
                mem.capacity == old(mem).capacity,
                spec_avail(*mem) == spec_avail(*old(mem)) - k,
                k <= KERNEL_STACK_PAGES,
                frames@.len() == k,
                forall|j: int| 0 <= j < k ==> is_page(mem.frames@, #[trigger] frames@[j]),
                forall|j: int| 0 <= j < k ==> #[trigger] frames@[j] < 0x1000_0000,
                forall|j: int|
                    0 <= j < k ==> !is_page(old(mem).frames@, #[trigger] frames@[j])
                        && !crate::mem::is_table(old(mem).frames@, frames@[j]),
                frames@.no_duplicates(),
                forall|j: int| 0 <= j < k ==> #[trigger] frames@[j] < mem.frames@.len(),
                forall|g: u64|
                    #[trigger] is_page(mem.frames@, g) <==> (is_page(old(mem).frames@, g)
                        || frames@.contains(g)),
                forall|g: u64|
                    is_page(old(mem).frames@, g) ==> #[trigger] page_bytes(mem.frames@, g)
                        == page_bytes(old(mem).frames@, g),
                forall|g: u64, i: int|
                    #[trigger] crate::mem::ent(mem.frames@, g, i) == crate::mem::ent(
                        old(mem).frames@,
                        g,
                        i,
                    ),
                forall|g: u64|
                    #[trigger] crate::mem::is_table(mem.frames@, g) <==> crate::mem::is_table(
                        old(mem).frames@,
                        g,
                    ),
                forall|g: u64|
                    crate::mem::is_table(old(mem).frames@, g)
                        ==> #[trigger] crate::mem::table_level(mem.frames@, g)
                        == crate::mem::table_level(old(mem).frames@, g),
            decreases KERNEL_STACK_PAGES - k,
        {
            let ghost sp = mem.frames@;
            let f = match mem.alloc_page() {
                Option::Some(f) => f,
                Option::None => {
                    return Result::Err(KernelError::OutOfMemory);
                },
            };
            proof {
                crate::mem::lemma_nontable_update(sp, mem.frames@, f);
                assert forall|j: int| 0 <= j < k implies is_page(
                    mem.frames@,
                    #[trigger] frames@[j],
                ) by {
                    assert(frames@[j] != f);
                    assert(mem.frames@[frames@[j] as int] == sp[frames@[j] as int]);
                }
                assert forall|j: int|
                    0 <= j < k implies !is_page(old(mem).frames@, #[trigger] frames@[j])
                        && !crate::mem::is_table(old(mem).frames@, frames@[j]) by {}
                assert forall|j: int| 0 <= j < k implies #[trigger] frames@[j] != f by {
                    assert(is_page(sp, frames@[j]));
                }
                assert(!is_page(old(mem).frames@, f)) by {
                    assert(!is_page(sp, f));
                    assert(!frames@.contains(f));
                }
                assert forall|g: u64|
                    is_page(old(mem).frames@, g) implies #[trigger] page_bytes(mem.frames@, g)
                        == page_bytes(old(mem).frames@, g) by {
                    assert(is_page(sp, g));
                    assert(g != f);
                    assert(page_bytes(mem.frames@, g) == page_bytes(sp, g));
                }
            }
            let ghost fr0 = frames@;
            frames.push(f);
            proof {
                assert(frames@ == fr0.push(f));
                assert forall|g: u64| #[trigger] is_page(mem.frames@, g) <==> (is_page(
                    old(mem).frames@,
                    g,
                ) || frames@.contains(g)) by {
                    if g == f {
                        assert(frames@[k as int] == f);
                        assert(frames@.contains(g));
                    } else {
                        assert(is_page(mem.frames@, g) <==> is_page(sp, g));
                        assert(frames@.contains(g) <==> fr0.contains(g)) by {
                            if frames@.contains(g) {
                                let j = choose|j: int|
                                    0 <= j < frames@.len() && frames@[j] == g;
                                assert(j < fr0.len());
                                assert(fr0[j] == g);
                            }
                            if fr0.contains(g) {
                                let j = choose|j: int| 0 <= j < fr0.len() && fr0[j] == g;
                                assert(frames@[j] == g);
                            }
                        }
                    }
                }
            }
            k = k + 1;
        }
        Result::Ok(KernelStack { guard, frames })
    }

    /// Install the stack in the kernel's address space: the eight frames
    /// become writable kernel pages at the eight pages above the guard,
    /// while the guard page itself stays unmapped, so that an overflow
    /// traps instead of corrupting memory.
    pub fn init(&self, pt: &crate::table::PageTable, mem: &mut PhysicalMemory) -> (r: Result<
        (),
        KernelError,
    >)
        requires
            mem_inv(*old(mem)),
            crate::table::is_root(old(mem).frames@, pt.root),
            crate::exec::all_small(old(mem).frames@, pt.root),
            stack_wf(old(mem).frames@, *self),
            self.guard % 4096 == 0,
            0xffff_0000_0000_0000 <= self.guard,
            self.guard + 9 * 4096 < 0xffff_ff80_0000_0000,
            crate::table::walk(old(mem).frames@, pt.root, self.guard) is None,
        ensures
            mem_inv(*final(mem)),
            final(mem).capacity == old(mem).capacity,
            crate::table::is_root(final(mem).frames@, pt.root),
            crate::exec::all_small(final(mem).frames@, pt.root),
            spec_avail(*old(mem)) >= 24 ==> r is Ok,
            match r {
                Result::Err(e) => e == KernelError::OutOfMemory && spec_avail(*final(mem)) == 0,
                Result::Ok(_) => {
                    // the guard page still maps nothing
                    &&& crate::table::walk(final(mem).frames@, pt.root, self.guard) is None
                    // every stack page is in place, writable kernel memory
                    &&& forall|k: int|
                        0 <= k < KERNEL_STACK_PAGES ==> #[trigger] crate::table::walk(
                            final(mem).frames@,
                            pt.root,
                            (self.guard + 4096 + k * 4096) as u64,
                        ) == Option::Some(
                            (
                                ((self.frames@[k] * 4096) as u64),
                                crate::fault::KERNEL_DATA_FLAGS | crate::entry::FLAG_PRESENT,
                            ),
                        )
                },
            },
    {
        let mut k: usize = 0;
        while k < KERNEL_STACK_PAGES
            invariant
                mem_inv(*mem),
                mem.capacity == old(mem).capacity,
                crate::table::is_root(mem.frames@, pt.root),
                crate::exec::all_small(mem.frames@, pt.root),
                stack_wf(old(mem).frames@, *self),
                self.guard % 4096 == 0,
                0xffff_0000_0000_0000 <= self.guard,
                self.guard + 9 * 4096 < 0xffff_ff80_0000_0000,
                k <= KERNEL_STACK_PAGES,
                spec_avail(*mem) >= spec_avail(*old(mem)) - 3 * k,
                crate::table::walk(mem.frames@, pt.root, self.guard) is None,
                forall|j: int|
                    0 <= j < k ==> #[trigger] crate::table::walk(
                        mem.frames@,
                        pt.root,
                        (self.guard + 4096 + j * 4096) as u64,
                    ) == Option::Some(
                        (
                            ((self.frames@[j] * 4096) as u64),
                            crate::fault::KERNEL_DATA_FLAGS | crate::entry::FLAG_PRESENT,
                        ),
                    ),
            decreases KERNEL_STACK_PAGES - k,
        {
            let page = self.guard + 4096 + (k as u64) * 4096;
            let ghost sp = mem.frames@;
            proof {
                lemma_kernel_window_vaddr(page);
                assert(crate::table::vaddr_ok(page));
                assert(crate::table::no_block_on_path(sp, pt.root, page)) by {
                    if crate::table::path2(sp, pt.root, page) is Some {
                        let t2 = crate::table::path2(sp, pt.root, page)->Some_0;
                        let e2 = crate::mem::ent(sp, t2, crate::table::idx2(page));
                        if crate::entry::e_present(e2) && !crate::entry::e_small(e2) {
                            assert(crate::table::walk(sp, pt.root, page) == Option::Some(
                                (crate::entry::e_addr(e2), crate::entry::e_flags(e2)),
                            ));
                            assert(!crate::entry::e_small(e2) ==> !(crate::entry::e_flags(e2)
                                & 0x2u64 == 0x2u64)) by (bit_vector);
                        }
                    }
                }
                assert((0x702u64 & 0x0000_ffff_ffff_f000u64 == 0) && (0x702u64 & 0x2u64
                    == 0x2)) by (bit_vector);
                assert(self.frames@[k as int] < 0x1000_0000);
                crate::mem::lemma_frame_addr(self.frames@[k as int]);
            }
            let fa = self.frames[k] * 4096;
            match pt.map(
                mem,
                crate::table::PageSize::Size4K,
                page,
                fa,
                crate::fault::KERNEL_DATA_FLAGS,
            ) {
                Result::Ok(_) => {},
                Result::Err(e) => {
                    return Result::Err(e);
                },
            }
            proof {
                let s1 = mem.frames@;
                assert forall|j: int|
                    0 <= j < k + 1 implies #[trigger] crate::table::walk(
                    s1,
                    pt.root,
                    (self.guard + 4096 + j * 4096) as u64,
                ) == Option::Some(
                    (
                        ((self.frames@[j] * 4096) as u64),
                        crate::fault::KERNEL_DATA_FLAGS | crate::entry::FLAG_PRESENT,
                    ),
                ) by {
                    let vj = (self.guard + 4096 + j * 4096) as u64;
                    lemma_kernel_window_vaddr(vj);
                    if j == k {
                        assert(crate::table::same_page_4k(vj, page));
                    } else {
                        assert(!crate::table::same_page_4k(vj, page)) by {
                            lemma_distinct_pages(vj, page);
                        }
                        assert(crate::table::walk(s1, pt.root, vj) == crate::table::walk(
                            sp,
                            pt.root,
                            vj,
                        ));
                    }
                }
                assert(crate::table::walk(s1, pt.root, self.guard) is None) by {
                    lemma_kernel_window_vaddr(self.guard);
                    assert(!crate::table::same_page_4k(self.guard, page)) by {
                        lemma_distinct_pages(self.guard, page);
                    }
                }
                assert(crate::exec::all_small(s1, pt.root)) by {
                    assert forall|v: u64|
                        crate::table::vaddr_ok(v) implies match #[trigger] crate::table::walk(
                        s1,
                        pt.root,
                        v,
                    ) {
                        Option::Some((a, fl)) => crate::entry::has_flag(
                            fl,
                            crate::entry::FLAG_SMALL_PAGE,
                        ),
                        Option::None => true,
                    } by {
                        if crate::table::same_page_4k(v, page) {
                            assert(crate::table::walk(s1, pt.root, v) == Option::Some(
                                (fa, crate::fault::KERNEL_DATA_FLAGS
                                    | crate::entry::FLAG_PRESENT),
                            ));
                            assert((0x702u64 | 0x1u64) & 0x2u64 == 0x2u64) by (bit_vector);
                        } else {
                            assert(crate::table::walk(s1, pt.root, v) == crate::table::walk(
                                sp,
                                pt.root,
                                v,
                            ));
                        }
                    }
                }
            }
            k = k + 1;
        }
        Result::Ok(())
    }

    /// First byte of the usable stack: the page after the guard.
    pub fn start_address(&self) -> (r: u64)
        requires
            self.guard <= 0xffff_ffff_ffff_efff,
        ensures
            r == self.guard + 4096,
    {
        self.guard + 4096
    }

    /// One past the last byte of the stack; the stack pointer starts here.
    pub fn end_address(&self) -> (r: u64)
        requires
            self.guard <= 0xffff_ffff_ffff_6fff,
        ensures
            r == self.guard + 4096 + KERNEL_STACK_SIZE,
    {
        self.guard + 4096 + KERNEL_STACK_SIZE
    }

    /// Copy the other stack's contents page for page into this stack's
    /// frames, as a fork does for the child's kernel stack.
    pub fn copy_from(&self, mem: &mut PhysicalMemory, other: &KernelStack)
        requires
            mem_inv(*old(mem)),
            stack_wf(old(mem).frames@, *self),
            stack_wf(old(mem).frames@, *other),
            forall|j: int, k: int|
                0 <= j < KERNEL_STACK_PAGES && 0 <= k < KERNEL_STACK_PAGES
                    ==> #[trigger] self.frames@[j] != #[trigger] other.frames@[k],
        ensures
            mem_inv(*final(mem)),
            final(mem).capacity == old(mem).capacity,
            spec_avail(*final(mem)) == spec_avail(*old(mem)),
            forall|k: int|
                0 <= k < KERNEL_STACK_PAGES ==> page_bytes(
                    final(mem).frames@,
                    #[trigger] self.frames@[k],
                ) == page_bytes(old(mem).frames@, other.frames@[k]),
            // the source stack's own bytes read as before
            forall|k: int|
                0 <= k < KERNEL_STACK_PAGES ==> page_bytes(
                    final(mem).frames@,
                    #[trigger] other.frames@[k],
                ) == page_bytes(old(mem).frames@, other.frames@[k]),
            forall|g: u64, i: int|
                #[trigger] crate::mem::ent(final(mem).frames@, g, i) == crate::mem::ent(
                    old(mem).frames@,
                    g,
                    i,
                ),
            forall|g: u64|
                #[trigger] crate::mem::is_table(final(mem).frames@, g) <==> crate::mem::is_table(
                    old(mem).frames@,
                    g,
                ),
            forall|g: u64|
                crate::mem::is_table(old(mem).frames@, g) ==> #[trigger] crate::mem::table_level(
                    final(mem).frames@,
                    g,
                ) == crate::mem::table_level(old(mem).frames@, g),
            forall|g: u64|
                #[trigger] is_page(final(mem).frames@, g) <==> is_page(old(mem).frames@, g),
    {
        let mut k: usize = 0;
        while k < KERNEL_STACK_PAGES
            invariant
                mem_inv(*mem),
                mem.capacity == old(mem).capacity,
                spec_avail(*mem) == spec_avail(*old(mem)),
                k <= KERNEL_STACK_PAGES,
                stack_wf(mem.frames@, *self),
                stack_wf(mem.frames@, *other),
                forall|j: int, jj: int|
                    0 <= j < KERNEL_STACK_PAGES && 0 <= jj < KERNEL_STACK_PAGES
                        ==> #[trigger] self.frames@[j] != #[trigger] other.frames@[jj],
                forall|j: int|
                    0 <= j < k ==> page_bytes(mem.frames@, #[trigger] self.frames@[j])
                        == page_bytes(old(mem).frames@, other.frames@[j]),
                forall|j: int|
                    k <= j < KERNEL_STACK_PAGES ==> page_bytes(
                        mem.frames@,
                        #[trigger] self.frames@[j],
                    ) == page_bytes(old(mem).frames@, self.frames@[j]),
                forall|j: int|
                    0 <= j < KERNEL_STACK_PAGES ==> page_bytes(
                        mem.frames@,
                        #[trigger] other.frames@[j],
                    ) == page_bytes(old(mem).frames@, other.frames@[j]),
                forall|g: u64, i: int|
                    #[trigger] crate::mem::ent(mem.frames@, g, i) == crate::mem::ent(
                        old(mem).frames@,
                        g,
                        i,
                    ),
                forall|g: u64|
                    #[trigger] crate::mem::is_table(mem.frames@, g) <==> crate::mem::is_table(
                        old(mem).frames@,
                        g,
                    ),
                forall|g: u64|
                    crate::mem::is_table(old(mem).frames@, g)
                        ==> #[trigger] crate::mem::table_level(mem.frames@, g)
                        == crate::mem::table_level(old(mem).frames@, g),
                forall|g: u64|
                    #[trigger] is_page(mem.frames@, g) <==> is_page(old(mem).frames@, g),
            decreases KERNEL_STACK_PAGES - k,
        {
            let ghost sp = mem.frames@;
            let src = other.frames[k];
            let dst = self.frames[k];
            proof {
                assert(crate::mem::frame_page_ok(sp, src));
            }
            let bytes = mem.page_contents(src);
            mem.set_page_contents(dst, bytes);
            proof {
                crate::mem::lemma_nontable_update(sp, mem.frames@, dst);
            }
            proof {
                let s1 = mem.frames@;
                assert forall|j: int|
                    0 <= j < KERNEL_STACK_PAGES && j != k implies page_bytes(
                    s1,
                    #[trigger] self.frames@[j],
                ) == page_bytes(sp, self.frames@[j]) by {
                    assert(self.frames@[j] != dst);
                    assert(s1[self.frames@[j] as int] == sp[self.frames@[j] as int]);
                }
                assert forall|j: int|
                    0 <= j < KERNEL_STACK_PAGES implies page_bytes(
                    s1,
                    #[trigger] other.frames@[j],
                ) == page_bytes(sp, other.frames@[j]) by {
                    assert(other.frames@[j] != dst);
                    assert(s1[other.frames@[j] as int] == sp[other.frames@[j] as int]);
                }
                assert forall|j: int|
                    0 <= j < KERNEL_STACK_PAGES implies is_page(s1, #[trigger] self.frames@[j])
                        && is_page(s1, #[trigger] other.frames@[j]) by {
                    if self.frames@[j] != dst {
                        assert(s1[self.frames@[j] as int] == sp[self.frames@[j] as int]);
                    }
                    assert(s1[other.frames@[j] as int] == sp[other.frames@[j] as int]);
                }
            }
            k = k + 1;
        }
    }
}

} // verus!
