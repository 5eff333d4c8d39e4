//! The page-fault handler: kills on privilege violations, demand-maps
//! fresh zero pages inside the user regions, and resolves copy-on-write
//! faults by copying the shared page into a private frame.

use vstd::prelude::*;
use crate::entry::{
    e_addr, e_flags, e_present, e_small, has_flag, FLAG_COPY_ON_WRITE, FLAG_PRESENT,
    FLAG_SMALL_PAGE,
};
use crate::mem::{
    ent, frame_addr, is_page, lemma_nontable_update, mem_inv, page_bytes, page_refcount,
    spec_avail, PhysicalMemory, FrameSlot,
};
use crate::table::{
    idx2, is_root, no_block_on_path, path1, path2, same_page_4k, spec_tables_missing,
    vaddr_ok, walk, PageSize, PageTable,
};
use crate::KernelError;

verus! {

/// First address of the kernel half: top sixteen bits set.
pub const KERNEL_HALF_BASE: u64 = 0xffff_0000_0000_0000;

/// First address of the user heap region.
pub const USER_HEAP_START: u64 = 0x40_0000;

/// The user stack grows down from here.
pub const USER_STACK_END: u64 = 0x7fff_ffff_f000;

/// SMALL_PAGE | USER | OUTER_SHARE | ACCESSED: a fresh writable user page.
pub const USER_DATA_FLAGS: u64 = 0x742;

/// SMALL_PAGE | OUTER_SHARE | ACCESSED: writable kernel memory.
pub const KERNEL_DATA_FLAGS: u64 = 0x702;

/// COPY_ON_WRITE | NO_WRITE.
pub const COW_BITS: u64 = 0x20_0000_0000_0080;

/// The address lies in the kernel half.
pub open spec fn kernel_half(v: u64) -> bool {
    v >= KERNEL_HALF_BASE
}

/// The address lies in a region a user task may touch on demand: heap and
/// stack, between the heap base and the top of the user stack.
pub open spec fn in_user_vma(v: u64) -> bool {
    USER_HEAP_START <= v < USER_STACK_END
}

/// The flags a resolved copy-on-write page carries: the original flags
/// with COPY_ON_WRITE and NO_WRITE cleared and PRESENT kept.
pub open spec fn cow_cleaned(fl: u64) -> u64 {
    ((fl & !COW_BITS) | FLAG_PRESENT) as u64
}

/// What the handler decides for a fault, in the order the decisions fall.
pub enum FaultAction {
    /// User access to the kernel half, or no mapping and no user region.
    KillSegfault,
    /// No mapping, inside a user region: map a fresh zero page.
    DemandMap,
    /// Write to a present copy-on-write page: copy and re-own it.
    CowBreak,
    /// Any other permission violation.
    KillPermission,
}

/// The decision the handler owes for the given fault.
pub open spec fn spec_fault_action(
    s: Seq<FrameSlot>,
    root: u64,
    v: u64,
    is_write: bool,
    from_user: bool,
) -> FaultAction {
    if from_user && kernel_half(v) {
        FaultAction::KillSegfault
    } else {
        match walk(s, root, v) {
            Option::None => if !kernel_half(v) && in_user_vma(v) {
                FaultAction::DemandMap
            } else {
                FaultAction::KillSegfault
            },
            Option::Some((a, fl)) => if is_write && has_flag(fl, FLAG_COPY_ON_WRITE) && has_flag(
                fl,
                FLAG_SMALL_PAGE,
            ) {
                FaultAction::CowBreak
            } else {
                FaultAction::KillPermission
            },
        }
    }
}

/// What the handler did.
#[derive(Clone, Copy, PartialEq, Eq, Structural, Debug)]
pub enum FaultOutcome {
    /// A fresh zero page now backs the faulting address; its physical
    /// address is carried.
    Mapped(u64),
    /// The copy-on-write page was copied; the new frame's physical address
    /// is carried.
    CowResolved(u64),
    /// The task must be killed, with the reason.
    Killed(KernelError),
    /// The operation ran out of frames and was aborted.
    Failed(KernelError),
}

/// Everything the page-fault handler promises, as a relation between the
/// pool before (`m0`) and after (`m1`): the dispatcher's contract reuses
/// it word for word.
pub open spec fn fault_post(
    m0: PhysicalMemory,
    m1: PhysicalMemory,
    root: u64,
    v: u64,
    is_write: bool,
    from_user: bool,
    r: FaultOutcome,
) -> bool {
            match spec_fault_action(m0.frames@, root, v, is_write, from_user) {
                FaultAction::KillSegfault => r == FaultOutcome::Killed(KernelError::InvalidAddress)
                    && m1 == m0,
                FaultAction::KillPermission => r == FaultOutcome::Killed(
                    KernelError::PermissionDenied,
                ) && m1 == m0,
                FaultAction::DemandMap => {
                    &&& (r is Failed <==> spec_avail(m0) < 1 + spec_tables_missing(
                        m0.frames@,
                        root,
                        v,
                    ))
                    &&& match r {
                        FaultOutcome::Mapped(nfa) => {
                            &&& is_page(m1.frames@, ((nfa / 4096) as u64))
                            &&& page_bytes(m1.frames@, ((nfa / 4096) as u64)) == Seq::new(
                                4096nat,
                                |i: int| 0u8,
                            )
                            &&& forall|v2: u64|
                                same_page_4k(v2, v) ==> #[trigger] walk(
                                    m1.frames@,
                                    root,
                                    v2,
                                ) == Option::Some((nfa, USER_DATA_FLAGS | FLAG_PRESENT))
                            &&& forall|r2: u64, v2: u64|
                                is_root(m0.frames@, r2) && vaddr_ok(v2) && !(r2 == root
                                    && same_page_4k(v2, v)) ==> #[trigger] walk(
                                    m1.frames@,
                                    r2,
                                    v2,
                                ) == walk(m0.frames@, r2, v2)
                        },
                        FaultOutcome::Failed(e) => e == KernelError::OutOfMemory,
                        _ => false,
                    }
                },
                FaultAction::CowBreak => {
                    let a0 = walk(m0.frames@, root, v)->Some_0.0;
                    let fl0 = walk(m0.frames@, root, v)->Some_0.1;
                    let of = (a0 / 4096) as u64;
                    if is_page(m0.frames@, of) {
                        match r {
                            FaultOutcome::CowResolved(nfa) => {
                                &&& is_page(m1.frames@, ((nfa / 4096) as u64))
                                &&& page_bytes(m1.frames@, ((nfa / 4096) as u64))
                                    == page_bytes(m0.frames@, of)
                                &&& forall|v2: u64|
                                    same_page_4k(v2, v) ==> #[trigger] walk(
                                        m1.frames@,
                                        root,
                                        v2,
                                    ) == Option::Some((nfa, cow_cleaned(fl0)))
                                &&& !has_flag(cow_cleaned(fl0), FLAG_COPY_ON_WRITE)
                                &&& !has_flag(cow_cleaned(fl0), crate::entry::FLAG_NO_WRITE)
                                // the faulting task's reference to the shared
                                // frame is released: the count drops by one,
                                // and the frame itself is freed at zero
                                &&& ((nfa / 4096) as u64) != of
                                &&& page_refcount(m0.frames@, of) > 1 ==> is_page(m1.frames@, of)
                                    && page_refcount(m1.frames@, of) == page_refcount(
                                    m0.frames@,
                                    of,
                                ) - 1
                                &&& page_refcount(m0.frames@, of) == 1 ==> !is_page(
                                    m1.frames@,
                                    of,
                                )
                                &&& forall|r2: u64, v2: u64|
                                    is_root(m0.frames@, r2) && vaddr_ok(v2) && !(r2
                                        == root && same_page_4k(v2, v)) ==> #[trigger] walk(
                                        m1.frames@,
                                        r2,
                                        v2,
                                    ) == walk(m0.frames@, r2, v2)
                            },
                            FaultOutcome::Failed(e) => e == KernelError::OutOfMemory
                                && spec_avail(m0) == 0,
                            _ => false,
                        }
                    } else {
                        r == FaultOutcome::Killed(KernelError::PermissionDenied) && m1
                            == m0
                    }
                },
            }
}

impl PageTable {
    /// Handle a data abort at `v`. Decisions, in order: a user access to
    /// the kernel half kills; a missing mapping inside the user regions is
    /// filled with a zero page; a write to a present copy-on-write page
    /// copies it, clears COPY_ON_WRITE and NO_WRITE, keeps the contents,
    /// and releases one reference to the shared frame; anything else
    /// kills. This is the one path of the kernel that takes the
    /// copy-on-write protection off a page: every other table operation
    /// either leaves foreign pages' flags untouched (its framing clauses
    /// say so) or writes only the flags its caller passed in.
    pub fn handle_page_fault(
        &self,
        mem: &mut PhysicalMemory,
        v: u64,
        is_write: bool,
        from_user: bool,
    ) -> (r: FaultOutcome)
        requires
            mem_inv(*old(mem)),
            is_root(old(mem).frames@, self.root),
            vaddr_ok(v),
        ensures
            mem_inv(*final(mem)),
            final(mem).capacity == old(mem).capacity,
            is_root(final(mem).frames@, self.root),
            fault_post(*old(mem), *final(mem), self.root, v, is_write, from_user, r),
    {
        let ghost s0 = old(mem).frames@;
        if from_user && v >= KERNEL_HALF_BASE {
            return FaultOutcome::Killed(KernelError::InvalidAddress);
        }
        match self.entry_of(mem, v) {
            Option::None => {
                if !(v >= KERNEL_HALF_BASE) && USER_HEAP_START <= v && v < USER_STACK_END {
                    // demand-fill a zero page
                    proof {
                        assert(no_block_on_path(s0, self.root, v)) by {
                            if path2(s0, self.root, v) is Some {
                                let t2 = path2(s0, self.root, v)->Some_0;
                                let e2 = ent(s0, t2, idx2(v));
                                if e_present(e2) && !e_small(e2) {
                                    assert(walk(s0, self.root, v) == Option::Some(
                                        (e_addr(e2), e_flags(e2)),
                                    ));
                                }
                            }
                        }
                    }
                    let nf = match mem.alloc_page() {
                        Option::Some(nf) => nf,
                        Option::None => {
                            return FaultOutcome::Failed(KernelError::OutOfMemory);
                        },
                    };
                    let ghost sa = mem.frames@;
                    let ghost ma = *mem;
                    proof {
                        lemma_nontable_update(s0, sa, nf);
                        assert(spec_tables_missing(sa, self.root, v) == spec_tables_missing(
                            s0,
                            self.root,
                            v,
                        ));
                        assert(no_block_on_path(sa, self.root, v));
                        assert(is_root(sa, self.root));
                        assert((0x742u64 & 0x0000_ffff_ffff_f000u64 == 0) && (0x742u64
                            & 0x2u64 == 0x2)) by (bit_vector);
                        crate::mem::lemma_frame_addr(nf);
                    }
                    let nfa = nf * 4096;
                    let r = self.map(mem, PageSize::Size4K, v, nfa, USER_DATA_FLAGS);
                    match r {
                        Result::Ok(_) => {
                            proof {
                                let s1 = mem.frames@;
                                assert(is_root(s1, self.root));
                                assert(is_page(s1, nf) && page_bytes(s1, nf) == Seq::new(
                                    4096nat,
                                    |i: int| 0u8,
                                ));
                                assert((nfa / 4096) as u64 == nf);
                                assert forall|r2: u64, v2: u64|
                                    is_root(s0, r2) && vaddr_ok(v2) && !(r2 == self.root
                                        && same_page_4k(v2, v)) implies #[trigger] walk(
                                    s1,
                                    r2,
                                    v2,
                                ) == walk(s0, r2, v2) by {
                                    assert(is_root(sa, r2));
                                    assert(walk(s1, r2, v2) == walk(sa, r2, v2));
                                    assert(walk(sa, r2, v2) == walk(s0, r2, v2));
                                }
                            }
                            FaultOutcome::Mapped(nfa)
                        },
                        Result::Err(e) => {
                            proof {
                                assert(spec_avail(ma) < spec_tables_missing(sa, self.root, v));
                                assert(spec_avail(*old(mem)) < 1 + spec_tables_missing(
                                    s0,
                                    self.root,
                                    v,
                                ));
                            }
                            FaultOutcome::Failed(e)
                        },
                    }
                } else {
                    FaultOutcome::Killed(KernelError::InvalidAddress)
                }
            },
            Option::Some((a0, fl0)) => {
                let is_cow = fl0 & FLAG_COPY_ON_WRITE == FLAG_COPY_ON_WRITE;
                let is_small = fl0 & FLAG_SMALL_PAGE == FLAG_SMALL_PAGE;
                if !(is_write && is_cow && is_small) {
                    return FaultOutcome::Killed(KernelError::PermissionDenied);
                }
                let of = a0 / 4096;
                if !mem.is_data_page(of) {
                    return FaultOutcome::Killed(KernelError::PermissionDenied);
                }
                // copy the shared page into a private frame
                let nf = match mem.alloc_page() {
                    Option::Some(nf) => nf,
                    Option::None => {
                        return FaultOutcome::Failed(KernelError::OutOfMemory);
                    },
                };
                let ghost sa = mem.frames@;
                proof {
                    lemma_nontable_update(s0, sa, nf);
                    assert(is_page(sa, of) && page_bytes(sa, of) == page_bytes(s0, of));
                    assert(crate::mem::frame_page_ok(sa, of));
                    assert(forall|x: u64| #[trigger] (x & !0x0000_ffff_ffff_f000u64)
                        & 0x0000_ffff_ffff_f000u64 == 0) by (bit_vector);
                }
                let bytes = mem.page_contents(of);
                mem.set_page_contents(nf, bytes);
                let ghost sb = mem.frames@;
                let ghost mb = *mem;
                proof {
                    assert(is_root(sb, self.root));
                    assert(no_block_on_path(sb, self.root, v)) by {
                        assert(walk(sb, self.root, v) == walk(s0, self.root, v));
                        if path2(sb, self.root, v) is Some {
                            let t2 = path2(sb, self.root, v)->Some_0;
                            let e2 = ent(sb, t2, idx2(v));
                            if e_present(e2) && !e_small(e2) {
                                assert(walk(sb, self.root, v) == Option::Some(
                                    (e_addr(e2), e_flags(e2)),
                                ));
                                assert((e_flags(e2) & !0x0000_ffff_ffff_f000u64) == e_flags(
                                    e2,
                                ) ==> true);
                                assert(fl0 == e_flags(e2));
                                assert(!e_small(e2) ==> !(e_flags(e2) & 0x2u64 == 0x2))
                                    by (bit_vector);
                            }
                        }
                    }
                    assert((fl0 & !0x20_0000_0000_0080u64 | 0x1u64) & 0x0000_ffff_ffff_f000u64
                        == 0 && (fl0 & !0x20_0000_0000_0080u64 | 0x1u64) & 0x2u64 == 0x2 && !((fl0
                        & !0x20_0000_0000_0080u64 | 0x1u64) & 0x20_0000_0000_0000u64
                        == 0x20_0000_0000_0000u64) && !((fl0 & !0x20_0000_0000_0080u64 | 0x1u64)
                        & 0x80u64 == 0x80u64)) by (bit_vector)
                        requires
                            fl0 & 0x0000_ffff_ffff_f000u64 == 0,
                            fl0 & 0x2u64 == 0x2,
                    ;
                    crate::mem::lemma_frame_addr(nf);
                }
                let clean = (fl0 & !COW_BITS) | FLAG_PRESENT;
                let nfa = nf * 4096;
                let rr = self.remap(mem, PageSize::Size4K, v, nfa, clean);
                match rr {
                    Result::Ok(_) => {},
                    Result::Err(_) => {
                        proof {
                            assert(path1(sb, self.root, v) is Some) by {
                                assert(walk(sb, self.root, v) == walk(s0, self.root, v));
                            }
                            assert(spec_tables_missing(sb, self.root, v) == 0);
                            assert(false);
                        }
                    },
                }
                let ghost sc = mem.frames@;
                // release one reference to the shared frame
                let rc = mem.refcount(of);
                if rc > 1 {
                    mem.refcount_dec(of);
                } else if rc == 1 {
                    mem.refcount_dec(of);
                    mem.free_page(of);
                }
                proof {
                    let s1 = mem.frames@;
                    assert(forall|g: u64, i: int| #[trigger] ent(s1, g, i) == ent(sc, g, i));
                    assert((nfa / 4096) as u64 == nf);
                    assert(of != nf);
                    assert(page_refcount(sb, of) == page_refcount(s0, of));
                    assert(is_page(sb, of));
                    assert(page_refcount(sc, of) == page_refcount(sb, of));
                    if rc > 1 {
                        assert(is_page(s1, of) && page_refcount(s1, of) == page_refcount(
                            s0,
                            of,
                        ) - 1);
                    } else if rc == 1 {
                        assert(!is_page(s1, of));
                    }
                    assert(is_page(sb, nf) && page_bytes(sb, nf) == page_bytes(s0, of));
                    assert(is_page(sc, nf) && page_bytes(sc, nf) == page_bytes(sb, nf));
                    assert(s1[nf as int] == sc[nf as int]);
                    assert(is_page(s1, nf));
                    assert(page_bytes(s1, nf) == page_bytes(s0, of));
                    assert(crate::mem::is_table(sc, self.root) && crate::mem::table_level(sc, self.root)
                        == 4);
                    assert(s1[self.root as int] == sc[self.root as int]);
                    assert(is_root(s1, self.root));
                    assert forall|v2: u64| same_page_4k(v2, v) implies #[trigger] walk(
                        s1,
                        self.root,
                        v2,
                    ) == Option::Some((nfa, cow_cleaned(fl0))) by {
                        assert(walk(sc, self.root, v2) == Option::Some(
                            (frame_addr(nf), (clean | FLAG_PRESENT) as u64),
                        ));
                        assert((clean | 0x1u64) == clean) by (bit_vector)
                            requires
                                clean == fl0 & !0x20_0000_0000_0080u64 | 0x1u64,
                        ;
                        assert(walk(s1, self.root, v2) == walk(sc, self.root, v2));
                    }
                    assert forall|r2: u64, v2: u64|
                        is_root(s0, r2) && vaddr_ok(v2) && !(r2 == self.root && same_page_4k(
                            v2,
                            v,
                        )) implies #[trigger] walk(s1, r2, v2) == walk(s0, r2, v2) by {
                        assert(walk(sb, r2, v2) == walk(s0, r2, v2));
                        assert(is_root(sb, r2));
                        assert(walk(sc, r2, v2) == walk(sb, r2, v2));
                        assert(walk(s1, r2, v2) == walk(sc, r2, v2));
                    }
                }
                FaultOutcome::CowResolved(nfa)
            },
        }
    }
}

} // verus!
