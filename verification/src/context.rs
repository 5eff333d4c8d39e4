//! The architectural context a task-switch saves and restores: callee-saved
//! integer registers x19..x29, stack pointer, program counter (x30), the 32
//! NEON Q registers, and the root of the task's address space.

use vstd::prelude::*;
use crate::mem::{frame_addr, spec_avail, PhysicalMemory};
use crate::stack::KernelStack;
use crate::table::PageTable;
use crate::KernelError;

verus! {

/// The callee-saved register bank, as the switch routine stores it.
pub struct RegBank {
    /// Stack pointer.
    pub sp: u64,
    /// x19 through x29, in order.
    pub x: Vec<u64>,
    /// Program counter (x30 at the switch).
    pub pc: u64,
    /// The 32 NEON Q registers.
    pub q: Vec<u128>,
}

/// Eleven integer registers and thirty-two Q registers.
pub open spec fn regs_wf(r: RegBank) -> bool {
    r.x@.len() == 11 && r.q@.len() == 32
}

/// Two banks hold the same registers.
pub open spec fn regs_eq(a: RegBank, b: RegBank) -> bool {
    a.sp == b.sp && a.pc == b.pc && a.x@ == b.x@ && a.q@ == b.q@
}

/// The fork's stack table: each parent stack frame's address paired with
/// the child frame's address, page by page.
pub open spec fn stack_pairs(a: Seq<u64>, b: Seq<u64>) -> Seq<(u64, u64)> {
    Seq::new(a.len(), |k: int| (((a[k] * 4096) as u64), ((b[k] * 4096) as u64)))
}

/// Borrow the stack out of its option; the caller knows it is there.
fn stack_ref(o: &Option<KernelStack>) -> (r: &KernelStack)
    requires
        o is Some,
    ensures
        *r == o->Some_0,
{
    match o {
        Option::Some(st) => st,
        Option::None => {
            proof {
                assert(false);
            }
            unreached()
        },
    }
}

/// The processor state the switch routine touches: the live callee-saved
/// bank and the user-half translation root.
pub struct Machine {
    /// The registers currently live in the processor.
    pub regs: RegBank,
    /// Physical address installed as the user-half translation base.
    pub ttbr0: u64,
}

/// A task's saved context.
pub struct Context {
    /// The saved register bank.
    pub regs: RegBank,
    /// Root of the task's address space.
    pub p4: PageTable,
    /// The task's kernel stack, exclusively owned.
    pub kernel_stack: Option<KernelStack>,
}

/// A well-formed context.
pub open spec fn ctx_wf(c: Context) -> bool {
    regs_wf(c.regs)
}

/// A register bank with every register zero.
pub fn zero_regs() -> (r: RegBank)
    ensures
        regs_wf(r),
        r.sp == 0 && r.pc == 0,
        forall|i: int| 0 <= i < 11 ==> r.x@[i] == 0,
        forall|i: int| 0 <= i < 32 ==> r.q@[i] == 0,
{
    let mut x: Vec<u64> = Vec::new();
    let mut i: usize = 0;
    while i < 11
        invariant
            i <= 11,
            x@.len() == i,
            forall|j: int| 0 <= j < i ==> x@[j] == 0,
        decreases 11 - i,
    {
        x.push(0);
        i = i + 1;
    }
    let mut q: Vec<u128> = Vec::new();
    let mut k: usize = 0;
    while k < 32
        invariant
            k <= 32,
            q@.len() == k,
            forall|j: int| 0 <= j < k ==> q@[j] == 0,
        decreases 32 - k,
    {
        q.push(0);
        k = k + 1;
    }
    RegBank { sp: 0, x, pc: 0, q }
}

impl Context {
    /// A context with empty registers and no address space of its own;
    /// the root frame number is the caller's placeholder zero.
    pub fn empty() -> (r: Context)
        ensures
            ctx_wf(r),
            r.kernel_stack is None,
            r.regs.sp == 0 && r.regs.pc == 0,
            forall|i: int| 0 <= i < 11 ==> #[trigger] r.regs.x@[i] == 0,
            forall|i: int| 0 <= i < 32 ==> #[trigger] r.regs.q@[i] == 0,
    {
        Context { regs: zero_regs(), p4: PageTable { root: 0 }, kernel_stack: None }
    }

    /// A context for a new task: a fresh, empty address space whose root
    /// carries the self-reference, a fresh kernel stack whose top is the
    /// initial stack pointer, the entry point as the saved program
    /// counter, and every other register zero. Fails exactly when the
    /// pool cannot supply the root frame and the eight stack pages.
    pub fn new(mem: &mut PhysicalMemory, entry: u64, stack_guard: u64) -> (r: Result<
        Context,
        KernelError,
    >)
        requires
            crate::mem::mem_inv(*old(mem)),
            stack_guard <= 0xffff_ffff_ffff_6fff,
        ensures
            crate::mem::mem_inv(*final(mem)),
            final(mem).capacity == old(mem).capacity,
            r is Ok <==> spec_avail(*old(mem)) >= 9,
            r is Err ==> spec_avail(*final(mem)) == 0,
            match r {
                Result::Err(e) => e == KernelError::OutOfMemory,
                Result::Ok(c) => {
                    &&& ctx_wf(c)
                    &&& c.regs.pc == entry
                    &&& c.regs.sp == stack_guard + 4096 + crate::stack::KERNEL_STACK_SIZE
                    &&& forall|i: int| 0 <= i < 11 ==> #[trigger] c.regs.x@[i] == 0
                    &&& forall|i: int| 0 <= i < 32 ==> #[trigger] c.regs.q@[i] == 0
                    &&& crate::table::pt_inv(final(mem).frames@, c.p4.root)
                    &&& c.kernel_stack is Some
                    &&& c.kernel_stack->Some_0.guard == stack_guard
                    &&& crate::stack::stack_wf(final(mem).frames@, c.kernel_stack->Some_0)
                    &&& spec_avail(*final(mem)) == spec_avail(*old(mem)) - 9
                    &&& forall|v: u64|
                        crate::table::vaddr_ok(v) ==> #[trigger] crate::table::walk(
                            final(mem).frames@,
                            c.p4.root,
                            v,
                        ) is None
                },
            },
    {
        let pt = match PageTable::new(mem) {
            Result::Ok(pt) => pt,
            Result::Err(e) => {
                return Result::Err(e);
            },
        };
        pt.install_self_reference(mem);
        let ghost s1 = mem.frames@;
        let stack = match KernelStack::new(mem, stack_guard) {
            Result::Ok(s) => s,
            Result::Err(e) => {
                return Result::Err(e);
            },
        };
        proof {
            let s2 = mem.frames@;
            assert(crate::table::pt_inv(s2, pt.root)) by {
                assert(crate::mem::ent(s2, pt.root, 511) == crate::mem::ent(s1, pt.root, 511));
                assert(crate::mem::is_table(s2, pt.root));
                assert(crate::mem::table_level(s2, pt.root) == 4);
            }
            assert forall|v: u64| crate::table::vaddr_ok(v) implies #[trigger] crate::table::walk(
                s2,
                pt.root,
                v,
            ) is None by {
                assert(crate::table::walk(s1, pt.root, v) is None);
                assert(crate::table::walk(s2, pt.root, v) == crate::table::walk(s1, pt.root, v));
            }
        }
        let mut c = Context::empty();
        let sp = stack.end_address();
        c.regs.pc = entry;
        c.regs.sp = sp;
        c.p4 = pt;
        c.kernel_stack = Some(stack);
        Result::Ok(c)
    }

    /// Fork this context for a child task: a fresh kernel stack receives a
    /// byte-for-byte copy of this one; the page-table hierarchy is forked
    /// with the stack pages redirected to the child's new frames and
    /// every other page shared copy-on-write, marked in place in this
    /// context's own tables - the root and the hierarchy stay put. The
    /// registers are duplicated, with the stack pointer rebased into the
    /// child's stack.
    pub fn fork(&self, mem: &mut PhysicalMemory, child_guard: u64) -> (r: Result<
        Context,
        KernelError,
    >)
        requires
            crate::mem::mem_inv(*old(mem)),
            ctx_wf(*self),
            crate::table::is_root(old(mem).frames@, self.p4.root),
            self.kernel_stack is Some,
            crate::stack::stack_wf(old(mem).frames@, self.kernel_stack->Some_0),
            child_guard <= 0xffff_ffff_ffff_6fff,
            self.kernel_stack->Some_0.guard <= 0xffff_ffff_ffff_6fff,
            self.kernel_stack->Some_0.guard + 4096 <= self.regs.sp,
            self.regs.sp <= self.kernel_stack->Some_0.guard + 4096
                + crate::stack::KERNEL_STACK_SIZE,
        ensures
            crate::mem::mem_inv(*final(mem)),
            final(mem).capacity == old(mem).capacity,
            match r {
                Result::Err(e) => e == KernelError::OutOfMemory && spec_avail(*final(mem)) == 0,
                Result::Ok(c) => {
                    let pairs = stack_pairs(
                        self.kernel_stack->Some_0.frames@,
                        c.kernel_stack->Some_0.frames@,
                    );
                    &&& ctx_wf(c)
                    &&& c.kernel_stack is Some
                    &&& crate::stack::stack_wf(final(mem).frames@, c.kernel_stack->Some_0)
                    &&& crate::stack::stack_wf(
                        final(mem).frames@,
                        self.kernel_stack->Some_0,
                    )
                    &&& c.regs.pc == self.regs.pc
                    &&& c.regs.x@ == self.regs.x@
                    &&& c.regs.q@ == self.regs.q@
                    &&& c.regs.sp == child_guard + 4096 + (self.regs.sp
                        - (self.kernel_stack->Some_0.guard + 4096))
                    // the child's kernel stack holds the same bytes
                    &&& forall|k: int|
                        0 <= k < crate::stack::KERNEL_STACK_PAGES
                            ==> crate::mem::page_bytes(
                            final(mem).frames@,
                            #[trigger] c.kernel_stack->Some_0.frames@[k],
                        ) == crate::mem::page_bytes(
                            old(mem).frames@,
                            self.kernel_stack->Some_0.frames@[k],
                        )
                    // the child's tree is fresh; this context keeps its own
                    &&& crate::table::pt_inv(final(mem).frames@, c.p4.root)
                    &&& crate::table::is_root(final(mem).frames@, self.p4.root)
                    &&& (crate::table::pt_inv(old(mem).frames@, self.p4.root)
                        ==> crate::table::pt_inv(final(mem).frames@, self.p4.root))
                    &&& c.p4.root != self.p4.root
                    // the child sees the parent's pre-fork mappings, stack
                    // pages redirected, everything else shared copy-on-write
                    &&& forall|v: u64|
                        crate::table::vaddr_ok(v) ==> #[trigger] crate::table::walk(
                            final(mem).frames@,
                            c.p4.root,
                            v,
                        ) == crate::fork::untag(
                            crate::fork::child_image(
                                crate::fork::walk_at(old(mem).frames@, self.p4.root, 4, v),
                                pairs,
                            ),
                        )
                    // this context's own mappings are marked in place
                    &&& forall|v: u64|
                        crate::table::vaddr_ok(v) ==> #[trigger] crate::table::walk(
                            final(mem).frames@,
                            self.p4.root,
                            v,
                        ) == crate::fork::untag(
                            crate::fork::parent_image(
                                crate::fork::walk_at(old(mem).frames@, self.p4.root, 4, v),
                                pairs,
                            ),
                        )
                },
            },
    {
        let ghost s0 = old(mem).frames@;
        let ghost root0 = self.p4.root;
        let child_stack = match KernelStack::new(mem, child_guard) {
            Result::Ok(s) => s,
            Result::Err(e) => {
                return Result::Err(e);
            },
        };
        let ghost s1 = mem.frames@;
        let pf = stack_ref(&self.kernel_stack);
        proof {
            assert forall|k: int|
                0 <= k < crate::stack::KERNEL_STACK_PAGES implies crate::mem::is_page(
                s1,
                #[trigger] pf.frames@[k],
            ) by {
                assert(crate::mem::is_page(s0, pf.frames@[k]));
            }
            assert(crate::stack::stack_wf(s1, *pf));
            assert forall|j: int, k: int|
                0 <= j < crate::stack::KERNEL_STACK_PAGES && 0 <= k
                    < crate::stack::KERNEL_STACK_PAGES implies #[trigger] child_stack.frames@[j]
                != #[trigger] pf.frames@[k] by {
                assert(!crate::mem::is_page(s0, child_stack.frames@[j]));
                assert(crate::mem::is_page(s0, pf.frames@[k]));
            }
        }
        child_stack.copy_from(mem, pf);
        let ghost s2 = mem.frames@;
        // pair each parent stack frame with its child frame, by address
        let mut pairs: Vec<(u64, u64)> = Vec::new();
        let mut k: usize = 0;
        while k < crate::stack::KERNEL_STACK_PAGES
            invariant
                k <= crate::stack::KERNEL_STACK_PAGES,
                pairs@.len() == k,
                pf.frames@.len() == crate::stack::KERNEL_STACK_PAGES,
                child_stack.frames@.len() == crate::stack::KERNEL_STACK_PAGES,
                forall|j: int|
                    0 <= j < crate::stack::KERNEL_STACK_PAGES ==> #[trigger] pf.frames@[j]
                        < 0x1000_0000,
                forall|j: int|
                    0 <= j < crate::stack::KERNEL_STACK_PAGES
                        ==> #[trigger] child_stack.frames@[j] < 0x1000_0000,
                forall|j: int|
                    0 <= j < k ==> #[trigger] pairs@[j] == (
                        ((#[trigger] pf.frames@[j] * 4096) as u64),
                        ((child_stack.frames@[j] * 4096) as u64),
                    ),
            decreases crate::stack::KERNEL_STACK_PAGES - k,
        {
            let pa = pf.frames[k] * 4096;
            let ca = child_stack.frames[k] * 4096;
            pairs.push((pa, ca));
            k = k + 1;
        }
        proof {
            assert(pairs@ =~= stack_pairs(pf.frames@, child_stack.frames@));
            assert forall|j: int|
                0 <= j < pairs@.len() implies crate::entry::addr_field_ok(
                (#[trigger] pairs@[j]).0,
            ) && crate::entry::addr_field_ok(pairs@[j].1) by {
                crate::mem::lemma_frame_addr(pf.frames@[j]);
                crate::mem::lemma_frame_addr(child_stack.frames@[j]);
            }
            assert(crate::table::is_root(s2, root0));
            // nothing so far has touched any table
            assert forall|v: u64| true implies #[trigger] crate::fork::walk_at(s2, root0, 4, v)
                == crate::fork::walk_at(s0, root0, 4, v) by {
                crate::fork::lemma_walk_at_tables_preserved(s0, s2, root0, 4, v);
            }
        }
        let child_pt = match self.p4.fork(mem, &pairs) {
            Result::Ok(pt) => pt,
            Result::Err(e) => {
                return Result::Err(e);
            },
        };
        let ghost s3 = mem.frames@;
        proof {
            assert forall|v: u64| crate::table::vaddr_ok(v) implies #[trigger] crate::table::walk(
                s3,
                child_pt.root,
                v,
            ) == crate::fork::untag(
                crate::fork::child_image(crate::fork::walk_at(s0, root0, 4, v), pairs@),
            ) by {
                assert(crate::table::walk(s3, child_pt.root, v) == crate::fork::untag(
                    crate::fork::child_image(crate::fork::walk_at(s2, root0, 4, v), pairs@),
                ));
            }
            assert forall|v: u64| crate::table::vaddr_ok(v) implies #[trigger] crate::table::walk(
                s3,
                self.p4.root,
                v,
            ) == crate::fork::untag(
                crate::fork::parent_image(crate::fork::walk_at(s0, root0, 4, v), pairs@),
            ) by {
                assert(crate::table::walk(s3, self.p4.root, v) == crate::fork::untag(
                    crate::fork::parent_image(crate::fork::walk_at(s2, root0, 4, v), pairs@),
                ));
            }
        }
        // duplicate the registers, rebasing the stack pointer
        let mut regs = clone_regs(&self.regs);
        let parent_start = pf.guard + 4096;
        let sp_offset = self.regs.sp - parent_start;
        regs.sp = child_guard + 4096 + sp_offset;
        regs.pc = self.regs.pc;
        proof {
            // stack pages and their bytes survive the table fork
            assert forall|kk: int|
                0 <= kk < crate::stack::KERNEL_STACK_PAGES implies crate::mem::page_bytes(
                s3,
                #[trigger] child_stack.frames@[kk],
            ) == crate::mem::page_bytes(s0, pf.frames@[kk]) && crate::mem::is_page(
                s3,
                child_stack.frames@[kk],
            ) by {
                assert(crate::mem::is_page(s2, child_stack.frames@[kk]));
                assert(crate::mem::page_bytes(s2, child_stack.frames@[kk])
                    == crate::mem::page_bytes(s0, pf.frames@[kk]));
            }
            assert forall|kk: int|
                0 <= kk < crate::stack::KERNEL_STACK_PAGES implies crate::mem::is_page(
                s3,
                #[trigger] pf.frames@[kk],
            ) by {
                assert(crate::mem::is_page(s2, pf.frames@[kk]));
            }
        }
        Result::Ok(
            Context { regs, p4: child_pt, kernel_stack: Some(child_stack) },
        )
    }

    /// Switch the processor from this context to `to`: the live registers
    /// are saved here, `to`'s registers are loaded, and the user-half
    /// translation base becomes `to`'s root.
    pub fn switch_to(&mut self, to: &Context, machine: &mut Machine)
        requires
            to.p4.root < 0x1000_0000,
        ensures
            regs_eq(final(self).regs, old(machine).regs),
            final(self).p4 == old(self).p4,
            final(self).kernel_stack == old(self).kernel_stack,
            regs_eq(final(machine).regs, to.regs),
            final(machine).ttbr0 == frame_addr(to.p4.root),
    {
        switch_context(self, to, machine)
    }
}

/// The switch routine: store the live callee-saved registers into `from`,
/// load `to`'s, and install `to`'s translation root.
pub fn switch_context(from: &mut Context, to: &Context, machine: &mut Machine)
    requires
        to.p4.root < 0x1000_0000,
    ensures
        regs_eq(final(from).regs, old(machine).regs),
        final(from).p4 == old(from).p4,
        final(from).kernel_stack == old(from).kernel_stack,
        regs_eq(final(machine).regs, to.regs),
        final(machine).ttbr0 == frame_addr(to.p4.root),
{
    let saved = clone_regs(&machine.regs);
    machine.regs = clone_regs(&to.regs);
    from.regs = saved;
    machine.ttbr0 = to.p4.root * 4096;
}

/// Run work against another address space's low half: install `low_root`
/// as the user-half translation base, hand the work the root it asked
/// for, and restore the previous base afterwards. On hardware each of the
/// two writes is bracketed by a TLB invalidation of the user half; the
/// work must not sleep.
pub fn with_temporary_low_table<R, F: FnOnce(u64) -> R>(
    machine: &mut Machine,
    low_root: u64,
    work: F,
) -> (r: R)
    requires
        low_root < 0x1000_0000,
        work.requires((low_root,)),
    ensures
        final(machine).ttbr0 == old(machine).ttbr0,
        regs_eq(final(machine).regs, old(machine).regs),
        work.ensures((low_root,), r),
{
    let saved = machine.ttbr0;
    machine.ttbr0 = low_root * 4096;
    let r = work(low_root);
    machine.ttbr0 = saved;
    r
}

/// Duplicate a register bank value for value.
pub fn clone_regs(r: &RegBank) -> (c: RegBank)
    ensures
        regs_eq(c, *r),
{
    let mut x: Vec<u64> = Vec::new();
    let mut i: usize = 0;
    while i < r.x.len()
        invariant
            i <= r.x@.len(),
            x@.len() == i,
            forall|j: int| 0 <= j < i ==> x@[j] == r.x@[j],
        decreases r.x@.len() - i,
    {
        x.push(r.x[i]);
        i = i + 1;
    }
    let mut q: Vec<u128> = Vec::new();
    let mut k: usize = 0;
    while k < r.q.len()
        invariant
            k <= r.q@.len(),
            q@.len() == k,
            forall|j: int| 0 <= j < k ==> q@[j] == r.q@[j],
        decreases r.q@.len() - k,
    {
        q.push(r.q[k]);
        k = k + 1;
    }
    proof {
        assert(x@ =~= r.x@);
        assert(q@ =~= r.q@);
    }
    RegBank { sp: r.sp, x, pc: r.pc, q }
}

/// A context switch from A to B and back to A restores the machine's
/// callee-saved registers, NEON registers, stack pointer, program counter
/// and translation root bit for bit: what `switch_to` ensures, composed
/// twice, returns every register to its pre-switch value.
pub proof fn lemma_switch_round_trip(
    m0: Machine,
    m1: Machine,
    m2: Machine,
    a0: Context,
    a1: Context,
    b0: Context,
    b1: Context,
)
    requires
        // first switch: A to B
        regs_eq(a1.regs, m0.regs),
        a1.p4 == a0.p4,
        regs_eq(m1.regs, b0.regs),
        // second switch: B back to A
        regs_eq(b1.regs, m1.regs),
        regs_eq(m2.regs, a1.regs),
        m2.ttbr0 == frame_addr(a1.p4.root),
    ensures
        regs_eq(m2.regs, m0.regs),
        m2.ttbr0 == frame_addr(a0.p4.root),
        regs_eq(b1.regs, b0.regs),
{
}

} // verus!
