//! Exception classification and dispatch: the saved trap frame, the
//! syndrome decode, the routes a synchronous exception can take, the
//! system-call layer that turns a trap frame into an IPC operation, and
//! the panic report the fatal path prints over the UART.

use vstd::prelude::*;
use crate::task::{
    find_match, has_task, task_of, tbl_wf, Message, ReceiveOutcome, SendOutcome, TaskState,
    TaskTable,
};
use crate::mem::PhysicalMemory;
use crate::KernelError;

verus! {

/// The privilege level an exception arrived from.
#[derive(Clone, Copy, PartialEq, Eq, Structural, Debug)]
pub enum ExceptionLevel {
    /// Unprivileged user code.
    EL0,
    /// The kernel.
    EL1,
    /// The hypervisor.
    EL2,
}

/// The four architectural exception kinds, one vector slot group each.
#[derive(Clone, Copy, PartialEq, Eq, Structural, Debug)]
pub enum ExceptionKind {
    /// Synchronous: system calls and aborts.
    Synchronous,
    /// Ordinary interrupt.
    IRQ,
    /// Fast interrupt.
    FIQ,
    /// System error.
    SError,
}

/// The exception classes the kernel handles, from the syndrome's EC field.
#[derive(Clone, Copy, PartialEq, Eq, Structural, Debug)]
pub enum ExceptionClass {
    /// SVC instruction from AArch64 state: a system call.
    SvcAarch64,
    /// Data abort from the lower exception level.
    DataAbortLowerEl,
    /// Data abort from the current exception level.
    DataAbortHigherEl,
    /// Anything else: fatal.
    Unknown,
}

/// The trap frame the entry trampoline saves on the kernel stack: all 31
/// general-purpose registers, the user stack pointer, the return address
/// and status, and the 32 NEON Q registers.
pub struct ExceptionFrame {
    /// The 32 NEON Q registers.
    pub q: Vec<u128>,
    /// Return address.
    pub elr_el1: u64,
    /// Saved processor status.
    pub spsr_el1: u64,
    /// The user stack pointer.
    pub sp_el0: u64,
    /// x0 through x30, in order.
    pub gpr: Vec<u64>,
}

/// A frame carries 31 integer and 32 Q registers.
pub open spec fn frame_wf(f: ExceptionFrame) -> bool {
    f.gpr@.len() == 31 && f.q@.len() == 32
}

/// The EC field: bits 26..32 of the syndrome register.
pub open spec fn spec_exception_class(esr: u32) -> ExceptionClass {
    let ec = esr >> 26;
    if ec == 0x15 {
        ExceptionClass::SvcAarch64
    } else if ec == 0x24 {
        ExceptionClass::DataAbortLowerEl
    } else if ec == 0x25 {
        ExceptionClass::DataAbortHigherEl
    } else {
        ExceptionClass::Unknown
    }
}

/// Decode the exception class from the syndrome register: EC = 0b010101
/// is an AArch64 SVC, 0b100100 and 0b100101 are data aborts from the lower
/// and the current level.
pub fn get_exception_class(esr: u32) -> (r: ExceptionClass)
    ensures
        r == spec_exception_class(esr),
{
    let ec = esr >> 26;
    if ec == 0x15 {
        ExceptionClass::SvcAarch64
    } else if ec == 0x24 {
        ExceptionClass::DataAbortLowerEl
    } else if ec == 0x25 {
        ExceptionClass::DataAbortHigherEl
    } else {
        ExceptionClass::Unknown
    }
}

/// The snapshot a panic prints before the processor parks in a wait loop.
#[derive(Clone, Copy, PartialEq, Eq, Structural, Debug)]
pub struct PanicRecord {
    /// The syndrome register.
    pub esr: u64,
    /// The return address register.
    pub elr: u64,
    /// The faulting address register.
    pub far: u64,
}

/// The ASCII hexadecimal digit for a nibble.
pub open spec fn spec_hex_digit(n: u64) -> u8 {
    if n < 10 {
        (0x30 + n) as u8
    } else {
        (0x57 + n) as u8
    }
}

/// Format one register as sixteen ASCII hexadecimal digits, highest first.
pub fn hex_digits(x: u64) -> (r: Vec<u8>)
    ensures
        r@.len() == 16,
        forall|k: int|
            0 <= k < 16 ==> #[trigger] r@[k] == spec_hex_digit((x >> ((15 - k) * 4)) & 0xf),
{
    let mut out: Vec<u8> = Vec::new();
    let mut k: usize = 0;
    while k < 16
        invariant
            k <= 16,
            out@.len() == k,
            forall|j: int|
                0 <= j < k ==> #[trigger] out@[j] == spec_hex_digit((x >> ((15 - j) * 4)) & 0xf),
        decreases 16 - k,
    {
        let shift: u64 = (15 - k as u64) * 4;
        let nib = (x >> shift) & 0xf;
        proof {
            assert((x >> shift) & 0xf < 16) by (bit_vector);
        }
        let d: u8 = if nib < 10 {
            (0x30 + nib) as u8
        } else {
            (0x57 + nib) as u8
        };
        out.push(d);
        k = k + 1;
    }
    out
}

/// The diagnostic line the fatal path prints over the UART: the syndrome,
/// return-address and fault-address registers as hexadecimal, space
/// separated. The caller then parks the processor in its wait loop.
pub fn panic(esr: u64, elr: u64, far: u64) -> (r: Vec<u8>)
    ensures
        r@.len() == 50,
        forall|k: int|
            0 <= k < 16 ==> #[trigger] r@[k] == spec_hex_digit((esr >> ((15 - k) * 4)) & 0xf),
        r@[16] == 0x20u8,
        forall|k: int|
            17 <= k < 33 ==> #[trigger] r@[k] == spec_hex_digit((elr >> ((15 - (k - 17)) * 4))
                & 0xf),
        r@[33] == 0x20u8,
        forall|k: int|
            34 <= k < 50 ==> #[trigger] r@[k] == spec_hex_digit((far >> ((15 - (k - 34)) * 4))
                & 0xf),
{
    let mut out = hex_digits(esr);
    out.push(0x20);
    let second = hex_digits(elr);
    let mut i: usize = 0;
    while i < 16
        invariant
            i <= 16,
            second@.len() == 16,
            forall|k: int|
                0 <= k < 16 ==> #[trigger] second@[k] == spec_hex_digit((elr >> ((15 - k) * 4))
                    & 0xf),
            out@.len() == 17 + i,
            forall|k: int|
                0 <= k < 16 ==> #[trigger] out@[k] == spec_hex_digit((esr >> ((15 - k) * 4))
                    & 0xf),
            out@[16] == 0x20u8,
            forall|k: int| 0 <= k < i ==> #[trigger] out@[17 + k] == second@[k],
        decreases 16 - i,
    {
        out.push(second[i]);
        i = i + 1;
    }
    out.push(0x20);
    let third = hex_digits(far);
    let mut j: usize = 0;
    while j < 16
        invariant
            j <= 16,
            third@.len() == 16,
            forall|k: int|
                0 <= k < 16 ==> #[trigger] third@[k] == spec_hex_digit((far >> ((15 - k) * 4))
                    & 0xf),
            out@.len() == 34 + j,
            forall|k: int|
                0 <= k < 16 ==> #[trigger] out@[k] == spec_hex_digit((esr >> ((15 - k) * 4))
                    & 0xf),
            out@[16] == 0x20u8,
            forall|k: int|
                0 <= k < 16 ==> #[trigger] out@[17 + k] == spec_hex_digit((elr >> ((15 - k) * 4))
                    & 0xf),
            out@[33] == 0x20u8,
            forall|k: int| 0 <= k < j ==> #[trigger] out@[34 + k] == third@[k],
        decreases 16 - j,
    {
        out.push(third[j]);
        j = j + 1;
    }
    proof {
        assert forall|k: int|
            17 <= k < 33 implies #[trigger] out@[k] == spec_hex_digit(
            (elr >> ((15 - (k - 17)) * 4)) & 0xf,
        ) by {
            assert(out@[17 + (k - 17)] == spec_hex_digit((elr >> ((15 - (k - 17)) * 4)) & 0xf));
        }
        assert forall|k: int|
            34 <= k < 50 implies #[trigger] out@[k] == spec_hex_digit(
            (far >> ((15 - (k - 34)) * 4)) & 0xf,
        ) by {
            assert(out@[34 + (k - 34)] == third@[k - 34]);
        }
    }
    out
}

/// The system calls, by opcode in x0: 0 logs, 1 sends, 2 receives.
#[derive(Clone, Copy, PartialEq, Eq, Structural, Debug)]
pub enum Syscall {
    /// Write a string through the UART.
    Log,
    /// Send a message.
    Send,
    /// Receive a message.
    Receive,
    /// Not a known opcode.
    Bad,
}

/// Opcode decoding.
pub open spec fn spec_syscall_of(op: u64) -> Syscall {
    if op == 0 {
        Syscall::Log
    } else if op == 1 {
        Syscall::Send
    } else if op == 2 {
        Syscall::Receive
    } else {
        Syscall::Bad
    }
}

/// Decode the opcode from x0.
pub fn syscall_of(op: u64) -> (r: Syscall)
    ensures
        r == spec_syscall_of(op),
{
    if op == 0 {
        Syscall::Log
    } else if op == 1 {
        Syscall::Send
    } else if op == 2 {
        Syscall::Receive
    } else {
        Syscall::Bad
    }
}

/// What the synchronous dispatcher decided.
#[derive(Clone, Copy, PartialEq, Eq, Structural, Debug)]
pub enum SyncOutcome {
    /// The exception was handled; return to user.
    Handled,
    /// An IPC operation blocked; the caller must reschedule.
    Blocked,
    /// The current task must die, with the reason.
    Killed(KernelError),
    /// Unknown exception class: print the record and halt.
    Fatal(PanicRecord),
}

/// The receive filter a syscall carries in x1, as the interface encodes
/// it: a value with the top bit set (a negative signed word) accepts any
/// sender; anything else names the sender.
pub open spec fn spec_receive_filter(x: u64) -> Option<u64> {
    if x >= 0x8000_0000_0000_0000 {
        Option::None
    } else {
        Option::Some(x)
    }
}

/// Decode the receive filter from x1.
pub fn receive_filter_of(x: u64) -> (r: Option<u64>)
    ensures
        r == spec_receive_filter(x),
{
    if x >= 0x8000_0000_0000_0000 {
        None
    } else {
        Some(x)
    }
}

/// The six payload words a Send syscall carries: x3..x5 and three zero
/// slots.
pub open spec fn spec_send_payload(g: Seq<u64>) -> Seq<u64> {
    seq![g[3], g[4], g[5], 0u64, 0u64, 0u64]
}

/// Everything the system-call layer promises, as a relation between the
/// task table and trap frame before and after; the synchronous
/// dispatcher's contract reuses it word for word. x0 answers: zero for
/// success, one for an error, two when the caller blocked.
pub open spec fn syscall_post(
    t0: TaskTable,
    t1: TaskTable,
    f0: ExceptionFrame,
    f1: ExceptionFrame,
    r: SyncOutcome,
) -> bool {
    &&& f1.q@ == f0.q@
    &&& f1.elr_el1 == f0.elr_el1
    &&& f1.spsr_el1 == f0.spsr_el1
    &&& f1.sp_el0 == f0.sp_el0
    &&& t1.current == t0.current
    &&& t1.tasks@.len() == t0.tasks@.len()
    &&& match spec_syscall_of(f0.gpr@[0]) {
        Syscall::Log => {
            &&& r == SyncOutcome::Handled
            &&& t1 == t0
            &&& f1.gpr@ == f0.gpr@.update(
                0,
                if user_pointer_ok(f0.gpr@[1], 1) {
                    0u64
                } else {
                    1u64
                },
            )
        },
        Syscall::Bad => r == SyncOutcome::Handled && t1 == t0 && f1.gpr@ == f0.gpr@.update(
            0,
            1u64,
        ),
        Syscall::Send => {
            let receiver = f0.gpr@[1];
            if receiver == t0.current || !has_task(t0, receiver) {
                r == SyncOutcome::Handled && t1 == t0 && f1.gpr@ == f0.gpr@.update(0, 1u64)
            } else {
                let target = task_of(t0, receiver);
                let waiting = target.state == TaskState::ReceivingFrom(Option::None::<u64>)
                    || target.state == TaskState::ReceivingFrom(Option::Some(t0.current));
                if waiting {
                    &&& r == SyncOutcome::Handled
                    &&& f1.gpr@ == f0.gpr@.update(0, 0u64)
                    &&& task_of(t1, receiver).state == TaskState::Ready
                    &&& task_of(t1, receiver).delivered is Some
                    &&& task_of(t1, receiver).delivered->Some_0.sender == t0.current
                    &&& task_of(t1, receiver).delivered->Some_0.opcode == f0.gpr@[2]
                    &&& task_of(t1, receiver).delivered->Some_0.payload@ == spec_send_payload(
                        f0.gpr@,
                    )
                    &&& t1.ready@ == t0.ready@.push(receiver)
                    &&& forall|i: int|
                        0 <= i < t0.tasks@.len() && i != receiver ==> #[trigger] t1.tasks@[i]
                            == t0.tasks@[i]
                } else {
                    &&& r == SyncOutcome::Blocked
                    &&& f1.gpr@ == f0.gpr@.update(0, 2u64)
                    &&& task_of(t1, receiver).inbox@.len() == target.inbox@.len() + 1
                    &&& task_of(t1, receiver).inbox@.drop_last() == target.inbox@
                    &&& task_of(t1, receiver).inbox@.last().sender == t0.current
                    &&& task_of(t1, receiver).inbox@.last().opcode == f0.gpr@[2]
                    &&& task_of(t1, receiver).inbox@.last().payload@ == spec_send_payload(f0.gpr@)
                    &&& task_of(t1, t0.current).state == TaskState::SendingTo(receiver)
                    &&& t1.ready == t0.ready
                    &&& forall|i: int|
                        0 <= i < t0.tasks@.len() && i != receiver && i != t0.current
                            ==> #[trigger] t1.tasks@[i] == t0.tasks@[i]
                }
            }
        },
        Syscall::Receive => {
            let filter = spec_receive_filter(f0.gpr@[1]);
            let me = task_of(t0, t0.current);
            match find_match(me.inbox@, filter) {
                Option::Some(idx) => {
                    let m = me.inbox@[idx];
                    &&& r == SyncOutcome::Handled
                    &&& task_of(t1, t0.current).inbox@ == me.inbox@.remove(idx)
                    &&& f1.gpr@.len() == 31
                    &&& f1.gpr@[0] == 0
                    &&& f1.gpr@[1] == m.sender
                    &&& f1.gpr@[2] == m.opcode
                    &&& (m.payload@.len() == 6 ==> forall|k: int|
                        0 <= k < 6 ==> #[trigger] f1.gpr@[3 + k] == m.payload@[k])
                    &&& (m.payload@.len() != 6 ==> forall|j: int|
                        3 <= j < 31 ==> #[trigger] f1.gpr@[j] == f0.gpr@[j])
                    &&& forall|j: int| 9 <= j < 31 ==> #[trigger] f1.gpr@[j] == f0.gpr@[j]
                    // a sender parked in SendingTo(current) wakes up
                    &&& (has_task(t0, m.sender) && task_of(t0, m.sender).state
                        == TaskState::SendingTo(t0.current) && m.sender != t0.current ==> task_of(
                        t1,
                        m.sender,
                    ).state == TaskState::Ready && t1.ready@ == t0.ready@.push(m.sender))
                    &&& forall|i: int|
                        0 <= i < t0.tasks@.len() && i != t0.current && i != m.sender
                            ==> #[trigger] t1.tasks@[i] == t0.tasks@[i]
                },
                Option::None => {
                    &&& r == SyncOutcome::Blocked
                    &&& f1.gpr@ == f0.gpr@.update(0, 2u64)
                    &&& task_of(t1, t0.current).state == TaskState::ReceivingFrom(filter)
                    &&& task_of(t1, t0.current).inbox == me.inbox
                    &&& t1.ready == t0.ready
                    &&& forall|i: int|
                        0 <= i < t0.tasks@.len() && i != t0.current ==> #[trigger] t1.tasks@[i]
                            == t0.tasks@[i]
                },
            }
        },
    }
}

/// How a fault outcome leaves the dispatcher: resolved faults return to
/// user; a killed or aborted task surfaces the reason.
pub open spec fn sync_of_fault(fo: crate::fault::FaultOutcome) -> SyncOutcome {
    match fo {
        crate::fault::FaultOutcome::Mapped(_) => SyncOutcome::Handled,
        crate::fault::FaultOutcome::CowResolved(_) => SyncOutcome::Handled,
        crate::fault::FaultOutcome::Killed(e) => SyncOutcome::Killed(e),
        crate::fault::FaultOutcome::Failed(e) => SyncOutcome::Killed(e),
    }
}

/// What killing the current task does to the table: it becomes a zombie
/// and the first ready task, if any, takes over, FIFO.
pub open spec fn killed_post(t0: TaskTable, t1: TaskTable) -> bool {
    &&& task_of(t1, t0.current).state == TaskState::Zombie
    &&& (t0.ready@.len() == 0 ==> t1.current == t0.current && t1.ready == t0.ready)
    &&& (t0.ready@.len() > 0 ==> t1.current == t0.ready@[0] && t1.ready@
        == t0.ready@.drop_first())
    &&& forall|i: int|
        0 <= i < t0.tasks@.len() && i != t0.current ==> #[trigger] t1.tasks@[i] == t0.tasks@[i]
}

/// Everything the dispatcher promises for a data abort at `far`: outside
/// the self-reference window the page-fault handler's full relation holds
/// and the outcome maps through `sync_of_fault`; an address through that
/// window never belongs to a task and kills.
pub open spec fn abort_post(
    m0: PhysicalMemory,
    m1: PhysicalMemory,
    root: u64,
    far: u64,
    is_write: bool,
    from_user: bool,
    r: SyncOutcome,
) -> bool {
    if crate::table::idx4(far) == 511 {
        r == SyncOutcome::Killed(KernelError::InvalidAddress) && m1 == m0
    } else {
        exists|fo: crate::fault::FaultOutcome|
            #[trigger] crate::fault::fault_post(m0, m1, root, far, is_write, from_user, fo) && r
                == sync_of_fault(fo)
    }
}

/// Dispatch a synchronous exception. An AArch64 SVC routes to the
/// system-call layer with the opcode in x0 and the arguments in x1..x5,
/// and the result lands in x0. A data abort routes to the page-fault
/// handler with the faulting address and the syndrome's write bit (bit
/// 6). Anything else is fatal.
#[verifier::rlimit(60)]
pub fn handle_exception(
    tbl: &mut TaskTable,
    mem: &mut PhysicalMemory,
    frame: &mut ExceptionFrame,
    pt: &crate::table::PageTable,
    esr: u32,
    far: u64,
) -> (r: SyncOutcome)
    requires
        tbl_wf(*old(tbl)),
        crate::mem::mem_inv(*old(mem)),
        frame_wf(*old(frame)),
        has_task(*old(tbl), old(tbl).current),
        crate::table::is_root(old(mem).frames@, pt.root),
    ensures
        tbl_wf(*final(tbl)),
        crate::mem::mem_inv(*final(mem)),
        frame_wf(*final(frame)),
        final(tbl).tasks@.len() == old(tbl).tasks@.len(),
        match spec_exception_class(esr) {
            ExceptionClass::Unknown => r == SyncOutcome::Fatal(
                PanicRecord { esr: esr as u64, elr: old(frame).elr_el1, far },
            ) && *final(tbl) == *old(tbl) && *final(mem) == *old(mem) && *final(frame) == *old(
                frame,
            ),
            ExceptionClass::DataAbortLowerEl => *final(frame) == *old(frame) && abort_post(
                *old(mem),
                *final(mem),
                pt.root,
                far,
                esr & 0x40 == 0x40,
                true,
                r,
            ) && (r is Killed ==> killed_post(*old(tbl), *final(tbl))) && (!(r is Killed)
                ==> *final(tbl) == *old(tbl)),
            ExceptionClass::DataAbortHigherEl => *final(frame) == *old(frame) && abort_post(
                *old(mem),
                *final(mem),
                pt.root,
                far,
                esr & 0x40 == 0x40,
                false,
                r,
            ) && (r is Killed ==> killed_post(*old(tbl), *final(tbl))) && (!(r is Killed)
                ==> *final(tbl) == *old(tbl)),
            ExceptionClass::SvcAarch64 => *final(mem) == *old(mem) && syscall_post(
                *old(tbl),
                *final(tbl),
                *old(frame),
                *final(frame),
                r,
            ),
        },
{
    match get_exception_class(esr) {
        ExceptionClass::SvcAarch64 => {
            let r = handle_syscall(tbl, frame);
            proof {
                assert(syscall_post(*old(tbl), *tbl, *old(frame), *frame, r));
                assert(*mem == *old(mem));
            }
            r
        },
        ExceptionClass::DataAbortLowerEl => {
            let is_write = esr & 0x40 == 0x40;
            let r = handle_abort(mem, pt, far, is_write, true);
            match r {
                SyncOutcome::Killed(_) => {
                    // the victim leaves; the next ready task runs
                    let _ = tbl.exit_current();
                    proof {
                        assert(killed_post(*old(tbl), *tbl));
                    }
                },
                _ => {},
            }
            proof {
                assert(abort_post(*old(mem), *mem, pt.root, far, esr & 0x40 == 0x40, true, r));
                assert(!(r is Killed) ==> *tbl == *old(tbl));
                assert(*frame == *old(frame));
                assert(tbl.tasks@.len() == old(tbl).tasks@.len());
            }
            r
        },
        ExceptionClass::DataAbortHigherEl => {
            let is_write = esr & 0x40 == 0x40;
            let r = handle_abort(mem, pt, far, is_write, false);
            match r {
                SyncOutcome::Killed(_) => {
                    let _ = tbl.exit_current();
                    proof {
                        assert(killed_post(*old(tbl), *tbl));
                    }
                },
                _ => {},
            }
            proof {
                assert(abort_post(*old(mem), *mem, pt.root, far, esr & 0x40 == 0x40, false, r));
                assert(!(r is Killed) ==> *tbl == *old(tbl));
                assert(*frame == *old(frame));
                assert(spec_exception_class(esr) == ExceptionClass::DataAbortHigherEl);
            }
            r
        },
        ExceptionClass::Unknown => {
            proof {
                assert(*tbl == *old(tbl) && *mem == *old(mem) && *frame == *old(frame));
            }
            SyncOutcome::Fatal(PanicRecord { esr: esr as u64, elr: frame.elr_el1, far })
        },
    }
}

/// The system-error path: per-class behaviour identical to the
/// synchronous dispatcher's, stated with the same relations; the two
/// vector slots share one handler.
pub fn handle_exception_serror(
    tbl: &mut TaskTable,
    mem: &mut PhysicalMemory,
    frame: &mut ExceptionFrame,
    pt: &crate::table::PageTable,
    esr: u32,
    far: u64,
) -> (r: SyncOutcome)
    requires
        tbl_wf(*old(tbl)),
        crate::mem::mem_inv(*old(mem)),
        frame_wf(*old(frame)),
        has_task(*old(tbl), old(tbl).current),
        crate::table::is_root(old(mem).frames@, pt.root),
    ensures
        tbl_wf(*final(tbl)),
        crate::mem::mem_inv(*final(mem)),
        frame_wf(*final(frame)),
        final(tbl).tasks@.len() == old(tbl).tasks@.len(),
        match spec_exception_class(esr) {
            ExceptionClass::Unknown => r == SyncOutcome::Fatal(
                PanicRecord { esr: esr as u64, elr: old(frame).elr_el1, far },
            ) && *final(tbl) == *old(tbl) && *final(mem) == *old(mem) && *final(frame) == *old(
                frame,
            ),
            ExceptionClass::DataAbortLowerEl => *final(frame) == *old(frame) && abort_post(
                *old(mem),
                *final(mem),
                pt.root,
                far,
                esr & 0x40 == 0x40,
                true,
                r,
            ) && (r is Killed ==> killed_post(*old(tbl), *final(tbl))) && (!(r is Killed)
                ==> *final(tbl) == *old(tbl)),
            ExceptionClass::DataAbortHigherEl => *final(frame) == *old(frame) && abort_post(
                *old(mem),
                *final(mem),
                pt.root,
                far,
                esr & 0x40 == 0x40,
                false,
                r,
            ) && (r is Killed ==> killed_post(*old(tbl), *final(tbl))) && (!(r is Killed)
                ==> *final(tbl) == *old(tbl)),
            ExceptionClass::SvcAarch64 => *final(mem) == *old(mem) && syscall_post(
                *old(tbl),
                *final(tbl),
                *old(frame),
                *final(frame),
                r,
            ),
        },
{
    handle_exception(tbl, mem, frame, pt, esr, far)
}

/// Route a data abort to the page-fault handler.
fn handle_abort(
    mem: &mut PhysicalMemory,
    pt: &crate::table::PageTable,
    far: u64,
    is_write: bool,
    from_user: bool,
) -> (r: SyncOutcome)
    requires
        crate::mem::mem_inv(*old(mem)),
        crate::table::is_root(old(mem).frames@, pt.root),
    ensures
        crate::mem::mem_inv(*final(mem)),
        abort_post(*old(mem), *final(mem), pt.root, far, is_write, from_user, r),
{
    if crate::table::index4(far) == 511 {
        // an address through the self-reference window never belongs to a task
        return SyncOutcome::Killed(KernelError::InvalidAddress);
    }
    let out = pt.handle_page_fault(mem, far, is_write, from_user);
    proof {
        assert(crate::fault::fault_post(
            *old(mem),
            *mem,
            pt.root,
            far,
            is_write,
            from_user,
            out,
        ));
    }
    match out {
        crate::fault::FaultOutcome::Mapped(_) => SyncOutcome::Handled,
        crate::fault::FaultOutcome::CowResolved(_) => SyncOutcome::Handled,
        crate::fault::FaultOutcome::Killed(e) => SyncOutcome::Killed(e),
        crate::fault::FaultOutcome::Failed(e) => SyncOutcome::Killed(e),
    }
}

/// The system-call layer: decode the opcode from x0, perform the IPC
/// operation with the arguments from x1..x5, and write the result code
/// into x0: zero for success, one for an error, two when the caller must
/// block. A received message lands in x1 (sender), x2 (opcode) and
/// x3..x8 (the six payload words). A task that names itself as the
/// receiver gets the error code back at once, where queueing the message
/// would block the only task that could ever receive it.
pub fn handle_syscall(tbl: &mut TaskTable, frame: &mut ExceptionFrame) -> (r: SyncOutcome)
    requires
        tbl_wf(*old(tbl)),
        frame_wf(*old(frame)),
        has_task(*old(tbl), old(tbl).current),
    ensures
        tbl_wf(*final(tbl)),
        frame_wf(*final(frame)),
        final(tbl).current == old(tbl).current,
        final(tbl).tasks@.len() == old(tbl).tasks@.len(),
        syscall_post(*old(tbl), *final(tbl), *old(frame), *final(frame), r),
{
    let op = frame.gpr[0];
    match syscall_of(op) {
        Syscall::Log => {
            // the string pointer must lie in the user half; the bytes
            // themselves go out through the UART outside the kernel core
            let ok = check_user_pointer(frame.gpr[1], 1);
            frame.gpr.set(0, if ok { 0 } else { 1 });
            SyncOutcome::Handled
        },
        Syscall::Send => {
            let receiver = frame.gpr[1];
            if receiver == tbl.current {
                frame.gpr.set(0, 1);
                return SyncOutcome::Handled;
            }
            let mut payload: Vec<u64> = Vec::new();
            payload.push(frame.gpr[3]);
            payload.push(frame.gpr[4]);
            payload.push(frame.gpr[5]);
            payload.push(0);
            payload.push(0);
            payload.push(0);
            proof {
                assert(payload@ =~= spec_send_payload(old(frame).gpr@));
            }
            let msg = Message { sender: 0, receiver, opcode: frame.gpr[2], payload };
            match tbl.send_message(msg) {
                Result::Ok(SendOutcome::Delivered) => {
                    frame.gpr.set(0, 0);
                    SyncOutcome::Handled
                },
                Result::Ok(SendOutcome::Blocked) => {
                    proof {
                        let target = task_of(*old(tbl), receiver);
                        let inbox1 = task_of(*tbl, receiver).inbox@;
                        assert(inbox1.drop_last() =~= target.inbox@);
                    }
                    frame.gpr.set(0, 2);
                    SyncOutcome::Blocked
                },
                Result::Err(_) => {
                    frame.gpr.set(0, 1);
                    SyncOutcome::Handled
                },
            }
        },
        Syscall::Receive => {
            let filter = receive_filter_of(frame.gpr[1]);
            match tbl.receive_message(filter) {
                ReceiveOutcome::Got(m) => {
                    frame.gpr.set(0, 0);
                    frame.gpr.set(1, m.sender);
                    frame.gpr.set(2, m.opcode);
                    if m.payload.len() == 6 {
                        frame.gpr.set(3, m.payload[0]);
                        frame.gpr.set(4, m.payload[1]);
                        frame.gpr.set(5, m.payload[2]);
                        frame.gpr.set(6, m.payload[3]);
                        frame.gpr.set(7, m.payload[4]);
                        frame.gpr.set(8, m.payload[5]);
                        proof {
                            assert forall|k: int| 0 <= k < 6 implies #[trigger] frame.gpr@[3 + k]
                                == m.payload@[k] by {}
                        }
                    }
                    proof {
                        assert(frame.gpr@[0] == 0);
                        assert(frame.gpr@[1] == m.sender);
                        assert(frame.gpr@[2] == m.opcode);
                        assert forall|j: int| 9 <= j < 31 implies #[trigger] frame.gpr@[j]
                            == old(frame).gpr@[j] by {}
                    }
                    SyncOutcome::Handled
                },
                ReceiveOutcome::Blocked => {
                    frame.gpr.set(0, 2);
                    SyncOutcome::Blocked
                },
            }
        },
        Syscall::Bad => {
            frame.gpr.set(0, 1);
            SyncOutcome::Handled
        },
    }
}

/// The interrupt dispatcher: the timer is the one supported line; it
/// drives the scheduler tick. Any other pending source is fatal.
pub fn handle_interrupt(tbl: &mut TaskTable, timer_pending: bool) -> (r: Result<
    Option<(u64, u64)>,
    PanicRecord,
>)
    requires
        tbl_wf(*old(tbl)),
    ensures
        tbl_wf(*final(tbl)),
        match r {
            Result::Err(rec) => !timer_pending && *final(tbl) == *old(tbl),
            Result::Ok(switch) => timer_pending && match switch {
                Option::None => *final(tbl) == *old(tbl) && old(tbl).ready@.len() == 0,
                Option::Some((from, to)) => from == old(tbl).current && to == old(tbl).ready@[0]
                    && final(tbl).current == to && final(tbl).ready@ == old(
                    tbl,
                ).ready@.drop_first().push(from),
            },
        },
{
    if timer_pending {
        Result::Ok(tbl.timer_tick())
    } else {
        Result::Err(PanicRecord { esr: 0, elr: 0, far: 0 })
    }
}

/// A user pointer argument must lie in the user half and be aligned to
/// the word it addresses.
pub open spec fn user_pointer_ok(p: u64, align: u64) -> bool {
    p < crate::fault::KERNEL_HALF_BASE && align > 0 && p % align == 0
}

/// Validate a user pointer argument: in the user half, aligned.
pub fn check_user_pointer(p: u64, align: u64) -> (r: bool)
    requires
        align > 0,
    ensures
        r == user_pointer_ok(p, align),
{
    p < crate::fault::KERNEL_HALF_BASE && p % align == 0
}

} // verus!
