//! Tasks, the ready queue and synchronous message IPC: spawn, fork,
//! cooperative yield with timer preemption, and rendezvous send/receive
//! with FIFO inboxes.

use vstd::prelude::*;
use crate::context::{ctx_wf, Context};
use crate::mem::{mem_inv, PhysicalMemory};

use crate::KernelError;

verus! {

/// A fixed-size message: sender, intended receiver, opcode, six payload
/// words.
pub struct Message {
    /// Task id of the sender; stamped by the kernel on send.
    pub sender: u64,
    /// Task id of the receiver.
    pub receiver: u64,
    /// Operation code.
    pub opcode: u64,
    /// Six machine words of payload.
    pub payload: Vec<u64>,
}

/// Size of the saved trap frame at the high end of a kernel stack: 32 Q
/// registers of 16 bytes, four 8-byte system words, 31 integer registers.
pub const TRAP_FRAME_BYTES: usize = 808;

/// Offset of the frame's x0 slot inside the stack's last (eighth) page:
/// the frame sits at the stack's high end and x0 is its lowest word, so
/// the slot starts 808 bytes below the end of that page.
pub const TRAP_X0_OFFSET: usize = 3288;

/// A message carries exactly six payload slots.
pub open spec fn msg_wf(m: Message) -> bool {
    m.payload@.len() == 6
}

/// What blocks a task.
#[derive(Clone, Copy, PartialEq, Eq, Structural, Debug)]
pub enum TaskState {
    /// Runnable.
    Ready,
    /// Blocked in receive; `None` accepts any sender.
    ReceivingFrom(Option<u64>),
    /// Blocked in send towards the given task.
    SendingTo(u64),
    /// Exited; resources reclaimed lazily.
    Zombie,
}

/// One task.
pub struct Task {
    /// The task's id; index in the table. Zero is reserved.
    pub id: u64,
    /// Blocking state.
    pub state: TaskState,
    /// The inbox: queued messages, oldest first.
    pub inbox: Vec<Message>,
    /// The message a completed receive delivered.
    pub delivered: Option<Message>,
    /// Saved architectural context.
    pub context: Context,
}

/// The task table: slot `i` holds the task with id `i`; slot zero is
/// reserved. `ready` is the FIFO ready queue; `current` runs.
pub struct TaskTable {
    /// Task slots.
    pub tasks: Vec<Option<Task>>,
    /// Ready queue, front first.
    pub ready: Vec<u64>,
    /// The running task's id.
    pub current: u64,
}

/// Table well-formedness: ids match their slots, slot zero stays empty.
pub open spec fn tbl_wf(t: TaskTable) -> bool {
    &&& t.tasks@.len() >= 1
    &&& t.tasks@.len() < 0xffff_ffff
    &&& t.tasks@[0] is None
    &&& forall|i: int|
        0 <= i < t.tasks@.len() ==> match #[trigger] t.tasks@[i] {
            Option::Some(tk) => tk.id == i,
            Option::None => true,
        }
}

/// Task `id` exists.
pub open spec fn has_task(t: TaskTable, id: u64) -> bool {
    0 < id < t.tasks@.len() && t.tasks@[id as int] is Some
}

/// The task with `id`.
pub open spec fn task_of(t: TaskTable, id: u64) -> Task {
    t.tasks@[id as int]->Some_0
}

/// `m` passes the receive filter.
pub open spec fn matches_filter(m: Message, filter: Option<u64>) -> bool {
    match filter {
        Option::None => true,
        Option::Some(s) => m.sender == s,
    }
}

/// Index of the first message in `inbox` that passes `filter`.
pub open spec fn find_match(inbox: Seq<Message>, filter: Option<u64>) -> Option<int>
    decreases inbox.len(),
{
    if inbox.len() == 0 {
        Option::None
    } else if matches_filter(inbox[0], filter) {
        Option::Some(0)
    } else {
        match find_match(inbox.drop_first(), filter) {
            Option::Some(i) => Option::Some(i + 1),
            Option::None => Option::None,
        }
    }
}

/// A `Send` followed by a `Receive` with the any-sender filter from the
/// target delivers the exact message. The hypotheses are what the two
/// calls ensure: the send appended the stamped message to the target's
/// then-empty inbox, and the receive took the first message passing the
/// any-sender filter. What came out is the stamped message: sender,
/// opcode and payload exactly as sent.
pub proof fn lemma_send_then_receive_delivers(
    inbox0: Seq<Message>,
    inbox1: Seq<Message>,
    stamped: Message,
    got: Message,
)
    requires
        inbox0.len() == 0,
        inbox1 == inbox0.push(stamped),
        find_match(inbox1, Option::None) is Some,
        got == inbox1[find_match(inbox1, Option::None)->Some_0],
    ensures
        got == stamped,
{
    assert(matches_filter(inbox1[0], Option::None));
    assert(find_match(inbox1, Option::None) == Option::Some(0int));
}

/// What a send did.
#[derive(Clone, Copy, PartialEq, Eq, Structural, Debug)]
pub enum SendOutcome {
    /// The receiver was waiting; the message was handed over and the
    /// receiver is ready again.
    Delivered,
    /// The receiver was not waiting; the message was queued and the sender
    /// must block.
    Blocked,
}

/// What a receive did.
pub enum ReceiveOutcome {
    /// A matching message was taken from the inbox.
    Got(Message),
    /// Nothing matched; the caller must block.
    Blocked,
}

impl TaskTable {
    /// An empty table: no tasks, nothing ready, current unset (zero).
    pub fn new() -> (r: TaskTable)
        ensures
            tbl_wf(r),
            r.tasks@.len() == 1,
            r.ready@.len() == 0,
    {
        let mut tasks: Vec<Option<Task>> = Vec::new();
        tasks.push(None);
        TaskTable { tasks, ready: Vec::new(), current: 0 }
    }

    /// Take task `id` out of its slot for mutation.
    fn take_task(&mut self, id: u64) -> (tk: Task)
        requires
            tbl_wf(*old(self)),
            has_task(*old(self), id),
        ensures
            tk == task_of(*old(self), id),
            tk.id == id,
            final(self).tasks@ == old(self).tasks@.update(id as int, Option::None::<Task>),
            final(self).ready == old(self).ready,
            final(self).current == old(self).current,
    {
        proof {
            assert(id < 0xffff_ffffu64);
        }
        let idu: usize = id as usize;
        let mut slot: Option<Task> = None;
        self.tasks.set_and_swap(idu, &mut slot);
        match slot {
            Option::Some(tk) => tk,
            Option::None => {
                proof {
                    assert(false);
                }
                unreached()
            },
        }
    }

    /// Put a task back into its slot.
    fn put_task(&mut self, tk: Task)
        requires
            0 < tk.id < old(self).tasks@.len(),
            old(self).tasks@.len() < 0xffff_ffff,
        ensures
            final(self).tasks@ == old(self).tasks@.update(tk.id as int, Option::Some(tk)),
            final(self).ready == old(self).ready,
            final(self).current == old(self).current,
    {
        let id = tk.id;
        let idu: usize = id as usize;
        self.tasks.set(idu, Some(tk));
    }

    /// Send `msg` from the current task: the kernel stamps the sender. If
    /// the target is waiting for this sender (or for anyone), the message
    /// is delivered at once and the target re-enters the ready queue;
    /// otherwise the message joins the target's inbox in arrival order and
    /// the sender must block as `SendingTo` the target.
    pub fn send_message(&mut self, msg: Message) -> (r: Result<SendOutcome, KernelError>)
        requires
            tbl_wf(*old(self)),
            msg_wf(msg),
            has_task(*old(self), old(self).current),
            old(self).current != msg.receiver,
        ensures
            tbl_wf(*final(self)),
            final(self).current == old(self).current,
            final(self).tasks@.len() == old(self).tasks@.len(),
            forall|t: u64| #[trigger] has_task(*final(self), t) <==> has_task(*old(self), t),
            match r {
                Result::Err(e) => e == KernelError::NoSuchTask && !has_task(
                    *old(self),
                    msg.receiver,
                ) && *final(self) == *old(self),
                Result::Ok(out) => {
                    let target = task_of(*old(self), msg.receiver);
                    let stamped = Message {
                        sender: old(self).current,
                        receiver: msg.receiver,
                        opcode: msg.opcode,
                        payload: msg.payload,
                    };
                    &&& has_task(*old(self), msg.receiver)
                    &&& match out {
                        SendOutcome::Delivered => {
                            &&& (target.state == TaskState::ReceivingFrom(Option::None::<u64>)
                                || target.state == TaskState::ReceivingFrom(
                                Option::Some(old(self).current),
                            ))
                            &&& task_of(*final(self), msg.receiver).state == TaskState::Ready
                            &&& task_of(*final(self), msg.receiver).delivered == Option::Some(
                                stamped,
                            )
                            &&& task_of(*final(self), msg.receiver).inbox == target.inbox
                            &&& final(self).ready@ == old(self).ready@.push(msg.receiver)
                            &&& forall|i: int|
                                0 <= i < old(self).tasks@.len() && i != msg.receiver
                                    ==> #[trigger] final(self).tasks@[i] == old(self).tasks@[i]
                        },
                        SendOutcome::Blocked => {
                            &&& !(target.state == TaskState::ReceivingFrom(Option::None::<u64>)
                                || target.state == TaskState::ReceivingFrom(
                                Option::Some(old(self).current),
                            ))
                            &&& task_of(*final(self), msg.receiver).inbox@ == target.inbox@.push(
                                stamped,
                            )
                            &&& task_of(*final(self), msg.receiver).state == target.state
                            &&& task_of(*final(self), old(self).current).state
                                == TaskState::SendingTo(msg.receiver)
                            &&& final(self).ready == old(self).ready
                            &&& forall|i: int|
                                0 <= i < old(self).tasks@.len() && i != msg.receiver && i != old(
                                    self,
                                ).current ==> #[trigger] final(self).tasks@[i] == old(
                                    self,
                                ).tasks@[i]
                        },
                    }
                },
            },
    {
        let receiver = msg.receiver;
        if !(receiver > 0 && receiver < self.tasks.len() as u64) {
            return Result::Err(KernelError::NoSuchTask);
        }
        let is_there = match &self.tasks[receiver as usize] {
            Option::Some(_) => true,
            Option::None => false,
        };
        if !is_there {
            return Result::Err(KernelError::NoSuchTask);
        }
        let stamped = Message {
            sender: self.current,
            receiver: msg.receiver,
            opcode: msg.opcode,
            payload: msg.payload,
        };
        let mut target = self.take_task(receiver);
        let waiting = match target.state {
            TaskState::ReceivingFrom(Option::None) => true,
            TaskState::ReceivingFrom(Option::Some(s)) => s == self.current,
            _ => false,
        };
        if waiting {
            target.state = TaskState::Ready;
            target.delivered = Some(stamped);
            self.put_task(target);
            self.ready.push(receiver);
            proof {
                assert(final(self).tasks@[receiver as int] is Some);
                assert forall|i: int|
                    0 <= i < self.tasks@.len() implies match #[trigger] self.tasks@[i] {
                    Option::Some(tk) => tk.id == i,
                    Option::None => true,
                } by {}
            }
            Result::Ok(SendOutcome::Delivered)
        } else {
            target.inbox.push(stamped);
            self.put_task(target);
            let cur = self.current;
            let mut me = self.take_task(cur);
            me.state = TaskState::SendingTo(receiver);
            self.put_task(me);
            Result::Ok(SendOutcome::Blocked)
        }
    }

    /// Receive for the current task: take the first inbox message whose
    /// sender passes `filter`; if its sender is blocked sending to us, wake
    /// it. With no match the caller must block as `ReceivingFrom(filter)`.
    pub fn receive_message(&mut self, filter: Option<u64>) -> (r: ReceiveOutcome)
        requires
            tbl_wf(*old(self)),
            has_task(*old(self), old(self).current),
        ensures
            tbl_wf(*final(self)),
            final(self).current == old(self).current,
            final(self).tasks@.len() == old(self).tasks@.len(),
            forall|t: u64| #[trigger] has_task(*final(self), t) <==> has_task(*old(self), t),
            has_task(*final(self), old(self).current),
            match r {
                ReceiveOutcome::Got(m) => {
                    let me = task_of(*old(self), old(self).current);
                    let idx = find_match(me.inbox@, filter)->Some_0;
                    &&& find_match(me.inbox@, filter) is Some
                    &&& m == me.inbox@[idx]
                    &&& task_of(*final(self), old(self).current).inbox@ == me.inbox@.remove(idx)
                    &&& (has_task(*old(self), m.sender) && task_of(*old(self), m.sender).state
                        == TaskState::SendingTo(old(self).current) && m.sender != old(
                        self,
                    ).current ==> task_of(*final(self), m.sender).state == TaskState::Ready
                        && final(self).ready@ == old(self).ready@.push(m.sender))
                    &&& forall|i: int|
                        0 <= i < old(self).tasks@.len() && i != old(self).current && i != m.sender
                            ==> #[trigger] final(self).tasks@[i] == old(self).tasks@[i]
                },
                ReceiveOutcome::Blocked => {
                    let me = task_of(*old(self), old(self).current);
                    &&& find_match(me.inbox@, filter) is None
                    &&& task_of(*final(self), old(self).current).state
                        == TaskState::ReceivingFrom(filter)
                    &&& task_of(*final(self), old(self).current).inbox == me.inbox
                    &&& final(self).ready == old(self).ready
                    &&& forall|i: int|
                        0 <= i < old(self).tasks@.len() && i != old(self).current
                            ==> #[trigger] final(self).tasks@[i] == old(self).tasks@[i]
                },
            },
    {
        let cur = self.current;
        let mut me = self.take_task(cur);
        let ghost inbox0 = me.inbox@;
        let mut k: usize = 0;
        let mut found: Option<usize> = None;
        proof {
            assert(inbox0.skip(0) =~= inbox0);
        }
        while k < me.inbox.len() && found.is_none()
            invariant
                k <= me.inbox@.len(),
                me.inbox@ == inbox0,
                match found {
                    Option::Some(i) => find_match(inbox0, filter) == Option::Some(i as int) && i
                        < inbox0.len(),
                    Option::None => find_match(inbox0, filter) == match find_match(
                        inbox0.skip(k as int),
                        filter,
                    ) {
                        Option::Some(j) => Option::Some(j + k),
                        Option::None => Option::None::<int>,
                    },
                },
            decreases me.inbox@.len() - k,
        {
            let m = &me.inbox[k];
            let hit = match filter {
                Option::None => true,
                Option::Some(s) => m.sender == s,
            };
            proof {
                assert(inbox0.skip(k as int)[0] == inbox0[k as int]);
                assert(inbox0.skip(k as int).drop_first() =~= inbox0.skip(k as int + 1));
            }
            if hit {
                found = Some(k);
            }
            k = k + 1;
        }
        match found {
            Option::Some(i) => {
                let m = me.inbox.remove(i);
                self.put_task(me);
                // wake the sender if it blocked on us
                let sender = m.sender;
                if sender > 0 && sender < self.tasks.len() as u64 && sender != cur {
                    let there = match &self.tasks[sender as usize] {
                        Option::Some(_) => true,
                        Option::None => false,
                    };
                    if there {
                        let mut snd = self.take_task(sender);
                        let blocked_on_us = match snd.state {
                            TaskState::SendingTo(t) => t == cur,
                            _ => false,
                        };
                        if blocked_on_us {
                            snd.state = TaskState::Ready;
                            self.put_task(snd);
                            self.ready.push(sender);
                        } else {
                            self.put_task(snd);
                        }
                    }
                }
                ReceiveOutcome::Got(m)
            },
            Option::None => {
                proof {
                    assert(inbox0.skip(k as int).len() == 0);
                }
                me.state = TaskState::ReceivingFrom(filter);
                self.put_task(me);
                ReceiveOutcome::Blocked
            },
        }
    }

    /// Enqueue the current task and run the first ready one: the FIFO
    /// reschedule a yield or a timer tick performs. Returns the pair
    /// (outgoing, incoming), or `None` when nothing else is ready.
    pub fn timer_tick(&mut self) -> (r: Option<(u64, u64)>)
        requires
            tbl_wf(*old(self)),
        ensures
            tbl_wf(*final(self)),
            final(self).tasks == old(self).tasks,
            match r {
                Option::None => *final(self) == *old(self) && old(self).ready@.len() == 0,
                Option::Some((from, to)) => {
                    &&& from == old(self).current
                    &&& to == old(self).ready@[0]
                    &&& final(self).current == to
                    &&& final(self).ready@ == old(self).ready@.drop_first().push(from)
                },
            },
    {
        if self.ready.len() == 0 {
            return Option::None;
        }
        let from = self.current;
        let to = self.ready.remove(0);
        self.ready.push(from);
        self.current = to;
        proof {
            assert(self.ready@ =~= old(self).ready@.drop_first().push(from));
        }
        Option::Some((from, to))
    }

    /// Mark the current task a zombie and pick the next ready task, if
    /// any, as current. The stack and tables are reclaimed lazily.
    pub fn exit_current(&mut self) -> (r: Option<u64>)
        requires
            tbl_wf(*old(self)),
            has_task(*old(self), old(self).current),
        ensures
            tbl_wf(*final(self)),
            task_of(*final(self), old(self).current).state == TaskState::Zombie,
            final(self).tasks@.len() == old(self).tasks@.len(),
            forall|t: u64| #[trigger] has_task(*final(self), t) <==> has_task(*old(self), t),
            forall|i: int|
                0 <= i < old(self).tasks@.len() && i != old(self).current
                    ==> #[trigger] final(self).tasks@[i] == old(self).tasks@[i],
            r is Some <==> old(self).ready@.len() > 0,
            match r {
                Option::None => old(self).ready@.len() == 0 && final(self).current == old(
                    self,
                ).current && final(self).ready == old(self).ready,
                Option::Some(next) => next == old(self).ready@[0] && final(self).current == next
                    && final(self).ready@ == old(self).ready@.drop_first(),
            },
    {
        let cur = self.current;
        let mut me = self.take_task(cur);
        me.state = TaskState::Zombie;
        self.put_task(me);
        if self.ready.len() == 0 {
            return Option::None;
        }
        let next = self.ready.remove(0);
        self.current = next;
        Option::Some(next)
    }

    /// Fork the current task: fresh child kernel-stack frames receive a
    /// byte copy of the parent's, the page tables are forked with those
    /// frames redirected and every other page shared copy-on-write, and
    /// the registers are duplicated. Both return values are conveyed per
    /// the fork convention: the child id lands in the parent's trap-frame
    /// x0, and the x0 slot of the child's own trap frame - saved at the
    /// high end of the copied kernel stack, the lowest eight bytes of the
    /// 808-byte frame - is zeroed, so the child wakes with zero. The
    /// child is ready and enqueued.
    pub fn fork_current(
        &mut self,
        mem: &mut PhysicalMemory,
        frame: &mut crate::exception::ExceptionFrame,
        child_guard: u64,
    ) -> (r: Result<u64, KernelError>)
        requires
            tbl_wf(*old(self)),
            mem_inv(*old(mem)),
            has_task(*old(self), old(self).current),
            old(self).tasks@.len() < 0xffff_fffe,
            crate::exception::frame_wf(*old(frame)),
            ctx_wf(task_of(*old(self), old(self).current).context),
            crate::table::is_root(
                old(mem).frames@,
                task_of(*old(self), old(self).current).context.p4.root,
            ),
            task_of(*old(self), old(self).current).context.kernel_stack is Some,
            crate::stack::stack_wf(
                old(mem).frames@,
                task_of(*old(self), old(self).current).context.kernel_stack->Some_0,
            ),
            child_guard <= 0xffff_ffff_ffff_6fff,
            task_of(*old(self), old(self).current).context.kernel_stack->Some_0.guard
                <= 0xffff_ffff_ffff_6fff,
            task_of(*old(self), old(self).current).context.kernel_stack->Some_0.guard + 4096
                <= task_of(*old(self), old(self).current).context.regs.sp,
            task_of(*old(self), old(self).current).context.regs.sp <= task_of(
                *old(self),
                old(self).current,
            ).context.kernel_stack->Some_0.guard + 4096 + crate::stack::KERNEL_STACK_SIZE,
        ensures
            tbl_wf(*final(self)),
            mem_inv(*final(mem)),
            final(mem).capacity == old(mem).capacity,
            crate::exception::frame_wf(*final(frame)),
            match r {
                Result::Err(e) => e == KernelError::OutOfMemory && crate::mem::spec_avail(
                    *final(mem),
                ) == 0,
                Result::Ok(cid) => {
                    &&& cid == old(self).tasks@.len()
                    &&& final(self).tasks@.len() == old(self).tasks@.len() + 1
                    &&& has_task(*final(self), cid)
                    &&& task_of(*final(self), cid).state == TaskState::Ready
                    &&& task_of(*final(self), cid).inbox@.len() == 0
                    &&& task_of(*final(self), cid).delivered is None
                    &&& final(self).ready@ == old(self).ready@.push(cid)
                    &&& final(frame).gpr@ == old(frame).gpr@.update(0, cid)
                    &&& task_of(*final(self), cid).context.regs.pc == task_of(
                        *old(self),
                        old(self).current,
                    ).context.regs.pc
                    &&& task_of(*final(self), cid).context.kernel_stack is Some
                    &&& crate::stack::stack_wf(
                        final(mem).frames@,
                        task_of(*final(self), cid).context.kernel_stack->Some_0,
                    )
                    // the child wakes with x0 = 0: the slot at the low end
                    // of its saved trap frame reads zero
                    &&& forall|k: int|
                        0 <= k < 8 ==> #[trigger] crate::mem::page_bytes(
                            final(mem).frames@,
                            task_of(
                                *final(self),
                                cid,
                            ).context.kernel_stack->Some_0.frames@[7],
                        )[TRAP_X0_OFFSET + k] == 0
                },
            },
    {
        let cur = self.current;
        let mut me = self.take_task(cur);
        let mut child_ctx = match me.context.fork(mem, child_guard) {
            Result::Ok(c) => c,
            Result::Err(e) => {
                self.put_task(me);
                return Result::Err(e);
            },
        };
        self.put_task(me);
        // zero the x0 slot of the child's saved trap frame, so that the
        // child's return from the fork reads zero
        let f7 = match &child_ctx.kernel_stack {
            Option::Some(st) => st.frames[7],
            Option::None => {
                proof {
                    assert(false);
                }
                unreached()
            },
        };
        let mut k: usize = 0;
        while k < 8
            invariant
                mem_inv(*mem),
                mem.capacity == old(mem).capacity,
                k <= 8,
                crate::mem::is_page(mem.frames@, f7),
                forall|j: int|
                    0 <= j < k ==> #[trigger] crate::mem::page_bytes(mem.frames@, f7)[
                        TRAP_X0_OFFSET + j] == 0,
                crate::stack::stack_wf(mem.frames@, child_ctx.kernel_stack->Some_0),
                child_ctx.kernel_stack->Some_0.frames@[7] == f7,
            decreases 8 - k,
        {
            let ghost sp = mem.frames@;
            proof {
                assert(crate::mem::frame_page_ok(sp, f7));
            }
            mem.write_byte(f7, TRAP_X0_OFFSET + k, 0);
            proof {
                assert(crate::mem::frame_page_ok(mem.frames@, f7));
                assert(crate::mem::page_bytes(mem.frames@, f7) == crate::mem::page_bytes(
                    sp,
                    f7,
                ).update((TRAP_X0_OFFSET + k) as int, 0u8));
                assert forall|j: int|
                    0 <= j < k + 1 implies #[trigger] crate::mem::page_bytes(mem.frames@, f7)[
                TRAP_X0_OFFSET + j] == 0 by {
                    if j < k {
                        assert(crate::mem::page_bytes(mem.frames@, f7)[TRAP_X0_OFFSET + j]
                            == crate::mem::page_bytes(sp, f7)[TRAP_X0_OFFSET + j]);
                    }
                }
                assert forall|j: int|
                    0 <= j < crate::stack::KERNEL_STACK_PAGES implies crate::mem::is_page(
                    mem.frames@,
                    #[trigger] child_ctx.kernel_stack->Some_0.frames@[j],
                ) by {
                    let g = child_ctx.kernel_stack->Some_0.frames@[j];
                    if g != f7 {
                        assert(mem.frames@[g as int] == sp[g as int]);
                    }
                }
            }
            k = k + 1;
        }
        let cid = self.tasks.len() as u64;
        self.tasks.push(
            Some(
                Task {
                    id: cid,
                    state: TaskState::Ready,
                    inbox: Vec::new(),
                    delivered: None,
                    context: child_ctx,
                },
            ),
        );
        self.ready.push(cid);
        frame.gpr.set(0, cid);
        Result::Ok(cid)
    }

    /// Create a task with a fresh context: a new empty address space and a
    /// new kernel stack, entry point in the saved program counter. The new
    /// task is ready and enqueued. Returns its id.
    pub fn spawn(&mut self, mem: &mut PhysicalMemory, entry: u64, stack_guard: u64) -> (r: Result<
        u64,
        KernelError,
    >)
        requires
            tbl_wf(*old(self)),
            mem_inv(*old(mem)),
            stack_guard <= 0xffff_ffff_ffff_6fff,
            old(self).tasks@.len() < 0xffff_fffe,
        ensures
            tbl_wf(*final(self)),
            mem_inv(*final(mem)),
            final(mem).capacity == old(mem).capacity,
            r is Ok <==> crate::mem::spec_avail(*old(mem)) >= 9,
            match r {
                Result::Err(e) => e == KernelError::OutOfMemory && crate::mem::spec_avail(
                    *final(mem),
                ) == 0 && *final(self) == *old(self),
                Result::Ok(id) => {
                    &&& id == old(self).tasks@.len()
                    &&& final(self).tasks@.len() == old(self).tasks@.len() + 1
                    &&& has_task(*final(self), id)
                    &&& task_of(*final(self), id).state == TaskState::Ready
                    &&& task_of(*final(self), id).inbox@.len() == 0
                    &&& task_of(*final(self), id).delivered is None
                    &&& task_of(*final(self), id).context.regs.pc == entry
                    &&& task_of(*final(self), id).context.regs.sp == stack_guard + 4096
                        + crate::stack::KERNEL_STACK_SIZE
                    &&& crate::table::pt_inv(
                        final(mem).frames@,
                        task_of(*final(self), id).context.p4.root,
                    )
                    &&& task_of(*final(self), id).context.kernel_stack is Some
                    &&& crate::stack::stack_wf(
                        final(mem).frames@,
                        task_of(*final(self), id).context.kernel_stack->Some_0,
                    )
                    &&& forall|v: u64|
                        crate::table::vaddr_ok(v) ==> #[trigger] crate::table::walk(
                            final(mem).frames@,
                            task_of(*final(self), id).context.p4.root,
                            v,
                        ) is None
                    &&& final(self).ready@ == old(self).ready@.push(id)
                    &&& forall|t: u64| has_task(*old(self), t) ==> #[trigger] has_task(
                        *final(self),
                        t,
                    )
                    &&& forall|i: int|
                        0 <= i < old(self).tasks@.len() ==> #[trigger] final(self).tasks@[i] == old(
                            self,
                        ).tasks@[i]
                },
            },
    {
        let ctx = match Context::new(mem, entry, stack_guard) {
            Result::Ok(c) => c,
            Result::Err(e) => {
                return Result::Err(e);
            },
        };
        let id = self.tasks.len() as u64;
        self.tasks.push(
            Some(
                Task {
                    id,
                    state: TaskState::Ready,
                    inbox: Vec::new(),
                    delivered: None,
                    context: ctx,
                },
            ),
        );
        self.ready.push(id);
        Result::Ok(id)
    }
}

} // verus!
