//! Message IPC and the scheduler: rendezvous, FIFO inboxes, timer
//! preemption, context-switch round trips, and task death.

use proton_core::context::{Context, Machine, RegBank};
use proton_core::exception::ExceptionFrame;
use proton_core::exception::{handle_interrupt, PanicRecord};
use proton_core::mem::PhysicalMemory;
use proton_core::task::{
    Message, ReceiveOutcome, SendOutcome, TaskState, TaskTable,
};

fn msg(receiver: u64, opcode: u64, p0: u64) -> Message {
    Message { sender: 0, receiver, opcode, payload: vec![p0, 0, 0, 0, 0, 0] }
}

fn table_with_two_tasks() -> (PhysicalMemory, TaskTable) {
    let mut mem = PhysicalMemory::new(256);
    let mut tbl = TaskTable::new();
    let a = tbl.spawn(&mut mem, 0x1000, 0xffff_0000_0010_0000).unwrap();
    let b = tbl.spawn(&mut mem, 0x2000, 0xffff_0000_0020_0000).unwrap();
    assert_eq!(a, 1);
    assert_eq!(b, 2);
    tbl.current = a;
    tbl.ready = vec![b];
    (mem, tbl)
}

#[test]
fn send_before_receive_delivers_payload() {
    // task A sends {op = 1, payload = [42,0,0,0,0,0]} to B before B calls
    // receive; B's receive returns that payload with sender A
    let (_mem, mut tbl) = table_with_two_tasks();
    let r = tbl.send_message(msg(2, 1, 42)).unwrap();
    assert_eq!(r, SendOutcome::Blocked);
    tbl.current = 2;
    match tbl.receive_message(None) {
        ReceiveOutcome::Got(m) => {
            assert_eq!(m.sender, 1);
            assert_eq!(m.opcode, 1);
            assert_eq!(m.payload, vec![42, 0, 0, 0, 0, 0]);
        },
        ReceiveOutcome::Blocked => panic!("the message was queued"),
    }
    // the sender, blocked on us, is ready again
    match &tbl.tasks[1] {
        Some(t) => assert_eq!(t.state, TaskState::Ready),
        None => panic!(),
    }
    assert!(tbl.ready.contains(&1));
}

#[test]
fn receive_first_then_rendezvous() {
    let (_mem, mut tbl) = table_with_two_tasks();
    tbl.current = 2;
    match tbl.receive_message(None) {
        ReceiveOutcome::Blocked => {},
        ReceiveOutcome::Got(_) => panic!("nothing was sent yet"),
    }
    tbl.current = 1;
    let r = tbl.send_message(msg(2, 7, 9)).unwrap();
    assert_eq!(r, SendOutcome::Delivered);
    match &tbl.tasks[2] {
        Some(t) => {
            assert_eq!(t.state, TaskState::Ready);
            let d = t.delivered.as_ref().unwrap();
            assert_eq!(d.sender, 1);
            assert_eq!(d.opcode, 7);
            assert_eq!(d.payload[0], 9);
        },
        None => panic!(),
    }
}

#[test]
fn inbox_is_fifo() {
    let (_mem, mut tbl) = table_with_two_tasks();
    tbl.send_message(msg(2, 1, 10)).unwrap();
    // the sender blocked; make it ready again to send once more
    if let Some(t) = tbl.tasks[1].as_mut() {
        t.state = TaskState::Ready;
    }
    tbl.send_message(msg(2, 2, 20)).unwrap();
    tbl.current = 2;
    match tbl.receive_message(None) {
        ReceiveOutcome::Got(m) => assert_eq!(m.opcode, 1),
        ReceiveOutcome::Blocked => panic!(),
    }
    match tbl.receive_message(None) {
        ReceiveOutcome::Got(m) => assert_eq!(m.opcode, 2),
        ReceiveOutcome::Blocked => panic!(),
    }
}

#[test]
fn receive_filter_matches_sender() {
    let (_mem, mut tbl) = table_with_two_tasks();
    tbl.send_message(msg(2, 5, 0)).unwrap();
    tbl.current = 2;
    // a filter for task 9 passes over task 1's message
    match tbl.receive_message(Some(9)) {
        ReceiveOutcome::Blocked => {},
        ReceiveOutcome::Got(_) => panic!("sender does not match the filter"),
    }
    if let Some(t) = tbl.tasks[2].as_mut() {
        t.state = TaskState::Ready;
    }
    match tbl.receive_message(Some(1)) {
        ReceiveOutcome::Got(m) => assert_eq!(m.sender, 1),
        ReceiveOutcome::Blocked => panic!(),
    }
}

#[test]
fn send_to_missing_task_fails() {
    let (_mem, mut tbl) = table_with_two_tasks();
    assert!(matches!(
        tbl.send_message(msg(9, 0, 0)),
        Err(proton_core::KernelError::NoSuchTask)
    ));
}

#[test]
fn timer_tick_is_round_robin() {
    // two compute-bound tasks; each tick hands the processor over and
    // re-queues the outgoing task at the back
    let (_mem, mut tbl) = table_with_two_tasks();
    assert_eq!(tbl.timer_tick(), Some((1, 2)));
    assert_eq!(tbl.current, 2);
    assert_eq!(tbl.timer_tick(), Some((2, 1)));
    assert_eq!(tbl.current, 1);
    assert_eq!(tbl.timer_tick(), Some((1, 2)));
}

#[test]
fn timer_tick_alone_keeps_running() {
    let mut mem = PhysicalMemory::new(256);
    let mut tbl = TaskTable::new();
    let a = tbl.spawn(&mut mem, 0x1000, 0xffff_0000_0010_0000).unwrap();
    tbl.current = a;
    tbl.ready = vec![];
    assert_eq!(tbl.timer_tick(), None);
    assert_eq!(tbl.current, a);
}

#[test]
fn interrupt_dispatch_routes_timer() {
    let (_mem, mut tbl) = table_with_two_tasks();
    assert_eq!(handle_interrupt(&mut tbl, true), Ok(Some((1, 2))));
    // any other interrupt line is fatal
    assert_eq!(
        handle_interrupt(&mut tbl, false),
        Err(PanicRecord { esr: 0, elr: 0, far: 0 })
    );
}

#[test]
fn killed_task_leaves_system_live() {
    // the victim becomes a zombie and the scheduler picks the next task
    let (_mem, mut tbl) = table_with_two_tasks();
    let next = tbl.exit_current();
    assert_eq!(next, Some(2));
    assert_eq!(tbl.current, 2);
    match &tbl.tasks[1] {
        Some(t) => assert_eq!(t.state, TaskState::Zombie),
        None => panic!(),
    }
    assert_eq!(tbl.timer_tick(), None);
}

fn bank(seed: u64) -> RegBank {
    RegBank {
        sp: seed,
        x: (0..11).map(|i| seed + i).collect(),
        pc: seed + 100,
        q: (0..32).map(|i| (seed as u128) << 8 | i as u128).collect(),
    }
}

#[test]
fn context_switch_round_trip_restores_registers() {
    // switching A to B and back to A restores every callee-saved
    // register, NEON register, the stack pointer and the program counter
    let mut mem = PhysicalMemory::new(64);
    let mut a = Context::new(&mut mem, 0x1000, 0xffff_0000_0010_0000).unwrap();
    let mut b = Context::new(&mut mem, 0x2000, 0xffff_0000_0020_0000).unwrap();
    let a_root = a.p4.root;
    let mut machine = Machine { regs: bank(0xa000), ttbr0: 0 };
    let live0 = bank(0xa000);
    a.switch_to(&b, &mut machine);
    assert_eq!(machine.ttbr0, b.p4.root * 4096);
    b.switch_to(&a, &mut machine);
    assert_eq!(machine.regs.sp, live0.sp);
    assert_eq!(machine.regs.pc, live0.pc);
    assert_eq!(machine.regs.x, live0.x);
    assert_eq!(machine.regs.q, live0.q);
    assert_eq!(machine.ttbr0, a_root * 4096);
}

#[test]
fn context_fork_copies_stack_and_shares_pages() {
    let mut mem = PhysicalMemory::new(512);
    let parent = Context::new(&mut mem, 0x1000, 0xffff_0000_0010_0000).unwrap();
    // a user page with data, and a marker on the kernel stack
    let f = mem.alloc_page().unwrap();
    mem.write_byte(f, 3, 0x77);
    parent.p4.map(
        &mut mem,
        proton_core::table::PageSize::Size4K,
        0x10000,
        f * 4096,
        0x742,
    )
    .unwrap();
    let pstack = parent.kernel_stack.as_ref().unwrap().frames[0];
    mem.write_byte(pstack, 9, 0x33);
    let child = parent.fork(&mut mem, 0xffff_0000_0030_0000).unwrap();
    // the child's kernel stack is a distinct frame with the same bytes
    let cstack = child.kernel_stack.as_ref().unwrap().frames[0];
    assert_ne!(cstack, pstack);
    assert_eq!(mem.read_byte(cstack, 9), 0x33);
    // registers carried over, stack pointer rebased
    assert_eq!(child.regs.pc, parent.regs.pc);
    assert_eq!(
        child.regs.sp,
        0xffff_0000_0030_0000u64 + 4096 + proton_core::stack::KERNEL_STACK_SIZE
    );
    // the data page is shared read-only in both
    let (ppa, pfl) = parent.p4.translate(&mem, 0x10000).unwrap();
    let (cpa, cfl) = child.p4.translate(&mem, 0x10000).unwrap();
    assert_eq!(ppa, cpa);
    assert!(pfl & proton_core::entry::FLAG_NO_WRITE != 0);
    assert!(cfl & proton_core::entry::FLAG_COPY_ON_WRITE != 0);
}

#[test]
fn task_fork_returns_child_id_to_parent() {
    // the fork syscall path: the child appears ready and enqueued, the
    // parent's trap-frame x0 carries the child's id, and the two address
    // spaces share their pages copy-on-write
    let mut mem = PhysicalMemory::new(512);
    let mut tbl = TaskTable::new();
    let a = tbl.spawn(&mut mem, 0x1000, 0xffff_0000_0010_0000).unwrap();
    tbl.current = a;
    let mut frame = ExceptionFrame {
        q: vec![0; 32],
        elr_el1: 0,
        spsr_el1: 0,
        sp_el0: 0,
        gpr: vec![0; 31],
    };
    let cid = tbl
        .fork_current(&mut mem, &mut frame, 0xffff_0000_0030_0000)
        .unwrap();
    assert_eq!(cid, 2);
    assert_eq!(frame.gpr[0], 2);
    match &tbl.tasks[2] {
        Some(t) => {
            assert_eq!(t.state, TaskState::Ready);
            assert_eq!(t.context.regs.pc, 0x1000);
        },
        None => panic!(),
    }
    assert!(tbl.ready.contains(&2));
    // the parent and the child have distinct roots
    let proot = tbl.tasks[1].as_ref().unwrap().context.p4.root;
    let croot = tbl.tasks[2].as_ref().unwrap().context.p4.root;
    assert_ne!(proot, croot);
    // the child wakes with x0 = 0: the slot at the low end of its saved
    // trap frame, in the last stack page, reads zero
    let cstack = tbl.tasks[2]
        .as_ref()
        .unwrap()
        .context
        .kernel_stack
        .as_ref()
        .unwrap();
    for k in 0..8 {
        assert_eq!(
            mem.read_byte(cstack.frames[7], proton_core::task::TRAP_X0_OFFSET + k),
            0
        );
    }
}

#[test]
fn fresh_context_registers_are_zero() {
    let mut mem = PhysicalMemory::new(64);
    let c = Context::new(&mut mem, 0x9000, 0xffff_0000_0010_0000).unwrap();
    assert_eq!(c.regs.pc, 0x9000);
    assert!(c.regs.x.iter().all(|x| *x == 0));
    assert!(c.regs.q.iter().all(|q| *q == 0));
}
