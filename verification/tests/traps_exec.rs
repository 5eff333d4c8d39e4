//! Exception decode, the system-call layer, the panic report, the timer
//! arithmetic, and loading a hand-built ELF image.

use proton_core::exception::{
    get_exception_class, handle_exception, handle_syscall, hex_digits, panic as panic_line,
    syscall_of, ExceptionClass, ExceptionFrame, SyncOutcome, Syscall,
};
use proton_core::exec::exec_user;
use proton_core::mem::PhysicalMemory;
use proton_core::table::PageTable;
use proton_core::task::{ReceiveOutcome, TaskTable};
use proton_core::timer::{handle_timer_irq, pending_timer_irq, Timer};

#[test]
fn exception_class_decode() {
    // EC is bits 26..32: 0b010101 SVC, 0b100100 / 0b100101 data aborts
    assert_eq!(get_exception_class(0b010101 << 26), ExceptionClass::SvcAarch64);
    assert_eq!(
        get_exception_class(0b100100 << 26 | 0x47),
        ExceptionClass::DataAbortLowerEl
    );
    assert_eq!(
        get_exception_class(0b100101 << 26),
        ExceptionClass::DataAbortHigherEl
    );
    assert_eq!(get_exception_class(0b111000 << 26), ExceptionClass::Unknown);
}

#[test]
fn syscall_opcodes() {
    assert_eq!(syscall_of(0), Syscall::Log);
    assert_eq!(syscall_of(1), Syscall::Send);
    assert_eq!(syscall_of(2), Syscall::Receive);
    assert_eq!(syscall_of(3), Syscall::Bad);
}

#[test]
fn hex_digits_format() {
    assert_eq!(hex_digits(0xdeadbeef), b"00000000deadbeef".to_vec());
    assert_eq!(hex_digits(0), b"0000000000000000".to_vec());
}

#[test]
fn panic_line_is_three_registers() {
    let line = panic_line(0x1, 0x2, 0xffff_0000_0000_0000);
    assert_eq!(line.len(), 50);
    assert_eq!(&line[0..16], b"0000000000000001");
    assert_eq!(line[16], b' ');
    assert_eq!(&line[17..33], b"0000000000000002");
    assert_eq!(line[33], b' ');
    assert_eq!(&line[34..50], b"ffff000000000000");
}

fn frame_with(regs: &[u64]) -> ExceptionFrame {
    let mut gpr = vec![0u64; 31];
    for (i, r) in regs.iter().enumerate() {
        gpr[i] = *r;
    }
    ExceptionFrame { q: vec![0u128; 32], elr_el1: 0x4000, spsr_el1: 0, sp_el0: 0, gpr }
}

fn two_task_table() -> (PhysicalMemory, TaskTable) {
    let mut mem = PhysicalMemory::new(256);
    let mut tbl = TaskTable::new();
    tbl.spawn(&mut mem, 0x1000, 0xffff_0000_0010_0000).unwrap();
    tbl.spawn(&mut mem, 0x2000, 0xffff_0000_0020_0000).unwrap();
    tbl.current = 1;
    tbl.ready = vec![2];
    (mem, tbl)
}

#[test]
fn svc_send_and_receive_through_frames() {
    let (mut mem, mut tbl) = two_task_table();
    let pt = PageTable::new(&mut mem).unwrap();
    // task 1 sends {op = 1, payload 42} to task 2 via SVC
    let mut frame = frame_with(&[1, 2, 1, 42]);
    let esr = 0b010101u32 << 26;
    let r = handle_exception(&mut tbl, &mut mem, &mut frame, &pt, esr, 0);
    assert_eq!(r, SyncOutcome::Blocked);
    assert_eq!(frame.gpr[0], 2);
    // task 2 receives from anyone: a negative word in x1 means any sender
    tbl.current = 2;
    let mut frame2 = frame_with(&[2, u64::MAX]);
    let r2 = handle_syscall(&mut tbl, &mut frame2);
    assert_eq!(r2, SyncOutcome::Handled);
    assert_eq!(frame2.gpr[0], 0);
    assert_eq!(frame2.gpr[1], 1);
    assert_eq!(frame2.gpr[2], 1);
    assert_eq!(frame2.gpr[3], 42);
    assert_eq!(frame2.gpr[4], 0);
    assert_eq!(frame2.gpr[8], 0);
}

#[test]
fn svc_receive_filter_encoding() {
    // x1 = 0 names task zero (which never exists), so nothing matches;
    // only a negative word accepts any sender
    let (_mem, mut tbl) = two_task_table();
    let r = tbl.send_message(proton_core::task::Message {
        sender: 0,
        receiver: 2,
        opcode: 9,
        payload: vec![0; 6],
    });
    assert!(r.is_ok());
    tbl.current = 2;
    let mut zero_filter = frame_with(&[2, 0]);
    assert_eq!(handle_syscall(&mut tbl, &mut zero_filter), SyncOutcome::Blocked);
    assert_eq!(zero_filter.gpr[0], 2);
    if let Some(t) = tbl.tasks[2].as_mut() {
        t.state = proton_core::task::TaskState::Ready;
    }
    let mut any_filter = frame_with(&[2, u64::MAX]);
    assert_eq!(handle_syscall(&mut tbl, &mut any_filter), SyncOutcome::Handled);
    assert_eq!(any_filter.gpr[1], 1);
    assert_eq!(any_filter.gpr[2], 9);
}

#[test]
fn svc_bad_opcode_reports_error() {
    let (mut mem, mut tbl) = two_task_table();
    let _ = mem;
    let mut frame = frame_with(&[77]);
    let r = handle_syscall(&mut tbl, &mut frame);
    assert_eq!(r, SyncOutcome::Handled);
    assert_eq!(frame.gpr[0], 1);
}

#[test]
fn svc_log_validates_pointer() {
    let (mut _mem, mut tbl) = two_task_table();
    let mut frame = frame_with(&[0, 0x10000]);
    assert_eq!(handle_syscall(&mut tbl, &mut frame), SyncOutcome::Handled);
    assert_eq!(frame.gpr[0], 0);
    let mut frame2 = frame_with(&[0, 0xffff_0000_0000_0100]);
    assert_eq!(handle_syscall(&mut tbl, &mut frame2), SyncOutcome::Handled);
    assert_eq!(frame2.gpr[0], 1);
}

#[test]
fn unknown_exception_is_fatal() {
    let (mut mem, mut tbl) = two_task_table();
    let pt = PageTable::new(&mut mem).unwrap();
    let mut frame = frame_with(&[0]);
    let r = handle_exception(&mut tbl, &mut mem, &mut frame, &pt, 0b111000 << 26, 0x123);
    match r {
        SyncOutcome::Fatal(rec) => {
            assert_eq!(rec.far, 0x123);
            assert_eq!(rec.elr, 0x4000);
        },
        other => panic!("expected the fatal path, got {:?}", other),
    }
}

#[test]
fn data_abort_routes_to_fault_handler() {
    // boot-to-fault-to-return: a user write to fresh stack is handled and
    // the task returns to user level
    let (mut mem, mut tbl) = two_task_table();
    let pt = PageTable::new(&mut mem).unwrap();
    let mut frame = frame_with(&[0]);
    let esr = (0b100100u32 << 26) | 0x40;
    let far = 0x7fff_ffff_efff_u64;
    let r = handle_exception(&mut tbl, &mut mem, &mut frame, &pt, esr, far);
    assert_eq!(r, SyncOutcome::Handled);
    assert!(pt.translate(&mem, far).is_some());
}

#[test]
fn privilege_violation_kills_and_reschedules() {
    // a user read of the kernel half kills the task; the scheduler picks
    // the next ready task and the system stays live
    let (mut mem, mut tbl) = two_task_table();
    let pt = PageTable::new(&mut mem).unwrap();
    let mut frame = frame_with(&[0]);
    let esr = 0b100100u32 << 26; // data abort from EL0, a read
    let far = 0xffff_0000_0000_0000u64;
    let r = handle_exception(&mut tbl, &mut mem, &mut frame, &pt, esr, far);
    assert_eq!(
        r,
        SyncOutcome::Killed(proton_core::KernelError::InvalidAddress)
    );
    match &tbl.tasks[1] {
        Some(t) => assert_eq!(t.state, proton_core::task::TaskState::Zombie),
        None => panic!(),
    }
    assert_eq!(tbl.current, 2);
    // the survivor still runs and ticks
    assert_eq!(handle_timer_irq(&mut tbl, 0, 100, 10).0, 10);
}

#[test]
fn timer_decode_and_compare() {
    assert!(pending_timer_irq(0b10));
    assert!(!pending_timer_irq(0b01));
    assert_eq!(Timer::next_compare(1000, 62500000, 1), 1000 + 62500000);
    assert_eq!(Timer::wait_target(0, 62500000, 8), 500);
}

#[test]
fn timer_irq_reprograms_and_ticks() {
    let (_mem, mut tbl) = two_task_table();
    let (cval, switch) = handle_timer_irq(&mut tbl, 500, 1000, 10);
    assert_eq!(cval, 600);
    assert_eq!(switch, Some((1, 2)));
}

fn minimal_elf(entry: u64, vaddr: u64, body: &[u8]) -> Vec<u8> {
    // a 64-bit little-endian ELF with one loadable segment whose bytes
    // follow the two headers
    let mut img = vec![0u8; 120];
    img[0..4].copy_from_slice(&[0x7f, b'E', b'L', b'F']);
    img[4] = 2; // 64-bit
    img[5] = 1; // little endian
    img[6] = 1; // version
    img[16..18].copy_from_slice(&2u16.to_le_bytes()); // executable
    img[18..20].copy_from_slice(&0xb7u16.to_le_bytes()); // aarch64
    img[20..24].copy_from_slice(&1u32.to_le_bytes());
    img[24..32].copy_from_slice(&entry.to_le_bytes());
    img[32..40].copy_from_slice(&64u64.to_le_bytes()); // program headers at 64
    img[52..54].copy_from_slice(&64u16.to_le_bytes()); // header size
    img[54..56].copy_from_slice(&56u16.to_le_bytes()); // ph entry size
    img[56..58].copy_from_slice(&1u16.to_le_bytes()); // one ph
    // the program header
    img[64..68].copy_from_slice(&1u32.to_le_bytes()); // PT_LOAD
    img[68..72].copy_from_slice(&5u32.to_le_bytes()); // flags r x
    img[72..80].copy_from_slice(&120u64.to_le_bytes()); // file offset
    img[80..88].copy_from_slice(&vaddr.to_le_bytes());
    img[88..96].copy_from_slice(&vaddr.to_le_bytes());
    img[96..104].copy_from_slice(&(body.len() as u64).to_le_bytes()); // filesz
    img[104..112].copy_from_slice(&4096u64.to_le_bytes()); // memsz
    img[112..120].copy_from_slice(&4096u64.to_le_bytes()); // align
    img.extend_from_slice(body);
    img
}

#[test]
fn exec_loads_segment_and_stack() {
    let mut mem = PhysicalMemory::new(512);
    let pt = PageTable::new(&mut mem).unwrap();
    let img = minimal_elf(0x10040, 0x10000, &[0xde, 0xc0, 0x17, 0x01]);
    let entry = exec_user(&pt, &mut mem, &img).unwrap();
    // the entry point comes out of the image, not out of thin air
    assert_eq!(entry, 0x10040);
    // the segment page is mapped writable for user and carries the file
    // bytes, zero-filled
    let (pa, fl) = pt.translate(&mem, 0x10000).unwrap();
    assert_eq!(fl, 0x743);
    assert_eq!(mem.read_byte(pa / 4096, 0), 0xde);
    assert_eq!(mem.read_byte(pa / 4096, 1), 0xc0);
    assert_eq!(mem.read_byte(pa / 4096, 3), 0x01);
    assert_eq!(mem.read_byte(pa / 4096, 4), 0);
    // the user stack is in place, with the same writable user flags
    let (_spa, sfl) = pt.translate(&mem, 0x7fff_ffff_efff).unwrap();
    assert_eq!(sfl, 0x743);
}

#[test]
fn exec_rejects_garbage() {
    let mut mem = PhysicalMemory::new(64);
    let pt = PageTable::new(&mut mem).unwrap();
    let img = vec![1u8, 2, 3, 4];
    assert_eq!(
        exec_user(&pt, &mut mem, &img),
        Err(proton_core::KernelError::Unsupported)
    );
}
