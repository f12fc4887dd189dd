use rustable::page::USTACKTOP;
use rustable::pmm::{page_init, Pmm};
use rustable::process::{Process, TrapFrame};
use rustable::scheduler::Scheduler;
use rustable::syscall::{do_exec, handle_exception, SyscallResult, TrapOutcome};
use rustable::traps::{Info, Kind, Source};
use rustable::vm::VmError;

fn put(b: &mut Vec<u8>, off: usize, v: u64, n: usize) {
    for i in 0..n {
        b[off + i] = ((v >> (8 * i)) & 0xff) as u8;
    }
}

/// An image with one loadable segment of 16 bytes at 0x2000.
fn small_image() -> Vec<u8> {
    let mut b = vec![0u8; 64 + 56 + 16];
    put(&mut b, 0, 0x464C457F, 4);
    put(&mut b, 32, 64, 8);
    put(&mut b, 56, 1, 2);
    put(&mut b, 64, 1, 4);
    put(&mut b, 64 + 8, 120, 8);
    put(&mut b, 64 + 16, 0x2000, 8);
    put(&mut b, 64 + 32, 16, 8);
    put(&mut b, 64 + 40, 16, 8);
    b
}

#[test]
fn every_region_above_the_descriptors_seeds_an_arena() {
    assert_eq!(page_init(&vec![(0, 0x3C00_0000)]), vec![(0x170_0000, 239872)]);
    assert_eq!(page_init(&vec![(0, 0x100_0000)]), vec![]);
    assert_eq!(
        page_init(&vec![(0, 0x200_0000), (0x8000_0000, 0x1000)]),
        vec![(0x143_0000, 3024), (0x8000_0000, 1)]
    );
    assert_eq!(page_init(&vec![]), vec![]);
}

#[test]
fn exec_with_no_process_runs_the_image_at_once() {
    let mut pmm = Pmm::new(32, 0);
    let mut s = Scheduler::new();
    let mut tf = TrapFrame::zeroed();
    let mut counter: u64 = 1;
    assert_eq!(do_exec(&mut s, &mut pmm, &mut tf, &small_image(), &mut counter, 0), Ok(Some(0)));
    assert_eq!(counter, 2);
    assert_eq!(tf.sp, USTACKTOP);
    assert_eq!(tf.tpidr, 0);
    assert!(!s.is_finished(1));
}

#[test]
fn exec_from_a_process_waits_for_the_new_one() {
    let mut pmm = Pmm::new(32, 0);
    let mut s = Scheduler::new();
    let a = s.add(Process::new()).unwrap();
    let mut tf = TrapFrame::zeroed();
    tf.tpidr = a;
    let mut counter: u64 = 1;
    assert_eq!(do_exec(&mut s, &mut pmm, &mut tf, &small_image(), &mut counter, 0), Ok(Some(1)));
    assert_eq!(tf.sp, USTACKTOP);
    assert!(!s.is_finished(1));
    let mut bad = small_image();
    bad[1] = 0;
    assert_eq!(do_exec(&mut s, &mut pmm, &mut tf, &bad, &mut counter, 0), Err(-2));
}

#[test]
fn exceptions_are_dispatched() {
    let mut pmm = Pmm::new(32, 0);
    let mut p = Process::new();
    p.load_icode(&mut pmm, &small_image()).unwrap();
    let mut s = Scheduler::new();
    let a = s.add(p).unwrap();
    let b = s.add(Process::new()).unwrap();
    let mut tf = TrapFrame::zeroed();
    tf.tpidr = a;
    tf.elr = 0x2000;
    let sync = Info { source: Source::LowerAArch64, kind: Kind::Synchronous };
    let irq = Info { source: Source::LowerAArch64, kind: Kind::Irq };
    assert!(matches!(handle_exception(sync, 0x3C << 26, 0, false, &mut tf, &mut s, &mut pmm, 0), TrapOutcome::Resumed));
    assert_eq!(tf.elr, 0x2004);
    tf.x0 = 8;
    assert!(matches!(
        handle_exception(sync, (0x15 << 26) | 3, 0, false, &mut tf, &mut s, &mut pmm, 0),
        TrapOutcome::Syscall(SyscallResult::Printed(8))
    ));
    assert!(matches!(
        handle_exception(sync, (0x24 << 26) | 0b000111, 0x30_0000, false, &mut tf, &mut s, &mut pmm, 0),
        TrapOutcome::Fault(Ok(_))
    ));
    assert!(matches!(
        handle_exception(sync, (0x24 << 26) | 0b001111, 0x2000, false, &mut tf, &mut s, &mut pmm, 0),
        TrapOutcome::Fault(Ok(_))
    ));
    assert!(matches!(handle_exception(sync, (0x20 << 26) | 0b000111, 0x31_0000, false, &mut tf, &mut s, &mut pmm, 0), TrapOutcome::Fault(Ok(_))));
    assert!(matches!(handle_exception(irq, 0, 0, false, &mut tf, &mut s, &mut pmm, 0), TrapOutcome::Halted));
    assert!(matches!(
        handle_exception(irq, 0, 0, true, &mut tf, &mut s, &mut pmm, 0),
        TrapOutcome::Switched(Some(id)) if id == b
    ));
}

#[test]
fn start_queues_two_processes_and_enters_the_first() {
    let mut pmm = Pmm::new(64, 0);
    let mut g = rustable::scheduler::GlobalScheduler::uninitialized();
    let mut counter: u64 = 0;
    let mut img = small_image();
    put(&mut img, 24, 0x2000, 8);
    let tf = g.start(&mut pmm, &img, &small_image(), &mut counter).unwrap();
    assert_eq!(counter, 2);
    assert_eq!(tf.sp, USTACKTOP);
    assert_eq!(tf.elr, 0x2000);
    assert_eq!(tf.tpidr, 0);
    assert!(!g.is_finished(0));
    assert!(!g.is_finished(1));
    let mut bad = small_image();
    bad[2] = 0;
    let mut g2 = rustable::scheduler::GlobalScheduler::uninitialized();
    assert_eq!(g2.start(&mut pmm, &bad, &img, &mut counter).err(), Some(-2));
}

#[test]
fn a_timer_interrupt_with_no_process_switches_to_nothing() {
    let mut pmm = Pmm::new(4, 0);
    let mut s = Scheduler::new();
    let mut tf = TrapFrame::zeroed();
    let irq = Info { source: Source::LowerAArch64, kind: Kind::Irq };
    assert!(matches!(handle_exception(irq, 0, 0, true, &mut tf, &mut s, &mut pmm, 0), TrapOutcome::Switched(None)));
    assert!(s.is_empty());
}

#[test]
fn overlapping_segments_are_a_bad_image() {
    let mut c = vec![0u8; 64 + 2 * 56 + 16];
    put(&mut c, 0, 0x464C457F, 4);
    put(&mut c, 32, 64, 8);
    put(&mut c, 56, 2, 2);
    for k in 0..2usize {
        let o = 64 + k * 56;
        put(&mut c, o, 1, 4);
        put(&mut c, o + 8, 176, 8);
        put(&mut c, o + 16, 0x2000 + (k as u64) * 8, 8);
        put(&mut c, o + 32, 16, 8);
        put(&mut c, o + 40, 16, 8);
    }
    let mut pmm = Pmm::new(32, 0);
    let mut p = Process::new();
    assert_eq!(p.load_icode(&mut pmm, &c), Err(-2));
    assert_eq!(pmm.n_free(), 32);
    assert!(p.pgdir.is_none());
}
