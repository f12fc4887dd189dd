use rustable::elf::{Elfhdr, Proghdr, ELF_MAGIC, PT_LOAD};
use rustable::fork::copy_address_space;
use rustable::loader::check_image;
use rustable::page::{PTE_ADDR, USTACKTOP};
use rustable::pmm::Pmm;
use rustable::process::{Process, State, TrapFrame};
use rustable::scheduler::Scheduler;
use rustable::syscall::{do_fork, handle_syscall, SyscallResult};
use rustable::vm::PageTable;

fn put(b: &mut Vec<u8>, off: usize, v: u64, n: usize) {
    for i in 0..n {
        b[off + i] = ((v >> (8 * i)) & 0xff) as u8;
    }
}

/// An image with a text/data segment of 4100 bytes at 0x1004 and a bss
/// segment of 8192 bytes at 0x10000.
fn image() -> Vec<u8> {
    let data_off = 64 + 2 * 56;
    let mut b = vec![0u8; data_off + 4100];
    put(&mut b, 0, ELF_MAGIC as u64, 4);
    put(&mut b, 16, 2, 2);
    put(&mut b, 24, 0x1004, 8);
    put(&mut b, 32, 64, 8);
    put(&mut b, 54, 56, 2);
    put(&mut b, 56, 2, 2);
    // text and data
    put(&mut b, 64, PT_LOAD as u64, 4);
    put(&mut b, 64 + 8, data_off as u64, 8);
    put(&mut b, 64 + 16, 0x1004, 8);
    put(&mut b, 64 + 32, 4100, 8);
    put(&mut b, 64 + 40, 4100, 8);
    // bss
    put(&mut b, 120, PT_LOAD as u64, 4);
    put(&mut b, 120 + 8, 0, 8);
    put(&mut b, 120 + 16, 0x10000, 8);
    put(&mut b, 120 + 32, 0, 8);
    put(&mut b, 120 + 40, 8192, 8);
    for i in 0..4100 {
        b[data_off + i] = (i % 251) as u8 + 1;
    }
    b
}

fn frame_of(pmm: &mut Pmm, pt: &mut PageTable, va: u64) -> u64 {
    let s = pt.walk(pmm, va, false).unwrap();
    PTE_ADDR(pt.entry(s))
}

#[test]
fn headers_parse() {
    let b = image();
    let h = Elfhdr::parse(&b).unwrap();
    assert_eq!(h.e_magic, ELF_MAGIC);
    assert_eq!(h.e_entry, 0x1004);
    assert_eq!(h.e_phoff, 64);
    assert_eq!(h.e_phnum, 2);
    let p = Proghdr::parse(&b, 64).unwrap();
    assert_eq!(p.p_type, PT_LOAD);
    assert_eq!(p.p_va, 0x1004);
    assert_eq!(p.p_filesz, 4100);
    assert_eq!(Proghdr::parse(&b, b.len() as u64 - 10), None);
    assert_eq!(Elfhdr::parse(&b[..63]), None);
    assert!(check_image(&b));
}

#[test]
fn loading_two_segments_maps_eight_pages() {
    let b = image();
    let mut pmm = Pmm::new(64, 0);
    let mut p = Process::new();
    assert_eq!(p.load_icode(&mut pmm, &b), Ok(0));
    assert_eq!(p.trap_frame.sp, USTACKTOP);
    let mut pt = p.pgdir.take().unwrap();
    assert_eq!(p.trap_frame.ttbr0, pt.root_frame());
    assert_eq!(pt.mapped_count(), 8);
    let first = frame_of(&mut pmm, &mut pt, 0x1000);
    assert_eq!(pmm.read_byte(first + 3), 0);
    assert_eq!(pmm.read_byte(first + 4), 1);
    assert_eq!(pmm.read_byte(first + 5), 2);
    let second = frame_of(&mut pmm, &mut pt, 0x2000);
    assert_eq!(pmm.read_byte(second), ((4092 % 251) as u8) + 1);
    let bss = frame_of(&mut pmm, &mut pt, 0x11000);
    assert_eq!(pmm.read_byte(bss + 100), 0);
    for k in 1..=4u64 {
        assert!(pt.walk(&mut pmm, USTACKTOP - k * 4096, false).is_ok());
    }
}

#[test]
fn loading_a_bad_image_fails() {
    let mut b = image();
    b[0] = 0;
    let mut pmm = Pmm::new(64, 0);
    let mut p = Process::new();
    assert_eq!(p.load_icode(&mut pmm, &b), Err(-2));
    assert!(!check_image(&b));
    let mut short = image();
    short.truncate(200);
    assert_eq!(p.load_icode(&mut pmm, &short), Err(-2));
}

#[test]
fn loading_without_frames_fails() {
    let b = image();
    let mut pmm = Pmm::new(0, 0);
    let mut p = Process::new();
    assert_eq!(p.load_icode(&mut pmm, &b), Err(-1));
    let mut few = Pmm::new(6, 0);
    assert_eq!(p.load_icode(&mut few, &b), Err(-3));
}

#[test]
fn fork_copies_every_page_into_new_frames() {
    let b = image();
    let mut pmm = Pmm::new(64, 0);
    let mut p = Process::new();
    p.load_icode(&mut pmm, &b).unwrap();
    let mut s = Scheduler::new();
    let parent_id = s.add(p).unwrap();
    let mut tf = TrapFrame::zeroed();
    tf.tpidr = parent_id;
    tf.elr = 0x1008;
    tf.x0 = 99;
    let child_id = do_fork(&mut s, &mut pmm, &mut tf).unwrap();
    assert_eq!(child_id, 1);
    assert_eq!(tf.x0, child_id);
    let mut parent = s.pop_current();
    let mut child = s.pop_current();
    assert_eq!(child.trap_frame.x0, 0);
    assert_eq!(child.trap_frame.tpidr, child_id);
    assert_eq!(child.trap_frame.elr, 0x1008);
    assert_eq!(child.state, State::Ready);
    assert_eq!(child.proc_name, "child");
    let mut ppt = parent.pgdir.take().unwrap();
    let mut cpt = child.pgdir.take().unwrap();
    assert_eq!(cpt.mapped_count(), 8);
    for va in [0x1000u64, 0x2000, 0x10000, 0x11000, USTACKTOP - 4096] {
        let a = frame_of(&mut pmm, &mut ppt, va);
        let c = frame_of(&mut pmm, &mut cpt, va);
        assert_ne!(a, c);
        for off in [0u64, 4, 5, 100, 4095] {
            assert_eq!(pmm.read_byte(a + off), pmm.read_byte(c + off));
        }
    }
}

#[test]
fn copying_an_address_space_needs_frames() {
    let b = image();
    let mut pmm = Pmm::new(16, 0);
    let mut p = Process::new();
    p.load_icode(&mut pmm, &b).unwrap();
    let parent = p.pgdir.take().unwrap();
    let mut child = PageTable::new(&mut pmm).unwrap();
    assert!(copy_address_space(&mut pmm, &parent, &mut child).is_err());
}

#[test]
fn syscalls_dispatch() {
    let mut pmm = Pmm::new(8, 0);
    let mut s = Scheduler::new();
    let a = s.add(Process::new()).unwrap();
    let b = s.add(Process::new()).unwrap();
    let mut tf = TrapFrame::zeroed();
    tf.tpidr = a;
    tf.x0 = 42;
    assert!(matches!(handle_syscall(3, &mut tf, &mut s, &mut pmm, 0), SyscallResult::Printed(42)));
    assert!(matches!(handle_syscall(9, &mut tf, &mut s, &mut pmm, 0), SyscallResult::Unknown));
    assert_eq!(tf.x7, 1);
    tf.x0 = 5;
    assert!(matches!(handle_syscall(1, &mut tf, &mut s, &mut pmm, 1000), SyscallResult::Switched(Some(id)) if id == b));
    assert!(matches!(handle_syscall(5, &mut tf, &mut s, &mut pmm, 7000), SyscallResult::Switched(Some(id)) if id == a));
    assert_eq!(tf.x0, 6);
}

#[test]
fn fork_through_the_system_call() {
    let b = image();
    let mut pmm = Pmm::new(64, 0);
    let mut p = Process::new();
    p.load_icode(&mut pmm, &b).unwrap();
    let mut s = Scheduler::new();
    let a = s.add(p).unwrap();
    let mut tf = TrapFrame::zeroed();
    tf.tpidr = a;
    assert!(matches!(handle_syscall(4, &mut tf, &mut s, &mut pmm, 0), SyscallResult::Forked(Ok(1))));
    assert_eq!(tf.x0, 1);
    let mut few = Pmm::new(14, 0);
    let mut q = Process::new();
    q.load_icode(&mut few, &b).unwrap();
    let mut s2 = Scheduler::new();
    let a2 = s2.add(q).unwrap();
    let mut tf2 = TrapFrame::zeroed();
    tf2.tpidr = a2;
    tf2.x0 = 77;
    assert!(matches!(
        handle_syscall(4, &mut tf2, &mut s2, &mut few, 0),
        SyscallResult::Forked(Err(rustable::vm::VmError::OutOfMemory))
    ));
    assert_eq!(tf2.x0, 77);
}
