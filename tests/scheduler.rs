use rustable::process::{Process, State, TrapFrame, WaitReason};
use rustable::scheduler::{GlobalScheduler, Scheduler};

fn named(pid: u64) -> Process {
    let mut p = Process::new();
    p.pid = pid;
    p
}

#[test]
fn ids_are_handed_out_in_order() {
    let mut s = Scheduler::new();
    assert!(s.is_empty());
    assert_eq!(s.add(named(10)), Some(0));
    assert_eq!(s.add(named(11)), Some(1));
    assert_eq!(s.last_id(), Some(1));
    assert!(!s.is_empty());
    let front = s.pop_current();
    assert_eq!(front.get_id(), 0);
    s.push_current_front(front);
}

#[test]
fn ready_processes_run_in_turn() {
    let mut s = Scheduler::new();
    let a = s.add(named(1)).unwrap();
    let b = s.add(named(2)).unwrap();
    let c = s.add(named(3)).unwrap();
    let mut tf = TrapFrame::zeroed();
    tf.tpidr = a;
    assert_eq!(s.switch(State::Ready, &mut tf, 0), Some(b));
    assert_eq!(tf.tpidr, b);
    assert_eq!(s.switch(State::Ready, &mut tf, 0), Some(c));
    assert_eq!(s.switch(State::Ready, &mut tf, 0), Some(a));
    assert_eq!(s.switch(State::Ready, &mut tf, 0), Some(b));
}

#[test]
fn switch_saves_the_registers_of_the_running_process() {
    let mut s = Scheduler::new();
    let a = s.add(named(1)).unwrap();
    let b = s.add(named(2)).unwrap();
    let mut tf = TrapFrame::zeroed();
    tf.tpidr = a;
    tf.elr = 0x4444;
    assert_eq!(s.switch(State::Ready, &mut tf, 0), Some(b));
    assert_eq!(tf.elr, 0);
    assert_eq!(s.switch(State::Ready, &mut tf, 0), Some(a));
    assert_eq!(tf.elr, 0x4444);
}

#[test]
fn a_sleeper_is_skipped_until_its_time_and_gets_the_elapsed_time() {
    let mut s = Scheduler::new();
    let a = s.add(named(1)).unwrap();
    let b = s.add(named(2)).unwrap();
    let mut tf = TrapFrame::zeroed();
    tf.tpidr = a;
    let sleep = State::Waiting(WaitReason::Sleep { begin: 1000, until: 51000 });
    assert_eq!(s.switch(sleep, &mut tf, 1000), Some(b));
    assert_eq!(s.switch(State::Ready, &mut tf, 20000), Some(b));
    assert_eq!(s.switch(State::Ready, &mut tf, 60000), Some(a));
    assert_eq!(tf.x0, 59);
    assert_eq!(tf.x7, 0);
}

#[test]
fn nothing_runs_while_everyone_waits() {
    let mut s = Scheduler::new();
    let a = s.add(named(1)).unwrap();
    let mut tf = TrapFrame::zeroed();
    tf.tpidr = a;
    let sleep = State::Waiting(WaitReason::Sleep { begin: 0, until: 100 });
    assert_eq!(s.switch(sleep, &mut tf, 0), None);
    assert_eq!(s.schedule(&mut tf, 50), None);
    assert_eq!(s.schedule(&mut tf, 101), Some(a));
}

#[test]
fn a_waiter_runs_once_the_awaited_process_exits() {
    let mut s = Scheduler::new();
    let a = s.add(named(1)).unwrap();
    let b = s.add(named(2)).unwrap();
    let mut tf = TrapFrame::zeroed();
    tf.tpidr = a;
    assert!(!s.is_finished(2));
    assert_eq!(s.switch(State::Waiting(WaitReason::Exit { pid: 2 }), &mut tf, 0), Some(b));
    assert_eq!(s.switch(State::Zombie, &mut tf, 0), Some(a));
    assert!(s.is_finished(2));
}

#[test]
fn an_empty_queue_switches_to_nothing() {
    let mut s = Scheduler::new();
    let mut tf = TrapFrame::zeroed();
    assert_eq!(s.switch(State::Ready, &mut tf, 0), None);
}

#[test]
fn global_scheduler_forwards() {
    let mut g = GlobalScheduler::uninitialized();
    g.initialize();
    assert!(g.is_empty());
    let a = g.add(named(7)).unwrap();
    let b = g.add(named(8)).unwrap();
    let mut tf = TrapFrame::zeroed();
    tf.tpidr = a;
    assert_eq!(g.switch(State::Ready, &mut tf, 0), Some(b));
    assert!(!g.is_finished(7));
    let p = g.pop_current();
    assert_eq!(p.get_id(), b);
    g.push_current_front(p);
    assert!(!g.is_empty());
}

#[test]
fn process_basics() {
    let mut p = Process::new();
    assert_eq!(p.proc_name, "idle");
    let mut counter: u64 = 5;
    p.proc_init(&mut counter);
    assert_eq!(p.pid, 5);
    assert_eq!(counter, 6);
    p.set_proc_name("init");
    assert_eq!(p.proc_name, "init");
    assert!(p.is_ready(0, false));
    p.state = State::Running;
    assert!(!p.is_ready(0, false));
    p.state = State::Waiting(WaitReason::Exit { pid: 3 });
    assert!(!p.is_ready(0, false));
    assert!(p.is_ready(0, true));
    assert_eq!(p.state, State::Ready);
}
