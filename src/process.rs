use vstd::prelude::*;
use crate::allocator::Allocator;
use crate::vm::PageTable;

verus! {

/// Type of a process id handed out by the scheduler.
pub type Id = u64;

/// The registers of a suspended process: return address, processor
/// status, stack pointer, thread id, table root, and the general registers
/// x0 to x30.
#[derive(Clone, Copy, Debug, PartialEq, Eq, Structural)]
pub struct TrapFrame {
    /// Address to return to.
    pub elr: u64,
    /// Saved processor status.
    pub spsr: u64,
    /// User stack pointer.
    pub sp: u64,
    /// Thread id register: the scheduler's id of the process.
    pub tpidr: u64,
    /// Root of the user address space.
    pub ttbr0: u64,
    /// First argument and return register.
    pub x0: u64,
    /// Error register of the system-call interface.
    pub x7: u64,
    /// General register x1.
    pub x1: u64,
    /// General register x2.
    pub x2: u64,
    /// General register x3.
    pub x3: u64,
    /// General register x4.
    pub x4: u64,
    /// General register x5.
    pub x5: u64,
    /// General register x6.
    pub x6: u64,
    /// General register x8.
    pub x8: u64,
    /// General register x9.
    pub x9: u64,
    /// General register x10.
    pub x10: u64,
    /// General register x11.
    pub x11: u64,
    /// General register x12.
    pub x12: u64,
    /// General register x13.
    pub x13: u64,
    /// General register x14.
    pub x14: u64,
    /// General register x15.
    pub x15: u64,
    /// General register x16.
    pub x16: u64,
    /// General register x17.
    pub x17: u64,
    /// General register x18.
    pub x18: u64,
    /// General register x19.
    pub x19: u64,
    /// General register x20.
    pub x20: u64,
    /// General register x21.
    pub x21: u64,
    /// General register x22.
    pub x22: u64,
    /// General register x23.
    pub x23: u64,
    /// General register x24.
    pub x24: u64,
    /// General register x25.
    pub x25: u64,
    /// General register x26.
    pub x26: u64,
    /// General register x27.
    pub x27: u64,
    /// General register x28.
    pub x28: u64,
    /// General register x29.
    pub x29: u64,
    /// General register x30.
    pub x30: u64,
}

impl TrapFrame {
    /// A trap frame with every register zero.
    pub fn zeroed() -> (r: TrapFrame)
        ensures
            r == (TrapFrame { elr: 0, spsr: 0, sp: 0, tpidr: 0, ttbr0: 0, x0: 0, x7: 0, x1: 0, x2: 0, x3: 0, x4: 0, x5: 0, x6: 0, x8: 0, x9: 0, x10: 0, x11: 0, x12: 0, x13: 0, x14: 0, x15: 0, x16: 0, x17: 0, x18: 0, x19: 0, x20: 0, x21: 0, x22: 0, x23: 0, x24: 0, x25: 0, x26: 0, x27: 0, x28: 0, x29: 0, x30: 0 }),
    {
        TrapFrame { elr: 0, spsr: 0, sp: 0, tpidr: 0, ttbr0: 0, x0: 0, x7: 0, x1: 0, x2: 0, x3: 0, x4: 0, x5: 0, x6: 0, x8: 0, x9: 0, x10: 0, x11: 0, x12: 0, x13: 0, x14: 0, x15: 0, x16: 0, x17: 0, x18: 0, x19: 0, x20: 0, x21: 0, x22: 0, x23: 0, x24: 0, x25: 0, x26: 0, x27: 0, x28: 0, x29: 0, x30: 0 }
    }
}

/// What a waiting process waits for.
#[derive(Clone, Copy, Debug, PartialEq, Eq, Structural)]
pub enum WaitReason {
    /// Asleep since `begin` until the clock passes `until` (microseconds).
    Sleep { begin: u64, until: u64 },
    /// Until no live process has the process number `pid`.
    Exit { pid: u64 },
}

/// Scheduling state of a process.
#[derive(Clone, Copy, Debug, PartialEq, Eq, Structural)]
pub enum State {
    Ready,
    Running,
    Waiting(WaitReason),
    Zombie,
}

/// A sleep ends no earlier than it began.
pub open spec fn state_wf(s: State) -> bool {
    s matches State::Waiting(WaitReason::Sleep { begin, until }) ==> begin <= until
}

/// Whether a process in state `s` may run at time `now`; `finished` says
/// whether the process it may wait for has finished.
pub open spec fn ready_at(s: State, now: u64, finished: bool) -> bool {
    match s {
        State::Ready => true,
        State::Running => false,
        State::Waiting(WaitReason::Sleep { begin, until }) => now > until,
        State::Waiting(WaitReason::Exit { pid }) => finished,
        State::Zombie => false,
    }
}

/// The trap frame of a process in state `s` once it is found ready at
/// `now`: a sleeper gets success in `x7` and the milliseconds it slept in `x0`.
pub open spec fn woken_frame(tf: TrapFrame, s: State, now: u64) -> TrapFrame {
    match s {
        State::Waiting(WaitReason::Sleep { begin, until }) => TrapFrame {
            x7: 0,
            x0: ((now - begin) / 1000) as u64,
            ..tf
        },
        _ => tf,
    }
}

/// A schedulable process: saved registers, state, name, its own frame
/// allocator for user pages, its process number and its address space.
pub struct Process {
    pub trap_frame: TrapFrame,
    pub state: State,
    pub proc_name: String,
    pub allocator: Allocator,
    pub pid: u64,
    pub pgdir: Option<PageTable>,
}

impl Process {
    /// A process with a zeroed trap frame, `Ready`, an empty allocator,
    /// process number 0, the name "idle" and no address space.
    pub fn new() -> (r: Process)
        ensures
            r.trap_frame == TrapFrame::zeroed_spec(),
            r.state == State::Ready,
            r.proc_name@ == "idle"@,
            r.allocator.wf(),
            r.allocator@.npage == 0,
            r.pid == 0,
            r.pgdir is None,
    {
        Process {
            trap_frame: TrapFrame::zeroed(),
            state: State::Ready,
            proc_name: "idle".to_owned(),
            allocator: Allocator::new(),
            pid: 0,
            pgdir: None,
        }
    }

    /// Takes the next process number from `counter`, which then moves on.
    pub fn proc_init(&mut self, counter: &mut u64)
        requires
            *old(counter) < u64::MAX,
        ensures
            final(self).pid == *old(counter),
            *final(counter) == *old(counter) + 1,
            final(self).trap_frame == old(self).trap_frame,
            final(self).state == old(self).state,
    {
        self.pid = *counter;
        *counter = *counter + 1;
    }

    /// Renames the process.
    pub fn set_proc_name(&mut self, s: &str)
        ensures
            final(self).proc_name@ == s@,
            final(self).pgdir == old(self).pgdir,
            final(self).allocator == old(self).allocator,
            final(self).pid == old(self).pid,
            final(self).trap_frame == old(self).trap_frame,
            final(self).state == old(self).state,
    {
        self.proc_name = s.to_owned();
    }

    /// The scheduler's id of the process, kept in its trap frame.
    pub fn get_id(&self) -> (r: u64)
        ensures
            r == self.trap_frame.tpidr,
    {
        self.trap_frame.tpidr
    }

    /// Whether the process may run now, with `finished` telling whether the
    /// process it may wait for has finished. A waiting process found ready
    /// becomes `Ready`, and a sleeper gets its results in its trap frame.
    pub fn is_ready(&mut self, now: u64, finished: bool) -> (r: bool)
        requires
            !(old(self).state is Zombie),
            state_wf(old(self).state),
        ensures
            r == ready_at(old(self).state, now, finished),
            *final(self) == if r {
                Process {
                    state: State::Ready,
                    trap_frame: woken_frame(old(self).trap_frame, old(self).state, now),
                    ..*old(self)
                }
            } else {
                *old(self)
            },
    {
        match self.state {
            State::Ready => true,
            State::Running => false,
            State::Waiting(WaitReason::Sleep { begin, until }) => {
                if now > until {
                    self.trap_frame.x7 = 0;
                    self.trap_frame.x0 = (now - begin) / 1000;
                    self.state = State::Ready;
                    true
                } else {
                    false
                }
            },
            State::Waiting(WaitReason::Exit { pid }) => {
                if finished {
                    self.state = State::Ready;
                    true
                } else {
                    false
                }
            },
            State::Zombie => false,
        }
    }
}

impl TrapFrame {
    /// The zeroed trap frame.
    pub open spec fn zeroed_spec() -> TrapFrame {
        TrapFrame { elr: 0, spsr: 0, sp: 0, tpidr: 0, ttbr0: 0, x0: 0, x7: 0, x1: 0, x2: 0, x3: 0, x4: 0, x5: 0, x6: 0, x8: 0, x9: 0, x10: 0, x11: 0, x12: 0, x13: 0, x14: 0, x15: 0, x16: 0, x17: 0, x18: 0, x19: 0, x20: 0, x21: 0, x22: 0, x23: 0, x24: 0, x25: 0, x26: 0, x27: 0, x28: 0, x29: 0, x30: 0 }
    }
}

} // verus!
