use vstd::prelude::*;
use std::collections::VecDeque;
use crate::process::{Id, Process, State, TrapFrame, WaitReason, ready_at, state_wf, woken_frame};

verus! {

/// Some process of `q` that has not exited has process number `pid`.
pub open spec fn live(q: Seq<Process>, pid: u64) -> bool {
    exists|i: int| 0 <= i < q.len() && #[trigger] q[i].pid == pid && !(q[i].state is Zombie)
}

/// The process that `p` waits for, if any, has finished.
pub open spec fn wait_done(p: Process, q: Seq<Process>) -> bool {
    match p.state {
        State::Waiting(WaitReason::Exit { pid }) => !live(q, pid),
        _ => false,
    }
}

/// `p`, one of `q`, may run at `now`.
pub open spec fn can_run(p: Process, q: Seq<Process>, now: u64) -> bool {
    !(p.state is Zombie) && ready_at(p.state, now, wait_done(p, q))
}

/// `k` is the first process of `q` that may run at `now`.
pub open spec fn first_runnable(q: Seq<Process>, now: u64, k: int) -> bool {
    &&& 0 <= k < q.len()
    &&& can_run(q[k], q, now)
    &&& forall|j: int| 0 <= j < k ==> !can_run(#[trigger] q[j], q, now)
}

/// Some process of `q` may run at `now`.
pub open spec fn any_runnable(q: Seq<Process>, now: u64) -> bool {
    exists|k: int| 0 <= k < q.len() && can_run(#[trigger] q[k], q, now)
}

/// The first process of `q` that may run at `now`, when there is one.
pub open spec fn pick(q: Seq<Process>, now: u64) -> int {
    choose|k: int| first_runnable(q, now, k)
}

/// `p` once chosen to run at `now`.
pub open spec fn started(p: Process, now: u64) -> Process {
    Process { state: State::Running, trap_frame: woken_frame(p.trap_frame, p.state, now), ..p }
}

/// The queue after a scan at `now`: the processes found not ready move
/// behind the others, and the chosen one stays at the front, running.
pub open spec fn scanned(q: Seq<Process>, now: u64) -> Seq<Process> {
    if any_runnable(q, now) {
        let k = pick(q, now);
        seq![started(q[k], now)] + q.subrange(k + 1, q.len() as int) + q.subrange(0, k)
    } else {
        q
    }
}

/// The queue once its front process, which was running, is saved with trap
/// frame `tf` and state `s` and goes to the back.
pub open spec fn requeued(q: Seq<Process>, tf: TrapFrame, s: State) -> Seq<Process> {
    q.drop_first().push(Process { trap_frame: tf, state: s, ..q[0] })
}

/// What a switch does: on an empty queue nothing, and `None`; otherwise the
/// running front process is saved with the registers `tf0` and the state
/// `new_state`, the queue is scanned at `now`, and the process chosen, if
/// any, becomes current with its registers in `tf1` and its id returned.
pub open spec fn switched(s0: Scheduler, s1: Scheduler, tf0: TrapFrame, tf1: TrapFrame, new_state: State, now: u64, r: Option<Id>) -> bool {
    &&& s0.queue().len() == 0 ==> r is None && s1.queue() == s0.queue() && tf1 == tf0
    &&& s0.queue().len() > 0 ==> {
        let q = requeued(s0.queue(), tf0, new_state);
        &&& s1.queue() == scanned(q, now)
        &&& any_runnable(q, now) ==> {
            let p = started(q[pick(q, now)], now);
            &&& r == Some(p.trap_frame.tpidr)
            &&& tf1 == p.trap_frame
            &&& s1.current() == r
        }
        &&& !any_runnable(q, now) ==> r is None && tf1 == tf0
    }
}

/// Every process in `q` is in a well-formed state.
pub open spec fn states_wf(q: Seq<Process>) -> bool {
    forall|i: int| 0 <= i < q.len() ==> state_wf(#[trigger] q[i].state)
}

/// A round-robin scheduler: a queue of processes whose front one is the one
/// presumed running, the id of the current process, and the last id handed out.
pub struct Scheduler {
    processes: VecDeque<Process>,
    current: Option<Id>,
    last_id: Option<Id>,
}

impl Scheduler {
    /// The queue, front first.
    pub closed spec fn queue(&self) -> Seq<Process> {
        self.processes@
    }

    /// The id of the process presumed running.
    pub closed spec fn current(&self) -> Option<Id> {
        self.current
    }

    /// The last id handed out.
    pub closed spec fn last(&self) -> Option<Id> {
        self.last_id
    }

    /// Every process in the queue is in a well-formed state.
    pub open spec fn wf(&self) -> bool {
        states_wf(self.queue())
    }

    /// An empty scheduler.
    pub fn new() -> (r: Scheduler)
        ensures
            r.wf(),
            r.queue() == Seq::<Process>::empty(),
            r.current() is None,
            r.last() is None,
    {
        Scheduler { processes: VecDeque::new(), current: None, last_id: None }
    }

    /// Gives `process` the next id, saves it in its trap frame and queues it
    /// at the back; returns the id. The first process added becomes the
    /// current one. `None`, and nothing changes, when the ids are used up.
    pub fn add(&mut self, process: Process) -> (r: Option<Id>)
        requires
            old(self).wf(),
            state_wf(process.state),
        ensures
            final(self).wf(),
            r == match old(self).last() {
                Some(l) => if l < u64::MAX { Some((l + 1) as u64) } else { None },
                None => Some(0u64),
            },
            r is None ==> final(self).queue() == old(self).queue() && final(self).last() == old(self).last(),
            r matches Some(id) ==> {
                &&& final(self).queue() == old(self).queue().push(
                    Process { trap_frame: TrapFrame { tpidr: id, ..process.trap_frame }, ..process },
                )
                &&& final(self).last() == Some(id)
                &&& final(self).current() == if old(self).current() is None {
                    Some(id)
                } else {
                    old(self).current()
                }
            },
    {
        let id = match self.last_id {
            Some(last_id) => {
                if last_id == u64::MAX {
                    return None;
                }
                last_id + 1
            },
            None => 0,
        };
        let mut process = process;
        process.trap_frame.tpidr = id;
        self.processes.push_back(process);
        if self.current.is_none() {
            self.current = Some(id);
        }
        self.last_id = Some(id);
        Some(id)
    }

    /// The last id handed out.
    pub fn last_id(&self) -> (r: Option<Id>)
        ensures
            r == self.last(),
    {
        self.last_id
    }

    /// Whether no live process has process number `pending_pid`.
    pub fn is_finished(&self, pending_pid: u64) -> (r: bool)
        ensures
            r == !live(self.queue(), pending_pid),
    {
        let mut i: usize = 0;
        while i < self.processes.len()
            invariant
                i <= self.processes@.len(),
                forall|j: int| 0 <= j < i ==> !(#[trigger] self.processes@[j].pid == pending_pid
                    && !(self.processes@[j].state is Zombie)),
            decreases self.processes@.len() - i,
        {
            let p = &self.processes[i];
            let dead = match p.state {
                State::Zombie => true,
                _ => false,
            };
            if p.pid == pending_pid && !dead {
                return false;
            }
            i = i + 1;
        }
        true
    }

    /// Whether the queue is empty.
    pub fn is_empty(&self) -> (r: bool)
        ensures
            r == (self.queue().len() == 0),
    {
        self.processes.len() == 0
    }

    /// Takes the process at the front of the queue.
    pub fn pop_current(&mut self) -> (r: Process)
        requires
            old(self).queue().len() > 0,
        ensures
            r == old(self).queue()[0],
            final(self).queue() == old(self).queue().drop_first(),
            final(self).current() == old(self).current(),
            final(self).last() == old(self).last(),
            old(self).wf() ==> final(self).wf(),
    {
        let r = self.processes.pop_front();
        match r {
            Some(p) => p,
            None => {
                proof {
                    assert(false);
                }
                Process::new()
            },
        }
    }

    /// Puts `process` back at the front of the queue.
    pub fn push_current_front(&mut self, process: Process)
        ensures
            final(self).queue() == seq![process] + old(self).queue(),
            final(self).current() == old(self).current(),
            final(self).last() == old(self).last(),
            old(self).wf() && state_wf(process.state) ==> final(self).wf(),
    {
        self.processes.push_front(process);
        assert(self.processes@ =~= seq![process] + old(self).processes@);
    }

    /// Scans the queue from the front for a process that may run at `now`,
    /// polling each: those found not ready move to the back. The first one
    /// found ready stays at the front, running; its registers go into `tf`
    /// and its id is returned. `None`, with the queue as it was, when none
    /// may run.
    pub fn schedule(&mut self, tf: &mut TrapFrame, now: u64) -> (r: Option<Id>)
        requires
            old(self).wf(),
        ensures
            final(self).wf(),
            final(self).queue() == scanned(old(self).queue(), now),
            final(self).last() == old(self).last(),
            any_runnable(old(self).queue(), now) ==> {
                let p = started(old(self).queue()[pick(old(self).queue(), now)], now);
                &&& r == Some(p.trap_frame.tpidr)
                &&& *final(tf) == p.trap_frame
                &&& final(self).current() == r
            },
            !any_runnable(old(self).queue(), now) ==> r is None && *final(tf) == *old(tf) && final(self).current() == old(self).current(),
    {
        let ghost q = self.processes@;
        let n = self.processes.len();
        let mut k: usize = 0;
        while k < n
            invariant
                n == q.len(),
                states_wf(q),
                k <= n,
                self.processes@ == q.subrange(k as int, n as int) + q.subrange(0, k as int),
                forall|j: int| 0 <= j < k ==> !can_run(#[trigger] q[j], q, now),
                self.last_id == old(self).last_id,
                self.current == old(self).current,
                *tf == *old(tf),
                q == old(self).processes@,
            decreases n - k,
        {
            proof {
                lemma_rotation_live(q, k as int);
                assert(self.processes@[0] == q[k as int]);
            }
            let fin = match self.processes[0].state {
                State::Waiting(WaitReason::Exit { pid }) => self.is_finished(pid),
                _ => false,
            };
            let mut p = match self.processes.pop_front() {
                Some(p) => p,
                None => {
                    proof {
                        assert(false);
                    }
                    return None;
                },
            };
            assert(p == q[k as int]);
            assert(state_wf(q[k as int].state));
            let zombie = match p.state {
                State::Zombie => true,
                _ => false,
            };
            let ready = if zombie { false } else { p.is_ready(now, fin) };
            assert(ready == can_run(q[k as int], q, now));
            if ready {
                p.state = State::Running;
                let id = p.trap_frame.tpidr;
                *tf = p.trap_frame;
                self.processes.push_front(p);
                self.current = Some(id);
                proof {
                    assert(first_runnable(q, now, k as int));
                    assert(any_runnable(q, now));
                    let c = pick(q, now);
                    assert(c == k) by {
                        if c < k {
                            assert(!can_run(q[c], q, now));
                        } else if c > k {
                            assert(!can_run(q[k as int], q, now));
                        }
                    }
                    assert(self.processes@ =~= seq![started(q[k as int], now)] + q.subrange(k + 1, n as int) + q.subrange(0, k as int));
                    assert forall|i: int| 0 <= i < self.processes@.len() implies state_wf(#[trigger] self.processes@[i].state) by {
                        if i > 0 {
                            if i - 1 < n - k - 1 {
                                assert(self.processes@[i] == q[k + 1 + i - 1]);
                            } else {
                                assert(self.processes@[i] == q[i - 1 - (n - k - 1)]);
                            }
                        }
                    }
                }
                return Some(id);
            }
            self.processes.push_back(p);
            k = k + 1;
            proof {
                assert(self.processes@ =~= q.subrange(k as int, n as int) + q.subrange(0, k as int));
            }
        }
        proof {
            assert(self.processes@ =~= q);
            assert(!any_runnable(q, now)) by {
                if any_runnable(q, now) {
                    let c = choose|c: int| 0 <= c < q.len() && can_run(#[trigger] q[c], q, now);
                    assert(!can_run(q[c], q, now));
                }
            }
        }
        None
    }

    /// The sole context switch: the front process, which was running, is
    /// saved with the registers in `tf` and the state `new_state` and goes to
    /// the back; then the queue is scanned as `schedule` does. `None` when
    /// the queue is empty, or when no process may run yet.
    pub fn switch(&mut self, new_state: State, tf: &mut TrapFrame, now: u64) -> (r: Option<Id>)
        requires
            old(self).wf(),
            state_wf(new_state),
        ensures
            final(self).wf(),
            final(self).last() == old(self).last(),
            switched(*old(self), *final(self), *old(tf), *final(tf), new_state, now, r),
    {
        let mut current = match self.processes.pop_front() {
            Some(p) => p,
            None => {
                return None;
            },
        };
        current.trap_frame = *tf;
        current.state = new_state;
        self.processes.push_back(current);
        proof {
            let q = requeued(old(self).queue(), *old(tf), new_state);
            assert(self.processes@ =~= q);
            assert forall|i: int| 0 <= i < q.len() implies state_wf(#[trigger] q[i].state) by {
                if i < q.len() - 1 {
                    assert(q[i] == old(self).processes@[i + 1]);
                }
            }
        }
        self.schedule(tf, now)
    }
}

/// A scan keeps the number of processes.
pub proof fn lemma_scanned_len(q: Seq<Process>, now: u64)
    ensures
        scanned(q, now).len() == q.len(),
{
    if any_runnable(q, now) {
        let k = pick(q, now);
        assert(first_runnable(q, now, k)) by {
            let c = choose|c: int| 0 <= c < q.len() && can_run(#[trigger] q[c], q, now);
            lemma_first_runnable_exists(q, now, c);
        }
    }
}

/// When some process may run, there is a first one.
proof fn lemma_first_runnable_exists(q: Seq<Process>, now: u64, c: int)
    requires
        0 <= c < q.len(),
        can_run(q[c], q, now),
    ensures
        exists|k: int| first_runnable(q, now, k),
    decreases c,
{
    if exists|j: int| 0 <= j < c && can_run(#[trigger] q[j], q, now) {
        let j = choose|j: int| 0 <= j < c && can_run(#[trigger] q[j], q, now);
        lemma_first_runnable_exists(q, now, j);
    } else {
        assert(first_runnable(q, now, c));
    }
}

/// Turning the queue does not change which processes are live.
proof fn lemma_rotation_live(q: Seq<Process>, k: int)
    requires
        0 <= k <= q.len(),
    ensures
        forall|pid: u64| #[trigger] live(q.subrange(k, q.len() as int) + q.subrange(0, k), pid) == live(q, pid),
{
    let r = q.subrange(k, q.len() as int) + q.subrange(0, k);
    let n = q.len() as int;
    assert forall|pid: u64| #[trigger] live(r, pid) == live(q, pid) by {
        if live(q, pid) {
            let i = choose|i: int| 0 <= i < q.len() && #[trigger] q[i].pid == pid && !(q[i].state is Zombie);
            let j = if i >= k { i - k } else { n - k + i };
            assert(r[j] == q[i]);
        }
        if live(r, pid) {
            let j = choose|j: int| 0 <= j < r.len() && #[trigger] r[j].pid == pid && !(r[j].state is Zombie);
            let i = if j < n - k { j + k } else { j - (n - k) };
            assert(r[j] == q[i]);
        }
    }
}

/// When every process but the running front one is `Ready`, a switch that
/// puts the running one back as `Ready` picks the next in line: the queue
/// turns by one and again every process but the front one is `Ready`. So
/// processes added in order A, B, C run as A, B, C, A, ...
pub proof fn lemma_round_robin(q: Seq<Process>, tf: TrapFrame, now: u64)
    requires
        q.len() >= 2,
        forall|i: int| 1 <= i < q.len() ==> (#[trigger] q[i]).state == State::Ready,
    ensures
        ({
            let q1 = requeued(q, tf, State::Ready);
            let q2 = scanned(q1, now);
            &&& any_runnable(q1, now)
            &&& started(q1[pick(q1, now)], now).trap_frame.tpidr == q[1].trap_frame.tpidr
            &&& q2.len() == q.len()
            &&& forall|i: int| 0 <= i < q.len() ==> (#[trigger] q2[i]).pid == q[(i + 1) % (q.len() as int)].pid
                && q2[i].trap_frame.tpidr == (if i + 1 < q.len() {
                    q[i + 1].trap_frame.tpidr
                } else {
                    tf.tpidr
                })
            &&& forall|i: int| 1 <= i < q.len() ==> (#[trigger] q2[i]).state == State::Ready
        }),
{
    let q1 = requeued(q, tf, State::Ready);
    let n = q.len() as int;
    assert(q1[0] == q[1]);
    assert(can_run(q1[0], q1, now));
    assert(first_runnable(q1, now, 0));
    assert(any_runnable(q1, now));
    let c = pick(q1, now);
    assert(c == 0) by {
        if c > 0 {
            assert(!can_run(q1[0], q1, now));
        }
    }
    let q2 = scanned(q1, now);
    assert(q2 =~= seq![started(q1[0], now)] + q1.subrange(1, n));
    assert forall|i: int| 0 <= i < n implies (#[trigger] q2[i]).pid == q[(i + 1) % n].pid && q2[i].trap_frame.tpidr == (
        if i + 1 < n {
            q[i + 1].trap_frame.tpidr
        } else {
            tf.tpidr
        }) by {
        if i + 1 < n {
            assert((i + 1) % n == i + 1) by (nonlinear_arith)
                requires 0 <= i + 1 < n;
            assert(q1[i] == q[i + 1]);
        } else {
            assert((i + 1) % n == 0) by (nonlinear_arith)
                requires i + 1 == n, n > 0;
        }
    }
}

/// The machine-wide scheduler slot: empty until it is initialized.
pub struct GlobalScheduler {
    inner: Option<Scheduler>,
}

impl GlobalScheduler {
    /// The scheduler in the slot, if any.
    pub closed spec fn get(&self) -> Option<Scheduler> {
        self.inner
    }

    /// A slot with no scheduler yet.
    pub fn uninitialized() -> (r: GlobalScheduler)
        ensures
            r.get() is None,
    {
        GlobalScheduler { inner: None }
    }

    /// Puts an empty scheduler in the slot.
    pub fn initialize(&mut self)
        ensures
            final(self).get() matches Some(s) && s.wf() && s.queue().len() == 0 && s.last() is None
                && s.current() is None,
    {
        self.inner = Some(Scheduler::new());
    }

    /// `Scheduler::add` on the scheduler in the slot.
    pub fn add(&mut self, process: Process) -> (r: Option<Id>)
        requires
            old(self).get() matches Some(s) && s.wf(),
            state_wf(process.state),
        ensures
            final(self).get() matches Some(s) && s.wf(),
            r == match old(self).get()->Some_0.last() {
                Some(l) => if l < u64::MAX { Some((l + 1) as u64) } else { None },
                None => Some(0u64),
            },
            r matches Some(id) ==> final(self).get()->Some_0.queue() == old(self).get()->Some_0.queue().push(
                Process { trap_frame: TrapFrame { tpidr: id, ..process.trap_frame }, ..process },
            ) && final(self).get()->Some_0.last() == Some(id) && final(self).get()->Some_0.current() == if old(
                self,
            ).get()->Some_0.current() is None {
                Some(id)
            } else {
                old(self).get()->Some_0.current()
            },
    {
        match &mut self.inner {
            Some(s) => s.add(process),
            None => None,
        }
    }

    /// `Scheduler::switch` on the scheduler in the slot.
    pub fn switch(&mut self, new_state: State, tf: &mut TrapFrame, now: u64) -> (r: Option<Id>)
        requires
            old(self).get() matches Some(s) && s.wf(),
            state_wf(new_state),
        ensures
            final(self).get() matches Some(s) && s.wf(),
            switched(old(self).get()->Some_0, final(self).get()->Some_0, *old(tf), *final(tf), new_state, now, r),
    {
        match &mut self.inner {
            Some(s) => s.switch(new_state, tf, now),
            None => None,
        }
    }

    /// `Scheduler::is_finished` on the scheduler in the slot.
    pub fn is_finished(&self, pending_pid: u64) -> (r: bool)
        requires
            self.get() is Some,
        ensures
            r == !live(self.get()->Some_0.queue(), pending_pid),
    {
        match &self.inner {
            Some(s) => s.is_finished(pending_pid),
            None => true,
        }
    }

    /// `Scheduler::is_empty` on the scheduler in the slot.
    pub fn is_empty(&self) -> (r: bool)
        requires
            self.get() is Some,
        ensures
            r == (self.get()->Some_0.queue().len() == 0),
    {
        match &self.inner {
            Some(s) => s.is_empty(),
            None => true,
        }
    }

    /// `Scheduler::pop_current` on the scheduler in the slot.
    pub fn pop_current(&mut self) -> (r: Process)
        requires
            old(self).get() matches Some(s) && s.queue().len() > 0,
        ensures
            final(self).get() is Some,
            r == old(self).get()->Some_0.queue()[0],
            final(self).get()->Some_0.queue() == old(self).get()->Some_0.queue().drop_first(),
            final(self).get()->Some_0.last() == old(self).get()->Some_0.last(),
            old(self).get()->Some_0.wf() ==> final(self).get()->Some_0.wf(),
    {
        match &mut self.inner {
            Some(s) => s.pop_current(),
            None => {
                proof {
                    assert(false);
                }
                Process::new()
            },
        }
    }

    /// `Scheduler::push_current_front` on the scheduler in the slot.
    pub fn push_current_front(&mut self, process: Process)
        requires
            old(self).get() is Some,
        ensures
            final(self).get() is Some,
            final(self).get()->Some_0.queue() == seq![process] + old(self).get()->Some_0.queue(),
            final(self).get()->Some_0.last() == old(self).get()->Some_0.last(),
            old(self).get()->Some_0.wf() && state_wf(process.state) ==> final(self).get()->Some_0.wf(),
    {
        match &mut self.inner {
            Some(s) => s.push_current_front(process),
            None => {},
        }
    }
}

} // verus!
