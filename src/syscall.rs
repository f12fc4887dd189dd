use vstd::prelude::*;
use crate::fork::{USER_NPAGES, copy_address_space, page_copied, mapped_below, user_only, copied_at};
use crate::page::{pte_addr, PGSIZE, PTE_V, PTE_ADDR};
use crate::pmm::Pmm;
use crate::process::{Id, Process, State, TrapFrame, WaitReason, state_wf};
use crate::scheduler::{GlobalScheduler, Scheduler, requeued, scanned, any_runnable, pick, started, switched};
use crate::elf::Elfhdr;
use crate::vm::{PageTable, VmError, page_remove, same_page, do_pgfault, maps_held};
use crate::traps::{Info, TrapAction, action_of, classify, skip_breakpoint};

verus! {

/// Latest clock value, in microseconds, that the system calls accept.
pub const MAX_TIME: u64 = 0x4000_0000_0000_0000;

/// System call: sleep for `ms` milliseconds.
pub const SYS_SLEEP: u16 = 1;
/// System call: wait until the process with the given number has finished.
pub const SYS_WAIT: u16 = 2;
/// System call: print the argument.
pub const SYS_PRINT: u16 = 3;
/// System call: duplicate the calling process.
pub const SYS_FORK: u16 = 4;
/// System call: end the calling process.
pub const SYS_EXIT: u16 = 5;

/// Puts the calling process to sleep from `now` for `ms` milliseconds and
/// switches to the next process that may run.
pub fn do_sleep(sched: &mut Scheduler, tf: &mut TrapFrame, ms: u32, now: u64) -> (r: Option<Id>)
    requires
        old(sched).wf(),
        now <= MAX_TIME,
    ensures
        final(sched).wf(),
        switched(*old(sched), *final(sched), *old(tf), *final(tf), State::Waiting(WaitReason::Sleep { begin: now, until: (now + ms * 1000) as u64 }), now, r),
{
    let until = now + (ms as u64) * 1000;
    sched.switch(State::Waiting(WaitReason::Sleep { begin: now, until }), tf, now)
}

/// Makes the calling process wait until no live process has number `pid`
/// and switches to the next process that may run.
pub fn do_wait(sched: &mut Scheduler, tf: &mut TrapFrame, pid: u64, now: u64) -> (r: Option<Id>)
    requires
        old(sched).wf(),
    ensures
        final(sched).wf(),
        switched(*old(sched), *final(sched), *old(tf), *final(tf), State::Waiting(WaitReason::Exit { pid }), now, r),
{
    sched.switch(State::Waiting(WaitReason::Exit { pid }), tf, now)
}

/// Removes every user mapping of `pt` whose frame holds a reference; each
/// such frame loses one and is given back when none is left.
pub fn release_pages(pmm: &mut Pmm, pt: &mut PageTable)
    requires
        old(pmm).wf(),
        old(pt).wf(),
    ensures
        final(pmm).wf(),
        final(pt).wf(),
        final(pmm)@.alloc.npage == old(pmm)@.alloc.npage,
        final(pmm)@.alloc.base_paddr == old(pmm)@.alloc.base_paddr,
        forall|p: int| 0 <= p < USER_NPAGES ==> (#[trigger] final(pt).lookup((p * PGSIZE) as u64) matches Some(e) ==> !(
            final(pmm)@.is_frame_addr(pte_addr(e)) && final(pmm)@.ref_of(pte_addr(e)) > 0)),
        final(pmm)@.alloc.n_free >= old(pmm)@.alloc.n_free,
        forall|x: int| #[trigger] old(pmm)@.in_use(x) && old(pmm)@.ref_of(x) > 0 && final(pmm)@.ref_of(x) == 0 ==> !final(pmm)@.in_use(x),
{
    let mut p: u64 = 0;
    while p < USER_NPAGES
        invariant
            p <= USER_NPAGES,
            pmm.wf(),
            pt.wf(),
            pmm@.alloc.npage == old(pmm)@.alloc.npage,
            pmm@.alloc.base_paddr == old(pmm)@.alloc.base_paddr,
            forall|q: int| 0 <= q < p ==> (#[trigger] pt.lookup((q * PGSIZE) as u64) matches Some(e) ==> !(
                pmm@.is_frame_addr(pte_addr(e)) && pmm@.ref_of(pte_addr(e)) > 0)),
            pmm@.alloc.n_free >= old(pmm)@.alloc.n_free,
            forall|x: int| #[trigger] old(pmm)@.in_use(x) && old(pmm)@.ref_of(x) > 0 && pmm@.ref_of(x) == 0 ==> !pmm@.in_use(x),
            forall|x: int| #[trigger] pmm@.in_use(x) ==> old(pmm)@.in_use(x),
        decreases USER_NPAGES - p,
    {
        let va = p * PGSIZE;
        match pt.lookup_slot(va) {
            Ok(s) => {
                let e = pt.entry(s);
                assert((e & 3 == 0) == (e % 4 == 0)) by (bit_vector);
                if e & PTE_V != 0 {
                    let pa = PTE_ADDR(e);
                    assert(pt.lookup(va) == Some(e));
                    if pmm.is_frame(pa) && pmm.page_ref(pa) > 0 {
                        let ghost t0 = *pt;
                        let ghost m0 = pmm@;
                        page_remove(pmm, pt, va, s);
                        proof {
                            assert forall|x: int| #[trigger] pmm@.in_use(x) implies m0.in_use(x) by {
                                assert(m0.alloc.used_frames().contains(m0.frame(x)));
                            }
                            assert forall|x: int| #[trigger] old(pmm)@.in_use(x) && old(pmm)@.ref_of(x) > 0 && pmm@.ref_of(x) == 0
                                implies !pmm@.in_use(x) by {
                                if m0.frame(x) != m0.frame(pa as int) {
                                    assert(pmm@.ref_of(x) == m0.ref_of(x));
                                }
                            }
                            assert forall|q: int| 0 <= q < p + 1 implies (#[trigger] pt.lookup((q * PGSIZE) as u64) matches Some(e2) ==> !(
                                pmm@.is_frame_addr(pte_addr(e2)) && pmm@.ref_of(pte_addr(e2)) > 0)) by {
                                let vq = (q * PGSIZE) as u64;
                                if q < p {
                                    if !same_page(vq, va) {
                                        assert(pt.lookup(vq) == t0.lookup(vq));
                                        if let Some(e2) = pt.lookup(vq) {
                                            let x = pte_addr(e2);
                                            if pmm@.is_frame_addr(x) && m0.frame(x) == m0.frame(pa as int) {
                                                assert(pmm@.ref_of(x) == m0.ref_of(pa as int) - 1);
                                            }
                                        }
                                    }
                                }
                            }
                        }
                    }
                }
            },
            Err(_) => {},
        }
        p = p + 1;
    }
}

/// No user page of `p`'s address space, if it has one, is mapped to a frame
/// of `pmm` that holds a reference.
pub open spec fn pages_released(p: Process, pmm: crate::pmm::PmmView) -> bool {
    p.pgdir matches Some(pt) ==> pt.wf() && forall|q: int| 0 <= q < USER_NPAGES ==> (#[trigger] pt.lookup((q * PGSIZE) as u64) matches Some(e)
        ==> !(pmm.is_frame_addr(pte_addr(e)) && pmm.ref_of(pte_addr(e)) > 0))
}

/// What `do_exit` does to the queue `q0`, giving `q1`: the front process,
/// with its process number and registers, its user pages released in `pmm`,
/// is saved with the caller's registers `tf0` as a `Zombie` at the back, and
/// the queue is scanned at `now`.
pub open spec fn exit_effect(q0: Seq<Process>, q1: Seq<Process>, tf0: TrapFrame, pmm: crate::pmm::PmmView, now: u64) -> bool {
    &&& q1.len() == q0.len()
    &&& exists|p: Process| #![trigger requeued(seq![p] + q0.drop_first(), tf0, State::Zombie)]
        p.pid == q0[0].pid && p.trap_frame == q0[0].trap_frame && pages_released(p, pmm)
            && q1 == scanned(requeued(seq![p] + q0.drop_first(), tf0, State::Zombie), now)
}

/// Ends the calling process, the front one: its user pages are released,
/// it becomes a `Zombie`, and the next process that may run is switched to.
pub fn do_exit(sched: &mut Scheduler, pmm: &mut Pmm, tf: &mut TrapFrame, now: u64) -> (r: Option<Id>)
    requires
        old(sched).wf(),
        old(sched).queue().len() > 0,
        old(pmm).wf(),
        old(sched).queue()[0].pgdir matches Some(pt) ==> pt.wf(),
    ensures
        final(sched).wf(),
        final(pmm).wf(),
        final(pmm)@.alloc.npage == old(pmm)@.alloc.npage,
        final(pmm)@.alloc.base_paddr == old(pmm)@.alloc.base_paddr,
        exit_effect(old(sched).queue(), final(sched).queue(), *old(tf), final(pmm)@, now),
{
    let mut current = sched.pop_current();
    let ghost rest = sched.queue();
    let mut pgdir = current.pgdir.take();
    match &mut pgdir {
        Some(pt) => release_pages(pmm, pt),
        None => {},
    }
    current.pgdir = pgdir;
    let ghost p = current;
    assert(pages_released(p, pmm@));
    sched.push_current_front(current);
    assert(sched.queue() == seq![p] + old(sched).queue().drop_first());
    proof {
        crate::scheduler::lemma_scanned_len(requeued(sched.queue(), *tf, State::Zombie), now);
    }
    sched.switch(State::Zombie, tf, now)
}

/// Enough frames are free in `pmm` to duplicate `p`: one for the child's
/// root table and four for each user page that `p` maps.
pub open spec fn fork_frames_ok(p: Process, pmm: crate::pmm::PmmView) -> bool {
    match p.pgdir {
        Some(ppt) => pmm.alloc.n_free >= 1 + 4 * mapped_below(ppt, USER_NPAGES as int),
        None => true,
    }
}

/// The child process `c` of `father` holds, at every address that the
/// father maps (all in user pages), a copy in a frame of its own.
pub open spec fn child_copied(father: Process, c: Process, pmm0: crate::pmm::PmmView, pmm1: crate::pmm::PmmView) -> bool {
    match father.pgdir {
        Some(ppt) => user_only(ppt) ==> (c.pgdir matches Some(cpt) && forall|va: u64| #[trigger] ppt.lookup(va) is Some
            ==> copied_at(ppt, cpt, pmm0, pmm1, va)),
        None => true,
    }
}

/// What `do_fork` does, as its result `r`, the scheduler `s0`/`s1`, the
/// caller's registers `tf0`/`tf1` and memory `pmm0`/`pmm1`: failure only when
/// fewer than four frames are left, with nothing changed; on success the
/// child joins the queue as `alloc_proc` makes it.
pub open spec fn fork_effect(
    r: Result<Id, VmError>,
    s0: Scheduler,
    s1: Scheduler,
    tf0: TrapFrame,
    tf1: TrapFrame,
    pmm0: crate::pmm::PmmView,
    pmm1: crate::pmm::PmmView,
) -> bool {
    &&& (r is Err ==> r == Err::<Id, VmError>(VmError::OutOfMemory) && tf1 == tf0
        && s1.queue() == s0.queue() && pmm1.alloc.n_free < 4)
    &&& (fork_frames_ok(s0.queue()[0], pmm0) ==> r is Ok)
    &&& (r is Ok ==> child_copied(s0.queue()[0], s1.queue().last(), pmm0, pmm1))
    &&& (r is Ok ==> s1.queue()[0] == s0.queue()[0])
    &&& (r is Ok ==> (s0.queue()[0].pgdir matches Some(ppt) ==> forall|va: u64| #[trigger] ppt.lookup(va) is Some
        ==> pmm1.page_bytes(pte_addr(ppt.lookup(va)->Some_0)) == pmm0.page_bytes(pte_addr(ppt.lookup(va)->Some_0))))
    &&& (r is Ok ==> {
        let id = r->Ok_0;
        let q = s1.queue();
        let child = q.last();
        &&& id == match s0.last() { Some(l) => (l + 1) as u64, None => 0u64 }
        &&& tf1 == (TrapFrame { x0: id, ..tf0 })
        &&& q.len() == s0.queue().len() + 1
        &&& q.drop_last() == s0.queue()
        &&& child.state == State::Ready
        &&& child.trap_frame == (TrapFrame { x0: 0, tpidr: id, ttbr0: child.trap_frame.ttbr0, ..tf0 })
        &&& child.proc_name@ == "child"@
        &&& child.allocator@ == s0.queue()[0].allocator@
        &&& match s0.queue()[0].pgdir {
            Some(ppt) => child.pgdir matches Some(cpt) && cpt.wf() && child.trap_frame.ttbr0 == cpt.root()
                && (forall|p: int| 0 <= p < USER_NPAGES ==> #[trigger] page_copied(ppt, cpt, pmm0, pmm1, p)),
            None => child.pgdir is None,
        }
    })
}

/// A child of `father`: the registers `tf` with `0` in `x0`, the state
/// `Ready`, the name "child", a copy of the father's user allocator, and,
/// when the father has an address space, a new one holding a copy of every
/// user page of it.
pub fn alloc_proc(father: &Process, tf: &TrapFrame, pmm: &mut Pmm) -> (r: Result<Process, VmError>)
    requires
        old(pmm).wf(),
        father.pgdir matches Some(pt) ==> pt.wf() && maps_held(pt, old(pmm)@),
    ensures
        final(pmm).wf(),
        final(pmm)@.alloc.npage == old(pmm)@.alloc.npage,
        final(pmm)@.alloc.base_paddr == old(pmm)@.alloc.base_paddr,
        r is Err ==> r == Err::<Process, VmError>(VmError::OutOfMemory) && final(pmm)@.alloc.n_free < 4,
        fork_frames_ok(*father, old(pmm)@) ==> r is Ok,
        r is Ok ==> child_copied(*father, r->Ok_0, old(pmm)@, final(pmm)@),
        r is Ok ==> (father.pgdir matches Some(ppt) ==> forall|va: u64| #[trigger] ppt.lookup(va) is Some
            ==> final(pmm)@.page_bytes(pte_addr(ppt.lookup(va)->Some_0)) == old(pmm)@.page_bytes(pte_addr(ppt.lookup(va)->Some_0))),
        r is Ok ==> {
            let child = r->Ok_0;
            &&& child.state == State::Ready
            &&& child.trap_frame == (TrapFrame { x0: 0, ttbr0: child.trap_frame.ttbr0, ..*tf })
            &&& child.proc_name@ == "child"@
            &&& child.allocator@ == father.allocator@
            &&& match father.pgdir {
                Some(ppt) => child.pgdir matches Some(cpt) && cpt.wf() && child.trap_frame.ttbr0 == cpt.root()
                    && (forall|p: int| 0 <= p < USER_NPAGES ==> #[trigger] page_copied(ppt, cpt, old(pmm)@, final(pmm)@, p)),
                None => child.pgdir is None && child.trap_frame.ttbr0 == tf.ttbr0,
            }
        },
{
    let mut child = Process::new();
    child.trap_frame = *tf;
    child.trap_frame.x0 = 0;
    child.set_proc_name("child");
    proof {
        reveal_strlit("child");
    }
    child.allocator = father.allocator.copy();
    match &father.pgdir {
        Some(ppt) => {
            let mut cpt = match PageTable::new(pmm) {
                Ok(pt) => pt,
                Err(e) => {
                    return Err(e);
                },
            };
            let ghost pmm1 = pmm@;
            match copy_address_space(pmm, ppt, &mut cpt) {
                Ok(()) => {
                    proof {
                        assert forall|va: u64| #[trigger] ppt.lookup(va) is Some && user_only(*ppt) implies copied_at(*ppt, cpt, old(pmm)@, pmm@, va) by {
                            assert(copied_at(*ppt, cpt, pmm1, pmm@, va));
                            assert(pmm1.page_bytes(pte_addr(ppt.lookup(va)->Some_0)) == old(pmm)@.page_bytes(pte_addr(ppt.lookup(va)->Some_0)));
                        }
                        assert forall|va: u64| #[trigger] ppt.lookup(va) is Some implies pmm@.page_bytes(pte_addr(ppt.lookup(va)->Some_0))
                            == old(pmm)@.page_bytes(pte_addr(ppt.lookup(va)->Some_0)) by {
                            assert(pmm1.page_bytes(pte_addr(ppt.lookup(va)->Some_0)) == old(pmm)@.page_bytes(pte_addr(ppt.lookup(va)->Some_0)));
                        }
                        assert forall|p: int| 0 <= p < USER_NPAGES implies #[trigger] page_copied(*ppt, cpt, old(pmm)@, pmm@, p) by {
                            assert(page_copied(*ppt, cpt, pmm1, pmm@, p));
                            let va = (p * PGSIZE) as u64;
                            if let Some(e) = ppt.lookup(va) {
                                assert(pmm1.page_bytes(pte_addr(e)) == old(pmm)@.page_bytes(pte_addr(e)));
                            }
                        }
                    }
                },
                Err(e) => {
                    return Err(e);
                },
            }
            child.trap_frame.ttbr0 = cpt.root_frame();
            child.pgdir = Some(cpt);
        },
        None => {},
    }
    Ok(child)
}

/// Duplicates the calling process, the front one, as `alloc_proc` does; the
/// child gets the next id and joins the back of the queue, and the caller
/// gets the child's id in `x0`. Returns that id.
pub fn do_fork(sched: &mut Scheduler, pmm: &mut Pmm, tf: &mut TrapFrame) -> (r: Result<Id, VmError>)
    requires
        old(sched).wf(),
        old(sched).queue().len() > 0,
        old(pmm).wf(),
        old(sched).queue()[0].pgdir matches Some(pt) ==> pt.wf() && maps_held(pt, old(pmm)@),
        old(sched).last() != Some(u64::MAX),
    ensures
        final(sched).wf(),
        final(pmm).wf(),
        final(pmm)@.alloc.npage == old(pmm)@.alloc.npage,
        final(pmm)@.alloc.base_paddr == old(pmm)@.alloc.base_paddr,
        fork_effect(r, *old(sched), *final(sched), *old(tf), *final(tf), old(pmm)@, final(pmm)@),
{
    let id = match sched.last_id() {
        Some(l) => l + 1,
        None => 0,
    };
    let current = sched.pop_current();
    let child = match alloc_proc(&current, tf, pmm) {
        Ok(c) => c,
        Err(e) => {
            sched.push_current_front(current);
            proof {
                assert(sched.queue() =~= old(sched).queue());
            }
            return Err(e);
        },
    };
    tf.x0 = id;
    sched.push_current_front(current);
    proof {
        assert(sched.queue() =~= old(sched).queue());
    }
    let ghost ch = child;
    let r = sched.add(child);
    proof {
        let q = sched.queue();
        assert(q[0] == old(sched).queue()[0]);
        assert(q == old(sched).queue().push(Process { trap_frame: TrapFrame { tpidr: id, ..ch.trap_frame }, ..ch }));
        assert(q.drop_last() =~= old(sched).queue());
    }
    match r {
        Some(cid) => Ok(cid),
        None => {
            proof {
                assert(false);
            }
            Err(VmError::OutOfMemory)
        },
    }
}

/// The process that `do_exec` queues for `binary` is `p`: it has the
/// process number `pid`, is `Ready`, carries the id `id`, has a well-formed
/// address space whose mappings hold references on frames of `pmm`, and its
/// stack pointer is at `USTACKTOP`.
pub open spec fn exec_process(p: Process, pid: u64, id: u64, pmm: crate::pmm::PmmView) -> bool {
    &&& p.pid == pid
    &&& p.state == State::Ready
    &&& p.trap_frame.tpidr == id
    &&& p.trap_frame.sp == crate::page::USTACKTOP
    &&& p.pgdir matches Some(pt) && pt.wf() && maps_held(pt, pmm) && user_only(pt)
}

/// What `do_exec` leaves when it succeeds: a process `p` as `exec_process`
/// describes, with the id `id`, either running alone (with
/// `r` its id and its registers in `tf`) when the queue `q` was empty, or
/// queued at the back with the caller switched out to wait for it.
pub open spec fn exec_outcome(
    q: Seq<Process>,
    id: Id,
    tf0: TrapFrame,
    pid: u64,
    now: u64,
    r: Option<Id>,
    q1: Seq<Process>,
    tf1: TrapFrame,
    pmm: crate::pmm::PmmView,
) -> bool {
    exists|p: Process|
        #[trigger] exec_process(p, pid, id, pmm) && (q.len() == 0 ==> r == Some(id) && q1 == seq![Process { state: State::Running, ..p }]
            && tf1 == p.trap_frame) && (q.len() > 0 ==> q1 == scanned(
            requeued(q.push(p), tf0, State::Waiting(WaitReason::Exit { pid })),
            now,
        ))
}

/// Starts the executable image `binary` as a new process with the next
/// process number from `counter` and the next id. With no process queued it
/// becomes the only one and runs at once: its registers go into `tf`.
/// Otherwise it joins the back of the queue, and the caller is switched out
/// to wait until the new process has finished. Returns the id switched to,
/// or the error of `load_icode` (`-2` for an image that `image_ok`
/// rejects), with the scheduler and `tf` unchanged.
#[verifier::rlimit(100)]
pub fn do_exec(sched: &mut Scheduler, pmm: &mut Pmm, tf: &mut TrapFrame, binary: &[u8], counter: &mut u64, now: u64) -> (r: Result<Option<Id>, i32>)
    requires
        old(sched).wf(),
        old(pmm).wf(),
        *old(counter) < u64::MAX,
        old(sched).last() != Some(u64::MAX),
    ensures
        final(sched).wf(),
        final(pmm).wf(),
        *final(counter) == *old(counter) + 1,
        r is Err ==> *final(sched) == *old(sched) && *final(tf) == *old(tf),
        r is Err ==> r == Err::<Option<Id>, i32>(-1i32) || r == Err::<Option<Id>, i32>(-2i32) || r == Err::<Option<Id>, i32>(-3i32),
        r == Err::<Option<Id>, i32>(-2i32) <==> !crate::loader::image_ok(binary@),
        r == Err::<Option<Id>, i32>(-1i32) <==> crate::loader::image_ok(binary@) && old(pmm)@.alloc.n_free == 0,
        r == Err::<Option<Id>, i32>(-3i32) ==> final(pmm)@.alloc.n_free < 4,
        crate::loader::image_ok(binary@) && old(pmm)@.alloc.n_free >= crate::loader::load_frames(binary@) ==> r is Ok,
        r is Ok ==> exec_outcome(old(sched).queue(), match old(sched).last() { Some(l) => (l + 1) as u64, None => 0u64 }, *old(tf), *old(counter), now, r->Ok_0,
            final(sched).queue(), *final(tf), final(pmm)@),
{
    let process = match new_process(pmm, binary, counter) {
        Ok(p) => p,
        Err(e) => {
            return Err(e);
        },
    };
    let ghost loaded = process;
    let ghost id = match old(sched).last() { Some(l) => (l + 1) as u64, None => 0u64 };
    let ghost queued = Process { trap_frame: TrapFrame { tpidr: id, ..loaded.trap_frame }, ..loaded };
    proof {
        assert(exec_process(queued, *old(counter), id, pmm@));
    }
    if sched.is_empty() {
        let id2 = run_first(sched, tf, process);
        proof {
            assert(sched.queue() == seq![Process { state: State::Running, ..queued }]);
            assert(exec_process(queued, *old(counter), id, pmm@));
            assert(*tf == queued.trap_frame);
            assert(id2 == id);
            assert(exec_outcome(old(sched).queue(), match old(sched).last() { Some(l) => (l + 1) as u64, None => 0u64 }, *old(tf), *old(counter), now, Some(id2), sched.queue(), *tf, pmm@)) by {
                let id0 = match old(sched).last() { Some(l) => (l + 1) as u64, None => 0u64 };
                assert(id0 == id);
                assert(exec_process(queued, *old(counter), id0, pmm@));
                assert(Some(id2) == Some(id0));
                assert(sched.queue() == seq![Process { state: State::Running, ..queued }]);
            }
        }
        Ok(Some(id2))
    } else {
        let r = queue_and_wait(sched, tf, process, now);
        proof {
            assert(exec_process(queued, *old(counter), id, pmm@));
            assert(sched.queue() == scanned(requeued(old(sched).queue().push(queued), *old(tf),
                State::Waiting(WaitReason::Exit { pid: *old(counter) })), now));
            assert(exec_outcome(old(sched).queue(), match old(sched).last() { Some(l) => (l + 1) as u64, None => 0u64 }, *old(tf), *old(counter), now, r, sched.queue(), *tf, pmm@)) by {
                let id0 = match old(sched).last() { Some(l) => (l + 1) as u64, None => 0u64 };
                assert(id0 == id);
                assert(exec_process(queued, *old(counter), id0, pmm@));
            }
        }
        Ok(r)
    }
}

/// A new process with the next process number from `counter`, loaded from
/// `binary`; the errors of `load_icode`.
fn new_process(pmm: &mut Pmm, binary: &[u8], counter: &mut u64) -> (r: Result<Process, i32>)
    requires
        old(pmm).wf(),
        *old(counter) < u64::MAX,
    ensures
        final(pmm).wf(),
        *final(counter) == *old(counter) + 1,
        r is Err ==> r == Err::<Process, i32>(-1i32) || r == Err::<Process, i32>(-2i32) || r == Err::<Process, i32>(-3i32),
        r == Err::<Process, i32>(-2i32) <==> !crate::loader::image_ok(binary@),
        r == Err::<Process, i32>(-1i32) <==> crate::loader::image_ok(binary@) && old(pmm)@.alloc.n_free == 0,
        r == Err::<Process, i32>(-3i32) ==> final(pmm)@.alloc.n_free < 4,
        crate::loader::image_ok(binary@) && old(pmm)@.alloc.n_free >= crate::loader::load_frames(binary@) ==> r is Ok,
        r is Ok ==> exec_process(r->Ok_0, *old(counter), r->Ok_0.trap_frame.tpidr, final(pmm)@),
{
    let mut p = Process::new();
    p.proc_init(counter);
    match p.load_icode(pmm, binary) {
        Ok(_) => Ok(p),
        Err(e) => Err(e),
    }
}

/// Queues `p` on an empty queue and runs it: its registers go into `tf`.
fn run_first(sched: &mut Scheduler, tf: &mut TrapFrame, p: Process) -> (id: Id)
    requires
        old(sched).wf(),
        old(sched).queue().len() == 0,
        old(sched).last() != Some(u64::MAX),
        crate::process::state_wf(p.state),
    ensures
        final(sched).wf(),
        id == match old(sched).last() { Some(l) => (l + 1) as u64, None => 0u64 },
        final(sched).queue() == seq![Process { state: State::Running, trap_frame: TrapFrame { tpidr: id, ..p.trap_frame }, ..p }],
        *final(tf) == (TrapFrame { tpidr: id, ..p.trap_frame }),
{
    let id = match sched.add(p) {
        Some(id) => id,
        None => {
            proof {
                assert(false);
            }
            0
        },
    };
    let mut front = sched.pop_current();
    front.state = State::Running;
    *tf = front.trap_frame;
    sched.push_current_front(front);
    assert(sched.queue() =~= seq![Process { state: State::Running, trap_frame: TrapFrame { tpidr: id, ..p.trap_frame }, ..p }]);
    id
}

/// Queues `p` at the back and switches the caller out, to wait until the
/// process numbered `p.pid` has finished.
fn queue_and_wait(sched: &mut Scheduler, tf: &mut TrapFrame, p: Process, now: u64) -> (r: Option<Id>)
    requires
        old(sched).wf(),
        old(sched).queue().len() > 0,
        old(sched).last() != Some(u64::MAX),
        crate::process::state_wf(p.state),
    ensures
        final(sched).wf(),
        ({
            let id = match old(sched).last() { Some(l) => (l + 1) as u64, None => 0u64 };
            final(sched).queue() == scanned(
                requeued(old(sched).queue().push(Process { trap_frame: TrapFrame { tpidr: id, ..p.trap_frame }, ..p }), *old(tf),
                    State::Waiting(WaitReason::Exit { pid: p.pid })),
                now,
            )
        }),
{
    let pid = p.pid;
    match sched.add(p) {
        Some(_) => {},
        None => {
            proof {
                assert(false);
            }
        },
    }
    sched.switch(State::Waiting(WaitReason::Exit { pid }), tf, now)
}

/// What a system call came to.
pub enum SyscallResult {
    /// The caller was suspended or ended; the id switched to, if any.
    Switched(Option<Id>),
    /// The caller was duplicated: the child's id, or why it failed.
    Forked(Result<Id, VmError>),
    /// The caller asked for a value to be printed.
    Printed(u64),
    /// No system call has this number; the error register says so.
    Unknown,
}

/// What system call `num` does, as `handle_syscall` states it: `r` is its
/// result, `tf0`/`tf1` the caller's registers and `s0`/`s1` the scheduler
/// before and after.
pub open spec fn syscall_effect(
    num: u16,
    r: SyscallResult,
    tf0: TrapFrame,
    tf1: TrapFrame,
    s0: Scheduler,
    s1: Scheduler,
    pmm0: crate::pmm::PmmView,
    pmm1: crate::pmm::PmmView,
    now: u64,
) -> bool {
    &&& num == SYS_SLEEP ==> (r matches SyscallResult::Switched(x) && switched(s0, s1, tf0, tf1, State::Waiting(
        WaitReason::Sleep { begin: now, until: (now + (tf0.x0 as u32) * 1000) as u64 },
    ), now, x))
    &&& num == SYS_WAIT ==> (r matches SyscallResult::Switched(x) && switched(s0, s1, tf0, tf1, State::Waiting(
        WaitReason::Exit { pid: (tf0.x0 as u32) as u64 },
    ), now, x))
    &&& num == SYS_PRINT ==> r == SyscallResult::Printed(tf0.x0) && tf1 == tf0 && s1 == s0
    &&& num == SYS_FORK ==> (r matches SyscallResult::Forked(res) && fork_effect(res, s0, s1, tf0, tf1, pmm0, pmm1))
    &&& num == SYS_EXIT ==> (r is Switched && exit_effect(s0.queue(), s1.queue(), tf0, pmm1, now))
    &&& !(1 <= num <= 5) ==> r is Unknown && tf1 == (TrapFrame { x7: 1, ..tf0 }) && s1 == s0
}

/// Runs system call `num` for the calling process, the front one, whose
/// registers are in `tf`; `now` is the clock in microseconds. The argument
/// is in `x0`. A number with no system call sets the error register `x7`
/// to 1 and changes nothing else.
pub fn handle_syscall(num: u16, tf: &mut TrapFrame, sched: &mut Scheduler, pmm: &mut Pmm, now: u64) -> (r: SyscallResult)
    requires
        old(sched).wf(),
        old(pmm).wf(),
        now <= MAX_TIME,
        num == SYS_FORK || num == SYS_EXIT ==> old(sched).queue().len() > 0,
        num == SYS_FORK || num == SYS_EXIT ==> (old(sched).queue()[0].pgdir matches Some(pt) ==> pt.wf() && maps_held(pt, old(pmm)@)),
        num == SYS_FORK ==> old(sched).last() != Some(u64::MAX),
    ensures
        final(sched).wf(),
        final(pmm).wf(),
        syscall_effect(num, r, *old(tf), *final(tf), *old(sched), *final(sched), old(pmm)@, final(pmm)@, now),
{
    if num == SYS_SLEEP {
        let ms = tf.x0 as u32;
        SyscallResult::Switched(do_sleep(sched, tf, ms, now))
    } else if num == SYS_WAIT {
        let pid = (tf.x0 as u32) as u64;
        SyscallResult::Switched(do_wait(sched, tf, pid, now))
    } else if num == SYS_PRINT {
        SyscallResult::Printed(tf.x0)
    } else if num == SYS_FORK {
        SyscallResult::Forked(do_fork(sched, pmm, tf))
    } else if num == SYS_EXIT {
        SyscallResult::Switched(do_exit(sched, pmm, tf, now))
    } else {
        tf.x7 = 1;
        SyscallResult::Unknown
    }
}

/// What `do_pgfault` at `va` does to the table `pt0`, giving `pt1`, with
/// result `res`, on memory `pmm0`/`pmm1`: a valid read-only mapping is
/// refused; otherwise a fresh frame is mapped read/write, and that succeeds
/// when four frames and room for three tables are left.
pub open spec fn fault_effect(pt0: PageTable, pt1: PageTable, va: u64, res: Result<u64, VmError>, pmm0: crate::pmm::PmmView, pmm1: crate::pmm::PmmView) -> bool {
    &&& pt1.wf()
    &&& res == Err::<u64, VmError>(VmError::InvalidPermission) <==> (pt0.lookup(va) matches Some(e) && crate::vm::read_only(e))
    &&& res is Err ==> forall|va2: u64| #[trigger] pt1.lookup(va2) == pt0.lookup(va2)
    &&& !(pt0.lookup(va) matches Some(e) && crate::vm::read_only(e)) && pmm0.alloc.n_free >= 4
        && pt0.ntables() + 3 <= crate::vm::MAX_TABLES ==> res is Ok
    &&& res is Ok ==> {
        let pa = res->Ok_0;
        &&& !pmm0.in_use(pa as int)
        &&& pmm1.ref_of(pa as int) == 1
        &&& forall|va2: u64| #[trigger] pt1.lookup(va2) == if crate::vm::same_page(va2, va) {
            Some(crate::vm::leaf_entry(pa, crate::page::ATTRIB_AP_RW_ALL))
        } else {
            pt0.lookup(va2)
        }
    }
}

/// What the handling of an exception came to.
pub enum TrapOutcome {
    /// The breakpoint was stepped over.
    Resumed,
    /// A system call ran.
    Syscall(SyscallResult),
    /// A page fault of the running process was handled: the frame mapped, or
    /// why none was.
    Fault(Result<u64, VmError>),
    /// The timer fired and the scheduler switched; the id switched to.
    Switched(Option<Id>),
    /// Nothing handles the exception.
    Halted,
}

/// Handles an exception of the running process, the front one: `esr` is the
/// syndrome register, `far` the faulting address, `timer_pending` whether the
/// timer line is pending, `tf` the saved registers and `now` the clock.
/// Breakpoints are stepped over, system calls run, instruction and data
/// aborts go to the page-fault handler of the running process's address space, and a timer
/// interrupt switches to the next ready process.
pub fn handle_exception(
    info: Info,
    esr: u32,
    far: u64,
    timer_pending: bool,
    tf: &mut TrapFrame,
    sched: &mut Scheduler,
    pmm: &mut Pmm,
    now: u64,
) -> (r: TrapOutcome)
    requires
        old(sched).wf(),
        old(pmm).wf(),
        now <= MAX_TIME,
        action_of(info, esr) != TrapAction::Interrupt ==> old(sched).queue().len() > 0,
        old(sched).queue().len() > 0 ==> (old(sched).queue()[0].pgdir matches Some(pt) ==> pt.wf() && maps_held(pt, old(pmm)@)),
        old(sched).last() != Some(u64::MAX),
    ensures
        final(sched).wf(),
        final(pmm).wf(),
        action_of(info, esr) == TrapAction::Breakpoint ==> (old(tf).elr <= u64::MAX - 4 ==> r is Resumed && final(tf).elr
            == old(tf).elr + 4) && (old(tf).elr > u64::MAX - 4 ==> r is Halted),
        action_of(info, esr) matches TrapAction::Syscall(n) ==> (r matches TrapOutcome::Syscall(res) && syscall_effect(
            n,
            res,
            *old(tf),
            *final(tf),
            *old(sched),
            *final(sched),
            old(pmm)@,
            final(pmm)@,
            now,
        )),
        action_of(info, esr) matches TrapAction::PageFault { .. } ==> (r matches TrapOutcome::Fault(res) && *final(tf) == *old(tf)
            && final(sched).queue().len() == old(sched).queue().len()
            && final(sched).queue().drop_first() == old(sched).queue().drop_first()
            && match old(sched).queue()[0].pgdir {
                Some(pt0) => final(sched).queue()[0] == Process { pgdir: final(sched).queue()[0].pgdir, ..old(sched).queue()[0] }
                    && (final(sched).queue()[0].pgdir matches Some(pt1) && fault_effect(pt0, pt1, far, res, old(pmm)@, final(pmm)@)),
                None => res == Err::<u64, VmError>(VmError::NotFound) && final(sched).queue() == old(sched).queue(),
            }),
        action_of(info, esr) == TrapAction::Interrupt && timer_pending ==> (r matches TrapOutcome::Switched(x) && switched(
            *old(sched),
            *final(sched),
            *old(tf),
            *final(tf),
            State::Ready,
            now,
            x,
        )),
        action_of(info, esr) == TrapAction::Interrupt && !timer_pending ==> r is Halted && *final(sched) == *old(sched),
        action_of(info, esr) == TrapAction::Halt ==> r is Halted && *final(sched) == *old(sched) && *final(tf) == *old(tf),
{
    match classify(info, esr) {
        TrapAction::Breakpoint => {
            if tf.elr > u64::MAX - 4 {
                return TrapOutcome::Halted;
            }
            skip_breakpoint(tf);
            TrapOutcome::Resumed
        },
        TrapAction::Syscall(n) => {
            TrapOutcome::Syscall(handle_syscall(n, tf, sched, pmm, now))
        },
        TrapAction::PageFault { .. } => {
            let mut current = sched.pop_current();
            let mut pgdir = current.pgdir.take();
            let r = match &mut pgdir {
                Some(pt) => do_pgfault(pmm, pt, far),
                None => Err(VmError::NotFound),
            };
            current.pgdir = pgdir;
            proof {
                assert(state_wf(current.state));
            }
            sched.push_current_front(current);
            proof {
                assert(sched.queue().drop_first() =~= old(sched).queue().drop_first());
            }
            TrapOutcome::Fault(r)
        },
        TrapAction::Interrupt => {
            if timer_pending {
                TrapOutcome::Switched(sched.switch(State::Ready, tf, now))
            } else {
                TrapOutcome::Halted
            }
        },
        TrapAction::Halt => TrapOutcome::Halted,
    }
}

/// A process with the next process number, loaded from `image`, about to
/// run at the image's entry point at the lowest exception level.
fn boot_process(pmm: &mut Pmm, image: &[u8], counter: &mut u64) -> (r: Result<Process, i32>)
    requires
        old(pmm).wf(),
        *old(counter) < u64::MAX,
    ensures
        final(pmm).wf(),
        *final(counter) == *old(counter) + 1,
        r is Err ==> r == Err::<Process, i32>(-1i32) || r == Err::<Process, i32>(-2i32) || r == Err::<Process, i32>(-3i32),
        r == Err::<Process, i32>(-2i32) <==> !crate::loader::image_ok(image@),
        r == Err::<Process, i32>(-1i32) || r == Err::<Process, i32>(-3i32) ==> final(pmm)@.alloc.n_free < 4,
        r is Ok ==> {
            let p = r->Ok_0;
            &&& p.pid == *old(counter)
            &&& p.state == State::Ready
            &&& p.trap_frame.sp == crate::page::USTACKTOP
            &&& p.trap_frame.elr == crate::elf::elfhdr_of(image@).e_entry
            &&& p.trap_frame.spsr == 0
        },
{
    let mut p = Process::new();
    p.proc_init(counter);
    match p.load_icode(pmm, image) {
        Ok(_) => {},
        Err(e) => {
            return Err(e);
        },
    }
    match Elfhdr::parse(image) {
        Some(h) => {
            p.trap_frame.elr = h.e_entry;
        },
        None => {
            return Err(-2);
        },
    }
    p.trap_frame.spsr = 0;
    Ok(p)
}

impl GlobalScheduler {
    /// Puts a scheduler in the slot and queues a process for each of the
    /// images `first` and `second`, in that order, with the next process
    /// numbers from `counter`. Returns the registers with which the first
    /// one is to be entered; an error of `load_icode` when an image cannot
    /// be loaded.
    pub fn start(&mut self, pmm: &mut Pmm, first: &[u8], second: &[u8], counter: &mut u64) -> (r: Result<TrapFrame, i32>)
        requires
            old(pmm).wf(),
            *old(counter) < u64::MAX - 1,
        ensures
            final(pmm).wf(),
            final(self).get() matches Some(s) && s.wf(),
            r is Err ==> r == Err::<TrapFrame, i32>(-1i32) || r == Err::<TrapFrame, i32>(-2i32) || r == Err::<TrapFrame, i32>(-3i32),
            !crate::loader::image_ok(first@) ==> r == Err::<TrapFrame, i32>(-2i32),
            crate::loader::image_ok(first@) && crate::loader::image_ok(second@) && r is Err ==> final(pmm)@.alloc.n_free < 4,
            r is Ok ==> {
                let q = final(self).get()->Some_0.queue();
                &&& q.len() == 2
                &&& q[0].pid == *old(counter)
                &&& q[1].pid == *old(counter) + 1
                &&& r->Ok_0 == q[0].trap_frame
                &&& r->Ok_0.tpidr == 0
                &&& q[1].trap_frame.tpidr == 1
                &&& r->Ok_0.sp == crate::page::USTACKTOP
                &&& r->Ok_0.elr == crate::elf::elfhdr_of(first@).e_entry
            },
    {
        self.initialize();
        let p1 = match boot_process(pmm, first, counter) {
            Ok(p) => p,
            Err(e) => {
                return Err(e);
            },
        };
        let tf = TrapFrame { tpidr: 0, ..p1.trap_frame };
        self.add(p1);
        let p2 = match boot_process(pmm, second, counter) {
            Ok(p) => p,
            Err(e) => {
                return Err(e);
            },
        };
        self.add(p2);
        Ok(tf)
    }
}

} // verus!
