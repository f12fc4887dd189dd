use vstd::prelude::*;
use vstd::set_lib::*;
use crate::page::{PGSIZE, USER_PAGES};

verus! {

/// A run of free frames: `len` frames starting at frame number `base`.
#[derive(Clone, Copy, Debug, PartialEq, Eq, Structural)]
pub struct Run {
    pub base: usize,
    pub len: usize,
}

/// Failure of an allocation request.
#[derive(Clone, Copy, Debug, PartialEq, Eq, Structural)]
pub enum AllocError {
    /// No free run is long enough (or holds the requested address).
    OutOfMemory,
}

/// One past the last frame of `r`.
pub open spec fn run_end(r: Run) -> int {
    r.base + r.len
}

/// Whether frame `f` lies in `r`.
pub open spec fn run_has(r: Run, f: int) -> bool {
    r.base <= f < run_end(r)
}

/// Two runs neither overlap nor touch: at least one frame lies between them.
pub open spec fn apart(a: Run, b: Run) -> bool {
    run_end(a) < b.base || run_end(b) < a.base
}

/// The frames covered by a list of runs.
pub open spec fn runs_frames(s: Seq<Run>) -> Set<int> {
    Set::new(|f: int| exists|i: int| 0 <= i < s.len() && run_has(#[trigger] s[i], f))
}

/// The frames `b`, `b + 1`, ..., `b + n - 1`.
pub open spec fn frame_range(b: int, n: int) -> Set<int> {
    set_int_range(b, b + n)
}

/// `i` is the first run of `s` that holds at least `n` frames.
pub open spec fn first_fit(s: Seq<Run>, n: int, i: int) -> bool {
    &&& 0 <= i < s.len()
    &&& s[i].len >= n
    &&& forall|k: int| 0 <= k < i ==> #[trigger] s[k].len < n
}

/// Some run of `s` holds at least `n` frames.
pub open spec fn has_fit(s: Seq<Run>, n: int) -> bool {
    exists|i: int| 0 <= i < s.len() && #[trigger] s[i].len >= n
}

/// The list after the first `n` frames of run `i` are taken: the rest of the
/// run keeps its place in the list, or the run leaves the list when nothing is left.
pub open spec fn take_head(s: Seq<Run>, i: int, n: int) -> Seq<Run> {
    if s[i].len == n {
        s.remove(i)
    } else {
        s.update(i, Run { base: (s[i].base + n) as usize, len: (s[i].len - n) as usize })
    }
}

/// Run `i` of `s` holds the frames `t .. t + n`.
pub open spec fn holds_range(s: Seq<Run>, i: int, t: int, n: int) -> bool {
    0 <= i < s.len() && s[i].base <= t && t + n <= run_end(s[i])
}

/// The list after frames `t .. t + n` are carved out of run `i`: the part
/// before stays in the run's place, the part after follows it.
pub open spec fn carve(s: Seq<Run>, i: int, t: int, n: int) -> Seq<Run> {
    let r = s[i];
    let before = t - r.base;
    let after = run_end(r) - (t + n);
    let s1 = if after > 0 {
        s.insert(i + 1, Run { base: (t + n) as usize, len: after as usize })
    } else {
        s
    };
    if before > 0 {
        s1.update(i, Run { base: r.base, len: before as usize })
    } else {
        s1.remove(i)
    }
}

/// Some run of `s` starts at frame `e`.
pub open spec fn starts_at(s: Seq<Run>, e: int) -> bool {
    exists|i: int| 0 <= i < s.len() && #[trigger] s[i].base == e
}

/// A run of `s` that starts at frame `e`, when `starts_at(s, e)`.
pub open spec fn start_index(s: Seq<Run>, e: int) -> int {
    choose|i: int| 0 <= i < s.len() && #[trigger] s[i].base == e
}

/// Some run of `s` ends right before frame `f`.
pub open spec fn ends_at(s: Seq<Run>, f: int) -> bool {
    exists|j: int| 0 <= j < s.len() && run_end(#[trigger] s[j]) == f
}

/// A run of `s` that ends right before frame `f`, when `ends_at(s, f)`.
pub open spec fn end_index(s: Seq<Run>, f: int) -> int {
    choose|j: int| 0 <= j < s.len() && run_end(#[trigger] s[j]) == f
}

/// The list after frames `f .. f + n` are given back: a run that starts right
/// after them is absorbed and leaves the list; then a run that ends right
/// before them absorbs the result, or else the result goes to the front.
pub open spec fn give_back(s: Seq<Run>, f: int, n: int) -> Seq<Run> {
    let s1 = if starts_at(s, f + n) { s.remove(start_index(s, f + n)) } else { s };
    let m = if starts_at(s, f + n) { n + s[start_index(s, f + n)].len } else { n };
    if ends_at(s1, f) {
        let j = end_index(s1, f);
        s1.update(j, Run { base: s1[j].base, len: (s1[j].len + m) as usize })
    } else {
        s1.insert(0, Run { base: f as usize, len: m as usize })
    }
}

/// The frames of one run.
pub open spec fn run_frames(r: Run) -> Set<int> {
    frame_range(r.base as int, r.len as int)
}

/// Runs of `s` are pairwise apart.
pub open spec fn pairwise_apart(s: Seq<Run>) -> bool {
    forall|i: int, j: int|
        0 <= i < s.len() && 0 <= j < s.len() && i != j ==> apart(#[trigger] s[i], #[trigger] s[j])
}

proof fn lemma_frames_remove(s: Seq<Run>, i: int)
    requires
        0 <= i < s.len(),
    ensures
        runs_frames(s.remove(i)) + run_frames(s[i]) == runs_frames(s),
        pairwise_apart(s) ==> runs_frames(s.remove(i)).disjoint(run_frames(s[i])),
{
    let t = s.remove(i);
    assert forall|f: int| #[trigger] runs_frames(s).contains(f) implies (runs_frames(t) + run_frames(s[i])).contains(f) by {
        let k = choose|k: int| 0 <= k < s.len() && run_has(#[trigger] s[k], f);
        if k < i {
            assert(t[k] == s[k]);
        } else if k > i {
            assert(t[k - 1] == s[k]);
        }
    }
    assert forall|f: int| #[trigger] runs_frames(t).contains(f) implies runs_frames(s).contains(f) by {
        let k = choose|k: int| 0 <= k < t.len() && run_has(#[trigger] t[k], f);
        if k < i {
            assert(t[k] == s[k]);
        } else {
            assert(t[k] == s[k + 1]);
        }
    }
    assert forall|f: int| #[trigger] run_frames(s[i]).contains(f) implies runs_frames(s).contains(f) by {
        assert(run_has(s[i], f));
    }
    assert(runs_frames(t) + run_frames(s[i]) =~= runs_frames(s));
    if pairwise_apart(s) {
        assert forall|f: int| #[trigger] runs_frames(t).contains(f) implies !run_frames(s[i]).contains(f) by {
            let k = choose|k: int| 0 <= k < t.len() && run_has(#[trigger] t[k], f);
            if k < i {
                assert(t[k] == s[k]);
                assert(apart(s[k], s[i]));
            } else {
                assert(t[k] == s[k + 1]);
                assert(apart(s[k + 1], s[i]));
            }
        }
    }
}

proof fn lemma_frames_update(s: Seq<Run>, i: int, r: Run)
    requires
        0 <= i < s.len(),
    ensures
        runs_frames(s.update(i, r)) == runs_frames(s.remove(i)) + run_frames(r),
{
    let t = s.update(i, r);
    let u = s.remove(i);
    assert forall|f: int| #[trigger] runs_frames(t).contains(f) implies (runs_frames(u) + run_frames(r)).contains(f) by {
        let k = choose|k: int| 0 <= k < t.len() && run_has(#[trigger] t[k], f);
        if k < i {
            assert(u[k] == s[k]);
        } else if k > i {
            assert(u[k - 1] == s[k]);
        }
    }
    assert forall|f: int| #[trigger] runs_frames(u).contains(f) implies runs_frames(t).contains(f) by {
        let k = choose|k: int| 0 <= k < u.len() && run_has(#[trigger] u[k], f);
        if k < i {
            assert(t[k] == s[k]);
        } else {
            assert(t[k + 1] == s[k + 1]);
        }
    }
    assert forall|f: int| #[trigger] run_frames(r).contains(f) implies runs_frames(t).contains(f) by {
        assert(run_has(t[i], f));
    }
    assert(runs_frames(t) =~= runs_frames(u) + run_frames(r));
}

proof fn lemma_frames_insert(s: Seq<Run>, i: int, r: Run)
    requires
        0 <= i <= s.len(),
    ensures
        runs_frames(s.insert(i, r)) == runs_frames(s) + run_frames(r),
{
    let t = s.insert(i, r);
    assert forall|f: int| #[trigger] runs_frames(t).contains(f) implies (runs_frames(s) + run_frames(r)).contains(f) by {
        let k = choose|k: int| 0 <= k < t.len() && run_has(#[trigger] t[k], f);
        if k < i {
            assert(t[k] == s[k]);
        } else if k > i {
            assert(t[k] == s[k - 1]);
        }
    }
    assert forall|f: int| #[trigger] runs_frames(s).contains(f) implies runs_frames(t).contains(f) by {
        let k = choose|k: int| 0 <= k < s.len() && run_has(#[trigger] s[k], f);
        if k < i {
            assert(t[k] == s[k]);
        } else {
            assert(t[k + 1] == s[k]);
        }
    }
    assert forall|f: int| #[trigger] run_frames(r).contains(f) implies runs_frames(t).contains(f) by {
        assert(run_has(t[i], f));
    }
    assert(runs_frames(t) =~= runs_frames(s) + run_frames(r));
}

/// What an allocator holds: its free list in list order, the count of free
/// frames, the number of frames in its arena, and the address of frame 0.
pub struct AllocatorView {
    pub runs: Seq<Run>,
    pub n_free: nat,
    pub npage: nat,
    pub base_paddr: nat,
}

/// `va` rounded down to its page.
pub open spec fn page_floor(va: u64) -> int {
    va / PGSIZE * PGSIZE
}

impl AllocatorView {
    /// Frame of the arena that holds the address `a`.
    pub open spec fn frame_of(self, a: int) -> int {
        (a - self.base_paddr) / (PGSIZE as int)
    }

    /// The free frames.
    pub open spec fn free_frames(self) -> Set<int> {
        runs_frames(self.runs)
    }

    /// The frames of the arena that are handed out.
    pub open spec fn used_frames(self) -> Set<int> {
        set_int_range(0, self.npage as int).difference(self.free_frames())
    }

    /// Address of frame `f`.
    pub open spec fn addr_of(self, f: int) -> int {
        self.base_paddr + f * PGSIZE
    }

    /// Well-formed: runs are non-empty, inside the arena, pairwise apart
    /// (no overlap, and no two runs touch without being merged), the free
    /// count is the number of free frames, and every address of the arena is
    /// a page-aligned machine word.
    pub open spec fn wf(self) -> bool {
        &&& self.base_paddr % (PGSIZE as nat) == 0
        &&& self.npage <= usize::MAX
        &&& self.base_paddr + self.npage * PGSIZE <= u64::MAX
        &&& forall|i: int| 0 <= i < self.runs.len() ==> #[trigger] self.runs[i].len > 0
            && run_end(self.runs[i]) <= self.npage
        &&& pairwise_apart(self.runs)
        &&& self.n_free == self.free_frames().len()
    }
}

/// A first-fit allocator of page frames over one arena, with split on
/// allocation and coalescing on release.
pub struct Allocator {
    runs: Vec<Run>,
    n_free: usize,
    npage: usize,
    base_paddr: u64,
}

impl View for Allocator {
    type V = AllocatorView;

    closed spec fn view(&self) -> AllocatorView {
        AllocatorView {
            runs: self.runs@,
            n_free: self.n_free as nat,
            npage: self.npage as nat,
            base_paddr: self.base_paddr as nat,
        }
    }
}

/// The frames of a well-formed list are finite and inside the arena.
proof fn lemma_frames_in_arena(v: AllocatorView)
    requires
        v.wf(),
    ensures
        v.free_frames().subset_of(set_int_range(0, v.npage as int)),
        v.free_frames().finite(),
        v.free_frames().len() <= v.npage,
{
    lemma_int_range(0, v.npage as int);
    assert forall|f: int| v.free_frames().contains(f) implies set_int_range(
        0,
        v.npage as int,
    ).contains(f) by {
        let i = choose|i: int| 0 <= i < v.runs.len() && run_has(#[trigger] v.runs[i], f);
        assert(v.runs[i].len > 0);
    }
    lemma_len_subset(v.free_frames(), set_int_range(0, v.npage as int));
}

/// In a well-formed list a free frame belongs to exactly one run.
proof fn lemma_unique_run(v: AllocatorView, i: int, j: int, f: int)
    requires
        v.wf(),
        0 <= i < v.runs.len(),
        0 <= j < v.runs.len(),
        run_has(v.runs[i], f),
        run_has(v.runs[j], f),
    ensures
        i == j,
{
    if i != j {
        assert(apart(v.runs[i], v.runs[j]));
    }
}

/// A run of a well-formed list lies among the free frames, so it is no longer
/// than the free count.
proof fn lemma_run_within_free(v: AllocatorView, i: int)
    requires
        v.wf(),
        0 <= i < v.runs.len(),
    ensures
        run_frames(v.runs[i]).subset_of(v.free_frames()),
        v.runs[i].len <= v.n_free,
{
    lemma_frames_in_arena(v);
    lemma_int_range(v.runs[i].base as int, run_end(v.runs[i]));
    assert forall|f: int| #[trigger] run_frames(v.runs[i]).contains(f) implies v.free_frames().contains(f) by {
        assert(run_has(v.runs[i], f));
    }
    lemma_len_subset(run_frames(v.runs[i]), v.free_frames());
}

/// Carving frames `t .. t + n` out of run `i` keeps the list well-formed and
/// moves exactly those frames from free to used.
proof fn lemma_carve(old_v: AllocatorView, i: int, t: int, n: int)
    requires
        old_v.wf(),
        holds_range(old_v.runs, i, t, n),
        n > 0,
    ensures
        ({
            let w = AllocatorView { runs: carve(old_v.runs, i, t, n), n_free: (old_v.n_free - n) as nat, ..old_v };
            &&& w.wf()
            &&& w.used_frames() == old_v.used_frames() + frame_range(t, n)
            &&& n <= old_v.n_free
        }),
{
    let s = old_v.runs;
    let r = s[i];
    let before = t - r.base;
    let after = run_end(r) - (t + n);
    let taken = frame_range(t, n);
    let tt = carve(s, i, t, n);
    let ii = i;
    let b_run = Run { base: r.base, len: before as usize };
    let a_run = Run { base: (t + n) as usize, len: after as usize };
    lemma_run_within_free(old_v, ii);
    lemma_frames_in_arena(old_v);
    lemma_frames_remove(s, ii);
    lemma_int_range(t, t + n);
    lemma_int_range(r.base as int, run_end(r));
    // every new run lies inside an old one; the two pieces of run `i` are apart
    assert(b_run.len == before && a_run.len == after && a_run.base == t + n && b_run.base == r.base);
    if before > 0 && after > 0 {
        assert(tt == s.insert(ii + 1, a_run).update(ii, b_run));
        assert(tt.len() == s.len() + 1);
        assert forall|a: int| 0 <= a < tt.len() implies #[trigger] tt[a] == (if a < ii { s[a] } else if a == ii { b_run } else if a == ii + 1 { a_run } else { s[a - 1] }) by {}
        assert forall|a: int, b: int| 0 <= a < tt.len() && 0 <= b < tt.len() && a != b implies apart(
            #[trigger] tt[a],
            #[trigger] tt[b],
        ) by {
            let oa = if a < ii { a } else if a <= ii + 1 { ii } else { a - 1 };
            let ob = if b < ii { b } else if b <= ii + 1 { ii } else { b - 1 };
            if oa != ob {
                assert(apart(s[oa], s[ob]));
            }
        }
        assert forall|a: int| 0 <= a < tt.len() implies #[trigger] tt[a].len > 0 && run_end(tt[a])
            <= old_v.npage by {
            let oa = if a < ii { a } else if a <= ii + 1 { ii } else { a - 1 };
            assert(run_end(s[oa]) <= old_v.npage);
        }
    } else if before > 0 {
        assert(tt == s.update(ii, b_run));
        assert forall|a: int, b: int| 0 <= a < tt.len() && 0 <= b < tt.len() && a != b implies apart(
            #[trigger] tt[a],
            #[trigger] tt[b],
        ) by {
            assert(apart(s[a], s[b]));
        }
        assert forall|a: int| 0 <= a < tt.len() implies #[trigger] tt[a].len > 0 && run_end(tt[a])
            <= old_v.npage by {
            assert(run_end(s[a]) <= old_v.npage);
        }
    } else if after > 0 {
        assert(tt == s.insert(ii + 1, a_run).remove(ii));
        assert(tt.len() == s.len());
        assert forall|a: int| 0 <= a < tt.len() implies #[trigger] tt[a] == (if a == ii { a_run } else { s[a] }) by {}
        assert forall|a: int, b: int| 0 <= a < tt.len() && 0 <= b < tt.len() && a != b implies apart(
            #[trigger] tt[a],
            #[trigger] tt[b],
        ) by {
            assert(apart(s[a], s[b]));
        }
        assert forall|a: int| 0 <= a < tt.len() implies #[trigger] tt[a].len > 0 && run_end(tt[a])
            <= old_v.npage by {
            assert(run_end(s[a]) <= old_v.npage);
        }
    } else {
        assert(tt == s.remove(ii));
        assert forall|a: int| 0 <= a < tt.len() implies #[trigger] tt[a] == (if a < ii { s[a] } else { s[a + 1] }) by {}
        assert forall|a: int, b: int| 0 <= a < tt.len() && 0 <= b < tt.len() && a != b implies apart(
            #[trigger] tt[a],
            #[trigger] tt[b],
        ) by {
            let oa = if a < ii { a } else { a + 1 };
            let ob = if b < ii { b } else { b + 1 };
            assert(apart(s[oa], s[ob]));
        }
        assert forall|a: int| 0 <= a < tt.len() implies #[trigger] tt[a].len > 0 && run_end(tt[a])
            <= old_v.npage by {
            let oa = if a < ii { a } else { a + 1 };
            assert(run_end(s[oa]) <= old_v.npage);
        }
    }
    // free frames lose exactly the carved range
    let rest = runs_frames(s.remove(ii));
    assert(run_frames(r) =~= run_frames(b_run) + taken + run_frames(a_run));
    if after > 0 {
        lemma_frames_insert(s, ii + 1, a_run);
        let s1 = s.insert(ii + 1, a_run);
        assert(s1.remove(ii) =~= s.remove(ii).insert(ii, a_run));
        lemma_frames_insert(s.remove(ii), ii, a_run);
        if before > 0 {
            lemma_frames_update(s1, ii, b_run);
            assert(runs_frames(tt) =~= rest + run_frames(a_run) + run_frames(b_run));
        } else {
            assert(tt =~= s.remove(ii).insert(ii, a_run));
            assert(run_frames(b_run) =~= Set::<int>::empty());
        }
    } else {
        assert(run_frames(a_run) =~= Set::<int>::empty());
        if before > 0 {
            lemma_frames_update(s, ii, b_run);
        } else {
            assert(run_frames(b_run) =~= Set::<int>::empty());
        }
    }
    let w = AllocatorView { runs: tt, n_free: (old_v.n_free - n) as nat, ..old_v };
assert(w.free_frames() =~= old_v.free_frames().difference(taken));
    assert(taken.subset_of(old_v.free_frames())) by {
        assert forall|f: int| #[trigger] taken.contains(f) implies old_v.free_frames().contains(f) by {
            assert(run_has(s[ii], f));
        }
    }
    lemma_set_difference_len(old_v.free_frames(), taken);
    assert(old_v.free_frames().intersect(taken) =~= taken);
    assert(w.used_frames() =~= old_v.used_frames() + taken);

}

/// A run whose frames are all free does not meet a range of used frames.
proof fn lemma_run_misses_used(v: AllocatorView, k: int, f: int, n: int)
    requires
        v.wf(),
        0 <= k < v.runs.len(),
        frame_range(f, n).disjoint(v.free_frames()),
        n > 0,
    ensures
        run_end(v.runs[k]) <= f || v.runs[k].base >= f + n,
{
    let r = v.runs[k];
    if !(run_end(r) <= f || r.base >= f + n) {
        let g = if r.base <= f { f } else { r.base as int };
        assert(run_has(v.runs[k], g));
        assert(v.free_frames().contains(g));
        assert(frame_range(f, n).contains(g));
    }
}

/// Giving back frames `f .. f + n`, none of them free, keeps the list
/// well-formed and makes exactly those frames free again.
proof fn lemma_give_back(v: AllocatorView, f: int, n: int)
    requires
        v.wf(),
        n > 0,
        0 <= f,
        f + n <= v.npage,
        frame_range(f, n).disjoint(v.free_frames()),
    ensures
        ({
            let w = AllocatorView { runs: give_back(v.runs, f, n), n_free: v.n_free + n as nat, ..v };
            &&& w.wf()
            &&& w.free_frames() == v.free_frames() + frame_range(f, n)
            &&& w.used_frames() == v.used_frames().difference(frame_range(f, n))
        }),
{
    let s = v.runs;
    let range = frame_range(f, n);
    lemma_frames_in_arena(v);
    lemma_int_range(f, f + n);
    assert forall|k: int| 0 <= k < s.len() implies run_end(#[trigger] s[k]) <= f || s[k].base >= f + n by {
        lemma_run_misses_used(v, k, f, n);
    }
    let has_succ = starts_at(s, f + n);
    let si = start_index(s, f + n);
    let s1 = if has_succ { s.remove(si) } else { s };
    let m: int = if has_succ { n + s[si].len } else { n };
    // the list without the successor
    if has_succ {
        lemma_frames_remove(s, si);
        assert forall|k: int| 0 <= k < s1.len() implies #[trigger] s1[k] == (if k < si { s[k] } else { s[k + 1] }) by {}
        assert forall|a: int, b: int| 0 <= a < s1.len() && 0 <= b < s1.len() && a != b implies apart(
            #[trigger] s1[a],
            #[trigger] s1[b],
        ) by {
            let oa = if a < si { a } else { a + 1 };
            let ob = if b < si { b } else { b + 1 };
            assert(apart(s[oa], s[ob]));
        }
        assert forall|k: int| 0 <= k < s1.len() implies #[trigger] s1[k].len > 0 && run_end(s1[k]) <= v.npage
            && (run_end(s1[k]) <= f || s1[k].base > f + m) by {
            let ok = if k < si { k } else { k + 1 };
            assert(apart(s[ok], s[si]));
            assert(s[ok].len > 0);
        }
        assert(runs_frames(s1) + run_frames(s[si]) == runs_frames(s));
        assert(run_frames(s[si]) + range =~= frame_range(f, m));
    } else {
        assert forall|k: int| 0 <= k < s1.len() implies #[trigger] s1[k].len > 0 && run_end(s1[k]) <= v.npage
            && (run_end(s1[k]) <= f || s1[k].base > f + m) by {
            assert(s[k].base != f + n);
        }
        assert(range =~= frame_range(f, m));
    }
    assert(f + m <= v.npage) by {
        if has_succ {
            assert(run_end(s[si]) <= v.npage);
        }
    }
    let succ_frames = if has_succ { run_frames(s[si]) } else { Set::<int>::empty() };
    assert(runs_frames(s1) + succ_frames =~= runs_frames(s)) by {
        if has_succ {
        } else {
            assert(runs_frames(s1) + succ_frames =~= runs_frames(s1));
        }
    }
    assert(succ_frames + range =~= frame_range(f, m));
    // the predecessor, if any, and the merged run
    let has_pred = ends_at(s1, f);
    let pj = end_index(s1, f);
    let t = give_back(s, f, n);
    assert(t == (if has_pred {
        s1.update(pj, Run { base: s1[pj].base, len: (s1[pj].len + m) as usize })
    } else {
        s1.insert(0, Run { base: f as usize, len: m as usize })
    }));
    let w = AllocatorView { runs: t, n_free: v.n_free + n as nat, ..v };
    if has_pred {
        let p = s1[pj];
        let mrun = Run { base: p.base, len: (p.len + m) as usize };
        assert(mrun.len == p.len + m);
        lemma_frames_update(s1, pj, mrun);
        lemma_frames_remove(s1, pj);
        assert(run_frames(mrun) =~= run_frames(p) + frame_range(f, m));
        assert(runs_frames(t) =~= runs_frames(s) + range);
        assert forall|k: int| 0 <= k < s1.len() && k != pj implies run_end(#[trigger] s1[k]) < p.base
            || s1[k].base > f + m by {
            assert(apart(s1[k], p));
        }
        assert forall|a: int, b: int| 0 <= a < t.len() && 0 <= b < t.len() && a != b implies apart(
            #[trigger] t[a],
            #[trigger] t[b],
        ) by {
            if a != pj && b != pj {
                assert(apart(s1[a], s1[b]));
            }
        }
    } else {
        let mrun = Run { base: f as usize, len: m as usize };
        lemma_frames_insert(s1, 0, mrun);
        assert(runs_frames(t) =~= runs_frames(s) + range);
        assert forall|k: int| 0 <= k < s1.len() implies run_end(#[trigger] s1[k]) < f || s1[k].base > f + m by {
            assert(run_end(s1[k]) != f);
        }
        assert forall|k: int| 0 <= k < t.len() implies #[trigger] t[k] == (if k == 0 { mrun } else { s1[k - 1] }) by {}
        assert forall|a: int, b: int| 0 <= a < t.len() && 0 <= b < t.len() && a != b implies apart(
            #[trigger] t[a],
            #[trigger] t[b],
        ) by {
            if a != 0 && b != 0 {
                assert(apart(s1[a - 1], s1[b - 1]));
            }
        }
        assert forall|k: int| 0 <= k < t.len() implies #[trigger] t[k].len > 0 && run_end(t[k]) <= v.npage by {
            if k > 0 {
                assert(s1[k - 1].len > 0);
            }
        }
    }
    lemma_set_disjoint_lens(v.free_frames(), range);
    assert(w.used_frames() =~= v.used_frames().difference(range));
}

impl Allocator {
    /// The allocator is well-formed.
    pub open spec fn wf(&self) -> bool {
        self@.wf()
    }

    /// An allocator with an empty arena.
    pub fn new() -> (r: Allocator)
        ensures
            r.wf(),
            r@.runs == Seq::<Run>::empty(),
            r@.n_free == 0,
            r@.npage == 0,
            r@.base_paddr == 0,
    {
        let r = Allocator { runs: Vec::new(), n_free: 0, npage: 0, base_paddr: 0 };
        assert(r@.free_frames() =~= Set::<int>::empty());
        r
    }

    /// An allocator that holds nothing yet.
    pub fn uninitialized() -> (r: Allocator)
        ensures
            r.wf(),
            r@.runs == Seq::<Run>::empty(),
            r@.n_free == 0,
            r@.npage == 0,
            r@.base_paddr == 0,
    {
        Allocator::new()
    }

    /// Resets the allocator to one with an empty arena.
    pub fn initialize(&mut self)
        ensures
            final(self).wf(),
            final(self)@.runs == Seq::<Run>::empty(),
            final(self)@.n_free == 0,
            final(self)@.npage == 0,
            final(self)@.base_paddr == 0,
    {
        *self = Allocator::new();
    }

    /// An allocator of an arena of `npage` frames whose first frame is at
    /// address `begin`, all free, as one run.
    pub fn with_arena(npage: usize, begin: u64) -> (r: Allocator)
        requires
            begin % PGSIZE == 0,
            begin + npage * PGSIZE <= u64::MAX,
        ensures
            r.wf(),
            r@.runs == (if npage > 0 {
                seq![Run { base: 0, len: npage }]
            } else {
                Seq::<Run>::empty()
            }),
            r@.n_free == npage,
            r@.npage == npage,
            r@.base_paddr == begin,
            r@.free_frames() == frame_range(0, npage as int),
    {
        let mut runs: Vec<Run> = Vec::new();
        if npage > 0 {
            runs.push(Run { base: 0, len: npage });
        }
        let r = Allocator { runs, n_free: npage, npage, base_paddr: begin };
        proof {
            lemma_int_range(0, npage as int);
            if npage > 0 {
                assert forall|f: int| frame_range(0, npage as int).contains(f) implies r@.free_frames().contains(f) by {
                    assert(run_has(r.runs@[0], f));
                }
            }
            assert(r@.free_frames() =~= frame_range(0, npage as int));
        }
        r
    }

    /// Adds the `npage` free frames that start at address `begin` to the
    /// arena. They lie at or above its end (for an empty arena they become
    /// its first frames); the frames of a gap between the old end and `begin`
    /// join the arena as handed out. The new frames are given back as
    /// `dealloc` does, so the free count grows by `npage` and the earlier runs
    /// stay.
    pub fn init_memmap(&mut self, npage: usize, begin: u64)
        requires
            old(self).wf(),
            begin % PGSIZE == 0,
            old(self)@.npage > 0 ==> begin >= old(self)@.addr_of(old(self)@.npage as int),
            begin + npage * PGSIZE <= u64::MAX,
            old(self)@.npage > 0 ==> (begin - old(self)@.base_paddr) / (PGSIZE as int) + npage <= usize::MAX,
        ensures
            final(self).wf(),
            final(self)@.base_paddr == if old(self)@.npage == 0 { begin as nat } else { old(self)@.base_paddr },
            final(self)@.npage == final(self)@.frame_of(begin as int) + npage,
            old(self)@.npage > 0 ==> final(self)@.frame_of(begin as int) == old(self)@.frame_of(begin as int),
            old(self)@.npage == 0 ==> final(self)@.frame_of(begin as int) == 0,
            final(self)@.n_free == old(self)@.n_free + npage,
            final(self)@.runs == if npage > 0 {
                give_back(old(self)@.runs, final(self)@.frame_of(begin as int), npage as int)
            } else {
                old(self)@.runs
            },
            final(self)@.free_frames() == old(self)@.free_frames() + frame_range(final(self)@.frame_of(begin as int), npage as int),
    {
        let ghost v = self@;
        if self.npage == 0 {
            self.base_paddr = begin;
            assert(self@.free_frames() =~= v.free_frames());
        }
        proof {
            lemma_frames_in_arena(v);
            if v.npage > 0 {
                assert(begin >= self.base_paddr + self.npage * 4096);
            }
            assert((begin - self@.base_paddr) % 4096 == 0) by (nonlinear_arith)
                requires begin % 4096 == 0, self@.base_paddr % 4096 == 0, begin >= self@.base_paddr;
        }
        let first64 = (begin - self.base_paddr) / PGSIZE;
        proof {
            assert(first64 >= self.npage) by (nonlinear_arith)
                requires v.npage > 0 ==> begin >= self@.base_paddr + v.npage * 4096, first64 == (begin - self@.base_paddr) / 4096,
                    begin >= self@.base_paddr, v.npage == 0 ==> begin == self@.base_paddr, self@.npage == v.npage;
            assert(first64 + npage <= u64::MAX / 4096) by (nonlinear_arith)
                requires first64 == (begin - self@.base_paddr) / 4096, begin + npage * 4096 <= u64::MAX, begin >= self@.base_paddr;
        }
        let first = first64 as usize;
        let at = begin;
        self.npage = first + npage;
        proof {
            assert(self@.free_frames() == v.free_frames());
            assert(frame_range(first as int, npage as int).disjoint(self@.free_frames())) by {
                assert forall|f: int| #[trigger] frame_range(first as int, npage as int).contains(f) implies !self@.free_frames().contains(f) by {
                    if self@.free_frames().contains(f) {
                        assert(v.free_frames().subset_of(set_int_range(0, v.npage as int)));
                    }
                }
            }
            assert(at - self@.base_paddr == first * 4096) by (nonlinear_arith)
                requires (at - self@.base_paddr) % 4096 == 0, first == (at - self@.base_paddr) / 4096, at >= self@.base_paddr;
            assert(self@.frame_of(at as int) == first);
            assert(self@.base_paddr + self@.npage * PGSIZE <= u64::MAX) by (nonlinear_arith)
                requires self@.base_paddr + first * 4096 == begin, self@.npage == first + npage, begin + npage * 4096 <= u64::MAX;
        }
        if npage > 0 {
            self.dealloc(at, npage);
        } else {
            assert(frame_range(first as int, 0) =~= Set::<int>::empty());
            assert(self@.free_frames() =~= v.free_frames() + frame_range(first as int, 0));
        }
    }

    /// Takes the arena of a user address space: every page below the user
    /// frame-descriptor array, addressed by its user virtual address.
    pub fn init_user(&mut self)
        ensures
            final(self).wf(),
            final(self)@.npage == USER_PAGES / PGSIZE,
            final(self)@.n_free == USER_PAGES / PGSIZE,
            final(self)@.base_paddr == 0,
            final(self)@.runs == seq![Run { base: 0, len: (USER_PAGES / PGSIZE) as usize }],
            final(self)@.used_frames() == Set::<int>::empty(),
    {
        *self = Allocator::with_arena((USER_PAGES / PGSIZE) as usize, 0);
        assert(self@.used_frames() =~= Set::<int>::empty());
    }

    /// Number of free frames.
    pub fn get_n_free(&self) -> (r: usize)
        ensures
            r == self@.n_free,
    {
        self.n_free
    }

    /// Address of the first frame of the arena.
    pub fn base_paddr(&self) -> (r: u64)
        ensures
            r == self@.base_paddr,
    {
        self.base_paddr
    }

    /// Number of frames in the arena.
    pub fn npage(&self) -> (r: usize)
        ensures
            r == self@.npage,
    {
        self.npage
    }

    /// The free list, in list order.
    pub fn free_runs(&self) -> (r: Vec<Run>)
        ensures
            r@ == self@.runs,
    {
        let mut r: Vec<Run> = Vec::new();
        let mut i: usize = 0;
        while i < self.runs.len()
            invariant
                i <= self.runs@.len(),
                r@ == self.runs@.subrange(0, i as int),
            decreases self.runs@.len() - i,
        {
            r.push(self.runs[i]);
            i = i + 1;
            assert(r@ =~= self.runs@.subrange(0, i as int));
        }
        assert(r@ =~= self.runs@);
        r
    }

    /// A copy of this allocator.
    pub fn copy(&self) -> (r: Allocator)
        ensures
            r@ == self@,
    {
        Allocator { runs: self.free_runs(), n_free: self.n_free, npage: self.npage, base_paddr: self.base_paddr }
    }

    /// Address of frame `f` of the arena.
    pub fn page2addr(&self, f: usize) -> (r: u64)
        requires
            self.wf(),
            f <= self@.npage,
        ensures
            r == self@.addr_of(f as int),
    {
        proof {
            assert(f * PGSIZE <= self@.npage * PGSIZE) by (nonlinear_arith)
                requires f <= self@.npage;
        }
        self.base_paddr + (f as u64) * PGSIZE
    }

    /// Frame of the arena that holds the address `addr`.
    pub fn addr2page(&self, addr: u64) -> (r: usize)
        requires
            self.wf(),
            self@.base_paddr <= addr < self@.addr_of(self@.npage as int),
        ensures
            r == (addr - self@.base_paddr) / (PGSIZE as int),
            r < self@.npage,
    {
        let r = (addr - self.base_paddr) / PGSIZE;
        proof {
            let d = addr - self@.base_paddr;
            assert(d / 4096 < self@.npage) by (nonlinear_arith)
                requires d < self@.npage * 4096, d >= 0;
        }
        r as usize
    }

    /// First-fit allocation of `n` frames: takes the head of the first run in
    /// the free list that holds at least `n` frames and returns its address.
    pub fn alloc_pages(&mut self, n: usize) -> (r: Result<u64, AllocError>)
        requires
            old(self).wf(),
            n > 0,
        ensures
            final(self).wf(),
            final(self)@.npage == old(self)@.npage,
            final(self)@.base_paddr == old(self)@.base_paddr,
            r is Ok <==> has_fit(old(self)@.runs, n as int),
            r is Err ==> r == Err::<u64, AllocError>(AllocError::OutOfMemory) && final(self)@ == old(
                self,
            )@,
            r is Ok ==> exists|i: int|
                first_fit(old(self)@.runs, n as int, i) && r == Ok::<u64, AllocError>(
                    old(self)@.addr_of(#[trigger] old(self)@.runs[i].base as int) as u64,
                ) && final(self)@.runs == take_head(old(self)@.runs, i, n as int)
                    && final(self)@.used_frames() == old(self)@.used_frames() + frame_range(
                    old(self)@.runs[i].base as int,
                    n as int,
                ),
            r is Ok ==> final(self)@.n_free == old(self)@.n_free - n,
    {
        let mut i: usize = 0;
        while i < self.runs.len()
            invariant
                i <= self.runs@.len(),
                forall|k: int| 0 <= k < i ==> #[trigger] self.runs@[k].len < n,
            ensures
                i <= self.runs@.len(),
                forall|k: int| 0 <= k < i ==> #[trigger] self.runs@[k].len < n,
                i < self.runs@.len() ==> self.runs@[i as int].len >= n,
            decreases self.runs@.len() - i,
        {
            if self.runs[i].len >= n {
                break;
            }
            i = i + 1;
        }
        if i == self.runs.len() {
            return Err(AllocError::OutOfMemory);
        }
        let ghost old_v = self@;
        assert(run_end(old_v.runs[i as int]) <= old_v.npage);
        let r = self.runs[i];
        proof {
            lemma_run_within_free(old_v, i as int);
            lemma_frames_in_arena(old_v);
            lemma_frames_remove(old_v.runs, i as int);
            lemma_int_range(r.base as int, r.base + n);
            lemma_int_range(r.base as int, run_end(r));
        }
        if r.len == n {
            self.runs.remove(i);
        } else {
            let tail = Run { base: r.base + n, len: r.len - n };
            self.runs.set(i, tail);
            proof {
                lemma_frames_update(old_v.runs, i as int, tail);
            }
        }
        self.n_free = self.n_free - n;
        let ghost taken = frame_range(r.base as int, n as int);
        proof {
            let s = old_v.runs;
            let t = self.runs@;
            assert(t == take_head(s, i as int, n as int));
            // the new list is still pairwise apart and inside the arena
            assert forall|a: int, b: int| 0 <= a < t.len() && 0 <= b < t.len() && a != b implies apart(
                #[trigger] t[a],
                #[trigger] t[b],
            ) by {
                if r.len == n {
                    let a0 = if a < i { a } else { a + 1 };
                    let b0 = if b < i { b } else { b + 1 };
                    assert(t[a] == s[a0] && t[b] == s[b0]);
                } else {
                    if a == i {
                        assert(apart(s[i as int], s[b]));
                    } else if b == i {
                        assert(apart(s[a], s[i as int]));
                    } else {
                        assert(apart(s[a], s[b]));
                    }
                }
            }
            assert forall|a: int| 0 <= a < t.len() implies #[trigger] t[a].len > 0 && run_end(t[a])
                <= self@.npage by {
                if r.len == n {
                    let a0 = if a < i { a } else { a + 1 };
                    assert(t[a] == s[a0]);
                }
            }
            // free frames lose exactly the taken range
            if r.len == n {
                assert(run_frames(r) =~= taken);
                assert(self@.free_frames() =~= old_v.free_frames().difference(taken));
            } else {
                let tail = Run { base: (r.base + n) as usize, len: (r.len - n) as usize };
                assert(run_frames(r) =~= taken + run_frames(tail));
                assert(self@.free_frames() =~= old_v.free_frames().difference(taken));
            }
            assert(taken.subset_of(old_v.free_frames())) by {
                assert forall|f: int| #[trigger] taken.contains(f) implies old_v.free_frames().contains(f) by {
                    assert(run_has(s[i as int], f));
                }
            }
            lemma_set_difference_len(old_v.free_frames(), taken);
            assert(old_v.free_frames().intersect(taken) =~= taken);
            assert(self@.used_frames() =~= old_v.used_frames() + taken);
            assert(first_fit(s, n as int, i as int));
        }
        proof {
            assert(r.base + n <= self@.npage);
            assert(r.base * PGSIZE <= self@.npage * PGSIZE) by (nonlinear_arith)
                requires r.base <= self@.npage;
        }
        Ok(self.base_paddr + (r.base as u64) * PGSIZE)
    }

    /// Allocates the `n` frames whose first frame holds the page of `va`,
    /// carving them out of the free run that holds them all; the part of the
    /// run before them stays in its place and the part after follows it.
    pub fn alloc_at(&mut self, va: u64, n: usize) -> (r: Result<u64, AllocError>)
        requires
            old(self).wf(),
            n > 0,
        ensures
            final(self).wf(),
            final(self)@.npage == old(self)@.npage,
            final(self)@.base_paddr == old(self)@.base_paddr,
            r is Ok <==> page_floor(va) >= old(self)@.base_paddr && exists|i: int|
                holds_range(old(self)@.runs, i, old(self)@.frame_of(page_floor(va)), n as int),
            r is Err ==> r == Err::<u64, AllocError>(AllocError::OutOfMemory) && final(self)@ == old(
                self,
            )@,
            r is Ok ==> r == Ok::<u64, AllocError>(page_floor(va) as u64) && exists|i: int|
                holds_range(old(self)@.runs, i, old(self)@.frame_of(page_floor(va)), n as int)
                    && final(self)@.runs == carve(
                    old(self)@.runs,
                    i,
                    old(self)@.frame_of(page_floor(va)),
                    n as int,
                ),
            r is Ok ==> final(self)@.used_frames() == old(self)@.used_frames() + frame_range(
                old(self)@.frame_of(page_floor(va)),
                n as int,
            ),
            r is Ok ==> final(self)@.n_free == old(self)@.n_free - n,
    {
        proof {
            crate::page::lemma_pgsize_pow2();
        }
        let addr = crate::page::align_down(va, PGSIZE);
        if addr < self.base_paddr {
            proof {
                assert(addr == page_floor(va));
            }
            return Err(AllocError::OutOfMemory);
        }
        let t64 = (addr - self.base_paddr) / PGSIZE;
        if t64 >= self.npage as u64 {
            proof {
                assert forall|i: int| !holds_range(self@.runs, i, t64 as int, n as int) by {
                    if 0 <= i < self@.runs.len() {
                        assert(run_end(self@.runs[i]) <= self@.npage);
                    }
                }
            }
            return Err(AllocError::OutOfMemory);
        }
        let t = t64 as usize;
        let ghost v0 = self@;
        assert(addr == page_floor(va));
        assert(t as int == v0.frame_of(page_floor(va)));
        let mut i: usize = 0;
        while i < self.runs.len()
            invariant
                i <= self.runs@.len(),
                forall|k: int| 0 <= k < i ==> !holds_range(self.runs@, k, t as int, n as int),
            ensures
                i <= self.runs@.len(),
                forall|k: int| 0 <= k < i ==> !holds_range(self.runs@, k, t as int, n as int),
                i < self.runs@.len() ==> holds_range(self.runs@, i as int, t as int, n as int),
            decreases self.runs@.len() - i,
        {
            let r = self.runs[i];
            if r.base <= t && n <= r.len && t - r.base <= r.len - n {
                break;
            }
            i = i + 1;
        }
        if i == self.runs.len() {
            return Err(AllocError::OutOfMemory);
        }
        let ghost s = self@.runs;
        let ghost old_v = self@;
        let r = self.runs[i];
        assert(run_end(r) <= old_v.npage);
        let before = t - r.base;
        let after = r.len - before - n;
        if after > 0 {
            self.runs.insert(i + 1, Run { base: t + n, len: after });
        }
        if before > 0 {
            self.runs.set(i, Run { base: r.base, len: before });
        } else {
            self.runs.remove(i);
        }
        proof {
            lemma_carve(old_v, i as int, t as int, n as int);
            assert(holds_range(v0.runs, i as int, t as int, n as int));
        }
        self.n_free = self.n_free - n;
        proof {
            assert(addr == page_floor(va));
            assert(addr - old_v.base_paddr == t * 4096) by (nonlinear_arith)
                requires (addr - old_v.base_paddr) % 4096 == 0, t == (addr - old_v.base_paddr) / 4096,
                    addr >= old_v.base_paddr;
        }
        Ok(addr)
    }

    /// Gives back the `n` frames that start at address `addr`, none of which
    /// may be free. They merge with a free run that starts right after them
    /// and with one that ends right before them; with no run before them the
    /// result goes to the front of the free list.
    pub fn dealloc(&mut self, addr: u64, n: usize)
        requires
            old(self).wf(),
            n > 0,
            old(self)@.base_paddr <= addr,
            (addr - old(self)@.base_paddr) % (PGSIZE as int) == 0,
            old(self)@.frame_of(addr as int) + n <= old(self)@.npage,
            frame_range(old(self)@.frame_of(addr as int), n as int).disjoint(old(self)@.free_frames()),
        ensures
            final(self).wf(),
            final(self)@.npage == old(self)@.npage,
            final(self)@.base_paddr == old(self)@.base_paddr,
            final(self)@.runs == give_back(old(self)@.runs, old(self)@.frame_of(addr as int), n as int),
            final(self)@.n_free == old(self)@.n_free + n,
            final(self)@.free_frames() == old(self)@.free_frames() + frame_range(
                old(self)@.frame_of(addr as int),
                n as int,
            ),
            final(self)@.used_frames() == old(self)@.used_frames().difference(
                frame_range(old(self)@.frame_of(addr as int), n as int),
            ),
    {
        let ghost v = self@;
        let f = ((addr - self.base_paddr) / PGSIZE) as usize;
        assert(f as int == v.frame_of(addr as int));
        proof {
            lemma_give_back(v, f as int, n as int);
            lemma_frames_in_arena(v);
            lemma_int_range(f as int, f + n);
            lemma_set_disjoint_lens(v.free_frames(), frame_range(f as int, n as int));
            assert forall|g: int| #[trigger] (v.free_frames() + frame_range(f as int, n as int)).contains(g)
                implies set_int_range(0, v.npage as int).contains(g) by {
                if v.free_frames().contains(g) {
                    assert(v.free_frames().subset_of(set_int_range(0, v.npage as int)));
                }
            }
            lemma_int_range(0, v.npage as int);
            lemma_len_subset(v.free_frames() + frame_range(f as int, n as int), set_int_range(0, v.npage as int));
            assert(v.n_free + n <= v.npage);
        }
        // a run that starts right after the range
        let mut i: usize = 0;
        while i < self.runs.len()
            invariant
                self@ == v,
                f + n <= v.npage,
                v.npage <= usize::MAX,
                i <= self.runs@.len(),
                forall|k: int| 0 <= k < i ==> #[trigger] self.runs@[k].base != f + n,
            ensures
                i <= self.runs@.len(),
                forall|k: int| 0 <= k < i ==> #[trigger] self.runs@[k].base != f + n,
                i < self.runs@.len() ==> self.runs@[i as int].base == f + n,
            decreases self.runs@.len() - i,
        {
            if self.runs[i].base == f + n {
                break;
            }
            i = i + 1;
        }
        let mut m = n;
        if i < self.runs.len() {
            proof {
                let c = start_index(v.runs, f + n);
                assert(v.runs[i as int].base == f + n);
                assert(starts_at(v.runs, f + n));
                if c != i {
                    assert(apart(v.runs[c], v.runs[i as int]));
                }
                assert(run_end(v.runs[i as int]) <= v.npage);
            }
            let succ = self.runs.remove(i);
            m = n + succ.len;
        }
        let ghost s1 = self.runs@;
        assert(s1 == (if starts_at(v.runs, f + n) { v.runs.remove(start_index(v.runs, f + n)) } else { v.runs }));
        assert(m == (if starts_at(v.runs, f + n) { n + v.runs[start_index(v.runs, f + n)].len } else { n as int }));
        // a run that ends right before the range
        let mut j: usize = 0;
        while j < self.runs.len()
            invariant
                self.runs@ == s1,
                self.n_free == v.n_free,
                v.n_free + n <= v.npage,
                v.npage <= usize::MAX,
                j <= self.runs@.len(),
                forall|k: int| 0 <= k < j ==> run_end(#[trigger] self.runs@[k]) != f,
                forall|k: int| 0 <= k < self.runs@.len() ==> run_end(#[trigger] self.runs@[k]) <= v.npage,
            ensures
                j <= self.runs@.len(),
                forall|k: int| 0 <= k < j ==> run_end(#[trigger] self.runs@[k]) != f,
                j < self.runs@.len() ==> run_end(self.runs@[j as int]) == f,
            decreases self.runs@.len() - j,
        {
            if self.runs[j].base + self.runs[j].len == f {
                break;
            }
            j = j + 1;
        }
        if j < self.runs.len() {
            proof {
                let c = end_index(s1, f as int);
                assert(run_end(s1[j as int]) == f);
                assert(ends_at(s1, f as int));
                if c != j {
                    // two runs that end at the same frame overlap
                    let q = v.runs;
                    assert(s1[c].len > 0 && s1[j as int].len > 0) by {
                        if starts_at(q, f + n) {
                            let si = start_index(q, f + n);
                            let oc = if c < si { c } else { c + 1 };
                            let oj = if j < si { j as int } else { j + 1 };
                            assert(q[oc].len > 0 && q[oj].len > 0);
                        } else {
                            assert(q[c].len > 0 && q[j as int].len > 0);
                        }
                    }
                    assert(run_has(s1[c], f - 1) && run_has(s1[j as int], f - 1));
                    assert(v.free_frames().contains(f - 1)) by {
                        if starts_at(q, f + n) {
                            let si = start_index(q, f + n);
                            let oj = if j < si { j as int } else { j + 1 };
                            assert(run_has(q[oj], f - 1));
                        } else {
                            assert(run_has(q[j as int], f - 1));
                        }
                    }
                    assert(false) by {
                        if starts_at(q, f + n) {
                            let si = start_index(q, f + n);
                            let oc = if c < si { c } else { c + 1 };
                            let oj = if j < si { j as int } else { j + 1 };
                            assert(apart(q[oc], q[oj]));
                        } else {
                            assert(apart(q[c], q[j as int]));
                        }
                    }
                }
            }
            let p = self.runs[j];
            self.runs.set(j, Run { base: p.base, len: p.len + m });
        } else {
            self.runs.insert(0, Run { base: f, len: m });
        }
        self.n_free = self.n_free + n;
    }

    /// Makes this allocator the active one: its present contents are saved
    /// into `alloc_to`, and the contents of `alloc_from` take their place.
    pub fn switch_content(&mut self, alloc_from: &Allocator, alloc_to: &mut Allocator)
        ensures
            final(alloc_to)@ == old(self)@,
            final(self)@ == alloc_from@,
    {
        let saved = self.copy();
        *self = alloc_from.copy();
        *alloc_to = saved;
    }
}

/// Total length of the runs of `s`.
pub open spec fn sum_lens(s: Seq<Run>) -> nat
    decreases s.len(),
{
    if s.len() == 0 { 0 } else { sum_lens(s.drop_last()) + s.last().len as nat }
}

/// Runs that are pairwise apart cover as many frames as their lengths add up to.
proof fn lemma_sum_lens(s: Seq<Run>)
    requires
        pairwise_apart(s),
    ensures
        runs_frames(s).finite(),
        runs_frames(s).len() == sum_lens(s),
    decreases s.len(),
{
    if s.len() == 0 {
        assert(runs_frames(s) =~= Set::<int>::empty());
    } else {
        let i = s.len() - 1;
        let t = s.drop_last();
        assert(t =~= s.remove(i));
        lemma_frames_remove(s, i);
        assert forall|a: int, b: int| 0 <= a < t.len() && 0 <= b < t.len() && a != b implies apart(
            #[trigger] t[a],
            #[trigger] t[b],
        ) by {
            assert(apart(s[a], s[b]));
        }
        lemma_sum_lens(t);
        lemma_int_range(s[i].base as int, run_end(s[i]));
        lemma_set_disjoint_lens(runs_frames(t), run_frames(s[i]));
    }
}

/// Every frame of a well-formed allocator's arena is either free or handed
/// out, never both: the lengths of the free runs add up to the free count,
/// and the free count plus the number of frames handed out is the size of
/// the arena. Each allocation and release keeps the allocator well-formed,
/// so this holds after any sequence of them.
pub proof fn lemma_frames_accounted(v: AllocatorView)
    requires
        v.wf(),
    ensures
        v.free_frames().disjoint(v.used_frames()),
        v.free_frames() + v.used_frames() == set_int_range(0, v.npage as int),
        sum_lens(v.runs) == v.n_free,
        v.n_free + v.used_frames().len() == v.npage,
{
    lemma_sum_lens(v.runs);
    lemma_frames_in_arena(v);
    lemma_int_range(0, v.npage as int);
    let all = set_int_range(0, v.npage as int);
    assert(v.free_frames() + v.used_frames() =~= all);
    lemma_len_subset(v.used_frames(), all);
    lemma_set_disjoint_lens(v.free_frames(), v.used_frames());
}

/// In a well-formed allocator no frame lies in two free runs, and no free
/// frame is handed out.
pub proof fn lemma_no_overlap(v: AllocatorView)
    requires
        v.wf(),
    ensures
        forall|i: int, j: int, f: int|
            0 <= i < v.runs.len() && 0 <= j < v.runs.len() && i != j ==> !(#[trigger] run_has(
                v.runs[i],
                f,
            ) && #[trigger] run_has(v.runs[j], f)),
        forall|f: int| #[trigger] v.free_frames().contains(f) ==> !v.used_frames().contains(f),
{
    assert forall|i: int, j: int, f: int|
        0 <= i < v.runs.len() && 0 <= j < v.runs.len() && i != j implies !(#[trigger] run_has(
            v.runs[i],
            f,
        ) && #[trigger] run_has(v.runs[j], f)) by {
        assert(apart(v.runs[i], v.runs[j]));
    }
}

/// When frames `a .. b` (with `a < b`) are all free, exactly one run holds them all.
pub proof fn lemma_free_span_one_run(v: AllocatorView, a: int, b: int)
    requires
        v.wf(),
        a < b,
        forall|g: int| a <= g < b ==> #[trigger] v.free_frames().contains(g),
    ensures
        exists|i: int| #[trigger] holds_range(v.runs, i, a, b - a),
        forall|i: int, j: int|
            #[trigger] holds_range(v.runs, i, a, b - a) && #[trigger] holds_range(v.runs, j, a, b - a) ==> i == j,
{
    assert(v.free_frames().contains(a));
    let i = choose|i: int| 0 <= i < v.runs.len() && run_has(#[trigger] v.runs[i], a);
    if run_end(v.runs[i]) < b {
        let e = run_end(v.runs[i]);
        assert(v.free_frames().contains(e));
        let k = choose|k: int| 0 <= k < v.runs.len() && run_has(#[trigger] v.runs[k], e);
        assert(apart(v.runs[i], v.runs[k]));
    }
    assert(holds_range(v.runs, i, a, b - a));
    assert forall|i1: int, j1: int|
        #[trigger] holds_range(v.runs, i1, a, b - a) && #[trigger] holds_range(v.runs, j1, a, b - a) implies i1 == j1 by {
        lemma_unique_run(v, i1, j1, a);
    }
}

/// Giving back two adjacent ranges of handed-out frames, in either order,
/// leaves exactly one free run that holds both.
pub proof fn lemma_adjacent_frees_coalesce(v: AllocatorView, f: int, n1: int, n2: int)
    requires
        v.wf(),
        0 <= f,
        n1 > 0,
        n2 > 0,
        f + n1 + n2 <= v.npage,
        frame_range(f, n1 + n2).disjoint(v.free_frames()),
    ensures
        ({
            let w1 = AllocatorView { runs: give_back(v.runs, f, n1), n_free: v.n_free + n1 as nat, ..v };
            let w2 = AllocatorView { runs: give_back(w1.runs, f + n1, n2), n_free: w1.n_free + n2 as nat, ..v };
            &&& w2.wf()
            &&& exists|i: int| #[trigger] holds_range(w2.runs, i, f, n1 + n2)
            &&& forall|i: int, j: int|
                #[trigger] holds_range(w2.runs, i, f, n1 + n2) && #[trigger] holds_range(w2.runs, j, f, n1 + n2) ==> i == j
        }),
        ({
            let u1 = AllocatorView { runs: give_back(v.runs, f + n1, n2), n_free: v.n_free + n2 as nat, ..v };
            let u2 = AllocatorView { runs: give_back(u1.runs, f, n1), n_free: u1.n_free + n1 as nat, ..v };
            &&& u2.wf()
            &&& exists|i: int| #[trigger] holds_range(u2.runs, i, f, n1 + n2)
            &&& forall|i: int, j: int|
                #[trigger] holds_range(u2.runs, i, f, n1 + n2) && #[trigger] holds_range(u2.runs, j, f, n1 + n2) ==> i == j
        }),
{
    let w1 = AllocatorView { runs: give_back(v.runs, f, n1), n_free: v.n_free + n1 as nat, ..v };
    lemma_give_back(v, f, n1);
    assert(frame_range(f + n1, n2).disjoint(w1.free_frames()));
    let w2 = AllocatorView { runs: give_back(w1.runs, f + n1, n2), n_free: w1.n_free + n2 as nat, ..v };
    lemma_give_back(w1, f + n1, n2);
    assert forall|g: int| f <= g < f + n1 + n2 implies #[trigger] w2.free_frames().contains(g) by {
        if g < f + n1 {
            assert(frame_range(f, n1).contains(g));
        } else {
            assert(frame_range(f + n1, n2).contains(g));
        }
    }
    lemma_free_span_one_run(w2, f, f + n1 + n2);
    let u1 = AllocatorView { runs: give_back(v.runs, f + n1, n2), n_free: v.n_free + n2 as nat, ..v };
    lemma_give_back(v, f + n1, n2);
    assert(frame_range(f, n1).disjoint(u1.free_frames()));
    let u2 = AllocatorView { runs: give_back(u1.runs, f, n1), n_free: u1.n_free + n1 as nat, ..v };
    lemma_give_back(u1, f, n1);
    assert forall|g: int| f <= g < f + n1 + n2 implies #[trigger] u2.free_frames().contains(g) by {
        if g < f + n1 {
            assert(frame_range(f, n1).contains(g));
        } else {
            assert(frame_range(f + n1, n2).contains(g));
        }
    }
    lemma_free_span_one_run(u2, f, f + n1 + n2);
}

} // verus!
