use vstd::prelude::*;
use crate::page::{pt_index, pte_addr, PTE_V, ATTRIB_AP_RO_EL1, ATTRIB_AP_RW_ALL, ATTRIB_AP_RW_EL1, UXN, PGSIZE, PTE_ADDR, PT0X, PT1X, PT2X, PT3X, AF, ATTRINDX_NORMAL, ATTRIB_SH_INNER_SHAREABLE};
use crate::pmm::dealloc_page;
use crate::pmm::Pmm;
use crate::allocator::AllocError;

verus! {

/// Entries in one table of the page-table tree.
pub const NPTE: usize = 512;

/// Most tables that one tree can hold: an interior entry keeps the index of
/// the table it points to in its address bits.
pub const MAX_TABLES: u64 = 0x10_0000_0000;

/// Failure of a page-table operation.
#[derive(Clone, Copy, Debug, PartialEq, Eq, Structural)]
pub enum VmError {
    /// A level of the walk is missing and was not to be created.
    NotFound,
    /// No frame was left for a table or a page.
    OutOfMemory,
    /// A fault hit a valid mapping whose permissions already say how it
    /// may be used: the fault cannot be resolved.
    InvalidPermission,
}

/// An entry is valid when either of its two low bits is set.
pub open spec fn valid(e: u64) -> bool {
    e % 4 != 0
}

/// The table that an interior entry points to.
pub open spec fn child(e: u64) -> int {
    e as int / 4096
}

/// The interior entry that points to table `c`.
pub open spec fn table_entry(c: int) -> u64 {
    (c * 4096 + 3) as u64
}

/// The table reached after following `level` levels of the walk for `va`
/// from the root, if every entry on the way is valid.
pub open spec fn reach(e: Seq<u64>, va: u64, level: nat) -> Option<int>
    decreases level,
{
    if level == 0 {
        Some(0)
    } else {
        match reach(e, va, (level - 1) as nat) {
            Some(t) => {
                let s = t * 512 + pt_index(va, level - 1);
                if 0 <= s < e.len() && valid(e[s]) {
                    Some(child(e[s]))
                } else {
                    None
                }
            },
            None => None,
        }
    }
}

/// The leaf slot for `va`, if the walk reaches the last level.
pub open spec fn path(e: Seq<u64>, va: u64) -> Option<int> {
    match reach(e, va, 3) {
        Some(t) => Some(t * 512 + pt_index(va, 3)),
        None => None,
    }
}

/// The leaf entry that maps `va`, if it is valid.
pub open spec fn lookup(e: Seq<u64>, va: u64) -> Option<u64> {
    match path(e, va) {
        Some(s) => if 0 <= s < e.len() && valid(e[s]) { Some(e[s]) } else { None },
        None => None,
    }
}

/// The tree shape: table 0 is the root at level 0; a valid entry of a table
/// above the last level points to a table one level down whose parent slot
/// is that entry, and each other table is pointed to by its parent slot.
pub open spec fn tree_wf(e: Seq<u64>, levels: Seq<int>, parent: Seq<int>) -> bool {
    let n = levels.len();
    &&& n >= 1
    &&& e.len() == n * 512
    &&& parent.len() == n
    &&& levels[0] == 0
    &&& forall|k: int| 0 <= k < n ==> 0 <= #[trigger] levels[k] <= 3
    &&& forall|p: int|
        0 <= p < e.len() && levels[p / 512] < 3 && valid(#[trigger] e[p]) ==> {
            let c = child(e[p]);
            &&& 0 < c < n
            &&& levels[c] == levels[p / 512] + 1
            &&& parent[c] == p
            &&& e[p] == table_entry(c)
        }
    &&& forall|k: int|
        0 < k < n ==> {
            let p = #[trigger] parent[k];
            &&& 0 <= p < e.len()
            &&& levels[p / 512] + 1 == levels[k]
            &&& valid(e[p])
            &&& child(e[p]) == k
        }
}

/// Number of valid last-level entries among the first `n` slots.
pub open spec fn leaf_count(e: Seq<u64>, levels: Seq<int>, n: nat) -> nat
    decreases n,
{
    if n == 0 {
        0
    } else {
        let p = n - 1;
        leaf_count(e, levels, (n - 1) as nat) + if levels[p / 512] == 3 && valid(e[p]) { 1nat } else { 0nat }
    }
}

/// A 4-level translation table: 512-entry tables kept side by side, table 0
/// being the root; an interior entry holds the index of the next table.
pub struct PageTable {
    entries: Vec<u64>,
    frames: Vec<u64>,
    depth: Vec<u8>,
    levels: Ghost<Seq<int>>,
    parent: Ghost<Seq<int>>,
}

impl PageTable {
    /// The entries of all tables.
    pub closed spec fn entries(&self) -> Seq<u64> {
        self.entries@
    }

    /// The leaf entry mapping `va`, if any.
    pub open spec fn lookup(&self, va: u64) -> Option<u64> {
        lookup(self.entries(), va)
    }

    /// The leaf slot of `va`, if the walk reaches the last level.
    pub open spec fn path(&self, va: u64) -> Option<int> {
        path(self.entries(), va)
    }

    /// Well-formed tree of tables.
    pub closed spec fn wf(&self) -> bool {
        &&& tree_wf(self.entries@, self.levels@, self.parent@)
        &&& self.frames@.len() == self.levels@.len()
        &&& self.depth@.len() == self.levels@.len()
        &&& forall|k: int| 0 <= k < self.depth@.len() ==> #[trigger] self.depth@[k] as int == self.levels@[k]
        &&& self.levels@.len() <= MAX_TABLES
        &&& forall|p: int|
            0 <= p < self.entries@.len() && self.levels@[p / 512] == 3 && !valid(#[trigger] self.entries@[p])
                ==> self.entries@[p] == 0
    }
}

/// `e` grew from `e0` (whose tables number `n0`) by new tables and by
/// pointers, set in entries that were invalid, to new tables; a new table
/// holds only zeros and pointers to new tables.
pub open spec fn grown_from(e: Seq<u64>, levels: Seq<int>, e0: Seq<u64>, n0: int) -> bool {
    &&& e0.len() == n0 * 512
    &&& e.len() >= e0.len()
    &&& forall|p: int| 0 <= p < e0.len() && valid(#[trigger] e0[p]) ==> e[p] == e0[p]
    &&& forall|p: int|
        0 <= p < e0.len() && #[trigger] e[p] != e0[p] ==> valid(e[p]) && child(e[p]) >= n0 && levels[p
            / 512] < 3
    &&& forall|p: int|
        e0.len() <= p < e.len() ==> #[trigger] e[p] == 0 || (valid(e[p]) && child(e[p]) >= n0
            && levels[p / 512] < 3)
}

/// A table reached after `level` steps is at that level.
proof fn lemma_reach_level(e: Seq<u64>, levels: Seq<int>, parent: Seq<int>, va: u64, level: nat)
    requires
        tree_wf(e, levels, parent),
        level <= 3,
    ensures
        reach(e, va, level) matches Some(t) ==> 0 <= t < levels.len() && levels[t] == level,
    decreases level,
{
    if level > 0 {
        lemma_reach_level(e, levels, parent, va, (level - 1) as nat);
        if let Some(t0) = reach(e, va, (level - 1) as nat) {
            let s = t0 * 512 + pt_index(va, level - 1);
            assert(s / 512 == t0);
        }
    }
}

/// Walks that existed before still reach the same tables, and a walk that
/// reaches an old table now reached it before too.
proof fn lemma_grown_reach(
    e: Seq<u64>,
    levels: Seq<int>,
    parent: Seq<int>,
    e0: Seq<u64>,
    levels0: Seq<int>,
    parent0: Seq<int>,
    va: u64,
    level: nat,
)
    requires
        tree_wf(e, levels, parent),
        tree_wf(e0, levels0, parent0),
        grown_from(e, levels, e0, levels0.len() as int),
        level <= 3,
    ensures
        reach(e0, va, level) matches Some(t) ==> reach(e, va, level) == Some(t),
        reach(e, va, level) matches Some(t) ==> (t < levels0.len() ==> reach(e0, va, level) == Some(t)),
    decreases level,
{
    if level > 0 {
        let l1 = (level - 1) as nat;
        lemma_grown_reach(e, levels, parent, e0, levels0, parent0, va, l1);
        lemma_reach_level(e0, levels0, parent0, va, l1);
        lemma_reach_level(e, levels, parent, va, l1);
        let x = pt_index(va, level - 1);
        assert(0 <= x < 512);
        if let Some(t0) = reach(e0, va, l1) {
            let s = t0 * 512 + x;
            assert(s < e0.len()) by (nonlinear_arith)
                requires s == t0 * 512 + x, t0 < levels0.len(), x < 512, e0.len() == levels0.len() * 512;
        }
        if let Some(t1) = reach(e, va, l1) {
            let s = t1 * 512 + x;
            assert(s < e.len()) by (nonlinear_arith)
                requires s == t1 * 512 + x, t1 < levels.len(), x < 512, e.len() == levels.len() * 512;
            if t1 >= levels0.len() {
                assert(s >= e0.len()) by (nonlinear_arith)
                    requires s == t1 * 512 + x, t1 >= levels0.len(), x >= 0, e0.len() == levels0.len() * 512;
            } else {
                assert(s < e0.len()) by (nonlinear_arith)
                    requires s == t1 * 512 + x, t1 < levels0.len(), x < 512, e0.len() == levels0.len() * 512;
            }
        }
    }
}

/// Growing a tree leaves every mapping as it was.
proof fn lemma_grown_lookup(
    e: Seq<u64>,
    levels: Seq<int>,
    parent: Seq<int>,
    e0: Seq<u64>,
    levels0: Seq<int>,
    parent0: Seq<int>,
    va: u64,
)
    requires
        tree_wf(e, levels, parent),
        tree_wf(e0, levels0, parent0),
        grown_from(e, levels, e0, levels0.len() as int),
    ensures
        lookup(e, va) == lookup(e0, va),
{
    lemma_grown_reach(e, levels, parent, e0, levels0, parent0, va, 3);
    lemma_reach_level(e, levels, parent, va, 3);
    lemma_reach_level(e0, levels0, parent0, va, 3);
    let x = pt_index(va, 3);
    if let Some(t) = reach(e, va, 3) {
        let s = t * 512 + x;
        assert(s / 512 == t);
        if t >= levels0.len() {
            assert(s >= e0.len()) by (nonlinear_arith)
                requires s == t * 512 + x, t >= levels0.len(), x >= 0, e0.len() == levels0.len() * 512;
        } else {
            assert(s < e0.len()) by (nonlinear_arith)
                requires s == t * 512 + x, t < levels0.len(), x < 512, e0.len() == levels0.len() * 512;
        }
    }
    if let Some(t) = reach(e0, va, 3) {
        let s = t * 512 + x;
        assert(s < e0.len()) by (nonlinear_arith)
            requires s == t * 512 + x, t < levels0.len(), x < 512, e0.len() == levels0.len() * 512;
    }
}

/// Index of the entry of `va` in a table of level `level`.
fn index_at(va: u64, level: usize) -> (r: usize)
    requires
        level <= 3,
    ensures
        r == pt_index(va, level as int),
        r < 512,
{
    if level == 0 {
        PT0X(va) as usize
    } else if level == 1 {
        PT1X(va) as usize
    } else if level == 2 {
        PT2X(va) as usize
    } else {
        PT3X(va) as usize
    }
}

impl PageTable {
    /// A table tree of one empty root table, whose frame comes from `pmm`.
    pub fn new(pmm: &mut Pmm) -> (r: Result<PageTable, VmError>)
        requires
            old(pmm).wf(),
        ensures
            final(pmm).wf(),
            final(pmm)@.refs == old(pmm)@.refs,
            final(pmm)@.mem == old(pmm)@.mem,
            final(pmm)@.alloc.npage == old(pmm)@.alloc.npage,
            final(pmm)@.alloc.base_paddr == old(pmm)@.alloc.base_paddr,
            old(pmm)@.alloc.used_frames().subset_of(final(pmm)@.alloc.used_frames()),
            r is Err <==> old(pmm)@.alloc.n_free == 0,
            r is Err ==> r == Err::<PageTable, VmError>(VmError::OutOfMemory) && final(pmm)@ == old(pmm)@,
            r is Ok ==> r->Ok_0.wf() && r->Ok_0.ntables() == 1 && forall|va: u64| #[trigger] r->Ok_0.lookup(va) is None,
            r is Ok ==> final(pmm)@.alloc.n_free == old(pmm)@.alloc.n_free - 1,
    {
        let pa = match pmm.alloc_frame() {
            Ok(pa) => pa,
            Err(_) => {
                return Err(VmError::OutOfMemory);
            },
        };
        let mut entries: Vec<u64> = Vec::new();
        let mut i: usize = 0;
        while i < NPTE
            invariant
                i <= NPTE,
                entries@.len() == i,
                forall|k: int| 0 <= k < i ==> #[trigger] entries@[k] == 0,
            decreases NPTE - i,
        {
            entries.push(0);
            i = i + 1;
        }
        let mut frames: Vec<u64> = Vec::new();
        frames.push(pa);
        let ghost levels = seq![0int];
        let ghost parent = seq![-1int];
        let mut depth: Vec<u8> = Vec::new();
        depth.push(0);
        let pt = PageTable { entries, frames, depth, levels: Ghost(levels), parent: Ghost(parent) };
        proof {
            assert forall|va: u64| #[trigger] pt.lookup(va) is None by {
                assert(!valid(pt.entries@[pt_index(va, 0)]));
                assert(reach(pt.entries@, va, 1) is None);
                assert(reach(pt.entries@, va, 2) is None);
                assert(reach(pt.entries@, va, 3) is None);
            }
        }
        Ok(pt)
    }

    /// The leaf slot of `va` without creating anything: `NotFound` when a
    /// level on the way is missing.
    pub fn lookup_slot(&self, va: u64) -> (r: Result<usize, VmError>)
        requires
            self.wf(),
        ensures
            match self.path(va) {
                Some(s) => r is Ok && r->Ok_0 == s && 0 <= s < self.entries().len(),
                None => r == Err::<usize, VmError>(VmError::NotFound),
            },
    {
        let mut t: usize = 0;
        let mut level: usize = 0;
        while level < 3
            invariant
                self.wf(),
                level <= 3,
                reach(self.entries@, va, level as nat) == Some(t as int),
                t < self.levels@.len(),
            decreases 3 - level,
        {
            let x = index_at(va, level);
            proof {
                assert(t * 512 + x < self.entries@.len()) by (nonlinear_arith)
                    requires t < self.levels@.len(), x < 512, self.entries@.len() == self.levels@.len() * 512;
                lemma_reach_level(self.entries@, self.levels@, self.parent@, va, level as nat);
            }
            let len = self.entries.len();
            assert(t * 512 + x < len);
            let e = self.entries[t * NPTE + x];
            assert((e & 3 == 0) == (e % 4 == 0)) by (bit_vector);
            if e & PTE_V == 0 {
                proof {
                    let mut l = (level + 1) as nat;
                    assert(reach(self.entries@, va, l) is None);
                    if l < 3 {
                        assert(reach(self.entries@, va, l + 1) is None);
                        if l + 1 < 3 {
                            assert(reach(self.entries@, va, l + 2) is None);
                        }
                    }
                }
                return Err(VmError::NotFound);
            }
            proof {
                assert((t * 512 + x) / 512 == t) by (nonlinear_arith)
                    requires x < 512, x >= 0, t >= 0;
            }
            proof {
                let s = t * 512 + x;
                assert(valid(self.entries@[s]));
                assert(reach(self.entries@, va, (level + 1) as nat) == Some(child(e)));
                assert(child(e) < self.levels@.len());
            }
            t = (e / 4096) as usize;
            level = level + 1;
        }
        let x = index_at(va, 3);
        proof {
            assert(t * 512 + x < self.entries@.len()) by (nonlinear_arith)
                requires t < self.levels@.len(), x < 512, self.entries@.len() == self.levels@.len() * 512;
        }
        let len = self.entries.len();
        assert(t * 512 + x < len);
        Ok(t * NPTE + x)
    }

    /// Adds a zeroed table one level below slot `s`, whose entry was
    /// invalid, and points `s` at it.
    fn add_table(&mut self, pmm: &mut Pmm, s: usize) -> (r: Result<usize, VmError>)
        requires
            old(self).wf(),
            old(pmm).wf(),
            s < old(self).entries@.len(),
            !valid(old(self).entries@[s as int]),
            old(self).levels@[s as int / 512] < 3,
        ensures
            final(pmm).wf(),
            final(pmm)@.refs == old(pmm)@.refs,
            final(pmm)@.alloc.npage == old(pmm)@.alloc.npage,
            final(pmm)@.alloc.base_paddr == old(pmm)@.alloc.base_paddr,
            old(pmm)@.alloc.used_frames().subset_of(final(pmm)@.alloc.used_frames()),
            final(pmm)@.mem == old(pmm)@.mem,
            final(self).wf(),
            old(pmm)@.alloc.n_free > 0 && old(self).levels@.len() < MAX_TABLES ==> r is Ok,
            r is Err ==> r == Err::<usize, VmError>(VmError::OutOfMemory) && *final(self) == *old(self)
                && final(pmm)@ == old(pmm)@,
            r is Ok ==> final(pmm)@.alloc.n_free == old(pmm)@.alloc.n_free - 1,
            r is Ok ==> {
                &&& r->Ok_0 == old(self).levels@.len()
                &&& final(self).entries@[s as int] == table_entry(r->Ok_0 as int)
                &&& final(self).levels@ == old(self).levels@.push(old(self).levels@[s as int / 512] + 1)
                &&& grown_from(final(self).entries@, final(self).levels@, old(self).entries@, old(self).levels@.len() as int)
            },
    {
        if self.frames.len() as u64 >= MAX_TABLES {
            return Err(VmError::OutOfMemory);
        }
        let pa = match pmm.alloc_frame() {
            Ok(pa) => pa,
            Err(_) => {
                return Err(VmError::OutOfMemory);
            },
        };
        let c = self.frames.len();
        let ghost e0 = self.entries@;
        let ghost n0 = self.levels@.len();
        assert(c == n0);
        let mut i: usize = 0;
        while i < NPTE
            invariant
                self.levels@ == old(self).levels@,
                self.parent@ == old(self).parent@,
                self.frames@ == old(self).frames@,
                self.depth@ == old(self).depth@,
                e0 == old(self).entries@,
                self.entries@.len() == e0.len() + i,
                self.entries@.subrange(0, e0.len() as int) == e0,
                forall|k: int| e0.len() <= k < self.entries@.len() ==> #[trigger] self.entries@[k] == 0,
                i <= NPTE,
            decreases NPTE - i,
        {
            self.entries.push(0);
            i = i + 1;
            assert(self.entries@.subrange(0, e0.len() as int) =~= e0);
        }
        assert(forall|k: int| 0 <= k < e0.len() ==> #[trigger] self.entries@[k] == e0[k]) by {
            assert forall|k: int| 0 <= k < e0.len() implies #[trigger] self.entries@[k] == e0[k] by {
                assert(self.entries@.subrange(0, e0.len() as int)[k] == e0[k]);
            }
        }
        self.frames.push(pa);
        let d = self.depth[s / NPTE] + 1;
        self.depth.push(d);
        let ghost lvl = self.levels@[s as int / 512] + 1;
        self.levels = Ghost(self.levels@.push(lvl));
        self.parent = Ghost(self.parent@.push(s as int));
        let v = (c as u64) * 4096 + 3;
        self.entries.set(s, v);
        proof {
            let e = self.entries@;
            let lv = self.levels@;
            let pr = self.parent@;
            assert(v == table_entry(c as int));
            assert(v % 4 == 3);
            assert(child(v) == c) by (nonlinear_arith)
                requires v == c * 4096 + 3;
            let lv0 = old(self).levels@;
            let pr0 = old(self).parent@;
            assert(lv0.len() == n0);
            assert(e.len() == lv.len() * 512) by (nonlinear_arith)
                requires e.len() == e0.len() + 512, e0.len() == n0 * 512, lv.len() == n0 + 1;
            assert(forall|k: int| 0 <= k < n0 ==> #[trigger] lv[k] == lv0[k] && pr[k] == pr0[k]);
            assert(tree_wf(e0, lv0, pr0));
            assert forall|p: int| 0 <= p < e.len() && lv[p / 512] < 3 && valid(#[trigger] e[p]) implies {
                let cc = child(e[p]);
                &&& 0 < cc < lv.len()
                &&& lv[cc] == lv[p / 512] + 1
                &&& pr[cc] == p
                &&& e[p] == table_entry(cc)
            } by {
                if p < e0.len() {
                    assert(p / 512 < n0) by (nonlinear_arith)
                        requires p < e0.len(), e0.len() == n0 * 512, p >= 0;
                    if p != s {
                        assert(e[p] == e0[p]);
                        assert(lv[p / 512] == lv0[p / 512]);
                        assert(valid(e0[p]));
                        let cc = child(e0[p]);
                        assert(0 < cc < n0);
                        assert(lv[cc] == lv0[cc]);
                    }
                }
                if p >= e0.len() {
                    assert(p / 512 == n0) by (nonlinear_arith)
                        requires p >= e0.len(), p < e0.len() + 512, e0.len() == n0 * 512;
                }
            }
            assert forall|k: int| 0 < k < lv.len() implies {
                let p = #[trigger] pr[k];
                &&& 0 <= p < e.len()
                &&& lv[p / 512] + 1 == lv[k]
                &&& valid(e[p])
                &&& child(e[p]) == k
            } by {
                if k < n0 {
                    let p = pr[k];
                    assert(p != s) by {
                        assert(valid(e0[p]));
                    }
                    assert(p / 512 < n0) by (nonlinear_arith)
                        requires p < e0.len(), e0.len() == n0 * 512, p >= 0;
                }
            }
            assert(tree_wf(e, lv, pr));
            assert forall|p: int|
                e0.len() <= p < e.len() implies #[trigger] e[p] == 0 || (valid(e[p]) && child(e[p]) >= n0
                    && lv[p / 512] < 3) by {
            }
            assert forall|p: int|
                0 <= p < e0.len() && #[trigger] e[p] != e0[p] implies valid(e[p]) && child(e[p]) >= n0 && lv[p
                    / 512] < 3 by {
                assert(p == s);
            }
            assert(grown_from(e, lv, e0, n0 as int));
            assert(lv.len() <= MAX_TABLES);
            assert(forall|k: int| 0 <= k < self.depth@.len() ==> #[trigger] self.depth@[k] as int == lv[k]);
        }
        Ok(c)
    }

    /// Finds the leaf slot for `va`. A missing level gives `NotFound`, or,
    /// when `create` holds, is made: a fresh zeroed table takes its place.
    /// Nothing that was mapped changes either way.
    pub fn walk(&mut self, pmm: &mut Pmm, va: u64, create: bool) -> (r: Result<usize, VmError>)
        requires
            old(self).wf(),
            old(pmm).wf(),
        ensures
            final(self).wf(),
            final(pmm).wf(),
            final(pmm)@.refs == old(pmm)@.refs,
            final(pmm)@.alloc.npage == old(pmm)@.alloc.npage,
            final(pmm)@.alloc.base_paddr == old(pmm)@.alloc.base_paddr,
            old(pmm)@.alloc.used_frames().subset_of(final(pmm)@.alloc.used_frames()),
            final(pmm)@.mem == old(pmm)@.mem,
            forall|va2: u64| #[trigger] final(self).lookup(va2) == old(self).lookup(va2),
            old(self).path(va) matches Some(s) ==> final(self).path(va) == Some(s),
            r is Ok ==> final(self).path(va) == Some(r->Ok_0 as int) && r->Ok_0 < final(self).entries().len(),
            !create ==> *final(self) == *old(self) && *final(pmm) == *old(pmm),
            !create ==> (r is Ok <==> old(self).path(va) is Some),
            !create ==> r == walk_result(*old(self), va),
            !create && r is Err ==> r == Err::<usize, VmError>(VmError::NotFound),
            create && r is Err ==> r == Err::<usize, VmError>(VmError::OutOfMemory),
            create && old(self).path(va) is Some ==> r is Ok,
            old(self).ntables() <= final(self).ntables() <= old(self).ntables() + 3,
            final(pmm)@.alloc.n_free + (final(self).ntables() - old(self).ntables()) == old(pmm)@.alloc.n_free,
            old(self).path(va) is Some ==> final(self).ntables() == old(self).ntables(),
            create && old(pmm)@.alloc.n_free >= 3 && old(self).ntables() + 3 <= MAX_TABLES ==> r is Ok,
    {
        if !create {
            let len = self.entries.len();
            let r = self.lookup_slot(va);
            proof {
                if let Some(s) = self.path(va) {
                    assert(s < len);
                }
            }
            return r;
        }
        let ghost e0 = self.entries@;
        let ghost lv0 = self.levels@;
        let ghost pr0 = self.parent@;
        let mut t: usize = 0;
        let mut level: usize = 0;
        while level < 3
            invariant
                self.wf(),
                pmm.wf(),
                pmm@.refs == old(pmm)@.refs,
                pmm@.alloc.npage == old(pmm)@.alloc.npage,
                pmm@.alloc.base_paddr == old(pmm)@.alloc.base_paddr,
                create,
                pmm@.mem == old(pmm)@.mem,
                lv0.len() <= self.levels@.len() <= lv0.len() + level,
                pmm@.alloc.n_free + (self.levels@.len() - lv0.len()) == old(pmm)@.alloc.n_free,
                old(self).path(va) is Some ==> self.levels@.len() == lv0.len(),
                old(pmm)@.alloc.used_frames().subset_of(pmm@.alloc.used_frames()),
                e0 == old(self).entries@,
                lv0 == old(self).levels@,
                pr0 == old(self).parent@,
                tree_wf(e0, lv0, pr0),
                lv0.len() <= self.levels@.len(),
                forall|k: int| 0 <= k < lv0.len() ==> #[trigger] self.levels@[k] == lv0[k],
                grown_from(self.entries@, self.levels@, e0, lv0.len() as int),
                level <= 3,
                reach(self.entries@, va, level as nat) == Some(t as int),
                t < self.levels@.len(),
                old(self).path(va) is Some ==> reach(e0, va, level as nat) == Some(t as int),
            decreases 3 - level,
        {
            let x = index_at(va, level);
            let len = self.entries.len();
            proof {
                assert(t * 512 + x < self.entries@.len()) by (nonlinear_arith)
                    requires t < self.levels@.len(), x < 512, self.entries@.len() == self.levels@.len() * 512;
                lemma_reach_level(self.entries@, self.levels@, self.parent@, va, level as nat);
                assert((t * 512 + x) / 512 == t) by (nonlinear_arith)
                    requires x < 512, x >= 0, t >= 0;
            }
            let slot = t * NPTE + x;
            let e = self.entries[slot];
            assert((e & 3 == 0) == (e % 4 == 0)) by (bit_vector);
            if e & PTE_V == 0 {
                let ghost e1 = self.entries@;
                let ghost lv1 = self.levels@;
                let ghost pr1 = self.parent@;
                proof {
                    if old(self).path(va) is Some {
                        lemma_grown_reach(self.entries@, self.levels@, self.parent@, e0, lv0, pr0, va, (level + 1) as nat);
                        lemma_reach_level(e0, lv0, pr0, va, level as nat);
                        assert(reach(e0, va, 3) is Some);
                        lemma_reach_prefix(e0, va, (level + 1) as nat, 3);
                        assert(false);
                    }
                }
                let c = match self.add_table(pmm, slot) {
                    Ok(c) => c,
                    Err(err) => {
                        proof {
                            assert forall|va2: u64| #[trigger] self.lookup(va2) == old(self).lookup(va2) by {
                                lemma_grown_lookup(self.entries@, self.levels@, self.parent@, e0, lv0, pr0, va2);
                            }
                        }
                        return Err(err);
                    },
                };
                proof {
                    lemma_grown_trans(self.entries@, self.levels@, e1, lv1, e0, lv0.len() as int);
                    lemma_grown_reach(self.entries@, self.levels@, self.parent@, e1, lv1, pr1, va, level as nat);
                    assert(valid(self.entries@[slot as int]));
                    assert(child(self.entries@[slot as int]) == c) by (nonlinear_arith)
                        requires self.entries@[slot as int] == table_entry(c as int), c < MAX_TABLES;
                    assert(reach(self.entries@, va, (level + 1) as nat) == Some(c as int));
                }
                t = c;
            } else {
                proof {
                    assert(valid(self.entries@[slot as int]));
                    assert(reach(self.entries@, va, (level + 1) as nat) == Some(child(e)));
                    assert(child(e) < self.levels@.len());
                    if old(self).path(va) is Some {
                        lemma_grown_reach(self.entries@, self.levels@, self.parent@, e0, lv0, pr0, va, 3);
                        lemma_reach_prefix(e0, va, (level + 1) as nat, 3);
                        lemma_grown_reach(self.entries@, self.levels@, self.parent@, e0, lv0, pr0, va, (level + 1) as nat);
                    }
                }
                t = (e / 4096) as usize;
            }
            level = level + 1;
        }
        let x = index_at(va, 3);
        let len = self.entries.len();
        proof {
            assert(t * 512 + x < self.entries@.len()) by (nonlinear_arith)
                requires t < self.levels@.len(), x < 512, self.entries@.len() == self.levels@.len() * 512;
            assert forall|va2: u64| #[trigger] self.lookup(va2) == old(self).lookup(va2) by {
                lemma_grown_lookup(self.entries@, self.levels@, self.parent@, e0, lv0, pr0, va2);
            }
            if let Some(s0) = old(self).path(va) {
                lemma_grown_reach(self.entries@, self.levels@, self.parent@, e0, lv0, pr0, va, 3);
            }
        }
        Ok(t * NPTE + x)
    }
}

/// A walk that reaches level `b` went through every level `a` below it.
proof fn lemma_reach_prefix(e: Seq<u64>, va: u64, a: nat, b: nat)
    requires
        a <= b,
        reach(e, va, b) is Some,
    ensures
        reach(e, va, a) is Some,
    decreases b - a,
{
    if a < b {
        assert(reach(e, va, (b - 1) as nat) is Some);
        lemma_reach_prefix(e, va, a, (b - 1) as nat);
    }
}

/// Growth composes.
proof fn lemma_grown_trans(e2: Seq<u64>, lv2: Seq<int>, e1: Seq<u64>, lv1: Seq<int>, e0: Seq<u64>, n0: int)
    requires
        grown_from(e2, lv2, e1, lv1.len() as int),
        grown_from(e1, lv1, e0, n0),
        n0 <= lv1.len() <= lv2.len(),
        forall|k: int| 0 <= k < lv1.len() ==> #[trigger] lv2[k] == lv1[k],
    ensures
        grown_from(e2, lv2, e0, n0),
{
    assert forall|p: int|
        0 <= p < e0.len() && #[trigger] e2[p] != e0[p] implies valid(e2[p]) && child(e2[p]) >= n0 && lv2[p
            / 512] < 3 by {
        assert(p / 512 < lv1.len()) by (nonlinear_arith)
            requires p < e0.len(), e0.len() == n0 * 512, n0 <= lv1.len(), p >= 0;
    }
    assert forall|p: int|
        e0.len() <= p < e2.len() implies #[trigger] e2[p] == 0 || (valid(e2[p]) && child(e2[p]) >= n0
            && lv2[p / 512] < 3) by {
        if p < e1.len() {
            assert(p / 512 < lv1.len()) by (nonlinear_arith)
                requires p < e1.len(), e1.len() == lv1.len() * 512, p >= 0;
        }
    }
}

/// Every mapping of `pt` names a frame of `pmm` that holds a reference.
pub open spec fn maps_held(pt: PageTable, pmm: crate::pmm::PmmView) -> bool {
    forall|va: u64| #[trigger] pt.lookup(va) is Some ==> pmm.is_frame_addr(pte_addr(pt.lookup(va)->Some_0))
        && pmm.ref_of(pte_addr(pt.lookup(va)->Some_0)) > 0
}

/// `a` and `b` lie in the same page: every table index agrees.
pub open spec fn same_page(a: u64, b: u64) -> bool {
    &&& pt_index(a, 0) == pt_index(b, 0)
    &&& pt_index(a, 1) == pt_index(b, 1)
    &&& pt_index(a, 2) == pt_index(b, 2)
    &&& pt_index(a, 3) == pt_index(b, 3)
}

/// Addresses of the same page take the same walk.
proof fn lemma_same_page_reach(e: Seq<u64>, a: u64, b: u64, level: nat)
    requires
        same_page(a, b),
        level <= 3,
    ensures
        reach(e, a, level) == reach(e, b, level),
    decreases level,
{
    if level > 0 {
        lemma_same_page_reach(e, a, b, (level - 1) as nat);
    }
}

/// Addresses of the same page have the same mapping.
pub proof fn lemma_same_page_lookup(pt: PageTable, a: u64, b: u64)
    requires
        same_page(a, b),
    ensures
        pt.lookup(a) == pt.lookup(b),
{
    lemma_same_page_reach(pt.entries(), a, b, 3);
}

/// Walks that reach the same table after `level` steps took the same
/// indices on the way.
proof fn lemma_reach_injective(
    e: Seq<u64>,
    levels: Seq<int>,
    parent: Seq<int>,
    a: u64,
    b: u64,
    level: nat,
)
    requires
        tree_wf(e, levels, parent),
        level <= 3,
        reach(e, a, level) is Some,
        reach(e, a, level) == reach(e, b, level),
    ensures
        forall|l: int| 0 <= l < level ==> #[trigger] pt_index(a, l) == pt_index(b, l),
    decreases level,
{
    if level > 0 {
        let l1 = (level - 1) as nat;
        lemma_reach_level(e, levels, parent, a, l1);
        lemma_reach_level(e, levels, parent, b, l1);
        lemma_reach_level(e, levels, parent, a, level);
        let ta = reach(e, a, l1)->Some_0;
        let tb = reach(e, b, l1)->Some_0;
        let xa = pt_index(a, l1 as int);
        let xb = pt_index(b, l1 as int);
        let sa = ta * 512 + xa;
        let sb = tb * 512 + xb;
        assert(sa / 512 == ta && sb / 512 == tb) by (nonlinear_arith)
            requires sa == ta * 512 + xa, sb == tb * 512 + xb, 0 <= xa < 512, 0 <= xb < 512;
        let c = child(e[sa]);
        assert(parent[c] == sa && parent[c] == sb);
        assert(ta == tb && xa == xb) by (nonlinear_arith)
            requires sa == sb, sa == ta * 512 + xa, sb == tb * 512 + xb, 0 <= xa < 512, 0 <= xb < 512;
        lemma_reach_injective(e, levels, parent, a, b, l1);
    }
}

/// Two addresses with the same leaf slot lie in the same page.
proof fn lemma_path_injective(e: Seq<u64>, levels: Seq<int>, parent: Seq<int>, a: u64, b: u64)
    requires
        tree_wf(e, levels, parent),
        path(e, a) is Some,
        path(e, a) == path(e, b),
    ensures
        same_page(a, b),
{
    let ta = reach(e, a, 3)->Some_0;
    let tb = reach(e, b, 3)->Some_0;
    let xa = pt_index(a, 3);
    let xb = pt_index(b, 3);
    assert(ta == tb && xa == xb) by (nonlinear_arith)
        requires ta * 512 + xa == tb * 512 + xb, 0 <= xa < 512, 0 <= xb < 512;
    lemma_reach_injective(e, levels, parent, a, b, 3);
    assert(pt_index(a, 0) == pt_index(b, 0));
    assert(pt_index(a, 1) == pt_index(b, 1));
    assert(pt_index(a, 2) == pt_index(b, 2));
}

/// Writing a slot of a last-level table moves no walk.
proof fn lemma_leaf_write_reach(e: Seq<u64>, levels: Seq<int>, parent: Seq<int>, s: int, v: u64, va: u64, level: nat)
    requires
        tree_wf(e, levels, parent),
        0 <= s < e.len(),
        levels[s / 512] == 3,
        level <= 3,
    ensures
        reach(e.update(s, v), va, level) == reach(e, va, level),
    decreases level,
{
    if level > 0 {
        let l1 = (level - 1) as nat;
        lemma_leaf_write_reach(e, levels, parent, s, v, va, l1);
        lemma_reach_level(e, levels, parent, va, l1);
        if let Some(t) = reach(e, va, l1) {
            let x = pt_index(va, l1 as int);
            let p = t * 512 + x;
            assert(p / 512 == t) by (nonlinear_arith)
                requires p == t * 512 + x, 0 <= x < 512;
            assert(p != s);
        }
    }
}

/// Writing the leaf slot of `va` changes the mapping of `va`'s page alone.
proof fn lemma_leaf_write(e: Seq<u64>, levels: Seq<int>, parent: Seq<int>, va: u64, v: u64)
    requires
        tree_wf(e, levels, parent),
        path(e, va) is Some,
    ensures
        ({
            let s = path(e, va)->Some_0;
            let e2 = e.update(s, v);
            &&& tree_wf(e2, levels, parent)
            &&& forall|va2: u64| #[trigger] path(e2, va2) == path(e, va2)
            &&& forall|va2: u64| #[trigger] lookup(e2, va2) == if same_page(va2, va) {
                if valid(v) { Some(v) } else { None::<u64> }
            } else {
                lookup(e, va2)
            }
        }),
{
    let s = path(e, va)->Some_0;
    let t = reach(e, va, 3)->Some_0;
    let x = pt_index(va, 3);
    lemma_reach_level(e, levels, parent, va, 3);
    assert(s / 512 == t && s < e.len()) by (nonlinear_arith)
        requires s == t * 512 + x, 0 <= x < 512, t < levels.len(), e.len() == levels.len() * 512;
    let e2 = e.update(s, v);
    assert forall|va2: u64| #[trigger] path(e2, va2) == path(e, va2) by {
        lemma_leaf_write_reach(e, levels, parent, s, v, va2, 3);
    }
    assert forall|va2: u64| #[trigger] lookup(e2, va2) == if same_page(va2, va) {
        if valid(v) { Some(v) } else { None::<u64> }
    } else {
        lookup(e, va2)
    } by {
        lemma_leaf_write_reach(e, levels, parent, s, v, va2, 3);
        if path(e, va2) == Some(s) {
            lemma_path_injective(e, levels, parent, va2, va);
        }
        if same_page(va2, va) {
            lemma_leaf_write_reach(e, levels, parent, s, v, va, 3);
            assert(reach(e, va2, 0) == Some(0int));
            assert(reach(e, va, 0) == Some(0int));
            assert(reach(e, va2, 1) == reach(e, va, 1));
            assert(reach(e, va2, 2) == reach(e, va, 2));
            assert(reach(e, va2, 3) == reach(e, va, 3));
        }
    }
    assert forall|p: int| 0 <= p < e2.len() && levels[p / 512] < 3 && valid(#[trigger] e2[p]) implies {
        let c = child(e2[p]);
        &&& 0 < c < levels.len()
        &&& levels[c] == levels[p / 512] + 1
        &&& parent[c] == p
        &&& e2[p] == table_entry(c)
    } by {
        assert(p != s);
    }
    assert forall|k: int| 0 < k < levels.len() implies {
        let p = #[trigger] parent[k];
        &&& 0 <= p < e2.len()
        &&& levels[p / 512] + 1 == levels[k]
        &&& valid(e2[p])
        &&& child(e2[p]) == k
    } by {
        let p = parent[k];
        assert(p != s);
    }
}

/// The leaf entry that maps the frame at `pa` with permission bits `perm`:
/// valid, normal memory, inner shareable, accessed.
pub open spec fn leaf_entry(pa: u64, perm: u64) -> u64 {
    (pa & 0xFFFFFFF000) | perm | PTE_V | ATTRINDX_NORMAL | ATTRIB_SH_INNER_SHAREABLE | AF
}

/// Permission bits leave the address bits of an entry alone.
pub open spec fn perm_ok(perm: u64) -> bool {
    perm & 0xFFFFFFF000 == 0
}

impl PageTable {
    /// Number of tables in the tree.
    pub closed spec fn ntables(&self) -> nat {
        self.levels@.len()
    }

    /// The level of each table.
    pub closed spec fn levels(&self) -> Seq<int> {
        self.levels@
    }

    /// Address of the frame that backs the root table.
    pub closed spec fn root(&self) -> u64 {
        self.frames@[0]
    }

    /// Address of the frame that backs the root table.
    pub fn root_frame(&self) -> (r: u64)
        requires
            self.wf(),
        ensures
            r == self.root(),
    {
        self.frames[0]
    }

    /// Number of valid entries in last-level tables: the pages mapped.
    pub fn mapped_count(&self) -> (r: usize)
        requires
            self.wf(),
        ensures
            r == leaf_count(self.entries(), self.levels(), self.entries().len() as nat),
    {
        let mut i: usize = 0;
        let mut c: usize = 0;
        while i < self.entries.len()
            invariant
                self.wf(),
                i <= self.entries@.len(),
                c == leaf_count(self.entries@, self.levels@, i as nat),
                c <= i,
            decreases self.entries@.len() - i,
        {
            let e = self.entries[i];
            assert((e & 3 == 0) == (e % 4 == 0)) by (bit_vector);
            proof {
                assert(i as int / 512 < self.levels@.len()) by (nonlinear_arith)
                    requires i < self.entries@.len(), self.entries@.len() == self.levels@.len() * 512;
            }
            if self.depth[i / NPTE] == 3 && e & PTE_V != 0 {
                c = c + 1;
            }
            i = i + 1;
        }
        c
    }

    /// Number of tables in the tree.
    pub fn table_count(&self) -> (r: usize)
        requires
            self.wf(),
        ensures
            r * 512 == self.entries().len(),
    {
        self.frames.len()
    }

    /// The entry in slot `s`.
    pub fn entry(&self, s: usize) -> (r: u64)
        requires
            s < self.entries().len(),
        ensures
            r == self.entries()[s as int],
    {
        self.entries[s]
    }

    /// The leaf slot of a walk lies in a last-level table.
    proof fn lemma_leaf_slot(&self, va: u64)
        requires
            self.wf(),
            self.path(va) is Some,
        ensures
            ({
                let s = self.path(va)->Some_0;
                &&& 0 <= s < self.entries().len()
                &&& self.levels@[s / 512] == 3
                &&& !valid(self.entries()[s]) ==> self.entries()[s] == 0
            }),
    {
        lemma_reach_level(self.entries@, self.levels@, self.parent@, va, 3);
        let t = reach(self.entries@, va, 3)->Some_0;
        let s = self.path(va)->Some_0;
        assert(s / 512 == t && s < self.entries@.len()) by (nonlinear_arith)
            requires s == t * 512 + pt_index(va, 3), 0 <= pt_index(va, 3) < 512, t < self.levels@.len(),
                self.entries@.len() == self.levels@.len() * 512;
    }

    /// Writes `v` into the leaf slot `s` of `va`.
    fn set_leaf(&mut self, va: u64, s: usize, v: u64)
        requires
            old(self).wf(),
            old(self).path(va) == Some(s as int),
            valid(v) || v == 0,
        ensures
            final(self).wf(),
            final(self).entries() == old(self).entries().update(s as int, v),
            final(self).ntables() == old(self).ntables(),
            forall|va2: u64| #[trigger] final(self).path(va2) == old(self).path(va2),
            forall|va2: u64| #[trigger] final(self).lookup(va2) == if same_page(va2, va) {
                if valid(v) { Some(v) } else { None::<u64> }
            } else {
                old(self).lookup(va2)
            },
    {
        proof {
            lemma_leaf_write(self.entries@, self.levels@, self.parent@, va, v);
            lemma_reach_level(self.entries@, self.levels@, self.parent@, va, 3);
            let t = reach(self.entries@, va, 3)->Some_0;
            assert(s < self.entries@.len()) by (nonlinear_arith)
                requires s == t * 512 + pt_index(va, 3), 0 <= pt_index(va, 3) < 512, t < self.levels@.len(),
                    self.entries@.len() == self.levels@.len() * 512;
        }
        self.entries.set(s, v);
    }
}

/// Removes the mapping of `va`, whose leaf slot is `s`: the mapped frame
/// loses one reference and is given back when none is left.
pub fn page_remove(pmm: &mut Pmm, pt: &mut PageTable, va: u64, s: usize)
    requires
        old(pmm).wf(),
        old(pt).wf(),
        old(pt).path(va) == Some(s as int),
        old(pt).lookup(va) is Some,
        old(pmm)@.is_frame_addr(pte_addr(old(pt).lookup(va)->Some_0)),
        old(pmm)@.ref_of(pte_addr(old(pt).lookup(va)->Some_0)) > 0,
    ensures
        final(pmm).wf(),
        final(pt).wf(),
        forall|va2: u64| #[trigger] final(pt).path(va2) == old(pt).path(va2),
        final(pt).ntables() == old(pt).ntables(),
        forall|va2: u64| #[trigger] final(pt).lookup(va2) == if same_page(va2, va) {
            None::<u64>
        } else {
            old(pt).lookup(va2)
        },
        ({
            let pa = pte_addr(old(pt).lookup(va)->Some_0);
            let g = old(pmm)@.frame(pa);
            let n = old(pmm)@.ref_of(pa) - 1;
            &&& final(pmm)@.refs == old(pmm)@.refs.update(g, n)
            &&& final(pmm)@.mem == old(pmm)@.mem
            &&& final(pmm)@.alloc.npage == old(pmm)@.alloc.npage
            &&& final(pmm)@.alloc.base_paddr == old(pmm)@.alloc.base_paddr
            &&& n == 0 ==> final(pmm)@.alloc.used_frames() == old(pmm)@.alloc.used_frames().remove(g)
                && final(pmm)@.alloc.n_free == old(pmm)@.alloc.n_free + 1
            &&& n > 0 ==> final(pmm)@.alloc == old(pmm)@.alloc
        }),
{
    let e = pt.entry(s);
    let pa = PTE_ADDR(e);
    let n = pmm.page_ref_dec(pa);
    if n <= 0 {
        dealloc_page(pmm, pa);
    }
    pt.set_leaf(va, s, 0);
}

/// Maps `va` to the frame at `pa` with permission bits `perm`. The frame
/// gains a reference unless it was already the one mapped there; a different
/// frame mapped there before loses its mapping as `page_remove` does.
/// `OutOfMemory` when a missing table could not be made.
pub fn page_insert(pmm: &mut Pmm, pt: &mut PageTable, pa: u64, va: u64, perm: u64) -> (r: Result<(), VmError>)
    requires
        old(pmm).wf(),
        old(pt).wf(),
        old(pmm)@.in_use(pa as int),
        old(pmm)@.ref_of(pa as int) < i32::MAX,
        perm_ok(perm),
        old(pt).lookup(va) matches Some(e) ==> (pte_addr(e) != pa ==> old(pmm)@.is_frame_addr(pte_addr(e))
            && old(pmm)@.ref_of(pte_addr(e)) > 0),
    ensures
        final(pmm).wf(),
        final(pt).wf(),
        final(pmm)@.alloc.npage == old(pmm)@.alloc.npage,
        final(pmm)@.alloc.base_paddr == old(pmm)@.alloc.base_paddr,
        final(pmm)@.in_use(pa as int),
        final(pmm)@.mem == old(pmm)@.mem,
        old(pt).lookup(va) is None ==> old(pmm)@.alloc.used_frames().subset_of(final(pmm)@.alloc.used_frames()),
        old(pt).path(va) is Some || (old(pmm)@.alloc.n_free >= 3 && old(pt).ntables() + 3 <= MAX_TABLES) ==> r is Ok,
        old(pt).ntables() <= final(pt).ntables() <= old(pt).ntables() + 3,
        old(pt).lookup(va) is None ==> final(pmm)@.alloc.n_free + (final(pt).ntables() - old(pt).ntables())
            == old(pmm)@.alloc.n_free,
        r is Err ==> final(pmm)@.alloc.n_free + (final(pt).ntables() - old(pt).ntables()) == old(pmm)@.alloc.n_free,
        r is Ok ==> final(pt).path(va) is Some,
        r is Err ==> r == Err::<(), VmError>(VmError::OutOfMemory) && final(pmm)@.refs == old(pmm)@.refs
            && forall|va2: u64| #[trigger] final(pt).lookup(va2) == old(pt).lookup(va2),
        r is Ok ==> forall|va2: u64| #[trigger] final(pt).lookup(va2) == if same_page(va2, va) {
            Some(leaf_entry(pa, perm))
        } else {
            old(pt).lookup(va2)
        },
        r is Ok ==> match old(pt).lookup(va) {
            Some(e) => if pte_addr(e) == pa {
                final(pmm)@.refs == old(pmm)@.refs
            } else {
                let q = pte_addr(e);
                &&& final(pmm)@.refs == old(pmm)@.refs.update(old(pmm)@.frame(pa as int), old(pmm)@.ref_of(pa as int) + 1)
                    .update(old(pmm)@.frame(q), old(pmm)@.ref_of(q) - 1)
                &&& (old(pmm)@.ref_of(q) == 1 ==> !final(pmm)@.alloc.used_frames().contains(old(pmm)@.frame(q)))
            },
            None => final(pmm)@.refs == old(pmm)@.refs.update(old(pmm)@.frame(pa as int), old(pmm)@.ref_of(pa as int) + 1),
        },
{
    let ghost pm0 = pmm@;
    let s = match pt.walk(pmm, va, true) {
        Ok(s) => s,
        Err(_) => {
            return Err(VmError::OutOfMemory);
        },
    };
    let ghost pm1 = pmm@;
    let ghost t1 = *pt;
    assert(pm1.in_use(pa as int));
    pmm.page_ref_inc(pa);
    let e = pt.entry(s);
    assert((e & 3 == 0) == (e % 4 == 0)) by (bit_vector);
    if e & PTE_V != 0 {
        let old_pa = PTE_ADDR(e);
        assert(t1.lookup(va) == Some(e));
        if old_pa != pa {
            proof {
                let a = old_pa as int - pm0.alloc.base_paddr;
                let b = pa as int - pm0.alloc.base_paddr;
                assert(pm0.alloc.base_paddr % 4096 == 0);
                assert(old_pa as int % 4096 == 0) by {
                    assert((e & 0xFFFFFFF000) % 4096 == 0) by (bit_vector);
                }
                assert(a / 4096 != b / 4096) by (nonlinear_arith)
                    requires a % 4096 == 0, b % 4096 == 0, a != b, a >= 0, b >= 0,
                        old_pa as int % 4096 == 0, pm0.alloc.base_paddr % 4096 == 0, a == old_pa - pm0.alloc.base_paddr;
            }
            page_remove(pmm, pt, va, s);
        } else {
            pmm.page_ref_dec(pa);
        }
    }
    let v = (pa & 0xFFFFFFF000) | perm | PTE_V | ATTRINDX_NORMAL | ATTRIB_SH_INNER_SHAREABLE | AF;
    assert(PTE_V == 3 && ATTRINDX_NORMAL == 0 && ATTRIB_SH_INNER_SHAREABLE == 0x300 && AF == 0x400) by (bit_vector);
    assert(((pa & 0xFFFFFFF000) | perm | 3u64 | 0u64 | 0x300u64 | 0x400u64) % 4 != 0) by (bit_vector);
    assert(v == leaf_entry(pa, perm));
    pt.set_leaf(va, s, v);
    proof {
        assert forall|g: int| 0 <= g < pmm@.refs.len() && #[trigger] pmm@.refs[g] > 0 implies pmm@.alloc.used_frames().contains(g) by {}
    }
    Ok(())
}

/// A fresh zeroed frame mapped at `va` with permission bits `perm`; returns
/// its address. A different frame mapped at `va` before loses its mapping.
pub fn pgdir_alloc_page(pmm: &mut Pmm, pt: &mut PageTable, va: u64, perm: u64) -> (r: Result<u64, VmError>)
    requires
        old(pmm).wf(),
        old(pt).wf(),
        perm_ok(perm),
        old(pt).lookup(va) matches Some(e) ==> old(pmm)@.is_frame_addr(pte_addr(e)) && old(pmm)@.ref_of(
            pte_addr(e),
        ) > 0,
    ensures
        final(pmm).wf(),
        final(pt).wf(),
        final(pmm)@.alloc.npage == old(pmm)@.alloc.npage,
        final(pmm)@.alloc.base_paddr == old(pmm)@.alloc.base_paddr,
        r is Err ==> r == Err::<u64, VmError>(VmError::OutOfMemory) && final(pmm)@.refs == old(pmm)@.refs
            && forall|va2: u64| #[trigger] final(pt).lookup(va2) == old(pt).lookup(va2),
        old(pmm)@.alloc.n_free >= 4 && old(pt).ntables() + 3 <= MAX_TABLES ==> r is Ok,
        old(pt).path(va) is Some && old(pmm)@.alloc.n_free >= 1 ==> r is Ok,
        old(pt).ntables() <= final(pt).ntables() <= old(pt).ntables() + 3,
        r is Err ==> final(pmm)@.alloc.n_free <= old(pmm)@.alloc.n_free,
        r is Ok && old(pt).lookup(va) is None ==> final(pmm)@.alloc.n_free + (final(pt).ntables() - old(pt).ntables()) + 1
            == old(pmm)@.alloc.n_free,
        r is Ok ==> {
            let pa = r->Ok_0;
            &&& !old(pmm)@.in_use(pa as int)
            &&& final(pmm)@.in_use(pa as int)
            &&& final(pmm)@.ref_of(pa as int) == 1
            &&& final(pmm)@.page_bytes(pa as int) == Seq::<u8>::new(crate::page::PGSIZE as nat, |i: int| 0u8)
            &&& final(pmm)@.mem.len() == old(pmm)@.mem.len()
            &&& forall|i: int| 0 <= i < old(pmm)@.mem.len() && !(final(pmm)@.offset(pa as int) <= i < final(pmm)@.offset(pa as int) + crate::page::PGSIZE)
                ==> #[trigger] final(pmm)@.mem[i] == old(pmm)@.mem[i]
            &&& old(pt).lookup(va) is None ==> final(pmm)@.refs == old(pmm)@.refs.update(old(pmm)@.frame(pa as int), 1)
            &&& old(pt).lookup(va) is None ==> old(pmm)@.alloc.used_frames().subset_of(final(pmm)@.alloc.used_frames())
            &&& forall|va2: u64| #[trigger] final(pt).lookup(va2) == if same_page(va2, va) {
                Some(leaf_entry(pa, perm))
            } else {
                old(pt).lookup(va2)
            }
        },
{
    let ghost pm0 = pmm@;
    let pa = match pmm.alloc_page() {
        Ok(pa) => pa,
        Err(_) => {
            return Err(VmError::OutOfMemory);
        },
    };
    let ghost pm1 = pmm@;
    proof {
        if let Some(e) = pt.lookup(va) {
            let q = pte_addr(e);
            assert(pm0.refs[pm0.frame(q)] > 0);
            assert(pm0.alloc.used_frames().contains(pm0.frame(q)));
            assert(q != pa);
        }
        assert(pm1.ref_of(pa as int) == 0) by {
            if pm0.refs[pm0.frame(pa as int)] > 0 {
                assert(pm0.alloc.used_frames().contains(pm0.frame(pa as int)));
            }
        }
    }
    match page_insert(pmm, pt, pa, va, perm) {
        Ok(()) => {
            proof {
                if let Some(e) = old(pt).lookup(va) {
                    let q = pte_addr(e);
                    assert(pm0.frame(q) != pm0.frame(pa as int)) by {
                        assert(pm0.alloc.used_frames().contains(pm0.frame(q)));
                    }
                }
            }
            Ok(pa)
        },
        Err(_) => {
            dealloc_page(pmm, pa);
            Err(VmError::OutOfMemory)
        },
    }
}

/// A leaf entry grants read-only (or read/execute-only) access: the
/// read-only bit of its access permissions is set.
pub open spec fn read_only(e: u64) -> bool {
    e & ATTRIB_AP_RO_EL1 != 0
}

/// Resolves a fault at `va`: the walk makes any missing level; a valid
/// entry that grants read-only access is left alone and the fault is
/// reported as `InvalidPermission`; otherwise a fresh zeroed frame is mapped at `va`
/// with read/write access for every level. The bytes of a frame mapped
/// there before are not copied.
pub fn do_pgfault(pmm: &mut Pmm, pt: &mut PageTable, va: u64) -> (r: Result<u64, VmError>)
    requires
        old(pmm).wf(),
        old(pt).wf(),
        old(pt).lookup(va) matches Some(e) ==> old(pmm)@.is_frame_addr(pte_addr(e)) && old(pmm)@.ref_of(
            pte_addr(e),
        ) > 0,
    ensures
        final(pmm).wf(),
        final(pt).wf(),
        final(pmm)@.alloc.npage == old(pmm)@.alloc.npage,
        final(pmm)@.alloc.base_paddr == old(pmm)@.alloc.base_paddr,
        r == Err::<u64, VmError>(VmError::InvalidPermission) <==> (old(pt).lookup(va) matches Some(e) && read_only(e)),
        r is Err ==> forall|va2: u64| #[trigger] final(pt).lookup(va2) == old(pt).lookup(va2),
        !(old(pt).lookup(va) matches Some(e) && read_only(e)) && old(pmm)@.alloc.n_free >= 4
            && old(pt).ntables() + 3 <= MAX_TABLES ==> r is Ok,
        r is Ok ==> {
            let pa = r->Ok_0;
            &&& !old(pmm)@.in_use(pa as int)
            &&& final(pmm)@.ref_of(pa as int) == 1
            &&& forall|va2: u64| #[trigger] final(pt).lookup(va2) == if same_page(va2, va) {
                Some(leaf_entry(pa, ATTRIB_AP_RW_ALL))
            } else {
                old(pt).lookup(va2)
            }
        },
{
    let s = match pt.walk(pmm, va, true) {
        Ok(s) => s,
        Err(_) => {
            return Err(VmError::OutOfMemory);
        },
    };
    let e = pt.entry(s);
    assert((e & 3 == 0) == (e % 4 == 0)) by (bit_vector);
    proof {
        pt.lemma_leaf_slot(va);
        if e & 3 == 0 {
            assert(e == 0);
            assert(0u64 & 0x80 == 0) by (bit_vector);
        }
        assert(ATTRIB_AP_RO_EL1 == 0x80) by (bit_vector);
    }
    proof {
        if valid(e) {
            assert(pt.lookup(va) == Some(e));
        } else {
            assert(pt.lookup(va) is None);
        }
        assert(pt.lookup(va) == old(pt).lookup(va));
    }
    if e & PTE_V != 0 && e & ATTRIB_AP_RO_EL1 != 0 {
        return Err(VmError::InvalidPermission);
    }
    assert(ATTRIB_AP_RW_ALL & 0xFFFFFFF000 == 0) by (bit_vector);
    pgdir_alloc_page(pmm, pt, va, ATTRIB_AP_RW_ALL)
}

/// What a walk of `va` without creation returns on `pt`.
pub open spec fn walk_result(pt: PageTable, va: u64) -> Result<usize, VmError> {
    match pt.path(va) {
        Some(s) => Ok(s as usize),
        None => Err(VmError::NotFound),
    }
}

/// A walk of `va` that creates the missing levels and returns slot `s`
/// leaves a table on which every walk of `va` without creation returns `s`;
/// such a walk changes nothing, so repeating it returns `s` again.
pub proof fn lemma_walk_idempotent(pt: PageTable, va: u64, s: usize)
    requires
        pt.wf(),
        pt.path(va) == Some(s as int),
    ensures
        walk_result(pt, va) == Ok::<usize, VmError>(s),
{
}

/// The entry that `page_insert` writes for the frame at `pa` names that
/// frame. So mapping the same frame at the same address a second time finds
/// it already mapped there and leaves its reference count as the first
/// mapping left it.
pub proof fn lemma_insert_same_frame(pmm: crate::pmm::PmmView, pa: u64, perm: u64)
    requires
        pmm.wf(),
        pmm.in_use(pa as int),
        perm_ok(perm),
    ensures
        pte_addr(leaf_entry(pa, perm)) == pa,
        valid(leaf_entry(pa, perm)),
{
    lemma_leaf_frame(pmm, pa, perm);
}

/// After `page_insert` has mapped the frame at `pa` at `va`, the leaf slot
/// of `va` exists, so a second `page_insert` of that frame there succeeds;
/// and the mapping names `pa`, so that second call takes the branch that
/// keeps the frame's reference count, and leaves the same entry.
pub proof fn lemma_insert_twice(pt: PageTable, pmm: crate::pmm::PmmView, pa: u64, va: u64, perm: u64)
    requires
        pt.wf(),
        pmm.wf(),
        pmm.in_use(pa as int),
        perm_ok(perm),
        pt.lookup(va) == Some(leaf_entry(pa, perm)),
    ensures
        pt.path(va) is Some,
        pte_addr(pt.lookup(va)->Some_0) == pa,
{
    lemma_leaf_frame(pmm, pa, perm);
}

/// The frame named by the leaf entry of a frame in use is that frame.
proof fn lemma_leaf_frame(pmm: crate::pmm::PmmView, pa: u64, perm: u64)
    requires
        pmm.wf(),
        pmm.in_use(pa as int),
        perm_ok(perm),
    ensures
        pte_addr(leaf_entry(pa, perm)) == pa,
        valid(leaf_entry(pa, perm)),
{
    let b = pmm.alloc.base_paddr;
    let d = pa - b;
    assert(pa < crate::pmm::PA_LIMIT) by (nonlinear_arith)
        requires d == pa - b, d % 4096 == 0, d / 4096 < pmm.alloc.npage, b + pmm.alloc.npage * 4096 <= 0x100_0000_0000, d >= 0;
    assert(pa % 4096 == 0) by (nonlinear_arith)
        requires d == pa - b, d % 4096 == 0, b % 4096 == 0;
    assert(PTE_V == 3 && ATTRINDX_NORMAL == 0 && ATTRIB_SH_INNER_SHAREABLE == 0x300 && AF == 0x400) by (bit_vector);
    let x = (pa & 0xFFFFFFF000) | perm | 3u64 | 0u64 | 0x300u64 | 0x400u64;
    assert(((x % 0x100_0000_0000) / 0x1000 * 0x1000) == pa) by (bit_vector)
        requires x == (pa & 0xFFFFFFF000) | perm | 3u64 | 0u64 | 0x300u64 | 0x400u64, perm & 0xFFFFFFF000 == 0,
            pa < 0x100_0000_0000, pa % 4096 == 0;
    assert(x % 4 != 0) by (bit_vector)
        requires x == (pa & 0xFFFFFFF000) | perm | 3u64 | 0u64 | 0x300u64 | 0x400u64;
}

/// The entry with which the kernel maps the frame at `pa` at boot: valid,
/// read/write for the kernel only, inner shareable, accessed, not
/// executable at the lowest level, with attribute bits `perm`.
pub open spec fn boot_entry(pa: u64, perm: u64) -> u64 {
    (pa & 0xFFFFFFF000) | perm | PTE_V | ATTRIB_AP_RW_EL1 | ATTRIB_SH_INNER_SHAREABLE | AF | UXN
}

/// Maps the `size / PGSIZE` pages from `va` on to the frames from `pa` on,
/// page by page, with `boot_entry`; tables come from `pmm`. The frames get
/// no reference counts: this is the kernel's own view of memory.
pub fn boot_map_segment(pmm: &mut Pmm, pt: &mut PageTable, va: u64, size: u64, pa: u64, perm: u64) -> (r: Result<(), VmError>)
    requires
        old(pmm).wf(),
        old(pt).wf(),
        va % PGSIZE == 0,
        size % PGSIZE == 0,
        va + size <= 0x1_0000_0000_0000,
        pa + size <= u64::MAX,
    ensures
        final(pmm).wf(),
        final(pt).wf(),
        r is Err ==> r == Err::<(), VmError>(VmError::OutOfMemory),
        old(pmm)@.alloc.n_free >= 3 * (size / PGSIZE) && old(pt).ntables() + 3 * (size / PGSIZE) <= MAX_TABLES ==> r is Ok,
        r is Ok ==> forall|k: u64| k < size / PGSIZE ==> #[trigger] final(pt).lookup((va + k * PGSIZE) as u64) == Some(
            boot_entry((pa + k * PGSIZE) as u64, perm),
        ),
{
    let n = size / PGSIZE;
    let mut i: u64 = 0;
    while i < n
        invariant
            pmm.wf(),
            pt.wf(),
            n == size / PGSIZE,
            size % PGSIZE == 0,
            i <= n,
            va % PGSIZE == 0,
            va + size <= 0x1_0000_0000_0000,
            pa + size <= u64::MAX,
            forall|k: u64| k < i ==> #[trigger] pt.lookup((va + k * PGSIZE) as u64) == Some(boot_entry((pa + k * PGSIZE) as u64, perm)),
            old(pt).ntables() <= pt.ntables() <= old(pt).ntables() + 3 * i,
            pmm@.alloc.n_free + (pt.ntables() - old(pt).ntables()) == old(pmm)@.alloc.n_free,
        decreases n - i,
    {
        assert(i * PGSIZE < size) by (nonlinear_arith)
            requires i < n, n == size / 4096, size % 4096 == 0;
        let v = va + i * PGSIZE;
        let a = pa + i * PGSIZE;
        let ghost t0 = *pt;
        proof {
            let f0 = old(pmm)@.alloc.n_free;
            let t0 = old(pt).ntables();
            let f = pmm@.alloc.n_free;
            let t = pt.ntables();
            if f0 >= 3 * n && t0 + 3 * n <= MAX_TABLES {
                assert(f >= 3 && t + 3 <= MAX_TABLES) by (nonlinear_arith)
                    requires f0 >= 3 * n, t0 + 3 * n <= MAX_TABLES, i < n, t <= t0 + 3 * i, f + (t - t0) == f0;
            }
        }
        let s = match pt.walk(pmm, v, true) {
            Ok(s) => s,
            Err(e) => {
                return Err(e);
            },
        };
        let e = (a & 0xFFFFFFF000) | perm | PTE_V | ATTRIB_AP_RW_EL1 | ATTRIB_SH_INNER_SHAREABLE | AF | UXN;
        assert(PTE_V == 3 && ATTRIB_AP_RW_EL1 == 0 && ATTRIB_SH_INNER_SHAREABLE == 0x300 && AF == 0x400 && UXN == 0x40_0000_0000_0000) by (bit_vector);
        assert(((a & 0xFFFFFFF000) | perm | 3u64 | 0u64 | 0x300u64 | 0x400u64 | 0x40_0000_0000_0000u64) % 4 != 0) by (bit_vector);
        pt.set_leaf(v, s, e);
        proof {
            assert forall|k: u64| k < i + 1 implies #[trigger] pt.lookup((va + k * PGSIZE) as u64) == Some(boot_entry((pa + k * PGSIZE) as u64, perm)) by {
                let vk = (va + k * PGSIZE) as u64;
                if k < i {
                    assert(k * 4096 < i * 4096) by (nonlinear_arith)
                        requires k < i;
                    assert(crate::loader::vpn(vk) != crate::loader::vpn(v)) by (nonlinear_arith)
                        requires vk == va + k * 4096, v == va + i * 4096, k < i, va % 4096 == 0, v < 0x1_0000_0000_0000,
                            crate::loader::vpn(vk) == (vk as int % 0x1_0000_0000_0000) / 4096, crate::loader::vpn(v) == (v as int % 0x1_0000_0000_0000) / 4096;
                    if same_page(vk, v) {
                        crate::loader::lemma_same_page_vpn(vk, v);
                    }
                    assert(t0.lookup(vk) == Some(boot_entry((pa + k * PGSIZE) as u64, perm)));
                } else {
                    assert(vk == v);
                }
            }
        }
        i = i + 1;
    }
    Ok(())
}

} // verus!
