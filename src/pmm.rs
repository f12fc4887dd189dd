use vstd::prelude::*;
use crate::allocator::{Allocator, AllocatorView, AllocError, frame_range};
use crate::page::{Page, PGSIZE};

verus! {

/// Highest physical address (exclusive) that a page-table entry can hold.
pub const PA_LIMIT: u64 = 0x100_0000_0000;

/// `m` with the bytes `b` written from offset `off` on.
pub open spec fn overwrite(m: Seq<u8>, off: int, b: Seq<u8>) -> Seq<u8> {
    Seq::new(m.len(), |i: int| if off <= i < off + b.len() { b[i - off] } else { m[i] })
}

/// What the physical memory manager holds: its allocator, the reference
/// count of each frame, and the bytes of physical memory.
pub struct PmmView {
    pub alloc: AllocatorView,
    pub refs: Seq<int>,
    pub mem: Seq<u8>,
}

impl PmmView {
    /// Frame of the arena that holds address `pa`.
    pub open spec fn frame(self, pa: int) -> int {
        self.alloc.frame_of(pa)
    }

    /// `pa` is the first address of a frame of the arena.
    pub open spec fn is_frame_addr(self, pa: int) -> bool {
        &&& self.alloc.base_paddr <= pa
        &&& (pa - self.alloc.base_paddr) % (PGSIZE as int) == 0
        &&& self.frame(pa) < self.alloc.npage
    }

    /// The frame at `pa` is handed out by the allocator.
    pub open spec fn in_use(self, pa: int) -> bool {
        self.is_frame_addr(pa) && self.alloc.used_frames().contains(self.frame(pa))
    }

    /// Reference count of the frame at `pa`.
    pub open spec fn ref_of(self, pa: int) -> int {
        self.refs[self.frame(pa)]
    }

    /// Offset in memory of the first byte of the frame at `pa`.
    pub open spec fn offset(self, pa: int) -> int {
        self.frame(pa) * PGSIZE
    }

    /// The bytes of the frame at `pa`.
    pub open spec fn page_bytes(self, pa: int) -> Seq<u8> {
        self.mem.subrange(self.offset(pa), self.offset(pa) + PGSIZE)
    }

    /// Well-formed: the allocator is well-formed, its arena lies below
    /// `PA_LIMIT`, each frame has a non-negative count, and a frame with a
    /// positive count is handed out.
    pub open spec fn wf(self) -> bool {
        &&& self.alloc.wf()
        &&& self.alloc.base_paddr + self.alloc.npage * PGSIZE <= PA_LIMIT
        &&& self.refs.len() == self.alloc.npage
        &&& self.mem.len() == self.alloc.npage * PGSIZE
        &&& forall|g: int| 0 <= g < self.refs.len() ==> #[trigger] self.refs[g] >= 0
        &&& forall|g: int| 0 <= g < self.refs.len() && #[trigger] self.refs[g] > 0
            ==> self.alloc.used_frames().contains(g)
    }
}

/// Physical memory manager: a frame allocator over an arena, a descriptor
/// for each frame of it, and the arena's bytes.
pub struct Pmm {
    allocator: Allocator,
    pages: Vec<Page>,
    mem: Vec<u8>,
}

impl View for Pmm {
    type V = PmmView;

    closed spec fn view(&self) -> PmmView {
        PmmView {
            alloc: self.allocator@,
            refs: self.pages@.map_values(|p: Page| p.reference as int),
            mem: self.mem@,
        }
    }
}

impl Pmm {
    pub open spec fn wf(&self) -> bool {
        self@.wf()
    }

    /// A manager of `npage` free frames, the first at address `begin`, all
    /// bytes zero.
    pub fn new(npage: usize, begin: u64) -> (r: Pmm)
        requires
            begin % PGSIZE == 0,
            begin + npage * PGSIZE <= PA_LIMIT,
            npage * PGSIZE <= usize::MAX,
        ensures
            r.wf(),
            r@.alloc.npage == npage,
            r@.alloc.base_paddr == begin,
            r@.alloc.n_free == npage,
            r@.alloc.used_frames() == Set::<int>::empty(),
            forall|g: int| 0 <= g < npage ==> #[trigger] r@.refs[g] == 0,
            forall|i: int| 0 <= i < npage * PGSIZE ==> #[trigger] r@.mem[i] == 0,
    {
        let allocator = Allocator::with_arena(npage, begin);
        let mut pages: Vec<Page> = Vec::new();
        let mut i: usize = 0;
        while i < npage
            invariant
                i <= npage,
                pages@.len() == i,
                forall|g: int| 0 <= g < i ==> (#[trigger] pages@[g]).reference == 0,
            decreases npage - i,
        {
            pages.push(Page::new());
            i = i + 1;
        }
        let total = npage * (PGSIZE as usize);
        let mut mem: Vec<u8> = Vec::new();
        let mut j: usize = 0;
        while j < total
            invariant
                j <= total,
                mem@.len() == j,
                forall|k: int| 0 <= k < j ==> #[trigger] mem@[k] == 0,
            decreases total - j,
        {
            mem.push(0);
            j = j + 1;
        }
        let r = Pmm { allocator, pages, mem };
        proof {
            vstd::set_lib::lemma_int_range(0, npage as int);
            assert(r@.alloc.used_frames() =~= Set::<int>::empty());
        }
        r
    }

    /// Number of free frames.
    pub fn n_free(&self) -> (r: usize)
        ensures
            r == self@.alloc.n_free,
    {
        self.allocator.get_n_free()
    }

    /// The allocator of this manager.
    pub fn allocator(&self) -> (r: &Allocator)
        ensures
            r@ == self@.alloc,
    {
        &self.allocator
    }

    /// Reference count of the frame at `pa`.
    pub fn page_ref(&self, pa: u64) -> (r: i32)
        requires
            self.wf(),
            self@.is_frame_addr(pa as int),
        ensures
            r == self@.ref_of(pa as int),
    {
        let f = self.allocator.addr2page(pa);
        self.pages[f].reference
    }

    /// Whether `pa` is the first address of a frame of the arena.
    pub fn is_frame(&self, pa: u64) -> (r: bool)
        requires
            self.wf(),
        ensures
            r == self@.is_frame_addr(pa as int),
    {
        let b = self.allocator.base_paddr();
        if pa < b || (pa - b) % PGSIZE != 0 {
            return false;
        }
        ((pa - b) / PGSIZE) < self.allocator.npage() as u64
    }

    /// One byte of physical memory.
    pub fn read_byte(&self, pa: u64) -> (r: u8)
        requires
            self.wf(),
            self@.alloc.base_paddr <= pa < self@.alloc.addr_of(self@.alloc.npage as int),
        ensures
            r == self@.mem[pa - self@.alloc.base_paddr],
    {
        let off = pa - self.allocator.base_paddr();
        let len = self.mem.len();
        assert(off < len);
        self.mem[off as usize]
    }

    /// Offset in memory of the frame at `pa`.
    fn page_offset(&self, pa: u64) -> (r: usize)
        requires
            self.wf(),
            self@.is_frame_addr(pa as int),
        ensures
            r == self@.offset(pa as int),
            r + PGSIZE <= self@.mem.len(),
    {
        let f = self.allocator.addr2page(pa);
        proof {
            assert(f * PGSIZE + PGSIZE <= self@.alloc.npage * PGSIZE) by (nonlinear_arith)
                requires f < self@.alloc.npage;
        }
        let len = self.mem.len();
        assert(f * PGSIZE < len);
        f * (PGSIZE as usize)
    }

    /// Sets every byte of the frame at `pa` to zero.
    pub fn zero_page(&mut self, pa: u64)
        requires
            old(self).wf(),
            old(self)@.is_frame_addr(pa as int),
        ensures
            final(self).wf(),
            final(self)@.alloc == old(self)@.alloc,
            final(self)@.refs == old(self)@.refs,
            final(self)@.mem.len() == old(self)@.mem.len(),
            final(self)@.page_bytes(pa as int) == Seq::<u8>::new(PGSIZE as nat, |i: int| 0u8),
            forall|i: int| 0 <= i < old(self)@.mem.len() && !(old(self)@.offset(pa as int) <= i < old(self)@.offset(pa as int) + PGSIZE)
                ==> #[trigger] final(self)@.mem[i] == old(self)@.mem[i],
    {
        let off = self.page_offset(pa);
        let mut k: usize = 0;
        while k < PGSIZE as usize
            invariant
                self.wf(),
                self@.alloc == old(self)@.alloc,
                self@.refs == old(self)@.refs,
                self@.mem.len() == old(self)@.mem.len(),
                off == old(self)@.offset(pa as int),
                off + PGSIZE <= self@.mem.len(),
                k <= PGSIZE,
                forall|i: int| off <= i < off + k ==> #[trigger] self@.mem[i] == 0,
                forall|i: int| 0 <= i < old(self)@.mem.len() && !(off <= i < off + k) ==> #[trigger] self@.mem[i] == old(self)@.mem[i],
            decreases PGSIZE - k,
        {
            self.mem.set(off + k, 0);
            k = k + 1;
        }
        assert(self@.page_bytes(pa as int) =~= Seq::<u8>::new(PGSIZE as nat, |i: int| 0u8));
    }

    /// Copies the bytes of the frame at `src` into the frame at `dst`.
    pub fn copy_page(&mut self, dst: u64, src: u64)
        requires
            old(self).wf(),
            old(self)@.is_frame_addr(dst as int),
            old(self)@.is_frame_addr(src as int),
            dst != src,
        ensures
            final(self).wf(),
            final(self)@.alloc == old(self)@.alloc,
            final(self)@.refs == old(self)@.refs,
            final(self)@.mem.len() == old(self)@.mem.len(),
            final(self)@.page_bytes(dst as int) == old(self)@.page_bytes(src as int),
            forall|i: int| 0 <= i < old(self)@.mem.len() && !(old(self)@.offset(dst as int) <= i < old(self)@.offset(dst as int) + PGSIZE)
                ==> #[trigger] final(self)@.mem[i] == old(self)@.mem[i],
    {
        let d = self.page_offset(dst);
        let s = self.page_offset(src);
        proof {
            let v = self@;
            assert(v.frame(dst as int) != v.frame(src as int)) by {
                let a = dst - v.alloc.base_paddr;
                let b = src - v.alloc.base_paddr;
                assert(a / 4096 != b / 4096) by (nonlinear_arith)
                    requires a % 4096 == 0, b % 4096 == 0, a != b, a >= 0, b >= 0;
            }
            assert(d + PGSIZE <= s || s + PGSIZE <= d) by (nonlinear_arith)
                requires d == v.frame(dst as int) * 4096, s == v.frame(src as int) * 4096,
                    v.frame(dst as int) != v.frame(src as int);
        }
        let mut k: usize = 0;
        while k < PGSIZE as usize
            invariant
                self.wf(),
                self@.alloc == old(self)@.alloc,
                self@.refs == old(self)@.refs,
                self@.mem.len() == old(self)@.mem.len(),
                d == old(self)@.offset(dst as int),
                s == old(self)@.offset(src as int),
                d + PGSIZE <= self@.mem.len(),
                s + PGSIZE <= self@.mem.len(),
                d + PGSIZE <= s || s + PGSIZE <= d,
                k <= PGSIZE,
                forall|i: int| 0 <= i < k ==> #[trigger] self@.mem[d + i] == old(self)@.mem[s + i],
                forall|i: int| 0 <= i < old(self)@.mem.len() && !(d <= i < d + k) ==> #[trigger] self@.mem[i] == old(self)@.mem[i],
            decreases PGSIZE - k,
        {
            let b = self.mem[s + k];
            self.mem.set(d + k, b);
            k = k + 1;
        }
        assert forall|i: int| 0 <= i < PGSIZE implies #[trigger] self@.page_bytes(dst as int)[i] == old(
            self,
        )@.page_bytes(src as int)[i] by {
            assert(self@.mem[d + i] == old(self)@.mem[s + i]);
        }
        assert(self@.page_bytes(dst as int) =~= old(self)@.page_bytes(src as int));
    }

    /// Copies the `n` bytes of `src` from index `from` on into memory
    /// starting at address `pa`.
    pub fn copy_in(&mut self, pa: u64, src: &[u8], from: usize, n: usize)
        requires
            old(self).wf(),
            old(self)@.alloc.base_paddr <= pa,
            pa - old(self)@.alloc.base_paddr + n <= old(self)@.mem.len(),
            from + n <= src@.len(),
        ensures
            final(self).wf(),
            final(self)@.alloc == old(self)@.alloc,
            final(self)@.refs == old(self)@.refs,
            final(self)@.mem == overwrite(old(self)@.mem, pa - old(self)@.alloc.base_paddr, src@.subrange(from as int, from + n)),
    {
        let off64 = pa - self.allocator.base_paddr();
        let len = self.mem.len();
        assert(off64 <= len);
        let off = off64 as usize;
        let mut k: usize = 0;
        let ghost m0 = self@.mem;
        let ghost part = src@.subrange(from as int, from + n);
        let slen = src.len();
        assert(from + n <= slen);
        while k < n
            invariant
                self.wf(),
                self@.alloc == old(self)@.alloc,
                self@.refs == old(self)@.refs,
                m0 == old(self)@.mem,
                part == src@.subrange(from as int, from + n),
                off == pa - old(self)@.alloc.base_paddr,
                off + n <= m0.len(),
                from + n <= slen,
                slen == src@.len(),
                m0.len() == len,
                self@.mem.len() == len,
                k <= n,
                self@.mem == overwrite(m0, off as int, part.subrange(0, k as int)),
            decreases n - k,
        {
            self.mem.set(off + k, src[from + k]);
            k = k + 1;
            assert(self@.mem =~= overwrite(m0, off as int, part.subrange(0, k as int)));
        }
        assert(part.subrange(0, k as int) =~= part);
    }

    /// Writes `bytes` into memory starting at address `pa`.
    pub fn write_bytes(&mut self, pa: u64, bytes: &[u8])
        requires
            old(self).wf(),
            old(self)@.alloc.base_paddr <= pa,
            pa - old(self)@.alloc.base_paddr + bytes@.len() <= old(self)@.mem.len(),
        ensures
            final(self).wf(),
            final(self)@.alloc == old(self)@.alloc,
            final(self)@.refs == old(self)@.refs,
            final(self)@.mem == overwrite(old(self)@.mem, pa - old(self)@.alloc.base_paddr, bytes@),
    {
        let off64 = pa - self.allocator.base_paddr();
        let len = self.mem.len();
        assert(off64 <= len);
        let off = off64 as usize;
        let mut k: usize = 0;
        let ghost m0 = self@.mem;
        while k < bytes.len()
            invariant
                self.wf(),
                self@.alloc == old(self)@.alloc,
                self@.refs == old(self)@.refs,
                m0 == old(self)@.mem,
                off == pa - old(self)@.alloc.base_paddr,
                off + bytes@.len() <= m0.len(),
                m0.len() == len,
                self@.mem.len() == len,
                k <= bytes@.len(),
                self@.mem == overwrite(m0, off as int, bytes@.subrange(0, k as int)),
            decreases bytes@.len() - k,
        {
            self.mem.set(off + k, bytes[k]);
            k = k + 1;
            assert(self@.mem =~= overwrite(m0, off as int, bytes@.subrange(0, k as int)));
        }
        assert(bytes@.subrange(0, k as int) =~= bytes@);
    }

    /// Allocates one frame (the head of the first free run) and zeroes it.
    pub fn alloc_page(&mut self) -> (r: Result<u64, AllocError>)
        requires
            old(self).wf(),
        ensures
            final(self).wf(),
            final(self)@.refs == old(self)@.refs,
            final(self)@.alloc.npage == old(self)@.alloc.npage,
            final(self)@.alloc.base_paddr == old(self)@.alloc.base_paddr,
            r is Err <==> old(self)@.alloc.n_free == 0,
            r is Err ==> r == Err::<u64, AllocError>(AllocError::OutOfMemory) && final(self)@ == old(self)@,
            r is Ok ==> {
                let pa = r->Ok_0 as int;
                &&& pa == old(self)@.alloc.addr_of(old(self)@.alloc.runs[0].base as int)
                &&& final(self)@.alloc.runs == crate::allocator::take_head(old(self)@.alloc.runs, 0, 1)
                &&& final(self)@.alloc.n_free == old(self)@.alloc.n_free - 1
                &&& !old(self)@.in_use(pa) && final(self)@.in_use(pa)
                &&& final(self)@.alloc.used_frames() == old(self)@.alloc.used_frames().insert(final(self)@.frame(pa))
                &&& final(self)@.page_bytes(pa) == Seq::<u8>::new(PGSIZE as nat, |i: int| 0u8)
                &&& final(self)@.mem.len() == old(self)@.mem.len()
                &&& forall|i: int| 0 <= i < old(self)@.mem.len() && !(final(self)@.offset(pa) <= i < final(self)@.offset(pa) + PGSIZE)
                    ==> #[trigger] final(self)@.mem[i] == old(self)@.mem[i]
            },
    {
        match self.alloc_frame() {
            Ok(pa) => {
                self.zero_page(pa);
                Ok(pa)
            },
            Err(e) => Err(e),
        }
    }

    /// Allocates one frame (the head of the first free run) and leaves its
    /// bytes as they are.
    pub fn alloc_frame(&mut self) -> (r: Result<u64, AllocError>)
        requires
            old(self).wf(),
        ensures
            final(self).wf(),
            final(self)@.refs == old(self)@.refs,
            final(self)@.mem == old(self)@.mem,
            final(self)@.alloc.npage == old(self)@.alloc.npage,
            final(self)@.alloc.base_paddr == old(self)@.alloc.base_paddr,
            old(self)@.alloc.used_frames().subset_of(final(self)@.alloc.used_frames()),
            r is Err <==> old(self)@.alloc.n_free == 0,
            r is Err ==> r == Err::<u64, AllocError>(AllocError::OutOfMemory) && final(self)@ == old(self)@,
            r is Ok ==> {
                let pa = r->Ok_0 as int;
                &&& pa == old(self)@.alloc.addr_of(old(self)@.alloc.runs[0].base as int)
                &&& final(self)@.alloc.runs == crate::allocator::take_head(old(self)@.alloc.runs, 0, 1)
                &&& final(self)@.alloc.n_free == old(self)@.alloc.n_free - 1
                &&& !old(self)@.in_use(pa) && final(self)@.in_use(pa)
                &&& final(self)@.alloc.used_frames() == old(self)@.alloc.used_frames().insert(final(self)@.frame(pa))
            },
    {
        let ghost v = self@;
        proof {
            if v.alloc.runs.len() > 0 {
                assert(run_has_first(v.alloc));
            } else {
                assert(v.alloc.free_frames() =~= Set::<int>::empty());
            }
            assert(crate::allocator::has_fit(v.alloc.runs, 1) <==> v.alloc.runs.len() > 0) by {
                if crate::allocator::has_fit(v.alloc.runs, 1) {
                    let i = choose|i: int| 0 <= i < v.alloc.runs.len() && #[trigger] v.alloc.runs[i].len >= 1;
                }
                if v.alloc.runs.len() > 0 {
                    assert(v.alloc.runs[0].len >= 1);
                }
            }
        }
        let r = self.allocator.alloc_pages(1);
        proof {
            if let Ok(pa) = r {
                let i = choose|i: int| crate::allocator::first_fit(v.alloc.runs, 1, i) && #[trigger] v.alloc.runs[i].base == v.alloc.runs[i].base
                    && Ok::<u64, AllocError>(pa) == Ok::<u64, AllocError>(v.alloc.addr_of(v.alloc.runs[i].base as int) as u64)
                    && self@.alloc.runs == crate::allocator::take_head(v.alloc.runs, i, 1)
                    && self@.alloc.used_frames() == v.alloc.used_frames() + frame_range(v.alloc.runs[i].base as int, 1);
                assert(i == 0) by {
                    if i > 0 {
                        assert(v.alloc.runs[0].len < 1);
                    }
                }
                let b = v.alloc.runs[0].base as int;
                assert(b + 1 <= v.alloc.npage);
                assert(frame_range(b, 1) =~= Set::<int>::empty().insert(b));
                assert(pa - v.alloc.base_paddr == b * 4096);
                assert(v.frame(pa as int) == b) by (nonlinear_arith)
                    requires pa - v.alloc.base_paddr == b * 4096, v.frame(pa as int) == (pa - v.alloc.base_paddr) / 4096;
                assert((pa - v.alloc.base_paddr) % 4096 == 0) by (nonlinear_arith)
                    requires pa - v.alloc.base_paddr == b * 4096;
                assert(v.alloc.free_frames().contains(b)) by {
                    assert(crate::allocator::run_has(v.alloc.runs[0], b));
                }
                assert(self@.alloc.used_frames() =~= v.alloc.used_frames().insert(b));
            }
        }
        r
    }

    /// Increments the reference count of the frame at `pa` and returns it.
    pub fn page_ref_inc(&mut self, pa: u64) -> (r: i32)
        requires
            old(self).wf(),
            old(self)@.in_use(pa as int),
            old(self)@.ref_of(pa as int) < i32::MAX,
        ensures
            final(self).wf(),
            r == old(self)@.ref_of(pa as int) + 1,
            final(self)@.alloc == old(self)@.alloc,
            final(self)@.mem == old(self)@.mem,
            final(self)@.refs == old(self)@.refs.update(old(self)@.frame(pa as int), r as int),
    {
        let f = self.allocator.addr2page(pa);
        let mut p = self.pages[f];
        let r = p.page_ref_inc();
        self.pages.set(f, p);
        assert(self@.refs =~= old(self)@.refs.update(old(self)@.frame(pa as int), r as int));
        r
    }

    /// Decrements the reference count of the frame at `pa` and returns it.
    pub fn page_ref_dec(&mut self, pa: u64) -> (r: i32)
        requires
            old(self).wf(),
            old(self)@.is_frame_addr(pa as int),
            old(self)@.ref_of(pa as int) > 0,
        ensures
            final(self).wf(),
            r == old(self)@.ref_of(pa as int) - 1,
            final(self)@.alloc == old(self)@.alloc,
            final(self)@.mem == old(self)@.mem,
            final(self)@.refs == old(self)@.refs.update(old(self)@.frame(pa as int), r as int),
    {
        let f = self.allocator.addr2page(pa);
        let mut p = self.pages[f];
        let r = p.page_ref_dec();
        self.pages.set(f, p);
        assert(self@.refs =~= old(self)@.refs.update(old(self)@.frame(pa as int), r as int));
        r
    }
}

/// A well-formed allocator with a run has a free frame at the head of it.
spec fn run_has_first(a: AllocatorView) -> bool {
    a.free_frames().contains(a.runs[0].base as int)
}

/// Gives back the frame at `pa`, which is handed out and referred to by no mapping.
pub fn dealloc_page(pmm: &mut Pmm, pa: u64)
    requires
        old(pmm).wf(),
        old(pmm)@.in_use(pa as int),
        old(pmm)@.ref_of(pa as int) == 0,
    ensures
        final(pmm).wf(),
        final(pmm)@.refs == old(pmm)@.refs,
        final(pmm)@.mem == old(pmm)@.mem,
        final(pmm)@.alloc.npage == old(pmm)@.alloc.npage,
        final(pmm)@.alloc.base_paddr == old(pmm)@.alloc.base_paddr,
        final(pmm)@.alloc.n_free == old(pmm)@.alloc.n_free + 1,
        final(pmm)@.alloc.runs == crate::allocator::give_back(old(pmm)@.alloc.runs, old(pmm)@.frame(pa as int), 1),
        final(pmm)@.alloc.used_frames() == old(pmm)@.alloc.used_frames().remove(old(pmm)@.frame(pa as int)),
{
    let ghost v = pmm@;
    proof {
        let g = v.frame(pa as int);
        assert(frame_range(g, 1) =~= Set::<int>::empty().insert(g));
    }
    pmm.allocator.dealloc(pa, 1);
    proof {
        let g = v.frame(pa as int);
        assert(pmm@.alloc.used_frames() =~= v.alloc.used_frames().remove(g));
    }
}

/// Physical memory that the kernel manages at most.
pub const PMEMSIZE: u64 = 512 * 1024 * 1024;

/// One past the last byte of a region that starts at `base` and holds
/// `size` bytes, clipped to the address range.
pub open spec fn region_end(base: u64, size: u64) -> int {
    if base + size <= u64::MAX { base + size } else { u64::MAX as int }
}

/// The highest end of a region of `rs` that starts below `PMEMSIZE`, at
/// most `PMEMSIZE`.
pub open spec fn max_pa(rs: Seq<(u64, u64)>) -> int
    decreases rs.len(),
{
    if rs.len() == 0 {
        0
    } else {
        let m = max_pa(rs.drop_last());
        let (b, sz) = rs.last();
        let e = region_end(b, sz);
        let m2 = if m < e && b < PMEMSIZE { e } else { m };
        if m2 > PMEMSIZE { PMEMSIZE as int } else { m2 }
    }
}

/// The first physical address above the frame descriptors of `npage` frames.
pub open spec fn free_floor(npage: int) -> int {
    (crate::page::KERNEL_PAGES + npage * crate::page::PAGE_DESC_SIZE) % 0x100_0000_0000
}

/// The page-aligned part of a region above `floor`, when it holds a page
/// (and its frames can be counted in a machine word).
pub open spec fn region_arena(base: u64, size: u64, floor: int) -> Option<(int, int)> {
    let b0 = if base < floor { floor } else { base as int };
    let e0 = region_end(base, size);
    let b = (b0 + PGSIZE - 1) / (PGSIZE as int) * PGSIZE;
    let e = e0 / (PGSIZE as int) * PGSIZE;
    if b0 < e0 && b < e && (e - b) / (PGSIZE as int) <= usize::MAX { Some((b, e)) } else { None }
}

/// The arenas of the regions of `rs` that hold a page above `floor`, in
/// the order of the regions.
pub open spec fn all_arenas(rs: Seq<(u64, u64)>, floor: int) -> Seq<(int, int)>
    decreases rs.len(),
{
    if rs.len() == 0 {
        Seq::empty()
    } else {
        let prev = all_arenas(rs.drop_last(), floor);
        match region_arena(rs.last().0, rs.last().1, floor) {
            Some(a) => prev.push(a),
            None => prev,
        }
    }
}

/// `r` lists the arenas `a`, each as its first address and number of frames.
pub open spec fn arenas_listed(r: Seq<(u64, usize)>, a: Seq<(int, int)>) -> bool {
    &&& r.len() == a.len()
    &&& forall|k: int| 0 <= k < r.len() ==> #[trigger] r[k].0 as int == a[k].0 && r[k].1 as int == (a[k].1 - a[k].0) / (PGSIZE as int)
}

/// End of a region, clipped to the address range.
fn end_of(base: u64, size: u64) -> (r: u64)
    ensures
        r == region_end(base, size),
{
    if base > u64::MAX - size { u64::MAX } else { base + size }
}

/// Reads the usable memory regions `(base, size)` of the machine once at
/// boot: the frames counted up to the highest region end (at most
/// `PMEMSIZE`) get descriptors right after `KERNEL_PAGES`, and the
/// page-aligned part of each region above those descriptors seeds a free
/// run; returned as its first address and number of frames, in the order of
/// the regions.
pub fn page_init(regions: &Vec<(u64, u64)>) -> (r: Vec<(u64, usize)>)
    ensures
        arenas_listed(r@, all_arenas(regions@, free_floor(max_pa(regions@) / (PGSIZE as int)))),
{
    let mut maxpa: u64 = 0;
    let mut i: usize = 0;
    while i < regions.len()
        invariant
            i <= regions@.len(),
            maxpa == max_pa(regions@.subrange(0, i as int)),
            maxpa <= PMEMSIZE,
        decreases regions@.len() - i,
    {
        let (b, sz) = regions[i];
        let e = end_of(b, sz);
        proof {
            let s1 = regions@.subrange(0, i + 1);
            assert(s1.drop_last() =~= regions@.subrange(0, i as int));
            assert(s1.last() == regions@[i as int]);
        }
        if maxpa < e && b < PMEMSIZE {
            maxpa = e;
        }
        if maxpa > PMEMSIZE {
            maxpa = PMEMSIZE;
        }
        i = i + 1;
    }
    assert(regions@.subrange(0, regions@.len() as int) =~= regions@);
    let npage = maxpa / PGSIZE;
    let floor = (crate::page::KERNEL_PAGES + npage * crate::page::PAGE_DESC_SIZE) % 0x100_0000_0000;
    let ghost fl = floor as int;
    let mut out: Vec<(u64, usize)> = Vec::new();
    let mut j: usize = 0;
    while j < regions.len()
        invariant
            j <= regions@.len(),
            floor == free_floor(max_pa(regions@) / (PGSIZE as int)),
            fl == floor as int,
            out@.len() == all_arenas(regions@.subrange(0, j as int), fl).len(),
            forall|k: int| 0 <= k < out@.len() ==> #[trigger] out@[k].0 as int == all_arenas(regions@.subrange(0, j as int), fl)[k].0
                && out@[k].1 as int == (all_arenas(regions@.subrange(0, j as int), fl)[k].1 - all_arenas(regions@.subrange(0, j as int), fl)[k].0) / (PGSIZE as int),
        decreases regions@.len() - j,
    {
        let (b, sz) = regions[j];
        let e0 = end_of(b, sz);
        let b0 = if b < floor { floor } else { b };
        let ghost prev = all_arenas(regions@.subrange(0, j as int), fl);
        proof {
            let s1 = regions@.subrange(0, j + 1);
            assert(s1.drop_last() =~= regions@.subrange(0, j as int));
            assert(s1.last() == regions@[j as int]);
        }
        if b0 < e0 && b0 <= u64::MAX - (PGSIZE - 1) {
            let start = (b0 + (PGSIZE - 1)) / PGSIZE * PGSIZE;
            let end = e0 / PGSIZE * PGSIZE;
            if start < end {
                let n = (end - start) / PGSIZE;
                if n <= usize::MAX as u64 {
                    let ghost before = out@;
                    out.push((start, n as usize));
                    proof {
                        assert(out@ == before.push((start, n as usize)));
                        assert(region_arena(b, sz, fl) == Some((start as int, end as int)));
                    }
                }
            }
        }
        proof {
            if out@.len() == prev.len() {
                assert(region_arena(b, sz, fl) is None) by {
                    if b0 as int + 4095 > u64::MAX {
                        assert(e0 / 4096 * 4096 < b0 + 4095 - (b0 + 4095) % 4096) by (nonlinear_arith)
                            requires b0 as int + 4095 > u64::MAX, e0 <= u64::MAX;
                    }
                }
            }
            let cur = all_arenas(regions@.subrange(0, j + 1), fl);
            assert(out@.len() == cur.len());
            assert(cur == match region_arena(b, sz, fl) { Some(a) => prev.push(a), None => prev });
            assert forall|k: int| 0 <= k < out@.len() implies #[trigger] out@[k].0 as int == cur[k].0 && out@[k].1 as int
                == (cur[k].1 - cur[k].0) / (PGSIZE as int) by {
                if k < prev.len() {
                    assert(cur[k] == prev[k]);
                } else {
                    assert(cur[k] == region_arena(b, sz, fl)->Some_0);
                }
            }
        }
        let ghost cur = all_arenas(regions@.subrange(0, j + 1), fl);
        j = j + 1;
        assert(all_arenas(regions@.subrange(0, j as int), fl) == cur);
    }
    assert(regions@.subrange(0, j as int) =~= regions@);
    assert(all_arenas(regions@.subrange(0, j as int), fl) == all_arenas(regions@, fl));
    assert(fl == free_floor(max_pa(regions@) / (PGSIZE as int)));
    assert(arenas_listed(out@, all_arenas(regions@.subrange(0, j as int), fl)));
    out
}

} // verus!
