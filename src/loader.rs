use vstd::prelude::*;
use crate::allocator::{Allocator, AllocatorView, frame_range, lemma_frames_accounted};
use crate::elf::{Elfhdr, Proghdr, ELF_MAGIC, PT_LOAD, PROGHDR_SIZE, elfhdr_of, proghdr_of, ELFHDR_SIZE};
use crate::page::{PGSIZE, USER_PAGES, USTACKTOP, USTACK_PAGES, ATTRIB_AP_RW_ALL, pt_index};
use crate::pmm::{Pmm, PmmView, overwrite};
use crate::process::{Process, TrapFrame};
use crate::vm::{PageTable, VmError, pgdir_alloc_page, perm_ok, same_page, leaf_entry, maps_held, lemma_same_page_lookup};
use crate::page::pte_addr;

verus! {

/// Privileged execute-never, set on user pages.
pub const USER_PXN: u64 = 0x1 << 53;

/// Permission bits of user pages: read/write for every level, not
/// executable by the kernel.
pub const USER_PERM: u64 = USER_PXN | ATTRIB_AP_RW_ALL;

/// Page number of `va` within the 48 bits that the tables translate.
pub open spec fn vpn(va: u64) -> int {
    (va as int % 0x1_0000_0000_0000) / 4096
}

/// Every page mapped in `pt` is reserved in the user allocator `a`.
pub open spec fn maps_reserved(pt: PageTable, a: AllocatorView) -> bool {
    forall|va: u64| #[trigger] pt.lookup(va) is Some ==> a.used_frames().contains(vpn(va))
}

/// Addresses of the same page have the same page number.
pub(crate) proof fn lemma_same_page_vpn(a: u64, b: u64)
    requires
        same_page(a, b),
    ensures
        vpn(a) == vpn(b),
{
    assert(((a / 0x80_0000_0000) % 512 == (b / 0x80_0000_0000) % 512 && (a / 0x4000_0000) % 512 == (b / 0x4000_0000)
        % 512 && (a / 0x20_0000) % 512 == (b / 0x20_0000) % 512 && (a / 0x1000) % 512 == (b / 0x1000) % 512)
        ==> (a % 0x1_0000_0000_0000) / 4096 == (b % 0x1_0000_0000_0000) / 4096) by (bit_vector);
}

/// Reserves the page of `va` in the process's allocator `allocator`, then
/// maps a fresh zeroed frame there; returns the frame's address.
/// `OutOfMemory` when the page is already taken or no frame is left.
pub fn user_pgdir_alloc_page(allocator: &mut Allocator, pmm: &mut Pmm, pt: &mut PageTable, va: u64, perm: u64) -> (r: Result<u64, VmError>)
    requires
        old(allocator).wf(),
        old(allocator)@.base_paddr == 0,
        old(pmm).wf(),
        old(pt).wf(),
        perm_ok(perm),
        maps_reserved(*old(pt), old(allocator)@),
        maps_held(*old(pt), old(pmm)@),
        old(allocator)@.npage <= USER_PAGES / PGSIZE,
    ensures
        maps_held(*final(pt), final(pmm)@),
        final(allocator).wf(),
        final(allocator)@.base_paddr == 0,
        final(allocator)@.npage == old(allocator)@.npage,
        final(pmm).wf(),
        final(pt).wf(),
        final(pmm)@.alloc.npage == old(pmm)@.alloc.npage,
        final(pmm)@.alloc.base_paddr == old(pmm)@.alloc.base_paddr,
        maps_reserved(*final(pt), final(allocator)@),
        r is Err ==> r == Err::<u64, VmError>(VmError::OutOfMemory) && forall|va2: u64| #[trigger] final(pt).lookup(va2) == old(pt).lookup(va2),
        va < USER_PAGES && old(allocator)@.free_frames().contains((va / PGSIZE) as int) && old(pmm)@.alloc.n_free >= 4
            && old(pt).ntables() + 3 <= crate::vm::MAX_TABLES ==> r is Ok,
        r is Ok ==> final(allocator)@.used_frames() == old(allocator)@.used_frames().insert((va / PGSIZE) as int),
        r is Err ==> final(allocator)@.used_frames() == old(allocator)@.used_frames() || final(allocator)@.used_frames()
            == old(allocator)@.used_frames().insert((va / PGSIZE) as int),
        r is Err ==> final(pmm)@.alloc.n_free <= old(pmm)@.alloc.n_free,
        old(pt).ntables() <= final(pt).ntables() <= old(pt).ntables() + 3,
        r is Ok ==> final(pmm)@.alloc.n_free + (final(pt).ntables() - old(pt).ntables()) + 1 == old(pmm)@.alloc.n_free,
        r is Ok ==> bytes_kept(old(pmm)@, final(pmm)@) && lookups_kept(*old(pt), *final(pt)),
        r is Ok ==> {
            let pa = r->Ok_0;
            &&& final(pmm)@.page_bytes(pa as int) == Seq::<u8>::new(PGSIZE as nat, |i: int| 0u8)
            &&& va < USER_PAGES
            &&& old(pt).lookup(va) is None
            &&& !old(pmm)@.in_use(pa as int)
            &&& final(pmm)@.in_use(pa as int)
            &&& final(pmm)@.ref_of(pa as int) == 1
            &&& forall|va2: u64| #[trigger] final(pt).lookup(va2) == if same_page(va2, va) {
                Some(leaf_entry(pa, perm))
            } else {
                old(pt).lookup(va2)
            }
        },
{
    let ghost a0 = allocator@;
    match allocator.alloc_at(va, 1) {
        Ok(_) => {},
        Err(_) => {
            proof {
                if va < USER_PAGES && a0.free_frames().contains((va / 4096) as int) {
                    let i = choose|i: int| 0 <= i < a0.runs.len() && crate::allocator::run_has(#[trigger] a0.runs[i], (va / 4096) as int);
                    assert(crate::allocator::page_floor(va) == va / 4096 * 4096);
                    assert(a0.frame_of(crate::allocator::page_floor(va)) == va / 4096) by (nonlinear_arith)
                        requires a0.frame_of(crate::allocator::page_floor(va)) == (va / 4096 * 4096 - 0) / 4096;
                    assert(crate::allocator::holds_range(a0.runs, i, (va / 4096) as int, 1));
                }
            }
            return Err(VmError::OutOfMemory);
        },
    }
    let ghost t = a0.frame_of(crate::allocator::page_floor(va));
    proof {
        assert(t == va / 4096) by (nonlinear_arith)
            requires t == (va / 4096 * 4096) / 4096;
        assert(allocator@.used_frames() =~= a0.used_frames().insert(t)) by {
            assert(crate::allocator::frame_range(t, 1) =~= Set::<int>::empty().insert(t));
        }
        let i = choose|i: int| crate::allocator::holds_range(a0.runs, i, t, 1);
        assert(a0.free_frames().contains(t)) by {
            assert(crate::allocator::run_has(a0.runs[i], t));
        }
        assert(t < a0.npage);
        assert(vpn(va) == t) by (nonlinear_arith)
            requires t == (va / 4096 * 4096) / 4096, t < a0.npage, a0.npage <= 0x1fd00, vpn(va) == (va as int % 0x1_0000_0000_0000) / 4096;
        assert(allocator@.used_frames().contains(t)) by {
            assert(crate::allocator::frame_range(t, 1).contains(t));
        }
        if pt.lookup(va) is Some {
            assert(a0.used_frames().contains(vpn(va)));
        }
    }
    let ghost m0 = pmm@;
    let ghost t0 = *pt;
    let r = pgdir_alloc_page(pmm, pt, va, perm);
    proof {
        if let Ok(pa) = r {
            assert forall|x: int| #[trigger] m0.in_use(x) implies pmm@.in_use(x) && pmm@.page_bytes(x) == m0.page_bytes(x) by {
                assert(m0.frame(x) != m0.frame(pa as int));
                crate::fork::lemma_other_page_kept(m0, pmm@, x, pa as int);
            }
            assert forall|va2: u64| #[trigger] t0.lookup(va2) is Some implies pt.lookup(va2) == t0.lookup(va2) by {
                if same_page(va2, va) {
                    lemma_same_page_lookup(t0, va2, va);
                }
            }
        }
        assert forall|va2: u64| #[trigger] pt.lookup(va2) is Some implies pmm@.is_frame_addr(pte_addr(pt.lookup(va2)->Some_0))
            && pmm@.ref_of(pte_addr(pt.lookup(va2)->Some_0)) > 0 by {
            if r is Ok && same_page(va2, va) {
                crate::vm::lemma_insert_same_frame(pmm@, r->Ok_0, perm);
            } else {
                let x = pte_addr(t0.lookup(va2)->Some_0);
                assert(m0.refs[m0.frame(x)] > 0);
                assert(m0.alloc.used_frames().contains(m0.frame(x)));
                if r is Ok {
                    assert(m0.frame(x) != m0.frame(r->Ok_0 as int));
                }
            }
        }
        assert forall|va2: u64| #[trigger] pt.lookup(va2) is Some implies allocator@.used_frames().contains(vpn(va2)) by {
            if r is Ok && same_page(va2, va) {
                lemma_same_page_vpn(va2, va);
            } else {
                assert(old(pt).lookup(va2) is Some);
                assert(a0.used_frames().contains(vpn(va2)));
            }
        }
    }
    r
}

/// A loadable segment lies inside the image, and its addresses and offsets
/// stay clear of the top of the address range.
pub open spec fn seg_ok(b: Seq<u8>, ph: Proghdr) -> bool {
    ph.p_type == PT_LOAD ==> {
        &&& ph.p_offset + ph.p_filesz <= b.len()
        &&& ph.p_filesz <= ph.p_memsz
        &&& ph.p_offset + ph.p_memsz + PGSIZE <= u64::MAX
        &&& seg_end(ph) <= STACK_BOTTOM
    }
}

/// Lowest address of the initial user stack.
pub const STACK_BOTTOM: u64 = USTACKTOP - USTACK_PAGES * PGSIZE;

/// One past the last address of the pages that loading segment `ph` maps.
pub open spec fn seg_end(ph: Proghdr) -> int {
    seg_base(ph) + seg_pages(ph) * PGSIZE
}

/// Program header `i` of the image `b`.
pub open spec fn ph_at(b: Seq<u8>, i: int) -> Proghdr {
    proghdr_of(b, ph_offset(b, i))
}

/// The pages of two different loadable segments of `b` do not overlap.
pub open spec fn segs_apart(b: Seq<u8>) -> bool {
    forall|i: int, j: int|
        0 <= i < j < elfhdr_of(b).e_phnum && (#[trigger] ph_at(b, i)).p_type == PT_LOAD && (#[trigger] ph_at(b, j)).p_type
            == PT_LOAD ==> seg_end(ph_at(b, i)) <= seg_base(ph_at(b, j)) || seg_end(ph_at(b, j)) <= seg_base(ph_at(b, i))
}

/// The first page and one past the last page that loading segment `ph` maps,
/// when the end fits a machine word.
fn seg_span(ph: &Proghdr) -> (r: Option<(u64, u64)>)
    requires
        ph.p_offset + ph.p_memsz + PGSIZE <= u64::MAX,
    ensures
        seg_end(*ph) <= u64::MAX ==> r == Some((seg_base(*ph) as u64, seg_end(*ph) as u64)),
        seg_end(*ph) > u64::MAX ==> r is None,
{
    let base = ph.p_va / PGSIZE * PGSIZE;
    let off = ph.p_va % PGSIZE;
    let head: u64 = if off > 0 { 1 } else { 0 };
    let bs = ph.p_offset + if off > 0 { PGSIZE - off } else { 0 };
    let end2 = ph.p_offset + ph.p_memsz;
    let rest = if end2 > bs { (end2 - bs + (PGSIZE - 1)) / PGSIZE } else { 0 };
    let pages = head + rest;
    assert(pages as int == seg_pages(*ph));
    if pages > (u64::MAX - base) / PGSIZE {
        assert(seg_end(*ph) > u64::MAX) by (nonlinear_arith)
            requires pages > (u64::MAX - base) / 4096, seg_end(*ph) == base + pages * 4096, base <= u64::MAX;
        return None;
    }
    assert(base + pages * 4096 <= u64::MAX) by (nonlinear_arith)
        requires pages <= (u64::MAX - base) / 4096, base <= u64::MAX;
    Some((base, base + pages * PGSIZE))
}

/// First address of the page that holds the start of segment `ph`.
pub open spec fn seg_base(ph: Proghdr) -> int {
    ph.p_va as int / 4096 * 4096
}

/// File offset of the first byte of segment `ph` that is loaded at the
/// start of a page.
pub open spec fn body_start(ph: Proghdr) -> int {
    ph.p_offset + if ph.p_va % PGSIZE > 0 { PGSIZE - ph.p_va % PGSIZE } else { 0 }
}

/// Number of pages that loading segment `ph` maps: the page of a head that
/// does not start on a page boundary, then one page for each page of the
/// rest of its memory image.
pub open spec fn seg_pages(ph: Proghdr) -> int {
    (if ph.p_va % PGSIZE > 0 { 1int } else { 0int }) + if ph.p_offset + ph.p_memsz > body_start(ph) {
        (ph.p_offset + ph.p_memsz - body_start(ph) + PGSIZE - 1) / (PGSIZE as int)
    } else {
        0
    }
}

/// Page `k` of segment `ph` is mapped in `pt`.
pub open spec fn seg_page_mapped(pt: PageTable, ph: Proghdr, k: int) -> bool {
    pt.lookup((seg_base(ph) + k * PGSIZE) as u64) is Some
}

/// Every page of segment `ph` is mapped in `pt`.
pub open spec fn seg_mapped(pt: PageTable, ph: Proghdr) -> bool {
    forall|k: int| 0 <= k < seg_pages(ph) ==> #[trigger] seg_page_mapped(pt, ph, k)
}

/// Every address mapped in `a` is mapped in `b`.
pub open spec fn maps_kept(a: PageTable, b: PageTable) -> bool {
    forall|va: u64| #[trigger] a.lookup(va) is Some ==> b.lookup(va) is Some
}

/// Every frame in use in `a` is still in use in `b` and holds the same bytes.
pub open spec fn bytes_kept(a: PmmView, b: PmmView) -> bool {
    &&& a.alloc.base_paddr == b.alloc.base_paddr
    &&& a.alloc.npage == b.alloc.npage
    &&& forall|x: int| #[trigger] a.in_use(x) ==> b.in_use(x) && b.page_bytes(x) == a.page_bytes(x)
}

/// Every mapping of `a` is the same in `b`.
pub open spec fn lookups_kept(a: PageTable, b: PageTable) -> bool {
    forall|va: u64| #[trigger] a.lookup(va) is Some ==> b.lookup(va) == a.lookup(va)
}

/// The bytes of page `k` of segment `ph` once loaded from the image `b`: a
/// byte of the segment's file image sits at its address, every other byte
/// is zero.
pub open spec fn seg_image(b: Seq<u8>, ph: Proghdr, k: int) -> Seq<u8> {
    Seq::new(
        PGSIZE as nat,
        |x: int|
            {
                let d = seg_base(ph) + k * PGSIZE + x - ph.p_va;
                if 0 <= d < ph.p_filesz { b[ph.p_offset + d] } else { 0u8 }
            },
    )
}

/// Page `k` of segment `ph` is mapped in `pt` to a frame of `pmm` that
/// holds its loaded bytes.
pub open spec fn seg_page_loaded(pt: PageTable, pmm: PmmView, b: Seq<u8>, ph: Proghdr, k: int) -> bool {
    pt.lookup((seg_base(ph) + k * PGSIZE) as u64) matches Some(e) && pmm.page_bytes(pte_addr(e)) == seg_image(b, ph, k)
}

/// Every page of segment `ph` is mapped in `pt` and holds its loaded bytes.
pub open spec fn seg_loaded(pt: PageTable, pmm: PmmView, b: Seq<u8>, ph: Proghdr) -> bool {
    forall|k: int| 0 <= k < seg_pages(ph) ==> #[trigger] seg_page_loaded(pt, pmm, b, ph, k)
}

/// Pages loaded stay loaded when mappings and the bytes of frames in use
/// are kept.
proof fn lemma_loaded_kept(pt0: PageTable, pt1: PageTable, m0: PmmView, m1: PmmView, b: Seq<u8>, ph: Proghdr, n: int)
    requires
        forall|k: int| 0 <= k < n ==> #[trigger] seg_page_loaded(pt0, m0, b, ph, k),
        maps_held(pt0, m0),
        m0.wf(),
        lookups_kept(pt0, pt1),
        bytes_kept(m0, m1),
    ensures
        forall|k: int| 0 <= k < n ==> #[trigger] seg_page_loaded(pt1, m1, b, ph, k),
{
    assert forall|k: int| 0 <= k < n implies #[trigger] seg_page_loaded(pt1, m1, b, ph, k) by {
        assert(seg_page_loaded(pt0, m0, b, ph, k));
        let va = (seg_base(ph) + k * PGSIZE) as u64;
        let x = pte_addr(pt0.lookup(va)->Some_0);
        assert(m0.refs[m0.frame(x)] > 0);
        assert(m0.in_use(x));
    }
}

/// A zeroed frame at `pa`, into which the `n` bytes of `b` from `from` on
/// were copied at in-page offset `o`, holds page `k` of segment `ph` as
/// loaded, when those bytes are exactly the part of the segment's file
/// image that falls in that page; frames in use before it keep their bytes.
proof fn lemma_page_image(m0: PmmView, m1: PmmView, m2: PmmView, pa: int, o: int, b: Seq<u8>, from: int, n: int, ph: Proghdr, k: int)
    requires
        m1.wf(),
        m1.in_use(pa),
        !m0.in_use(pa),
        bytes_kept(m0, m1),
        m1.page_bytes(pa) == Seq::<u8>::new(PGSIZE as nat, |i: int| 0u8),
        m2.alloc == m1.alloc,
        m2.mem == overwrite(m1.mem, pa - m1.alloc.base_paddr + o, b.subrange(from, from + n)),
        0 <= o,
        0 <= n,
        o + n <= PGSIZE,
        0 <= from,
        from + n <= b.len(),
        n > 0 ==> from == ph.p_offset + (seg_base(ph) + k * PGSIZE + o - ph.p_va),
        o > 0 ==> seg_base(ph) + k * PGSIZE + o - ph.p_va == 0,
        n > 0 ==> 0 <= seg_base(ph) + k * PGSIZE + o - ph.p_va && seg_base(ph) + k * PGSIZE + o - ph.p_va + n <= ph.p_filesz,
        seg_base(ph) + k * PGSIZE + o - ph.p_va + n >= ph.p_filesz || o + n == PGSIZE,
        ph.p_offset + ph.p_filesz <= b.len(),
    ensures
        m2.page_bytes(pa) == seg_image(b, ph, k),
        bytes_kept(m0, m2),
{
    let base = m1.alloc.base_paddr;
    let f = m1.frame(pa);
    assert(pa - base == f * 4096) by (nonlinear_arith)
        requires (pa - base) % 4096 == 0, f == (pa - base) / 4096;
    assert(m1.offset(pa) == pa - base);
    assert(f * 4096 + 4096 <= m1.mem.len()) by (nonlinear_arith)
        requires f < m1.alloc.npage, m1.mem.len() == m1.alloc.npage * 4096;
    let d0 = seg_base(ph) + k * PGSIZE + o - ph.p_va;
    assert forall|x: int| 0 <= x < PGSIZE implies #[trigger] m2.page_bytes(pa)[x] == seg_image(b, ph, k)[x] by {
        assert(m2.page_bytes(pa)[x] == m2.mem[pa - base + x]);
        assert(m1.page_bytes(pa)[x] == m1.mem[pa - base + x]);
        let d = d0 + x - o;
        if o <= x < o + n {
            assert(m2.mem[pa - base + x] == b[from + x - o]);
        } else {
            assert(m2.mem[pa - base + x] == m1.mem[pa - base + x]);
        }
    }
    assert(m2.page_bytes(pa) =~= seg_image(b, ph, k));
    assert forall|x: int| #[trigger] m0.in_use(x) implies m2.in_use(x) && m2.page_bytes(x) == m0.page_bytes(x) by {
        assert(m1.in_use(x));
        assert(m1.frame(x) != m1.frame(pa));
        assert forall|i: int| 0 <= i < m1.mem.len() && !(m1.offset(pa) <= i < m1.offset(pa) + PGSIZE) implies #[trigger] m2.mem[i]
            == m1.mem[i] by {}
        crate::fork::lemma_other_page_kept(m1, m2, x, pa);
    }
}

/// Keeping bytes composes.
proof fn lemma_bytes_kept_trans(a: PmmView, b: PmmView, c: PmmView)
    requires
        bytes_kept(a, b),
        bytes_kept(b, c),
    ensures
        bytes_kept(a, c),
{
    assert forall|x: int| #[trigger] a.in_use(x) implies c.in_use(x) && c.page_bytes(x) == a.page_bytes(x) by {
        assert(b.in_use(x));
    }
}

/// Keeping mappings composes.
proof fn lemma_lookups_kept_trans(a: PageTable, b: PageTable, c: PageTable)
    requires
        lookups_kept(a, b),
        lookups_kept(b, c),
    ensures
        lookups_kept(a, c),
{
    assert forall|va: u64| #[trigger] a.lookup(va) is Some implies c.lookup(va) == a.lookup(va) by {
        assert(b.lookup(va) is Some);
    }
}

/// Offset of program header `i` in the image `b`.
pub open spec fn ph_offset(b: Seq<u8>, i: int) -> int {
    elfhdr_of(b).e_phoff + i * PROGHDR_SIZE
}

/// The image holds a file header with the right magic number, its program
/// headers, and the file bytes of every loadable segment.
pub open spec fn image_ok(b: Seq<u8>) -> bool {
    let h = elfhdr_of(b);
    &&& b.len() >= ELFHDR_SIZE
    &&& h.e_magic == ELF_MAGIC
    &&& h.e_phoff + h.e_phnum * PROGHDR_SIZE <= b.len()
    &&& forall|i: int| 0 <= i < h.e_phnum ==> seg_ok(b, #[trigger] proghdr_of(b, ph_offset(b, i)))
    &&& segs_apart(b)
}

/// Whether `b` is an image that can be loaded.
pub fn check_image(b: &[u8]) -> (r: bool)
    ensures
        r == image_ok(b@),
{
    let h = match Elfhdr::parse(b) {
        Some(h) => h,
        None => {
            return false;
        },
    };
    if h.e_magic != ELF_MAGIC {
        return false;
    }
    let len = b.len() as u64;
    let table = (h.e_phnum as u64) * (PROGHDR_SIZE as u64);
    if h.e_phoff > len || len - h.e_phoff < table {
        return false;
    }
    let mut i: u16 = 0;
    while i < h.e_phnum
        invariant
            h == elfhdr_of(b@),
            b@.len() >= ELFHDR_SIZE,
            h.e_phoff + h.e_phnum * PROGHDR_SIZE <= b@.len(),
            len == b@.len(),
            i <= h.e_phnum,
            forall|j: int| 0 <= j < i ==> seg_ok(b@, #[trigger] proghdr_of(b@, ph_offset(b@, j))),
        decreases h.e_phnum - i,
    {
        assert(h.e_phoff + i * 56 + 56 <= b@.len()) by (nonlinear_arith)
            requires h.e_phoff + h.e_phnum * 56 <= b@.len(), i < h.e_phnum;
        let ph = match Proghdr::parse(b, h.e_phoff + (i as u64) * (PROGHDR_SIZE as u64)) {
            Some(ph) => ph,
            None => {
                return false;
            },
        };
        if ph.p_type == PT_LOAD {
            if ph.p_offset > len || len - ph.p_offset < ph.p_filesz || ph.p_filesz > ph.p_memsz
                || ph.p_offset > u64::MAX - PGSIZE || u64::MAX - PGSIZE - ph.p_offset < ph.p_memsz {
                assert(!seg_ok(b@, proghdr_of(b@, ph_offset(b@, i as int))));
                return false;
            }
            assert(ph == proghdr_of(b@, ph_offset(b@, i as int)));
            match seg_span(&ph) {
                Some((_, e)) => {
                    if e > STACK_BOTTOM {
                        assert(!seg_ok(b@, proghdr_of(b@, ph_offset(b@, i as int))));
                        return false;
                    }
                },
                None => {
                    assert(!seg_ok(b@, proghdr_of(b@, ph_offset(b@, i as int))));
                    return false;
                },
            }
        }
        i = i + 1;
    }
    let mut i: u16 = 0;
    while i < h.e_phnum
        invariant
            h == elfhdr_of(b@),
            b@.len() >= ELFHDR_SIZE,
            h.e_phoff + h.e_phnum * PROGHDR_SIZE <= b@.len(),
            len == b@.len(),
            i <= h.e_phnum,
            forall|j: int| 0 <= j < h.e_phnum ==> seg_ok(b@, #[trigger] proghdr_of(b@, ph_offset(b@, j))),
            forall|x: int, y: int|
                0 <= x < i && x < y < h.e_phnum && (#[trigger] ph_at(b@, x)).p_type == PT_LOAD && (#[trigger] ph_at(b@, y)).p_type
                    == PT_LOAD ==> seg_end(ph_at(b@, x)) <= seg_base(ph_at(b@, y)) || seg_end(ph_at(b@, y)) <= seg_base(ph_at(b@, x)),
        decreases h.e_phnum - i,
    {
        assert(h.e_phoff + i * 56 + 56 <= b@.len()) by (nonlinear_arith)
            requires h.e_phoff + h.e_phnum * 56 <= b@.len(), i < h.e_phnum;
        let pi = match Proghdr::parse(b, h.e_phoff + (i as u64) * (PROGHDR_SIZE as u64)) {
            Some(ph) => ph,
            None => {
                return false;
            },
        };
        assert(pi == ph_at(b@, i as int));
        let mut j: u16 = i + 1;
        while j < h.e_phnum
            invariant
                h == elfhdr_of(b@),
                h.e_phoff + h.e_phnum * PROGHDR_SIZE <= b@.len(),
                len == b@.len(),
                i < j <= h.e_phnum,
                pi == ph_at(b@, i as int),
                forall|q: int| 0 <= q < h.e_phnum ==> seg_ok(b@, #[trigger] proghdr_of(b@, ph_offset(b@, q))),
                forall|y: int|
                    i < y < j && pi.p_type == PT_LOAD && (#[trigger] ph_at(b@, y)).p_type == PT_LOAD ==> seg_end(pi)
                        <= seg_base(ph_at(b@, y)) || seg_end(ph_at(b@, y)) <= seg_base(pi),
            decreases h.e_phnum - j,
        {
            assert(h.e_phoff + j * 56 + 56 <= b@.len()) by (nonlinear_arith)
                requires h.e_phoff + h.e_phnum * 56 <= b@.len(), j < h.e_phnum;
            let pj = match Proghdr::parse(b, h.e_phoff + (j as u64) * (PROGHDR_SIZE as u64)) {
                Some(ph) => ph,
                None => {
                    return false;
                },
            };
            assert(pj == ph_at(b@, j as int));
            if pi.p_type == PT_LOAD && pj.p_type == PT_LOAD {
                assert(seg_ok(b@, proghdr_of(b@, ph_offset(b@, i as int))));
                assert(seg_ok(b@, proghdr_of(b@, ph_offset(b@, j as int))));
                let (bi, ei) = match seg_span(&pi) {
                    Some(x) => x,
                    None => {
                        return false;
                    },
                };
                let (bj, ej) = match seg_span(&pj) {
                    Some(x) => x,
                    None => {
                        return false;
                    },
                };
                if !(ei <= bj || ej <= bi) {
                    return false;
                }
            }
            j = j + 1;
        }
        i = i + 1;
    }
    true
}

/// Loads one segment whose header is `ph` into the address space `pt`: a
/// page for a head that does not start on a page boundary, then a page for
/// each further page of file bytes, then zeroed pages up to its memory size.
fn load_segment(allocator: &mut Allocator, pmm: &mut Pmm, pt: &mut PageTable, binary: &[u8], ph: Proghdr) -> (r: Result<(), i32>)
    requires
        old(allocator).wf(),
        old(allocator)@.base_paddr == 0,
        old(allocator)@.npage == USER_PAGES / PGSIZE,
        old(pmm).wf(),
        old(pt).wf(),
        maps_reserved(*old(pt), old(allocator)@),
        maps_held(*old(pt), old(pmm)@),
        ph.p_type == PT_LOAD,
        seg_ok(binary@, ph),
        old(allocator)@.used_frames().disjoint(frame_range(seg_base(ph) / PGSIZE as int, seg_pages(ph))),
        old(pt).ntables() <= 1 + 3 * old(allocator)@.used_frames().len(),
    ensures
        r is Ok ==> final(pt).ntables() <= 1 + 3 * final(allocator)@.used_frames().len(),
        r is Ok ==> final(allocator)@.used_frames() == old(allocator)@.used_frames() + frame_range(seg_base(ph) / PGSIZE as int, seg_pages(ph)),
        r is Err ==> final(pmm)@.alloc.n_free < 4,
        old(pmm)@.alloc.n_free >= 4 * seg_pages(ph) ==> r is Ok,
        r is Ok ==> final(pmm)@.alloc.n_free + 4 * seg_pages(ph) >= old(pmm)@.alloc.n_free,
        final(allocator).wf(),
        final(allocator)@.base_paddr == 0,
        final(allocator)@.npage == USER_PAGES / PGSIZE,
        final(pmm).wf(),
        final(pt).wf(),
        final(pmm)@.alloc.npage == old(pmm)@.alloc.npage,
        final(pmm)@.alloc.base_paddr == old(pmm)@.alloc.base_paddr,
        maps_reserved(*final(pt), final(allocator)@),
        maps_held(*final(pt), final(pmm)@),
        maps_kept(*old(pt), *final(pt)),
        r is Err ==> r == Err::<(), i32>(-3i32),
        r is Ok ==> seg_mapped(*final(pt), ph),
        r is Ok ==> seg_loaded(*final(pt), final(pmm)@, binary@, ph),
        r is Ok ==> bytes_kept(old(pmm)@, final(pmm)@) && lookups_kept(*old(pt), *final(pt)),
{
    proof {
        assert(ATTRIB_AP_RW_ALL == 0x40 && USER_PXN == 0x20_0000_0000_0000) by (bit_vector);
        assert((0x20_0000_0000_0000u64 | 0x40u64) & 0xFFFFFFF000 == 0) by (bit_vector);
    }
    let perm = USER_PERM;
    let offset = ph.p_va % PGSIZE;
    let mut va = ph.p_va - offset;
    let mut bin_off = ph.p_offset;
    let blen = binary.len();
    let end = ph.p_offset + ph.p_filesz;
    let ghost pt0 = *pt;
    let ghost head: int = if offset > 0 { 1int } else { 0int };
    let ghost mut m: int = 0;
    let ghost used0 = allocator@.used_frames();
    let ghost start = seg_base(ph) / PGSIZE as int;
    proof {
        assert(seg_base(ph) % 4096 == 0 && seg_base(ph) == start * 4096) by (nonlinear_arith)
            requires seg_base(ph) == ph.p_va as int / 4096 * 4096, start == seg_base(ph) / 4096;
        assert(ph.p_va - seg_base(ph) == ph.p_va % 4096) by (nonlinear_arith)
            requires seg_base(ph) == ph.p_va as int / 4096 * 4096;
        assert(allocator@.used_frames() =~= used0 + frame_range(start, 0));
        assert(bytes_kept(pmm@, pmm@));
        assert(lookups_kept(*pt, *pt));
    }
    if offset > 0 {
        let ghost t0 = *pt;
        let ghost ub = allocator@.used_frames();
        proof {
            lemma_page_free(*allocator, pmm, pt, ph, used0, start, 0);
        }
        let pa = match user_pgdir_alloc_page(allocator, pmm, pt, va, perm) {
            Ok(pa) => pa,
            Err(_) => {
                return Err(-3);
            },
        };
        proof {
            lemma_page_taken(allocator@.used_frames(), used0, start, 0);
            lemma_one_more(ub, start);
            assert(seg_page_mapped(*pt, ph, 0));
            assert forall|va2: u64| #[trigger] pt0.lookup(va2) is Some implies pt.lookup(va2) is Some by {
                if !same_page(va2, va) {
                    assert(pt.lookup(va2) == t0.lookup(va2));
                }
            }
        }
        let room = PGSIZE - offset;
        let size = if ph.p_filesz < room { ph.p_filesz } else { room };
        proof {
            lemma_frame_room(pmm, pa);
        }
        let ghost ma = pmm@;
        pmm.copy_in(pa + offset, binary, bin_off as usize, size as usize);
        proof {
            lemma_page_image(old(pmm)@, ma, pmm@, pa as int, offset as int, binary@, bin_off as int, size as int, ph, 0);
            crate::vm::lemma_insert_same_frame(pmm@, pa, perm);
            assert(seg_page_loaded(*pt, pmm@, binary@, ph, 0));
        }
        va = va + PGSIZE;
        bin_off = bin_off + room;
    }
    while bin_off < end
        invariant
            allocator.wf(),
            allocator@.base_paddr == 0,
            allocator@.npage == USER_PAGES / PGSIZE,
            pmm.wf(),
            pt.wf(),
            pmm@.alloc.npage == old(pmm)@.alloc.npage,
            pmm@.alloc.base_paddr == old(pmm)@.alloc.base_paddr,
            maps_reserved(*pt, allocator@),
            maps_held(*pt, pmm@),
            end == ph.p_offset + ph.p_filesz,
            end <= blen,
            head == (if ph.p_va % PGSIZE > 0 { 1int } else { 0int }),
            m >= 0,
            bin_off == body_start(ph) + m * PGSIZE,
            va == seg_base(ph) + (head + m) * PGSIZE,
            forall|k: int| 0 <= k < head + m ==> #[trigger] seg_page_mapped(*pt, ph, k),
            maps_kept(pt0, *pt),
            pt0 == *old(pt),
            used0 == old(allocator)@.used_frames(),
            head + m <= seg_pages(ph),
            pmm@.alloc.n_free + 4 * (head + m) >= old(pmm)@.alloc.n_free,
            bytes_kept(old(pmm)@, pmm@),
            lookups_kept(pt0, *pt),
            forall|k: int| 0 <= k < head + m ==> #[trigger] seg_page_loaded(*pt, pmm@, binary@, ph, k),
            ph.p_va - seg_base(ph) == ph.p_va % 4096,
            start == seg_base(ph) / PGSIZE as int,
            seg_base(ph) == start * 4096,
            used0.disjoint(frame_range(start, seg_pages(ph))),
            allocator@.used_frames() == used0 + frame_range(start, head + m),
            pt.ntables() <= 1 + 3 * allocator@.used_frames().len(),
            seg_end(ph) <= STACK_BOTTOM,
            blen == binary@.len(),
            perm == USER_PERM,
            perm_ok(perm),
            seg_ok(binary@, ph),
            ph.p_type == PT_LOAD,
            bin_off <= ph.p_offset + ph.p_memsz + PGSIZE,
        decreases end as int + PGSIZE - bin_off as int,
    {
        let ghost t0 = *pt;
        proof {
            lemma_more_pages(ph, head, m, bin_off as int);
            lemma_page_free(*allocator, pmm, pt, ph, used0, start, head + m);
        }
        let ghost ub = allocator@.used_frames();
        let ghost mc = pmm@;
        let pa = match user_pgdir_alloc_page(allocator, pmm, pt, va, perm) {
            Ok(pa) => pa,
            Err(_) => {
                return Err(-3);
            },
        };
        proof {
            lemma_mapping_grows(t0, *pt, pt0, va, ph, head + m);
            lemma_page_taken(allocator@.used_frames(), used0, start, head + m);
            lemma_one_more(ub, start + head + m);
        }
        let size = if end - bin_off < PGSIZE { end - bin_off } else { PGSIZE };
        proof {
            lemma_frame_room(pmm, pa);
        }
        let ghost ma = pmm@;
        pmm.copy_in(pa, binary, bin_off as usize, size as usize);
        proof {
            lemma_page_image(mc, ma, pmm@, pa as int, 0, binary@, bin_off as int, size as int, ph, head + m);
            lemma_loaded_kept(t0, *pt, mc, pmm@, binary@, ph, head + m);
            crate::vm::lemma_insert_same_frame(pmm@, pa, perm);
            assert(seg_page_loaded(*pt, pmm@, binary@, ph, head + m));
            lemma_bytes_kept_trans(old(pmm)@, mc, pmm@);
            lemma_lookups_kept_trans(pt0, t0, *pt);
        }
        bin_off = bin_off + PGSIZE;
        va = va + PGSIZE;
        proof {
            m = m + 1;
        }
    }
    let end2 = ph.p_offset + ph.p_memsz;
    while bin_off < end2
        invariant
            allocator.wf(),
            allocator@.base_paddr == 0,
            allocator@.npage == USER_PAGES / PGSIZE,
            pmm.wf(),
            pt.wf(),
            pmm@.alloc.npage == old(pmm)@.alloc.npage,
            pmm@.alloc.base_paddr == old(pmm)@.alloc.base_paddr,
            maps_reserved(*pt, allocator@),
            maps_held(*pt, pmm@),
            end2 == ph.p_offset + ph.p_memsz,
            end2 + PGSIZE <= u64::MAX,
            bin_off >= ph.p_offset + ph.p_filesz,
            seg_ok(binary@, ph),
            ph.p_type == PT_LOAD,
            head == (if ph.p_va % PGSIZE > 0 { 1int } else { 0int }),
            m >= 0,
            bin_off == body_start(ph) + m * PGSIZE,
            va == seg_base(ph) + (head + m) * PGSIZE,
            forall|k: int| 0 <= k < head + m ==> #[trigger] seg_page_mapped(*pt, ph, k),
            maps_kept(pt0, *pt),
            pt0 == *old(pt),
            used0 == old(allocator)@.used_frames(),
            head + m <= seg_pages(ph),
            pmm@.alloc.n_free + 4 * (head + m) >= old(pmm)@.alloc.n_free,
            bytes_kept(old(pmm)@, pmm@),
            lookups_kept(pt0, *pt),
            forall|k: int| 0 <= k < head + m ==> #[trigger] seg_page_loaded(*pt, pmm@, binary@, ph, k),
            ph.p_va - seg_base(ph) == ph.p_va % 4096,
            start == seg_base(ph) / PGSIZE as int,
            seg_base(ph) == start * 4096,
            used0.disjoint(frame_range(start, seg_pages(ph))),
            allocator@.used_frames() == used0 + frame_range(start, head + m),
            pt.ntables() <= 1 + 3 * allocator@.used_frames().len(),
            seg_end(ph) <= STACK_BOTTOM,
            perm == USER_PERM,
            perm_ok(perm),
            bin_off <= ph.p_offset + ph.p_memsz + PGSIZE,
        decreases end2 as int + PGSIZE - bin_off as int,
    {
        let ghost t0 = *pt;
        proof {
            lemma_more_pages(ph, head, m, bin_off as int);
            lemma_page_free(*allocator, pmm, pt, ph, used0, start, head + m);
        }
        let ghost ub = allocator@.used_frames();
        let ghost mc = pmm@;
        let pa = match user_pgdir_alloc_page(allocator, pmm, pt, va, perm) {
            Ok(pa) => pa,
            Err(_) => {
                return Err(-3);
            },
        };
        proof {
            lemma_frame_room(pmm, pa);
            assert(overwrite(pmm@.mem, pa - pmm@.alloc.base_paddr, binary@.subrange(0, 0)) =~= pmm@.mem);
            lemma_page_image(mc, pmm@, pmm@, pa as int, 0, binary@, 0, 0, ph, head + m);
            lemma_loaded_kept(t0, *pt, mc, pmm@, binary@, ph, head + m);
            crate::vm::lemma_insert_same_frame(pmm@, pa, perm);
            assert(seg_page_loaded(*pt, pmm@, binary@, ph, head + m));
            lemma_bytes_kept_trans(old(pmm)@, mc, pmm@);
            lemma_lookups_kept_trans(pt0, t0, *pt);
        }
        proof {
            lemma_mapping_grows(t0, *pt, pt0, va, ph, head + m);
            lemma_page_taken(allocator@.used_frames(), used0, start, head + m);
            lemma_one_more(ub, start + head + m);
        }
        va = va + PGSIZE;
        bin_off = bin_off + PGSIZE;
        proof {
            m = m + 1;
        }
    }
    proof {
        let bs = body_start(ph);
        let e2 = ph.p_offset + ph.p_memsz;
        if e2 > bs {
            assert((e2 - bs + 4095) / 4096 <= m) by (nonlinear_arith)
                requires bs + m * 4096 >= e2, e2 > bs, m >= 0;
        }
        assert forall|k: int| 0 <= k < seg_pages(ph) implies #[trigger] seg_page_mapped(*pt, ph, k) by {
            assert(k < head + m);
        }
        assert forall|k: int| 0 <= k < seg_pages(ph) implies #[trigger] seg_page_loaded(*pt, pmm@, binary@, ph, k) by {
            assert(k < head + m);
        }
        assert(head + m == seg_pages(ph));
    }
    Ok(())
}

/// Page `k` of segment `ph`, below its page count, is free in the user
/// allocator when the pages before it are the only ones of the segment
/// taken; so its mapping fails only for want of frames.
proof fn lemma_page_free(a: Allocator, pmm: &Pmm, pt: &PageTable, ph: Proghdr, used0: Set<int>, start: int, k: int)
    requires
        a.wf(),
        a@.base_paddr == 0,
        a@.npage == USER_PAGES / PGSIZE,
        0 <= k < seg_pages(ph),
        seg_base(ph) == start * 4096,
        seg_end(ph) <= STACK_BOTTOM,
        used0.disjoint(frame_range(start, seg_pages(ph))),
        a@.used_frames() == used0 + frame_range(start, k),
        pt.ntables() <= 1 + 3 * a@.used_frames().len(),
    ensures
        ((seg_base(ph) + k * PGSIZE) as u64) < USER_PAGES,
        a@.free_frames().contains((((seg_base(ph) + k * PGSIZE) as u64) / PGSIZE) as int),
        (((seg_base(ph) + k * PGSIZE) as u64) / PGSIZE) as int == start + k,
        a@.used_frames().finite(),
        !a@.used_frames().contains(start + k),
        pt.ntables() + 3 <= crate::vm::MAX_TABLES,
{
    let p = start + k;
    let va = seg_base(ph) + k * PGSIZE;
    assert(va == p * 4096);
    assert(va < STACK_BOTTOM) by (nonlinear_arith)
        requires va == seg_base(ph) + k * 4096, k < seg_pages(ph), seg_end(ph) == seg_base(ph) + seg_pages(ph) * 4096, seg_end(ph) <= STACK_BOTTOM;
    assert((va as u64) / 4096 == p) by (nonlinear_arith)
        requires va == p * 4096, 0 <= va < 0x1_0000_0000;
    lemma_frames_accounted(a@);
    vstd::set_lib::lemma_int_range(0, a@.npage as int);
    assert(frame_range(start, seg_pages(ph)).contains(p));
    assert(!a@.used_frames().contains(p));
    assert(set_int_range_has(a@.npage as int, p));
    assert((a@.free_frames() + a@.used_frames()).contains(p));
    vstd::set_lib::lemma_len_subset(a@.used_frames(), vstd::set_lib::set_int_range(0, a@.npage as int));
}

/// Taking a page not taken before adds one to the count of taken pages.
proof fn lemma_one_more(before: Set<int>, p: int)
    requires
        before.finite(),
        !before.contains(p),
    ensures
        before.insert(p).len() == before.len() + 1,
        before.insert(p).finite(),
{
}

/// A membership fact of the frames `0 .. n`.
spec fn set_int_range_has(n: int, p: int) -> bool {
    vstd::set_lib::set_int_range(0, n).contains(p)
}

/// Taking page `k` after pages `0 .. k` extends the taken range by one.
proof fn lemma_page_taken(used: Set<int>, used0: Set<int>, start: int, k: int)
    requires
        k >= 0,
    ensures
        (used0 + frame_range(start, k)).insert(start + k) == used0 + frame_range(start, k + 1),
{
    assert((used0 + frame_range(start, k)).insert(start + k) =~= used0 + frame_range(start, k + 1));
}

/// While the loader's file offset is below the end of the segment's memory
/// image, the page it maps next is one of the segment's pages.
proof fn lemma_more_pages(ph: Proghdr, head: int, m: int, bin_off: int)
    requires
        head == (if ph.p_va % PGSIZE > 0 { 1int } else { 0int }),
        m >= 0,
        bin_off == body_start(ph) + m * PGSIZE,
        bin_off < ph.p_offset + ph.p_memsz,
    ensures
        head + m < seg_pages(ph),
{
    let e2 = ph.p_offset + ph.p_memsz;
    let bs = body_start(ph);
    assert(m < (e2 - bs + 4095) / 4096) by (nonlinear_arith)
        requires bs + m * 4096 < e2, m >= 0;
}

/// After `va`, page `j` of segment `ph`, is mapped in `t1`, grown from `t0`
/// by that one mapping: pages `0 ..= j` are mapped, and what `base` mapped
/// stays mapped.
proof fn lemma_mapping_grows(t0: PageTable, t1: PageTable, base: PageTable, va: u64, ph: Proghdr, j: int)
    requires
        va == seg_base(ph) + j * PGSIZE,
        forall|k: int| 0 <= k < j ==> #[trigger] seg_page_mapped(t0, ph, k),
        maps_kept(base, t0),
        t1.lookup(va) is Some,
        forall|va2: u64| !same_page(va2, va) ==> #[trigger] t1.lookup(va2) == t0.lookup(va2),
    ensures
        forall|k: int| 0 <= k < j + 1 ==> #[trigger] seg_page_mapped(t1, ph, k),
        maps_kept(base, t1),
{
    assert forall|k: int| 0 <= k < j + 1 implies #[trigger] seg_page_mapped(t1, ph, k) by {
        let vk = (seg_base(ph) + k * PGSIZE) as u64;
        if k < j {
            assert(seg_page_mapped(t0, ph, k));
            if same_page(vk, va) {
                assert(t1.lookup(va) is Some);
                assert(t1.lookup(vk) is Some) by {
                    assert(t1.lookup(vk) == t1.lookup(va)) by {
                        lemma_same_page_lookup(t1, vk, va);
                    }
                }
            }
        }
    }
    assert forall|va2: u64| #[trigger] base.lookup(va2) is Some implies t1.lookup(va2) is Some by {
        if same_page(va2, va) {
            lemma_same_page_lookup(t1, va2, va);
        }
    }
}

/// A frame in use has a whole page of memory behind it.
proof fn lemma_frame_room(pmm: &Pmm, pa: u64)
    requires
        pmm.wf(),
        pmm@.in_use(pa as int),
    ensures
        pmm@.alloc.base_paddr <= pa,
        pa - pmm@.alloc.base_paddr + PGSIZE <= pmm@.mem.len(),
{
    let v = pmm@;
    let d = pa - v.alloc.base_paddr;
    assert(d + 4096 <= v.alloc.npage * 4096) by (nonlinear_arith)
        requires d % 4096 == 0, d / 4096 < v.alloc.npage, d >= 0;
}

/// The user page numbers that loading segment `ph` maps.
pub open spec fn seg_page_nums(ph: Proghdr) -> Set<int> {
    frame_range(seg_base(ph) / PGSIZE as int, seg_pages(ph))
}

/// The user pages that the loadable segments among the first `i` program
/// headers of `b` map.
pub open spec fn reserved(b: Seq<u8>, i: int) -> Set<int> {
    Set::new(|p: int| exists|j: int| 0 <= j < i && (#[trigger] ph_at(b, j)).p_type == PT_LOAD && seg_page_nums(ph_at(b, j)).contains(p))
}

/// Frames that loading `b` may take at most: the root table, and for each
/// page of its segments and of the stack, the page and up to three tables.
pub open spec fn load_frames(b: Seq<u8>) -> int {
    1 + 4 * (reserved(b, elfhdr_of(b).e_phnum as int).len() + USTACK_PAGES)
}

/// The pages of the first `i` segments are among those of all segments,
/// which are finitely many; adding segment `i` adds its own pages.
proof fn lemma_reserved_bound(b: Seq<u8>, i: int)
    requires
        image_ok(b),
        0 <= i < elfhdr_of(b).e_phnum,
    ensures
        reserved(b, i + 1).subset_of(reserved(b, elfhdr_of(b).e_phnum as int)),
        reserved(b, elfhdr_of(b).e_phnum as int).finite(),
        reserved(b, i + 1).finite(),
        reserved(b, i + 1).len() <= reserved(b, elfhdr_of(b).e_phnum as int).len(),
        reserved(b, i + 1) == reserved(b, i) + (if ph_at(b, i).p_type == PT_LOAD { seg_page_nums(ph_at(b, i)) } else { Set::<int>::empty() }),
{
    let n = elfhdr_of(b).e_phnum as int;
    let all = reserved(b, n);
    let arena = vstd::set_lib::set_int_range(0, (USER_PAGES / PGSIZE) as int);
    vstd::set_lib::lemma_int_range(0, (USER_PAGES / PGSIZE) as int);
    assert forall|p: int| #[trigger] all.contains(p) implies arena.contains(p) by {
        let j = choose|j: int| 0 <= j < n && (#[trigger] ph_at(b, j)).p_type == PT_LOAD && seg_page_nums(ph_at(b, j)).contains(p);
        assert(seg_ok(b, proghdr_of(b, ph_offset(b, j))));
        lemma_seg_pages_in(ph_at(b, j), p);
        assert(0 <= seg_base(ph_at(b, j)));
    }
    vstd::set_lib::lemma_len_subset(all, arena);
    assert forall|p: int| #[trigger] reserved(b, i + 1).contains(p) implies all.contains(p) by {
        let j = choose|j: int| 0 <= j < i + 1 && (#[trigger] ph_at(b, j)).p_type == PT_LOAD && seg_page_nums(ph_at(b, j)).contains(p);
        assert(0 <= j < n);
    }
    vstd::set_lib::lemma_len_subset(reserved(b, i + 1), all);
    let extra = if ph_at(b, i).p_type == PT_LOAD { seg_page_nums(ph_at(b, i)) } else { Set::<int>::empty() };
    assert(reserved(b, i + 1) =~= reserved(b, i) + extra) by {
        assert forall|p: int| reserved(b, i + 1).contains(p) implies (reserved(b, i) + extra).contains(p) by {
            let j = choose|j: int| 0 <= j < i + 1 && (#[trigger] ph_at(b, j)).p_type == PT_LOAD && seg_page_nums(ph_at(b, j)).contains(p);
            if j < i {
                assert(reserved(b, i).contains(p));
            }
        }
        assert forall|p: int| (reserved(b, i) + extra).contains(p) implies reserved(b, i + 1).contains(p) by {
            if reserved(b, i).contains(p) {
                let j = choose|j: int| 0 <= j < i && (#[trigger] ph_at(b, j)).p_type == PT_LOAD && seg_page_nums(ph_at(b, j)).contains(p);
                assert(0 <= j < i + 1);
            } else {
                assert(ph_at(b, i).p_type == PT_LOAD && seg_page_nums(ph_at(b, i)).contains(p));
            }
        }
    }
}

/// The page numbers of the `k` stack pages right below `USTACKTOP`.
pub open spec fn stack_page_nums(k: int) -> Set<int> {
    frame_range(USTACKTOP / PGSIZE - k, k)
}

/// Page `p` of the user arena, not taken yet, is free, and the table tree
/// still has room for the tables of one more page.
proof fn lemma_free_page(a: Allocator, pt: PageTable, p: int)
    requires
        a.wf(),
        a@.npage == USER_PAGES / PGSIZE,
        0 <= p < USER_PAGES / PGSIZE,
        !a@.used_frames().contains(p),
        pt.ntables() <= 1 + 3 * a@.used_frames().len(),
    ensures
        a@.free_frames().contains(p),
        a@.used_frames().finite(),
        pt.ntables() + 3 <= crate::vm::MAX_TABLES,
{
    lemma_frames_accounted(a@);
    vstd::set_lib::lemma_int_range(0, a@.npage as int);
    assert(set_int_range_has(a@.npage as int, p));
    assert((a@.free_frames() + a@.used_frames()).contains(p));
    vstd::set_lib::lemma_len_subset(a@.used_frames(), vstd::set_lib::set_int_range(0, a@.npage as int));
}

/// The pages of segment `i` are none of those of the segments before it,
/// and all lie below the stack.
proof fn lemma_segment_fresh(b: Seq<u8>, i: int)
    requires
        image_ok(b),
        0 <= i < elfhdr_of(b).e_phnum,
        ph_at(b, i).p_type == PT_LOAD,
    ensures
        reserved(b, i).disjoint(seg_page_nums(ph_at(b, i))),
{
    let phi = ph_at(b, i);
    assert forall|p: int| reserved(b, i).contains(p) implies !seg_page_nums(phi).contains(p) by {
        let j = choose|j: int| 0 <= j < i && (#[trigger] ph_at(b, j)).p_type == PT_LOAD && seg_page_nums(ph_at(b, j)).contains(p);
        let phj = ph_at(b, j);
        assert(segs_apart(b));
        assert(seg_end(phj) <= seg_base(phi) || seg_end(phi) <= seg_base(phj));
        lemma_seg_pages_in(phj, p);
        if seg_page_nums(phi).contains(p) {
            lemma_seg_pages_in(phi, p);
        }
    }
}

/// A page of segment `ph` lies between its first and last page.
proof fn lemma_seg_pages_in(ph: Proghdr, p: int)
    requires
        seg_page_nums(ph).contains(p),
    ensures
        seg_base(ph) <= p * PGSIZE,
        (p + 1) * PGSIZE <= seg_end(ph),
{
    let st = seg_base(ph) / 4096;
    assert(seg_base(ph) == st * 4096) by (nonlinear_arith)
        requires seg_base(ph) == ph.p_va as int / 4096 * 4096, st == seg_base(ph) / 4096;
    assert(st <= p < st + seg_pages(ph));
    assert(seg_base(ph) <= p * 4096 && (p + 1) * 4096 <= seg_end(ph)) by (nonlinear_arith)
        requires seg_base(ph) == st * 4096, st <= p, p < st + seg_pages(ph), seg_end(ph) == seg_base(ph) + seg_pages(ph) * 4096;
}

impl Process {
    /// Loads the executable image `binary` into a fresh address space of this
    /// process: checks the image, makes a root table, takes the user arena for
    /// its allocator, loads every loadable segment, maps four stack pages
    /// right below `USTACKTOP`, and points the trap frame's table root and
    /// stack pointer at them. Errors: `-2` when the image cannot be loaded:
    /// a bad magic number, but also headers or file bytes outside the image,
    /// a file size above the memory size, segments that overlap or reach the
    /// stack (see `image_ok`),
    /// `-1` when no frame is left for the root table, `-3` when fewer than four
    /// frames are left for a page and its tables. On an error the process
    /// keeps its address space and registers.
    pub fn load_icode(&mut self, pmm: &mut Pmm, binary: &[u8]) -> (r: Result<i32, i32>)
        requires
            old(pmm).wf(),
        ensures
            final(pmm).wf(),
            final(pmm)@.alloc.npage == old(pmm)@.alloc.npage,
            final(pmm)@.alloc.base_paddr == old(pmm)@.alloc.base_paddr,
            r == Err::<i32, i32>(-2i32) <==> !image_ok(binary@),
            r == Err::<i32, i32>(-1i32) <==> image_ok(binary@) && old(pmm)@.alloc.n_free == 0,
            r == Err::<i32, i32>(-3i32) ==> final(pmm)@.alloc.n_free < 4,
            image_ok(binary@) && old(pmm)@.alloc.n_free >= load_frames(binary@) ==> r is Ok,
            r is Err ==> r == Err::<i32, i32>(-1i32) || r == Err::<i32, i32>(-2i32) || r == Err::<i32, i32>(-3i32),
            r is Err ==> final(self).pgdir == old(self).pgdir && final(self).trap_frame == old(self).trap_frame,
            r == Err::<i32, i32>(-2i32) || r == Err::<i32, i32>(-1i32) ==> *final(self) == *old(self) && final(pmm)@ == old(pmm)@,
            final(self).pid == old(self).pid,
            final(self).state == old(self).state,
            r is Ok ==> {
                &&& r == Ok::<i32, i32>(0i32)
                &&& final(self).pgdir matches Some(pt) && pt.wf() && maps_held(pt, final(pmm)@)
                    && maps_reserved(pt, final(self).allocator@) && crate::fork::user_only(pt)
                    && (forall|i: int| 0 <= i < elfhdr_of(binary@).e_phnum ==> (#[trigger] proghdr_of(binary@, ph_offset(binary@, i))).p_type == PT_LOAD
                        ==> seg_mapped(pt, proghdr_of(binary@, ph_offset(binary@, i))))
                    && final(self).trap_frame.ttbr0 == pt.root()
                    && pt.lookup((USTACKTOP - PGSIZE) as u64) is Some
                    && pt.lookup((USTACKTOP - 2 * PGSIZE) as u64) is Some
                    && pt.lookup((USTACKTOP - 3 * PGSIZE) as u64) is Some
                    && pt.lookup((USTACKTOP - 4 * PGSIZE) as u64) is Some
                &&& final(self).trap_frame == (TrapFrame { sp: USTACKTOP, ttbr0: final(self).trap_frame.ttbr0, ..old(self).trap_frame })
                &&& final(self).allocator.wf()
                &&& final(self).allocator@.used_frames() == reserved(binary@, elfhdr_of(binary@).e_phnum as int) + stack_page_nums(4)
                &&& final(self).pgdir matches Some(pt) && forall|i: int| 0 <= i < elfhdr_of(binary@).e_phnum ==> (#[trigger] ph_at(binary@, i)).p_type
                    == PT_LOAD ==> seg_loaded(pt, final(pmm)@, binary@, ph_at(binary@, i))
            },
    {
        if !check_image(binary) {
            return Err(-2);
        }
        let h = match Elfhdr::parse(binary) {
            Some(h) => h,
            None => {
                return Err(-2);
            },
        };
        let mut pt = match PageTable::new(pmm) {
            Ok(pt) => pt,
            Err(_) => {
                return Err(-1);
            },
        };
        let mut allocator = Allocator::new();
        allocator.init_user();
        proof {
            assert(reserved(binary@, 0) =~= Set::<int>::empty());
        }
        let blen = binary.len();
        let mut i: u16 = 0;
        while i < h.e_phnum
            invariant
                old(pmm)@.alloc.n_free > 0,
                blen == binary@.len(),
                h == elfhdr_of(binary@),
                image_ok(binary@),
                i <= h.e_phnum,
                allocator.wf(),
                allocator@.base_paddr == 0,
                allocator@.npage == USER_PAGES / PGSIZE,
                allocator@.used_frames() == reserved(binary@, i as int),
                allocator@.used_frames().finite(),
                pmm@.alloc.n_free + 4 * allocator@.used_frames().len() + 1 >= old(pmm)@.alloc.n_free,
                pt.ntables() <= 1 + 3 * allocator@.used_frames().len(),
                pmm.wf(),
                pt.wf(),
                pmm@.alloc.npage == old(pmm)@.alloc.npage,
                pmm@.alloc.base_paddr == old(pmm)@.alloc.base_paddr,
                maps_reserved(pt, allocator@),
                maps_held(pt, pmm@),
                *self == *old(self),
                forall|j: int| 0 <= j < i ==> (#[trigger] proghdr_of(binary@, ph_offset(binary@, j))).p_type == PT_LOAD
                    ==> seg_mapped(pt, proghdr_of(binary@, ph_offset(binary@, j))),
                forall|j: int| 0 <= j < i ==> (#[trigger] ph_at(binary@, j)).p_type == PT_LOAD ==> seg_loaded(pt, pmm@, binary@, ph_at(binary@, j)),
            decreases h.e_phnum - i,
        {
            assert(h.e_phoff + i * 56 + 56 <= binary@.len()) by (nonlinear_arith)
                requires h.e_phoff + h.e_phnum * 56 <= binary@.len(), i < h.e_phnum;
            assert(h.e_phoff + i * 56 <= blen);
            let ph = match Proghdr::parse(binary, h.e_phoff + (i as u64) * (PROGHDR_SIZE as u64)) {
                Some(ph) => ph,
                None => {
                    return Err(-2);
                },
            };
            assert(ph == ph_at(binary@, i as int));
            assert(seg_ok(binary@, proghdr_of(binary@, ph_offset(binary@, i as int))));
            let ghost before = pt;
            let ghost mb = pmm@;
            let ghost u0 = allocator@.used_frames();
            proof {
                lemma_reserved_bound(binary@, i as int);
            }
            if ph.p_type == PT_LOAD {
                proof {
                    lemma_segment_fresh(binary@, i as int);
                    let fr = seg_page_nums(ph);
                    let st = seg_base(ph) / PGSIZE as int;
                    vstd::set_lib::lemma_int_range(st, st + seg_pages(ph));
                    vstd::set_lib::lemma_set_disjoint_lens(u0, fr);
                    assert(fr.len() == seg_pages(ph));
                    assert(reserved(binary@, i + 1).len() == u0.len() + seg_pages(ph));
                }
                match load_segment(&mut allocator, pmm, &mut pt, binary, ph) {
                    Ok(()) => {},
                    Err(_) => {
                        return Err(-3);
                    },
                }
                proof {
                    assert forall|j: int| 0 <= j < i && (#[trigger] ph_at(binary@, j)).p_type == PT_LOAD implies seg_loaded(pt, pmm@, binary@, ph_at(binary@, j)) by {
                        let phj = ph_at(binary@, j);
                        assert(seg_loaded(before, mb, binary@, phj));
                        lemma_loaded_kept(before, pt, mb, pmm@, binary@, phj, seg_pages(phj));
                    }
                }
            }
            proof {
                assert forall|j: int| 0 <= j < i + 1 && (#[trigger] ph_at(binary@, j)).p_type == PT_LOAD implies seg_loaded(pt, pmm@, binary@, ph_at(binary@, j)) by {
                    if j == i {
                        assert(ph_at(binary@, j) == ph);
                    }
                }
            }
            proof {
                assert(allocator@.used_frames() =~= reserved(binary@, i + 1)) by {
                    assert forall|p: int| reserved(binary@, i + 1).contains(p) implies allocator@.used_frames().contains(p) by {
                        let j = choose|j: int| 0 <= j < i + 1 && (#[trigger] ph_at(binary@, j)).p_type == PT_LOAD
                            && seg_page_nums(ph_at(binary@, j)).contains(p);
                        if j < i {
                            assert(reserved(binary@, i as int).contains(p));
                        }
                    }
                    assert forall|p: int| allocator@.used_frames().contains(p) implies reserved(binary@, i + 1).contains(p) by {
                        if u0.contains(p) {
                            let j = choose|j: int| 0 <= j < i && (#[trigger] ph_at(binary@, j)).p_type == PT_LOAD
                                && seg_page_nums(ph_at(binary@, j)).contains(p);
                            assert(0 <= j < i + 1);
                        } else {
                            assert(ph_at(binary@, i as int).p_type == PT_LOAD && seg_page_nums(ph_at(binary@, i as int)).contains(p));
                        }
                    }
                }
                assert forall|j: int| 0 <= j < i + 1 implies (#[trigger] proghdr_of(binary@, ph_offset(binary@, j))).p_type == PT_LOAD
                    ==> seg_mapped(pt, proghdr_of(binary@, ph_offset(binary@, j))) by {
                    let phj = proghdr_of(binary@, ph_offset(binary@, j));
                    if j < i && phj.p_type == PT_LOAD {
                        assert(seg_mapped(before, phj));
                        assert forall|k: int| 0 <= k < seg_pages(phj) implies #[trigger] seg_page_mapped(pt, phj, k) by {
                            assert(seg_page_mapped(before, phj, k));
                        }
                    }
                }
            }
            i = i + 1;
        }
        proof {
            assert(ATTRIB_AP_RW_ALL == 0x40 && USER_PXN == 0x20_0000_0000_0000) by (bit_vector);
            assert((0x20_0000_0000_0000u64 | 0x40u64) & 0xFFFFFFF000 == 0) by (bit_vector);
            assert(allocator@.used_frames() =~= reserved(binary@, h.e_phnum as int) + stack_page_nums(0));
            assert(allocator@.used_frames() == reserved(binary@, h.e_phnum as int));
        }
        let mut k: u64 = 1;
        while k <= 4
            invariant
                old(pmm)@.alloc.n_free > 0,
                image_ok(binary@),
                perm_ok(USER_PERM),
                1 <= k <= 5,
                allocator.wf(),
                allocator@.base_paddr == 0,
                allocator@.npage == USER_PAGES / PGSIZE,
                allocator@.used_frames() == reserved(binary@, h.e_phnum as int) + stack_page_nums(k - 1),
                allocator@.used_frames().finite(),
                allocator@.used_frames().len() == reserved(binary@, h.e_phnum as int).len() + (k - 1),
                pmm@.alloc.n_free + 4 * allocator@.used_frames().len() + 1 >= old(pmm)@.alloc.n_free,
                pt.ntables() <= 1 + 3 * allocator@.used_frames().len(),
                pmm.wf(),
                pt.wf(),
                pmm@.alloc.npage == old(pmm)@.alloc.npage,
                pmm@.alloc.base_paddr == old(pmm)@.alloc.base_paddr,
                maps_reserved(pt, allocator@),
                maps_held(pt, pmm@),
                *self == *old(self),
                forall|j: u64| 1 <= j < k ==> (#[trigger] pt.lookup((USTACKTOP - j * PGSIZE) as u64)) is Some,
                forall|j: int| 0 <= j < h.e_phnum ==> (#[trigger] ph_at(binary@, j)).p_type == PT_LOAD ==> seg_loaded(pt, pmm@, binary@, ph_at(binary@, j)),
                h == elfhdr_of(binary@),
                forall|j: int| 0 <= j < h.e_phnum ==> (#[trigger] proghdr_of(binary@, ph_offset(binary@, j))).p_type == PT_LOAD
                    ==> seg_mapped(pt, proghdr_of(binary@, ph_offset(binary@, j))),
            decreases 5 - k,
        {
            let va = USTACKTOP - k * PGSIZE;
            let ghost before = pt;
            let ghost pg: int = USTACKTOP / PGSIZE - k;
            let ghost mb = pmm@;
            let ghost ub = allocator@.used_frames();
            proof {
                assert(va / 4096 == pg);
                assert(!ub.contains(pg)) by {
                    if reserved(binary@, h.e_phnum as int).contains(pg) {
                        let j = choose|j: int| 0 <= j < h.e_phnum && (#[trigger] ph_at(binary@, j)).p_type == PT_LOAD
                            && seg_page_nums(ph_at(binary@, j)).contains(pg);
                        assert(seg_ok(binary@, proghdr_of(binary@, ph_offset(binary@, j))));
                        lemma_seg_pages_in(ph_at(binary@, j), pg);
                    }
                }
                lemma_free_page(allocator, pt, pg);
            }
            match user_pgdir_alloc_page(&mut allocator, pmm, &mut pt, va, USER_PERM) {
                Ok(_) => {},
                Err(_) => {
                    return Err(-3);
                },
            }
            proof {
                assert forall|j: int| 0 <= j < h.e_phnum && (#[trigger] ph_at(binary@, j)).p_type == PT_LOAD implies seg_loaded(pt, pmm@, binary@, ph_at(binary@, j)) by {
                    let phj = ph_at(binary@, j);
                    assert(seg_loaded(before, mb, binary@, phj));
                    lemma_loaded_kept(before, pt, mb, pmm@, binary@, phj, seg_pages(phj));
                }
                lemma_one_more(ub, pg);
                assert(allocator@.used_frames() =~= reserved(binary@, h.e_phnum as int) + stack_page_nums(k as int));
                assert forall|j: int| 0 <= j < h.e_phnum implies (#[trigger] proghdr_of(binary@, ph_offset(binary@, j))).p_type == PT_LOAD
                    ==> seg_mapped(pt, proghdr_of(binary@, ph_offset(binary@, j))) by {
                    let phj = proghdr_of(binary@, ph_offset(binary@, j));
                    if phj.p_type == PT_LOAD {
                        assert(seg_mapped(before, phj));
                        assert forall|kk: int| 0 <= kk < seg_pages(phj) implies #[trigger] seg_page_mapped(pt, phj, kk) by {
                            assert(seg_page_mapped(before, phj, kk));
                            let vk = (seg_base(phj) + kk * PGSIZE) as u64;
                            if same_page(vk, va) {
                                lemma_same_page_lookup(pt, vk, va);
                            }
                        }
                    }
                }
                assert forall|j: u64| 1 <= j < k + 1 implies (#[trigger] pt.lookup((USTACKTOP - j * PGSIZE) as u64)) is Some by {
                    let vj = (USTACKTOP - j * PGSIZE) as u64;
                    if j == k {
                        assert(same_page(vj, va));
                    } else {
                        assert(before.lookup(vj) is Some);
                        if same_page(vj, va) {
                            lemma_same_page_lookup(pt, vj, va);
                        }
                    }
                }
            }
            k = k + 1;
        }
        self.allocator = allocator;
        self.trap_frame.ttbr0 = pt.root_frame();
        self.trap_frame.sp = USTACKTOP;
        proof {
            assert(pt.lookup((USTACKTOP - 1 * PGSIZE) as u64) is Some);
            assert(pt.lookup((USTACKTOP - 2 * PGSIZE) as u64) is Some);
            assert(pt.lookup((USTACKTOP - 3 * PGSIZE) as u64) is Some);
            assert(pt.lookup((USTACKTOP - 4 * PGSIZE) as u64) is Some);
        }
        proof {
            assert forall|va: u64| #[trigger] pt.lookup(va) is Some implies vpn(va) < crate::fork::USER_NPAGES by {
                assert(allocator@.used_frames().contains(vpn(va)));
            }
        }
        self.pgdir = Some(pt);
        Ok(0)
    }
}

} // verus!
