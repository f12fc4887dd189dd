use vstd::prelude::*;
use crate::page::{pte_addr, PGSIZE, USER_PAGES, PTE_V, PTE_ADDR};
use crate::pmm::{Pmm, PmmView};
use crate::vm::{PageTable, VmError, pgdir_alloc_page, leaf_entry, lemma_insert_same_frame, valid, same_page, maps_held, lemma_same_page_lookup, MAX_TABLES};
use crate::loader::{USER_PERM, vpn};

verus! {

/// Number of pages in the user part of an address space.
pub const USER_NPAGES: u64 = USER_PAGES / PGSIZE;

/// User page `p` of `child` is a copy of that of `parent`: unmapped in
/// both, or mapped in both to different frames, the child's in use, with the
/// child's bytes now equal to the parent's bytes in `pmm0`.
pub open spec fn page_copied(parent: PageTable, child: PageTable, pmm0: PmmView, pmm: PmmView, p: int) -> bool {
    let va = (p * PGSIZE) as u64;
    match parent.lookup(va) {
        Some(e) => match child.lookup(va) {
            Some(e2) => {
                &&& pte_addr(e2) != pte_addr(e)
                &&& pmm.in_use(pte_addr(e2))
                &&& pmm.page_bytes(pte_addr(e2)) == pmm0.page_bytes(pte_addr(e))
            },
            None => false,
        },
        None => child.lookup(va) is None,
    }
}

/// Number of the user pages below `p` that `pt` maps.
pub open spec fn mapped_below(pt: PageTable, p: int) -> nat
    decreases p,
{
    if p <= 0 {
        0
    } else {
        mapped_below(pt, p - 1) + if pt.lookup(((p - 1) * PGSIZE) as u64) is Some { 1nat } else { 0nat }
    }
}

/// Counting mapped pages further up counts no fewer.
proof fn lemma_mapped_below_mono(pt: PageTable, p: int, q: int)
    requires
        0 <= p <= q,
    ensures
        mapped_below(pt, p) <= mapped_below(pt, q),
    decreases q - p,
{
    if p < q {
        lemma_mapped_below_mono(pt, p, q - 1);
    }
}

/// Every address that `pt` maps lies in a user page.
pub open spec fn user_only(pt: PageTable) -> bool {
    forall|va: u64| #[trigger] pt.lookup(va) is Some ==> vpn(va) < USER_NPAGES
}

/// The address `va` of `parent` is copied into `child`: both map it, to
/// different frames, the child's holding the bytes that the parent's held
/// in `pmm0`.
pub open spec fn copied_at(parent: PageTable, child: PageTable, pmm0: PmmView, pmm: PmmView, va: u64) -> bool {
    parent.lookup(va) matches Some(e) && child.lookup(va) matches Some(e2) && pte_addr(e2) != pte_addr(e)
        && pmm.page_bytes(pte_addr(e2)) == pmm0.page_bytes(pte_addr(e))
}

/// An address lies in the page whose number is its page number.
proof fn lemma_vpn_page(va: u64)
    ensures
        same_page(va, (vpn(va) * PGSIZE) as u64),
        0 <= vpn(va) < 0x10_0000_0000,
{
    let w: u64 = ((va % 0x1_0000_0000_0000) / 4096 * 4096) as u64;
    assert(w == vpn(va) * 4096);
    assert((va / 0x80_0000_0000) % 512 == (w / 0x80_0000_0000) % 512 && (va / 0x4000_0000) % 512 == (w / 0x4000_0000) % 512
        && (va / 0x20_0000) % 512 == (w / 0x20_0000) % 512 && (va / 0x1000) % 512 == (w / 0x1000) % 512) by (bit_vector)
        requires w == (va % 0x1_0000_0000_0000) / 4096 * 4096;
}

/// Frames with different numbers have disjoint bytes, so writing one
/// leaves the other's bytes alone.
pub(crate) proof fn lemma_other_page_kept(a: PmmView, b: PmmView, x: int, w: int)
    requires
        a.wf(),
        a.alloc.base_paddr == b.alloc.base_paddr,
        a.alloc.npage == b.alloc.npage,
        a.is_frame_addr(x),
        a.is_frame_addr(w),
        a.frame(x) != a.frame(w),
        a.mem.len() == b.mem.len(),
        forall|i: int| 0 <= i < a.mem.len() && !(a.offset(w) <= i < a.offset(w) + PGSIZE) ==> #[trigger] b.mem[i] == a.mem[i],
    ensures
        b.page_bytes(x) == a.page_bytes(x),
{
    let fx = a.frame(x);
    let fw = a.frame(w);
    assert(fx * 4096 + 4096 <= fw * 4096 || fw * 4096 + 4096 <= fx * 4096) by (nonlinear_arith)
        requires fx != fw;
    assert(fx * 4096 + 4096 <= a.alloc.npage * 4096) by (nonlinear_arith)
        requires fx < a.alloc.npage;
    assert(b.page_bytes(x) =~= a.page_bytes(x)) by {
        assert forall|k: int| 0 <= k < PGSIZE implies #[trigger] b.page_bytes(x)[k] == a.page_bytes(x)[k] by {
            assert(b.mem[fx * 4096 + k] == a.mem[fx * 4096 + k]);
        }
    }
}

/// Gives `child`, which maps nothing, a copy of every user page that
/// `parent` maps: a fresh frame for each, holding the same bytes, at the
/// same address. The parent's frames keep their bytes.
pub fn copy_address_space(pmm: &mut Pmm, parent: &PageTable, child: &mut PageTable) -> (r: Result<(), VmError>)
    requires
        old(pmm).wf(),
        parent.wf(),
        old(child).wf(),
        maps_held(*parent, old(pmm)@),
        forall|va: u64| #[trigger] old(child).lookup(va) is None,
        old(child).ntables() == 1,
    ensures
        final(pmm).wf(),
        final(child).wf(),
        final(pmm)@.alloc.npage == old(pmm)@.alloc.npage,
        final(pmm)@.alloc.base_paddr == old(pmm)@.alloc.base_paddr,
        maps_held(*parent, final(pmm)@),
        r is Err ==> r == Err::<(), VmError>(VmError::OutOfMemory) && final(pmm)@.alloc.n_free < 4,
        r is Ok ==> forall|p: int| 0 <= p < USER_NPAGES ==> #[trigger] page_copied(*parent, *final(child), old(pmm)@, final(pmm)@, p),
        r is Ok ==> forall|va: u64| #[trigger] parent.lookup(va) is Some ==> final(pmm)@.page_bytes(pte_addr(parent.lookup(va)->Some_0))
            == old(pmm)@.page_bytes(pte_addr(parent.lookup(va)->Some_0)),
        old(pmm)@.alloc.n_free >= 4 * mapped_below(*parent, USER_NPAGES as int) ==> r is Ok,
        r is Ok && user_only(*parent) ==> forall|va: u64| #[trigger] parent.lookup(va) is Some ==> copied_at(*parent, *final(child), old(pmm)@, final(pmm)@, va),
{
    proof {
        assert(crate::page::ATTRIB_AP_RW_ALL == 0x40 && crate::loader::USER_PXN == 0x20_0000_0000_0000) by (bit_vector);
        assert((0x20_0000_0000_0000u64 | 0x40u64) & 0xFFFFFFF000 == 0) by (bit_vector);
    }
    let ghost pmm0 = pmm@;
    let mut p: u64 = 0;
    while p < USER_NPAGES
        invariant
            p <= USER_NPAGES,
            child.ntables() <= 1 + 3 * p,
            pmm@.alloc.n_free + 4 * mapped_below(*parent, p as int) >= pmm0.alloc.n_free,
            pmm.wf(),
            child.wf(),
            parent.wf(),
            crate::vm::perm_ok(USER_PERM),
            pmm@.alloc.npage == pmm0.alloc.npage,
            pmm@.alloc.base_paddr == pmm0.alloc.base_paddr,
            pmm@.mem.len() == pmm0.mem.len(),
            pmm0 == old(pmm)@,
            pmm0.wf(),
            maps_held(*parent, pmm@),
            maps_held(*parent, pmm0),
            forall|va: u64| #[trigger] child.lookup(va) is Some ==> vpn(va) < p,
            forall|q: int| 0 <= q < p ==> #[trigger] page_copied(*parent, *child, pmm0, pmm@, q),
            forall|va: u64| #[trigger] parent.lookup(va) is Some ==> pmm@.page_bytes(pte_addr(parent.lookup(va)->Some_0))
                == pmm0.page_bytes(pte_addr(parent.lookup(va)->Some_0)),
        decreases USER_NPAGES - p,
    {
        let va = p * PGSIZE;
        let ghost c0 = *child;
        let ghost m0 = pmm@;
        assert(vpn(va) == p) by (nonlinear_arith)
            requires va == p * 4096, p < 0x1fd00, vpn(va) == (va as int % 0x1_0000_0000_0000) / 4096;
        match parent.lookup_slot(va) {
            Ok(s) => {
                let e = parent.entry(s);
                assert((e & 3 == 0) == (e % 4 == 0)) by (bit_vector);
                if e & PTE_V != 0 {
                    let src = PTE_ADDR(e);
                    assert(parent.lookup(va) == Some(e));
                    assert(child.lookup(va) is None) by {
                        if child.lookup(va) is Some {
                            assert(vpn(va) < p);
                        }
                    }
                    proof {
                        lemma_mapped_below_mono(*parent, p + 1, USER_NPAGES as int);
                        assert(mapped_below(*parent, p + 1) == mapped_below(*parent, p as int) + 1);
                        assert(p * 3 + 4 <= MAX_TABLES);
                    }
                    let dst = match pgdir_alloc_page(pmm, child, va, USER_PERM) {
                        Ok(pa) => pa,
                        Err(err) => {
                            return Err(err);
                        },
                    };
                    let ghost m1 = pmm@;
                    proof {
                        // the fresh frame is none of the frames in use before
                        assert(m0.refs[m0.frame(src as int)] > 0);
                        assert(m0.alloc.used_frames().contains(m0.frame(src as int)));
                        assert(dst != src);
                    }
                    pmm.copy_page(dst, src);
                    proof {
                        let m2 = pmm@;
                        lemma_insert_same_frame(m2, dst, USER_PERM);
                        assert(m2.page_bytes(dst as int) == m1.page_bytes(src as int));
                        lemma_other_page_kept(m0, m1, src as int, dst as int);
                        assert(m1.refs[m1.frame(src as int)] > 0);
                        assert(m1.alloc.used_frames().contains(m1.frame(src as int)));
                        // the parent's frames keep their bytes
                        assert forall|va2: u64| #[trigger] parent.lookup(va2) is Some implies pmm@.page_bytes(pte_addr(parent.lookup(va2)->Some_0))
                            == pmm0.page_bytes(pte_addr(parent.lookup(va2)->Some_0)) by {
                            let x = pte_addr(parent.lookup(va2)->Some_0);
                            assert(m0.refs[m0.frame(x)] > 0);
                            assert(m0.alloc.used_frames().contains(m0.frame(x)));
                            assert(m0.frame(x) != m0.frame(dst as int));
                            lemma_other_page_kept(m0, m1, x, dst as int);
                            assert(m1.refs[m1.frame(x)] > 0);
                            assert(m1.alloc.used_frames().contains(m1.frame(x)));
                            lemma_other_page_kept(m1, m2, x, dst as int);
                        }
                        assert forall|va2: u64| #[trigger] parent.lookup(va2) is Some implies m2.is_frame_addr(pte_addr(parent.lookup(va2)->Some_0))
                            && m2.ref_of(pte_addr(parent.lookup(va2)->Some_0)) > 0 by {
                            let x = pte_addr(parent.lookup(va2)->Some_0);
                            assert(m0.alloc.used_frames().contains(m0.frame(x)));
                            assert(m0.frame(x) != m0.frame(dst as int));
                        }
                        assert forall|va2: u64| #[trigger] child.lookup(va2) is Some implies vpn(va2) < p + 1 by {
                            if same_page(va2, va) {
                                crate::loader::lemma_same_page_vpn(va2, va);
                            } else {
                                assert(c0.lookup(va2) is Some);
                            }
                        }
                        assert forall|q: int| 0 <= q < p + 1 implies #[trigger] page_copied(*parent, *child, pmm0, pmm@, q) by {
                            let vq = (q * PGSIZE) as u64;
                            if q == p {
                                assert(vq == va);
                            } else {
                                assert(vpn(vq) == q) by (nonlinear_arith)
                                    requires vq == q * 4096, 0 <= q < 0x1fd00, vpn(vq) == (vq as int % 0x1_0000_0000_0000) / 4096;
                                assert(!same_page(vq, va)) by {
                                    if same_page(vq, va) {
                                        crate::loader::lemma_same_page_vpn(vq, va);
                                    }
                                }
                                assert(page_copied(*parent, c0, pmm0, m0, q));
                                if let Some(e2) = child.lookup(vq) {
                                    let y = pte_addr(e2);
                                    assert(m0.in_use(y));
                                    assert(m0.frame(y) != m0.frame(dst as int));
                                    lemma_other_page_kept(m0, m1, y, dst as int);
                                    assert(m1.in_use(y));
                                    lemma_other_page_kept(m1, m2, y, dst as int);
                                }
                            }
                        }
                    }
                } else {
                    proof {
                        assert(parent.lookup(va) is None);
                        assert(child.lookup(va) is None) by {
                            if child.lookup(va) is Some {
                                assert(vpn(va) < p);
                            }
                        }
                    }
                }
            },
            Err(_) => {
                proof {
                    assert(parent.lookup(va) is None);
                    assert(child.lookup(va) is None) by {
                        if child.lookup(va) is Some {
                            assert(vpn(va) < p);
                        }
                    }
                }
            },
        }
        proof {
            if parent.lookup(va) is None {
                assert(mapped_below(*parent, p + 1) == mapped_below(*parent, p as int));
            }
        }
        p = p + 1;
    }
    proof {
        assert forall|va: u64| #[trigger] parent.lookup(va) is Some && user_only(*parent) implies copied_at(*parent, *child, pmm0, pmm@, va) by {
            lemma_vpn_page(va);
            let q = vpn(va);
            assert(page_copied(*parent, *child, pmm0, pmm@, q));
            lemma_same_page_lookup(*parent, va, (q * PGSIZE) as u64);
            lemma_same_page_lookup(*child, va, (q * PGSIZE) as u64);
        }
    }
    Ok(())
}

} // verus!
