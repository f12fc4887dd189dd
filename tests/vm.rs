use rustable::page::{PTE_ADDR, ATTRIB_AP_RW_ALL, ATTRIB_AP_RO_ALL};
use rustable::pmm::{dealloc_page, Pmm};
use rustable::vm::{do_pgfault, page_insert, page_remove, pgdir_alloc_page, PageTable, VmError};

fn setup(npage: usize) -> (Pmm, PageTable) {
    let mut pmm = Pmm::new(npage, 0);
    let pt = PageTable::new(&mut pmm).unwrap();
    (pmm, pt)
}

#[test]
fn walk_without_create_finds_nothing_in_a_fresh_table() {
    let (mut pmm, mut pt) = setup(16);
    assert_eq!(pt.walk(&mut pmm, 0x4000, false), Err(VmError::NotFound));
    assert_eq!(pt.table_count(), 1);
}

#[test]
fn walk_after_create_returns_the_same_slot() {
    let (mut pmm, mut pt) = setup(16);
    let va = 0x1234_5000;
    let s = pt.walk(&mut pmm, va, true).unwrap();
    assert_eq!(pt.table_count(), 4);
    assert_eq!(pt.walk(&mut pmm, va, false), Ok(s));
    assert_eq!(pt.walk(&mut pmm, va, false), Ok(s));
    assert_eq!(pt.walk(&mut pmm, va + 0x123, false), Ok(s));
    assert_eq!(pt.walk(&mut pmm, va, true), Ok(s));
    assert_eq!(pt.table_count(), 4);
    assert_eq!(pmm.n_free(), 12);
}

#[test]
fn walk_runs_out_of_frames() {
    let (mut pmm, mut pt) = setup(2);
    assert_eq!(pt.walk(&mut pmm, 0x1000, true), Err(VmError::OutOfMemory));
    assert_eq!(pt.walk(&mut pmm, 0x1000, false), Err(VmError::NotFound));
}

#[test]
fn inserting_a_frame_twice_keeps_its_count() {
    let (mut pmm, mut pt) = setup(16);
    let pa = pmm.alloc_page().unwrap();
    let va = 0x40_0000;
    assert_eq!(page_insert(&mut pmm, &mut pt, pa, va, ATTRIB_AP_RW_ALL), Ok(()));
    assert_eq!(pmm.page_ref(pa), 1);
    assert_eq!(page_insert(&mut pmm, &mut pt, pa, va, ATTRIB_AP_RW_ALL), Ok(()));
    assert_eq!(pmm.page_ref(pa), 1);
    let s = pt.walk(&mut pmm, va, false).unwrap();
    assert_eq!(PTE_ADDR(pt.entry(s)), pa);
    assert_eq!(pt.mapped_count(), 1);
}

#[test]
fn removing_the_last_mapping_frees_the_frame() {
    let (mut pmm, mut pt) = setup(16);
    let pa = pmm.alloc_page().unwrap();
    page_insert(&mut pmm, &mut pt, pa, 0x1000, ATTRIB_AP_RW_ALL).unwrap();
    page_insert(&mut pmm, &mut pt, pa, 0x2000, ATTRIB_AP_RW_ALL).unwrap();
    assert_eq!(pmm.page_ref(pa), 2);
    let free_before = pmm.n_free();
    let s1 = pt.walk(&mut pmm, 0x1000, false).unwrap();
    page_remove(&mut pmm, &mut pt, 0x1000, s1);
    assert_eq!(pmm.page_ref(pa), 1);
    assert_eq!(pmm.n_free(), free_before);
    assert_eq!(pt.entry(s1), 0);
    let s2 = pt.walk(&mut pmm, 0x2000, false).unwrap();
    page_remove(&mut pmm, &mut pt, 0x2000, s2);
    assert_eq!(pmm.page_ref(pa), 0);
    assert_eq!(pmm.n_free(), free_before + 1);
    assert_eq!(pt.mapped_count(), 0);
}

#[test]
fn inserting_another_frame_replaces_the_old_mapping() {
    let (mut pmm, mut pt) = setup(16);
    let a = pmm.alloc_page().unwrap();
    let b = pmm.alloc_page().unwrap();
    page_insert(&mut pmm, &mut pt, a, 0x3000, ATTRIB_AP_RW_ALL).unwrap();
    let free_before = pmm.n_free();
    page_insert(&mut pmm, &mut pt, b, 0x3000, ATTRIB_AP_RW_ALL).unwrap();
    assert_eq!(pmm.page_ref(a), 0);
    assert_eq!(pmm.page_ref(b), 1);
    assert_eq!(pmm.n_free(), free_before + 1);
    let s = pt.walk(&mut pmm, 0x3000, false).unwrap();
    assert_eq!(PTE_ADDR(pt.entry(s)), b);
}

#[test]
fn pgdir_alloc_page_maps_a_zeroed_frame() {
    let (mut pmm, mut pt) = setup(16);
    let pa = pgdir_alloc_page(&mut pmm, &mut pt, 0x5000, ATTRIB_AP_RW_ALL).unwrap();
    assert_eq!(pmm.page_ref(pa), 1);
    assert_eq!(pmm.read_byte(pa + 17), 0);
    let s = pt.walk(&mut pmm, 0x5000, false).unwrap();
    assert_eq!(pt.entry(s), pa | ATTRIB_AP_RW_ALL | 0x3 | 0x300 | 0x400);
}

#[test]
fn pgdir_alloc_page_runs_out() {
    let (mut pmm, mut pt) = setup(4);
    assert_eq!(pgdir_alloc_page(&mut pmm, &mut pt, 0x5000, 0), Err(VmError::OutOfMemory));
}

#[test]
fn page_fault_maps_a_fresh_frame_and_refuses_read_only_pages() {
    let (mut pmm, mut pt) = setup(16);
    let pa = do_pgfault(&mut pmm, &mut pt, 0x7123).unwrap();
    let s = pt.walk(&mut pmm, 0x7000, false).unwrap();
    assert_eq!(PTE_ADDR(pt.entry(s)), pa);
    assert_eq!(pt.entry(s) & ATTRIB_AP_RO_ALL, ATTRIB_AP_RW_ALL);
    // a fault on a read/write page gets a fresh frame in its place
    let pb = do_pgfault(&mut pmm, &mut pt, 0x7000).unwrap();
    assert_ne!(pa, pb);
    assert_eq!(pmm.page_ref(pa), 0);
    // a fault on a read-only page cannot be resolved
    let ro = pmm.alloc_page().unwrap();
    page_insert(&mut pmm, &mut pt, ro, 0x9000, ATTRIB_AP_RO_ALL).unwrap();
    assert_eq!(do_pgfault(&mut pmm, &mut pt, 0x9000), Err(VmError::InvalidPermission));
}

#[test]
fn dealloc_page_returns_a_frame() {
    let mut pmm = Pmm::new(4, 0);
    let pa = pmm.alloc_page().unwrap();
    assert_eq!(pmm.n_free(), 3);
    dealloc_page(&mut pmm, pa);
    assert_eq!(pmm.n_free(), 4);
}

#[test]
fn copy_and_zero_pages() {
    let mut pmm = Pmm::new(4, 0);
    let a = pmm.alloc_page().unwrap();
    let b = pmm.alloc_page().unwrap();
    pmm.write_bytes(a + 10, &[1, 2, 3]);
    pmm.copy_page(b, a);
    assert_eq!(pmm.read_byte(b + 11), 2);
    pmm.zero_page(a);
    assert_eq!(pmm.read_byte(a + 11), 0);
    assert_eq!(pmm.read_byte(b + 12), 3);
}

#[test]
fn boot_map_segment_maps_consecutive_frames() {
    let (mut pmm, mut pt) = setup(16);
    assert_eq!(rustable::vm::boot_map_segment(&mut pmm, &mut pt, 0x4000_0000, 4 * 4096, 0x8000, 0), Ok(()));
    for k in 0..4u64 {
        let s = pt.walk(&mut pmm, 0x4000_0000 + k * 4096, false).unwrap();
        assert_eq!(pt.entry(s), (0x8000 + k * 4096) | 0x3 | 0x300 | 0x400 | (1 << 54));
    }
    assert_eq!(pt.walk(&mut pmm, 0x4000_4000, false).map(|s| pt.entry(s)), Ok(0));
}
