use rustable::allocator::{AllocError, Allocator, Run};

fn runs(a: &Allocator) -> Vec<(usize, usize)> {
    a.free_runs().iter().map(|r| (r.base, r.len)).collect()
}

fn arena(npage: usize) -> Allocator {
    let mut a = Allocator::new();
    a.init_memmap(npage, 0);
    a
}

#[test]
fn first_fit_takes_head_of_first_long_enough_run() {
    let mut a = arena(12);
    assert_eq!(a.alloc_pages(12), Ok(0));
    a.dealloc(10 * 4096, 2);
    a.dealloc(0, 4);
    assert_eq!(runs(&a), vec![(0, 4), (10, 2)]);
    assert_eq!(a.alloc_pages(2), Ok(0));
    assert_eq!(runs(&a), vec![(2, 2), (10, 2)]);
}

#[test]
fn first_fit_skips_short_runs() {
    let mut a = arena(12);
    assert_eq!(a.alloc_pages(12), Ok(0));
    a.dealloc(10 * 4096, 2);
    a.dealloc(0, 4);
    assert_eq!(a.alloc_pages(3), Ok(0));
    assert_eq!(runs(&a), vec![(3, 1), (10, 2)]);
    assert_eq!(a.alloc_pages(2), Ok(10 * 4096));
    assert_eq!(runs(&a), vec![(3, 1)]);
}

#[test]
fn alloc_fails_when_no_run_is_long_enough() {
    let mut a = arena(12);
    assert_eq!(a.alloc_pages(13), Err(AllocError::OutOfMemory));
    assert_eq!(runs(&a), vec![(0, 12)]);
    assert_eq!(a.alloc_pages(12), Ok(0));
    assert_eq!(a.alloc_pages(1), Err(AllocError::OutOfMemory));
    assert_eq!(a.get_n_free(), 0);
}

#[test]
fn addresses_count_from_the_arena_base() {
    let mut a = Allocator::new();
    a.init_memmap(4, 0x10_0000);
    assert_eq!(a.alloc_pages(1), Ok(0x10_0000));
    assert_eq!(a.alloc_pages(2), Ok(0x10_1000));
    assert_eq!(a.page2addr(3), 0x10_3000);
    assert_eq!(a.addr2page(0x10_2fff), 2);
}

#[test]
fn freeing_adjacent_ranges_in_order_leaves_one_run() {
    let mut a = arena(8);
    assert_eq!(a.alloc_pages(8), Ok(0));
    a.dealloc(0, 2);
    a.dealloc(2 * 4096, 3);
    assert_eq!(runs(&a), vec![(0, 5)]);
}

#[test]
fn freeing_adjacent_ranges_in_reverse_order_leaves_one_run() {
    let mut a = arena(8);
    assert_eq!(a.alloc_pages(8), Ok(0));
    a.dealloc(2 * 4096, 3);
    a.dealloc(0, 2);
    assert_eq!(runs(&a), vec![(0, 5)]);
}

#[test]
fn freeing_between_two_runs_merges_all_three() {
    let mut a = arena(9);
    assert_eq!(a.alloc_pages(9), Ok(0));
    a.dealloc(0, 3);
    a.dealloc(6 * 4096, 3);
    assert_eq!(runs(&a), vec![(6, 3), (0, 3)]);
    a.dealloc(3 * 4096, 3);
    assert_eq!(runs(&a), vec![(0, 9)]);
    assert_eq!(a.get_n_free(), 9);
}

#[test]
fn free_count_and_handed_out_frames_add_up() {
    let mut a = arena(16);
    let mut out: usize = 0;
    let x = a.alloc_pages(5).unwrap();
    out += 5;
    let y = a.alloc_pages(3).unwrap();
    out += 3;
    assert_eq!(a.get_n_free() + out, 16);
    a.dealloc(x, 5);
    out -= 5;
    assert_eq!(a.get_n_free() + out, 16);
    let _z = a.alloc_pages(6).unwrap();
    out += 6;
    assert_eq!(a.get_n_free() + out, 16);
    a.dealloc(y, 3);
    out -= 3;
    assert_eq!(a.get_n_free() + out, 16);
    let total: usize = a.free_runs().iter().map(|r: &Run| r.len).sum();
    assert_eq!(total, a.get_n_free());
}

#[test]
fn alloc_at_carves_the_middle_of_a_run() {
    let mut a = arena(10);
    assert_eq!(a.alloc_at(3 * 4096 + 5, 2), Ok(3 * 4096));
    assert_eq!(runs(&a), vec![(0, 3), (5, 5)]);
    assert_eq!(a.get_n_free(), 8);
}

#[test]
fn alloc_at_the_start_or_end_of_a_run() {
    let mut a = arena(10);
    assert_eq!(a.alloc_at(0, 2), Ok(0));
    assert_eq!(runs(&a), vec![(2, 8)]);
    assert_eq!(a.alloc_at(9 * 4096, 1), Ok(9 * 4096));
    assert_eq!(runs(&a), vec![(2, 7)]);
}

#[test]
fn alloc_at_fails_on_pages_not_free() {
    let mut a = arena(10);
    assert_eq!(a.alloc_at(4 * 4096, 2), Ok(4 * 4096));
    assert_eq!(a.alloc_at(5 * 4096, 1), Err(AllocError::OutOfMemory));
    assert_eq!(a.alloc_at(3 * 4096, 2), Err(AllocError::OutOfMemory));
    assert_eq!(a.alloc_at(10 * 4096, 1), Err(AllocError::OutOfMemory));
    assert_eq!(runs(&a), vec![(0, 4), (6, 4)]);
}

#[test]
fn alloc_at_below_the_arena_fails() {
    let mut a = Allocator::new();
    a.init_memmap(4, 0x8000);
    assert_eq!(a.alloc_at(0x1000, 1), Err(AllocError::OutOfMemory));
}

#[test]
fn switch_content_saves_and_loads() {
    let mut active = arena(4);
    let mut user = arena(8);
    assert_eq!(user.alloc_pages(3), Ok(0));
    let mut backup = Allocator::new();
    active.switch_content(&user, &mut backup);
    assert_eq!(active.get_n_free(), 5);
    assert_eq!(backup.get_n_free(), 4);
    assert_eq!(runs(&active), vec![(3, 5)]);
}

#[test]
fn uninitialized_and_initialize_are_empty() {
    let mut a = Allocator::uninitialized();
    assert_eq!(a.get_n_free(), 0);
    assert_eq!(a.alloc_pages(1), Err(AllocError::OutOfMemory));
    a.init_memmap(3, 0);
    a.initialize();
    assert_eq!(a.get_n_free(), 0);
    assert_eq!(a.npage(), 0);
}

#[test]
fn init_user_takes_the_pages_below_the_descriptors() {
    let mut a = Allocator::new();
    a.init_user();
    assert_eq!(a.npage(), 0x1fd00000 / 4096);
    assert_eq!(a.get_n_free(), 0x1fd00000 / 4096);
    assert_eq!(a.alloc_at(0x1234, 1), Ok(0x1000));
}

#[test]
fn free_runs_never_overlap_or_touch() {
    let mut a = arena(32);
    let mut held: Vec<(u64, usize)> = Vec::new();
    for n in [3usize, 1, 4, 1, 5, 9, 2] {
        let x = a.alloc_pages(n).unwrap();
        held.push((x, n));
    }
    for (i, (x, n)) in held.clone().into_iter().enumerate() {
        if i % 2 == 0 {
            a.dealloc(x, n);
        }
    }
    let r = runs(&a);
    for i in 0..r.len() {
        for j in 0..r.len() {
            if i != j {
                let (bi, li) = r[i];
                let (bj, _) = r[j];
                assert!(bi + li < bj || bj + r[j].1 < bi);
            }
        }
    }
    for (i, (x, n)) in held.into_iter().enumerate() {
        if i % 2 == 1 {
            let f = (x / 4096) as usize;
            for (b, l) in r.iter() {
                assert!(f + n <= *b || b + l <= f);
            }
        }
    }
}

#[test]
fn init_memmap_adds_a_region_after_the_arena() {
    let mut a = arena(4);
    assert_eq!(a.alloc_pages(2), Ok(0));
    a.init_memmap(3, 4 * 4096);
    assert_eq!(a.get_n_free(), 5);
    assert_eq!(a.npage(), 7);
    assert_eq!(runs(&a), vec![(2, 5)]);
    let mut b = arena(4);
    assert_eq!(b.alloc_pages(4), Ok(0));
    b.init_memmap(2, 4 * 4096);
    assert_eq!(runs(&b), vec![(4, 2)]);
    assert_eq!(b.alloc_pages(1), Ok(4 * 4096));
}

#[test]
fn init_memmap_adds_a_region_above_a_gap() {
    let mut a = arena(4);
    assert_eq!(a.alloc_pages(4), Ok(0));
    a.init_memmap(2, 8 * 4096);
    assert_eq!(a.npage(), 10);
    assert_eq!(a.get_n_free(), 2);
    assert_eq!(runs(&a), vec![(8, 2)]);
    assert_eq!(a.alloc_at(5 * 4096, 1), Err(AllocError::OutOfMemory));
    assert_eq!(a.alloc_pages(2), Ok(8 * 4096));
}
