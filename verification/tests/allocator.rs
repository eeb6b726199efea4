use lib::allocator::{AllocErr, Allocator, Layout};

fn layout(size: usize, align: usize) -> Layout {
    Layout::from_size_align(size, align)
}

fn only(bins: &[Vec<usize>], expected: &[(usize, Vec<usize>)]) {
    assert_eq!(bins.len(), 32);
    for (i, b) in bins.iter().enumerate() {
        match expected.iter().find(|(j, _)| *j == i) {
            Some((_, want)) => assert_eq!(b, want, "bin {}", i),
            None => assert!(b.is_empty(), "bin {} should be empty: {:?}", i, b),
        }
    }
}

#[test]
fn new_makes_one_block_of_an_aligned_region() {
    let a = Allocator::new(0x1000, 0x2000);
    only(&a.bins(), &[(12, vec![0x1000])]);
}

#[test]
fn new_cuts_region_into_aligned_blocks() {
    let a = Allocator::new(8, 64);
    only(&a.bins(), &[(3, vec![8]), (4, vec![16]), (5, vec![32])]);
}

#[test]
fn new_keeps_blocks_inside_the_region() {
    // 0x1000 .. 0x1800 is one block of 0x800 bytes, not 0x1000.
    let a = Allocator::new(0x1000, 0x1800);
    only(&a.bins(), &[(11, vec![0x1000])]);
    let a = Allocator::new(0x1000, 0x1c00);
    only(&a.bins(), &[(11, vec![0x1000]), (10, vec![0x1800])]);
}

#[test]
fn new_drops_fragments_under_eight_bytes() {
    let a = Allocator::new(1, 16);
    only(&a.bins(), &[(3, vec![8])]);
}

#[test]
fn new_frees_all_but_an_unaligned_head_and_tail() {
    let a = Allocator::new(3, 45);
    only(&a.bins(), &[(3, vec![8, 32]), (4, vec![16])]);
}

#[test]
fn new_with_empty_region() {
    let a = Allocator::new(0x100, 0x80);
    only(&a.bins(), &[]);
    let a = Allocator::new(0x100, 0x100);
    only(&a.bins(), &[]);
}

#[test]
fn fits_tells_which_regions_new_accepts() {
    assert!(Allocator::fits(0x1000, 0x2000));
    assert!(Allocator::fits(0, 0));
    assert!(Allocator::fits(16, 0));
    assert!(!Allocator::fits(0, 16));
    assert!(Allocator::fits(0x1000, 0x1000 + (1usize << 31)));
    if usize::BITS == 64 {
        assert!(!Allocator::fits(1usize << 32, 1usize << 33));
        assert!(Allocator::fits(1usize << 31, 1usize << 32));
    }
}

#[test]
fn allocate_splits_the_smallest_fitting_block() {
    let mut a = Allocator::new(0x1000, 0x2000);
    assert_eq!(a.allocate(layout(1, 1)), Ok(0x1000));
    let mut expected = Vec::new();
    for j in 3..12 {
        expected.push((j, vec![0x1000 + (1usize << j)]));
    }
    only(&a.bins(), &expected);
    assert_eq!(a.allocate(layout(8, 8)), Ok(0x1008));
    assert_eq!(a.allocate(layout(16, 1)), Ok(0x1010));
    assert_eq!(a.allocate(layout(9, 1)), Ok(0x1020));
}

#[test]
fn allocate_honours_alignment() {
    let mut a = Allocator::new(0x1008, 0x1040);
    only(&a.bins(), &[(3, vec![0x1008]), (4, vec![0x1010]), (5, vec![0x1020])]);
    assert_eq!(a.allocate(layout(8, 32)), Ok(0x1020));
    assert_eq!(a.allocate(layout(8, 8)), Ok(0x1008));
    assert_eq!(a.allocate(layout(8, 16)), Ok(0x1010));
}

#[test]
fn allocate_takes_most_recently_freed_block() {
    let mut a = Allocator::new(0x1000, 0x1100);
    let p = a.allocate(layout(8, 8)).unwrap();
    let q = a.allocate(layout(8, 8)).unwrap();
    let r = a.allocate(layout(8, 8)).unwrap();
    assert_eq!((p, q, r), (0x1000, 0x1008, 0x1010));
    // r merges with the free 0x1018 into 0x1010 .. 0x1020, p's buddy q is in use
    a.dealloc(r, layout(8, 8));
    a.dealloc(p, layout(8, 8));
    assert_eq!(a.bins()[3], vec![0x1000]);
    assert_eq!(a.bins()[4], vec![0x1010]);
    assert_eq!(a.allocate(layout(16, 16)), Ok(0x1010));
    assert_eq!(a.allocate(layout(8, 8)), Ok(0x1000));
}

#[test]
fn allocate_rejects_bad_alignment() {
    let mut a = Allocator::new(0x1000, 0x2000);
    assert_eq!(
        a.allocate(layout(8, 3)),
        Err(AllocErr::Unsupported { details: "alignment is not power of 2" })
    );
    assert_eq!(
        a.allocate(layout(8, 0)),
        Err(AllocErr::Unsupported { details: "alignment is not power of 2" })
    );
    only(&a.bins(), &[(12, vec![0x1000])]);
}

#[test]
fn allocate_rejects_zero_size() {
    let mut a = Allocator::new(0x1000, 0x2000);
    assert_eq!(
        a.allocate(layout(0, 8)),
        Err(AllocErr::Unsupported { details: "size is 0" })
    );
    assert_eq!(
        a.allocate(layout(0, 3)),
        Err(AllocErr::Unsupported { details: "alignment is not power of 2" })
    );
}

#[test]
fn allocate_reports_exhaustion() {
    let mut a = Allocator::new(0x1000, 0x1010);
    only(&a.bins(), &[(4, vec![0x1000])]);
    assert_eq!(a.allocate(layout(32, 1)), Err(AllocErr::Exhausted { request: layout(32, 1) }));
    assert_eq!(a.allocate(layout(8, 32)), Err(AllocErr::Exhausted { request: layout(8, 32) }));
    assert_eq!(
        a.allocate(layout(usize::MAX, 1)),
        Err(AllocErr::Exhausted { request: layout(usize::MAX, 1) })
    );
    only(&a.bins(), &[(4, vec![0x1000])]);
    assert_eq!(a.allocate(layout(16, 16)), Ok(0x1000));
    assert_eq!(a.allocate(layout(1, 1)), Err(AllocErr::Exhausted { request: layout(1, 1) }));
}

#[test]
fn dealloc_merges_buddies_back() {
    let mut a = Allocator::new(0x1000, 0x2000);
    let p = a.allocate(layout(1, 1)).unwrap();
    a.dealloc(p, layout(1, 1));
    only(&a.bins(), &[(12, vec![0x1000])]);
}

#[test]
fn dealloc_without_free_buddy_keeps_block_in_its_bin() {
    let mut a = Allocator::new(0x1000, 0x2000);
    let p1 = a.allocate(layout(8, 8)).unwrap();
    let p2 = a.allocate(layout(8, 8)).unwrap();
    assert_eq!((p1, p2), (0x1000, 0x1008));
    a.dealloc(p1, layout(8, 8));
    assert_eq!(a.bins()[3], vec![0x1000]);
    a.dealloc(p2, layout(8, 8));
    only(&a.bins(), &[(12, vec![0x1000])]);
}

#[test]
fn dealloc_of_request_past_last_bin_does_nothing() {
    let mut a = Allocator::new(0x1000, 0x2000);
    a.dealloc(0x4000_0000, layout(usize::MAX / 2, 1));
    only(&a.bins(), &[(12, vec![0x1000])]);
}

#[test]
fn allocations_never_overlap_and_all_free_returns_the_region() {
    let mut a = Allocator::new(0x1008, 0x3000);
    let before = a.bins();
    let sizes = [1usize, 24, 8, 100, 64, 3, 512, 17, 8, 40, 256, 9];
    let mut live: Vec<(usize, usize, Layout)> = Vec::new();
    for (n, &size) in sizes.iter().cycle().take(60).enumerate() {
        let align = 1usize << (n % 5);
        let l = layout(size, align);
        match a.allocate(l) {
            Ok(p) => {
                let len = size.next_power_of_two().max(align).max(8);
                assert_eq!(p % align, 0);
                assert!(p >= 0x1008 && p + len <= 0x3000);
                for &(q, qlen, _) in &live {
                    assert!(p + len <= q || q + qlen <= p, "{:#x} overlaps {:#x}", p, q);
                }
                live.push((p, len, l));
            }
            Err(e) => assert_eq!(e, AllocErr::Exhausted { request: l }),
        }
    }
    assert!(!live.is_empty());
    for &(p, _, l) in live.iter().rev() {
        a.dealloc(p, l);
    }
    let mut after: Vec<Vec<usize>> = a.bins();
    let mut want = before.clone();
    for b in after.iter_mut() {
        b.sort();
    }
    for b in want.iter_mut() {
        b.sort();
    }
    assert_eq!(after, want);
}

#[test]
fn layout_getters() {
    let l = Layout::from_size_align(24, 8);
    assert_eq!(l.size(), 24);
    assert_eq!(l.align(), 8);
}
