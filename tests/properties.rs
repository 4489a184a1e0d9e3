use freespace_sim::buddy::Block;
use freespace_sim::freelist::FreeNode;
use freespace_sim::{Allocator, BuddyAllocator, FreeList, Policy};

fn nodes(list: &FreeList) -> Vec<(usize, usize)> {
    list.free_nodes().iter().map(|n| (n.addr, n.size)).collect()
}

#[test]
fn buddy_conservation_through_a_sequence() {
    let mut buddy = BuddyAllocator::new(1, 5);
    let mut live: Vec<(usize, usize)> = Vec::new();
    for size in [3usize, 1, 7, 2, 5] {
        let addr = buddy.malloc(size).unwrap();
        let granted = size.next_power_of_two().max(2);
        live.push((addr, granted));
        let granted_sum: usize = live.iter().map(|&(_, g)| g).sum();
        assert_eq!(buddy.free_space() + granted_sum, 32);
    }
    for _ in 0..3 {
        let (addr, _) = live.remove(1);
        assert!(buddy.free(addr).is_ok());
        let granted_sum: usize = live.iter().map(|&(_, g)| g).sum();
        assert_eq!(buddy.free_space() + granted_sum, 32);
    }
}

#[test]
fn freelist_conservation_through_a_sequence() {
    let mut list = FreeList::new(0, 64, true).align(4);
    let mut live: Vec<(usize, usize)> = Vec::new();
    for size in [5usize, 8, 1, 12, 3] {
        let addr = list.malloc(size).unwrap();
        live.push((addr, (size + 3) / 4 * 4));
        let granted_sum: usize = live.iter().map(|&(_, g)| g).sum();
        assert_eq!(list.free_space() + granted_sum, 64);
    }
    for i in [3usize, 0, 1] {
        let (addr, _) = live.remove(i.min(live.len() - 1));
        assert!(list.free(addr).is_ok());
        let granted_sum: usize = live.iter().map(|&(_, g)| g).sum();
        assert_eq!(list.free_space() + granted_sum, 64);
    }
}

#[test]
fn freelist_double_free_is_rejected() {
    let mut list = FreeList::new(0, 32, true);
    let a = list.malloc(8).unwrap();
    assert_eq!(list.free(a), Ok(()));
    assert_eq!(list.free(a), Err("Pointer not found"));
}

#[test]
fn phantom_free_is_rejected() {
    let mut buddy = BuddyAllocator::new(0, 4);
    buddy.malloc(4).unwrap();
    assert_eq!(buddy.free(1), Err("pointer not found"));
    assert_eq!(buddy.free_space(), 12);

    let mut list = FreeList::new(100, 50, false);
    list.malloc(10).unwrap();
    assert!(list.free(105).is_err());
    assert!(list.free(110).is_err());
    assert_eq!(list.free_space(), 40);
}

#[test]
fn buddy_free_blocks_are_aligned() {
    let mut buddy = BuddyAllocator::new(0, 5);
    let mut ptrs = Vec::new();
    for size in [1usize, 3, 2, 5, 1, 8, 1] {
        ptrs.push(buddy.malloc(size).unwrap());
    }
    for &p in ptrs.iter().step_by(2) {
        buddy.free(p).unwrap();
    }
    let levels = buddy.max_size() - buddy.min_size() + 1;
    for i in 0..levels {
        let class = buddy.min_size() + i;
        for b in buddy.level_blocks(i) {
            assert_eq!(b.addr % (1 << class), 0);
            assert_eq!(b.size_class, class);
        }
    }
}

#[test]
fn coalesced_free_list_has_no_touching_intervals() {
    let mut list = FreeList::new(0, 40, true);
    let a = list.malloc(10).unwrap();
    let b = list.malloc(10).unwrap();
    let c = list.malloc(10).unwrap();
    assert_eq!((a, b, c), (0, 10, 20));
    list.free(a).unwrap();
    list.free(c).unwrap();
    assert_eq!(nodes(&list), vec![(0, 10), (20, 20)]);
    list.free(b).unwrap();
    assert_eq!(nodes(&list), vec![(0, 40)]);
}

#[test]
fn uncoalesced_free_list_keeps_intervals_apart() {
    let mut list = FreeList::new(0, 40, false);
    let a = list.malloc(10).unwrap();
    let b = list.malloc(10).unwrap();
    list.free(b).unwrap();
    list.free(a).unwrap();
    assert_eq!(nodes(&list), vec![(0, 10), (10, 10), (20, 20)]);
    let ns = nodes(&list);
    for i in 0..ns.len() {
        for j in (i + 1)..ns.len() {
            assert!(ns[i].0 + ns[i].1 <= ns[j].0);
        }
    }
}

#[test]
fn freelist_extreme_ext_frag() {
    let mut list = FreeList::new(0, 8, false);
    for _ in 0..8 {
        list.malloc(1).unwrap();
    }
    assert!(list.malloc(1).is_none());
    for i in (0..8).step_by(2) {
        assert!(list.free(i).is_ok());
    }
    assert_eq!(list.largest_alloc(), 1);
    assert_eq!(list.free_space(), 4);
}

#[test]
fn buddy_extreme_free_space() {
    let mut buddy = BuddyAllocator::new(0, 3);
    for _ in 0..8 {
        buddy.malloc(1).unwrap();
    }
    for i in (0..8).step_by(2) {
        buddy.free(i).unwrap();
    }
    assert_eq!(buddy.free_space(), 4);
    assert_eq!(buddy.largest_alloc(), 1);
}

#[test]
fn buddy_fragmentation_example() {
    let mut buddy = BuddyAllocator::new(1, 3);
    for _ in 0..4 {
        assert!(buddy.malloc(1).is_some());
    }
    assert_eq!(buddy.internal_frag(), 4);
    assert_eq!(buddy.free_space(), 0);
    assert_eq!(buddy.largest_alloc(), 0);
    assert!(buddy.malloc(1).is_none());
}

#[test]
fn buddy_split_leaves_upper_halves_free() {
    let mut buddy = BuddyAllocator::new(0, 3);
    assert_eq!(buddy.malloc(1), Some(0));
    let blocks: Vec<Vec<usize>> = (0..4).map(|i| buddy.level_blocks(i).iter().map(|b| b.addr).collect()).collect();
    assert_eq!(blocks, vec![vec![1], vec![2], vec![4], vec![]]);
}

#[test]
fn buddy_free_merges_with_true_buddy_only() {
    let mut buddy = BuddyAllocator::new(0, 2);
    let a = buddy.malloc(1).unwrap();
    let b = buddy.malloc(1).unwrap();
    let c = buddy.malloc(1).unwrap();
    assert_eq!((a, b, c), (0, 1, 2));
    // 1 and 2 touch but are not buddies
    buddy.free(b).unwrap();
    buddy.free(c).unwrap();
    let l0: Vec<usize> = buddy.level_blocks(0).iter().map(|b| b.addr).collect();
    let l1: Vec<usize> = buddy.level_blocks(1).iter().map(|b| b.addr).collect();
    assert_eq!(l0, vec![1]);
    assert_eq!(l1, vec![2]);
    buddy.free(a).unwrap();
    let l2: Vec<usize> = buddy.level_blocks(2).iter().map(|b| b.addr).collect();
    assert_eq!(l2, vec![0]);
    assert_eq!(buddy.free_space(), 4);
}

#[test]
fn buddy_zero_and_exact_requests() {
    let mut buddy = BuddyAllocator::new(2, 4);
    assert_eq!(buddy.malloc(16), Some(0));
    assert!(buddy.malloc(1).is_none());
    assert_eq!(buddy.internal_frag(), 0);
    buddy.free(0).unwrap();
    assert_eq!(buddy.malloc(17), None);
    assert_eq!(buddy.malloc(5), Some(0));
    assert_eq!(buddy.internal_frag(), 3);
}

#[test]
fn buddy_single_class() {
    let mut buddy = BuddyAllocator::new(3, 3);
    assert_eq!(buddy.largest_alloc(), 8);
    assert_eq!(buddy.malloc(1), Some(0));
    assert_eq!(buddy.internal_frag(), 7);
    assert_eq!(buddy.largest_alloc(), 0);
    assert!(buddy.free(0).is_ok());
    assert_eq!(buddy.free_space(), 8);
}

#[test]
fn buddy_check_size_matches_malloc() {
    let mut buddy = BuddyAllocator::new(0, 3);
    buddy.malloc(4).unwrap();
    assert!(buddy.check_size(4));
    assert!(!buddy.check_size(5));
    buddy.malloc(4).unwrap();
    assert!(!buddy.check_size(1));
}

#[test]
fn freelist_alignment_example() {
    let mut list = FreeList::new(1000, 100, false).align(4);
    assert_eq!(list.malloc(4), Some(1000));
    assert_eq!(nodes(&list), vec![(1004, 96)]);
    assert_eq!(list.malloc(5), Some(1004));
    assert_eq!(nodes(&list), vec![(1012, 88)]);
    assert_eq!(list.internal_frag(), 3);
}

#[test]
fn freelist_best_fit_picks_smallest_first_of_equals() {
    let mut list = FreeList::new(0, 100, false);
    let p: Vec<usize> = (0..6).map(|_| list.malloc(10).unwrap()).collect();
    // free intervals of 10 at 10, 10 at 30, 40 at 60 (after freeing 50..60 too)
    list.free(p[1]).unwrap();
    list.free(p[3]).unwrap();
    list.free(p[5]).unwrap();
    assert_eq!(nodes(&list), vec![(10, 10), (30, 10), (50, 10), (60, 40)]);
    assert_eq!(list.malloc(8), Some(10));
    assert_eq!(list.malloc(15), Some(60));
}

#[test]
fn freelist_first_fit_picks_first() {
    let mut list = FreeList::new(0, 100, false).policy(Policy::First);
    let p: Vec<usize> = (0..3).map(|_| list.malloc(20).unwrap()).collect();
    list.free(p[0]).unwrap();
    list.free(p[2]).unwrap();
    assert_eq!(nodes(&list), vec![(0, 20), (40, 20), (60, 40)]);
    assert_eq!(list.malloc(30), Some(60));
    assert_eq!(list.malloc(5), Some(0));
}

#[test]
fn freelist_rejects_oversized_and_overflowing_requests() {
    let mut list = FreeList::new(0, 100, false).align(4);
    assert_eq!(list.malloc(101), None);
    assert_eq!(list.malloc(usize::MAX), None);
    assert!(!list.check_size(usize::MAX));
    assert!(list.check_size(100));
    assert_eq!(list.free_space(), 100);
}

#[test]
fn freelist_exact_fit_removes_interval() {
    let mut list = FreeList::new(0, 16, false);
    assert_eq!(list.malloc(16), Some(0));
    assert!(list.free_nodes().is_empty());
    assert_eq!(list.largest_alloc(), 0);
    assert_eq!(list.malloc(1), None);
    list.free(0).unwrap();
    assert_eq!(nodes(&list), vec![(0, 16)]);
}

#[test]
fn trait_drives_both_allocators() {
    fn run<A: Allocator>(a: &mut A) -> (usize, usize) {
        let p = a.malloc(3).unwrap();
        let q = a.malloc(3).unwrap();
        a.free(p).unwrap();
        assert!(a.free(p).is_err());
        let _ = q;
        (a.free_space(), a.internal_frag())
    }
    let mut buddy = BuddyAllocator::new(0, 4);
    assert_eq!(run(&mut buddy), (12, 1));
    let mut list = FreeList::new(0, 16, true);
    assert_eq!(run(&mut list), (13, 0));
}

#[test]
fn block_buddy_flips_one_bit() {
    let b = Block::new(8, 3);
    assert_eq!(b.buddy().addr, 0);
    assert_eq!(Block::new(0, 3).buddy().addr, 8);
    assert_eq!(Block::new(12, 2).buddy().addr, 8);
    assert_eq!(b.buddy().size_class, 3);
    let n = FreeNode::new(5, 6);
    assert_eq!((n.addr, n.size), (5, 6));
}
