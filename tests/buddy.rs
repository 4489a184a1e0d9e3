use freespace_sim::BuddyAllocator;

#[test]
fn buddy_malloc() {
    let mut buddy = BuddyAllocator::new(0, 2);

    assert_eq!(buddy.malloc(1).unwrap(), 0);
    assert_eq!(buddy.malloc(2).unwrap(), 2);
    assert_eq!(buddy.malloc(1).unwrap(), 1);
    assert!(buddy.malloc(1).is_none());
}

#[test]
fn malloc_too_big() {
    let mut buddy = BuddyAllocator::new(2, 5);
    assert!(buddy.malloc(64).is_none());
}

#[test]
fn buddy_free() {
    let mut buddy = BuddyAllocator::new(0, 3);

    let ptr = buddy.malloc(1).unwrap();
    assert!(buddy.free(ptr).is_ok());
    assert_eq!(buddy.free_space(), 8);

    buddy.malloc(1);
    let ptr = buddy.malloc(1).unwrap();
    assert!(buddy.free(ptr).is_ok());
    assert_eq!(buddy.free_space(), 7);
}

#[test]
fn illegal_free() {
    let mut buddy = BuddyAllocator::new(0, 3);
    let ptr = 4;
    assert!(buddy.free(ptr).is_err());
    buddy.malloc(4);
    assert!(buddy.free(ptr).is_err());
}

#[test]
fn double_free() {
    let mut buddy = BuddyAllocator::new(0, 3);
    let ptr = buddy.malloc(2).unwrap();
    assert!(buddy.free(ptr).is_ok());
    assert!(buddy.free(ptr).is_err());
}

#[test]
fn free_hard() {
    let mut buddy = BuddyAllocator::new(1, 3);
    let ptr1 = buddy.malloc(1).unwrap();
    assert!(buddy.free(ptr1).is_ok());

    let mut buddy = BuddyAllocator::new(1, 3);
    let ptr1 = buddy.malloc(1).unwrap();
    let ptr2 = buddy.malloc(1).unwrap();
    assert!(buddy.free(ptr2).is_ok());
    assert!(buddy.free(ptr1).is_ok());
}

#[test]
fn buddy_internal_fragmentation() {
    let mut buddy = BuddyAllocator::new(1, 3);
    for _ in 0..4 {
        buddy.malloc(2);
    }
    assert_eq!(buddy.internal_frag(), 0);

    let mut buddy = BuddyAllocator::new(1, 3);
    for _ in 0..4 {
        buddy.malloc(1);
    }
    assert_eq!(buddy.internal_frag(), 4);
}

#[test]
fn buddy_largest_alloc() {
    let mut buddy = BuddyAllocator::new(1, 3);
    assert_eq!(buddy.largest_alloc(), 8);
    buddy.malloc(2);
    assert_eq!(buddy.largest_alloc(), 4);
    buddy.malloc(2);
    assert_eq!(buddy.largest_alloc(), 4);
}

#[test]
fn extreme_ext_frag() {
    let mut buddy = BuddyAllocator::new(0, 3);
    for _ in 0..8 {
        buddy.malloc(1);
    }
    for i in (0..8).step_by(2) {
        assert!(buddy.free(i).is_ok());
    }

    assert_eq!(buddy.largest_alloc(), 1);
}

#[test]
fn buddy_free_space() {
    let mut buddy = BuddyAllocator::new(1, 3);
    assert_eq!(buddy.free_space(), 8);
    buddy.malloc(2);
    assert_eq!(buddy.free_space(), 6);
}

#[test]
fn size_class_match() {
    let mut buddy = BuddyAllocator::new(0, 3);
    for _ in 0..8 {
        buddy.malloc(1);
    }
    for i in (0..8).step_by(2) {
        assert!(buddy.free(i).is_ok());
    }

    buddy.free(1).unwrap();
    buddy.free(3).unwrap();
    buddy.free(5).unwrap();

    let levels = buddy.max_size() - buddy.min_size() + 1;
    for i in 0..levels {
        for block in buddy.level_blocks(i).iter() {
            assert_eq!(block.size_class, i + buddy.min_size());
        }
    }
}
