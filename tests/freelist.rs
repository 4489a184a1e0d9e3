use freespace_sim::FreeList;

#[test]
fn freelist_malloc() {
    let mut list = FreeList::new(1000, 100, false);
    list.malloc(4);
    let node = list.free_nodes().pop().unwrap();
    assert_eq!(node.addr, 1004);
    assert_eq!(node.size, 96);
}

#[test]
fn freelist_free() {
    let mut list = FreeList::new(1000, 100, false);
    // Illegal free
    assert!(list.free(0).is_err());

    let addr = list.malloc(10).unwrap();
    assert!(list.free(addr).is_ok());
    // Double free
    assert!(list.free(addr).is_err());
}

#[test]
fn freelist_free_space() {
    let max_space = 100;
    let mut list = FreeList::new(1000, max_space, false);
    assert_eq!(list.free_space(), max_space);
    list.malloc(10);
    assert_eq!(list.free_space(), max_space - 10);
}

#[test]
fn freelist_internal_fragmentation() {
    let mut list = FreeList::new(1000, 100, false).align(4);
    let mut ptrs = Vec::new();

    ptrs.push(list.malloc(7).unwrap());
    assert_eq!(list.internal_frag(), 1);
    ptrs.push(list.malloc(7).unwrap());
    assert_eq!(list.internal_frag(), 2);
    list.free(ptrs.pop().unwrap()).unwrap();
    assert_eq!(list.internal_frag(), 1);
}

#[test]
fn freelist_largest_alloc() {
    let mut list = FreeList::new(1000, 100, false).align(4);
    assert_eq!(list.largest_alloc(), 100);
    list.malloc(16);
    assert_eq!(list.largest_alloc(), 84);
    list.malloc(1);
    assert_eq!(list.largest_alloc(), 80);
}
