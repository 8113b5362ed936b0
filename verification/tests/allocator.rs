use coopkern::allocator::{align_addr, ListNode, SimpleAllocator, NODE_ALIGN, NODE_SIZE};

#[test]
fn align_addr_rounds_up() {
    assert_eq!(align_addr(5, 4), 8);
    assert_eq!(align_addr(8, 4), 8);
    assert_eq!(align_addr(0x1001, 8), 0x1008);
    assert_eq!(align_addr(0, 16), 0);
    assert_eq!(align_addr(17, 1), 17);
}

#[test]
fn constants_match_target_header() {
    assert_eq!(NODE_SIZE, 8);
    assert_eq!(NODE_ALIGN, 4);
}

#[test]
fn list_node_carries_fields() {
    let n = ListNode::new(0x1000, 64);
    assert_eq!(n.addr, 0x1000);
    assert_eq!(n.size, 64);
}

#[test]
fn new_allocator_has_empty_free_list() {
    let a = SimpleAllocator::new();
    assert_eq!(a.free_block_count(), 0);
}

#[test]
fn add_region_prepends_block() {
    let mut a = SimpleAllocator::new();
    a.add_new_node(0x1000, 64);
    assert_eq!(a.free_block_count(), 1);
    assert_eq!(a.get_node(0).addr, 0x1000);
    assert_eq!(a.get_node(0).size, 64);
    a.add_new_node(0x2000, 32);
    assert_eq!(a.free_block_count(), 2);
    assert_eq!(a.get_node(0).addr, 0x2000);
    assert_eq!(a.get_node(1).addr, 0x1000);
}

#[test]
fn add_region_aligns_start_and_keeps_remainder() {
    let mut a = SimpleAllocator::new();
    a.add_new_node(0x1002, 10);
    assert_eq!(a.free_block_count(), 1);
    assert_eq!(a.get_node(0).addr, 0x1004);
    assert_eq!(a.get_node(0).size, 8);
}

#[test]
fn add_region_discards_too_small_region() {
    let mut a = SimpleAllocator::new();
    a.add_new_node(0x1000, 7);
    assert_eq!(a.free_block_count(), 0);
    // after the alignment loss only 5 bytes remain: still no header's worth
    a.add_new_node(0x1001, 8);
    assert_eq!(a.free_block_count(), 0);
}

#[test]
fn seeded_heap_serves_and_then_exhausts() {
    let mut a = SimpleAllocator::new();
    a.add_new_node(0x1000, 64);
    let p = a.allocate(16, 4);
    assert!(p.is_some());
    let p = p.unwrap();
    assert!(0x1000 <= p && p < 0x1000 + 64);
    let q = a.allocate(64, 4);
    assert!(q.is_none());
}

#[test]
fn first_fit_takes_list_order() {
    let mut a = SimpleAllocator::new();
    a.add_new_node(0x1000, 16);
    a.add_new_node(0x2000, 64);
    // the 0x2000 block sits at the front; it is the first fit for 32 bytes
    assert_eq!(a.allocate(32, 4), Some(0x2000));
    // 16 bytes fit the front leftover block before the 0x1000 block
    assert_eq!(a.allocate(16, 4), Some(0x2020));
}

#[test]
fn allocation_respects_alignment() {
    let mut a = SimpleAllocator::new();
    a.add_new_node(0x1004, 60);
    let p = a.allocate(8, 16).unwrap();
    assert_eq!(p % 16, 0);
    assert!(0x1004 <= p && p + 8 <= 0x1004 + 60);
}

#[test]
fn allocate_then_deallocate_serves_same_request_again() {
    let mut a = SimpleAllocator::new();
    a.add_new_node(0x1000, 64);
    let p = a.allocate(16, 4).unwrap();
    a.deallocate(p, 16);
    assert_eq!(a.allocate(16, 4), Some(p));
}

#[test]
fn small_request_cycle_leaks_nothing() {
    let mut a = SimpleAllocator::new();
    a.add_new_node(0x1000, 24);
    // a 4-byte request is adjusted to a header's worth
    let p = a.allocate(4, 4).unwrap();
    a.deallocate(p, 4);
    assert_eq!(a.allocate(4, 4), Some(p));
}

#[test]
fn interleaved_allocations_never_overlap() {
    let mut a = SimpleAllocator::new();
    a.add_new_node(0x1000, 256);
    let p1 = a.allocate(16, 4).unwrap();
    let p2 = a.allocate(32, 8).unwrap();
    a.deallocate(p1, 16);
    let p3 = a.allocate(8, 4).unwrap();
    let live = [(p2, 32usize), (p3, 8usize)];
    for (i, &(x, sx)) in live.iter().enumerate() {
        for &(y, sy) in live.iter().skip(i + 1) {
            assert!(x + sx <= y || y + sy <= x);
        }
    }
}

#[test]
fn allocation_region_is_never_smaller_than_requested() {
    let mut a = SimpleAllocator::new();
    a.add_new_node(0x1000, 64);
    // a fit for 40 bytes must leave 40 usable bytes before the block's end
    let p = a.allocate(40, 4).unwrap();
    assert!(p + 40 <= 0x1000 + 64);
    // and the leftover block cannot serve another 40-byte request
    assert!(a.allocate(40, 4).is_none());
}

#[test]
fn region_at_the_top_of_the_address_space() {
    let mut a = SimpleAllocator::new();
    let start = usize::MAX - 63;
    assert_eq!(start % 4, 0);
    a.add_new_node(start, 63);
    assert_eq!(a.free_block_count(), 1);
    let p = a.allocate(32, 4);
    assert_eq!(p, Some(start));
    assert_eq!(a.get_node(0).addr, start + 32);
    assert_eq!(a.get_node(0).size, 31);
}

#[test]
fn small_alignments_are_served_in_place() {
    let mut a = SimpleAllocator::new();
    a.add_new_node(0x1000, 32);
    assert_eq!(a.allocate(8, 1), Some(0x1000));
    assert_eq!(a.allocate(8, 2), Some(0x1008));
}

#[test]
fn exhausted_heap_reports_failure_not_a_block() {
    let mut a = SimpleAllocator::new();
    assert!(a.allocate(1, 1).is_none());
    a.add_new_node(0x1000, 16);
    assert!(a.allocate(32, 4).is_none());
    assert_eq!(a.free_block_count(), 1);
}
