//! End-to-end exercises of the collector: allocation, rooting, tracing,
//! compaction and the retry protocol.

use gc_api::collector::{CollectionType, Layout, RootingAllocator};
use gc_api::error::ErrorKind;
use gc_api::trace::TraceShape;
use gc_api::Gc;

const MIB: usize = 1 << 20;

fn leaf_bytes(gc: &mut RootingAllocator, bytes: &[u8]) -> Gc {
    gc.try_gc_alloc(0, bytes, &TraceShape::leaf()).unwrap()
}

fn read_child(gc: &RootingAllocator, node: &Gc, offset: usize) -> Option<Gc> {
    let w = gc.read_word(node, offset);
    if w == 0 {
        None
    } else {
        Some(Gc::from_raw((w - 1) as usize))
    }
}

fn write_child(gc: &mut RootingAllocator, node: &Gc, offset: usize, child: &Gc) {
    gc.write_word(node, offset, child.as_raw() as u64 + 1);
}

#[test]
fn allocate_then_get_roundtrip() {
    let mut gc = RootingAllocator::with_capacity(4096);
    let payload = [7u8, 1, 2, 3, 4, 5, 6, 0xff];
    let g = leaf_bytes(&mut gc, &payload);
    assert_eq!(g.get(&gc), payload.to_vec());
    assert_eq!(g.try_get(&gc).unwrap(), payload.to_vec());
}

#[test]
fn exact_fit_succeeds_one_more_byte_fails() {
    // a fresh heap places the first payload at byte 8, so the largest
    // possible allocation is capacity minus the mark word
    let mut gc = RootingAllocator::with_capacity(1024);
    let r = gc.try_alloc_layout(Layout::from_size_align(1016, 8), &TraceShape::leaf());
    assert!(r.is_ok());

    let mut gc2 = RootingAllocator::with_capacity(1024);
    let r2 = gc2.try_alloc_layout(Layout::from_size_align(1017, 8), &TraceShape::leaf());
    assert_eq!(r2.unwrap_err().kind(), ErrorKind::OutOfMemory);
}

#[test]
fn alignment_above_fixed_is_unsupported() {
    let mut gc = RootingAllocator::with_capacity(1024);
    let r = gc.try_alloc_layout(Layout::from_size_align(8, 16), &TraceShape::leaf());
    assert_eq!(r.unwrap_err().kind(), ErrorKind::UnsupportedAlignment);
}

#[test]
fn yield_without_request_is_a_no_op() {
    let mut gc = RootingAllocator::with_capacity(4096);
    let g = leaf_bytes(&mut gc, &[1, 2, 3, 4]);
    let used = gc.usage();
    gc.yield_point();
    assert_eq!(gc.usage(), used);
    assert_eq!(g.get(&gc), vec![1, 2, 3, 4]);
    assert!(!gc.should_perform_gc());
}

#[test]
fn empty_heap_after_collection_with_no_roots() {
    let mut gc = RootingAllocator::with_capacity(4096);
    leaf_bytes(&mut gc, &[0u8; 100]);
    leaf_bytes(&mut gc, &[1u8; 50]);
    assert!(gc.usage() > 0);
    gc.request_gc(CollectionType::Full);
    gc.yield_point();
    assert_eq!(gc.usage(), 0);
}

#[test]
fn grow_and_sweep_thousand_objects() {
    let mut gc = RootingAllocator::with_capacity(MIB);
    for _ in 0..1000 {
        leaf_bytes(&mut gc, &[0xabu8; 128]);
    }
    assert_eq!(gc.usage(), 1000 * 136);
    gc.request_gc(CollectionType::Full);
    gc.yield_point();
    assert_eq!(gc.usage(), 0);
    assert_eq!(gc.last_trace_count(), 0);
}

#[test]
fn rooted_object_survives_compaction_with_stable_handle() {
    let mut gc = RootingAllocator::with_capacity(4096);
    // garbage in front forces the survivor to relocate
    leaf_bytes(&mut gc, &[0u8; 256]);
    let payload = [42u8, 43, 44, 45, 46, 47, 48, 49];
    let g = leaf_bytes(&mut gc, &payload);
    gc.add_root(&g);
    let raw_before = g.as_raw();
    let addr_before = gc.handle_ptr(&g);
    gc.request_gc(CollectionType::Full);
    gc.yield_point();
    let addr_after = gc.handle_ptr(&g);
    assert_eq!(g.as_raw(), raw_before);
    assert!(addr_after < addr_before);
    assert_eq!(g.get(&gc), payload.to_vec());
}

#[test]
fn add_then_remove_root_restores_collectability() {
    let mut gc = RootingAllocator::with_capacity(4096);
    let g = leaf_bytes(&mut gc, &[9u8; 16]);
    let idx = gc.add_root(&g);
    assert!(gc.remove_root(idx));
    assert!(!gc.remove_root(idx));
    gc.request_gc(CollectionType::Full);
    gc.yield_point();
    assert_eq!(gc.usage(), 0);
}

#[test]
fn cycle_terminates_and_visits_each_object_once() {
    let mut gc = RootingAllocator::with_capacity(4096);
    let shape = TraceShape::with_refs(vec![0]);
    let a = gc.try_gc_alloc(0, &[0u8; 16], &shape).unwrap();
    let b = gc.try_gc_alloc(0, &[0u8; 16], &shape).unwrap();
    write_child(&mut gc, &a, 0, &b);
    write_child(&mut gc, &b, 0, &a);
    gc.add_root(&a);
    gc.request_gc(CollectionType::Full);
    gc.yield_point();
    assert_eq!(gc.last_trace_count(), 2);
    assert!(a.try_get(&gc).is_ok());
    assert!(b.try_get(&gc).is_ok());
}

#[test]
fn retry_protocol_recovers_after_exhaustion() {
    let mut gc = RootingAllocator::with_capacity(2048);
    // exhaust the heap with unrooted allocations
    let mut failures = 0;
    loop {
        match gc.try_gc_alloc(0, &[0u8; 64], &TraceShape::leaf()) {
            Ok(_) => {}
            Err(e) => {
                assert_eq!(e.kind(), ErrorKind::OutOfMemory);
                failures += 1;
                break;
            }
        }
    }
    assert_eq!(failures, 1);
    // one more allocation through the retry wrapper succeeds: the yield
    // inside the loop reclaims everything
    let g = gc.try_gc_alloc(3, &[7u8; 64], &TraceShape::leaf()).unwrap();
    assert_eq!(g.get(&gc), vec![7u8; 64]);
    assert_eq!(gc.usage(), 72);
}

#[test]
fn payloads_are_word_aligned() {
    let mut gc = RootingAllocator::with_capacity(8192);
    for _ in 0..100 {
        let g = leaf_bytes(&mut gc, &[1u8]);
        assert_eq!(gc.handle_ptr(&g) % 8, 0);
    }
    let r = gc.try_alloc_layout(Layout::from_size_align(1, 16), &TraceShape::leaf());
    assert_eq!(r.unwrap_err().kind(), ErrorKind::UnsupportedAlignment);
}

#[test]
fn stale_handle_is_reported_by_try_get() {
    let mut gc = RootingAllocator::with_capacity(4096);
    let g = leaf_bytes(&mut gc, &[5u8; 8]);
    gc.request_gc(CollectionType::Suggest);
    gc.yield_point();
    let e = g.try_get(&gc).unwrap_err();
    assert_eq!(e.kind(), ErrorKind::IllegalState);
}

// Builds a balanced binary tree of the given height bottom-up.  Each node
// occupies 32 bytes: two child reference words, then a data word.
fn build_tree(gc: &mut RootingAllocator, height: u32, next: &mut u64) -> Option<Gc> {
    if height == 0 {
        return None;
    }
    let left = build_tree(gc, height - 1, next);
    let right = build_tree(gc, height - 1, next);
    let shape = TraceShape::with_refs(vec![0, 8]);
    let mut payload = [0u8; 32];
    payload[16..24].copy_from_slice(&next.to_le_bytes());
    *next += 1;
    let node = gc.try_gc_alloc(0, &payload, &shape).unwrap();
    if let Some(l) = left {
        write_child(gc, &node, 0, &l);
    }
    if let Some(r) = right {
        write_child(gc, &node, 8, &r);
    }
    Some(node)
}

fn count_tree(gc: &RootingAllocator, node: &Gc) -> u64 {
    let mut n = 1;
    if let Some(l) = read_child(gc, node, 0) {
        n += count_tree(gc, &l);
    }
    if let Some(r) = read_child(gc, node, 8) {
        n += count_tree(gc, &r);
    }
    n
}

fn sum_tree_data(gc: &RootingAllocator, node: &Gc) -> u64 {
    let bytes = node.get(gc);
    let mut data = [0u8; 8];
    data.copy_from_slice(&bytes[16..24]);
    let mut n = u64::from_le_bytes(data);
    if let Some(l) = read_child(gc, node, 0) {
        n += sum_tree_data(gc, &l);
    }
    if let Some(r) = read_child(gc, node, 8) {
        n += sum_tree_data(gc, &r);
    }
    n
}

#[test]
fn rooted_tree_survives_sibling_is_reclaimed() {
    let mut gc = RootingAllocator::with_capacity(MIB);
    let mut next = 0u64;
    let root = build_tree(&mut gc, 10, &mut next).unwrap();
    gc.add_root(&root);
    let rooted_usage = gc.usage();
    // an unrooted sibling tree of the same height
    let mut next2 = 10_000u64;
    build_tree(&mut gc, 10, &mut next2).unwrap();
    assert_eq!(gc.usage(), 2 * rooted_usage);
    gc.request_gc(CollectionType::Full);
    gc.yield_point();
    assert_eq!(gc.usage(), rooted_usage);
    assert_eq!(gc.last_trace_count(), 1023);
    assert_eq!(count_tree(&gc, &root), 1023);
    // node k carries data k, so the payloads survived bit for bit
    assert_eq!(sum_tree_data(&gc, &root), (0..1023).sum::<u64>());
}

#[test]
fn string_and_fill_allocation() {
    let mut gc = RootingAllocator::with_capacity(4096);
    let s = gc.try_gc_alloc_str(0, "handles stay put").unwrap();
    assert_eq!(s.get(&gc), b"handles stay put".to_vec());
    let f = gc.try_gc_alloc_filled(0, 24, 0x5a).unwrap();
    assert_eq!(f.get(&gc), vec![0x5a; 24]);
}

#[test]
fn two_collections_flip_polarity_both_ways() {
    let mut gc = RootingAllocator::with_capacity(4096);
    let keep = leaf_bytes(&mut gc, &[0xc4u8; 16]);
    gc.add_root(&keep);
    for _ in 0..2 {
        leaf_bytes(&mut gc, &[0u8; 64]);
        gc.request_gc(CollectionType::Full);
        gc.yield_point();
        assert_eq!(gc.last_trace_count(), 1);
        assert_eq!(keep.get(&gc), vec![0xc4u8; 16]);
    }
    assert_eq!(gc.usage(), 24);
}
