//! Unit exercises of the building blocks: errors, mark words, layouts,
//! handle tables, root storage and generational indices.

use gc_api::collector::Layout;
use gc_api::error::{Error, ErrorKind};
use gc_api::handle_table::HandleTable;
use gc_api::mark::{Mark, MarkWord};
use gc_api::pointer::{CompressedGenIndex, DefaultMaxHeapSize, GenIndexConfig, GEN_MASK, PTR_MASK};
use gc_api::roots::{RootList, RootSource, UntypedTracable};
use gc_api::trace::TraceShape;
use gc_api::Gc;

#[test]
fn error_kinds_and_messages() {
    let e = Error::new(ErrorKind::OutOfMemory, "boom".to_owned());
    assert_eq!(e.kind(), ErrorKind::OutOfMemory);
    assert_eq!(
        ErrorKind::OutOfMemory.message(),
        "Not enough memory remaining to complete request"
    );
    assert_eq!(
        ErrorKind::UnsupportedAlignment.message(),
        "The requested allocation alignment is not supported"
    );
    let e2 = Error::from_kind(ErrorKind::UseAfterFree);
    assert_eq!(e2.kind(), ErrorKind::UseAfterFree);
}

#[test]
fn mark_word_packs_length_and_state() {
    let mut w = MarkWord::new(128, false);
    assert_eq!(w.object_len(), 128);
    assert!(!w.load_mark_state());
    let prev = w.swap_mark_state(true);
    assert!(!prev);
    assert!(w.load_mark_state());
    assert_eq!(w.object_len(), 128);
    w.store_mark_state(false);
    assert!(!w.load_mark_state());
    assert_eq!(w.object_len(), 128);
}

#[test]
fn gc_handle_raw_roundtrip() {
    let g = Gc::from_raw(17);
    assert_eq!(g.as_raw(), 17);
    let copy = g;
    assert_eq!(copy.into_raw(), 17);
}

#[test]
fn layout_carries_size_and_align() {
    let l = Layout::from_size_align(48, 8);
    assert_eq!(l.size(), 48);
    assert_eq!(l.align(), 8);
}

#[test]
fn trace_shape_checks_fit() {
    let shape = TraceShape::with_refs(vec![0, 8, 24]);
    assert_eq!(shape.ref_count(), 3);
    assert_eq!(shape.ref_offset(2), 24);
    assert!(shape.check_fits(32));
    assert!(!shape.check_fits(31));
    assert!(TraceShape::leaf().check_fits(0));
}

#[test]
fn handle_table_claims_and_frees_by_value() {
    let mut t = HandleTable::new();
    let a = t.claim_slot(1000);
    let b = t.claim_slot(2000);
    assert_ne!(a, b);
    assert!(t.is_occupied_slot(a));
    assert_eq!(t.read_slot(a), 1000);
    t.update_slot_by_value(1000, 1500);
    assert_eq!(t.read_slot(a), 1500);
    t.free_slot_by_value(1500);
    assert!(!t.is_occupied_slot(a));
    assert!(t.is_occupied_slot(b));
}

#[test]
fn root_list_keeps_indices_stable() {
    let mut roots = RootList::new();
    let i0 = roots.add_root(UntypedTracable::from_handle(Gc::from_raw(5)));
    let i1 = roots.add_root(UntypedTracable::from_handle(Gc::from_raw(9)));
    assert_eq!((i0, i1), (0, 1));
    assert!(roots.remove_by_index(i0));
    assert!(!roots.remove_by_index(i0));
    assert_eq!(roots.get_root(i1), Some(9));
    assert_eq!(roots.get_root(i0), None);
    // through the trait, removal behaves the same
    let mut more = RootList::new();
    let j = more.add_root(UntypedTracable::from_handle(Gc::from_raw(3)));
    assert!(RootSource::remove_root(&mut more, j));
}

#[test]
fn generational_index_detects_staleness() {
    assert_eq!(DefaultMaxHeapSize::max_heap_size(), 1u64 << 40);
    let mut slot = 0u64;
    let idx = CompressedGenIndex::next_for(100, 150, &mut slot);
    assert_eq!(slot & PTR_MASK, 50);
    assert_eq!((slot & GEN_MASK) >> 40, 1);
    assert_eq!(idx.to_ptr(slot, 100), Some(150));
    // re-targeting the slot bumps the generation, so the old index is stale
    let _newer = CompressedGenIndex::next_for(100, 200, &mut slot);
    assert_eq!(idx.to_ptr(slot, 100), None);
}

#[test]
fn heap_bump_allocation_and_sweep() {
    let mut h = gc_api::heap::Heap::with_capacity(1024);
    let a = h.allocate(4, 8).unwrap();
    h.write_payload_byte(a, 0, 0xaa);
    assert_eq!(h.read_payload_byte(a, 0), 0xaa);
    assert_eq!(h.handle_ptr(a), 8);
    assert_eq!(h.usage(), 12);
    assert_eq!(h.free_space(), 1012);
    assert!(h.contains_ptr(8));
    // the next block starts where the previous payload ended, rounded up
    let b = h.allocate(8, 8).unwrap();
    assert_eq!(h.handle_ptr(b), 24);
    assert_eq!(h.usage(), 32);
    // objects are born carrying the current mark state
    assert_eq!(h.load_mark(a), h.mark_state());
    // after the polarity flips, unmarked objects are reclaimed wholesale
    h.flip_mark_state();
    let freed = h.perform_sweep();
    assert_eq!(freed, 32);
    assert_eq!(h.usage(), 0);
    assert!(!h.is_live(a));
    assert!(!h.is_live(b));
}

#[test]
fn heap_swap_mark_reports_previous_state() {
    let mut h = gc_api::heap::Heap::with_capacity(256);
    let a = h.allocate(16, 1).unwrap();
    let state = h.mark_state();
    let prev = h.swap_mark(a, !state);
    assert_eq!(prev, state);
    assert_eq!(h.load_mark(a), !state);
    // payload survives mark flips untouched
    h.write_payload(a, &[3u8; 16]);
    let prev2 = h.swap_mark(a, state);
    assert_eq!(prev2, !state);
    assert_eq!(h.read_payload(a), vec![3u8; 16]);
}
