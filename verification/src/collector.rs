//! The collector façade: a heap bound together with a root container and
//! the per-object trace shapes.
//!
//! The mutator allocates through it, registers roots, requests collection
//! and yields.  Collection happens only inside [`RootingAllocator::yield_point`]:
//! the global mark polarity is flipped, the object graph is traced from the
//! roots, and the heap is swept and compacted.  Between two yield points no
//! object moves.

use crate::error::{Error, ErrorKind};
use crate::heap::{compact_seq, Heap};
use crate::layout::FIXED_ALIGN;
use crate::roots::{RootList, UntypedTracable};
use crate::trace::{TraceShape, NULL_REF};
use vstd::string::StringSliceAdditionalSpecFns;
use crate::Gc;
use vstd::prelude::*;

verus! {

/// A size and alignment pair describing an allocation request.
#[derive(Clone, Copy, Debug)]
pub struct Layout {
    size: usize,
    align: usize,
}

impl Layout {
    /// The requested size in bytes, for use in specifications.
    pub closed spec fn spec_size(self) -> int {
        self.size as int
    }

    /// The requested alignment, for use in specifications.
    pub closed spec fn spec_align(self) -> int {
        self.align as int
    }

    /// A layout of `size` bytes aligned to `align`.
    pub fn from_size_align(size: usize, align: usize) -> (r: Layout)
        ensures
            r.spec_size() == size,
            r.spec_align() == align,
    {
        Layout { size, align }
    }

    /// The size in bytes.
    pub fn size(&self) -> (r: usize)
        ensures
            r == self.spec_size(),
    {
        self.size
    }

    /// The alignment.
    pub fn align(&self) -> (r: usize)
        ensures
            r == self.spec_align(),
    {
        self.align
    }
}

/// What kind of collection is being requested.  This collector collapses
/// every kind to "perform a full collection at the next yield point", but
/// the vocabulary is kept so callers can state their intent.
pub enum CollectionType {
    /// Request a full collection across the entire heap as soon as possible.
    Full,
    /// Request a partial collection; what that means varies between
    /// implementations.
    Partial,
    /// Request a collection that frees at least enough space for the given
    /// layout.
    AllocAtLeast(Layout),
    /// Suggest that collecting soon would be worthwhile; the implementation
    /// may ignore it.
    Suggest,
    /// A custom request defined by a specific implementation.
    Custom(u64),
}

/// How many times the panicking allocation helpers retry after yielding to
/// the collector before giving up.
pub const DEFAULT_ALLOC_RETRY_LIMIT: u32 = 3;

/// An allocator that can be used as a handle to mutate the heap: it can
/// yield to the collector, and ask that a collection be run at the next
/// yield.
pub trait Allocator: Sized {
    /// The invariant the allocator maintains across calls.
    spec fn inv(&self) -> bool;

    /// Mark a location where this allocator can safely yield to garbage
    /// collection.  Collection only ever happens here; if none is pending,
    /// nothing at all happens.
    fn yield_point(&mut self)
        requires
            old(self).inv(),
        ensures
            final(self).inv(),
    ;

    /// Request that a collection of the given kind be performed at the next
    /// yield point.
    fn request_gc(&mut self, request: CollectionType)
        requires
            old(self).inv(),
        ensures
            final(self).inv(),
    ;
}

/// The collector façade: an allocator bound to a root container.
pub struct RootingAllocator {
    alloc: Heap,
    roots: RootList,
    shapes: Vec<TraceShape>,
    last_traced: usize,
}

impl RootingAllocator {
    /// The heap, for use in specifications.
    pub closed spec fn spec_heap(self) -> Heap {
        self.alloc
    }

    /// The root container, for use in specifications.
    pub closed spec fn spec_roots(self) -> RootList {
        self.roots
    }

    /// The per-slot trace shapes, for use in specifications.
    pub closed spec fn spec_shapes(self) -> Seq<TraceShape> {
        self.shapes@
    }

    /// How many objects the most recent trace visited, for use in
    /// specifications.
    pub closed spec fn spec_last_traced(self) -> int {
        self.last_traced as int
    }

    /// Whether raw handle `h` names a live object.
    pub open spec fn is_live(self, h: int) -> bool {
        self.spec_heap().is_live_handle(h)
    }

    /// The payload bytes of the object named by raw handle `h`.
    pub open spec fn payload_of(self, h: int) -> Seq<u8> {
        self.spec_heap().payload_bytes(self.spec_heap().obj_of_handle(h))
    }

    /// Everything except the marks: the heap is well formed, every live
    /// object has a trace shape that fits inside its payload, and every
    /// registered root names a live object.
    pub open spec fn wf_core(self) -> bool {
        let heap = self.spec_heap();
        &&& heap.wf()
        &&& self.spec_shapes().len() == heap.spec_table().spec_len()
        &&& forall|h: int|
            heap.is_live_handle(h) ==> (#[trigger] self.spec_shapes()[h]).fits(
                heap.objects()[heap.obj_of_handle(h)].len,
            )
        &&& forall|k: int|
            0 <= k < self.spec_roots().spec_entries().len() && (
            #[trigger] self.spec_roots().spec_entries()[k]) is Some ==> heap.is_live_handle(
                self.spec_roots().spec_entries()[k]->0,
            )
    }

    /// Between two mutator calls every object carries the current global
    /// mark state: objects are born marked, and a sweep keeps only marked
    /// objects.
    pub open spec fn all_marked(self) -> bool {
        forall|k: int|
            0 <= k < self.spec_heap().objects().len() ==> #[trigger] self.spec_heap().obj_mark(k)
                == self.spec_heap().spec_mark_state()
    }

    /// The façade's invariant between mutator calls.
    pub open spec fn wf(self) -> bool {
        self.wf_core() && self.all_marked()
    }

    /// Creates a collector with a heap of exactly `capacity` bytes and no
    /// roots.
    pub fn with_capacity(capacity: usize) -> (r: RootingAllocator)
        requires
            capacity < 0x8000_0000_0000_0000,
            capacity + 16 <= usize::MAX,
        ensures
            r.wf(),
            r.spec_heap().spec_capacity() == capacity,
            r.spec_heap().spec_cursor() == 0,
            r.spec_heap().objects().len() == 0,
            !r.spec_heap().spec_requested_gc(),
            r.spec_roots().is_empty(),
            r.spec_last_traced() == 0,
    {
        let alloc = Heap::with_capacity(capacity);
        let mut shapes: Vec<TraceShape> = Vec::new();
        let table_len = crate::handle_table::CHUNK_SIZE;
        let mut k: usize = 0;
        while k < table_len
            invariant
                k <= table_len,
                shapes@.len() == k,
            decreases table_len - k,
        {
            shapes.push(TraceShape::leaf());
            k = k + 1;
        }
        let r = RootingAllocator { alloc, roots: RootList::new(), shapes, last_traced: 0 };
        r
    }

    /// The total size of the heap region in bytes.
    pub fn capacity(&self) -> (r: usize)
        ensures
            r == self.spec_heap().spec_capacity(),
    {
        self.alloc.capacity()
    }

    /// The number of bytes allocated so far.
    pub fn usage(&self) -> (r: usize)
        requires
            self.wf_core(),
        ensures
            r == self.spec_heap().spec_cursor(),
    {
        self.alloc.usage()
    }

    /// The number of bytes left before the heap is exhausted.
    pub fn free_space(&self) -> (r: usize)
        requires
            self.wf_core(),
        ensures
            r == self.spec_heap().spec_capacity() - self.spec_heap().spec_cursor(),
    {
        self.alloc.free_space()
    }

    /// How many objects the most recent collection's trace visited.
    pub fn last_trace_count(&self) -> (r: usize)
        ensures
            r == self.spec_last_traced(),
    {
        self.last_traced
    }

    /// Whether a collection will run at the next yield point.
    pub fn should_perform_gc(&self) -> (r: bool)
        ensures
            r == self.spec_heap().spec_requested_gc(),
    {
        self.alloc.should_perform_gc()
    }

    /// Requests that a collection be performed at the next yield point.
    /// Every request kind collapses to a full collection.
    pub fn request_gc(&mut self, _request: CollectionType)
        ensures
            final(self).spec_heap().spec_requested_gc(),
            collector_same_but_request(*old(self), *final(self)),
            old(self).wf() ==> final(self).wf(),
            old(self).wf_core() ==> final(self).wf_core(),
    {
        self.alloc.gc_at_next_yield();
        proof {
            lemma_same_but_request(*old(self), *self);
        }
    }

    /// Registers `root` as reachable for tracing until it is removed, and
    /// returns its stable index in the root container.
    pub fn add_root(&mut self, root: &Gc) -> (index: usize)
        requires
            old(self).wf_core(),
            old(self).is_live(root.spec_raw()),
        ensures
            old(self).wf() ==> final(self).wf(),
            final(self).wf_core(),
            final(self).spec_heap() == old(self).spec_heap(),
            final(self).spec_shapes() == old(self).spec_shapes(),
            final(self).spec_last_traced() == old(self).spec_last_traced(),
            final(self).spec_roots().spec_entries() == old(self).spec_roots().spec_entries().push(
                Some(root.spec_raw()),
            ),
            index == old(self).spec_roots().spec_entries().len(),
            final(self).spec_roots().contains_root(root.spec_raw()),
    {
        let entry = UntypedTracable::from_handle(*root);
        let index = self.roots.add_root(entry);
        proof {
            let es = self.spec_roots().spec_entries();
            assert forall|k: int|
                0 <= k < es.len() && (#[trigger] es[k]) is Some implies self.spec_heap(
            ).is_live_handle(es[k]->0) by {
                if k < es.len() - 1 {
                    assert(old(self).spec_roots().spec_entries()[k] == es[k]);
                }
            }
        }
        index
    }

    /// Removes the root at `index`; reports whether an entry was removed.
    /// Other roots keep their indices.
    pub fn remove_root(&mut self, index: usize) -> (r: bool)
        requires
            old(self).wf_core(),
        ensures
            old(self).wf() ==> final(self).wf(),
            final(self).wf_core(),
            final(self).spec_heap() == old(self).spec_heap(),
            final(self).spec_shapes() == old(self).spec_shapes(),
            final(self).spec_last_traced() == old(self).spec_last_traced(),
            r == (0 <= index < old(self).spec_roots().spec_entries().len() && old(self).spec_roots().spec_entries()[index as int] is Some),
            final(self).spec_roots().spec_entries() == if r {
                old(self).spec_roots().spec_entries().update(index as int, None)
            } else {
                old(self).spec_roots().spec_entries()
            },
    {
        let r = self.roots.remove_by_index(index);
        proof {
            let es = self.spec_roots().spec_entries();
            assert forall|k: int|
                0 <= k < es.len() && (#[trigger] es[k]) is Some implies self.spec_heap(
            ).is_live_handle(es[k]->0) by {
                assert(old(self).spec_roots().spec_entries()[k] == es[k]);
            }
        }
        r
    }

    /// Attempts one allocation of `size` payload bytes with the given trace
    /// shape, without ever collecting.  Succeeds exactly when the alignment
    /// is supported and the object fits in the remaining free space.
    #[verifier::loop_isolation(false)]
    pub fn try_alloc_layout(&mut self, layout: Layout, shape: &TraceShape) -> (r: Result<
        Gc,
        Error,
    >)
        requires
            old(self).wf_core(),
            shape.fits(layout.spec_size()),
        ensures
            final(self).wf_core(),
            old(self).wf() ==> final(self).wf(),
            final(self).spec_roots() == old(self).spec_roots(),
            final(self).spec_last_traced() == old(self).spec_last_traced(),
            final(self).spec_heap().spec_capacity() == old(self).spec_heap().spec_capacity(),
            final(self).spec_heap().spec_mark_state() == old(self).spec_heap().spec_mark_state(),
            final(self).spec_heap().spec_requested_gc() == old(self).spec_heap().spec_requested_gc(),
            old(self).spec_heap().spec_cursor() <= final(self).spec_heap().spec_cursor(),
            match r {
                Ok(g) => {
                    &&& layout.spec_align() <= FIXED_ALIGN
                    &&& crate::layout::payload_at(old(self).spec_heap().spec_cursor())
                        + layout.spec_size() <= old(self).spec_heap().spec_capacity()
                    &&& !old(self).is_live(g.spec_raw())
                    &&& final(self).is_live(g.spec_raw())
                    &&& final(self).spec_heap().objects().len() == old(self).spec_heap().objects().len() + 1
                    &&& final(self).spec_heap().objects()[final(self).spec_heap().objects().len()
                        - 1].slot == g.spec_raw()
                    &&& final(self).spec_heap().objects()[final(self).spec_heap().objects().len()
                        - 1].len == layout.spec_size()
                    &&& forall|i: int|
                        i != g.spec_raw() ==> final(self).is_live(i) == old(self).is_live(i)
                    &&& forall|k: int|
                        0 <= k < old(self).spec_heap().objects().len() ==> final(self).spec_heap().payload_bytes(k) == old(self).spec_heap().payload_bytes(k)
                            && final(self).spec_heap().objects()[k] == old(self).spec_heap().objects()[k]
                    &&& final(self).spec_shapes()[g.spec_raw()].offsets() == shape.offsets()
                },
                Err(e) => {
                    &&& final(self).spec_heap() == old(self).spec_heap()
                    &&& (layout.spec_align() > FIXED_ALIGN ==> e.spec_kind()
                        == ErrorKind::UnsupportedAlignment)
                    &&& (layout.spec_align() <= FIXED_ALIGN ==> e.spec_kind()
                        == ErrorKind::OutOfMemory && crate::layout::payload_at(
                        old(self).spec_heap().spec_cursor(),
                    ) + layout.spec_size() > old(self).spec_heap().spec_capacity())
                },
            },
    {
        let ghost pre = *old(self);
        let size = layout.size();
        let align = layout.align();
        match self.alloc.allocate(size, align) {
            Ok(h) => {
                // grow the shape table alongside the handle table, then
                // record this object's shape
                let ghost mid = *self;
                let table_len = self.alloc.table_len();
                while self.shapes.len() < table_len
                    invariant
                        self.alloc == mid.alloc,
                        self.roots == mid.roots,
                        self.last_traced == mid.last_traced,
                        self.shapes@.len() <= table_len,
                        table_len == mid.spec_heap().spec_table().spec_len(),
                        pre.spec_shapes().len() <= self.shapes@.len(),
                        forall|x: int|
                            0 <= x < pre.spec_shapes().len() ==> #[trigger] self.shapes@[x]
                                == pre.spec_shapes()[x],
                    decreases table_len - self.shapes@.len(),
                {
                    self.shapes.push(TraceShape::leaf());
                }
                self.shapes.set(h, shape.clone());
                proof {
                    let heap = self.spec_heap();
                    let n = heap.objects().len() as int;
                    heap.spec_table().lemma_occupied_range(h as int);
                    heap.lemma_obj_of_handle(h as int);
                    assert(heap.obj_of_handle(h as int) == n - 1) by {
                        assert(heap.objects()[n - 1].slot == h as int);
                    }
                    assert forall|hh: int|
                        heap.is_live_handle(hh) implies (#[trigger] self.spec_shapes()[hh]).fits(
                        heap.objects()[heap.obj_of_handle(hh)].len,
                    ) by {
                        heap.spec_table().lemma_occupied_range(hh);
                        if hh == h as int {
                            assert(self.spec_shapes()[hh].offsets() == shape.offsets());
                        } else {
                            assert(pre.spec_heap().is_live_handle(hh));
                            pre.spec_heap().spec_table().lemma_occupied_range(hh);
                            pre.spec_heap().lemma_obj_of_handle(hh);
                            let k = pre.spec_heap().obj_of_handle(hh);
                            assert(heap.objects()[k].slot == hh);
                            heap.lemma_obj_of_handle(hh);
                            assert(heap.obj_of_handle(hh) == k);
                            assert(self.spec_shapes()[hh] == pre.spec_shapes()[hh]);
                        }
                    }
                    assert forall|k: int|
                        0 <= k < self.spec_roots().spec_entries().len() && (
                        #[trigger] self.spec_roots().spec_entries()[k]) is Some implies heap
                        .is_live_handle(self.spec_roots().spec_entries()[k]->0) by {
                        assert(pre.spec_heap().is_live_handle(
                            self.spec_roots().spec_entries()[k]->0,
                        ));
                    }
                    assert forall|k: int|
                        0 <= k < pre.spec_heap().objects().len() implies #[trigger] self.spec_heap(
                    ).payload_bytes(k) == pre.spec_heap().payload_bytes(k) by {
                        assert(self.spec_heap().obj_mark(k) == pre.spec_heap().obj_mark(k));
                    }
                    if pre.wf() {
                        assert forall|k: int|
                            0 <= k < heap.objects().len() implies #[trigger] heap.obj_mark(k)
                            == heap.spec_mark_state() by {
                            if k < n - 1 {
                                assert(pre.spec_heap().obj_mark(k)
                                    == pre.spec_heap().spec_mark_state());
                            }
                        }
                    }
                }
                Ok(Gc::from_raw(h))
            },
            Err(e) => Err(e),
        }
    }
}

/// Two collectors that differ at most in the heap's collection-request
/// flag.
pub open spec fn collector_same_but_request(a: RootingAllocator, b: RootingAllocator) -> bool {
    &&& crate::heap::heap_same_but_flags(a.spec_heap(), b.spec_heap())
    &&& a.spec_heap().spec_mark_state() == b.spec_heap().spec_mark_state()
    &&& a.spec_roots() == b.spec_roots()
    &&& a.spec_shapes() == b.spec_shapes()
    &&& a.spec_last_traced() == b.spec_last_traced()
}

/// The façade invariant does not look at the collection-request flag.
pub proof fn lemma_same_but_request(a: RootingAllocator, b: RootingAllocator)
    requires
        collector_same_but_request(a, b),
    ensures
        a.wf_core() ==> b.wf_core(),
        a.wf() ==> b.wf(),
{
    if a.wf_core() {
        crate::heap::lemma_wf_same_but_flags(a.spec_heap(), b.spec_heap());
        assert forall|h: int|
            b.spec_heap().is_live_handle(h) implies (#[trigger] b.spec_shapes()[h]).fits(
            b.spec_heap().objects()[b.spec_heap().obj_of_handle(h)].len,
        ) by {
            assert(a.spec_heap().is_live_handle(h));
            assert(b.spec_heap().obj_of_handle(h) == a.spec_heap().obj_of_handle(h));
        }
        if a.all_marked() {
            assert forall|k: int|
                0 <= k < b.spec_heap().objects().len() implies #[trigger] b.spec_heap().obj_mark(
                k,
            ) == b.spec_heap().spec_mark_state() by {
                assert(a.spec_heap().obj_mark(k) == b.spec_heap().obj_mark(k));
            }
        }
    }
}


/// Two heaps that differ at most in the objects' mark bits: same objects,
/// same handle table, same cursor, same payload bytes.
pub open spec fn heap_same_modulo_marks(a: Heap, b: Heap) -> bool {
    &&& b.objects() == a.objects()
    &&& b.spec_table() == a.spec_table()
    &&& b.spec_cursor() == a.spec_cursor()
    &&& b.spec_capacity() == a.spec_capacity()
    &&& b.spec_mark_state() == a.spec_mark_state()
    &&& b.spec_requested_gc() == a.spec_requested_gc()
    &&& forall|k: int|
        0 <= k < a.objects().len() ==> #[trigger] b.payload_bytes(k) == a.payload_bytes(k)
}

/// A live handle names the same object in two heaps with the same objects
/// and table.
pub proof fn lemma_obj_of_handle_same(a: Heap, b: Heap, h: int)
    requires
        a.wf(),
        b.objects() == a.objects(),
        b.spec_table() == a.spec_table(),
        a.is_live_handle(h),
    ensures
        b.obj_of_handle(h) == a.obj_of_handle(h),
{
    a.lemma_obj_of_handle(h);
    let k = a.obj_of_handle(h);
    assert(b.objects()[k].slot == h);
    let k2 = b.obj_of_handle(h);
    assert(0 <= k2 < b.objects().len() && b.objects()[k2].slot == h) by {
        assert(b.objects()[k].slot == h);
    }
    assert(a.objects()[k2].slot == h);
}

/// There is a reference from the object named `a` to the object named `b`:
/// some reference word of `a`'s trace shape holds `b` plus one.
pub open spec fn edge(heap: Heap, shapes: Seq<TraceShape>, a: int, b: int) -> bool {
    &&& heap.is_live_handle(a)
    &&& heap.is_live_handle(b)
    &&& exists|j: int|
        0 <= j < shapes[a].offsets().len() && #[trigger] heap.payload_word(
            heap.obj_of_handle(a),
            shapes[a].offsets()[j] as int,
        ) == b + 1
}

/// `p` is a chain of references from a registered root down to the object
/// named `h`.
pub open spec fn is_path(
    heap: Heap,
    shapes: Seq<TraceShape>,
    roots: RootList,
    p: Seq<int>,
    h: int,
) -> bool {
    &&& p.len() >= 1
    &&& roots.contains_root(p[0])
    &&& heap.is_live_handle(p[0])
    &&& p[p.len() - 1] == h
    &&& forall|x: int| 0 <= x < p.len() - 1 ==> edge(heap, shapes, #[trigger] p[x], p[x + 1])
}

/// The object named `h` is transitively reachable from some registered
/// root.
pub open spec fn reachable(heap: Heap, shapes: Seq<TraceShape>, roots: RootList, h: int) -> bool {
    exists|p: Seq<int>| is_path(heap, shapes, roots, p, h)
}

/// A registered root is reachable: the one-step path.
pub proof fn lemma_reachable_root(heap: Heap, shapes: Seq<TraceShape>, roots: RootList, h: int)
    requires
        roots.contains_root(h),
        heap.is_live_handle(h),
    ensures
        reachable(heap, shapes, roots, h),
{
    let p = seq![h];
    assert(is_path(heap, shapes, roots, p, h));
}

/// Reachability follows references: a child of a reachable object is
/// reachable.
pub proof fn lemma_reachable_step(
    heap: Heap,
    shapes: Seq<TraceShape>,
    roots: RootList,
    a: int,
    b: int,
)
    requires
        reachable(heap, shapes, roots, a),
        edge(heap, shapes, a, b),
    ensures
        reachable(heap, shapes, roots, b),
{
    let p = choose|p: Seq<int>| is_path(heap, shapes, roots, p, a);
    let p2 = p.push(b);
    assert forall|x: int| 0 <= x < p2.len() - 1 implies edge(heap, shapes, #[trigger] p2[x], p2[x + 1]) by {
        if x < p.len() - 1 {
            assert(p2[x] == p[x] && p2[x + 1] == p[x + 1]);
        } else {
            assert(p2[x] == a && p2[x + 1] == b);
        }
    }
    assert(is_path(heap, shapes, roots, p2, b));
}

/// How many of the first `i` objects do not carry the current mark state.
pub open spec fn count_unmarked_upto(heap: Heap, i: int) -> nat
    decreases i,
{
    if i <= 0 {
        0
    } else {
        count_unmarked_upto(heap, i - 1) + (if heap.obj_mark(i - 1) == heap.spec_mark_state() {
            0nat
        } else {
            1nat
        })
    }
}

/// How many objects do not carry the current mark state: the trace's
/// termination measure, since each visit that recurses marks one of them.
pub open spec fn count_unmarked(heap: Heap) -> nat {
    count_unmarked_upto(heap, heap.objects().len() as int)
}

/// Equal marks, equal count.
pub proof fn lemma_count_same(h0: Heap, h1: Heap, i: int)
    requires
        h1.objects() == h0.objects(),
        h1.spec_mark_state() == h0.spec_mark_state(),
        forall|k: int| 0 <= k < h0.objects().len() ==> #[trigger] h1.obj_mark(k) == h0.obj_mark(k),
        i <= h0.objects().len(),
    ensures
        count_unmarked_upto(h1, i) == count_unmarked_upto(h0, i),
    decreases i,
{
    if i > 0 {
        lemma_count_same(h0, h1, i - 1);
    }
}

/// Marking one unmarked object lowers the count by one.
pub proof fn lemma_count_dec(h0: Heap, h1: Heap, k: int, i: int)
    requires
        h1.objects() == h0.objects(),
        h1.spec_mark_state() == h0.spec_mark_state(),
        forall|j: int|
            0 <= j < h0.objects().len() && j != k ==> #[trigger] h1.obj_mark(j) == h0.obj_mark(j),
        0 <= k < h0.objects().len(),
        h0.obj_mark(k) != h0.spec_mark_state(),
        h1.obj_mark(k) == h1.spec_mark_state(),
        i <= h0.objects().len(),
    ensures
        i <= k ==> count_unmarked_upto(h1, i) == count_unmarked_upto(h0, i),
        i > k ==> count_unmarked_upto(h1, i) + 1 == count_unmarked_upto(h0, i),
    decreases i,
{
    if i > 0 {
        lemma_count_dec(h0, h1, k, i - 1);
    }
}

/// The façade invariant's unmarked half does not look at the mark bits.
pub proof fn lemma_wf_core_modulo_marks(a: RootingAllocator, b: RootingAllocator)
    requires
        a.wf_core(),
        b.spec_heap().wf(),
        heap_same_modulo_marks(a.spec_heap(), b.spec_heap()),
        b.spec_roots() == a.spec_roots(),
        b.spec_shapes() == a.spec_shapes(),
    ensures
        b.wf_core(),
{
    assert forall|h: int|
        b.spec_heap().is_live_handle(h) implies (#[trigger] b.spec_shapes()[h]).fits(
        b.spec_heap().objects()[b.spec_heap().obj_of_handle(h)].len,
    ) by {
        lemma_obj_of_handle_same(a.spec_heap(), b.spec_heap(), h);
    }
}


/// No more of the first `i` objects can be unmarked than there are of them.
pub proof fn lemma_count_le(heap: Heap, i: int)
    requires
        i >= 0,
    ensures
        count_unmarked_upto(heap, i) <= i,
    decreases i,
{
    if i > 0 {
        lemma_count_le(heap, i - 1);
    }
}

/// After popping `h` from the worklist and marking its object, every root
/// is still either marked or on the worklist.
pub proof fn lemma_coverage_after_pop(
    roots: RootList,
    h0: Heap,
    cur0: Heap,
    cur1: Heap,
    wl0: Seq<usize>,
    wl1: Seq<usize>,
    h: usize,
    kh: int,
)
    requires
        forall|kk: int|
            0 <= kk < roots.spec_entries().len() && (#[trigger] roots.spec_entries()[kk]) is Some
                ==> marked_handle(cur0, roots.spec_entries()[kk]->0) || exists|x: int|
                0 <= x < wl0.len() && #[trigger] wl0[x] as int == roots.spec_entries()[kk]->0,
        wl0.len() >= 1,
        wl0[wl0.len() - 1] == h,
        forall|x: int| 0 <= x < wl0.len() - 1 ==> x < wl1.len() && #[trigger] wl1[x] == wl0[x],
        cur1.objects() == cur0.objects(),
        cur1.spec_table() == cur0.spec_table(),
        cur1.spec_mark_state() == cur0.spec_mark_state(),
        forall|k: int|
            0 <= k < cur0.objects().len() && k != kh ==> #[trigger] cur1.obj_mark(k)
                == cur0.obj_mark(k),
        cur0.wf(),
        cur0.is_live_handle(h as int),
        kh == cur0.obj_of_handle(h as int),
        cur1.obj_mark(kh) == cur1.spec_mark_state(),
        forall|kk: int|
            0 <= kk < roots.spec_entries().len() && (#[trigger] roots.spec_entries()[kk]) is Some
                ==> cur0.is_live_handle(roots.spec_entries()[kk]->0),
    ensures
        forall|kk: int|
            0 <= kk < roots.spec_entries().len() && (#[trigger] roots.spec_entries()[kk]) is Some
                ==> marked_handle(cur1, roots.spec_entries()[kk]->0) || exists|x: int|
                0 <= x < wl1.len() && #[trigger] wl1[x] as int == roots.spec_entries()[kk]->0,
{
    cur0.lemma_obj_of_handle(h as int);
    assert forall|kk: int|
        0 <= kk < roots.spec_entries().len() && (#[trigger] roots.spec_entries()[kk])
            is Some implies marked_handle(cur1, roots.spec_entries()[kk]->0) || exists|x: int|
        0 <= x < wl1.len() && #[trigger] wl1[x] as int == roots.spec_entries()[kk]->0 by {
        let v = roots.spec_entries()[kk]->0;
        if marked_handle(cur0, v) {
            assert(marked_handle(cur1, v)) by {
                lemma_obj_of_handle_same(cur0, cur1, v);
                if cur0.obj_of_handle(v) != kh {
                    assert(cur1.obj_mark(cur0.obj_of_handle(v)) == cur0.obj_mark(
                        cur0.obj_of_handle(v),
                    ));
                }
            }
        } else {
            let x = choose|x: int| 0 <= x < wl0.len() && #[trigger] wl0[x] as int == v;
            if x < wl0.len() - 1 {
                assert(wl1[x] as int == v);
            } else {
                assert(v == h as int);
                assert(marked_handle(cur1, v)) by {
                    lemma_obj_of_handle_same(cur0, cur1, v);
                }
            }
        }
    }
}

/// References depend only on objects, table and payload bytes, so two
/// heaps that agree on those have the same edges.
pub proof fn lemma_edge_same(a: Heap, b: Heap, shapes: Seq<TraceShape>, x: int, y: int)
    requires
        a.wf(),
        b.objects() == a.objects(),
        b.spec_table() == a.spec_table(),
        forall|k: int|
            0 <= k < a.objects().len() ==> #[trigger] b.payload_bytes(k) == a.payload_bytes(k),
    ensures
        edge(b, shapes, x, y) == edge(a, shapes, x, y),
{
    if a.is_live_handle(x) {
        lemma_obj_of_handle_same(a, b, x);
        a.lemma_obj_of_handle(x);
        let k = a.obj_of_handle(x);
        assert(b.payload_bytes(k) == a.payload_bytes(k));
        if edge(a, shapes, x, y) {
            let j = choose|j: int|
                0 <= j < shapes[x].offsets().len() && #[trigger] a.payload_word(
                    a.obj_of_handle(x),
                    shapes[x].offsets()[j] as int,
                ) == y + 1;
            assert(b.payload_word(b.obj_of_handle(x), shapes[x].offsets()[j] as int) == y + 1);
            assert(edge(b, shapes, x, y));
        }
        if edge(b, shapes, x, y) {
            let j = choose|j: int|
                0 <= j < shapes[x].offsets().len() && #[trigger] b.payload_word(
                    b.obj_of_handle(x),
                    shapes[x].offsets()[j] as int,
                ) == y + 1;
            assert(a.payload_word(a.obj_of_handle(x), shapes[x].offsets()[j] as int) == y + 1);
            assert(edge(a, shapes, x, y));
        }
    }
}

/// Reachability depends only on objects, table and payload bytes.
pub proof fn lemma_reachable_same(
    a: Heap,
    b: Heap,
    shapes: Seq<TraceShape>,
    roots: RootList,
    h: int,
)
    requires
        a.wf(),
        b.objects() == a.objects(),
        b.spec_table() == a.spec_table(),
        forall|k: int|
            0 <= k < a.objects().len() ==> #[trigger] b.payload_bytes(k) == a.payload_bytes(k),
    ensures
        reachable(b, shapes, roots, h) == reachable(a, shapes, roots, h),
{
    if reachable(a, shapes, roots, h) {
        let p = choose|p: Seq<int>| is_path(a, shapes, roots, p, h);
        assert forall|x: int| 0 <= x < p.len() - 1 implies edge(b, shapes, #[trigger] p[x], p[x + 1]) by {
            lemma_edge_same(a, b, shapes, p[x], p[x + 1]);
        }
        assert(is_path(b, shapes, roots, p, h));
    }
    if reachable(b, shapes, roots, h) {
        let p = choose|p: Seq<int>| is_path(b, shapes, roots, p, h);
        assert forall|x: int| 0 <= x < p.len() - 1 implies edge(a, shapes, #[trigger] p[x], p[x + 1]) by {
            lemma_edge_same(a, b, shapes, p[x], p[x + 1]);
        }
        assert(is_path(a, shapes, roots, p, h));
    }
}

/// The flag half of the façade invariant transfers across heaps that differ
/// only in mark polarity and collection request.
pub proof fn lemma_wf_core_same_but_flags(a: RootingAllocator, b: RootingAllocator)
    requires
        a.wf_core(),
        crate::heap::heap_same_but_flags(a.spec_heap(), b.spec_heap()),
        b.spec_roots() == a.spec_roots(),
        b.spec_shapes() == a.spec_shapes(),
    ensures
        b.wf_core(),
{
    crate::heap::lemma_wf_same_but_flags(a.spec_heap(), b.spec_heap());
    assert forall|h: int|
        b.spec_heap().is_live_handle(h) implies (#[trigger] b.spec_shapes()[h]).fits(
        b.spec_heap().objects()[b.spec_heap().obj_of_handle(h)].len,
    ) by {
        lemma_obj_of_handle_same(a.spec_heap(), b.spec_heap(), h);
    }
}

/// The object named by `h` carries the current global mark state.
pub open spec fn marked_handle(heap: Heap, h: int) -> bool {
    heap.obj_mark(heap.obj_of_handle(h)) == heap.spec_mark_state()
}

/// The state the mark phase maintains while draining its worklist: the
/// collector is unchanged but for marks, the marked set is sound with
/// respect to reachability, and every root is either marked or still on the
/// worklist.
#[verifier::opaque]
pub open spec fn trace_loop_inv(
    orig: RootingAllocator,
    cur: RootingAllocator,
    wl: Seq<usize>,
    traced: int,
) -> bool {
    let h0 = orig.spec_heap();
    &&& orig.wf_core()
    &&& cur.spec_roots() == orig.spec_roots()
    &&& cur.spec_shapes() == orig.spec_shapes()
    &&& cur.spec_last_traced() == orig.spec_last_traced()
    &&& cur.spec_heap().wf()
    &&& heap_same_modulo_marks(h0, cur.spec_heap())
    &&& traced >= 0
    &&& traced + count_unmarked(cur.spec_heap()) <= count_unmarked(h0)
    &&& count_unmarked(h0) <= h0.objects().len()
    &&& h0.objects().len() <= h0.spec_capacity() + 1
    &&& forall|k: int|
        0 <= k < h0.objects().len() && h0.obj_mark(k) == h0.spec_mark_state()
            ==> #[trigger] cur.spec_heap().obj_mark(k) == h0.spec_mark_state()
    &&& forall|k: int|
        0 <= k < h0.objects().len() && #[trigger] cur.spec_heap().obj_mark(k)
            == h0.spec_mark_state() ==> h0.obj_mark(k) == h0.spec_mark_state() || reachable(
            h0,
            orig.spec_shapes(),
            orig.spec_roots(),
            h0.objects()[k].slot,
        )
    &&& forall|x: int|
        0 <= x < wl.len() ==> h0.is_live_handle(#[trigger] wl[x] as int) && reachable(
            h0,
            orig.spec_shapes(),
            orig.spec_roots(),
            wl[x] as int,
        )
    &&& forall|kk: int|
        0 <= kk < orig.spec_roots().spec_entries().len() && (
        #[trigger] orig.spec_roots().spec_entries()[kk]) is Some ==> marked_handle(
            cur.spec_heap(),
            orig.spec_roots().spec_entries()[kk]->0,
        ) || exists|x: int|
            0 <= x < wl.len() && #[trigger] wl[x] as int == orig.spec_roots().spec_entries()[kk]->0
}

impl RootingAllocator {
    /// One visit of the mark phase: pops a handle, marks its object, and —
    /// if the object had not been visited this cycle — pushes every handle
    /// its payload references.
    #[verifier::loop_isolation(false)]
    #[verifier::rlimit(100)]
    fn trace_step(
        &mut self,
        worklist: &mut Vec<usize>,
        traced: &mut usize,
        Ghost(orig): Ghost<RootingAllocator>,
    )
        requires
            trace_loop_inv(orig, *old(self), old(worklist)@, *old(traced) as int),
            old(worklist)@.len() > 0,
        ensures
            trace_loop_inv(orig, *final(self), final(worklist)@, *final(traced) as int),
            count_unmarked(final(self).spec_heap()) < count_unmarked(old(self).spec_heap()) || (
            count_unmarked(final(self).spec_heap()) == count_unmarked(old(self).spec_heap())
                && final(worklist)@.len() < old(worklist)@.len()),
    {
        proof {
            reveal(trace_loop_inv);
        }
        let ghost h0 = orig.spec_heap();
        let state = self.alloc.mark_state();
        let ghost wl0 = worklist@;
        let h = match worklist.pop() {
            Some(h) => h,
            None => unreached(),
        };
        proof {
            assert(wl0[wl0.len() - 1] == h);
            assert(h0.is_live_handle(h as int));
            assert(self.spec_heap().is_live_handle(h as int));
        }
        let ghost cur0 = self.spec_heap();
        let ghost kh = cur0.obj_of_handle(h as int);
        proof {
            cur0.lemma_obj_of_handle(h as int);
            lemma_obj_of_handle_same(h0, cur0, h as int);
        }
        let prev = self.alloc.swap_mark(h, state);
        let ghost cur1 = self.spec_heap();
        proof {
            assert(cur1.obj_mark(kh) == state);
            assert forall|k: int|
                0 <= k < h0.objects().len() implies #[trigger] cur1.payload_bytes(k)
                == h0.payload_bytes(k) by {
                assert(cur1.payload_bytes(k) == cur0.payload_bytes(k));
            }
        }
        if prev == state {
            proof {
                assert forall|k: int|
                    0 <= k < cur0.objects().len() implies #[trigger] cur1.obj_mark(k)
                    == cur0.obj_mark(k) by {
                    if k == kh {
                    }
                }
                lemma_count_same(cur0, cur1, cur0.objects().len() as int);
                lemma_coverage_after_pop(
                    orig.spec_roots(),
                    h0,
                    cur0,
                    cur1,
                    wl0,
                    worklist@,
                    h,
                    kh,
                );
            }
            return ;
        }
        *traced = *traced + 1;
        proof {
            lemma_count_dec(cur0, cur1, kh, cur0.objects().len() as int);
            assert(h0.objects()[kh].slot == h as int);
            assert forall|k: int|
                0 <= k < h0.objects().len() && #[trigger] cur1.obj_mark(k)
                == h0.spec_mark_state() implies h0.obj_mark(k) == h0.spec_mark_state()
                || reachable(
                h0,
                orig.spec_shapes(),
                orig.spec_roots(),
                h0.objects()[k].slot,
            ) by {
                if k != kh {
                    assert(cur0.obj_mark(k) == cur1.obj_mark(k));
                }
            }
            lemma_coverage_after_pop(orig.spec_roots(), h0, cur0, cur1, wl0, worklist@, h, kh);
            h0.spec_table().lemma_occupied_range(h as int);
        }
        // expand this object: push every reference word it stores
        let ghost snap = *self;
        let ghost wl1 = worklist@;
        let shape_cnt = self.shapes[h].ref_count();
        let mut j: usize = 0;
        while j < shape_cnt
            invariant
                *self == snap,
                j <= shape_cnt,
                shape_cnt == snap.spec_shapes()[h as int].offsets().len(),
                wl1.len() <= worklist@.len(),
                forall|x: int| 0 <= x < wl1.len() ==> #[trigger] worklist@[x] == wl1[x],
                forall|x: int|
                    0 <= x < worklist@.len() ==> h0.is_live_handle(#[trigger] worklist@[x] as int)
                        && reachable(
                        h0,
                        orig.spec_shapes(),
                        orig.spec_roots(),
                        worklist@[x] as int,
                    ),
            decreases shape_cnt - j,
        {
            let off = self.shapes[h].ref_offset(j);
            proof {
                assert(self.spec_shapes()[h as int].fits(
                    h0.objects()[h0.obj_of_handle(h as int)].len,
                ));
                lemma_obj_of_handle_same(h0, self.spec_heap(), h as int);
            }
            let w = self.alloc.read_payload_word(h, off);
            if w != NULL_REF && w - 1 <= usize::MAX as u64 {
                let child = (w - 1) as usize;
                if self.alloc.is_live(child) {
                    proof {
                        let heap = self.spec_heap();
                        let kcur = heap.obj_of_handle(h as int);
                        assert(kcur == h0.obj_of_handle(h as int));
                        assert(heap.payload_word(kcur, off as int) == w);
                        assert(h0.payload_word(kcur, off as int) == w) by {
                            assert(heap.payload_bytes(kcur) == h0.payload_bytes(kcur));
                        }
                        assert(edge(h0, orig.spec_shapes(), h as int, child as int)) by {
                            assert(orig.spec_shapes()[h as int].offsets()[j as int] == off);
                            assert(h0.payload_word(
                                h0.obj_of_handle(h as int),
                                orig.spec_shapes()[h as int].offsets()[j as int] as int,
                            ) == child + 1);
                        }
                        lemma_reachable_step(
                            h0,
                            orig.spec_shapes(),
                            orig.spec_roots(),
                            h as int,
                            child as int,
                        );
                    }
                    worklist.push(child);
                }
            }
            j = j + 1;
        }
        proof {
            assert forall|kk: int|
                0 <= kk < orig.spec_roots().spec_entries().len() && (
                #[trigger] orig.spec_roots().spec_entries()[kk]) is Some implies marked_handle(
                self.spec_heap(),
                orig.spec_roots().spec_entries()[kk]->0,
            ) || exists|x: int|
                0 <= x < worklist@.len() && #[trigger] worklist@[x] as int
                    == orig.spec_roots().spec_entries()[kk]->0 by {
                let v = orig.spec_roots().spec_entries()[kk]->0;
                if !marked_handle(cur1, v) {
                    let x = choose|x: int| 0 <= x < wl1.len() && #[trigger] wl1[x] as int == v;
                    assert(worklist@[x] as int == v);
                }
            }
        }
    }

    /// Marks every object transitively reachable from the registered roots
    /// with the current global mark state, and returns the number of objects
    /// visited.  The mark-swap fast path makes the walk terminate on any
    /// graph, cycles included: an object already carrying the state is never
    /// expanded again.
    ///
    /// The trace only ever marks objects that are reachable from a root (or
    /// were already marked), and it marks every registered root; payload
    /// bytes, objects and handles are left exactly as they were.
    #[verifier::loop_isolation(false)]
    #[verifier::rlimit(100)]
    fn trace_roots(&mut self) -> (traced: usize)
        requires
            old(self).wf_core(),
        ensures
            final(self).wf_core(),
            final(self).spec_roots() == old(self).spec_roots(),
            final(self).spec_shapes() == old(self).spec_shapes(),
            final(self).spec_last_traced() == old(self).spec_last_traced(),
            heap_same_modulo_marks(old(self).spec_heap(), final(self).spec_heap()),
            forall|k: int|
                0 <= k < old(self).spec_heap().objects().len() && old(self).spec_heap().obj_mark(k)
                    == old(self).spec_heap().spec_mark_state() ==> #[trigger] final(self).spec_heap().obj_mark(k) == old(self).spec_heap().spec_mark_state(),
            forall|k: int|
                0 <= k < old(self).spec_heap().objects().len() && #[trigger] final(self).spec_heap().obj_mark(k) == old(self).spec_heap().spec_mark_state() ==> old(self).spec_heap().obj_mark(k) == old(self).spec_heap().spec_mark_state() || reachable(
                    old(self).spec_heap(),
                    old(self).spec_shapes(),
                    old(self).spec_roots(),
                    old(self).spec_heap().objects()[k].slot,
                ),
            forall|kk: int|
                0 <= kk < old(self).spec_roots().spec_entries().len() && (#[trigger] old(self).spec_roots().spec_entries()[kk]) is Some ==> marked_handle(
                    final(self).spec_heap(),
                    old(self).spec_roots().spec_entries()[kk]->0,
                ),
            old(self).spec_roots().is_empty() ==> *final(self) == *old(self) && traced == 0,
    {
        let ghost orig = *old(self);
        let ghost h0 = orig.spec_heap();
        let mut worklist: Vec<usize> = Vec::new();
        let nroots = self.roots.len();
        let mut idx: usize = 0;
        while idx < nroots
            invariant
                *self == orig,
                idx <= nroots,
                forall|x: int|
                    0 <= x < worklist@.len() ==> h0.is_live_handle(#[trigger] worklist@[x] as int)
                        && reachable(
                        h0,
                        orig.spec_shapes(),
                        orig.spec_roots(),
                        worklist@[x] as int,
                    ),
                forall|kk: int|
                    0 <= kk < idx && (#[trigger] orig.spec_roots().spec_entries()[kk]) is Some
                        ==> exists|x: int|
                        0 <= x < worklist@.len() && #[trigger] worklist@[x] as int
                            == orig.spec_roots().spec_entries()[kk]->0,
                orig.spec_roots().is_empty() ==> worklist@.len() == 0,
            decreases nroots - idx,
        {
            let ghost wlp = worklist@;
            match self.roots.get_root(idx) {
                Some(hroot) => {
                    proof {
                        assert(orig.spec_roots().spec_entries()[idx as int] == Some(
                            hroot as int,
                        ));
                        assert(orig.spec_roots().contains_root(hroot as int));
                        lemma_reachable_root(
                            h0,
                            orig.spec_shapes(),
                            orig.spec_roots(),
                            hroot as int,
                        );
                        assert(!orig.spec_roots().is_empty());
                    }
                    worklist.push(hroot);
                    proof {
                        assert forall|kk: int|
                            0 <= kk < idx + 1 && (#[trigger] orig.spec_roots().spec_entries()[kk])
                                is Some implies exists|x: int|
                            0 <= x < worklist@.len() && #[trigger] worklist@[x] as int
                                == orig.spec_roots().spec_entries()[kk]->0 by {
                            if kk < idx {
                                let x = choose|x: int|
                                    0 <= x < wlp.len() && #[trigger] wlp[x] as int
                                        == orig.spec_roots().spec_entries()[kk]->0;
                                assert(worklist@[x] as int == orig.spec_roots().spec_entries()[
                                    kk]->0);
                            } else {
                                assert(worklist@[worklist@.len() - 1] as int
                                    == orig.spec_roots().spec_entries()[kk]->0);
                            }
                        }
                    }
                },
                None => {},
            }
            idx = idx + 1;
        }
        if worklist.len() == 0 {
            return 0;
        }
        proof {
            h0.lemma_object_count_bound();
            lemma_count_le(h0, h0.objects().len() as int);
            lemma_count_same(h0, h0, h0.objects().len() as int);
            reveal(trace_loop_inv);
            assert(trace_loop_inv(orig, *self, worklist@, 0));
        }
        let mut traced: usize = 0;
        while worklist.len() > 0
            invariant
                trace_loop_inv(orig, *self, worklist@, traced as int),
            decreases count_unmarked(self.spec_heap()), worklist@.len(),
        {
            proof {
                reveal(trace_loop_inv);
                assert(traced as int + count_unmarked(self.spec_heap()) <= count_unmarked(h0));
                assert(count_unmarked(h0) <= h0.spec_capacity() + 1);
            }
            self.trace_step(&mut worklist, &mut traced, Ghost(orig));
        }
        proof {
            reveal(trace_loop_inv);
            lemma_wf_core_modulo_marks(orig, *self);
        }
        traced
    }
}


/// What a completed collection guarantees, relating the state before the
/// cycle to the state after it: the request is consumed, the polarity has
/// flipped, roots and handle namespace are stable, every survivor was
/// reachable from a root, every rooted object survived with its payload
/// intact, and with no roots at all the heap is empty again.
pub open spec fn collection_post(
    pre: RootingAllocator,
    post: RootingAllocator,
    cleared: int,
) -> bool {
    &&& post.wf()
    &&& !post.spec_heap().spec_requested_gc()
    &&& post.spec_heap().spec_mark_state() == !pre.spec_heap().spec_mark_state()
    &&& post.spec_roots() == pre.spec_roots()
    &&& post.spec_shapes() == pre.spec_shapes()
    &&& post.spec_heap().spec_capacity() == pre.spec_heap().spec_capacity()
    &&& post.spec_heap().spec_table().spec_len() == pre.spec_heap().spec_table().spec_len()
    &&& post.spec_heap().spec_cursor() <= pre.spec_heap().spec_cursor()
    &&& cleared == pre.spec_heap().spec_cursor() - post.spec_heap().spec_cursor()
    &&& forall|q: int|
        0 <= q < post.spec_heap().objects().len() ==> reachable(
            pre.spec_heap(),
            pre.spec_shapes(),
            pre.spec_roots(),
            #[trigger] post.spec_heap().objects()[q].slot,
        )
    &&& forall|h: int| post.is_live(h) ==> pre.is_live(h)
    &&& forall|kk: int|
        0 <= kk < pre.spec_roots().spec_entries().len() && (#[trigger] pre.spec_roots(
        ).spec_entries()[kk]) is Some ==> post.is_live(pre.spec_roots().spec_entries()[kk]->0)
            && post.payload_of(pre.spec_roots().spec_entries()[kk]->0) == pre.payload_of(
            pre.spec_roots().spec_entries()[kk]->0,
        )
    &&& (pre.spec_roots().is_empty() ==> post.spec_heap().spec_cursor() == 0
        && post.spec_last_traced() == 0)
}

impl RootingAllocator {
    /// Performs a full collection cycle: flips the global mark polarity,
    /// traces the object graph from the registered roots, then sweeps and
    /// compacts the heap.  Returns the number of bytes reclaimed.
    #[verifier::rlimit(100)]
    pub fn perform_gc(&mut self) -> (cleared: usize)
        requires
            old(self).wf(),
        ensures
            collection_post(*old(self), *final(self), cleared as int),
    {
        let ghost g0 = *old(self);
        let ghost h00 = g0.spec_heap();
        self.alloc.clear_gc_request();
        self.alloc.flip_mark_state();
        let ghost g1 = *self;
        let ghost h1 = g1.spec_heap();
        proof {
            lemma_wf_core_same_but_flags(g0, g1);
            assert forall|k: int| 0 <= k < h1.objects().len() implies #[trigger] h1.obj_mark(k)
                != h1.spec_mark_state() by {
                assert(h1.hdr_word(k) == h00.hdr_word(k));
                assert(h00.obj_mark(k) == h00.spec_mark_state());
            }
        }
        let traced = self.trace_roots();
        self.last_traced = traced;
        let ghost g2 = *self;
        let cleared = self.alloc.perform_sweep();
        proof {
            lemma_collection_reachable(g0, g1, g2, *self, cleared as int);
            lemma_collection_roots_survive(g0, g1, g2, *self, cleared as int);
            lemma_collection_fits(g0, g1, g2, *self, cleared as int);
            lemma_collection_wf(g0, g1, g2, *self, cleared as int);
        }
        cleared
    }

    /// Yields to the collector: if a collection has been requested, performs
    /// it; otherwise nothing at all happens.  This is the only point at
    /// which objects may move.
    pub fn yield_point(&mut self)
        requires
            old(self).wf(),
        ensures
            final(self).wf(),
            !old(self).spec_heap().spec_requested_gc() ==> *final(self) == *old(self),
            old(self).spec_heap().spec_requested_gc() ==> collection_post(
                *old(self),
                *final(self),
                old(self).spec_heap().spec_cursor() - final(self).spec_heap().spec_cursor(),
            ),
    {
        if self.alloc.should_perform_gc() {
            self.perform_gc();
        }
    }

    /// Attempts to allocate `size` payload bytes, following the retry
    /// protocol on exhaustion: request a collection, yield, try again, up to
    /// `retry_limit` retries, after which the error surfaces.
    pub fn try_gc_alloc_layout(
        &mut self,
        retry_limit: u32,
        layout: Layout,
        shape: &TraceShape,
    ) -> (r: Result<Gc, Error>)
        requires
            old(self).wf(),
            shape.fits(layout.spec_size()),
        ensures
            final(self).wf(),
            final(self).spec_heap().spec_capacity() == old(self).spec_heap().spec_capacity(),
            final(self).spec_roots().spec_entries() == old(self).spec_roots().spec_entries(),
            match r {
                Ok(g) => {
                    &&& layout.spec_align() <= FIXED_ALIGN
                    &&& final(self).is_live(g.spec_raw())
                    &&& final(self).spec_heap().objects()[final(self).spec_heap().obj_of_handle(
                        g.spec_raw(),
                    )].len == layout.spec_size()
                    &&& final(self).spec_shapes()[g.spec_raw()].offsets() == shape.offsets()
                },
                Err(e) => {
                    &&& (layout.spec_align() > FIXED_ALIGN ==> e.spec_kind()
                        == ErrorKind::UnsupportedAlignment)
                    &&& (layout.spec_align() <= FIXED_ALIGN ==> e.spec_kind()
                        == ErrorKind::OutOfMemory && crate::layout::payload_at(
                        final(self).spec_heap().spec_cursor(),
                    ) + layout.spec_size() > final(self).spec_heap().spec_capacity())
                },
            },
    {
        let mut remaining = retry_limit;
        loop
            invariant
                self.wf(),
                shape.fits(layout.spec_size()),
                self.spec_heap().spec_capacity() == old(self).spec_heap().spec_capacity(),
                self.spec_roots().spec_entries() == old(self).spec_roots().spec_entries(),
            decreases remaining,
        {
            let attempt = self.try_alloc_layout(layout, shape);
            match attempt {
                Ok(g) => {
                    proof {
                        self.spec_heap().lemma_obj_of_handle(g.spec_raw());
                        assert(self.spec_heap().obj_of_handle(g.spec_raw())
                            == self.spec_heap().objects().len() - 1);
                    }
                    return Ok(g);
                },
                Err(e) => {
                    if remaining == 0 {
                        return Err(e);
                    }
                    let k = e.kind();
                    if !(k == ErrorKind::OutOfMemory) {
                        return Err(e);
                    }
                    remaining = remaining - 1;
                    self.request_gc(CollectionType::AllocAtLeast(layout));
                    self.yield_point();
                },
            }
        }
    }

    /// Attempts to allocate an object holding a copy of `bytes`, with the
    /// given trace shape, following the retry protocol on exhaustion.
    pub fn try_gc_alloc(&mut self, retry_limit: u32, bytes: &[u8], shape: &TraceShape) -> (r:
        Result<Gc, Error>)
        requires
            old(self).wf(),
            shape.fits(bytes@.len() as int),
        ensures
            final(self).wf(),
            final(self).spec_heap().spec_capacity() == old(self).spec_heap().spec_capacity(),
            final(self).spec_roots().spec_entries() == old(self).spec_roots().spec_entries(),
            match r {
                Ok(g) => {
                    &&& final(self).is_live(g.spec_raw())
                    &&& final(self).payload_of(g.spec_raw()) == bytes@
                    &&& final(self).spec_shapes()[g.spec_raw()].offsets() == shape.offsets()
                },
                Err(e) => {
                    &&& e.spec_kind() == ErrorKind::OutOfMemory
                    &&& crate::layout::payload_at(final(self).spec_heap().spec_cursor())
                        + bytes@.len() > final(self).spec_heap().spec_capacity()
                },
            },
    {
        let layout = Layout::from_size_align(bytes.len(), FIXED_ALIGN);
        match self.try_gc_alloc_layout(retry_limit, layout, shape) {
            Ok(g) => {
                let h = g.as_raw();
                self.alloc.write_payload(h, bytes);
                proof {
                    let me = *self;
                    assert(me.wf_core()) by {
                        assert forall|hh: int|
                            me.spec_heap().is_live_handle(hh) implies (
                        #[trigger] me.spec_shapes()[hh]).fits(
                            me.spec_heap().objects()[me.spec_heap().obj_of_handle(hh)].len,
                        ) by {
                        }
                    }
                }
                Ok(g)
            },
            Err(e) => Err(e),
        }
    }
}

impl RootingAllocator {
    /// The current payload address of the object named by `g`: the contents
    /// of its handle slot.  Valid only until the next collection moves the
    /// object.
    pub fn handle_ptr(&self, g: &Gc) -> (r: usize)
        requires
            self.wf_core(),
            self.is_live(g.spec_raw()),
        ensures
            r == self.spec_heap().objects()[self.spec_heap().obj_of_handle(g.spec_raw())].payload,
    {
        self.alloc.handle_ptr(g.as_raw())
    }

    /// Reads the machine word at byte offset `offset` of the payload named
    /// by `g`.  A reference word read this way holds a raw handle plus one,
    /// or [`NULL_REF`] for none.
    pub fn read_word(&self, g: &Gc, offset: usize) -> (r: u64)
        requires
            self.wf_core(),
            self.is_live(g.spec_raw()),
            offset + 8 <= self.spec_heap().objects()[self.spec_heap().obj_of_handle(
                g.spec_raw(),
            )].len,
        ensures
            r == self.spec_heap().payload_word(
                self.spec_heap().obj_of_handle(g.spec_raw()),
                offset as int,
            ),
    {
        self.alloc.read_payload_word(g.as_raw(), offset)
    }

    /// Writes the machine word at byte offset `offset` of the payload named
    /// by `g`.  Writing a raw handle plus one at one of the object's
    /// reference offsets makes the collector treat that object as one of
    /// its children.
    pub fn write_word(&mut self, g: &Gc, offset: usize, w: u64)
        requires
            old(self).wf(),
            old(self).is_live(g.spec_raw()),
            offset + 8 <= old(self).spec_heap().objects()[old(self).spec_heap().obj_of_handle(
                g.spec_raw(),
            )].len,
        ensures
            final(self).wf(),
            final(self).spec_roots() == old(self).spec_roots(),
            final(self).spec_shapes() == old(self).spec_shapes(),
            final(self).spec_last_traced() == old(self).spec_last_traced(),
            final(self).spec_heap().objects() == old(self).spec_heap().objects(),
            final(self).spec_heap().spec_table() == old(self).spec_heap().spec_table(),
            final(self).spec_heap().spec_cursor() == old(self).spec_heap().spec_cursor(),
            final(self).spec_heap().spec_requested_gc() == old(
                self,
            ).spec_heap().spec_requested_gc(),
            final(self).spec_heap().payload_word(
                old(self).spec_heap().obj_of_handle(g.spec_raw()),
                offset as int,
            ) == w,
            forall|j: int|
                0 <= j < old(self).spec_heap().objects().len() && j != old(
                    self,
                ).spec_heap().obj_of_handle(g.spec_raw()) ==> final(self).spec_heap(
                ).payload_bytes(j) == old(self).spec_heap().payload_bytes(j),
    {
        self.alloc.write_payload_word(g.as_raw(), offset, w);
        proof {
            let me = *self;
            assert forall|hh: int|
                me.spec_heap().is_live_handle(hh) implies (#[trigger] me.spec_shapes()[hh]).fits(
                me.spec_heap().objects()[me.spec_heap().obj_of_handle(hh)].len,
            ) by {
                assert(old(self).spec_heap().is_live_handle(hh));
            }
            assert forall|k: int|
                0 <= k < me.spec_heap().objects().len() implies #[trigger] me.spec_heap(
            ).obj_mark(k) == me.spec_heap().spec_mark_state() by {
                assert(me.spec_heap().obj_mark(k) == old(self).spec_heap().obj_mark(k));
            }
        }
    }
}

impl RootingAllocator {
    /// Attempts to allocate an object holding the bytes of `src`, following
    /// the retry protocol on exhaustion.  Strings have no outgoing
    /// references, so the object traces as a leaf.
    pub fn try_gc_alloc_str(&mut self, retry_limit: u32, src: &str) -> (r: Result<Gc, Error>)
        requires
            old(self).wf(),
        ensures
            final(self).wf(),
            final(self).spec_heap().spec_capacity() == old(self).spec_heap().spec_capacity(),
            final(self).spec_roots().spec_entries() == old(self).spec_roots().spec_entries(),
            match r {
                Ok(g) => final(self).is_live(g.spec_raw()) && final(self).payload_of(g.spec_raw())
                    == src.spec_bytes(),
                Err(e) => e.spec_kind() == ErrorKind::OutOfMemory,
            },
    {
        self.try_gc_alloc(retry_limit, src.as_bytes(), &TraceShape::leaf())
    }

    /// Attempts to allocate an object of `len` payload bytes all set to
    /// `value`, following the retry protocol on exhaustion.
    pub fn try_gc_alloc_filled(&mut self, retry_limit: u32, len: usize, value: u8) -> (r: Result<
        Gc,
        Error,
    >)
        requires
            old(self).wf(),
        ensures
            final(self).wf(),
            final(self).spec_heap().spec_capacity() == old(self).spec_heap().spec_capacity(),
            final(self).spec_roots().spec_entries() == old(self).spec_roots().spec_entries(),
            match r {
                Ok(g) => {
                    &&& final(self).is_live(g.spec_raw())
                    &&& final(self).payload_of(g.spec_raw()).len() == len
                    &&& forall|i: int|
                        0 <= i < len ==> final(self).payload_of(g.spec_raw())[i] == value
                },
                Err(e) => e.spec_kind() == ErrorKind::OutOfMemory,
            },
    {
        let buf: Vec<u8> = vec![value; len];
        self.try_gc_alloc(retry_limit, buf.as_slice(), &TraceShape::leaf())
    }
}

impl crate::Gc {
    /// Reads the payload of the object this handle names, as a copy of its
    /// bytes.  Valid only while the object is live; use an added root to
    /// keep it so across collections.
    pub fn get(&self, allocator: &RootingAllocator) -> (r: Vec<u8>)
        requires
            allocator.wf_core(),
            allocator.is_live(self.spec_raw()),
        ensures
            r@ == allocator.payload_of(self.spec_raw()),
    {
        allocator.alloc.read_payload(self.as_raw())
    }

    /// Like [`Gc::get`], but reports a stale handle as an error instead of
    /// requiring liveness up front.
    pub fn try_get(&self, allocator: &RootingAllocator) -> (r: Result<Vec<u8>, Error>)
        requires
            allocator.wf_core(),
        ensures
            match r {
                Ok(bytes) => allocator.is_live(self.spec_raw()) && bytes@ == allocator.payload_of(
                    self.spec_raw(),
                ),
                Err(e) => !allocator.is_live(self.spec_raw()) && e.spec_kind()
                    == ErrorKind::IllegalState,
            },
    {
        if allocator.alloc.is_live(self.as_raw()) {
            Ok(allocator.alloc.read_payload(self.as_raw()))
        } else {
            Err(Error::from_kind(ErrorKind::IllegalState))
        }
    }
}

impl Allocator for RootingAllocator {
    open spec fn inv(&self) -> bool {
        self.wf()
    }

    fn yield_point(&mut self) {
        self.yield_point();
    }

    fn request_gc(&mut self, request: CollectionType) {
        self.request_gc(request);
    }
}


/// Mid-cycle: every object the sweep kept was reachable from a root
/// before the cycle began.
#[verifier::rlimit(100)]
proof fn lemma_collection_reachable(
    g0: RootingAllocator,
    g1: RootingAllocator,
    g2: RootingAllocator,
    g4: RootingAllocator,
    cleared: int,
)
    requires
        g0.wf(),
        g1.wf_core(),
        crate::heap::heap_same_but_flags(g0.spec_heap(), g1.spec_heap()),
        g1.spec_heap().spec_mark_state() == !g0.spec_heap().spec_mark_state(),
        !g1.spec_heap().spec_requested_gc(),
        g1.spec_roots() == g0.spec_roots(),
        g1.spec_shapes() == g0.spec_shapes(),
        forall|k: int|
            0 <= k < g1.spec_heap().objects().len() ==> #[trigger] g1.spec_heap().obj_mark(k)
                != g1.spec_heap().spec_mark_state(),
        g2.wf_core(),
        g2.spec_roots() == g1.spec_roots(),
        g2.spec_shapes() == g1.spec_shapes(),
        heap_same_modulo_marks(g1.spec_heap(), g2.spec_heap()),
        forall|k: int|
            0 <= k < g1.spec_heap().objects().len() && #[trigger] g2.spec_heap().obj_mark(k)
                == g1.spec_heap().spec_mark_state() ==> g1.spec_heap().obj_mark(k)
                == g1.spec_heap().spec_mark_state() || reachable(
                g1.spec_heap(),
                g1.spec_shapes(),
                g1.spec_roots(),
                g1.spec_heap().objects()[k].slot,
            ),
        forall|kk: int|
            0 <= kk < g1.spec_roots().spec_entries().len() && (#[trigger] g1.spec_roots(
            ).spec_entries()[kk]) is Some ==> marked_handle(
                g2.spec_heap(),
                g1.spec_roots().spec_entries()[kk]->0,
            ),
        g1.spec_roots().is_empty() ==> g2.spec_heap() == g1.spec_heap() && g2.spec_last_traced()
            == 0,
        g4.spec_heap().wf(),
        g4.spec_roots() == g2.spec_roots(),
        g4.spec_shapes() == g2.spec_shapes(),
        g4.spec_last_traced() == g2.spec_last_traced(),
        g4.spec_heap().spec_capacity() == g2.spec_heap().spec_capacity(),
        g4.spec_heap().spec_mark_state() == g2.spec_heap().spec_mark_state(),
        g4.spec_heap().spec_requested_gc() == g2.spec_heap().spec_requested_gc(),
        g4.spec_heap().spec_table().spec_len() == g2.spec_heap().spec_table().spec_len(),
        g4.spec_heap().objects() == compact_seq(g2.spec_heap().live_objects()),
        g4.spec_heap().objects().len() == g2.spec_heap().live_objects().len(),
        g4.spec_heap().spec_cursor() <= g2.spec_heap().spec_cursor(),
        cleared == g2.spec_heap().spec_cursor() - g4.spec_heap().spec_cursor(),
        forall|q: int|
            0 <= q < g4.spec_heap().objects().len() ==> #[trigger] g4.spec_heap().payload_bytes(q)
                == g2.spec_heap().bytes_of(g2.spec_heap().live_objects()[q])
                && g4.spec_heap().obj_mark(q) == g2.spec_heap().spec_mark_state()
                && g4.spec_heap().objects()[q].slot == g2.spec_heap().live_objects()[q].slot,
        forall|h: int|
            g4.spec_heap().is_live_handle(h) ==> g2.spec_heap().is_live_handle(h),
        forall|h: int|
            g4.spec_heap().is_live_handle(h) <==> exists|q: int|
                0 <= q < g2.spec_heap().live_objects().len() && #[trigger] g2.spec_heap(
                ).live_objects()[q].slot == h,
    ensures
        forall|q: int|
            0 <= q < g4.spec_heap().objects().len() ==> reachable(
                g0.spec_heap(),
                g0.spec_shapes(),
                g0.spec_roots(),
                #[trigger] g4.spec_heap().objects()[q].slot,
            ),
{
    let h00 = g0.spec_heap();
    let h1 = g1.spec_heap();
    let h2 = g2.spec_heap();
    let h4 = g4.spec_heap();
    let live = h2.live_objects();
    let n2 = h2.objects().len() as int;
    h2.lemma_live_slots_distinct(n2);
    h2.lemma_live_upto_sub(n2);
    crate::heap::lemma_compact_items(live);
    assert forall|q: int| 0 <= q < h4.objects().len() implies reachable(
        h00,
        g0.spec_shapes(),
        g0.spec_roots(),
        #[trigger] h4.objects()[q].slot,
    ) by {
        let k = choose|k: int|
            #![trigger h2.objects()[k]]
            0 <= k < n2 && live[q] == h2.objects()[k] && h2.obj_mark(k) == h2.spec_mark_state();
        assert(h1.obj_mark(k) != h1.spec_mark_state());
        assert(reachable(h1, g1.spec_shapes(), g1.spec_roots(), h1.objects()[k].slot));
        lemma_reachable_same(h1, h00, g0.spec_shapes(), g0.spec_roots(), h1.objects()[k].slot);
        assert(h4.objects()[q].slot == live[q].slot);
    }
}

/// Mid-cycle: every rooted object survives the sweep with its payload
/// intact, under its old handle.
#[verifier::rlimit(100)]
proof fn lemma_collection_roots_survive(
    g0: RootingAllocator,
    g1: RootingAllocator,
    g2: RootingAllocator,
    g4: RootingAllocator,
    cleared: int,
)
    requires
        g0.wf(),
        g1.wf_core(),
        crate::heap::heap_same_but_flags(g0.spec_heap(), g1.spec_heap()),
        g1.spec_heap().spec_mark_state() == !g0.spec_heap().spec_mark_state(),
        !g1.spec_heap().spec_requested_gc(),
        g1.spec_roots() == g0.spec_roots(),
        g1.spec_shapes() == g0.spec_shapes(),
        forall|k: int|
            0 <= k < g1.spec_heap().objects().len() ==> #[trigger] g1.spec_heap().obj_mark(k)
                != g1.spec_heap().spec_mark_state(),
        g2.wf_core(),
        g2.spec_roots() == g1.spec_roots(),
        g2.spec_shapes() == g1.spec_shapes(),
        heap_same_modulo_marks(g1.spec_heap(), g2.spec_heap()),
        forall|k: int|
            0 <= k < g1.spec_heap().objects().len() && #[trigger] g2.spec_heap().obj_mark(k)
                == g1.spec_heap().spec_mark_state() ==> g1.spec_heap().obj_mark(k)
                == g1.spec_heap().spec_mark_state() || reachable(
                g1.spec_heap(),
                g1.spec_shapes(),
                g1.spec_roots(),
                g1.spec_heap().objects()[k].slot,
            ),
        forall|kk: int|
            0 <= kk < g1.spec_roots().spec_entries().len() && (#[trigger] g1.spec_roots(
            ).spec_entries()[kk]) is Some ==> marked_handle(
                g2.spec_heap(),
                g1.spec_roots().spec_entries()[kk]->0,
            ),
        g1.spec_roots().is_empty() ==> g2.spec_heap() == g1.spec_heap() && g2.spec_last_traced()
            == 0,
        g4.spec_heap().wf(),
        g4.spec_roots() == g2.spec_roots(),
        g4.spec_shapes() == g2.spec_shapes(),
        g4.spec_last_traced() == g2.spec_last_traced(),
        g4.spec_heap().spec_capacity() == g2.spec_heap().spec_capacity(),
        g4.spec_heap().spec_mark_state() == g2.spec_heap().spec_mark_state(),
        g4.spec_heap().spec_requested_gc() == g2.spec_heap().spec_requested_gc(),
        g4.spec_heap().spec_table().spec_len() == g2.spec_heap().spec_table().spec_len(),
        g4.spec_heap().objects() == compact_seq(g2.spec_heap().live_objects()),
        g4.spec_heap().objects().len() == g2.spec_heap().live_objects().len(),
        g4.spec_heap().spec_cursor() <= g2.spec_heap().spec_cursor(),
        cleared == g2.spec_heap().spec_cursor() - g4.spec_heap().spec_cursor(),
        forall|q: int|
            0 <= q < g4.spec_heap().objects().len() ==> #[trigger] g4.spec_heap().payload_bytes(q)
                == g2.spec_heap().bytes_of(g2.spec_heap().live_objects()[q])
                && g4.spec_heap().obj_mark(q) == g2.spec_heap().spec_mark_state()
                && g4.spec_heap().objects()[q].slot == g2.spec_heap().live_objects()[q].slot,
        forall|h: int|
            g4.spec_heap().is_live_handle(h) ==> g2.spec_heap().is_live_handle(h),
        forall|h: int|
            g4.spec_heap().is_live_handle(h) <==> exists|q: int|
                0 <= q < g2.spec_heap().live_objects().len() && #[trigger] g2.spec_heap(
                ).live_objects()[q].slot == h,
    ensures
        forall|kk: int|
            0 <= kk < g0.spec_roots().spec_entries().len() && (#[trigger] g0.spec_roots(
            ).spec_entries()[kk]) is Some ==> g4.is_live(g0.spec_roots().spec_entries()[kk]->0)
                && g4.payload_of(g0.spec_roots().spec_entries()[kk]->0) == g0.payload_of(
                g0.spec_roots().spec_entries()[kk]->0,
            ),
{
    let h00 = g0.spec_heap();
    let h1 = g1.spec_heap();
    let h2 = g2.spec_heap();
    let h4 = g4.spec_heap();
    let live = h2.live_objects();
    let n2 = h2.objects().len() as int;
    h2.lemma_live_slots_distinct(n2);
    h2.lemma_live_upto_sub(n2);
    crate::heap::lemma_compact_items(live);
    assert forall|kk: int|
        0 <= kk < g0.spec_roots().spec_entries().len() && (#[trigger] g0.spec_roots(
        ).spec_entries()[kk]) is Some implies g4.is_live(g0.spec_roots().spec_entries()[kk]->0)
        && g4.payload_of(g0.spec_roots().spec_entries()[kk]->0) == g0.payload_of(
        g0.spec_roots().spec_entries()[kk]->0,
    ) by {
        let v = g0.spec_roots().spec_entries()[kk]->0;
        assert(marked_handle(h2, v));
        assert(h2.is_live_handle(v)) by {
            assert(h1.is_live_handle(v));
        }
        h2.lemma_obj_of_handle(v);
        let kv = h2.obj_of_handle(v);
        h2.lemma_live_upto_complete(kv, n2);
        let q = choose|q: int| 0 <= q < live.len() && #[trigger] live[q] == h2.objects()[kv];
        assert(live[q].slot == v);
        assert(h4.is_live_handle(v));
        assert(h4.objects()[q].slot == v);
        h4.lemma_obj_of_handle(v);
        assert(h4.obj_of_handle(v) == q);
        assert(h4.payload_bytes(q) == h2.bytes_of(live[q]));
        assert(h2.bytes_of(live[q]) =~= h2.payload_bytes(kv));
        assert(h2.payload_bytes(kv) == h1.payload_bytes(kv));
        lemma_obj_of_handle_same(h1, h00, v);
        lemma_obj_of_handle_same(h1, h2, v);
        assert(h00.obj_of_handle(v) == kv);
        assert(h00.payload_bytes(kv) == h1.payload_bytes(kv));
    }
}

/// Mid-cycle: after the sweep every live object still has a trace shape
/// that fits inside its payload.
#[verifier::rlimit(100)]
proof fn lemma_collection_fits(
    g0: RootingAllocator,
    g1: RootingAllocator,
    g2: RootingAllocator,
    g4: RootingAllocator,
    cleared: int,
)
    requires
        g0.wf(),
        g1.wf_core(),
        crate::heap::heap_same_but_flags(g0.spec_heap(), g1.spec_heap()),
        g1.spec_heap().spec_mark_state() == !g0.spec_heap().spec_mark_state(),
        !g1.spec_heap().spec_requested_gc(),
        g1.spec_roots() == g0.spec_roots(),
        g1.spec_shapes() == g0.spec_shapes(),
        forall|k: int|
            0 <= k < g1.spec_heap().objects().len() ==> #[trigger] g1.spec_heap().obj_mark(k)
                != g1.spec_heap().spec_mark_state(),
        g2.wf_core(),
        g2.spec_roots() == g1.spec_roots(),
        g2.spec_shapes() == g1.spec_shapes(),
        heap_same_modulo_marks(g1.spec_heap(), g2.spec_heap()),
        forall|k: int|
            0 <= k < g1.spec_heap().objects().len() && #[trigger] g2.spec_heap().obj_mark(k)
                == g1.spec_heap().spec_mark_state() ==> g1.spec_heap().obj_mark(k)
                == g1.spec_heap().spec_mark_state() || reachable(
                g1.spec_heap(),
                g1.spec_shapes(),
                g1.spec_roots(),
                g1.spec_heap().objects()[k].slot,
            ),
        forall|kk: int|
            0 <= kk < g1.spec_roots().spec_entries().len() && (#[trigger] g1.spec_roots(
            ).spec_entries()[kk]) is Some ==> marked_handle(
                g2.spec_heap(),
                g1.spec_roots().spec_entries()[kk]->0,
            ),
        g1.spec_roots().is_empty() ==> g2.spec_heap() == g1.spec_heap() && g2.spec_last_traced()
            == 0,
        g4.spec_heap().wf(),
        g4.spec_roots() == g2.spec_roots(),
        g4.spec_shapes() == g2.spec_shapes(),
        g4.spec_last_traced() == g2.spec_last_traced(),
        g4.spec_heap().spec_capacity() == g2.spec_heap().spec_capacity(),
        g4.spec_heap().spec_mark_state() == g2.spec_heap().spec_mark_state(),
        g4.spec_heap().spec_requested_gc() == g2.spec_heap().spec_requested_gc(),
        g4.spec_heap().spec_table().spec_len() == g2.spec_heap().spec_table().spec_len(),
        g4.spec_heap().objects() == compact_seq(g2.spec_heap().live_objects()),
        g4.spec_heap().objects().len() == g2.spec_heap().live_objects().len(),
        g4.spec_heap().spec_cursor() <= g2.spec_heap().spec_cursor(),
        cleared == g2.spec_heap().spec_cursor() - g4.spec_heap().spec_cursor(),
        forall|q: int|
            0 <= q < g4.spec_heap().objects().len() ==> #[trigger] g4.spec_heap().payload_bytes(q)
                == g2.spec_heap().bytes_of(g2.spec_heap().live_objects()[q])
                && g4.spec_heap().obj_mark(q) == g2.spec_heap().spec_mark_state()
                && g4.spec_heap().objects()[q].slot == g2.spec_heap().live_objects()[q].slot,
        forall|h: int|
            g4.spec_heap().is_live_handle(h) ==> g2.spec_heap().is_live_handle(h),
        forall|h: int|
            g4.spec_heap().is_live_handle(h) <==> exists|q: int|
                0 <= q < g2.spec_heap().live_objects().len() && #[trigger] g2.spec_heap(
                ).live_objects()[q].slot == h,
    ensures
        forall|h: int|
            g4.spec_heap().is_live_handle(h) ==> (#[trigger] g4.spec_shapes()[h]).fits(
                g4.spec_heap().objects()[g4.spec_heap().obj_of_handle(h)].len,
            ),
{
    let h00 = g0.spec_heap();
    let h1 = g1.spec_heap();
    let h2 = g2.spec_heap();
    let h4 = g4.spec_heap();
    let live = h2.live_objects();
    let n2 = h2.objects().len() as int;
    h2.lemma_live_slots_distinct(n2);
    h2.lemma_live_upto_sub(n2);
    crate::heap::lemma_compact_items(live);
    assert forall|h: int|
        h4.is_live_handle(h) implies (#[trigger] g4.spec_shapes()[h]).fits(
        h4.objects()[h4.obj_of_handle(h)].len,
    ) by {
        let q = choose|q: int| 0 <= q < live.len() && #[trigger] live[q].slot == h;
        assert(h4.objects()[q].slot == h);
        h4.lemma_obj_of_handle(h);
        assert(h4.obj_of_handle(h) == q);
        let k = choose|k: int|
            #![trigger h2.objects()[k]]
            0 <= k < n2 && live[q] == h2.objects()[k] && h2.obj_mark(k) == h2.spec_mark_state();
        assert(h2.is_live_handle(h)) by {
            assert(h2.spec_table().is_occupied(h2.objects()[k].slot));
        }
        h2.lemma_obj_of_handle(h);
        assert(h2.obj_of_handle(h) == k);
        assert(h4.objects()[q].len == live[q].len);
        assert(g2.spec_shapes()[h].fits(h2.objects()[k].len));
    }
}

/// Mid-cycle: after the sweep the facade invariant holds again, and with
/// no roots registered the heap has been emptied.
#[verifier::rlimit(100)]
proof fn lemma_collection_wf(
    g0: RootingAllocator,
    g1: RootingAllocator,
    g2: RootingAllocator,
    g4: RootingAllocator,
    cleared: int,
)
    requires
        g0.wf(),
        g1.wf_core(),
        crate::heap::heap_same_but_flags(g0.spec_heap(), g1.spec_heap()),
        g1.spec_heap().spec_mark_state() == !g0.spec_heap().spec_mark_state(),
        !g1.spec_heap().spec_requested_gc(),
        g1.spec_roots() == g0.spec_roots(),
        g1.spec_shapes() == g0.spec_shapes(),
        forall|k: int|
            0 <= k < g1.spec_heap().objects().len() ==> #[trigger] g1.spec_heap().obj_mark(k)
                != g1.spec_heap().spec_mark_state(),
        g2.wf_core(),
        g2.spec_roots() == g1.spec_roots(),
        g2.spec_shapes() == g1.spec_shapes(),
        heap_same_modulo_marks(g1.spec_heap(), g2.spec_heap()),
        forall|k: int|
            0 <= k < g1.spec_heap().objects().len() && #[trigger] g2.spec_heap().obj_mark(k)
                == g1.spec_heap().spec_mark_state() ==> g1.spec_heap().obj_mark(k)
                == g1.spec_heap().spec_mark_state() || reachable(
                g1.spec_heap(),
                g1.spec_shapes(),
                g1.spec_roots(),
                g1.spec_heap().objects()[k].slot,
            ),
        forall|kk: int|
            0 <= kk < g1.spec_roots().spec_entries().len() && (#[trigger] g1.spec_roots(
            ).spec_entries()[kk]) is Some ==> marked_handle(
                g2.spec_heap(),
                g1.spec_roots().spec_entries()[kk]->0,
            ),
        g1.spec_roots().is_empty() ==> g2.spec_heap() == g1.spec_heap() && g2.spec_last_traced()
            == 0,
        g4.spec_heap().wf(),
        g4.spec_roots() == g2.spec_roots(),
        g4.spec_shapes() == g2.spec_shapes(),
        g4.spec_last_traced() == g2.spec_last_traced(),
        g4.spec_heap().spec_capacity() == g2.spec_heap().spec_capacity(),
        g4.spec_heap().spec_mark_state() == g2.spec_heap().spec_mark_state(),
        g4.spec_heap().spec_requested_gc() == g2.spec_heap().spec_requested_gc(),
        g4.spec_heap().spec_table().spec_len() == g2.spec_heap().spec_table().spec_len(),
        g4.spec_heap().objects() == compact_seq(g2.spec_heap().live_objects()),
        g4.spec_heap().objects().len() == g2.spec_heap().live_objects().len(),
        g4.spec_heap().spec_cursor() <= g2.spec_heap().spec_cursor(),
        cleared == g2.spec_heap().spec_cursor() - g4.spec_heap().spec_cursor(),
        forall|q: int|
            0 <= q < g4.spec_heap().objects().len() ==> #[trigger] g4.spec_heap().payload_bytes(q)
                == g2.spec_heap().bytes_of(g2.spec_heap().live_objects()[q])
                && g4.spec_heap().obj_mark(q) == g2.spec_heap().spec_mark_state()
                && g4.spec_heap().objects()[q].slot == g2.spec_heap().live_objects()[q].slot,
        forall|h: int|
            g4.spec_heap().is_live_handle(h) ==> g2.spec_heap().is_live_handle(h),
        forall|h: int|
            g4.spec_heap().is_live_handle(h) <==> exists|q: int|
                0 <= q < g2.spec_heap().live_objects().len() && #[trigger] g2.spec_heap(
                ).live_objects()[q].slot == h,
        forall|h: int|
            g4.spec_heap().is_live_handle(h) ==> (#[trigger] g4.spec_shapes()[h]).fits(
                g4.spec_heap().objects()[g4.spec_heap().obj_of_handle(h)].len,
            ),
        forall|kk: int|
            0 <= kk < g0.spec_roots().spec_entries().len() && (#[trigger] g0.spec_roots(
            ).spec_entries()[kk]) is Some ==> g4.is_live(g0.spec_roots().spec_entries()[kk]->0),
    ensures
        g4.wf(),
        g0.spec_roots().is_empty() ==> g4.spec_heap().spec_cursor() == 0
            && g4.spec_last_traced() == 0,
{
    let h00 = g0.spec_heap();
    let h1 = g1.spec_heap();
    let h2 = g2.spec_heap();
    let h4 = g4.spec_heap();
    let live = h2.live_objects();
    let n2 = h2.objects().len() as int;
    h2.lemma_live_slots_distinct(n2);
    h2.lemma_live_upto_sub(n2);
    crate::heap::lemma_compact_items(live);
    assert forall|kk: int|
        0 <= kk < g4.spec_roots().spec_entries().len() && (#[trigger] g4.spec_roots(
        ).spec_entries()[kk]) is Some implies h4.is_live_handle(
        g4.spec_roots().spec_entries()[kk]->0,
    ) by {
        assert(g0.spec_roots().spec_entries()[kk] == g4.spec_roots().spec_entries()[kk]);
    }
    assert(g4.wf_core());
    assert forall|k: int| 0 <= k < h4.objects().len() implies #[trigger] h4.obj_mark(k)
        == h4.spec_mark_state() by {
        assert(h4.payload_bytes(k) == h2.bytes_of(live[k]));
    }
    if g0.spec_roots().is_empty() {
        assert forall|k: int| 0 <= k < n2 implies #[trigger] h2.obj_mark(k)
            != h2.spec_mark_state() by {
            assert(h2 == h1);
        }
        h2.lemma_live_upto_none(n2);
        assert(live.len() == 0);
        assert(h4.objects().len() == 0);
    }
}

} // verus!
