//! The bump-pointer heap.
//!
//! The heap owns a contiguous byte region `[0, capacity)` with a write cursor
//! that only ever moves forward between collections.  Each object occupies
//! `[mark word][padding][payload]` starting where the previous object ended;
//! the mark word packs the payload length and the mark state.  Every object
//! is named by exactly one occupied slot of the handle table, which holds the
//! payload address.  The sweep walks the region once, keeps the objects whose
//! mark equals the global mark state — sliding them towards the start and
//! redirecting their handle slots — and returns every other object's slot to
//! the free list.

use crate::error::{Error, ErrorKind};
use crate::handle_table::HandleTable;
use crate::layout::{next_obj, payload_at, lemma_align_up, lemma_align_up_mono, FIXED_ALIGN,
    MARK_WORD_SIZE};
use crate::mark::{word_len, word_state, word_pack, lemma_word_pack, Mark, MarkWord, MARK_BIT};
use vstd::bytes::{spec_u64_from_le_bytes, spec_u64_to_le_bytes, u64_from_le_bytes,
    u64_to_le_bytes, lemma_auto_spec_u64_to_from_le_bytes};
use vstd::prelude::*;
use vstd::slice::slice_subrange;

verus! {

/// One live object, as the specifications see it: where its block starts,
/// where its payload lies, how many payload bytes it has, and which handle
/// slot names it.
pub struct ObjInfo {
    /// First byte of the object's block: the end of the previous object.
    pub base: int,
    /// First byte of the payload; the mark word fills the bytes before it.
    pub payload: int,
    /// Payload length in bytes.
    pub len: int,
    /// Index of the handle-table slot that names this object.
    pub slot: int,
}

/// A bump-pointer heap with per-object mark words and a handle table.
pub struct Heap {
    mem: Vec<u8>,
    cursor: usize,
    table: HandleTable,
    global_mark_state: bool,
    requested_gc: bool,
    objs: Ghost<Seq<ObjInfo>>,
}

impl Heap {
    /// The capacity in bytes, for use in specifications.
    pub closed spec fn spec_capacity(self) -> int {
        self.mem@.len() as int
    }

    /// The write cursor, for use in specifications.
    pub closed spec fn spec_cursor(self) -> int {
        self.cursor as int
    }

    /// The heap bytes, for use in specifications.
    pub closed spec fn spec_mem(self) -> Seq<u8> {
        self.mem@
    }

    /// The live objects in address order, for use in specifications.
    pub closed spec fn objects(self) -> Seq<ObjInfo> {
        self.objs@
    }

    /// The handle table, for use in specifications.
    pub closed spec fn spec_table(self) -> HandleTable {
        self.table
    }

    /// The current global mark state, for use in specifications.
    pub closed spec fn spec_mark_state(self) -> bool {
        self.global_mark_state
    }

    /// Whether a collection has been requested, for use in specifications.
    pub closed spec fn spec_requested_gc(self) -> bool {
        self.requested_gc
    }

    /// The packed mark word of object `k`, read out of the heap bytes just
    /// before its payload.
    pub open spec fn hdr_word(self, k: int) -> u64 {
        spec_u64_from_le_bytes(
            self.spec_mem().subrange(
                self.objects()[k].payload - MARK_WORD_SIZE,
                self.objects()[k].payload,
            ),
        )
    }

    /// The mark state of object `k`.
    pub open spec fn obj_mark(self, k: int) -> bool {
        word_state(self.hdr_word(k))
    }

    /// The payload bytes of object `k`.
    pub open spec fn payload_bytes(self, k: int) -> Seq<u8> {
        self.spec_mem().subrange(
            self.objects()[k].payload,
            self.objects()[k].payload + self.objects()[k].len,
        )
    }

    /// Whether raw handle `h` currently names a live object.
    pub open spec fn is_live_handle(self, h: int) -> bool {
        self.spec_table().is_occupied(h)
    }

    /// The index of the object named by raw handle `h`.
    pub open spec fn obj_of_handle(self, h: int) -> int {
        choose|k: int| 0 <= k < self.objects().len() && self.objects()[k].slot == h
    }

    /// Object `k` is laid out correctly on its own: payload aligned past the
    /// mark word, everything inside the heap region.
    pub open spec fn obj_layout_ok(self, k: int) -> bool {
        let o = self.objects()[k];
        &&& o.base >= 0
        &&& o.len >= 0
        &&& o.payload == payload_at(o.base)
        &&& o.payload + o.len <= self.spec_capacity()
    }

    /// The well-formedness invariant: objects tile `[0, cursor)` in address
    /// order, each mark word records its object's payload length, and the
    /// occupied handle slots are in one-to-one correspondence with the
    /// objects.
    pub open spec fn wf(self) -> bool {
        let os = self.objects();
        let n = os.len() as int;
        &&& self.spec_cursor() <= self.spec_capacity()
        &&& self.spec_capacity() < MARK_BIT
        &&& self.spec_capacity() + 16 <= usize::MAX
        &&& forall|k: int| 0 <= k < n ==> self.obj_layout_ok(k)
        &&& (n == 0 ==> self.spec_cursor() == 0)
        &&& (n > 0 ==> os[0].base == 0 && self.spec_cursor() == os[n - 1].payload + os[n - 1].len)
        &&& forall|k: int| 0 <= k < n - 1 ==> os[k + 1].base == os[k].payload + #[trigger] os[k].len
        &&& forall|k: int| 0 <= k < n ==> word_len(#[trigger] self.hdr_word(k)) == os[k].len
        &&& self.spec_table().wf()
        &&& forall|k: int|
            0 <= k < n ==> self.spec_table().is_occupied(#[trigger] os[k].slot)
                && self.spec_table().value_of(os[k].slot) == os[k].payload
        &&& forall|k1: int, k2: int| 0 <= k1 < k2 < n ==> #[trigger] os[k1].slot != #[trigger] os[k2].slot
        &&& forall|h: int|
            self.spec_table().is_occupied(h) ==> exists|k: int|
                0 <= k < n && #[trigger] os[k].slot == h
    }

    /// The block of object `k` starts where the previous block ended, and its
    /// payload sits a mark word (plus padding) further on.
    pub proof fn lemma_obj_bounds(self, k: int)
        requires
            self.wf(),
            0 <= k < self.objects().len(),
        ensures
            self.objects()[k].base >= 0,
            self.objects()[k].len >= 0,
            self.objects()[k].base + MARK_WORD_SIZE <= self.objects()[k].payload,
            self.objects()[k].payload < self.objects()[k].base + 16,
            self.objects()[k].payload % 8 == 0,
            self.objects()[k].payload + self.objects()[k].len <= self.spec_capacity(),
    {
        assert(self.obj_layout_ok(k));
        lemma_align_up(self.objects()[k].base + MARK_WORD_SIZE);
    }

    /// Blocks do not overlap: object `j`'s block starts at or after the end
    /// of object `i`'s.
    pub proof fn lemma_block_order(self, i: int, j: int)
        requires
            self.wf(),
            0 <= i < j < self.objects().len(),
        ensures
            self.objects()[i].payload + self.objects()[i].len <= self.objects()[j].base,
        decreases j - i,
    {
        let os = self.objects();
        assert(self.obj_layout_ok(i) && self.obj_layout_ok(j - 1));
        if j == i + 1 {
        } else {
            self.lemma_block_order(i, j - 1);
            self.lemma_obj_bounds(j - 1);
        }
    }

    /// Every object's block lies below the cursor.
    pub proof fn lemma_obj_end_le_cursor(self, k: int)
        requires
            self.wf(),
            0 <= k < self.objects().len(),
        ensures
            self.objects()[k].payload + self.objects()[k].len <= self.spec_cursor(),
        decreases self.objects().len() - k,
    {
        let os = self.objects();
        let n = os.len() as int;
        assert(self.obj_layout_ok(k));
        if k == n - 1 {
        } else {
            assert(os[k + 1].base == os[k].payload + os[k].len);
            assert(self.obj_layout_ok(k + 1));
            self.lemma_obj_end_le_cursor(k + 1);
            self.lemma_obj_bounds(k + 1);
        }
    }

    /// The blocks tile the heap from its start, so object `k`'s block cannot
    /// start before byte `8 * k`.
    pub proof fn lemma_base_lower_bound(self, k: int)
        requires
            self.wf(),
            0 <= k < self.objects().len(),
        ensures
            self.objects()[k].base >= 8 * k,
        decreases k,
    {
        self.lemma_obj_bounds(k);
        if k > 0 {
            self.lemma_base_lower_bound(k - 1);
            self.lemma_obj_bounds(k - 1);
            assert(self.objects()[k].base == self.objects()[k - 1].payload + self.objects()[k
                - 1].len);
        }
    }

    /// A heap of `c` bytes cannot hold more than `c + 1` objects: every
    /// object's block takes at least a mark word.
    pub proof fn lemma_object_count_bound(self)
        requires
            self.wf(),
        ensures
            self.objects().len() <= self.spec_capacity() + 1,
    {
        let n = self.objects().len() as int;
        if n > 0 {
            self.lemma_base_lower_bound(n - 1);
            self.lemma_obj_end_le_cursor(n - 1);
            self.lemma_obj_bounds(n - 1);
        }
    }

    /// Live payloads never overlap, and between two payloads there is always
    /// room for at least the next object's mark word.
    pub proof fn lemma_no_overlap(self, i: int, j: int)
        requires
            self.wf(),
            0 <= i < j < self.objects().len(),
        ensures
            self.objects()[i].payload + self.objects()[i].len + MARK_WORD_SIZE
                <= self.objects()[j].payload,
    {
        self.lemma_block_order(i, j);
        self.lemma_obj_bounds(j);
    }

    /// Distinct objects have distinct payload addresses.
    pub proof fn lemma_payload_distinct(self, i: int, j: int)
        requires
            self.wf(),
            0 <= i < self.objects().len(),
            0 <= j < self.objects().len(),
            i != j,
        ensures
            self.objects()[i].payload != self.objects()[j].payload,
    {
        assert(self.obj_layout_ok(i) && self.obj_layout_ok(j));
        if i < j {
            self.lemma_no_overlap(i, j);
        } else {
            self.lemma_no_overlap(j, i);
        }
    }

    /// At most one handle slot holds any given payload address.
    pub proof fn lemma_unique_value(self, v: int)
        requires
            self.wf(),
        ensures
            self.spec_table().unique_value(v),
    {
        let t = self.spec_table();
        let os = self.objects();
        assert forall|i: int, j: int|
            t.is_occupied(i) && t.value_of(i) == v && t.is_occupied(j) && t.value_of(j)
                == v implies i == j by {
            let ki = choose|k: int| 0 <= k < os.len() && #[trigger] os[k].slot == i;
            let kj = choose|k: int| 0 <= k < os.len() && #[trigger] os[k].slot == j;
            if ki != kj {
                self.lemma_payload_distinct(ki, kj);
            }
        }
    }

    /// A live handle names exactly one object: the one `obj_of_handle` picks,
    /// whose slot it is and whose payload address it holds.
    pub proof fn lemma_obj_of_handle(self, h: int)
        requires
            self.wf(),
            self.is_live_handle(h),
        ensures
            0 <= self.obj_of_handle(h) < self.objects().len(),
            self.objects()[self.obj_of_handle(h)].slot == h,
            self.spec_table().value_of(h) == self.objects()[self.obj_of_handle(h)].payload,
            forall|k: int|
                0 <= k < self.objects().len() && #[trigger] self.objects()[k].slot == h ==> k
                    == self.obj_of_handle(h),
    {
        let os = self.objects();
        let k0 = choose|k: int| 0 <= k < os.len() && #[trigger] os[k].slot == h;
        assert(os[self.obj_of_handle(h)].slot == h);
    }

    /// Creates a heap that owns a byte region of exactly `capacity` bytes,
    /// with nothing allocated, mark polarity down and no collection pending.
    pub fn with_capacity(capacity: usize) -> (r: Heap)
        requires
            capacity < MARK_BIT,
            capacity + 16 <= usize::MAX,
        ensures
            r.wf(),
            r.spec_capacity() == capacity,
            r.spec_cursor() == 0,
            r.objects().len() == 0,
            r.spec_mark_state() == false,
            r.spec_requested_gc() == false,
            r.spec_table().spec_len() == crate::handle_table::CHUNK_SIZE,
            forall|h: int| !r.is_live_handle(h),
    {
        Heap {
            mem: vec![0u8; capacity],
            cursor: 0,
            table: HandleTable::new(),
            global_mark_state: false,
            requested_gc: false,
            objs: Ghost(Seq::empty()),
        }
    }

    /// The total size of the heap region in bytes.
    pub fn capacity(&self) -> (r: usize)
        ensures
            r == self.spec_capacity(),
    {
        self.mem.len()
    }

    /// The number of bytes used so far: everything below the cursor.
    pub fn usage(&self) -> (r: usize)
        requires
            self.wf(),
        ensures
            r == self.spec_cursor(),
    {
        self.cursor
    }

    /// The number of bytes between the cursor and the end of the region.
    pub fn free_space(&self) -> (r: usize)
        requires
            self.wf(),
        ensures
            r == self.spec_capacity() - self.spec_cursor(),
    {
        self.mem.len() - self.cursor
    }

    /// Whether `addr` lies within the heap region (its end included).
    pub fn contains_ptr(&self, addr: usize) -> (r: bool)
        ensures
            r == (addr <= self.spec_capacity()),
    {
        addr <= self.mem.len()
    }

    /// The number of slots in the handle table.
    pub fn table_len(&self) -> (r: usize)
        ensures
            r == self.spec_table().spec_len(),
    {
        self.table.len()
    }

    /// The current global mark state.
    pub fn mark_state(&self) -> (r: bool)
        ensures
            r == self.spec_mark_state(),
    {
        self.global_mark_state
    }

    /// Whether a collection should run at the next yield point.
    pub fn should_perform_gc(&self) -> (r: bool)
        ensures
            r == self.spec_requested_gc(),
    {
        self.requested_gc
    }

    /// Notes that a collection should run at the next yield point.
    pub fn gc_at_next_yield(&mut self)
        ensures
            final(self).spec_requested_gc(),
            heap_same_but_flags(*old(self), *final(self)),
            final(self).spec_mark_state() == old(self).spec_mark_state(),
            old(self).wf() ==> final(self).wf(),
    {
        self.requested_gc = true;
        proof {
            if old(self).wf() {
                lemma_wf_same_but_flags(*old(self), *self);
            }
        }
    }

    /// Clears the collection request.
    pub fn clear_gc_request(&mut self)
        ensures
            !final(self).spec_requested_gc(),
            heap_same_but_flags(*old(self), *final(self)),
            final(self).spec_mark_state() == old(self).spec_mark_state(),
            old(self).wf() ==> final(self).wf(),
    {
        self.requested_gc = false;
        proof {
            if old(self).wf() {
                lemma_wf_same_but_flags(*old(self), *self);
            }
        }
    }

    /// Flips the global mark polarity.  Every object born before the flip
    /// carries the old state, so after it no object is marked; this replaces
    /// an explicit un-marking pass at the start of a collection cycle.
    pub fn flip_mark_state(&mut self)
        ensures
            final(self).spec_mark_state() == !old(self).spec_mark_state(),
            heap_same_but_flags(*old(self), *final(self)),
            final(self).spec_requested_gc() == old(self).spec_requested_gc(),
            old(self).wf() ==> final(self).wf(),
    {
        self.global_mark_state = !self.global_mark_state;
        proof {
            if old(self).wf() {
                lemma_wf_same_but_flags(*old(self), *self);
            }
        }
    }

    /// Allocates an object of `size` payload bytes: lays a mark word carrying
    /// the current mark state behind the next aligned payload address, claims
    /// a handle slot for the payload, and advances the cursor.  Fails with
    /// `UnsupportedAlignment` when more than the fixed alignment is asked
    /// for, and with `OutOfMemory` exactly when the new cursor would pass the
    /// end of the region; it never collects on its own.
    pub fn allocate(&mut self, size: usize, align: usize) -> (r: Result<usize, Error>)
        requires
            old(self).wf(),
        ensures
            final(self).wf(),
            final(self).spec_capacity() == old(self).spec_capacity(),
            final(self).spec_mark_state() == old(self).spec_mark_state(),
            final(self).spec_requested_gc() == old(self).spec_requested_gc(),
            old(self).spec_cursor() <= final(self).spec_cursor(),
            old(self).spec_table().spec_len() <= final(self).spec_table().spec_len(),
            match r {
                Ok(h) => {
                    &&& (h as int) < final(self).spec_table().spec_len()
                    &&& align <= FIXED_ALIGN
                    &&& payload_at(old(self).spec_cursor()) + size <= old(self).spec_capacity()
                    &&& final(self).objects() == old(self).objects().push(
                        ObjInfo {
                            base: old(self).spec_cursor(),
                            payload: payload_at(old(self).spec_cursor()),
                            len: size as int,
                            slot: h as int,
                        },
                    )
                    &&& final(self).spec_cursor() == payload_at(old(self).spec_cursor()) + size
                    &&& !old(self).is_live_handle(h as int)
                    &&& final(self).is_live_handle(h as int)
                    &&& final(self).obj_mark(final(self).objects().len() - 1) == old(self).spec_mark_state()
                    &&& forall|i: int|
                        i != h ==> final(self).is_live_handle(i) == old(self).is_live_handle(i)
                            && (old(self).is_live_handle(i) ==> final(self).spec_table().value_of(i)
                            == old(self).spec_table().value_of(i))
                    &&& forall|i: int|
                        0 <= i < old(self).spec_capacity() && !(payload_at(old(self).spec_cursor())
                            - MARK_WORD_SIZE <= i < payload_at(old(self).spec_cursor()))
                            ==> final(self).spec_mem()[i] == old(self).spec_mem()[i]
                    &&& forall|k: int|
                        0 <= k < old(self).objects().len() ==> #[trigger] final(self).obj_mark(k)
                            == old(self).obj_mark(k) && final(self).payload_bytes(k) == old(
                            self,
                        ).payload_bytes(k)
                },
                Err(e) => {
                    &&& *final(self) == *old(self)
                    &&& (align > FIXED_ALIGN ==> e.spec_kind() == ErrorKind::UnsupportedAlignment)
                    &&& (align <= FIXED_ALIGN ==> e.spec_kind() == ErrorKind::OutOfMemory
                        && payload_at(old(self).spec_cursor()) + size > old(self).spec_capacity())
                },
            },
    {
        if align > FIXED_ALIGN {
            return Err(Error::from_kind(ErrorKind::UnsupportedAlignment));
        }
        proof {
            lemma_align_up(old(self).spec_cursor() + MARK_WORD_SIZE);
        }
        let (mark_addr, payload) = next_obj(self.cursor);
        if payload > self.mem.len() || size > self.mem.len() - payload {
            return Err(Error::from_kind(ErrorKind::OutOfMemory));
        }
        let ghost pre = *self;
        let new_cursor = payload + size;
        let word = MarkWord::new(size as u64, self.global_mark_state);
        proof {
            lemma_word_pack(size as u64, self.global_mark_state);
        }
        write_word_at(&mut self.mem, mark_addr, word.to_word());
        let h = self.table.claim_slot(payload);
        self.cursor = new_cursor;
        let ghost info = ObjInfo {
            base: pre.spec_cursor(),
            payload: payload as int,
            len: size as int,
            slot: h as int,
        };
        proof {
            self.objs@ = pre.objects().push(info);
        }
        proof {
            let os = self.objects();
            let n = os.len() as int;
            lemma_auto_spec_u64_to_from_le_bytes();
            // blocks of the old objects end at or below the old cursor, so
            // the new header did not touch them
            assert forall|k: int| 0 <= k < n - 1 implies self.hdr_word(k) == pre.hdr_word(k)
                && self.payload_bytes(k) == pre.payload_bytes(k) by {
                assert(pre.obj_layout_ok(k));
                pre.lemma_obj_bounds(k);
                pre.lemma_obj_end_le_cursor(k);
                lemma_seq_agree_subrange(
                    pre.spec_mem(),
                    self.spec_mem(),
                    os[k].payload - MARK_WORD_SIZE,
                    os[k].payload,
                );
                lemma_seq_agree_subrange(
                    pre.spec_mem(),
                    self.spec_mem(),
                    os[k].payload,
                    os[k].payload + os[k].len,
                );
            }
            assert(self.spec_mem().subrange(payload - MARK_WORD_SIZE, payload as int)
                == spec_u64_to_le_bytes(word_pack(size as u64, pre.spec_mark_state())));
            assert(word_len(self.hdr_word(n - 1)) == os[n - 1].len);
            assert(self.obj_mark(n - 1) == pre.spec_mark_state());
            // the claimed slot is none of the old objects' slots
            assert forall|k1: int, k2: int| 0 <= k1 < k2 < n implies #[trigger] os[k1].slot
                != #[trigger] os[k2].slot by {
                if k2 == n - 1 {
                    assert(pre.spec_table().is_occupied(os[k1].slot));
                }
            }
            assert forall|k: int| 0 <= k < n implies word_len(#[trigger] self.hdr_word(k)) == os[k].len by {
                if k < n - 1 {
                    assert(self.hdr_word(k) == pre.hdr_word(k));
                    assert(word_len(pre.hdr_word(k)) == pre.objects()[k].len);
                } else {
                    assert(self.hdr_word(k) == word_pack(size as u64, pre.spec_mark_state()));
                }
            }
            assert forall|k: int| 0 <= k < n implies self.obj_layout_ok(k) by {
                if k < n - 1 {
                    assert(os[k] == pre.objects()[k]);
                    assert(pre.obj_layout_ok(k));
                } else {
                    assert(os[k] == info);
                }
            }
            assert forall|k: int|
                0 <= k < n implies self.spec_table().is_occupied(#[trigger] os[k].slot)
                && self.spec_table().value_of(os[k].slot) == os[k].payload by {
                if k < n - 1 {
                    assert(pre.spec_table().is_occupied(os[k].slot));
                    assert(os[k].slot != h as int);
                }
            }
            assert forall|hh: int| self.spec_table().is_occupied(hh) implies exists|k: int|
                0 <= k < n && #[trigger] os[k].slot == hh by {
                if hh == h as int {
                    assert(os[n - 1].slot == hh);
                } else {
                    assert(pre.spec_table().is_occupied(hh));
                    let k = choose|k: int|
                        0 <= k < pre.objects().len() && #[trigger] pre.objects()[k].slot == hh;
                    assert(os[k].slot == hh);
                }
            }
            assert(self.wf());
        }
        Ok(h)
    }

    /// The machine word stored at offset `off` of the payload named by `h`.
    pub open spec fn payload_word(self, k: int, off: int) -> u64 {
        spec_u64_from_le_bytes(self.payload_bytes(k).subrange(off, off + 8))
    }

    /// Whether raw handle `h` names a live object.
    pub fn is_live(&self, h: usize) -> (r: bool)
        ensures
            r == self.is_live_handle(h as int),
    {
        self.table.is_occupied_slot(h)
    }

    /// The current payload address of the object named by `h`: the contents
    /// of its handle slot.  Valid only until the next collection moves the
    /// object.
    pub fn handle_ptr(&self, h: usize) -> (r: usize)
        requires
            self.wf(),
            self.is_live_handle(h as int),
        ensures
            r == self.objects()[self.obj_of_handle(h as int)].payload,
            r == self.spec_table().value_of(h as int),
    {
        proof {
            self.lemma_obj_of_handle(h as int);
        }
        self.table.read_slot(h)
    }

    /// The mark state of the object named by `h`.
    pub fn load_mark(&self, h: usize) -> (r: bool)
        requires
            self.wf(),
            self.is_live_handle(h as int),
        ensures
            r == self.obj_mark(self.obj_of_handle(h as int)),
    {
        proof {
            self.lemma_obj_of_handle(h as int);
            self.lemma_obj_bounds(self.obj_of_handle(h as int));
            self.lemma_obj_end_le_cursor(self.obj_of_handle(h as int));
        }
        let p = self.table.read_slot(h);
        let w = read_word_at(&self.mem, p - MARK_WORD_SIZE);
        MarkWord::from_word(w).load_mark_state()
    }

    /// Sets the mark of the object named by `h` to `state` and returns the
    /// previous mark.  Nothing else changes: not the payload bytes, not the
    /// other objects' marks, not the handle table.
    pub fn swap_mark(&mut self, h: usize, state: bool) -> (prev: bool)
        requires
            old(self).wf(),
            old(self).is_live_handle(h as int),
        ensures
            final(self).wf(),
            final(self).objects() == old(self).objects(),
            final(self).spec_table() == old(self).spec_table(),
            final(self).spec_cursor() == old(self).spec_cursor(),
            final(self).spec_capacity() == old(self).spec_capacity(),
            final(self).spec_mark_state() == old(self).spec_mark_state(),
            final(self).spec_requested_gc() == old(self).spec_requested_gc(),
            prev == old(self).obj_mark(old(self).obj_of_handle(h as int)),
            final(self).obj_mark(old(self).obj_of_handle(h as int)) == state,
            forall|j: int|
                0 <= j < old(self).objects().len() && j != old(self).obj_of_handle(h as int)
                    ==> final(self).obj_mark(j) == old(self).obj_mark(j),
            forall|j: int|
                0 <= j < old(self).objects().len() ==> final(self).payload_bytes(j) == old(self).payload_bytes(j),
    {
        let ghost pre = *old(self);
        let ghost k = pre.obj_of_handle(h as int);
        proof {
            pre.lemma_obj_of_handle(h as int);
            pre.lemma_obj_bounds(k);
            pre.lemma_obj_end_le_cursor(k);
        }
        let p = self.table.read_slot(h);
        let w = read_word_at(&self.mem, p - MARK_WORD_SIZE);
        let mut mw = MarkWord::from_word(w);
        let ghost mw0 = mw;
        let prev = mw.swap_mark_state(state);
        proof {
            crate::mark::lemma_with_state_word(mw0, state);
            let lenbits = (w & crate::mark::LEN_MASK) as u64;
            assert(w & 0x7fff_ffff_ffff_ffffu64 < 0x8000_0000_0000_0000u64) by (bit_vector);
            lemma_word_pack(lenbits, state);
        }
        write_word_at(&mut self.mem, p - MARK_WORD_SIZE, mw.to_word());
        proof {
            let os = self.objects();
            let n = os.len() as int;
            lemma_auto_spec_u64_to_from_le_bytes();
            lemma_mem_frame(pre, *self, os[k].payload - MARK_WORD_SIZE, os[k].payload);
            assert(self.hdr_word(k) == mw.spec_word());
            assert forall|j: int| 0 <= j < n && j != k implies self.hdr_word(j) == pre.hdr_word(
                j,
            ) && self.payload_bytes(j) == pre.payload_bytes(j) by {
                if j < k {
                    pre.lemma_no_overlap(j, k);
                } else {
                    pre.lemma_no_overlap(k, j);
                }
                pre.lemma_obj_bounds(j);
            }
            assert(self.payload_bytes(k) == pre.payload_bytes(k)) by {
                pre.lemma_obj_bounds(k);
            }
            assert forall|j: int| 0 <= j < n implies word_len(#[trigger] self.hdr_word(j))
                == os[j].len by {
                if j == k {
                    assert(w == pre.hdr_word(k));
                    assert(word_len(w) == os[k].len);
                    assert(self.hdr_word(k) == word_pack((w & crate::mark::LEN_MASK) as u64, state));
                    assert(word_len(self.hdr_word(k)) == (w & crate::mark::LEN_MASK) as int);
                } else {
                    assert(self.hdr_word(j) == pre.hdr_word(j));
                    assert(word_len(pre.hdr_word(j)) == pre.objects()[j].len);
                }
            }
            assert forall|j: int| 0 <= j < n implies self.obj_layout_ok(j) by {
                assert(pre.obj_layout_ok(j));
            }
            assert(self.wf());
        }
        prev
    }

    /// Reads the payload byte at offset `off` of the object named by `h`.
    pub fn read_payload_byte(&self, h: usize, off: usize) -> (r: u8)
        requires
            self.wf(),
            self.is_live_handle(h as int),
            off < self.objects()[self.obj_of_handle(h as int)].len,
        ensures
            r == self.payload_bytes(self.obj_of_handle(h as int))[off as int],
    {
        let ghost k = self.obj_of_handle(h as int);
        proof {
            self.lemma_obj_of_handle(h as int);
            self.lemma_obj_bounds(k);
            self.lemma_obj_end_le_cursor(k);
        }
        let p = self.table.read_slot(h);
        self.mem[p + off]
    }

    /// Writes the payload byte at offset `off` of the object named by `h`.
    /// Nothing else changes: not the other payload bytes, not any mark, not
    /// the handle table.
    pub fn write_payload_byte(&mut self, h: usize, off: usize, b: u8)
        requires
            old(self).wf(),
            old(self).is_live_handle(h as int),
            off < old(self).objects()[old(self).obj_of_handle(h as int)].len,
        ensures
            final(self).wf(),
            final(self).objects() == old(self).objects(),
            final(self).spec_table() == old(self).spec_table(),
            final(self).spec_cursor() == old(self).spec_cursor(),
            final(self).spec_capacity() == old(self).spec_capacity(),
            final(self).spec_mark_state() == old(self).spec_mark_state(),
            final(self).spec_requested_gc() == old(self).spec_requested_gc(),
            final(self).payload_bytes(old(self).obj_of_handle(h as int)) == old(self).payload_bytes(old(self).obj_of_handle(h as int)).update(off as int, b),
            forall|j: int|
                0 <= j < old(self).objects().len() && j != old(self).obj_of_handle(h as int)
                    ==> final(self).payload_bytes(j) == old(self).payload_bytes(j),
            forall|j: int|
                0 <= j < old(self).objects().len() ==> final(self).obj_mark(j) == old(self).obj_mark(j),
    {
        let ghost pre = *old(self);
        let ghost k = pre.obj_of_handle(h as int);
        proof {
            pre.lemma_obj_of_handle(h as int);
            pre.lemma_obj_bounds(k);
            pre.lemma_obj_end_le_cursor(k);
        }
        let p = self.table.read_slot(h);
        self.mem.set(p + off, b);
        proof {
            let os = self.objects();
            let n = os.len() as int;
            let lo = os[k].payload + off;
            self.lemma_frame_payload_write(pre, k, lo, lo + 1);
            assert(self.payload_bytes(k) =~= pre.payload_bytes(k).update(off as int, b));
            assert(self.wf());
        }
    }

    /// Reads the machine word at offset `off` of the payload named by `h`.
    pub fn read_payload_word(&self, h: usize, off: usize) -> (r: u64)
        requires
            self.wf(),
            self.is_live_handle(h as int),
            off + 8 <= self.objects()[self.obj_of_handle(h as int)].len,
        ensures
            r == self.payload_word(self.obj_of_handle(h as int), off as int),
    {
        let ghost k = self.obj_of_handle(h as int);
        proof {
            self.lemma_obj_of_handle(h as int);
            self.lemma_obj_bounds(k);
            self.lemma_obj_end_le_cursor(k);
        }
        let p = self.table.read_slot(h);
        let r = read_word_at(&self.mem, p + off);
        proof {
            let o = self.objects()[k];
            assert(self.payload_bytes(k).subrange(off as int, off + 8) =~= self.spec_mem()
                .subrange(o.payload + off, o.payload + off + 8));
        }
        r
    }

    /// Writes the machine word at offset `off` of the payload named by `h`.
    /// Nothing else changes: not the other payload bytes, not any mark, not
    /// the handle table.
    pub fn write_payload_word(&mut self, h: usize, off: usize, w: u64)
        requires
            old(self).wf(),
            old(self).is_live_handle(h as int),
            off + 8 <= old(self).objects()[old(self).obj_of_handle(h as int)].len,
        ensures
            final(self).wf(),
            final(self).objects() == old(self).objects(),
            final(self).spec_table() == old(self).spec_table(),
            final(self).spec_cursor() == old(self).spec_cursor(),
            final(self).spec_capacity() == old(self).spec_capacity(),
            final(self).spec_mark_state() == old(self).spec_mark_state(),
            final(self).spec_requested_gc() == old(self).spec_requested_gc(),
            final(self).payload_word(old(self).obj_of_handle(h as int), off as int) == w,
            forall|i: int|
                0 <= i < old(self).objects()[old(self).obj_of_handle(h as int)].len && !(off <= i
                    < off + 8) ==> final(self).payload_bytes(old(self).obj_of_handle(h as int))[i]
                    == old(self).payload_bytes(old(self).obj_of_handle(h as int))[i],
            forall|j: int|
                0 <= j < old(self).objects().len() && j != old(self).obj_of_handle(h as int)
                    ==> final(self).payload_bytes(j) == old(self).payload_bytes(j),
            forall|j: int|
                0 <= j < old(self).objects().len() ==> final(self).obj_mark(j) == old(self).obj_mark(j),
    {
        let ghost pre = *old(self);
        let ghost k = pre.obj_of_handle(h as int);
        proof {
            pre.lemma_obj_of_handle(h as int);
            pre.lemma_obj_bounds(k);
            pre.lemma_obj_end_le_cursor(k);
        }
        let p = self.table.read_slot(h);
        write_word_at(&mut self.mem, p + off, w);
        proof {
            let os = self.objects();
            let o = os[k];
            let lo = o.payload + off;
            lemma_auto_spec_u64_to_from_le_bytes();
            self.lemma_frame_payload_write(pre, k, lo, lo + 8);
            assert(self.payload_bytes(k).subrange(off as int, off + 8) =~= self.spec_mem()
                .subrange(lo, lo + 8));
            assert forall|i: int|
                0 <= i < o.len && !(off <= i < off + 8) implies self.payload_bytes(k)[i]
                == pre.payload_bytes(k)[i] by {
                assert(self.spec_mem()[o.payload + i] == pre.spec_mem()[o.payload + i]);
            }
            assert(self.wf());
        }
    }

    /// A copy of the whole payload named by `h`.
    #[verifier::loop_isolation(false)]
    pub fn read_payload(&self, h: usize) -> (r: Vec<u8>)
        requires
            self.wf(),
            self.is_live_handle(h as int),
        ensures
            r@ == self.payload_bytes(self.obj_of_handle(h as int)),
    {
        let ghost k = self.obj_of_handle(h as int);
        proof {
            self.lemma_obj_of_handle(h as int);
            self.lemma_obj_bounds(k);
            self.lemma_obj_end_le_cursor(k);
        }
        let p = self.table.read_slot(h);
        let w = read_word_at(&self.mem, p - MARK_WORD_SIZE);
        let len = MarkWord::from_word(w).object_len();
        proof {
            assert(w == self.hdr_word(k));
            assert(len == self.objects()[k].len);
        }
        let len_us: usize = len as usize;
        let mut out: Vec<u8> = Vec::new();
        let mut i: usize = 0;
        while i < len_us
            invariant
                i <= len_us,
                out@.len() == i,
                forall|j: int| 0 <= j < i ==> out@[j] == self.payload_bytes(k)[j],
            decreases len_us - i,
        {
            let b = self.mem[p + i];
            out.push(b);
            i = i + 1;
        }
        proof {
            assert(out@ =~= self.payload_bytes(k));
        }
        out
    }

    /// Overwrites the whole payload named by `h` with `src`, which must have
    /// exactly the payload's length.
    #[verifier::loop_isolation(false)]
    pub fn write_payload(&mut self, h: usize, src: &[u8])
        requires
            old(self).wf(),
            old(self).is_live_handle(h as int),
            src@.len() == old(self).objects()[old(self).obj_of_handle(h as int)].len,
        ensures
            final(self).wf(),
            final(self).objects() == old(self).objects(),
            final(self).spec_table() == old(self).spec_table(),
            final(self).spec_cursor() == old(self).spec_cursor(),
            final(self).spec_capacity() == old(self).spec_capacity(),
            final(self).spec_mark_state() == old(self).spec_mark_state(),
            final(self).spec_requested_gc() == old(self).spec_requested_gc(),
            final(self).payload_bytes(old(self).obj_of_handle(h as int)) == src@,
            forall|j: int|
                0 <= j < old(self).objects().len() && j != old(self).obj_of_handle(h as int)
                    ==> final(self).payload_bytes(j) == old(self).payload_bytes(j),
            forall|j: int|
                0 <= j < old(self).objects().len() ==> final(self).obj_mark(j) == old(self).obj_mark(j),
    {
        let ghost pre = *old(self);
        let ghost k = pre.obj_of_handle(h as int);
        proof {
            pre.lemma_obj_of_handle(h as int);
            pre.lemma_obj_bounds(k);
            pre.lemma_obj_end_le_cursor(k);
        }
        let p = self.table.read_slot(h);
        let len_us: usize = src.len();
        let mut i: usize = 0;
        while i < len_us
            invariant
                pre.wf(),
                i <= len_us,
                len_us == pre.objects()[k].len,
                0 <= k < pre.objects().len(),
                pre.objects()[k].payload == p,
                p + len_us <= pre.spec_cursor() <= pre.spec_capacity(),
                p >= MARK_WORD_SIZE,
                src@.len() == len_us,
                self.objects() == pre.objects(),
                self.spec_table() == pre.spec_table(),
                self.spec_cursor() == pre.spec_cursor(),
                self.spec_capacity() == pre.spec_capacity(),
                self.spec_mark_state() == pre.spec_mark_state(),
                self.spec_requested_gc() == pre.spec_requested_gc(),
                self.spec_mem().len() == pre.spec_mem().len(),
                forall|j: int| 0 <= j < i ==> self.spec_mem()[p + j] == src@[j],
                forall|j: int|
                    0 <= j < pre.spec_mem().len() && !(p <= j < p + i) ==> self.spec_mem()[j]
                        == pre.spec_mem()[j],
            decreases len_us - i,
        {
            let b = src[i];
            self.mem.set(p + i, b);
            i = i + 1;
        }
        proof {
            let os = self.objects();
            let o = os[k];
            self.lemma_frame_payload_write(pre, k, o.payload, o.payload + o.len);
            assert(self.payload_bytes(k) =~= src@);
            assert(self.wf());
        }
    }

    /// After a write confined to object `k`'s payload, every mark word still
    /// reads as before, every other payload is untouched, and the heap is
    /// still well formed.
    proof fn lemma_frame_payload_write(self, pre: Heap, k: int, lo: int, hi: int)
        requires
            pre.wf(),
            0 <= k < pre.objects().len(),
            self.objects() == pre.objects(),
            self.spec_table() == pre.spec_table(),
            self.spec_cursor() == pre.spec_cursor(),
            self.spec_capacity() == pre.spec_capacity(),
            self.spec_mem().len() == pre.spec_mem().len(),
            pre.objects()[k].payload <= lo <= hi,
            hi <= pre.objects()[k].payload + pre.objects()[k].len,
            forall|i: int|
                0 <= i < pre.spec_mem().len() && !(lo <= i < hi) ==> self.spec_mem()[i]
                    == pre.spec_mem()[i],
        ensures
            self.wf(),
            forall|j: int|
                0 <= j < pre.objects().len() ==> #[trigger] self.obj_mark(j) == pre.obj_mark(j)
                    && self.hdr_word(j) == pre.hdr_word(j),
            forall|j: int|
                0 <= j < pre.objects().len() && j != k ==> #[trigger] self.payload_bytes(j)
                    == pre.payload_bytes(j),
    {
        let os = pre.objects();
        let n = os.len() as int;
        pre.lemma_obj_bounds(k);
        pre.lemma_obj_end_le_cursor(k);
        assert forall|j: int| 0 <= j < n implies #[trigger] self.hdr_word(j) == pre.hdr_word(
            j,
        ) by {
            pre.lemma_obj_bounds(j);
            pre.lemma_obj_end_le_cursor(j);
            if j < k {
                pre.lemma_no_overlap(j, k);
            } else if j > k {
                pre.lemma_no_overlap(k, j);
            }
            lemma_seq_agree_subrange(
                pre.spec_mem(),
                self.spec_mem(),
                os[j].payload - MARK_WORD_SIZE,
                os[j].payload,
            );
        }
        assert forall|j: int| 0 <= j < n && j != k implies #[trigger] self.payload_bytes(j)
            == pre.payload_bytes(j) by {
            pre.lemma_obj_bounds(j);
            pre.lemma_obj_end_le_cursor(j);
            if j < k {
                pre.lemma_no_overlap(j, k);
            } else {
                pre.lemma_no_overlap(k, j);
            }
            lemma_seq_agree_subrange(
                pre.spec_mem(),
                self.spec_mem(),
                os[j].payload,
                os[j].payload + os[j].len,
            );
        }
        assert forall|j: int| 0 <= j < n implies self.obj_layout_ok(j) by {
            assert(pre.obj_layout_ok(j));
        }
        assert(self.wf());
    }
}

/// Where `o` would be placed if the previous object ended at `prev_end`:
/// same payload length and handle slot, block starting at `prev_end`.
pub open spec fn relocate(prev_end: int, o: ObjInfo) -> ObjInfo {
    ObjInfo { base: prev_end, payload: payload_at(prev_end), len: o.len, slot: o.slot }
}

/// Where the next block starts after the objects `c`: at the heap start if
/// there are none, else right after the last.
pub open spec fn end_of(c: Seq<ObjInfo>) -> int {
    if c.len() == 0 {
        0
    } else {
        c.last().payload + c.last().len
    }
}

/// The objects `s` slid towards the heap start: each block begins where the
/// previous one ends, lengths and handle slots unchanged.
pub open spec fn compact_seq(s: Seq<ObjInfo>) -> Seq<ObjInfo>
    decreases s.len(),
{
    if s.len() == 0 {
        Seq::empty()
    } else {
        let c = compact_seq(s.drop_last());
        c.push(relocate(end_of(c), s.last()))
    }
}

/// The objects `c` tile the heap from its start: aligned payloads, blocks
/// back to back.
pub open spec fn compact_chain_ok(c: Seq<ObjInfo>) -> bool {
    &&& (c.len() > 0 ==> c[0].base == 0)
    &&& forall|q: int|
        0 <= q < c.len() ==> (#[trigger] c[q]).payload == payload_at(c[q].base) && c[q].len >= 0
            && c[q].base >= 0
    &&& forall|q: int| 0 <= q < c.len() - 1 ==> c[q + 1].base == c[q].payload + #[trigger] c[q].len
}

/// Compaction keeps the number of objects and, position by position, their
/// payload lengths and handle slots; only the addresses change.
pub proof fn lemma_compact_items(s: Seq<ObjInfo>)
    ensures
        compact_seq(s).len() == s.len(),
        forall|q: int|
            0 <= q < s.len() ==> (#[trigger] compact_seq(s)[q]).slot == s[q].slot && compact_seq(
                s,
            )[q].len == s[q].len,
    decreases s.len(),
{
    if s.len() > 0 {
        lemma_compact_items(s.drop_last());
        let c = compact_seq(s);
        let cd = compact_seq(s.drop_last());
        assert forall|q: int| 0 <= q < s.len() implies (#[trigger] c[q]).slot == s[q].slot
            && c[q].len == s[q].len by {
            if q < s.len() - 1 {
                assert(c[q] == cd[q]);
                assert(s.drop_last()[q] == s[q]);
            }
        }
    }
}

/// In a well-tiled chain, every block lies between the heap start and the
/// end of the chain.
pub proof fn lemma_chain_end(c: Seq<ObjInfo>, q: int)
    requires
        compact_chain_ok(c),
        0 <= q < c.len(),
    ensures
        c[q].base >= 0,
        c[q].base + MARK_WORD_SIZE <= c[q].payload < c[q].base + 16,
        c[q].payload % 8 == 0,
        c[q].payload + c[q].len <= end_of(c),
    decreases c.len() - q,
{
    lemma_align_up(c[q].base + MARK_WORD_SIZE);
    if q < c.len() - 1 {
        lemma_chain_end(c, q + 1);
        lemma_align_up(c[q + 1].base + MARK_WORD_SIZE);
    }
}

impl Heap {
    /// The bytes of the heap region that `o` describes as payload.
    pub open spec fn bytes_of(self, o: ObjInfo) -> Seq<u8> {
        self.spec_mem().subrange(o.payload, o.payload + o.len)
    }

    /// The packed mark word stored just before the payload `o` describes.
    pub open spec fn hdr_of(self, o: ObjInfo) -> u64 {
        spec_u64_from_le_bytes(self.spec_mem().subrange(o.payload - MARK_WORD_SIZE, o.payload))
    }

    /// The first `i` objects whose mark equals the global mark state, in
    /// order.
    pub open spec fn live_upto(self, i: int) -> Seq<ObjInfo>
        decreases i,
    {
        if i <= 0 {
            Seq::empty()
        } else if self.obj_mark(i - 1) == self.spec_mark_state() {
            self.live_upto(i - 1).push(self.objects()[i - 1])
        } else {
            self.live_upto(i - 1)
        }
    }

    /// The total payload length of the dead objects among the first `i`:
    /// those whose mark differs from the global mark state.
    pub open spec fn dead_len_upto(self, i: int) -> int
        decreases i,
    {
        if i <= 0 {
            0
        } else {
            self.dead_len_upto(i - 1) + if self.obj_mark(i - 1) == self.spec_mark_state() {
                0int
            } else {
                self.objects()[i - 1].len
            }
        }
    }

    /// How many of the first `i` objects are dead.
    pub open spec fn dead_count_upto(self, i: int) -> int
        decreases i,
    {
        if i <= 0 {
            0
        } else {
            self.dead_count_upto(i - 1) + if self.obj_mark(i - 1) == self.spec_mark_state() {
                0int
            } else {
                1int
            }
        }
    }

    /// With no dead objects there is no dead payload.
    pub proof fn lemma_dead_len_zero(self, i: int)
        requires
            0 <= i <= self.objects().len(),
            self.dead_count_upto(i) == 0,
            self.wf(),
        ensures
            self.dead_len_upto(i) == 0,
        decreases i,
    {
        if i > 0 {
            assert(self.dead_count_upto(i - 1) >= 0) by {
                self.lemma_dead_count_nonneg(i - 1);
            }
            self.lemma_dead_len_zero(i - 1);
        }
    }

    /// Counts never go negative.
    pub proof fn lemma_dead_count_nonneg(self, i: int)
        ensures
            self.dead_count_upto(i) >= 0,
        decreases i,
    {
        if i > 0 {
            self.lemma_dead_count_nonneg(i - 1);
        }
    }

    /// The objects whose mark equals the global mark state: the ones a sweep
    /// keeps.
    pub open spec fn live_objects(self) -> Seq<ObjInfo> {
        self.live_upto(self.objects().len() as int)
    }

    /// Sweeps the heap in one linear pass, compacting as it goes.  Every
    /// object whose mark equals the global mark state is slid towards the
    /// heap start — payload and mark word copied, its handle slot redirected
    /// to the new payload address — and every other object's slot is returned
    /// to the free list.  Relative order is preserved; the cursor ends right
    /// after the last survivor; the number of bytes reclaimed is returned.
    ///
    /// Handles stay stable: no slot is created or destroyed, so a surviving
    /// object is named by the same raw handle before and after.
    #[verifier::loop_isolation(false)]
    #[verifier::rlimit(100)]
    pub fn perform_sweep(&mut self) -> (r: usize)
        requires
            old(self).wf(),
        ensures
            final(self).wf(),
            final(self).spec_capacity() == old(self).spec_capacity(),
            final(self).spec_mark_state() == old(self).spec_mark_state(),
            final(self).spec_requested_gc() == old(self).spec_requested_gc(),
            final(self).spec_table().spec_len() == old(self).spec_table().spec_len(),
            final(self).objects() == compact_seq(old(self).live_objects()),
            final(self).objects().len() == old(self).live_objects().len(),
            final(self).spec_cursor() <= old(self).spec_cursor(),
            r == old(self).spec_cursor() - final(self).spec_cursor(),
            r >= old(self).dead_len_upto(old(self).objects().len() as int),
            forall|q: int|
                0 <= q < final(self).objects().len() ==> #[trigger] final(self).payload_bytes(q)
                    == old(self).bytes_of(old(self).live_objects()[q]),
            forall|q: int|
                0 <= q < final(self).objects().len() ==> #[trigger] final(self).obj_mark(q)
                    == old(self).spec_mark_state(),
            forall|q: int|
                0 <= q < final(self).objects().len() ==> (#[trigger] final(self).objects()[
                q]).slot == old(self).live_objects()[q].slot,
            forall|hh: int| final(self).is_live_handle(hh) ==> old(self).is_live_handle(hh),
            forall|hh: int|
                final(self).is_live_handle(hh) <==> exists|q: int|
                    0 <= q < old(self).live_objects().len() && #[trigger] old(self).live_objects()[q].slot == hh,
    {
        let ghost pre = *old(self);
        let ghost n = pre.objects().len() as int;
        let mut src: usize = 0;
        let mut dst: usize = 0;
        let ghost mut i: int = 0;
        let old_cursor = self.cursor;
        proof {
            lemma_sweep_init(pre);
        }
        while src < old_cursor
            invariant
                0 <= i <= n,
                src as int == (if i < n {
                    pre.objects()[i].base
                } else {
                    pre.spec_cursor()
                }),
                dst as int == end_of(compact_seq(pre.live_upto(i))),
                dst <= src,
                payload_at(dst as int) + pre.dead_len_upto(i) + 8 * pre.dead_count_upto(i)
                    <= payload_at(src as int),
                self.cursor == pre.spec_cursor(),
                old_cursor == pre.spec_cursor(),
                self.spec_mark_state() == pre.spec_mark_state(),
                self.spec_requested_gc() == pre.spec_requested_gc(),
                self.objects() == pre.objects(),
                self.spec_capacity() == pre.spec_capacity(),
                compact_chain_ok(compact_seq(pre.live_upto(i))),
                sweep_mem_inv(pre, self.spec_mem(), i, src as int),
                sweep_table_inv(pre, self.spec_table(), i),
            decreases n - i,
        {
            proof {
                assert(i < n) by {
                    if i == n {
                        assert(src as int == pre.spec_cursor());
                    }
                }
                pre.lemma_obj_bounds(i);
                pre.lemma_obj_end_le_cursor(i);
            }
            let ghost o = pre.objects()[i];
            let (src_mark_addr, src_payload) = next_obj(src);
            let w = read_word_at(&self.mem, src_mark_addr);
            proof {
                lemma_sweep_read_hdr(pre, self.spec_mem(), i, src as int);
                assert(w == pre.hdr_word(i));
            }
            let mut mw = MarkWord::from_word(w);
            let len64 = mw.object_len();
            proof {
                assert(len64 == o.len);
                assert(o.len <= pre.spec_capacity());
            }
            let len: usize = len64 as usize;
            proof {
                assert(len as int == o.len);
            }
            let live = mw.load_mark_state() == self.global_mark_state;
            proof {
                assert(live == (pre.obj_mark(i) == pre.spec_mark_state()));
            }
            if live {
                let (dst_mark_addr, dst_payload) = next_obj(dst);
                proof {
                    lemma_align_up_mono(dst as int + MARK_WORD_SIZE, src as int + MARK_WORD_SIZE);
                    assert(dst_payload <= src_payload);
                    // the compaction front keeps its lead of at least the
                    // dead bytes seen so far
                    crate::layout::lemma_align_up_add(dst_payload as int, o.len + MARK_WORD_SIZE);
                    crate::layout::lemma_align_up_add(src_payload as int, o.len + MARK_WORD_SIZE);
                    assert(payload_at(dst_payload + o.len) + pre.dead_len_upto(i + 1) + 8
                        * pre.dead_count_upto(i + 1) <= payload_at(src_payload + o.len));
                }
                let ghost m0 = self.spec_mem();
                copy_forward(&mut self.mem, src_payload, dst_payload, len);
                let ghost m1 = self.spec_mem();
                write_word_at(&mut self.mem, dst_mark_addr, w);
                proof {
                    lemma_sweep_untouched(pre, m0, i, src as int);
                    lemma_auto_spec_u64_to_from_le_bytes();
                    let m2 = self.spec_mem();
                    // the mark word landed as the same bytes it had at the source
                    assert(m2.subrange(dst_payload - MARK_WORD_SIZE, dst_payload as int)
                        == spec_u64_to_le_bytes(w));
                    assert(spec_u64_to_le_bytes(w) =~= pre.spec_mem().subrange(
                        o.payload - MARK_WORD_SIZE,
                        o.payload,
                    ));
                    // the payload landed as the bytes it had at the source
                    assert forall|q2: int| 0 <= q2 < o.len implies #[trigger] m2[dst_payload + q2]
                        == pre.spec_mem()[o.payload + q2] by {
                        assert(m1[dst_payload + q2] == m0[src_payload + q2]);
                        assert(m0[src_payload + q2] == pre.spec_mem()[src_payload + q2]);
                        assert(m2[dst_payload + q2] == m1[dst_payload + q2]);
                    }
                    // all writes this round stayed inside the destination block
                    assert forall|a: int|
                        0 <= a < m0.len() && !(dst_payload - MARK_WORD_SIZE <= a < dst_payload
                            + o.len) implies #[trigger] m2[a] == m0[a] by {
                        assert(m1[a] == m0[a]);
                    }
                    lemma_sweep_live_mem(pre, m0, m2, i, src as int, dst as int);
                    lemma_sweep_slot_unique(pre, self.spec_table(), i);
                }
                let ghost t0 = self.spec_table();
                self.table.update_slot_by_value(src_payload, dst_payload);
                proof {
                    assert(t0.index_of_value(o.payload) == o.slot);
                    lemma_sweep_live_table(pre, t0, self.spec_table(), i, dst_payload as int);
                    i = i + 1;
                }
                dst = dst_payload + len;
            } else {
                proof {
                    lemma_align_up(src_payload + o.len + MARK_WORD_SIZE);
                    assert(payload_at(dst as int) + pre.dead_len_upto(i + 1) + 8
                        * pre.dead_count_upto(i + 1) <= payload_at(src_payload + o.len));
                    lemma_sweep_slot_unique(pre, self.spec_table(), i);
                }
                let ghost t0 = self.spec_table();
                self.table.free_slot_by_value(src_payload);
                proof {
                    assert(t0.index_of_value(o.payload) == o.slot);
                    lemma_sweep_dead_table(pre, t0, self.spec_table(), i);
                    lemma_sweep_dead_mem(pre, self.spec_mem(), i, src as int);
                    i = i + 1;
                }
            }
            src = src_payload + len;
        }
        proof {
            assert(i == n) by {
                if i < n {
                    pre.lemma_obj_bounds(i);
                    pre.lemma_obj_end_le_cursor(i);
                }
            }
        }
        proof {
            // at least the dead payload bytes are about to be reclaimed
            lemma_align_up(dst as int + MARK_WORD_SIZE);
            lemma_align_up(src as int + MARK_WORD_SIZE);
            pre.lemma_dead_count_nonneg(n);
            if pre.dead_count_upto(n) == 0 {
                pre.lemma_dead_len_zero(n);
            }
            assert(self.cursor - dst >= pre.dead_len_upto(n));
        }
        let reclaimed = self.cursor - dst;
        self.cursor = dst;
        proof {
            self.objs@ = compact_seq(pre.live_objects());
        }
        proof {
            lemma_sweep_finish(pre, *self, dst as int);
            assert forall|q: int|
                0 <= q < self.objects().len() implies #[trigger] self.payload_bytes(q)
                == pre.bytes_of(pre.live_objects()[q]) by {
                assert(self.payload_bytes(q) == pre.bytes_of(pre.live_objects()[q]));
            }
            assert forall|q: int|
                0 <= q < self.objects().len() implies #[trigger] self.obj_mark(q)
                == pre.spec_mark_state() by {
                assert(self.payload_bytes(q) == pre.bytes_of(pre.live_objects()[q]));
            }
            assert forall|q: int|
                0 <= q < self.objects().len() implies (#[trigger] self.objects()[q]).slot
                == pre.live_objects()[q].slot by {
                assert(self.payload_bytes(q) == pre.bytes_of(pre.live_objects()[q]));
            }
        }
        reclaimed
    }

    /// Distinct live objects are named by distinct handle slots.
    pub proof fn lemma_live_slots_distinct(self, i: int)
        requires
            self.wf(),
            0 <= i <= self.objects().len(),
        ensures
            forall|q1: int, q2: int|
                0 <= q1 < q2 < self.live_upto(i).len() ==> #[trigger] self.live_upto(i)[q1].slot
                    != #[trigger] self.live_upto(i)[q2].slot,
        decreases i,
    {
        if i > 0 {
            self.lemma_live_slots_distinct(i - 1);
            self.lemma_live_upto_sub(i - 1);
            let prev = self.live_upto(i - 1);
            let cur = self.live_upto(i);
            assert forall|q1: int, q2: int|
                0 <= q1 < q2 < cur.len() implies #[trigger] cur[q1].slot != #[trigger] cur[q2].slot by {
                if q2 == cur.len() - 1 && cur.len() == prev.len() + 1 {
                    let k = choose|k: int|
                        #![trigger self.objects()[k]]
                        0 <= k < i - 1 && prev[q1] == self.objects()[k] && self.obj_mark(k)
                            == self.spec_mark_state();
                    assert(self.objects()[k].slot != self.objects()[i - 1].slot);
                }
            }
        }
    }

    /// A marked object appears among the live objects.
    pub proof fn lemma_live_upto_complete(self, k: int, i: int)
        requires
            0 <= k < i <= self.objects().len(),
            self.obj_mark(k) == self.spec_mark_state(),
        ensures
            exists|q: int|
                0 <= q < self.live_upto(i).len() && #[trigger] self.live_upto(i)[q]
                    == self.objects()[k],
        decreases i,
    {
        if i - 1 == k {
            assert(self.live_upto(i)[self.live_upto(i).len() - 1] == self.objects()[k]);
        } else {
            self.lemma_live_upto_complete(k, i - 1);
            let q = choose|q: int|
                0 <= q < self.live_upto(i - 1).len() && #[trigger] self.live_upto(i - 1)[q]
                    == self.objects()[k];
            assert(self.live_upto(i)[q] == self.objects()[k]);
        }
    }

    /// With nothing marked there are no live objects.
    pub proof fn lemma_live_upto_none(self, i: int)
        requires
            0 <= i <= self.objects().len(),
            forall|k: int|
                0 <= k < i ==> #[trigger] self.obj_mark(k) != self.spec_mark_state(),
        ensures
            self.live_upto(i).len() == 0,
        decreases i,
    {
        if i > 0 {
            self.lemma_live_upto_none(i - 1);
        }
    }

    /// Every live object is one of the objects, in order.
    pub proof fn lemma_live_upto_sub(self, i: int)
        requires
            0 <= i <= self.objects().len(),
        ensures
            self.live_upto(i).len() <= i,
            forall|q: int|
                #![trigger self.live_upto(i)[q]]
                0 <= q < self.live_upto(i).len() ==> exists|k: int|
                    #![trigger self.objects()[k]]
                    0 <= k < i && self.live_upto(i)[q] == self.objects()[k] && self.obj_mark(k)
                        == self.spec_mark_state(),
        decreases i,
    {
        if i > 0 {
            self.lemma_live_upto_sub(i - 1);
            let prev = self.live_upto(i - 1);
            let cur = self.live_upto(i);
            assert forall|q: int| #![trigger cur[q]] 0 <= q < cur.len() implies exists|k: int|
                #![trigger self.objects()[k]]
                0 <= k < i && cur[q] == self.objects()[k] && self.obj_mark(k)
                    == self.spec_mark_state() by {
                if q < prev.len() {
                    let k = choose|k: int|
                        #![trigger self.objects()[k]]
                        0 <= k < i - 1 && prev[q] == self.objects()[k] && self.obj_mark(k)
                            == self.spec_mark_state();
                    assert(cur[q] == self.objects()[k]);
                } else {
                    assert(cur[q] == self.objects()[i - 1]);
                }
            }
        }
    }
}

/// Two heaps that differ at most in the mark polarity and the collection
/// request flag: same bytes, same cursor, same handle table, same objects.
pub open spec fn heap_same_but_flags(a: Heap, b: Heap) -> bool {
    &&& a.spec_mem() == b.spec_mem()
    &&& a.spec_cursor() == b.spec_cursor()
    &&& a.spec_table() == b.spec_table()
    &&& a.objects() == b.objects()
    &&& a.spec_capacity() == b.spec_capacity()
}

/// Well-formedness does not look at the mark polarity or the collection
/// request flag.
pub proof fn lemma_wf_same_but_flags(a: Heap, b: Heap)
    requires
        heap_same_but_flags(a, b),
        a.wf(),
    ensures
        b.wf(),
{
    assert forall|k: int| 0 <= k < b.objects().len() implies b.obj_layout_ok(k) by {
        assert(a.obj_layout_ok(k));
    }
    assert forall|k: int| 0 <= k < b.objects().len() implies word_len(#[trigger] b.hdr_word(k))
        == b.objects()[k].len by {
        assert(b.hdr_word(k) == a.hdr_word(k));
    }
}

/// Two byte strings that agree position by position on a range have equal
/// subranges there.
pub proof fn lemma_seq_agree_subrange(m1: Seq<u8>, m2: Seq<u8>, a: int, b: int)
    requires
        0 <= a <= b <= m1.len(),
        m1.len() == m2.len(),
        forall|i: int| a <= i < b ==> m1[i] == m2[i],
    ensures
        m1.subrange(a, b) == m2.subrange(a, b),
{
    assert(m1.subrange(a, b) =~= m2.subrange(a, b));
}

/// Two byte strings hold the same bytes at two (possibly different) offsets:
/// the subranges of that length there are equal.
pub proof fn lemma_subrange_shift_eq(m1: Seq<u8>, m2: Seq<u8>, a1: int, a2: int, len: int)
    requires
        0 <= a1,
        0 <= a2,
        len >= 0,
        a1 + len <= m1.len(),
        a2 + len <= m2.len(),
        forall|j: int| 0 <= j < len ==> m1[a1 + j] == #[trigger] m2[a2 + j],
    ensures
        m1.subrange(a1, a1 + len) == m2.subrange(a2, a2 + len),
{
    assert forall|j: int|
        0 <= j < len implies #[trigger] m1.subrange(a1, a1 + len)[j] == m2.subrange(
        a2,
        a2 + len,
    )[j] by {
        assert(m1.subrange(a1, a1 + len)[j] == m1[a1 + j]);
        assert(m2.subrange(a2, a2 + len)[j] == m2[a2 + j]);
    }
    assert(m1.subrange(a1, a1 + len) =~= m2.subrange(a2, a2 + len));
}

/// After a write confined to `[lo, hi)` of the heap bytes, the mark word of
/// every object whose header lies outside that range reads as before, and so
/// does the payload of every object whose payload lies outside it.
pub proof fn lemma_mem_frame(pre: Heap, post: Heap, lo: int, hi: int)
    requires
        pre.wf(),
        post.objects() == pre.objects(),
        post.spec_mem().len() == pre.spec_mem().len(),
        forall|i: int|
            0 <= i < pre.spec_mem().len() && !(lo <= i < hi) ==> post.spec_mem()[i]
                == pre.spec_mem()[i],
    ensures
        forall|j: int|
            0 <= j < pre.objects().len() && (pre.objects()[j].payload <= lo || hi
                <= pre.objects()[j].payload - MARK_WORD_SIZE) ==> #[trigger] post.hdr_word(j)
                == pre.hdr_word(j),
        forall|j: int|
            0 <= j < pre.objects().len() && (pre.objects()[j].payload + pre.objects()[j].len <= lo
                || hi <= pre.objects()[j].payload) ==> #[trigger] post.payload_bytes(j)
                == pre.payload_bytes(j),
{
    let os = pre.objects();
    let n = os.len() as int;
    assert forall|j: int|
        0 <= j < n && (os[j].payload <= lo || hi <= os[j].payload - MARK_WORD_SIZE) implies
        #[trigger] post.hdr_word(j) == pre.hdr_word(j) by {
        pre.lemma_obj_bounds(j);
        pre.lemma_obj_end_le_cursor(j);
        lemma_seq_agree_subrange(
            pre.spec_mem(),
            post.spec_mem(),
            os[j].payload - MARK_WORD_SIZE,
            os[j].payload,
        );
    }
    assert forall|j: int|
        0 <= j < n && (os[j].payload + os[j].len <= lo || hi <= os[j].payload) implies #[trigger]
        post.payload_bytes(j) == pre.payload_bytes(j) by {
        pre.lemma_obj_bounds(j);
        pre.lemma_obj_end_le_cursor(j);
        lemma_seq_agree_subrange(
            pre.spec_mem(),
            post.spec_mem(),
            os[j].payload,
            os[j].payload + os[j].len,
        );
    }
}

/// Copies `len` bytes from `src` to `dst`, front to back.  The ranges may
/// overlap: because `dst` is never past `src`, each byte is read before
/// anything is written over it, so the destination receives exactly the
/// bytes the source held when the copy began.
#[verifier::loop_isolation(false)]
pub fn copy_forward(mem: &mut Vec<u8>, src: usize, dst: usize, len: usize)
    requires
        dst <= src,
        src + len <= old(mem)@.len(),
    ensures
        final(mem)@.len() == old(mem)@.len(),
        forall|q: int| 0 <= q < len ==> final(mem)@[dst + q] == #[trigger] old(mem)@[src + q],
        forall|a: int|
            0 <= a < old(mem)@.len() && !(dst <= a < dst + len) ==> final(mem)@[a] == old(mem)@[a],
{
    let n = mem.len();
    let mut q: usize = 0;
    while q < len
        invariant
            q <= len,
            n == mem@.len(),
            mem@.len() == old(mem)@.len(),
            forall|j: int| 0 <= j < q ==> mem@[dst + j] == #[trigger] old(mem)@[src + j],
            forall|a: int|
                0 <= a < old(mem)@.len() && !(dst <= a < dst + q) ==> mem@[a] == old(mem)@[a],
        decreases len - q,
    {
        proof {
            assert(mem@[src + q] == old(mem)@[src + q]);
        }
        let b = mem[src + q];
        mem.set(dst + q, b);
        q = q + 1;
    }
}

/// Reads the machine word stored little-endian at `pos`.
pub fn read_word_at(mem: &Vec<u8>, pos: usize) -> (r: u64)
    requires
        pos + 8 <= mem@.len(),
    ensures
        r == spec_u64_from_le_bytes(mem@.subrange(pos as int, pos + 8)),
{
    let n = mem.len();
    let s = slice_subrange(mem.as_slice(), pos, pos + 8);
    u64_from_le_bytes(s)
}

/// Stores the machine word `w` little-endian at `pos`, leaving every other
/// byte alone.
#[verifier::loop_isolation(false)]
pub fn write_word_at(mem: &mut Vec<u8>, pos: usize, w: u64)
    requires
        pos + 8 <= old(mem)@.len(),
    ensures
        final(mem)@.len() == old(mem)@.len(),
        final(mem)@.subrange(pos as int, pos + 8) == spec_u64_to_le_bytes(w),
        forall|i: int|
            0 <= i < old(mem)@.len() && !(pos <= i < pos + 8) ==> final(mem)@[i] == old(mem)@[i],
{
    let n = mem.len();
    let bytes = u64_to_le_bytes(w);
    proof {
        lemma_auto_spec_u64_to_from_le_bytes();
    }
    let mut i: usize = 0;
    while i < 8
        invariant
            i <= 8,
            pos + 8 <= mem@.len(),
            mem@.len() == old(mem)@.len(),
            bytes@ == spec_u64_to_le_bytes(w),
            bytes@.len() == 8,
            forall|j: int| 0 <= j < i ==> mem@[pos + j] == bytes@[j],
            forall|j: int|
                0 <= j < old(mem)@.len() && !(pos <= j < pos + i) ==> mem@[j] == old(mem)@[j],
        decreases 8 - i,
    {
        let b = bytes[i];
        mem.set(pos + i, b);
        i = i + 1;
    }
    proof {
        assert(mem@.subrange(pos as int, pos + 8) =~= spec_u64_to_le_bytes(w));
    }
}


/// Mid-sweep memory state, after the first `i` objects have been processed
/// and with the read cursor at `src`: every survivor placed so far carries,
/// at its new address, the mark-word bytes and payload bytes its source had
/// before the sweep began, and nothing at or past `src` has been touched.
#[verifier::opaque]
pub open spec fn sweep_mem_inv(pre: Heap, mem: Seq<u8>, i: int, src: int) -> bool {
    &&& mem.len() == pre.spec_mem().len()
    &&& forall|q: int|
        #![trigger compact_seq(pre.live_upto(i))[q]]
        0 <= q < pre.live_upto(i).len() ==> mem.subrange(
            compact_seq(pre.live_upto(i))[q].payload - MARK_WORD_SIZE,
            compact_seq(pre.live_upto(i))[q].payload,
        ) == pre.spec_mem().subrange(
            pre.live_upto(i)[q].payload - MARK_WORD_SIZE,
            pre.live_upto(i)[q].payload,
        ) && mem.subrange(
            compact_seq(pre.live_upto(i))[q].payload,
            compact_seq(pre.live_upto(i))[q].payload + compact_seq(pre.live_upto(i))[q].len,
        ) == pre.spec_mem().subrange(
            pre.live_upto(i)[q].payload,
            pre.live_upto(i)[q].payload + pre.live_upto(i)[q].len,
        )
    &&& forall|a: int| src <= a < pre.spec_mem().len() ==> mem[a] == pre.spec_mem()[a]
}

/// Mid-sweep handle-table state, after the first `i` objects have been
/// processed: survivors placed so far point at their new payloads, the dead
/// prefix has been freed, the unprocessed suffix is untouched, and no slot
/// that was free before the sweep has become occupied.
#[verifier::opaque]
pub open spec fn sweep_table_inv(pre: Heap, t: HandleTable, i: int) -> bool {
    &&& t.wf()
    &&& t.spec_len() == pre.spec_table().spec_len()
    &&& forall|q: int|
        #![trigger compact_seq(pre.live_upto(i))[q]]
        0 <= q < pre.live_upto(i).len() ==> t.is_occupied(compact_seq(pre.live_upto(i))[q].slot)
            && t.value_of(compact_seq(pre.live_upto(i))[q].slot) == compact_seq(
            pre.live_upto(i),
        )[q].payload
    &&& forall|k: int|
        0 <= k < i && pre.obj_mark(k) != pre.spec_mark_state() ==> !t.is_occupied(
            #[trigger] pre.objects()[k].slot,
        )
    &&& forall|k: int|
        i <= k < pre.objects().len() ==> t.is_occupied(#[trigger] pre.objects()[k].slot)
            && t.value_of(pre.objects()[k].slot) == pre.objects()[k].payload
    &&& forall|hh: int| !pre.spec_table().is_occupied(hh) ==> !t.is_occupied(hh)
    &&& forall|hh: int|
        t.is_occupied(hh) ==> (exists|q: int|
            0 <= q < pre.live_upto(i).len() && #[trigger] pre.live_upto(i)[q].slot == hh) || (
        exists|k: int| i <= k < pre.objects().len() && #[trigger] pre.objects()[k].slot == hh)
}

/// At the start of a sweep nothing has been placed or freed yet: the empty
/// survivor chain and the untouched table satisfy the mid-sweep state.
pub proof fn lemma_sweep_init(pre: Heap)
    requires
        pre.wf(),
    ensures
        sweep_mem_inv(pre, pre.spec_mem(), 0, 0),
        sweep_table_inv(pre, pre.spec_table(), 0),
        compact_chain_ok(compact_seq(pre.live_upto(0))),
        end_of(compact_seq(pre.live_upto(0))) == 0,
{
    reveal(sweep_mem_inv);
    reveal(sweep_table_inv);
    assert(pre.live_upto(0) =~= Seq::<ObjInfo>::empty());
    assert(compact_seq(pre.live_upto(0)) =~= Seq::<ObjInfo>::empty());
}

/// Mid-sweep, the mark word of the object at the read cursor still holds the
/// bytes it had before the sweep began.
pub proof fn lemma_sweep_read_hdr(pre: Heap, mem: Seq<u8>, i: int, src: int)
    requires
        pre.wf(),
        0 <= i < pre.objects().len(),
        src == pre.objects()[i].base,
        sweep_mem_inv(pre, mem, i, src),
    ensures
        mem.len() == pre.spec_mem().len(),
        mem.subrange(
            pre.objects()[i].payload - MARK_WORD_SIZE,
            pre.objects()[i].payload,
        ) == pre.spec_mem().subrange(
            pre.objects()[i].payload - MARK_WORD_SIZE,
            pre.objects()[i].payload,
        ),
{
    reveal(sweep_mem_inv);
    pre.lemma_obj_bounds(i);
    pre.lemma_obj_end_le_cursor(i);
    lemma_seq_agree_subrange(
        pre.spec_mem(),
        mem,
        pre.objects()[i].payload - MARK_WORD_SIZE,
        pre.objects()[i].payload,
    );
}

/// Mid-sweep, everything at or past the read cursor holds the bytes it had
/// before the sweep began.
pub proof fn lemma_sweep_untouched(pre: Heap, mem: Seq<u8>, i: int, src: int)
    requires
        sweep_mem_inv(pre, mem, i, src),
    ensures
        mem.len() == pre.spec_mem().len(),
        forall|a: int| src <= a < pre.spec_mem().len() ==> mem[a] == pre.spec_mem()[a],
{
    reveal(sweep_mem_inv);
}

/// Mid-sweep, object `i`'s payload address is held by exactly one slot: its
/// own.  Survivors already placed point below the compaction front, and
/// unprocessed objects further up all have strictly larger addresses.
pub proof fn lemma_sweep_slot_unique(pre: Heap, t: HandleTable, i: int)
    requires
        pre.wf(),
        0 <= i < pre.objects().len(),
        sweep_table_inv(pre, t, i),
        compact_chain_ok(compact_seq(pre.live_upto(i))),
        end_of(compact_seq(pre.live_upto(i))) <= pre.objects()[i].base,
    ensures
        t.wf(),
        t.has_value(pre.objects()[i].payload),
        t.unique_value(pre.objects()[i].payload),
        t.index_of_value(pre.objects()[i].payload) == pre.objects()[i].slot,
{
    reveal(sweep_table_inv);
    let o = pre.objects()[i];
    let lp = compact_seq(pre.live_upto(i));
    lemma_compact_items(pre.live_upto(i));
    pre.lemma_obj_bounds(i);
    assert(t.is_occupied(o.slot) && t.value_of(o.slot) == o.payload);
    assert(t.has_value(o.payload));
    assert forall|hh: int| t.is_occupied(hh) && t.value_of(hh) == o.payload implies hh
        == o.slot by {
        if exists|q: int|
            0 <= q < pre.live_upto(i).len() && #[trigger] pre.live_upto(i)[q].slot == hh {
            let q = choose|q: int|
                0 <= q < pre.live_upto(i).len() && #[trigger] pre.live_upto(i)[q].slot == hh;
            assert(t.value_of(lp[q].slot) == lp[q].payload);
            lemma_chain_end(lp, q);
            assert(false);
        } else {
            let k = choose|k: int|
                i <= k < pre.objects().len() && #[trigger] pre.objects()[k].slot == hh;
            if k > i {
                pre.lemma_no_overlap(i, k);
                assert(false);
            }
        }
    }
}

/// After the payload and mark word of live object `i` have been copied down
/// to the compaction front, the placed survivors (including the new one)
/// still carry the bytes their sources had, and nothing past the new read
/// cursor has been touched.
#[verifier::rlimit(100)]
#[verifier::spinoff_prover]
pub proof fn lemma_sweep_live_mem(pre: Heap, m0: Seq<u8>, m2: Seq<u8>, i: int, src: int, dst: int)
    requires
        pre.wf(),
        0 <= i < pre.objects().len(),
        pre.obj_mark(i) == pre.spec_mark_state(),
        src == pre.objects()[i].base,
        compact_chain_ok(compact_seq(pre.live_upto(i))),
        end_of(compact_seq(pre.live_upto(i))) == dst,
        0 <= dst <= src,
        sweep_mem_inv(pre, m0, i, src),
        m2.len() == m0.len(),
        m2.subrange(payload_at(dst) - MARK_WORD_SIZE, payload_at(dst)) == pre.spec_mem().subrange(
            pre.objects()[i].payload - MARK_WORD_SIZE,
            pre.objects()[i].payload,
        ),
        forall|q2: int|
            0 <= q2 < pre.objects()[i].len ==> #[trigger] m2[payload_at(dst) + q2]
                == pre.spec_mem()[pre.objects()[i].payload + q2],
        forall|a: int|
            0 <= a < m0.len() && !(payload_at(dst) - MARK_WORD_SIZE <= a < payload_at(dst)
                + pre.objects()[i].len) ==> #[trigger] m2[a] == m0[a],
    ensures
        pre.live_upto(i + 1) == pre.live_upto(i).push(pre.objects()[i]),
        compact_seq(pre.live_upto(i + 1)) == compact_seq(pre.live_upto(i)).push(
            relocate(dst, pre.objects()[i]),
        ),
        compact_chain_ok(compact_seq(pre.live_upto(i + 1))),
        end_of(compact_seq(pre.live_upto(i + 1))) == payload_at(dst) + pre.objects()[i].len,
        payload_at(dst) <= pre.objects()[i].payload,
        sweep_mem_inv(pre, m2, i + 1, pre.objects()[i].payload + pre.objects()[i].len),
{
    reveal(sweep_mem_inv);
    let o = pre.objects()[i];
    let lp = compact_seq(pre.live_upto(i));
    let live1 = pre.live_upto(i + 1);
    let dstp = payload_at(dst);
    lemma_compact_items(pre.live_upto(i));
    lemma_compact_items(live1);
    pre.lemma_obj_bounds(i);
    pre.lemma_obj_end_le_cursor(i);
    lemma_align_up(src + MARK_WORD_SIZE);
    lemma_align_up(dst + MARK_WORD_SIZE);
    lemma_align_up_mono(dst + MARK_WORD_SIZE, src + MARK_WORD_SIZE);
    assert(live1 == pre.live_upto(i).push(o));
    assert(live1.drop_last() =~= pre.live_upto(i));
    let lp1 = compact_seq(live1);
    let nw = relocate(dst, o);
    assert(lp1 == lp.push(nw));
    assert(nw.payload == dstp);
    assert(compact_chain_ok(lp1)) by {
        assert forall|q: int|
            0 <= q < lp1.len() implies (#[trigger] lp1[q]).payload == payload_at(lp1[q].base)
            && lp1[q].len >= 0 && lp1[q].base >= 0 by {
            if q < lp.len() {
                assert(lp1[q] == lp[q]);
            }
        }
        assert forall|q: int|
            0 <= q < lp1.len() - 1 implies lp1[q + 1].base == lp1[q].payload + #[trigger] lp1[q].len by {
            if q + 1 < lp.len() {
                assert(lp1[q] == lp[q] && lp1[q + 1] == lp[q + 1]);
            } else {
                assert(lp1[q] == lp[q] && lp1[q + 1] == nw);
            }
        }
    }
    assert(end_of(lp1) == dstp + o.len);
    assert(dstp <= o.payload);
    assert(o.payload + o.len <= pre.spec_mem().len());
    // the new survivor's payload bytes match the source
    lemma_subrange_shift_eq(m2, pre.spec_mem(), dstp, o.payload, o.len);
    assert forall|q: int|
        #![trigger lp1[q]]
        0 <= q < live1.len() implies m2.subrange(
        lp1[q].payload - MARK_WORD_SIZE,
        lp1[q].payload,
    ) == pre.spec_mem().subrange(
        live1[q].payload - MARK_WORD_SIZE,
        live1[q].payload,
    ) && m2.subrange(lp1[q].payload, lp1[q].payload + lp1[q].len) == pre.spec_mem().subrange(
        live1[q].payload,
        live1[q].payload + live1[q].len,
    ) by {
        if q < lp.len() {
            assert(lp1[q] == lp[q]);
            assert(live1[q] == pre.live_upto(i)[q]);
            lemma_chain_end(lp, q);
            lemma_seq_agree_subrange(m0, m2, lp[q].payload - MARK_WORD_SIZE, lp[q].payload);
            lemma_seq_agree_subrange(m0, m2, lp[q].payload, lp[q].payload + lp[q].len);
        } else {
            assert(lp1[q] == nw && live1[q] == o);
            assert(m2.subrange(dstp, dstp + o.len) == pre.spec_mem().subrange(
                o.payload,
                o.payload + o.len,
            ));
        }
    }
    assert forall|a: int|
        o.payload + o.len <= a < pre.spec_mem().len() implies m2[a] == pre.spec_mem()[a] by {
        assert(m0[a] == pre.spec_mem()[a]);
        assert(m2[a] == m0[a]);
    }
}

/// Skipping a dead object leaves the placed survivors as they were; only the
/// read cursor moves on.
pub proof fn lemma_sweep_dead_mem(pre: Heap, mem: Seq<u8>, i: int, src: int)
    requires
        pre.wf(),
        0 <= i < pre.objects().len(),
        pre.obj_mark(i) != pre.spec_mark_state(),
        src == pre.objects()[i].base,
        sweep_mem_inv(pre, mem, i, src),
    ensures
        pre.live_upto(i + 1) == pre.live_upto(i),
        sweep_mem_inv(pre, mem, i + 1, pre.objects()[i].payload + pre.objects()[i].len),
{
    reveal(sweep_mem_inv);
    pre.lemma_obj_bounds(i);
}

/// Redirecting live object `i`'s slot to its new payload extends the
/// table's placed-survivor class by one and leaves every other class as it
/// was.
#[verifier::rlimit(100)]
pub proof fn lemma_sweep_live_table(
    pre: Heap,
    t0: HandleTable,
    t1: HandleTable,
    i: int,
    new_payload: int,
)
    requires
        pre.wf(),
        0 <= i < pre.objects().len(),
        pre.obj_mark(i) == pre.spec_mark_state(),
        sweep_table_inv(pre, t0, i),
        t1.wf(),
        t1.spec_len() == t0.spec_len(),
        t1.is_occupied(pre.objects()[i].slot),
        t1.value_of(pre.objects()[i].slot) == new_payload,
        forall|x: int|
            x != pre.objects()[i].slot ==> t1.is_occupied(x) == t0.is_occupied(x) && (
            t0.is_occupied(x) ==> t1.value_of(x) == t0.value_of(x)),
        new_payload == payload_at(end_of(compact_seq(pre.live_upto(i)))),
    ensures
        sweep_table_inv(pre, t1, i + 1),
{
    reveal(sweep_table_inv);
    let o = pre.objects()[i];
    let n = pre.objects().len() as int;
    let lp = compact_seq(pre.live_upto(i));
    let live1 = pre.live_upto(i + 1);
    let lp1 = compact_seq(live1);
    let nw = relocate(end_of(lp), o);
    lemma_compact_items(pre.live_upto(i));
    lemma_compact_items(live1);
    pre.lemma_live_upto_sub(i);
    assert(live1 == pre.live_upto(i).push(o));
    assert(live1.drop_last() =~= pre.live_upto(i));
    assert(lp1 == lp.push(nw));
    assert forall|q: int|
        #![trigger lp1[q]]
        0 <= q < live1.len() implies t1.is_occupied(lp1[q].slot) && t1.value_of(lp1[q].slot)
        == lp1[q].payload by {
        if q < lp.len() {
            assert(lp1[q] == lp[q]);
            let k = choose|k: int|
                #![trigger pre.objects()[k]]
                0 <= k < i && pre.live_upto(i)[q] == pre.objects()[k] && pre.obj_mark(k)
                    == pre.spec_mark_state();
            assert(lp[q].slot == pre.objects()[k].slot);
            assert(pre.objects()[k].slot != o.slot);
        } else {
            assert(lp1[q] == nw && nw.slot == o.slot);
        }
    }
    assert forall|k: int|
        0 <= k < i + 1 && pre.obj_mark(k) != pre.spec_mark_state() implies !t1.is_occupied(
        (#[trigger] pre.objects()[k]).slot,
    ) by {
        assert(pre.objects()[k].slot != o.slot);
    }
    assert forall|k: int|
        i + 1 <= k < n implies t1.is_occupied((#[trigger] pre.objects()[k]).slot)
        && t1.value_of(pre.objects()[k].slot) == pre.objects()[k].payload by {
        assert(pre.objects()[k].slot != o.slot);
    }
    assert forall|hh: int| !pre.spec_table().is_occupied(hh) implies !t1.is_occupied(hh) by {
        if hh != o.slot {
        } else {
            assert(pre.spec_table().is_occupied(o.slot));
        }
    }
    assert forall|hh: int|
        t1.is_occupied(hh) implies (exists|q: int|
        0 <= q < live1.len() && #[trigger] live1[q].slot == hh) || (exists|k: int|
        i + 1 <= k < n && #[trigger] pre.objects()[k].slot == hh) by {
        if hh == o.slot {
            assert(live1[live1.len() - 1].slot == hh);
        } else {
            if exists|q: int|
                0 <= q < pre.live_upto(i).len() && #[trigger] pre.live_upto(i)[q].slot == hh {
                let q = choose|q: int|
                    0 <= q < pre.live_upto(i).len() && #[trigger] pre.live_upto(i)[q].slot == hh;
                assert(live1[q].slot == hh);
            } else {
                let k = choose|k: int|
                    i <= k < n && #[trigger] pre.objects()[k].slot == hh;
                assert(k != i);
            }
        }
    }
}

/// Freeing dead object `i`'s slot moves it out of the unprocessed class and
/// leaves every other class as it was.
#[verifier::rlimit(100)]
pub proof fn lemma_sweep_dead_table(pre: Heap, t0: HandleTable, t1: HandleTable, i: int)
    requires
        pre.wf(),
        0 <= i < pre.objects().len(),
        pre.obj_mark(i) != pre.spec_mark_state(),
        sweep_table_inv(pre, t0, i),
        t1.wf(),
        t1.spec_len() == t0.spec_len(),
        !t1.is_occupied(pre.objects()[i].slot),
        forall|x: int|
            x != pre.objects()[i].slot ==> t1.is_occupied(x) == t0.is_occupied(x) && (
            t0.is_occupied(x) ==> t1.value_of(x) == t0.value_of(x)),
    ensures
        sweep_table_inv(pre, t1, i + 1),
{
    reveal(sweep_table_inv);
    let o = pre.objects()[i];
    let n = pre.objects().len() as int;
    let lp = compact_seq(pre.live_upto(i));
    lemma_compact_items(pre.live_upto(i));
    pre.lemma_live_upto_sub(i);
    assert(pre.live_upto(i + 1) == pre.live_upto(i));
    assert forall|q: int|
        #![trigger lp[q]]
        0 <= q < pre.live_upto(i).len() implies t1.is_occupied(lp[q].slot) && t1.value_of(
        lp[q].slot,
    ) == lp[q].payload by {
        let k = choose|k: int|
            #![trigger pre.objects()[k]]
            0 <= k < i && pre.live_upto(i)[q] == pre.objects()[k] && pre.obj_mark(k)
                == pre.spec_mark_state();
        assert(lp[q].slot == pre.objects()[k].slot);
        assert(pre.objects()[k].slot != o.slot);
    }
    assert forall|k: int|
        0 <= k < i + 1 && pre.obj_mark(k) != pre.spec_mark_state() implies !t1.is_occupied(
        (#[trigger] pre.objects()[k]).slot,
    ) by {
        if k < i {
            assert(pre.objects()[k].slot != o.slot);
        }
    }
    assert forall|k: int|
        i + 1 <= k < n implies t1.is_occupied((#[trigger] pre.objects()[k]).slot)
        && t1.value_of(pre.objects()[k].slot) == pre.objects()[k].payload by {
        assert(pre.objects()[k].slot != o.slot);
    }
    assert forall|hh: int|
        t1.is_occupied(hh) implies (exists|q: int|
        0 <= q < pre.live_upto(i + 1).len() && #[trigger] pre.live_upto(i + 1)[q].slot == hh) || (
    exists|k: int| i + 1 <= k < n && #[trigger] pre.objects()[k].slot == hh) by {
        assert(hh != o.slot);
        if !(exists|q: int|
            0 <= q < pre.live_upto(i).len() && #[trigger] pre.live_upto(i)[q].slot == hh) {
            let k = choose|k: int| i <= k < n && #[trigger] pre.objects()[k].slot == hh;
            assert(k != i);
        }
    }
}

/// Once every object has been processed, the heap with the compacted object
/// list and the cursor at the compaction front is well formed again, and
/// every survivor carries its old bytes under its old handle.
#[verifier::rlimit(100)]
pub proof fn lemma_sweep_finish(pre: Heap, cur: Heap, dst: int)
    requires
        pre.wf(),
        cur.objects() == compact_seq(pre.live_objects()),
        cur.spec_capacity() == pre.spec_capacity(),
        cur.spec_cursor() == dst,
        dst == end_of(compact_seq(pre.live_objects())),
        compact_chain_ok(compact_seq(pre.live_objects())),
        dst <= pre.spec_cursor(),
        cur.spec_mark_state() == pre.spec_mark_state(),
        sweep_mem_inv(pre, cur.spec_mem(), pre.objects().len() as int, pre.spec_cursor()),
        sweep_table_inv(pre, cur.spec_table(), pre.objects().len() as int),
    ensures
        cur.wf(),
        cur.spec_table().spec_len() == pre.spec_table().spec_len(),
        cur.objects().len() == pre.live_objects().len(),
        forall|q: int|
            0 <= q < cur.objects().len() ==> #[trigger] cur.payload_bytes(q) == pre.bytes_of(
                pre.live_objects()[q],
            ) && cur.obj_mark(q) == pre.spec_mark_state() && cur.objects()[q].slot
                == pre.live_objects()[q].slot,
        forall|hh: int| cur.is_live_handle(hh) ==> pre.is_live_handle(hh),
        forall|hh: int|
            cur.is_live_handle(hh) <==> exists|q: int|
                0 <= q < pre.live_objects().len() && #[trigger] pre.live_objects()[q].slot == hh,
{
    reveal(sweep_mem_inv);
    reveal(sweep_table_inv);
    let n = pre.objects().len() as int;
    let live = pre.live_objects();
    let lpf = compact_seq(live);
    lemma_compact_items(live);
    pre.lemma_live_upto_sub(n);
    pre.lemma_live_slots_distinct(n);
    assert forall|q: int| 0 <= q < lpf.len() implies cur.obj_layout_ok(q) by {
        lemma_chain_end(lpf, q);
    }
    assert forall|q: int|
        0 <= q < lpf.len() implies #[trigger] cur.payload_bytes(q) == pre.bytes_of(live[q])
        && cur.hdr_word(q) == spec_u64_from_le_bytes(
        pre.spec_mem().subrange(live[q].payload - MARK_WORD_SIZE, live[q].payload),
    ) by {
        assert(cur.payload_bytes(q) =~= cur.spec_mem().subrange(
            lpf[q].payload,
            lpf[q].payload + lpf[q].len,
        ));
        assert(pre.bytes_of(live[q]) =~= pre.spec_mem().subrange(
            live[q].payload,
            live[q].payload + live[q].len,
        ));
    }
    assert forall|q: int|
        0 <= q < lpf.len() implies word_len(#[trigger] cur.hdr_word(q)) == lpf[q].len
        && word_state(cur.hdr_word(q)) == pre.spec_mark_state() by {
        let k = choose|k: int|
            #![trigger pre.objects()[k]]
            0 <= k < n && live[q] == pre.objects()[k] && pre.obj_mark(k)
                == pre.spec_mark_state();
        assert(cur.hdr_word(q) == pre.hdr_word(k));
        assert(word_len(pre.hdr_word(k)) == pre.objects()[k].len);
    }
    assert forall|q1: int, q2: int|
        0 <= q1 < q2 < lpf.len() implies #[trigger] lpf[q1].slot != #[trigger] lpf[q2].slot by {
        assert(lpf[q1].slot == live[q1].slot && lpf[q2].slot == live[q2].slot);
    }
    assert forall|hh: int| cur.spec_table().is_occupied(hh) implies exists|q: int|
        0 <= q < lpf.len() && #[trigger] lpf[q].slot == hh by {
        let q = choose|q: int| 0 <= q < live.len() && #[trigger] live[q].slot == hh;
        assert(lpf[q].slot == hh);
    }
    assert(cur.wf());
    assert forall|hh: int| cur.is_live_handle(hh) implies pre.is_live_handle(hh) by {
        let q = choose|q: int| 0 <= q < live.len() && #[trigger] live[q].slot == hh;
        let k = choose|k: int|
            #![trigger pre.objects()[k]]
            0 <= k < n && live[q] == pre.objects()[k] && pre.obj_mark(k)
                == pre.spec_mark_state();
        assert(pre.spec_table().is_occupied(pre.objects()[k].slot));
    }
    assert forall|hh: int|
        (exists|q: int| 0 <= q < live.len() && #[trigger] live[q].slot == hh)
        implies cur.is_live_handle(hh) by {
        let q = choose|q: int| 0 <= q < live.len() && #[trigger] live[q].slot == hh;
        assert(cur.spec_table().is_occupied(lpf[q].slot));
    }
}

} // verus!
