//! Type-erased tracing.
//!
//! User types declare their outgoing references so the collector can walk
//! the object graph.  Because the heap stores plain bytes, that declaration
//! is erased to a [`TraceShape`]: the list of payload offsets at which the
//! object keeps reference words.  A reference word holds a raw handle plus
//! one (so that zero can mean "no reference"); the collector reads the words
//! at those offsets and follows them.  Leaf values — integers, strings,
//! anything without outgoing references — have the empty shape.

use vstd::prelude::*;

verus! {

/// A reference word holding this value names no object at all.
pub const NULL_REF: u64 = 0;

/// The erased trace function of an object: the payload offsets at which it
/// stores reference words.  Each reference word is one machine word holding
/// a raw handle plus one, or [`NULL_REF`] for none.
#[derive(Debug)]
pub struct TraceShape {
    ref_offsets: Vec<usize>,
}

impl Clone for TraceShape {
    fn clone(&self) -> (r: Self)
        ensures
            r.offsets() == self.offsets(),
    {
        let n = self.ref_offsets.len();
        let mut offs: Vec<usize> = Vec::new();
        let mut j: usize = 0;
        while j < n
            invariant
                j <= n,
                n == self.ref_offsets@.len(),
                offs@.len() == j,
                forall|x: int| 0 <= x < j ==> offs@[x] == self.ref_offsets@[x],
            decreases n - j,
        {
            offs.push(self.ref_offsets[j]);
            j = j + 1;
        }
        proof {
            assert(offs@ =~= self.offsets());
        }
        TraceShape { ref_offsets: offs }
    }
}

impl TraceShape {
    /// The reference-word offsets, for use in specifications.
    pub closed spec fn offsets(self) -> Seq<usize> {
        self.ref_offsets@
    }

    /// Every reference word lies wholly inside a payload of `len` bytes.
    pub open spec fn fits(self, len: int) -> bool {
        forall|j: int| 0 <= j < self.offsets().len() ==> #[trigger] self.offsets()[j] + 8 <= len
    }

    /// The shape of a value without outgoing references: nothing to trace.
    pub fn leaf() -> (r: TraceShape)
        ensures
            r.offsets().len() == 0,
    {
        TraceShape { ref_offsets: Vec::new() }
    }

    /// The shape of a value whose reference words sit at the given payload
    /// offsets.
    pub fn with_refs(ref_offsets: Vec<usize>) -> (r: TraceShape)
        ensures
            r.offsets() == ref_offsets@,
    {
        TraceShape { ref_offsets }
    }

    /// The number of reference words.
    pub fn ref_count(&self) -> (r: usize)
        ensures
            r == self.offsets().len(),
    {
        self.ref_offsets.len()
    }

    /// The payload offset of the `j`-th reference word.
    pub fn ref_offset(&self, j: usize) -> (r: usize)
        requires
            j < self.offsets().len(),
        ensures
            r == self.offsets()[j as int],
    {
        self.ref_offsets[j]
    }

    /// Checks that every reference word of this shape lies inside a payload
    /// of `len` bytes.
    pub fn check_fits(&self, len: usize) -> (r: bool)
        ensures
            r == self.fits(len as int),
    {
        let n = self.ref_offsets.len();
        let mut j: usize = 0;
        while j < n
            invariant
                j <= n,
                n == self.offsets().len(),
                forall|x: int| 0 <= x < j ==> #[trigger] self.offsets()[x] + 8 <= len,
            decreases n - j,
        {
            let off = self.ref_offsets[j];
            if off > usize::MAX - 8 || off + 8 > len {
                return false;
            }
            j = j + 1;
        }
        true
    }
}

} // verus!
