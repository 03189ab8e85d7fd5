//! A cooperative, stop-the-world garbage collector built around a bump-pointer
//! heap, a handle indirection table, polarity-flip tracing and a compacting
//! sweep.
//!
//! External code holds [`Gc`] handles: stable names for heap objects that
//! survive relocation because they index an indirection table rather than
//! naming an address directly.  Collection happens only inside
//! [`collector::RootingAllocator::yield_point`], the single safepoint at which
//! object addresses may move.

use vstd::prelude::*;

pub mod collector;
pub mod error;
pub mod handle_table;
pub mod heap;
pub mod layout;
pub mod mark;
pub mod marker;
pub mod pointer;
pub mod roots;
pub mod trace;

verus! {

/// An owned handle to an object in a garbage collected heap.
///
/// A `Gc` wraps the raw handle — the index of an indirection-table slot — and
/// stays valid across collections as long as the object it names is kept
/// alive by a root.  Only the slot's contents (the object's current address)
/// change when the collector moves objects.
#[derive(Clone, Copy, Debug, PartialEq, Eq, Structural)]
pub struct Gc {
    handle: usize,
}

impl Gc {
    /// The raw handle, for use in specifications.
    pub closed spec fn spec_raw(self) -> int {
        self.handle as int
    }

    /// Converts a `Gc` into the underlying raw handle.
    pub fn into_raw(self) -> (r: usize)
        ensures
            r == self.spec_raw(),
    {
        self.handle
    }

    /// The underlying raw handle of this `Gc`.
    pub fn as_raw(&self) -> (r: usize)
        ensures
            r == self.spec_raw(),
    {
        self.handle
    }

    /// Reconstructs a `Gc` from a raw handle previously obtained through
    /// [`Gc::into_raw`] or handed out by the allocator.
    pub fn from_raw(raw: usize) -> (r: Gc)
        ensures
            r.spec_raw() == raw,
    {
        Gc { handle: raw }
    }
}

} // verus!
