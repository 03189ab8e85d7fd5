//! Root storage.
//!
//! Roots are externally registered handles, asserted reachable for tracing
//! purposes until explicitly removed.  They are kept in a slot-indexed
//! container: adding a root appends an entry and returns its index, and
//! removal clears the entry without renumbering the survivors, so indices
//! stay stable.

use crate::Gc;
use vstd::prelude::*;

verus! {

/// A source of handles to start tracing from.  Root sources are unordered
/// and may hold the same handle more than once.
pub trait RootSource {
    /// The handles currently registered, for use in specifications.
    spec fn root_handles(&self) -> Seq<Option<int>>;

    /// Removes the root at `index`; reports whether an entry was removed.
    fn remove_root(&mut self, index: usize) -> (r: bool)
        ensures
            r == (0 <= index < old(self).root_handles().len() && old(self).root_handles()[index as int] is Some),
            final(self).root_handles() == if r {
                old(self).root_handles().update(index as int, None)
            } else {
                old(self).root_handles()
            },
    ;
}

/// A root paired with its erased trace function.  Here the trace function of
/// every object is kept beside the heap, keyed by its handle, so the erased
/// pair reduces to the raw handle itself.
#[derive(Clone, Copy, Debug)]
pub struct UntypedTracable {
    raw_handle: usize,
}

impl UntypedTracable {
    /// The raw handle, for use in specifications.
    pub closed spec fn spec_raw(self) -> int {
        self.raw_handle as int
    }

    /// Erases a typed handle into a tracable root entry.
    pub fn from_handle(handle: Gc) -> (r: UntypedTracable)
        ensures
            r.spec_raw() == handle.spec_raw(),
    {
        UntypedTracable { raw_handle: handle.into_raw() }
    }

    /// The raw handle this entry traces from.
    pub fn raw(&self) -> (r: usize)
        ensures
            r == self.spec_raw(),
    {
        self.raw_handle
    }
}

/// The slot-indexed root container: stable indices, removal leaves holes.
pub struct RootList {
    entries: Vec<Option<UntypedTracable>>,
}

impl RootList {
    /// The registered handles by slot, for use in specifications.
    pub closed spec fn spec_entries(self) -> Seq<Option<int>> {
        Seq::new(
            self.entries@.len(),
            |k: int|
                match self.entries@[k] {
                    Some(u) => Some(u.spec_raw()),
                    None => None,
                },
        )
    }

    /// Whether raw handle `h` is registered as a root.
    pub open spec fn contains_root(self, h: int) -> bool {
        exists|k: int|
            0 <= k < self.spec_entries().len() && #[trigger] self.spec_entries()[k] == Some(h)
    }

    /// Whether no roots at all are registered.
    pub open spec fn is_empty(self) -> bool {
        forall|k: int|
            0 <= k < self.spec_entries().len() ==> #[trigger] self.spec_entries()[k] is None
    }

    /// A container with no roots.
    pub fn new() -> (r: RootList)
        ensures
            r.spec_entries().len() == 0,
            r.is_empty(),
    {
        let r = RootList { entries: Vec::new() };
        proof {
            assert(r.spec_entries() =~= Seq::empty());
        }
        r
    }

    /// The number of root slots, holes included.
    pub fn len(&self) -> (r: usize)
        ensures
            r == self.spec_entries().len(),
    {
        self.entries.len()
    }

    /// The raw handle of the root at `index`, if one is registered there.
    pub fn get_root(&self, index: usize) -> (r: Option<usize>)
        requires
            index < self.spec_entries().len(),
        ensures
            match r {
                Some(h) => self.spec_entries()[index as int] == Some(h as int),
                None => self.spec_entries()[index as int] is None,
            },
    {
        match self.entries[index] {
            Some(u) => Some(u.raw()),
            None => None,
        }
    }

    /// Appends a root entry and returns its stable index.
    pub fn add_root(&mut self, root: UntypedTracable) -> (index: usize)
        ensures
            final(self).spec_entries() == old(self).spec_entries().push(Some(root.spec_raw())),
            index == old(self).spec_entries().len(),
            final(self).contains_root(root.spec_raw()),
    {
        let index = self.entries.len();
        self.entries.push(Some(root));
        proof {
            assert(self.spec_entries() =~= old(self).spec_entries().push(Some(root.spec_raw())));
            assert(self.spec_entries()[index as int] == Some(root.spec_raw()));
        }
        index
    }

    /// Removes the root at `index`; reports whether an entry was removed.
    /// Surviving entries keep their indices.
    pub fn remove_by_index(&mut self, index: usize) -> (r: bool)
        ensures
            r == (0 <= index < old(self).spec_entries().len() && old(self).spec_entries()[index as int] is Some),
            final(self).spec_entries() == if r {
                old(self).spec_entries().update(index as int, None)
            } else {
                old(self).spec_entries()
            },
    {
        if index < self.entries.len() {
            let present = match self.entries[index] {
                Some(_) => true,
                None => false,
            };
            if present {
                self.entries.set(index, None);
                proof {
                    assert(self.spec_entries() =~= old(self).spec_entries().update(
                        index as int,
                        None,
                    ));
                }
                return true;
            }
        }
        false
    }
}

impl RootSource for RootList {
    open spec fn root_handles(&self) -> Seq<Option<int>> {
        self.spec_entries()
    }

    fn remove_root(&mut self, index: usize) -> (r: bool) {
        self.remove_by_index(index)
    }
}

/// Storage for roots, indexed by stable slots.
pub trait RootStorage {
    /// The handles currently stored, for use in specifications.
    spec fn stored_handles(&self) -> Seq<Option<int>>;

    /// Removes the root at `index`; reports whether an entry was removed.
    fn remove_by_index(&mut self, index: usize) -> (r: bool)
        ensures
            r == (0 <= index < old(self).stored_handles().len() && old(self).stored_handles()[index as int] is Some),
            final(self).stored_handles() == if r {
                old(self).stored_handles().update(index as int, None)
            } else {
                old(self).stored_handles()
            },
    ;
}

/// Root storage that can register garbage-collected handles directly.
pub trait GcRootStorage: RootStorage {
    /// Registers `root` and returns its stable index.
    fn add_root(&mut self, root: &Gc) -> (index: usize)
        ensures
            final(self).stored_handles() == old(self).stored_handles().push(Some(root.spec_raw())),
            index == old(self).stored_handles().len(),
    ;
}

impl RootStorage for RootList {
    open spec fn stored_handles(&self) -> Seq<Option<int>> {
        self.spec_entries()
    }

    fn remove_by_index(&mut self, index: usize) -> (r: bool) {
        RootList::remove_by_index(self, index)
    }
}

impl GcRootStorage for RootList {
    fn add_root(&mut self, root: &Gc) -> (index: usize) {
        RootList::add_root(self, UntypedTracable::from_handle(*root))
    }
}

/// Adding a root and then removing it by the returned index restores the
/// container to its prior state, up to the set of registered handles: every
/// handle rooted before is rooted after, and the other way round.
pub proof fn lemma_add_remove_root_roundtrip(before: RootList, mid: RootList, after: RootList, h: int)
    requires
        mid.spec_entries() == before.spec_entries().push(Some(h)),
        after.spec_entries() == mid.spec_entries().update(before.spec_entries().len() as int, None),
    ensures
        forall|x: int| before.contains_root(x) ==> after.contains_root(x),
        forall|x: int| after.contains_root(x) ==> before.contains_root(x),
{
    let n = before.spec_entries().len() as int;
    assert forall|x: int| before.contains_root(x) implies after.contains_root(x) by {
        let k = choose|k: int|
            0 <= k < before.spec_entries().len() && #[trigger] before.spec_entries()[k] == Some(x);
        assert(after.spec_entries()[k] == Some(x));
    }
    assert forall|x: int| after.contains_root(x) implies before.contains_root(x) by {
        let k = choose|k: int|
            0 <= k < after.spec_entries().len() && #[trigger] after.spec_entries()[k] == Some(x);
        assert(k != n);
        assert(before.spec_entries()[k] == Some(x));
    }
}

} // verus!
