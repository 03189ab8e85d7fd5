//! Object mark words.
//!
//! A mark word is the one machine word that precedes every live object in the
//! heap.  It packs the object's payload length into the low bits and the mark
//! state — a single bit whose "live" meaning flips every collection cycle —
//! into the top bit.  Because the polarity flips, no un-marking pass is ever
//! needed: new objects are born with the current state, and after a trace the
//! live objects are exactly those whose bit equals the global state.

use vstd::prelude::*;

verus! {

/// The top bit of a mark word holds the mark state.
pub const MARK_BIT: u64 = 0x8000_0000_0000_0000;

/// The low bits of a mark word hold the payload length in bytes.
pub const LEN_MASK: u64 = 0x7fff_ffff_ffff_ffff;

/// The payload length packed into a mark word.
pub open spec fn word_len(w: u64) -> int {
    (w & LEN_MASK) as int
}

/// The mark state packed into a mark word.
pub open spec fn word_state(w: u64) -> bool {
    w & MARK_BIT == MARK_BIT
}

/// The mark word that packs the given payload length and mark state.
pub open spec fn word_pack(len: u64, state: bool) -> u64 {
    if state {
        len | MARK_BIT
    } else {
        len & LEN_MASK
    }
}

/// Packing and unpacking a mark word round-trips, as long as the length fits
/// below the mark bit.
pub proof fn lemma_word_pack(len: u64, state: bool)
    requires
        len < MARK_BIT,
    ensures
        word_len(word_pack(len, state)) == len,
        word_state(word_pack(len, state)) == state,
{
    assert((len | 0x8000_0000_0000_0000u64) & 0x7fff_ffff_ffff_ffffu64 == len
        && (len & 0x7fff_ffff_ffff_ffffu64) == len
        && (len | 0x8000_0000_0000_0000u64) & 0x8000_0000_0000_0000u64 == 0x8000_0000_0000_0000u64
        && len & 0x8000_0000_0000_0000u64 != 0x8000_0000_0000_0000u64) by (bit_vector)
        requires
            len < 0x8000_0000_0000_0000u64,
    ;
}

/// A mark which is used to determine whether an object is in use.
///
/// This collector family flips the meaning of the mark between traces instead
/// of clearing marks up front; new objects must therefore be initialised to
/// the current global mark state.
pub trait Mark: Sized {
    /// The state of the mark, for use in specifications.
    spec fn spec_mark_state(&self) -> bool;

    /// The value this mark takes when its state is set to `state`; everything
    /// else the mark carries is unchanged.
    spec fn spec_with_mark_state(&self, state: bool) -> Self;

    /// Read the current state of the mark.
    fn load_mark_state(&self) -> (r: bool)
        ensures
            r == self.spec_mark_state(),
    ;

    /// Set the mark to a new state.
    fn store_mark_state(&mut self, state: bool)
        ensures
            *final(self) == old(self).spec_with_mark_state(state),
            final(self).spec_mark_state() == state,
    ;

    /// Set the mark to a new state and return the previous state.
    fn swap_mark_state(&mut self, state: bool) -> (prev: bool)
        ensures
            *final(self) == old(self).spec_with_mark_state(state),
            final(self).spec_mark_state() == state,
            prev == old(self).spec_mark_state(),
    {
        let previous = self.load_mark_state();
        self.store_mark_state(state);
        previous
    }
}

/// A mark that doubles as a mutex, for collectors whose object headers have
/// room for a lock bit beside the mark bit.  This collector family keeps the
/// mark word free of locking duties, so the trait adds nothing here; it is
/// kept as the extension point for implementations that do lock.
pub trait LockingMark: Mark {

}

/// An object header word: payload length in the low bits, mark state in the
/// top bit.
#[derive(Clone, Copy, Debug, PartialEq, Eq, Structural)]
pub struct MarkWord {
    word: u64,
}

impl MarkWord {
    /// The packed word, for use in specifications.
    pub closed spec fn spec_word(self) -> u64 {
        self.word
    }

    /// The payload length this word records.
    pub open spec fn spec_len(self) -> int {
        word_len(self.spec_word())
    }

    /// A fresh mark word for an object of payload length `len` born with mark
    /// state `state`.
    pub fn new(len: u64, state: bool) -> (r: MarkWord)
        requires
            len < MARK_BIT,
        ensures
            r.spec_word() == word_pack(len, state),
            r.spec_len() == len,
            r.spec_mark_state() == state,
    {
        proof {
            lemma_word_pack(len, state);
        }
        if state {
            MarkWord { word: len | MARK_BIT }
        } else {
            MarkWord { word: len & LEN_MASK }
        }
    }

    /// Rebuilds a mark word from its packed representation.
    pub fn from_word(word: u64) -> (r: MarkWord)
        ensures
            r.spec_word() == word,
    {
        MarkWord { word }
    }

    /// The packed representation of this mark word.
    pub fn to_word(&self) -> (r: u64)
        ensures
            r == self.spec_word(),
    {
        self.word
    }

    /// The payload length of the object this word heads.
    pub fn object_len(&self) -> (r: u64)
        ensures
            r == self.spec_len(),
    {
        proof {
            let w = self.spec_word();
            assert(w & 0x7fff_ffff_ffff_ffffu64 <= 0x7fff_ffff_ffff_ffffu64) by (bit_vector);
        }
        self.word & LEN_MASK
    }
}

impl Mark for MarkWord {
    open spec fn spec_mark_state(&self) -> bool {
        word_state(self.spec_word())
    }

    closed spec fn spec_with_mark_state(&self, state: bool) -> Self {
        MarkWord { word: word_pack((self.spec_word() & LEN_MASK) as u64, state) }
    }

    fn load_mark_state(&self) -> (r: bool)
        ensures
            r == self.spec_mark_state(),
    {
        self.word & MARK_BIT == MARK_BIT
    }

    fn store_mark_state(&mut self, state: bool)
        ensures
            *final(self) == old(self).spec_with_mark_state(state),
            final(self).spec_mark_state() == state,
    {
        let len = self.object_len();
        proof {
            let w = old(self).spec_word();
            assert(w & 0x7fff_ffff_ffff_ffffu64 < 0x8000_0000_0000_0000u64) by (bit_vector);
            lemma_word_pack((w & LEN_MASK) as u64, state);
        }
        if state {
            self.word = len | MARK_BIT;
        } else {
            self.word = len & LEN_MASK;
        }
    }
}

/// The packed representation of a mark word after its state is set: the
/// length bits carried over, the mark bit set or cleared.
pub proof fn lemma_with_state_word(w: MarkWord, state: bool)
    ensures
        w.spec_with_mark_state(state).spec_word() == word_pack(
            (w.spec_word() & LEN_MASK) as u64,
            state,
        ),
{
}

/// Setting the state leaves the recorded length alone: the mark bit and the
/// length bits of a mark word are independent.
pub proof fn lemma_store_preserves_len(w: MarkWord, state: bool)
    ensures
        w.spec_with_mark_state(state).spec_len() == w.spec_len(),
        w.spec_with_mark_state(state).spec_mark_state() == state,
{
    let word = w.spec_word();
    assert(word & 0x7fff_ffff_ffff_ffffu64 < 0x8000_0000_0000_0000u64) by (bit_vector);
    lemma_word_pack((word & LEN_MASK) as u64, state);
    assert((word & 0x7fff_ffff_ffff_ffffu64) & 0x7fff_ffff_ffff_ffffu64
        == word & 0x7fff_ffff_ffff_ffffu64) by (bit_vector);
}

} // verus!
