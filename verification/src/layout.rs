//! Heap object layout.
//!
//! Every object in the heap occupies `[mark word][padding][payload]`: starting
//! from the end of the previous object, the next mark word is placed so that
//! the payload that follows it lands on a `FIXED_ALIGN` boundary.  The mark
//! word sits in the `MARK_WORD_SIZE` bytes immediately before the payload.

use vstd::prelude::*;

verus! {

/// Every payload is aligned to a word of memory, the same approach malloc
/// takes; requests for a stronger alignment are rejected.
pub const FIXED_ALIGN: usize = 8;

/// The mark word heading each object occupies one machine word.
pub const MARK_WORD_SIZE: usize = 8;

/// `pos` rounded up to the next multiple of `FIXED_ALIGN`.
pub open spec fn align_up(pos: int) -> int {
    ((pos + 7) / 8) * 8
}

/// The payload address of the object laid out at block start `pos`: room for
/// the mark word, then padding up to the fixed alignment.
pub open spec fn payload_at(pos: int) -> int {
    align_up(pos + MARK_WORD_SIZE)
}

/// Rounding up lands on a multiple of the alignment, moves forward by less
/// than one alignment unit, and does not move multiples at all.
pub proof fn lemma_align_up(pos: int)
    requires
        pos >= 0,
    ensures
        align_up(pos) % 8 == 0,
        pos <= align_up(pos) < pos + 8,
        pos % 8 == 0 ==> align_up(pos) == pos,
{
    assert(align_up(pos) % 8 == 0) by (nonlinear_arith);
    assert(pos <= align_up(pos) < pos + 8) by (nonlinear_arith);
    assert(pos % 8 == 0 ==> align_up(pos) == pos) by (nonlinear_arith);
}

/// Rounding up distributes over a shift by a multiple of the alignment.
pub proof fn lemma_align_up_add(p: int, y: int)
    requires
        p >= 0,
        p % 8 == 0,
        y >= 0,
    ensures
        align_up(p + y) == p + align_up(y),
{
    assert(align_up(p + y) == p + align_up(y)) by (nonlinear_arith)
        requires
            p >= 0,
            p % 8 == 0,
            y >= 0,
    ;
}

/// Rounding up is monotone.
pub proof fn lemma_align_up_mono(a: int, b: int)
    requires
        a <= b,
    ensures
        align_up(a) <= align_up(b),
{
    assert(align_up(a) <= align_up(b)) by (nonlinear_arith)
        requires
            a <= b,
    ;
}

/// The mark word and payload addresses of the object laid out at block start
/// `pos`: the payload lands on the first aligned address that leaves room for
/// the mark word, which fills the bytes just before it.
pub fn next_obj(pos: usize) -> (r: (usize, usize))
    requires
        pos + 15 <= usize::MAX,
    ensures
        r.1 == payload_at(pos as int),
        r.0 == r.1 - MARK_WORD_SIZE,
        pos <= r.0,
        r.1 % 8 == 0,
        pos + MARK_WORD_SIZE <= r.1 < pos + MARK_WORD_SIZE + 8,
{
    proof {
        lemma_align_up(pos + MARK_WORD_SIZE);
    }
    let payload = ((pos + 15) / 8) * 8;
    proof {
        assert(payload as int == align_up(pos + MARK_WORD_SIZE));
        assert(payload as int % 8 == 0);
    }
    (payload - 8, payload)
}

} // verus!
