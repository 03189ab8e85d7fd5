//! Compressed generational indices.
//!
//! A generational index packs a heap offset into the low bits of one machine
//! word and a generation counter into the remaining high bits.  Every time a
//! slot is re-targeted the generation is bumped, so a stale index — one
//! whose generation no longer matches the slot's — can be recognised instead
//! of silently reading the wrong object.  The default configuration gives
//! the offset 40 bits, enough for a heap of a terabyte.

use vstd::prelude::*;

verus! {

/// How large a heap a generational index must be able to address.
pub trait GenIndexConfig {
    /// The largest heap size supported, in bytes; must be a whole power of
    /// two so that it can serve as a bit mask boundary.
    fn max_heap_size() -> (r: u64)
        ensures
            r >= 1,
    ;
}

/// The default configuration: assume the heap can only reach a size of 1TB,
/// which far exceeds current consumer hardware.
pub struct DefaultMaxHeapSize;

impl GenIndexConfig for DefaultMaxHeapSize {
    fn max_heap_size() -> (r: u64)
        ensures
            r >= 1,
    {
        0x100_0000_0000u64
    }
}

/// The low bits of a compressed index hold the heap offset.
pub const PTR_MASK: u64 = 0xff_ffff_ffffu64;

/// The high bits of a compressed index hold the generation.
pub const GEN_MASK: u64 = 0xffff_ff00_0000_0000u64;

/// How far the generation is shifted up.
pub const PTR_BITS: u64 = 40;

/// An address and its generation, packed into one machine word.
#[derive(Clone, Copy, Debug, PartialEq, Eq, Structural)]
pub struct CompressedGenIndex {
    gen_addr: u64,
}

impl CompressedGenIndex {
    /// The packed word, for use in specifications.
    pub closed spec fn spec_gen_addr(self) -> u64 {
        self.gen_addr
    }

    /// Splits a packed word into its generation half (still shifted) and
    /// the absolute address the offset half points at.
    pub fn split_gen_address(gen_addr: u64, offset: u64) -> (r: (u64, u64))
        requires
            offset + PTR_MASK <= u64::MAX,
        ensures
            r.0 == gen_addr & GEN_MASK,
            r.1 == offset + (gen_addr & PTR_MASK),
    {
        proof {
            assert(gen_addr & 0xff_ffff_ffffu64 <= 0xff_ffff_ffffu64) by (bit_vector);
        }
        let generation = gen_addr & GEN_MASK;
        let addr = offset + (gen_addr & PTR_MASK);
        (generation, addr)
    }

    /// Retargets `target` at `new_ptr`, bumping the generation, and returns
    /// the index that now names that address: the bumped generation packed
    /// with the offset of `new_ptr` from the heap base.
    pub fn next_for(offset: u64, new_ptr: u64, target: &mut u64) -> (r: CompressedGenIndex)
        requires
            offset <= new_ptr,
            new_ptr - offset <= PTR_MASK,
            (*old(target) & GEN_MASK) >> PTR_BITS < 0xff_ffffu64,
        ensures
            r.spec_gen_addr() == *final(target),
            *final(target) & PTR_MASK == new_ptr - offset,
            (*final(target) & GEN_MASK) >> PTR_BITS == ((*old(target) & GEN_MASK) >> PTR_BITS)
                + 1,
    {
        let offset_ptr = new_ptr - offset;
        let generation = (*target & GEN_MASK) >> PTR_BITS;
        proof {
            let g = *old(target);
            assert((g & 0xffff_ff00_0000_0000u64) >> 40u64 <= 0xff_ffffu64) by (bit_vector);
        }
        let bumped = generation + 1;
        proof {
            let b = bumped;
            let p = offset_ptr;
            assert(p <= 0xff_ffff_ffffu64 && b <= 0xff_ffffu64 ==> ((b << 40u64) | p)
                & 0xff_ffff_ffffu64 == p && (((b << 40u64) | p) & 0xffff_ff00_0000_0000u64)
                >> 40u64 == b) by (bit_vector);
            assert(b << 40u64 == b << PTR_BITS) by (bit_vector);
        }
        let packed = (bumped << PTR_BITS) | offset_ptr;
        *target = packed;
        proof {
            let f = packed;
            assert(f & 0xff_ffff_ffffu64 == f & PTR_MASK && (f & 0xffff_ff00_0000_0000u64)
                >> 40u64 == (f & GEN_MASK) >> PTR_BITS) by (bit_vector);
        }
        CompressedGenIndex { gen_addr: packed }
    }

    /// Recovers the address this index points at, as long as the slot it
    /// was taken from still carries the same generation; a stale index
    /// yields nothing.
    pub fn to_ptr(&self, slot_word: u64, offset: u64) -> (r: Option<u64>)
        requires
            offset + PTR_MASK <= u64::MAX,
        ensures
            match r {
                Some(addr) => self.spec_gen_addr() & GEN_MASK == slot_word & GEN_MASK && addr
                    == offset + (slot_word & PTR_MASK),
                None => self.spec_gen_addr() & GEN_MASK != slot_word & GEN_MASK,
            },
    {
        let (gen1, _addr1) = Self::split_gen_address(self.gen_addr, offset);
        let (gen2, addr2) = Self::split_gen_address(slot_word, offset);
        if gen1 == gen2 {
            Some(addr2)
        } else {
            None
        }
    }
}

} // verus!
