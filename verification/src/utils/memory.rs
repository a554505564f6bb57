//! Alignment helpers.
//!
//! The bitmap backing store benefits from word-aligned allocations; this
//! module holds the arithmetic part of that concern.  The allocation
//! itself is a platform matter and lives outside the core.

use vstd::prelude::*;
use vstd::arithmetic::power2::{pow2, lemma_pow2_pos};
use vstd::bits::{low_bits_mask, lemma_usize_low_bits_mask_is_mod};

verus! {

/// `a` is a power of two representable as a `usize`.
pub open spec fn is_pow2(a: usize) -> bool {
    exists|k: nat| k < usize::BITS && a == pow2(k)
}

/// Check whether the address `addr` is aligned to `a`, which must be a
/// power of two.
pub fn is_aligned(addr: usize, a: usize) -> (r: bool)
    requires
        is_pow2(a),
    ensures
        r == (addr % a == 0),
{
    proof {
        let k = choose|k: nat| k < usize::BITS && a == pow2(k);
        lemma_pow2_pos(k);
    }
    let a_minus_one = a - 1;
    let pmoda = addr & a_minus_one;
    proof {
        let k = choose|k: nat| k < usize::BITS && a == pow2(k);
        lemma_pow2_pos(k);
        assert(a_minus_one == low_bits_mask(k) as usize);
        lemma_usize_low_bits_mask_is_mod(addr, k);
    }
    pmoda == 0
}

} // verus!
