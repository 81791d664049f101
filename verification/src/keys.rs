//! Packed keys for pair-keyed collections.
//!
//! A pair of 32-bit item ids is packed into one `u64` key, high word
//! first, so that the packed order is the lexicographic pair order.

use vstd::prelude::*;

use vstd::arithmetic::div_mod::lemma_fundamental_div_mod_converse;

verus! {

/// One above the largest 32-bit value: the radix of the packing.
pub const KEY_RADIX: u64 = 0x1_0000_0000;

/// Packed key of the ordered pair (a, b).
pub open spec fn pair_key(a: int, b: int) -> int {
    a * 0x1_0000_0000 + b
}

/// High word of a packed key: the pair's first component.
pub open spec fn hi_of(k: int) -> int {
    k / 0x1_0000_0000
}

/// Low word of a packed key: the pair's second component.
pub open spec fn lo_of(k: int) -> int {
    k % 0x1_0000_0000
}

pub proof fn lemma_pair_key(a: int, b: int)
    requires
        0 <= a < 0x1_0000_0000,
        0 <= b < 0x1_0000_0000,
    ensures
        hi_of(pair_key(a, b)) == a,
        lo_of(pair_key(a, b)) == b,
        0 <= pair_key(a, b) < 0x1_0000_0000_0000_0000,
{
    lemma_fundamental_div_mod_converse(a * 0x1_0000_0000 + b, 0x1_0000_0000, a, b);
    assert(a * 0x1_0000_0000 + b < 0x1_0000_0000_0000_0000) by (nonlinear_arith)
        requires
            0 <= a < 0x1_0000_0000,
            0 <= b < 0x1_0000_0000,
    {}
    assert(a * 0x1_0000_0000 + b >= 0) by (nonlinear_arith)
        requires
            0 <= a,
            0 <= b,
    {}
}

/// Any `u64` key splits into two in-range components that repack to it.
pub proof fn lemma_key_split(k: u64)
    ensures
        0 <= hi_of(k as int) < 0x1_0000_0000,
        0 <= lo_of(k as int) < 0x1_0000_0000,
        pair_key(hi_of(k as int), lo_of(k as int)) == k as int,
{
    vstd::arithmetic::div_mod::lemma_fundamental_div_mod(k as int, 0x1_0000_0000);
    assert(0 <= k as int / 0x1_0000_0000 < 0x1_0000_0000 && 0 <= k as int % 0x1_0000_0000
        < 0x1_0000_0000) by (nonlinear_arith)
        requires
            0 <= k < 0x1_0000_0000_0000_0000,
    {}
}

/// Packs the pair (a, b) into its `u64` key.
pub fn pack_pair(a: u32, b: u32) -> (r: u64)
    ensures
        r as int == pair_key(a as int, b as int),
{
    proof {
        lemma_pair_key(a as int, b as int);
    }
    (a as u64) * KEY_RADIX + (b as u64)
}

/// Unpacks a key into its pair of components.
pub fn unpack_pair(k: u64) -> (r: (u32, u32))
    ensures
        r.0 as int == hi_of(k as int),
        r.1 as int == lo_of(k as int),
        pair_key(r.0 as int, r.1 as int) == k as int,
{
    let hi = k / KEY_RADIX;
    let lo = k % KEY_RADIX;
    proof {
        assert(hi_of(k as int) < 0x1_0000_0000) by (nonlinear_arith)
            requires
                0 <= k < 0x1_0000_0000_0000_0000,
                hi_of(k as int) == k as int / 0x1_0000_0000,
        {}
        assert(k as int == hi_of(k as int) * 0x1_0000_0000 + lo_of(k as int)) by {
            vstd::arithmetic::div_mod::lemma_fundamental_div_mod(k as int, 0x1_0000_0000);
        }
    }
    (hi as u32, lo as u32)
}

} // verus!
