//! Bit helpers used by the graphics library binding.

use vstd::prelude::*;

verus! {

/// Bit `j` of `v`.
pub open spec fn bit(v: u32, j: u32) -> u32 {
    (v >> j) & 1
}

/// The bits of `i`, in two's complement.
pub open spec fn bits_of(i: i32) -> u32 {
    #[verifier::truncate]
    (i as u32)
}

/// Position, counted from one, of the least significant set bit of `i`;
/// zero where no bit is set.
pub fn ffs(i: i32) -> (r: i32)
    ensures
        i == 0 ==> r == 0,
        i != 0 ==> 1 <= r <= 32 && bit(bits_of(i), (r - 1) as u32) == 1 && forall|j: u32|
            j < (r - 1) as u32 ==> #[trigger] bit(bits_of(i), j) == 0,
{
    if i == 0 {
        return 0;
    }
    let v: u32 = #[verifier::truncate] (i as u32);
    proof {
        assert(v == bits_of(i));
        assert(v >> 0u32 == v) by (bit_vector);
        assert(i != 0 ==> (#[verifier::truncate] (i as u32)) != 0) by (bit_vector);
    }
    let mut w = v;
    let mut k: u32 = 0;
    while w & 1 == 0
        invariant
            k < 32,
            w != 0,
            w == v >> k,
            forall|j: u32| j < k ==> #[trigger] bit(v, j) == 0,
        decreases w,
    {
        proof {
            assert(w & 1 == 0 && w != 0 ==> (w >> 1u32) != 0 && (w >> 1u32) < w) by (bit_vector);
            assert(w == v >> k && k < 31 ==> (w >> 1u32) == v >> ((k + 1) as u32)) by (bit_vector);
            assert(w == v >> k && w != 0 && w & 1 == 0 ==> k < 31) by (bit_vector);
            assert(w == v >> k ==> (v >> k) & 1 == w & 1) by (bit_vector);
        }
        w = w >> 1;
        k = k + 1;
    }
    proof {
        assert(w == v >> k ==> (v >> k) & 1 == w & 1) by (bit_vector);
        assert(w & 1 != 0 ==> w & 1 == 1) by (bit_vector);
        assert(bit(v, k) == 1);
    }
    let r = (k + 1) as i32;
    proof {
        assert((r - 1) as u32 == k);
    }
    r
}

} // verus!
