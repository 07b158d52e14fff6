//! Index arithmetic of a ring buffer whose size is a power of two.
use vstd::prelude::*;

use vstd::arithmetic::power2::pow2;

verus! {

/// The number of elements between the read offset `front` and the write offset `back`
/// of a ring buffer of `size` slots, `size` a power of two.
pub fn count(front: usize, back: usize, size: usize) -> (r: usize)
    requires
        exists|n: nat| n < usize::BITS && size == #[trigger] pow2(n),
    ensures
        r as int == (back as int - front as int) % (size as int),
{
    let ghost n = choose|n: nat| n < usize::BITS && size == #[trigger] pow2(n);
    proof {
        vstd::arithmetic::power2::lemma_pow2_pos(n);
    }
    let d = back.wrapping_sub(front);
    let r = d & (size - 1);
    proof {
        vstd::bits::lemma_usize_low_bits_mask_is_mod(d, n);
        lemma_wrap_mod(back, front, size, n);
    }
    r
}

/// The wrapped difference leaves the same remainder as the true one, since a power of two
/// below the word size divides the word's range.
proof fn lemma_wrap_mod(back: usize, front: usize, size: usize, n: nat)
    requires
        n < usize::BITS,
        size == pow2(n),
    ensures
        (back.wrapping_sub(front) % size) as int == (back as int - front as int) % (size as int),
{
    vstd::arithmetic::power2::lemma_pow2_pos(n);
    if back < front {
        let bits = usize::BITS as nat;
        vstd::arithmetic::power2::lemma2_to64();
        assert(usize::MAX as int + 1 == pow2(bits));
        vstd::arithmetic::power2::lemma_pow2_adds(n, (bits - n) as nat);
        assert(pow2(bits) == size * pow2((bits - n) as nat));
        assert(back.wrapping_sub(front) as int == back as int - front as int + size * pow2((bits - n) as nat));
        vstd::arithmetic::div_mod::lemma_mod_multiples_vanish(
            pow2((bits - n) as nat) as int,
            back as int - front as int,
            size as int,
        );
    }
}

} // verus!
