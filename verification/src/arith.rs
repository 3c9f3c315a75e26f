use vstd::prelude::*;
use vstd::arithmetic::power2::{pow2, lemma_pow2_strictly_increases, lemma2_to64, lemma2_to64_rest, lemma_pow2_pos};
use vstd::bits::{lemma_usize_low_bits_mask_is_mod, lemma_usize_shl_is_mul, lemma_usize_pow2_no_overflow, low_bits_mask};

verus! {

/// `x` is an integral power of two.
pub open spec fn is_power_of_two(x: int) -> bool {
    exists|n: nat| x == pow2(n)
}

/// A power of two that fits in a `usize` has an exponent below `usize::BITS`.
pub proof fn lemma_pow2_usize_exponent(x: usize, n: nat)
    requires
        x == pow2(n),
    ensures
        n < usize::BITS,
{
    lemma2_to64();
    lemma2_to64_rest();
    if n >= usize::BITS {
        if n > usize::BITS {
            lemma_pow2_strictly_increases(usize::BITS as nat, n);
        }
    }
}

/// For a power-of-two `align`, masking with `align - 1` is the remainder and
/// masking with its complement rounds down to a multiple of `align`.
pub proof fn lemma_mask_mod(addr: usize, align: usize)
    requires
        is_power_of_two(align as int),
    ensures
        align > 0,
        addr & ((align - 1) as usize) == addr % align,
        addr & !((align - 1) as usize) == addr - addr % align,
        (addr - addr % align) % (align as int) == 0,
{
    let n = choose|n: nat| align == pow2(n);
    lemma_pow2_usize_exponent(align, n);
    lemma_pow2_pos(n);
    assert(low_bits_mask(n) == align - 1);
    lemma_usize_low_bits_mask_is_mod(addr, n);
    let m = (align - 1) as usize;
    assert(addr & !m == addr - (addr & m)) by (bit_vector);
    assert((addr - addr % align) % (align as int) == 0) by {
        vstd::arithmetic::div_mod::lemma_fundamental_div_mod(addr as int, align as int);
        vstd::arithmetic::div_mod::lemma_mod_multiples_basic(addr as int / align as int, align as int);
    }
}

/// Decides whether `x` is a power of two.
pub fn usize_is_power_of_two(x: usize) -> (b: bool)
    ensures
        b == is_power_of_two(x as int),
{
    let mut k: u32 = 0;
    while k < usize::BITS
        invariant
            k <= usize::BITS,
            forall|j: nat| j < k ==> x != pow2(j),
        decreases usize::BITS - k,
    {
        proof {
            lemma_usize_pow2_no_overflow(k as nat);
            lemma_usize_shl_is_mul(1, k as usize);
        }
        if x == (1usize << k) {
            assert(x == pow2(k as nat));
            return true;
        }
        k = k + 1;
    }
    proof {
        if is_power_of_two(x as int) {
            let n = choose|n: nat| x == pow2(n);
            lemma_pow2_usize_exponent(x, n);
        }
    }
    false
}

} // verus!
