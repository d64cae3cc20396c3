//! Rounding addresses up to an alignment boundary.

use vstd::prelude::*;
use vstd::arithmetic::power::pow;
use vstd::arithmetic::power2::{
    is_pow2, is_pow2_equiv, lemma_pow2, lemma_pow2_adds, lemma_pow2_pos,
    lemma_pow2_strictly_increases, pow2,
};
use vstd::bits::{lemma_usize_low_bits_mask_is_mod, low_bits_mask};
use vstd::layout::unsigned_int_max_values;

verus! {

/// `addr` is a multiple of `align`.
pub open spec fn is_aligned(addr: int, align: int) -> bool {
    addr % align == 0
}

/// The smallest multiple of `align` that is not below `addr`.
pub open spec fn align_up_spec(addr: int, align: int) -> int {
    if addr % align == 0 {
        addr
    } else {
        addr - addr % align + align
    }
}

/// `align_up_spec(addr, align)` is a multiple of `align`, is not below `addr`,
/// and no multiple of `align` lies between the two.
pub proof fn lemma_align_up_is_least_multiple(addr: int, align: int)
    requires
        0 <= addr,
        0 < align,
    ensures
        align_up_spec(addr, align) >= addr,
        is_aligned(align_up_spec(addr, align), align),
        align_up_spec(addr, align) - addr < align,
        forall|x: int| x >= addr && #[trigger] is_aligned(x, align) ==> align_up_spec(addr, align) <= x,
{
    let r = align_up_spec(addr, align);
    assert(r % align == 0 && r >= addr && r - addr < align) by (nonlinear_arith)
        requires
            0 <= addr,
            0 < align,
            r == if addr % align == 0 { addr } else { addr - addr % align + align },
    ;
    assert forall|x: int| x >= addr && #[trigger] is_aligned(x, align) implies r <= x by {
        assert(r <= x) by (nonlinear_arith)
            requires
                x >= addr,
                x % align == 0,
                r % align == 0,
                r - addr < align,
                0 < align,
        ;
    }
}

/// Rounding up leaves an address where it is exactly when the address is a
/// multiple of the alignment.
pub proof fn lemma_align_up_keeps_exactly_multiples(addr: int, align: int)
    requires
        0 <= addr,
        0 < align,
    ensures
        align_up_spec(addr, align) == addr <==> is_aligned(addr, align),
{
    assert(addr % align < align) by (nonlinear_arith)
        requires
            0 <= addr,
            0 < align,
    ;
}

/// A power of two is positive.
pub proof fn lemma_power_of_two_positive(align: int)
    requires
        is_pow2(align),
    ensures
        align > 0,
{
    reveal(is_pow2);
}

/// A multiple of `big` is a multiple of every divisor of `big`.
pub proof fn lemma_aligned_to_divisor(x: int, big: int, small: int)
    requires
        0 < small,
        0 < big,
        is_aligned(x, big),
        is_aligned(big, small),
    ensures
        is_aligned(x, small),
{
    let q = x / big;
    let r = big / small;
    vstd::arithmetic::div_mod::lemma_fundamental_div_mod(x, big);
    vstd::arithmetic::div_mod::lemma_fundamental_div_mod(big, small);
    assert(x == small * (r * q)) by (nonlinear_arith)
        requires
            x == big * q,
            big == small * r,
    ;
    vstd::arithmetic::div_mod::lemma_mod_multiples_basic(r * q, small);
    assert(small * (r * q) == (r * q) * small) by (nonlinear_arith);
}

/// Of two powers of two, the larger is a multiple of the smaller.
pub proof fn lemma_power_of_two_divides(small: int, big: int)
    requires
        is_pow2(small),
        is_pow2(big),
        small <= big,
    ensures
        is_aligned(big, small),
{
    is_pow2_equiv(small);
    is_pow2_equiv(big);
    let a = choose|a: nat| pow(2, a) == small;
    let b = choose|b: nat| pow(2, b) == big;
    lemma_pow2(a);
    lemma_pow2(b);
    lemma_pow2_pos(a);
    if b < a {
        lemma_pow2_strictly_increases(b, a);
    }
    lemma_pow2_adds(a, (b - a) as nat);
    assert(big % small == 0) by (nonlinear_arith)
        requires
            big == small * pow2((b - a) as nat),
            small > 0,
    ;
}

/// A power of two that is at least 8 is a multiple of 8.
pub proof fn lemma_power_of_two_multiple_of_eight(align: int)
    requires
        is_pow2(align),
        align >= 8,
    ensures
        is_aligned(align, 8),
{
    reveal_with_fuel(is_pow2, 4);
}

/// Clearing the low bits of `x` with the mask of a power of two subtracts
/// the remainder of `x` by that power.
proof fn lemma_mask_clears_remainder(x: usize, align: usize)
    requires
        is_pow2(align as int),
    ensures
        align > 0,
        x & !((align - 1) as usize) == x - x % align,
        (usize::MAX + 1) % (align as int) == 0,
{
    is_pow2_equiv(align as int);
    let n = choose|n: nat| pow(2, n) == align as int;
    lemma_pow2(n);
    lemma_pow2_pos(n);
    unsigned_int_max_values();
    let bits = usize::BITS as nat;
    if n >= bits {
        if n > bits {
            lemma_pow2_strictly_increases(bits, n);
        }
        assert(false);
    }
    assert(low_bits_mask(n) == align - 1);
    lemma_usize_low_bits_mask_is_mod(x, n);
    let m = (align - 1) as usize;
    assert(x & m == x % align);
    assert(x & !m == (x - (x & m)) as usize && x & m <= x) by (bit_vector);
    lemma_pow2_adds(n, (bits - n) as nat);
    assert((usize::MAX + 1) % (align as int) == 0) by (nonlinear_arith)
        requires
            usize::MAX + 1 == align * pow2((bits - n) as nat),
            align > 0,
    ;
}

/// Calls `linked_list_allocator::align_up`. For a power-of-two `align` and an
/// `addr` for which `addr + align` does not wrap, that function returns
/// `addr + align - 1` with the bits below `align` cleared.
#[verifier::external_body]
fn align_up(addr: usize, align: usize) -> (aligned: usize)
    requires
        is_pow2(align as int),
        addr + align <= usize::MAX,
    ensures
        aligned == ((addr + align - 1) as usize) & !((align - 1) as usize),
{
    linked_list_allocator::align_up(addr, align)
}

/// Rounds `addr` up to a multiple of `align`: returns the smallest multiple
/// of `align` that is not below `addr`, or `None` when that multiple does not
/// fit in a `usize`.
pub fn checked_align_up(addr: usize, align: usize) -> (aligned: Option<usize>)
    requires
        is_pow2(align as int),
    ensures
        align_up_spec(addr as int, align as int) <= usize::MAX ==> aligned == Some(
            align_up_spec(addr as int, align as int) as usize,
        ),
        align_up_spec(addr as int, align as int) > usize::MAX ==> aligned.is_none(),
        aligned matches Some(least) ==> {
            &&& least >= addr
            &&& is_aligned(least as int, align as int)
            &&& forall|x: int| x >= addr && #[trigger] is_aligned(x, align as int) ==> least <= x
        },
        aligned == Some(addr) <==> is_aligned(addr as int, align as int),
{
    proof {
        lemma_mask_clears_remainder(addr, align);
        lemma_align_up_is_least_multiple(addr as int, align as int);
        lemma_align_up_keeps_exactly_multiples(addr as int, align as int);
    }
    let room = usize::MAX - align;
    if addr <= room {
        let aligned = align_up(addr, align);
        proof {
            let x = (addr + align - 1) as usize;
            lemma_mask_clears_remainder(x, align);
            assert(x - x % align == align_up_spec(addr as int, align as int)) by (nonlinear_arith)
                requires
                    x == addr + align - 1,
                    align > 0,
                    addr >= 0,
            ;
        }
        Some(aligned)
    } else if addr - room == 1 {
        proof {
            // `addr` is the last multiple of `align` that is an address.
            assert(addr as int % align as int == 0) by (nonlinear_arith)
                requires
                    addr + align == usize::MAX + 1,
                    align > 0,
                    (usize::MAX + 1) % (align as int) == 0,
            ;
        }
        Some(addr)
    } else {
        proof {
            assert(align_up_spec(addr as int, align as int) > usize::MAX) by (nonlinear_arith)
                requires
                    addr + align > usize::MAX + 1,
                    align > 0,
                    (usize::MAX + 1) % (align as int) == 0,
                    align_up_spec(addr as int, align as int) >= addr,
                    align_up_spec(addr as int, align as int) % (align as int) == 0,
            ;
        }
        None
    }
}

} // verus!
