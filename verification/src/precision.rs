//! Rounding of natural numbers to the precision of a binary64 significand.
//!
//! A binary64 number carries 53 significant bits. A natural number with more
//! binary digits than that is stored as the nearest number that fits, and a
//! number halfway between two neighbours goes to the one whose last kept digit
//! is even.
use vstd::arithmetic::div_mod::*;
use vstd::arithmetic::mul::*;
use vstd::arithmetic::power2::*;
use vstd::bits::*;
use vstd::prelude::*;
use vstd::std_specs::bits::*;

verus! {

/// The number of significant bits of a binary64 number.
pub const SIGNIFICAND_BITS: u32 = 53;

/// The number of binary digits of `n`: the least `k` with `n < 2^k`.
pub open spec fn bit_length(n: nat) -> nat
    decreases n,
{
    if n == 0 {
        0
    } else {
        1 + bit_length(n / 2)
    }
}

/// `n / d` rounded to the nearest whole number; a remainder of exactly half
/// of `d` rounds to the even neighbour.
pub open spec fn div_round_half_even(n: nat, d: nat) -> nat
    recommends
        d > 0,
{
    let quotient = n / d;
    let rest = n % d;
    if 2 * rest > d || (2 * rest == d && quotient % 2 == 1) {
        quotient + 1
    } else {
        quotient
    }
}

/// The number nearest to `n` that has at most 53 significant bits, ties to
/// even: what a binary64 holds when it is given `n`. A number of up to 53
/// binary digits is held as it is; a longer one is rounded to a multiple of
/// the power of two that leaves 53 digits.
pub open spec fn round_to_significand(n: nat) -> nat {
    if bit_length(n) <= SIGNIFICAND_BITS {
        n
    } else {
        let unit = pow2((bit_length(n) - SIGNIFICAND_BITS) as nat);
        div_round_half_even(n, unit) * unit
    }
}

/// A positive number lies between the two powers of two that its digit
/// count names.
pub proof fn lemma_bit_length_bounds(n: nat)
    requires
        n > 0,
    ensures
        bit_length(n) > 0,
        pow2((bit_length(n) - 1) as nat) <= n < pow2(bit_length(n)),
    decreases n,
{
    lemma2_to64();
    if n == 1 {
        assert(bit_length(1) == 1 + bit_length(0));
    } else {
        lemma_bit_length_bounds(n / 2);
        let k = bit_length(n / 2);
        lemma_pow2_unfold(k);
        lemma_pow2_unfold(k + 1);
    }
}

/// The digit count is the only `k` with `2^(k-1) <= n < 2^k`.
pub proof fn lemma_bit_length_unique(n: nat, k: nat)
    requires
        k > 0,
        pow2((k - 1) as nat) <= n < pow2(k),
    ensures
        bit_length(n) == k,
{
    lemma_pow2_pos((k - 1) as nat);
    lemma_bit_length_bounds(n);
    let b = bit_length(n);
    if b < k && b < k - 1 {
        lemma_pow2_strictly_increases(b, (k - 1) as nat);
    }
    if b > k && b - 1 > k {
        lemma_pow2_strictly_increases(k, (b - 1) as nat);
    }
}

/// Dropping the low `k` digits of a number that has more than `k` digits
/// shortens it by exactly `k`.
pub proof fn lemma_bit_length_of_high_part(n: nat, k: nat)
    requires
        n / pow2(k) > 0,
    ensures
        bit_length(n) == k + bit_length(n / pow2(k)),
{
    lemma_pow2_pos(k);
    let high = n / pow2(k);
    let b = bit_length(high);
    lemma_bit_length_bounds(high);
    lemma_fundamental_div_mod(n as int, pow2(k) as int);
    lemma_mod_bound(n as int, pow2(k) as int);
    lemma_pow2_adds((b - 1) as nat, k);
    lemma_pow2_adds(b, k);
    lemma_mul_is_commutative(pow2(k) as int, high as int);
    lemma_mul_inequality(pow2((b - 1) as nat) as int, high as int, pow2(k) as int);
    lemma_mul_inequality(high as int + 1, pow2(b) as int, pow2(k) as int);
    lemma_mul_is_distributive_add_other_way(pow2(k) as int, high as int, 1);
    lemma_bit_length_unique(n, b + k);
}

/// A number below `2^k` has at most `k` binary digits.
pub proof fn lemma_bit_length_below(n: nat, k: nat)
    requires
        n < pow2(k),
    ensures
        bit_length(n) <= k,
{
    if n > 0 {
        lemma_bit_length_bounds(n);
        if bit_length(n) - 1 > k {
            lemma_pow2_strictly_increases(k, (bit_length(n) - 1) as nat);
        }
    }
}

/// Rounding keeps a positive number between the two powers of two that
/// enclose it: it may reach the upper one, and never falls below the lower.
pub proof fn lemma_rounding_bounds(n: nat)
    requires
        n > 0,
    ensures
        pow2((bit_length(n) - 1) as nat) <= round_to_significand(n) <= pow2(bit_length(n)),
{
    let len = bit_length(n);
    lemma_bit_length_bounds(n);
    if len > SIGNIFICAND_BITS {
        let shift = (len - SIGNIFICAND_BITS) as nat;
        let unit = pow2(shift);
        let quotient = n / unit;
        lemma_pow2_pos(shift);
        lemma_pow2_adds(52, shift);
        lemma_pow2_adds(53, shift);
        lemma_multiply_divide_lt(n as int, unit as int, pow2(53) as int);
        lemma_mul_is_commutative(pow2(52) as int, unit as int);
        lemma_div_is_ordered((pow2(52) * unit) as int, n as int, unit as int);
        lemma_div_by_multiple(pow2(52) as int, unit as int);
        lemma_mul_inequality(pow2(52) as int, quotient as int, unit as int);
        lemma_mul_inequality(quotient as int, quotient as int + 1, unit as int);
        lemma_mul_inequality(quotient as int + 1, pow2(53) as int, unit as int);
    }
}

/// The leading zeros of a 64-bit word are the digits that it lacks.
proof fn lemma_leading_zeros(n: u64)
    ensures
        u64_leading_zeros(n) == 64 - bit_length(n as nat),
    decreases n,
{
    reveal(u64_leading_zeros);
    if n != 0 {
        lemma_leading_zeros(n / 2);
    }
}

/// One, shifted left by `k` places, is `2^k`.
proof fn lemma_one_shifted(k: u128)
    requires
        k < 128,
    ensures
        (1u128 << k) == pow2(k as nat),
    decreases k,
{
    if k == 0 {
        assert(1u128 << 0u128 == 1) by (bit_vector);
        lemma2_to64();
    } else {
        let j = (k - 1) as u128;
        lemma_one_shifted(j);
        assert(1u128 << k == 2 * (1u128 << j)) by (bit_vector)
            requires
                0 < k < 128,
                j == k - 1,
        ;
        lemma_pow2_unfold(k as nat);
    }
}

/// The number of binary digits of a 64-bit word.
pub fn bit_length_u64(n: u64) -> (r: u32)
    ensures
        r == bit_length(n as nat),
        r <= 64,
{
    proof {
        lemma_leading_zeros(n);
    }
    64 - n.leading_zeros()
}

/// The number of binary digits of a 128-bit word.
pub fn bit_length_u128(n: u128) -> (r: u32)
    ensures
        r == bit_length(n as nat),
        r <= 128,
{
    let high: u64 = (n >> 64u128) as u64;
    proof {
        lemma_u128_shr_is_div(n, 64);
        lemma2_to64();
    }
    if high == 0 {
        bit_length_u64(n as u64)
    } else {
        proof {
            lemma_bit_length_of_high_part(n as nat, 64);
        }
        64 + bit_length_u64(high)
    }
}

/// `2^k` as a 128-bit word.
pub fn power_of_two(k: u32) -> (r: u128)
    requires
        k < 128,
    ensures
        r == pow2(k as nat),
{
    proof {
        lemma_one_shifted(k as u128);
    }
    1u128 << (k as u128)
}

/// Rounds `n` to 53 significant bits, ties to even.
pub fn round_to_precision(n: u128) -> (r: u128)
    requires
        n < 0x8000_0000_0000_0000_0000_0000_0000_0000,
    ensures
        r == round_to_significand(n as nat),
{
    let len: u32 = bit_length_u128(n);
    if len <= SIGNIFICAND_BITS {
        return n;
    }
    proof {
        lemma2_to64();
        lemma2_to64_rest();
        lemma_pow2_adds(64, 63);
        lemma_bit_length_bounds(n as nat);
        if len > 127 {
            if len > 128 {
                lemma_pow2_strictly_increases(127, (len - 1) as nat);
            }
        }
    }
    let shift: u32 = len - SIGNIFICAND_BITS;
    let unit: u128 = power_of_two(shift);
    let half: u128 = power_of_two(shift - 1);
    let quotient: u128 = n >> (shift as u128);
    proof {
        lemma_u128_shr_is_div(n, shift as u128);
        lemma_pow2_unfold(shift as nat);
        lemma_pow2_adds(53, shift as nat);
        lemma_multiply_divide_lt(n as int, unit as int, pow2(53) as int);
        lemma_fundamental_div_mod(n as int, unit as int);
        lemma_mod_bound(n as int, unit as int);
        lemma_mul_is_commutative(unit as int, quotient as int);
        lemma_mul_inequality(quotient as int + 1, pow2(53) as int, unit as int);
        lemma_mul_is_distributive_add_other_way(unit as int, quotient as int, 1);
        if len < 127 {
            lemma_pow2_strictly_increases(len as nat, 127);
        }
    }
    let rest: u128 = n - quotient * unit;
    let odd: bool = (quotient as u64) % 2 == 1;
    if rest > half || (rest == half && odd) {
        (quotient + 1) * unit
    } else {
        quotient * unit
    }
}

} // verus!
