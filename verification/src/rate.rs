//! Yearly rates, held as IEEE 754 binary64 bit patterns.
//!
//! A rate is a double-precision number that is never computed with as such
//! here: the library keeps its 64 bits and works out, in whole-number
//! arithmetic, the one thing the model needs of it, the product of a head
//! count and the rate cut down to a whole number of people.
use crate::precision::bit_length;
use crate::precision::lemma_bit_length_bounds;
use crate::precision::lemma_bit_length_unique;
use crate::precision::lemma_bit_length_below;
use crate::precision::lemma_rounding_bounds;
use crate::precision::power_of_two;
use crate::precision::round_to_precision;
use crate::precision::round_to_significand;
use vstd::arithmetic::div_mod::*;
use vstd::arithmetic::mul::*;
use vstd::arithmetic::power2::*;
use vstd::bits::*;
use vstd::prelude::*;

verus! {

/// The sign bit of a binary64 bit pattern.
pub const SIGN_BIT: u64 = 0x8000_0000_0000_0000;

/// The weight of the implicit leading digit of a normal significand, `2^52`;
/// the stored fraction lies below it.
pub const HIDDEN_BIT: u64 = 0x0010_0000_0000_0000;

/// The exponent field of infinities and of values that are not numbers.
pub const SPECIAL_EXPONENT: u64 = 2047;

/// The exponent field less this number is the power of two by which the
/// whole significand is multiplied.
pub const EXPONENT_OFFSET: u64 = 1075;

/// The bit pattern of positive infinity. Above it, sign aside, lie the
/// patterns that stand for no number.
pub const INFINITY: u64 = 0x7ff0_0000_0000_0000;

/// The exponent field of the numbers from one up to, not including, two.
pub const ONE_EXPONENT: u64 = 1023;

/// A yearly rate per head: a binary64 number, held by its bit pattern.
///
/// Rates are compared as the numbers they stand for: zero equals zero
/// whatever the signs, and what is not a number equals nothing, itself
/// included.
#[derive(Clone, Copy, Debug)]
pub struct Rate {
    bits: u64,
}

impl View for Rate {
    type V = u64;

    closed spec fn view(&self) -> u64 {
        self.bits
    }
}

impl PartialEq for Rate {
    fn eq(&self, other: &Rate) -> (equal: bool) {
        let own: u64 = self.bits % SIGN_BIT;
        let others: u64 = other.bits % SIGN_BIT;
        let numbers: bool = own <= INFINITY && others <= INFINITY;
        numbers && (self.bits == other.bits || (own == 0 && others == 0))
    }
}

impl vstd::std_specs::cmp::PartialEqSpecImpl for Rate {
    open spec fn obeys_eq_spec() -> bool {
        true
    }

    open spec fn eq_spec(&self, other: &Rate) -> bool {
        &&& !self.is_nan()
        &&& !other.is_nan()
        &&& (self@ == other@ || (self.is_zero() && other.is_zero()))
    }
}

impl Rate {
    /// Whether the sign bit is set.
    pub open spec fn is_negative(self) -> bool {
        self@ >= SIGN_BIT
    }

    /// The exponent field, between 0 and 2047.
    pub open spec fn biased_exponent(self) -> nat {
        ((self@ % SIGN_BIT) / HIDDEN_BIT) as nat
    }

    /// The fraction field: the low 52 bits.
    pub open spec fn fraction(self) -> nat {
        (self@ % HIDDEN_BIT) as nat
    }

    /// Whether the pattern stands for no number at all.
    pub open spec fn is_nan(self) -> bool {
        self.biased_exponent() == SPECIAL_EXPONENT && self.fraction() != 0
    }

    /// Whether the pattern stands for an infinity.
    pub open spec fn is_infinite(self) -> bool {
        self.biased_exponent() == SPECIAL_EXPONENT && self.fraction() == 0
    }

    /// The whole significand of a finite rate, below `2^53`. A normal number
    /// has the implicit leading digit, a subnormal one has not.
    pub open spec fn significand(self) -> nat {
        if self.biased_exponent() == 0 {
            self.fraction()
        } else {
            (HIDDEN_BIT + self.fraction()) as nat
        }
    }

    /// The power of two by which the significand of a finite rate is
    /// multiplied: its magnitude is `significand() * 2^exponent()`.
    pub open spec fn exponent(self) -> int {
        if self.biased_exponent() == 0 {
            -1074
        } else {
            self.biased_exponent() - EXPONENT_OFFSET
        }
    }

    /// Whether the rate is zero, of either sign.
    pub open spec fn is_zero(self) -> bool {
        self.biased_exponent() == 0 && self.fraction() == 0
    }

    /// Whether the rate is a number, or an infinity, that is at least one.
    pub open spec fn is_one_or_more(self) -> bool {
        !self.is_negative() && !self.is_nan() && self.biased_exponent() >= ONE_EXPONENT
    }

    /// The binary64 product of `count` and a positive finite rate, before
    /// it is cut to a whole number, as a multiple of `2^exponent()`: the
    /// count is rounded to 53 significant bits, as a binary64 holds it, and
    /// so is the product.
    pub open spec fn rounded_product(self, count: u64) -> nat {
        round_to_significand(round_to_significand(count as nat) * self.significand())
    }

    /// The whole part of `rounded_product(count) * 2^exponent()`.
    pub open spec fn whole_product(self, count: u64) -> nat {
        if self.exponent() >= 0 {
            self.rounded_product(count) * pow2(self.exponent() as nat)
        } else {
            self.rounded_product(count) / pow2((-self.exponent()) as nat)
        }
    }

    /// The number of people that the rate makes of `count` people: the
    /// binary64 product of the two, cut toward zero to a whole number and
    /// kept within what a count can hold. A negative product gives none, and
    /// so does one that is not a number.
    pub open spec fn scaled(self, count: u64) -> u64 {
        if count == 0 || self.is_negative() || self.is_nan() {
            0
        } else if self.is_infinite() {
            u64::MAX
        } else if self.whole_product(count) >= u64::MAX {
            u64::MAX
        } else {
            self.whole_product(count) as u64
        }
    }

    /// The rate with the given bit pattern.
    pub fn from_bits(bits: u64) -> (rate: Rate)
        ensures
            rate@ == bits,
    {
        Rate { bits }
    }

    /// The bit pattern of the rate.
    pub fn to_bits(&self) -> (bits: u64)
        ensures
            bits == self@,
    {
        self.bits
    }

    /// Multiplies `count` by the rate and cuts the product to a whole number
    /// of people.
    pub fn scale(&self, count: u64) -> (people: u64)
        ensures
            people == self.scaled(count),
    {
        let magnitude: u64 = self.bits % SIGN_BIT;
        let biased: u64 = magnitude / HIDDEN_BIT;
        let fraction: u64 = magnitude % HIDDEN_BIT;
        if count == 0 || self.bits >= SIGN_BIT {
            return 0;
        }
        if biased == SPECIAL_EXPONENT {
            return if fraction == 0 {
                u64::MAX
            } else {
                0
            };
        }
        let significand: u64 = if biased == 0 {
            fraction
        } else {
            HIDDEN_BIT + fraction
        };
        let product: u128 = rounded_product_of(count, significand);
        proof {
            lemma2_to64();
        }
        if biased >= EXPONENT_OFFSET {
            let up: u64 = biased - EXPONENT_OFFSET;
            assert(self.whole_product(count) == product * pow2(up as nat));
            if product == 0 {
                assert(product * pow2(up as nat) == 0) by {
                    lemma_mul_basics(pow2(up as nat) as int);
                }
                0
            } else if up >= 64 || product > u64::MAX as u128 {
                assert(product * pow2(up as nat) >= u64::MAX) by {
                    lemma_pow2_pos(up as nat);
                    if up > 64 {
                        lemma_pow2_strictly_increases(64, up as nat);
                    }
                    lemma_mul_inequality(1, product as int, pow2(up as nat) as int);
                    lemma_mul_inequality(1, pow2(up as nat) as int, product as int);
                    lemma_mul_is_commutative(product as int, pow2(up as nat) as int);
                }
                u64::MAX
            } else {
                let factor: u128 = power_of_two(up as u32);
                assert(factor < 0x1_0000_0000_0000_0000) by {
                    lemma_pow2_strictly_increases(up as nat, 64);
                }
                assert(product * factor < 0x1_0000_0000_0000_0000_0000_0000_0000_0000)
                    by (nonlinear_arith)
                    requires
                        product < 0x1_0000_0000_0000_0000,
                        factor < 0x1_0000_0000_0000_0000,
                ;
                let whole: u128 = product * factor;
                if whole >= u64::MAX as u128 {
                    u64::MAX
                } else {
                    whole as u64
                }
            }
        } else {
            let down: u64 = if biased == 0 {
                1074
            } else {
                EXPONENT_OFFSET - biased
            };
            assert(self.whole_product(count) == product as nat / pow2(down as nat));
            if down >= 128 {
                assert(product as nat / pow2(down as nat) == 0) by {
                    lemma_pow2_strictly_increases(117, down as nat);
                    lemma_basic_div(product as int, pow2(down as nat) as int);
                }
                0
            } else {
                proof {
                    lemma_u128_shr_is_div(product, down as u128);
                }
                let whole: u128 = product >> (down as u128);
                if whole >= u64::MAX as u128 {
                    u64::MAX
                } else {
                    whole as u64
                }
            }
        }
    }
}

/// The binary64 product of a count and a significand below `2^53`: each
/// of the two, the count and the exact product, rounded to 53 significant
/// bits.
fn rounded_product_of(count: u64, significand: u64) -> (product: u128)
    requires
        significand < 0x20_0000_0000_0000,
    ensures
        product == round_to_significand(round_to_significand(count as nat) * (significand as nat)),
        product <= pow2(117),
{
    proof {
        lemma2_to64();
        lemma_pow2_adds(64, 53);
        lemma_pow2_adds(64, 63);
    }
    let held: u128 = round_to_precision(count as u128);
    assert(held <= 0x1_0000_0000_0000_0000) by {
        lemma_bit_length_below(count as nat, 64);
        if count > 0 {
            lemma_rounding_bounds(count as nat);
            if bit_length(count as nat) < 64 {
                lemma_pow2_strictly_increases(bit_length(count as nat), 64);
            }
        }
    }
    assert(held * significand < 0x20_0000_0000_0000_0000_0000_0000_0000) by (nonlinear_arith)
        requires
            held <= 0x1_0000_0000_0000_0000,
            significand < 0x20_0000_0000_0000,
    ;
    let exact: u128 = held * (significand as u128);
    assert(pow2(117) == 0x20_0000_0000_0000_0000_0000_0000_0000) by {
        lemma2_to64_rest();
    }
    let product: u128 = round_to_precision(exact);
    assert(product <= pow2(117)) by {
        lemma_bit_length_below(exact as nat, 117);
        if exact > 0 {
            lemma_rounding_bounds(exact as nat);
            if bit_length(exact as nat) < 117 {
                lemma_pow2_strictly_increases(bit_length(exact as nat), 117);
            }
        }
    }
    product
}

/// A rate of zero makes nobody of any number of people.
pub proof fn lemma_zero_rate_scales_to_nobody(rate: Rate, count: u64)
    requires
        rate.is_zero(),
    ensures
        rate.scaled(count) == 0,
{
    let held = round_to_significand(count as nat);
    assert(held * rate.significand() == 0) by {
        lemma_mul_basics(held as int);
    }
    assert(bit_length(0) == 0);
    assert(rate.rounded_product(count) == 0);
    assert(rate.whole_product(count) == 0) by {
        lemma_pow2_pos(1074);
        lemma_div_basics_1(pow2(1074) as int);
    }
}

/// The largest count is held by a binary64 as `2^64`.
pub proof fn lemma_largest_count_rounds_up()
    ensures
        round_to_significand(u64::MAX as nat) == pow2(64),
{
    lemma2_to64();
    lemma2_to64_rest();
    lemma_bit_length_unique(u64::MAX as nat, 64);
    assert(pow2(11) == 2048);
    assert(u64::MAX as nat / 2048 == 0x1f_ffff_ffff_ffff);
    assert(u64::MAX as nat % 2048 == 2047);
}

/// A rate of one or more makes of the largest count the largest count.
pub proof fn lemma_rate_of_one_or_more_keeps_the_largest_count(rate: Rate)
    requires
        rate.is_one_or_more(),
    ensures
        rate.scaled(u64::MAX) == u64::MAX,
{
    if !rate.is_infinite() {
        lemma2_to64();
        lemma2_to64_rest();
        lemma_largest_count_rounds_up();
        let significand = rate.significand();
        let exact = pow2(64) * significand;
        lemma_pow2_adds(64, 52);
        assert(exact >= pow2(116)) by {
            lemma_mul_inequality(pow2(52) as int, significand as int, pow2(64) as int);
            lemma_mul_is_commutative(pow2(64) as int, significand as int);
            lemma_mul_is_commutative(pow2(64) as int, pow2(52) as int);
        }
        lemma_pow2_pos(116);
        lemma_bit_length_bounds(exact);
        lemma_rounding_bounds(exact);
        let product = rate.rounded_product(u64::MAX);
        assert(product >= pow2(116)) by {
            if bit_length(exact) <= 116 {
                if bit_length(exact) < 116 {
                    lemma_pow2_strictly_increases(bit_length(exact), 116);
                }
            } else if bit_length(exact) - 1 > 116 {
                lemma_pow2_strictly_increases(116, (bit_length(exact) - 1) as nat);
            }
        }
        lemma_pow2_adds(64, 52);
        if rate.exponent() >= 0 {
            let up = rate.exponent() as nat;
            lemma_pow2_pos(up);
            lemma_mul_inequality(1, pow2(up) as int, product as int);
            lemma_mul_is_commutative(product as int, pow2(up) as int);
            lemma_pow2_strictly_increases(64, 116);
        } else {
            let down = (-rate.exponent()) as nat;
            lemma_pow2_pos(down);
            if down < 52 {
                lemma_pow2_strictly_increases(down, 52);
            }
            lemma_div_is_ordered(pow2(116) as int, product as int, pow2(down) as int);
            lemma_div_is_ordered_by_denominator(
                pow2(116) as int,
                pow2(down) as int,
                pow2(52) as int,
            );
            lemma_div_by_multiple(pow2(64) as int, pow2(52) as int);
        }
    }
}

} // verus!
