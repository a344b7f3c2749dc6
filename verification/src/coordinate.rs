//! Coordinates as IEEE 754 bit patterns, and their order.

use vstd::arithmetic::mul::{lemma_mul_inequality, lemma_mul_strict_inequality};
use vstd::arithmetic::power2::{lemma_pow2_pos, lemma_pow2_strictly_increases, lemma_pow2_unfold, pow2};
use vstd::prelude::*;

verus! {

/// The sign bit of a binary64 pattern.
pub const SIGN_BIT: u64 = 0x8000_0000_0000_0000;

/// The number of fractions that share one exponent.
pub const FRACTIONS: u64 = 0x0010_0000_0000_0000;

/// The pattern of positive infinity.  A larger magnitude is no number.
pub const INFINITE: u64 = 0x7ff0_0000_0000_0000;

/// A longitude or a latitude in degrees: the bit pattern of a binary64 number.
#[derive(Clone, Copy, Debug, PartialEq, Eq, Structural)]
pub struct Coordinate {
    pub bits: u64,
}

impl DeepView for Coordinate {
    type V = Coordinate;

    open spec fn deep_view(&self) -> Coordinate {
        *self
    }
}

/// The distance from zero of the number with this magnitude (its pattern without the sign),
/// counted in the smallest positive number.  Infinity counts as the number that would follow the
/// largest finite one.
pub open spec fn size_of_magnitude(magnitude: int) -> int {
    let exponent = magnitude / FRACTIONS as int;
    let fraction = magnitude % FRACTIONS as int;
    if exponent == 0 {
        fraction
    } else {
        (FRACTIONS + fraction) * pow2((exponent - 1) as nat)
    }
}

impl Coordinate {
    pub open spec fn is_negative(self) -> bool {
        self.bits >= SIGN_BIT
    }

    pub open spec fn magnitude(self) -> int {
        if self.is_negative() {
            self.bits - SIGN_BIT
        } else {
            self.bits as int
        }
    }

    /// Whether the pattern stands for a number, infinities included.
    pub open spec fn is_number(self) -> bool {
        self.magnitude() <= INFINITE
    }

    /// The number that the pattern stands for, counted in the smallest positive number.
    pub open spec fn value(self) -> int {
        if self.is_negative() {
            -size_of_magnitude(self.magnitude())
        } else {
            size_of_magnitude(self.magnitude())
        }
    }

    /// Whether both are numbers and the first is smaller.
    pub open spec fn below(self, other: Coordinate) -> bool {
        self.is_number() && other.is_number() && self.value() < other.value()
    }

    /// Whether both are numbers and the first is not smaller.
    pub open spec fn at_least(self, other: Coordinate) -> bool {
        self.is_number() && other.is_number() && self.value() >= other.value()
    }

    /// The pattern without its sign.
    fn magnitude_bits(self) -> (magnitude: u64)
        ensures
            magnitude == self.magnitude(),
    {
        if self.bits >= SIGN_BIT {
            self.bits - SIGN_BIT
        } else {
            self.bits
        }
    }

    /// Decides `self < other`.
    pub fn is_below(self, other: Coordinate) -> (result: bool)
        ensures
            result == self.below(other),
    {
        let mine: u64 = self.magnitude_bits();
        let theirs: u64 = other.magnitude_bits();
        proof {
            lemma_size_orders_magnitudes(mine as int, theirs as int);
            lemma_size_orders_magnitudes(theirs as int, mine as int);
            lemma_size_orders_magnitudes(0, mine as int);
            lemma_size_orders_magnitudes(0, theirs as int);
        }
        if mine > INFINITE || theirs > INFINITE {
            false
        } else if self.bits >= SIGN_BIT {
            if other.bits >= SIGN_BIT {
                theirs < mine
            } else {
                mine > 0 || theirs > 0
            }
        } else {
            other.bits < SIGN_BIT && mine < theirs
        }
    }

    /// Decides `self >= other`.
    pub fn is_at_least(self, other: Coordinate) -> (result: bool)
        ensures
            result == self.at_least(other),
    {
        if self.magnitude_bits() > INFINITE || other.magnitude_bits() > INFINITE {
            false
        } else {
            !self.is_below(other)
        }
    }
}

/// Magnitudes are ordered as the numbers they stand for.
pub proof fn lemma_size_orders_magnitudes(a: int, b: int)
    requires
        0 <= a,
        0 <= b,
    ensures
        a < b ==> size_of_magnitude(a) < size_of_magnitude(b),
        size_of_magnitude(0) == 0,
{
    if a < b {
        let exponent_a = a / FRACTIONS as int;
        let fraction_a = a % FRACTIONS as int;
        let exponent_b = b / FRACTIONS as int;
        let fraction_b = b % FRACTIONS as int;
        if exponent_b > 0 {
            let unit_b = pow2((exponent_b - 1) as nat) as int;
            lemma_pow2_pos((exponent_b - 1) as nat);
            if exponent_a == exponent_b {
                lemma_mul_strict_inequality(FRACTIONS + fraction_a, FRACTIONS + fraction_b, unit_b);
            } else {
                lemma_mul_inequality(FRACTIONS as int, FRACTIONS + fraction_b, unit_b);
                if exponent_a == 0 {
                    lemma_mul_inequality(1, unit_b, FRACTIONS as int);
                    assert(FRACTIONS * unit_b == unit_b * FRACTIONS) by (nonlinear_arith);
                } else {
                    let unit_a = pow2((exponent_a - 1) as nat) as int;
                    lemma_pow2_pos((exponent_a - 1) as nat);
                    lemma_pow2_unfold(exponent_a as nat);
                    if exponent_a < exponent_b - 1 {
                        lemma_pow2_strictly_increases(exponent_a as nat, (exponent_b - 1) as nat);
                    }
                    lemma_mul_strict_inequality(FRACTIONS + fraction_a, 2 * FRACTIONS, unit_a);
                    assert(2 * FRACTIONS * unit_a <= FRACTIONS * unit_b) by (nonlinear_arith)
                        requires
                            2 * unit_a <= unit_b,
                    ;
                }
            }
        }
    }
}

/// The order of numbers, read off their patterns.  Without a sign bit, the smaller pattern is the
/// smaller number; with one, the larger pattern is.  The two zeros are equal, and what is no number
/// has no place in the order.
pub proof fn law_order_of_patterns(a: Coordinate, b: Coordinate)
    ensures
        a.is_number() <==> a.bits <= 0x7ff0_0000_0000_0000 || 0x8000_0000_0000_0000 <= a.bits
            <= 0xfff0_0000_0000_0000,
        a.below(b) <==> a.is_number() && b.is_number() && if a.bits < 0x8000_0000_0000_0000 {
            a.bits < b.bits < 0x8000_0000_0000_0000
        } else if b.bits < 0x8000_0000_0000_0000 {
            a.bits > 0x8000_0000_0000_0000 || b.bits > 0
        } else {
            b.bits < a.bits
        },
        a.at_least(b) <==> a.is_number() && b.is_number() && !a.below(b),
{
    lemma_size_orders_magnitudes(a.magnitude(), b.magnitude());
    lemma_size_orders_magnitudes(b.magnitude(), a.magnitude());
    lemma_size_orders_magnitudes(0, a.magnitude());
    lemma_size_orders_magnitudes(0, b.magnitude());
}

/// Numbers are in one order: no two are below each other, and where one is below another, a third
/// is above the first or below the second.
pub proof fn law_order_is_total(a: Coordinate, b: Coordinate, c: Coordinate)
    requires
        a.is_number(),
        b.is_number(),
        c.is_number(),
    ensures
        a.below(b) ==> !b.below(a),
        a.below(b) ==> a.below(c) || c.below(b),
        a.at_least(b) || b.at_least(a),
{
}

/// In contracts on lists of coordinates, each coordinate stands for itself.
pub proof fn law_coordinate_stands_for_itself(c: Coordinate)
    ensures
        c.deep_view() == c,
{
}

} // verus!
