//! Real numbers in IEEE 754 binary64 format.
//!
//! A [`Real`] holds the 64-bit pattern of a double-precision number. Order and
//! sign are decided here, on the bit pattern. Arithmetic is carried out by the
//! `noisy_float` crate: in contracts the sum of two numbers is a function of
//! their bit patterns that has a name and no definition.
use vstd::prelude::*;
use vstd::arithmetic::power2::pow2;

verus! {

/// Bit that holds the sign of a binary64 number.
pub const SIGN_BIT: u64 = 0x8000_0000_0000_0000;

/// Bit pattern of positive infinity. Larger magnitudes are not numbers.
pub const INFINITY_BITS: u64 = 0x7FF0_0000_0000_0000;

/// Bit pattern of the number one.
pub const ONE_BITS: u64 = 0x3FF0_0000_0000_0000;

/// Bit pattern of the number one half.
pub const HALF_BITS: u64 = 0x3FE0_0000_0000_0000;

/// Bit pattern of the binary64 number nearest to pi.
pub const PI_BITS: u64 = 0x4009_21FB_5444_2D18;

/// Bit pattern of the binary64 number nearest to two pi.
pub const TWO_PI_BITS: u64 = 0x4019_21FB_5444_2D18;

/// Two to the power 52: the number of values that the fraction of a binary64
/// number takes.
pub const FRACTION_STEPS: u64 = 0x10_0000_0000_0000;

/// Two to the power 53: a rounded result is off by at most one part in so
/// many.
pub const ROUNDING_STEPS: u64 = 0x20_0000_0000_0000;

/// The size of an integer.
pub open spec fn size_of(x: int) -> int {
    if x < 0 {
        -x
    } else {
        x
    }
}

/// The integer `r` is `exact` rounded to the nearest binary64 number, both
/// counted in units: it is off by at most one part in two to the power 53,
/// `|r - exact| <= |exact| / 2^53`.
pub open spec fn is_rounded(exact: int, r: int) -> bool {
    ROUNDING_STEPS * size_of(r - exact) <= size_of(exact)
}

/// The number of `r` units is the quotient of the numbers of `a` and of `b`
/// units, where `b` is not zero, rounded to the nearest binary64 number. The
/// exact quotient is `q = a * 2^1074 / b` units, and `r` is off by at most
/// one part in two to the power 53 of it, or by half a unit where the
/// quotient is too small for that: `|r - q| <= |q| / 2^53 + 1/2`. Both sides
/// are multiplied by `2 * |b|`, which leaves integers.
pub open spec fn is_rounded_quotient(a: int, b: int, r: int) -> bool {
    2 * size_of(r * b - a * pow2(1074)) <= size_of(a) * pow2(1022) + size_of(b)
}

/// The binary64 sum of the numbers with bit patterns `a` and `b`.
pub uninterp spec fn sum_bits(a: u64, b: u64) -> u64;

/// The binary64 difference of the numbers with bit patterns `a` and `b`.
pub uninterp spec fn difference_bits(a: u64, b: u64) -> u64;

/// The binary64 product of the numbers with bit patterns `a` and `b`.
pub uninterp spec fn product_bits(a: u64, b: u64) -> u64;

/// The binary64 quotient of the numbers with bit patterns `a` and `b`.
pub uninterp spec fn quotient_bits(a: u64, b: u64) -> u64;

/// The binary64 square root of the number with bit pattern `a`.
pub uninterp spec fn square_root_bits(a: u64) -> u64;

/// The bit pattern of the binary64 number nearest to the count `n`.
pub uninterp spec fn count_bits(n: u64) -> u64;

/// A real number, held as its binary64 bit pattern.
#[derive(Clone, Copy, Debug)]
pub struct Real {
    pub bits: u64,
}

impl Real {
    /// The bit pattern with the sign cleared.
    pub open spec fn magnitude(self) -> int {
        (self.bits % SIGN_BIT) as int
    }

    /// Whether the sign bit is set.
    pub open spec fn sign_set(self) -> bool {
        self.bits >= SIGN_BIT
    }

    /// The pattern stands for a number: it is not a NaN.
    pub open spec fn wf(self) -> bool {
        self.magnitude() <= INFINITY_BITS
    }

    /// The pattern stands for a number that is not infinite.
    pub open spec fn is_finite(self) -> bool {
        self.magnitude() < INFINITY_BITS
    }

    /// The exact value of a finite number, counted in units of the smallest
    /// positive number, two to the power -1074. A pattern holds an exponent
    /// and a fraction of 52 digits; with the exponent zero the value is the
    /// fraction, else it is two to the power 52 plus the fraction, doubled
    /// once for each step of the exponent above one.
    pub open spec fn units(self) -> int {
        let exponent = self.magnitude() / (FRACTION_STEPS as int);
        let fraction = self.magnitude() % (FRACTION_STEPS as int);
        let size = if exponent == 0 {
            fraction
        } else {
            (FRACTION_STEPS + fraction) * pow2((exponent - 1) as nat)
        };
        if self.sign_set() {
            -size
        } else {
            size
        }
    }

    /// An integer that orders numbers as their values do: `a < b` as numbers
    /// exactly when `a.key() < b.key()`. Both zeros have key 0.
    pub open spec fn key(self) -> int {
        if self.sign_set() {
            -self.magnitude()
        } else {
            self.magnitude()
        }
    }

    /// Adding `self` and `other` gives a number: they are not infinities of
    /// opposite sign.
    pub open spec fn can_add(self, other: Real) -> bool {
        &&& self.wf()
        &&& other.wf()
        &&& (self.is_finite() || other.is_finite() || self.sign_set() == other.sign_set())
    }

    /// Subtracting `other` from `self` gives a number: they are not infinities
    /// of the same sign.
    pub open spec fn can_sub(self, other: Real) -> bool {
        &&& self.wf()
        &&& other.wf()
        &&& (self.is_finite() || other.is_finite() || self.sign_set() != other.sign_set())
    }

    /// Multiplying `self` by `other` gives a number: neither is zero while
    /// the other is infinite.
    pub open spec fn can_mul(self, other: Real) -> bool {
        &&& self.wf()
        &&& other.wf()
        &&& (self.key() == 0 ==> other.is_finite())
        &&& (other.key() == 0 ==> self.is_finite())
    }

    /// Dividing `self` by `other` gives a number: they are not both zero and
    /// not both infinite.
    pub open spec fn can_div(self, other: Real) -> bool {
        &&& self.wf()
        &&& other.wf()
        &&& (self.key() != 0 || other.key() != 0)
        &&& (self.is_finite() || other.is_finite())
    }

    /// The sum `self + other`, rounded to binary64.
    pub open spec fn spec_add(self, other: Real) -> Real {
        Real { bits: sum_bits(self.bits, other.bits) }
    }

    /// The difference `self - other`, rounded to binary64.
    pub open spec fn spec_sub(self, other: Real) -> Real {
        Real { bits: difference_bits(self.bits, other.bits) }
    }

    /// The product `self * other`, rounded to binary64.
    pub open spec fn spec_mul(self, other: Real) -> Real {
        Real { bits: product_bits(self.bits, other.bits) }
    }

    /// The quotient `self / other`, rounded to binary64.
    pub open spec fn spec_div(self, other: Real) -> Real {
        Real { bits: quotient_bits(self.bits, other.bits) }
    }

    /// The square root, rounded to binary64.
    pub open spec fn spec_sqrt(self) -> Real {
        Real { bits: square_root_bits(self.bits) }
    }

    /// The number nearest to the count `n`.
    pub open spec fn spec_from_count(n: usize) -> Real {
        Real { bits: count_bits(n as u64) }
    }

    /// The number nearest to the count `n`.
    pub open spec fn spec_from_u64(n: u64) -> Real {
        Real { bits: count_bits(n) }
    }

    /// Positive zero.
    pub open spec fn spec_zero() -> Real {
        Real { bits: 0 }
    }

    /// The number one.
    pub open spec fn spec_one() -> Real {
        Real { bits: ONE_BITS }
    }

    /// The absolute value: the number with the sign cleared.
    pub open spec fn spec_abs(self) -> Real {
        Real { bits: self.bits % SIGN_BIT }
    }

    /// The number with the opposite sign.
    pub open spec fn spec_neg(self) -> Real {
        Real { bits: if self.bits >= SIGN_BIT { (self.bits - SIGN_BIT) as u64 } else { (self.bits + SIGN_BIT) as u64 } }
    }

    /// The number with the given bit pattern, unless the pattern is a NaN.
    pub fn from_bits(bits: u64) -> (r: Option<Real>)
        ensures
            r == if (Real { bits }).wf() { Some(Real { bits }) } else { None },
    {
        if bits % SIGN_BIT <= INFINITY_BITS {
            Some(Real { bits })
        } else {
            None
        }
    }

    /// The bit pattern of the number.
    pub fn to_bits(self) -> (r: u64)
        ensures
            r == self.bits,
    {
        self.bits
    }

    /// Positive zero.
    pub fn zero() -> (r: Real)
        ensures
            r == Real::spec_zero(),
            r.is_finite(),
            r.key() == 0,
    {
        Real { bits: 0 }
    }

    /// The number one.
    pub fn one() -> (r: Real)
        ensures
            r == Real::spec_one(),
            r.is_finite(),
            r.key() > 0,
    {
        Real { bits: ONE_BITS }
    }

    /// The ordering key as a machine integer.
    pub fn sort_key(self) -> (k: i64)
        ensures
            k == self.key(),
    {
        if self.bits >= SIGN_BIT {
            let m: u64 = self.bits - SIGN_BIT;
            -(m as i64)
        } else {
            self.bits as i64
        }
    }

    /// `self < other` as numbers.
    pub fn lt(self, other: Real) -> (r: bool)
        ensures
            r == (self.key() < other.key()),
    {
        self.sort_key() < other.sort_key()
    }

    /// `self <= other` as numbers.
    pub fn le(self, other: Real) -> (r: bool)
        ensures
            r == (self.key() <= other.key()),
    {
        self.sort_key() <= other.sort_key()
    }

    /// `self == other` as numbers; the two zeros are equal.
    pub fn same(self, other: Real) -> (r: bool)
        ensures
            r == (self.key() == other.key()),
    {
        self.sort_key() == other.sort_key()
    }

    /// `self < 0`.
    pub fn is_negative(self) -> (r: bool)
        ensures
            r == (self.key() < 0),
    {
        self.sort_key() < 0
    }

    /// `self == 0`, for either zero.
    pub fn is_zero(self) -> (r: bool)
        ensures
            r == (self.key() == 0),
    {
        self.bits % SIGN_BIT == 0
    }

    /// Whether the number is not infinite.
    pub fn finite(self) -> (r: bool)
        ensures
            r == self.is_finite(),
    {
        self.bits % SIGN_BIT < INFINITY_BITS
    }

    /// The absolute value.
    pub fn abs(self) -> (r: Real)
        ensures
            r == self.spec_abs(),
            r.key() == if self.key() < 0 { -self.key() } else { self.key() },
            r.magnitude() == self.magnitude(),
    {
        Real { bits: self.bits % SIGN_BIT }
    }

    /// The number with the opposite sign.
    pub fn neg(self) -> (r: Real)
        ensures
            r == self.spec_neg(),
            r.key() == -self.key(),
            r.magnitude() == self.magnitude(),
    {
        if self.bits >= SIGN_BIT {
            Real { bits: self.bits - SIGN_BIT }
        } else {
            Real { bits: self.bits + SIGN_BIT }
        }
    }

    /// The sum `self + other`, rounded to binary64.
    pub fn add(self, other: Real) -> (r: Real)
        requires
            self.can_add(other),
        ensures
            r == self.spec_add(other),
            r.wf(),
            self.key() >= 0 && other.key() >= 0 ==> r.key() >= 0,
            self.key() == 0 && other.key() == 0 ==> r.key() == 0,
            r.is_finite() ==> self.is_finite() && other.is_finite(),
            r.is_finite() ==> is_rounded(self.units() + other.units(), r.units()),
    {
        Real { bits: add_bits(self.bits, other.bits) }
    }

    /// The difference `self - other`, rounded to binary64.
    pub fn sub(self, other: Real) -> (r: Real)
        requires
            self.can_sub(other),
        ensures
            r == self.spec_sub(other),
            r.wf(),
            self.key() >= other.key() ==> r.key() >= 0,
            self.key() == other.key() && self.is_finite() ==> r.key() == 0,
    {
        Real { bits: sub_bits(self.bits, other.bits) }
    }

    /// The product `self * other`, rounded to binary64.
    pub fn mul(self, other: Real) -> (r: Real)
        requires
            self.can_mul(other),
        ensures
            r == self.spec_mul(other),
            r.wf(),
            self.key() >= 0 && other.key() >= 0 ==> r.key() >= 0,
            self.sign_set() == other.sign_set() ==> r.key() >= 0,
            self.key() == 0 || other.key() == 0 ==> r.key() == 0,
            self.magnitude() <= ONE_BITS && other.is_finite() ==> r.is_finite(),
    {
        Real { bits: mul_bits(self.bits, other.bits) }
    }

    /// The quotient `self / other`, rounded to binary64.
    pub fn div(self, other: Real) -> (r: Real)
        requires
            self.can_div(other),
        ensures
            r == self.spec_div(other),
            r.wf(),
            other.key() > 0 && self.key() >= 0 ==> r.key() >= 0,
            self.is_finite() && other.is_finite() && other.key() != 0 && r.is_finite() ==> is_rounded_quotient(
                self.units(),
                other.units(),
                r.units(),
            ),
    {
        Real { bits: div_bits(self.bits, other.bits) }
    }

    /// The square root of a number that is not negative.
    pub fn sqrt(self) -> (r: Real)
        requires
            self.wf(),
            self.key() >= 0,
        ensures
            r == self.spec_sqrt(),
            r.wf(),
            r.key() >= 0,
            self.key() == 0 ==> r.key() == 0,
    {
        Real { bits: sqrt_bits(self.bits) }
    }

    /// The natural logarithm of a number that is not negative. The logarithm
    /// of zero is negative infinity. The last digits of the result may differ
    /// from one machine to another.
    pub fn ln(self) -> (r: Real)
        requires
            self.wf(),
            self.key() >= 0,
        ensures
            is_logarithm(self, r),
    {
        Real { bits: ln_bits(self.bits) }
    }

    /// The angle of the point `(x, self)` against the positive x axis, between
    /// minus pi and pi and on the side of `self`. The last digits of the result
    /// may differ from one machine to another.
    pub fn atan2(self, x: Real) -> (r: Real)
        requires
            self.wf(),
            x.wf(),
        ensures
            is_angle(self, x, r),
    {
        Real { bits: atan2_bits(self.bits, x.bits) }
    }

    /// The number nearest to the count `n`.
    pub fn from_count(n: usize) -> (r: Real)
        ensures
            r == Real::spec_from_count(n),
            r.is_finite(),
            r.key() >= 0,
            n > 0 ==> r.key() > 0,
            n <= ROUNDING_STEPS ==> r.units() == n * pow2(1074),
    {
        Real { bits: bits_of_count(n as u64) }
    }

    /// The number nearest to the count `n`.
    pub fn from_u64(n: u64) -> (r: Real)
        ensures
            r == Real::spec_from_u64(n),
            r.is_finite(),
            r.key() >= 0,
            n > 0 ==> r.key() > 0,
            n <= ROUNDING_STEPS ==> r.units() == n * pow2(1074),
    {
        Real { bits: bits_of_count(n) }
    }
}

/// Bit pattern of negative infinity.
pub const NEG_INFINITY_BITS: u64 = 0xFFF0_0000_0000_0000;

/// What holds of the natural logarithm `r` of the number `x` on every
/// machine: it is a number, it is negative infinity if `x` is zero, and it
/// is finite if `x` is finite and positive.
pub open spec fn is_logarithm(x: Real, r: Real) -> bool {
    &&& r.wf()
    &&& x.key() == 0 ==> r.bits == NEG_INFINITY_BITS
    &&& x.is_finite() && x.key() > 0 ==> r.is_finite()
}

/// What holds of the angle `r` of the point `(x, y)` against the positive x
/// axis on every machine. It lies between minus pi and pi. It is not negative
/// if `y` is positive, and not positive if `y` is negative. Where `x` is
/// negative, it is a right angle or more, and so not zero unless `y` is.
pub open spec fn is_angle(y: Real, x: Real, r: Real) -> bool {
    &&& r.magnitude() <= PI_BITS
    &&& y.key() > 0 ==> r.key() >= 0
    &&& y.key() < 0 ==> r.key() <= 0
    &&& x.key() < 0 && y.key() > 0 ==> r.key() > 0
    &&& x.key() < 0 && y.key() < 0 ==> r.key() < 0
}

/// Calls `noisy_float`'s `+` on `N64`, which adds the two binary64 values and
/// panics on a NaN result only. The sum of two numbers is a NaN only for
/// infinities of opposite sign. The sum of two numbers that are not negative
/// is not negative, and the sum of two zeros is zero. A sum with an infinity
/// is infinite. A finite sum is the exact sum rounded to the nearest
/// binary64 number.
#[verifier::external_body]
fn add_bits(a: u64, b: u64) -> (r: u64)
    requires
        (Real { bits: a }).can_add(Real { bits: b }),
    ensures
        r == sum_bits(a, b),
        (Real { bits: r }).wf(),
        (Real { bits: a }).key() >= 0 && (Real { bits: b }).key() >= 0 ==> (Real { bits: r }).key() >= 0,
        (Real { bits: a }).key() == 0 && (Real { bits: b }).key() == 0 ==> (Real { bits: r }).key() == 0,
        (Real { bits: r }).is_finite() ==> (Real { bits: a }).is_finite() && (Real { bits: b }).is_finite(),
        (Real { bits: r }).is_finite() ==> is_rounded(
            (Real { bits: a }).units() + (Real { bits: b }).units(),
            (Real { bits: r }).units(),
        ),
{
    let x = noisy_float::types::n64(num_traits::FromBytes::from_be_bytes(&a.to_be_bytes()));
    let y = noisy_float::types::n64(num_traits::FromBytes::from_be_bytes(&b.to_be_bytes()));
    u64::from_be_bytes(num_traits::ToBytes::to_be_bytes(&(x + y).raw()))
}

/// Calls `noisy_float`'s `-` on `N64`, which subtracts the two binary64 values
/// and panics on a NaN result only. The difference of two numbers is a NaN
/// only for infinities of the same sign. Subtracting a number from one that
/// is not smaller gives a number that is not negative, and subtracting a
/// finite number from an equal one gives zero.
#[verifier::external_body]
fn sub_bits(a: u64, b: u64) -> (r: u64)
    requires
        (Real { bits: a }).can_sub(Real { bits: b }),
    ensures
        r == difference_bits(a, b),
        (Real { bits: r }).wf(),
        (Real { bits: a }).key() >= (Real { bits: b }).key() ==> (Real { bits: r }).key() >= 0,
        (Real { bits: a }).key() == (Real { bits: b }).key() && (Real { bits: a }).is_finite() ==> (Real { bits: r }).key()
            == 0,
{
    let x = noisy_float::types::n64(num_traits::FromBytes::from_be_bytes(&a.to_be_bytes()));
    let y = noisy_float::types::n64(num_traits::FromBytes::from_be_bytes(&b.to_be_bytes()));
    u64::from_be_bytes(num_traits::ToBytes::to_be_bytes(&(x - y).raw()))
}

/// Calls `noisy_float`'s `*` on `N64`, which multiplies the two binary64
/// values and panics on a NaN result only. The product of two numbers is a
/// NaN only for zero times infinity. The product of two numbers that are not
/// negative, or that have the same sign, is not negative, and a product with
/// zero is zero. The product of a number between minus one and one with a
/// finite number is finite.
#[verifier::external_body]
fn mul_bits(a: u64, b: u64) -> (r: u64)
    requires
        (Real { bits: a }).can_mul(Real { bits: b }),
    ensures
        r == product_bits(a, b),
        (Real { bits: r }).wf(),
        (Real { bits: a }).key() >= 0 && (Real { bits: b }).key() >= 0 ==> (Real { bits: r }).key() >= 0,
        (Real { bits: a }).sign_set() == (Real { bits: b }).sign_set() ==> (Real { bits: r }).key() >= 0,
        (Real { bits: a }).key() == 0 || (Real { bits: b }).key() == 0 ==> (Real { bits: r }).key() == 0,
        (Real { bits: a }).magnitude() <= ONE_BITS && (Real { bits: b }).is_finite() ==> (Real { bits: r }).is_finite(),
{
    let x = noisy_float::types::n64(num_traits::FromBytes::from_be_bytes(&a.to_be_bytes()));
    let y = noisy_float::types::n64(num_traits::FromBytes::from_be_bytes(&b.to_be_bytes()));
    u64::from_be_bytes(num_traits::ToBytes::to_be_bytes(&(x * y).raw()))
}

/// Calls `noisy_float`'s `/` on `N64`, which divides the two binary64 values
/// and panics on a NaN result only. The quotient of two numbers is a NaN only
/// for zero by zero and infinity by infinity. A number that is not negative,
/// divided by a positive number, gives a number that is not negative. A
/// finite quotient of finite numbers is the exact quotient rounded to the
/// nearest binary64 number.
#[verifier::external_body]
fn div_bits(a: u64, b: u64) -> (r: u64)
    requires
        (Real { bits: a }).can_div(Real { bits: b }),
    ensures
        r == quotient_bits(a, b),
        (Real { bits: r }).wf(),
        (Real { bits: b }).key() > 0 && (Real { bits: a }).key() >= 0 ==> (Real { bits: r }).key() >= 0,
        (Real { bits: a }).is_finite() && (Real { bits: b }).is_finite() && (Real { bits: b }).key() != 0 && (Real {
            bits: r,
        }).is_finite() ==> is_rounded_quotient(
            (Real { bits: a }).units(),
            (Real { bits: b }).units(),
            (Real { bits: r }).units(),
        ),
{
    let x = noisy_float::types::n64(num_traits::FromBytes::from_be_bytes(&a.to_be_bytes()));
    let y = noisy_float::types::n64(num_traits::FromBytes::from_be_bytes(&b.to_be_bytes()));
    u64::from_be_bytes(num_traits::ToBytes::to_be_bytes(&(x / y).raw()))
}

/// Calls `noisy_float`'s `sqrt` on `N64`, which takes the binary64 square root
/// and panics on a NaN result only. The root of a number that is not negative
/// is a number that is not negative, and the root of zero is zero.
#[verifier::external_body]
fn sqrt_bits(a: u64) -> (r: u64)
    requires
        (Real { bits: a }).wf(),
        (Real { bits: a }).key() >= 0,
    ensures
        r == square_root_bits(a),
        (Real { bits: r }).wf(),
        (Real { bits: r }).key() >= 0,
        (Real { bits: a }).key() == 0 ==> (Real { bits: r }).key() == 0,
{
    let x = noisy_float::types::n64(num_traits::FromBytes::from_be_bytes(&a.to_be_bytes()));
    u64::from_be_bytes(num_traits::ToBytes::to_be_bytes(&num_traits::Float::sqrt(x).raw()))
}

/// Calls `noisy_float`'s `ln` on `N64`, which takes the natural logarithm of
/// the binary64 value and panics on a NaN result only. The logarithm of a
/// number that is not negative is a number, and the logarithm of zero is
/// negative infinity. The logarithm of a finite positive number is finite:
/// it lies between -745 and 710, whatever its last digits.
#[verifier::external_body]
fn ln_bits(a: u64) -> (r: u64)
    requires
        (Real { bits: a }).wf(),
        (Real { bits: a }).key() >= 0,
    ensures
        (Real { bits: r }).wf(),
        (Real { bits: a }).key() == 0 ==> r == NEG_INFINITY_BITS,
        (Real { bits: a }).is_finite() && (Real { bits: a }).key() > 0 ==> (Real { bits: r }).is_finite(),
{
    let x = noisy_float::types::n64(num_traits::FromBytes::from_be_bytes(&a.to_be_bytes()));
    u64::from_be_bytes(num_traits::ToBytes::to_be_bytes(&num_traits::Float::ln(x).raw()))
}

/// Calls `noisy_float`'s `atan2` on `N64`, which computes the four-quadrant
/// arctangent of the two binary64 values: an angle between minus pi and pi.
/// For a positive `y` the angle is between zero and pi, for a negative `y`
/// between minus pi and zero. For a negative `x` it is a right angle or more,
/// and so not zero: positive for a positive `y`, negative for a negative `y`.
#[verifier::external_body]
fn atan2_bits(y: u64, x: u64) -> (r: u64)
    requires
        (Real { bits: y }).wf(),
        (Real { bits: x }).wf(),
    ensures
        (Real { bits: r }).magnitude() <= PI_BITS,
        (Real { bits: y }).key() > 0 ==> (Real { bits: r }).key() >= 0,
        (Real { bits: y }).key() < 0 ==> (Real { bits: r }).key() <= 0,
        (Real { bits: x }).key() < 0 && (Real { bits: y }).key() > 0 ==> (Real { bits: r }).key() > 0,
        (Real { bits: x }).key() < 0 && (Real { bits: y }).key() < 0 ==> (Real { bits: r }).key() < 0,
{
    let a = noisy_float::types::n64(num_traits::FromBytes::from_be_bytes(&y.to_be_bytes()));
    let b = noisy_float::types::n64(num_traits::FromBytes::from_be_bytes(&x.to_be_bytes()));
    u64::from_be_bytes(num_traits::ToBytes::to_be_bytes(&num_traits::Float::atan2(a, b).raw()))
}

/// Calls `num_traits::FromPrimitive::from_u64` for `noisy_float`'s `N64`,
/// which converts the count to the nearest binary64 value: a finite number
/// that is not negative, and positive for a positive count. A count up to
/// two to the power 53 is converted exactly.
#[verifier::external_body]
fn bits_of_count(n: u64) -> (r: u64)
    ensures
        r == count_bits(n),
        (Real { bits: r }).is_finite(),
        (Real { bits: r }).key() >= 0,
        n > 0 ==> (Real { bits: r }).key() > 0,
        n <= ROUNDING_STEPS ==> (Real { bits: r }).units() == n * pow2(1074),
{
    let x: Option<noisy_float::types::N64> = num_traits::FromPrimitive::from_u64(n);
    u64::from_be_bytes(num_traits::ToBytes::to_be_bytes(&x.unwrap().raw()))
}

} // verus!
