use vstd::prelude::*;

verus! {

/// How many units make up the value one.
pub const SCALE: i64 = 1_000_000_000;

/// The value `v` forced into the range of an `i64`.
pub open spec fn clamp(v: int) -> int {
    if v < i64::MIN as int {
        i64::MIN as int
    } else if v > i64::MAX as int {
        i64::MAX as int
    } else {
        v
    }
}

/// The quotient of `a` by a positive `b`, rounded towards zero.
pub open spec fn trunc_div(a: int, b: int) -> int
    recommends
        b > 0,
{
    if a >= 0 {
        a / b
    } else {
        -((-a) / b)
    }
}

/// The absolute value of `v`.
pub open spec fn magnitude(v: int) -> int {
    if v >= 0 {
        v
    } else {
        -v
    }
}

/// The product of two fixed-point values, as a fixed-point value.
pub open spec fn fixed_mul(a: int, b: int) -> int {
    trunc_div(a * b, SCALE as int)
}

/// A signed fixed-point number with nine decimal places.
///
/// The value it stands for is `units / SCALE`. Its view is the number of
/// units.
#[derive(Clone, Copy, Debug, PartialEq, Eq, Structural, Hash)]
pub struct PseudoFloat {
    /// The value in billionths.
    pub units: i64,
}

impl View for PseudoFloat {
    type V = int;

    open spec fn view(&self) -> int {
        self.units as int
    }
}

/// Rounds `a / b` towards zero.
pub fn div_toward_zero(a: i128, b: i128) -> (q: i128)
    requires
        b > 0,
        a > i128::MIN,
    ensures
        q == trunc_div(a as int, b as int),
        magnitude(q as int) <= magnitude(a as int),
{
    if a >= 0 {
        let q: i128 = a / b;
        assert(0 <= a as int / b as int <= a) by (nonlinear_arith)
            requires
                a >= 0,
                b > 0,
        ;
        q
    } else {
        let n: i128 = -a;
        let q: i128 = n / b;
        assert(0 <= n as int / b as int <= n) by (nonlinear_arith)
            requires
                n >= 0,
                b > 0,
        ;
        -q
    }
}

/// Forces a wide value into the range of an `i64`.
pub fn saturate(v: i128) -> (r: i64)
    ensures
        r == clamp(v as int),
{
    if v < i64::MIN as i128 {
        i64::MIN
    } else if v > i64::MAX as i128 {
        i64::MAX
    } else {
        v as i64
    }
}

impl PseudoFloat {
    /// The number that is `units` billionths.
    pub fn new(units: i64) -> (r: Self)
        ensures
            r@ == units,
    {
        PseudoFloat { units }
    }

    /// Zero.
    pub fn zero() -> (r: Self)
        ensures
            r@ == 0,
    {
        PseudoFloat { units: 0 }
    }

    /// One.
    pub fn one() -> (r: Self)
        ensures
            r@ == SCALE,
    {
        PseudoFloat { units: SCALE }
    }

    /// The whole number `n`.
    pub fn from_int(n: i32) -> (r: Self)
        ensures
            r@ == n * SCALE,
    {
        let wide: i64 = n as i64;
        assert(wide * SCALE == n * 1_000_000_000);
        PseudoFloat { units: wide * SCALE }
    }

    /// The fraction `num / den`, rounded towards zero.
    pub fn from_ratio(num: i64, den: i64) -> (r: Self)
        requires
            den > 0,
        ensures
            r@ == clamp(trunc_div(num * SCALE, den as int)),
    {
        proof {
            lemma_product_fits(num as int, SCALE as int);
        }
        let wide: i128 = num as i128 * SCALE as i128;
        PseudoFloat { units: saturate(div_toward_zero(wide, den as i128)) }
    }

    /// Reads the number back: the number of billionths.
    pub fn parse(&self) -> (r: i64)
        ensures
            r == self@,
    {
        self.units
    }

    /// The sum, held at the ends of the range.
    pub fn add(self, other: PseudoFloat) -> (r: Self)
        ensures
            r@ == clamp(self@ + other@),
    {
        PseudoFloat { units: saturate(self.units as i128 + other.units as i128) }
    }

    /// The difference, held at the ends of the range.
    pub fn sub(self, other: PseudoFloat) -> (r: Self)
        ensures
            r@ == clamp(self@ - other@),
    {
        PseudoFloat { units: saturate(self.units as i128 - other.units as i128) }
    }

    /// The distance between two numbers, in units.
    pub fn abs_diff(self, other: PseudoFloat) -> (r: u64)
        ensures
            r == magnitude(self@ - other@),
    {
        if self.units >= other.units {
            (self.units as i128 - other.units as i128) as u64
        } else {
            (other.units as i128 - self.units as i128) as u64
        }
    }

    /// The product, rounded towards zero and held at the ends of the range.
    pub fn mul(self, other: PseudoFloat) -> (r: Self)
        ensures
            r@ == clamp(fixed_mul(self@, other@)),
    {
        let a: i128 = self.units as i128;
        let b: i128 = other.units as i128;
        proof {
            lemma_product_fits(a as int, b as int);
        }
        let wide: i128 = a * b;
        PseudoFloat { units: saturate(div_toward_zero(wide, SCALE as i128)) }
    }

    /// The mean of the two numbers, rounded towards zero.
    pub fn midpoint(self, other: PseudoFloat) -> (r: Self)
        ensures
            r@ == trunc_div(self@ + other@, 2),
    {
        let wide: i128 = self.units as i128 + other.units as i128;
        let half: i128 = div_toward_zero(wide, 2);
        PseudoFloat { units: half as i64 }
    }

    /// Whether this number is below the other.
    pub fn lt(self, other: PseudoFloat) -> (r: bool)
        ensures
            r == (self@ < other@),
    {
        self.units < other.units
    }

    /// Whether this number is above the other.
    pub fn gt(self, other: PseudoFloat) -> (r: bool)
        ensures
            r == (self@ > other@),
    {
        self.units > other.units
    }
}

/// The product of two values in the range of an `i64` fits in an `i128`.
pub proof fn lemma_product_fits(a: int, b: int)
    requires
        i64::MIN <= a <= i64::MAX,
        i64::MIN <= b <= i64::MAX,
    ensures
        -0x4000_0000_0000_0000_0000_0000_0000_0000 <= a * b
            <= 0x4000_0000_0000_0000_0000_0000_0000_0000,
{
    assert(a * b <= 0x4000_0000_0000_0000_0000_0000_0000_0000) by (nonlinear_arith)
        requires
            -0x8000_0000_0000_0000 <= a <= 0x7fff_ffff_ffff_ffff,
            -0x8000_0000_0000_0000 <= b <= 0x7fff_ffff_ffff_ffff,
    ;
    assert(a * b >= -0x4000_0000_0000_0000_0000_0000_0000_0000) by (nonlinear_arith)
        requires
            -0x8000_0000_0000_0000 <= a <= 0x7fff_ffff_ffff_ffff,
            -0x8000_0000_0000_0000 <= b <= 0x7fff_ffff_ffff_ffff,
    ;
}

} // verus!
