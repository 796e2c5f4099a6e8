//! Double-precision numbers, held by their bit pattern.
//!
//! Prices, returns and scores are IEEE 754 doubles.  This library never adds or
//! multiplies them itself; it compares them, ranks them and decides which of
//! them meet in which operation.  So a number is kept as its 64 bits, what the
//! bits stand for is spelled out as an exact integer, and the arithmetic is
//! performed by a function that the caller hands in.
use vstd::arithmetic::power2::{lemma_pow2_adds, lemma_pow2_pos, lemma_pow2_strictly_increases, lemma_pow2_unfold, pow2};
use vstd::prelude::*;

verus! {

/// The bit pattern of an IEEE 754 double.  `==` compares the patterns.
#[derive(Clone, Copy, Debug, PartialEq, Eq, Structural)]
pub struct Double {
    pub bits: u64,
}

/// The sign bit of a double.
pub const SIGN_BIT: u64 = 0x8000_0000_0000_0000;

/// The magnitude of the infinities; every larger magnitude is a NaN.
pub const INFINITY_BITS: u64 = 0x7FF0_0000_0000_0000;

/// One more than the largest fraction field.
pub const FRACTION_SPAN: u64 = 0x10_0000_0000_0000;

/// A quiet NaN.
pub const NAN: u64 = 0x7FF8_0000_0000_0000;

/// 0
pub const ZERO: u64 = 0;

/// 1/2
pub const HALF: u64 = 0x3FE0_0000_0000_0000;

/// -1/2
pub const MINUS_HALF: u64 = 0xBFE0_0000_0000_0000;

/// 1
pub const ONE: u64 = 0x3FF0_0000_0000_0000;

/// 3/2
pub const THREE_HALVES: u64 = 0x3FF8_0000_0000_0000;

/// -3/2
pub const MINUS_THREE_HALVES: u64 = 0xBFF8_0000_0000_0000;

/// 2
pub const TWO: u64 = 0x4000_0000_0000_0000;

/// 100
pub const HUNDRED: u64 = 0x4059_0000_0000_0000;

/// 1000
pub const THOUSAND: u64 = 0x408F_4000_0000_0000;

/// The double next to 10^-10.
pub const TINY: u64 = 0x3DDB_7CDF_D9D7_BDBB;

/// The number with the given pattern.
pub open spec fn double(bits: u64) -> Double {
    Double { bits }
}

/// What a magnitude (a pattern without its sign) stands for, counted in the
/// smallest positive double, 2^-1074.  An infinity counts as the number just
/// past the largest finite double.
pub open spec fn magnitude_units(magnitude: int) -> int {
    let exponent = magnitude / (FRACTION_SPAN as int);
    let fraction = magnitude % (FRACTION_SPAN as int);
    if exponent <= 0 {
        fraction
    } else {
        (FRACTION_SPAN + fraction) * pow2((exponent - 1) as nat)
    }
}

proof fn lemma_magnitude_units_grow(a: int, b: int)
    requires
        0 <= a < b,
    ensures
        0 <= magnitude_units(a) < magnitude_units(b),
{
    let span = FRACTION_SPAN as int;
    let (ea, fa) = (a / span, a % span);
    let (eb, fb) = (b / span, b % span);
    assert(ea <= eb);
    if ea > 0 {
        lemma_pow2_pos((ea - 1) as nat);
        assert(0 <= (span + fa) * pow2((ea - 1) as nat)) by (nonlinear_arith)
            requires span == 0x10_0000_0000_0000, fa >= 0;
    }
    if eb > 0 {
        lemma_pow2_pos((eb - 1) as nat);
        let p = pow2((eb - 1) as nat);
        assert(span <= (span + fb) * p) by (nonlinear_arith)
            requires span == 0x10_0000_0000_0000, fb >= 0, p >= 1;
        if ea > 0 {
            let q = pow2((ea - 1) as nat);
            if ea == eb {
                assert((span + fa) * p < (span + fb) * p) by (nonlinear_arith)
                    requires fa < fb, p >= 1;
            } else {
                lemma_pow2_unfold(ea as nat);
                if ea < eb - 1 {
                    lemma_pow2_strictly_increases(ea as nat, (eb - 1) as nat);
                }
                assert(2 * q <= p);
                assert((span + fa) * q < (span + fb) * p) by (nonlinear_arith)
                    requires 0 <= fa < span, 0 <= fb, q >= 1, 2 * q <= p;
            }
        }
    }
}

impl Double {
    pub open spec fn magnitude(self) -> int {
        if self.bits < SIGN_BIT { self.bits as int } else { self.bits - SIGN_BIT }
    }

    pub open spec fn is_nan(self) -> bool {
        self.magnitude() > INFINITY_BITS
    }

    /// What the pattern stands for, counted in 2^-1074; both zeros count 0.
    /// It has no meaning for a NaN.
    pub open spec fn units(self) -> int {
        if self.bits < SIGN_BIT {
            magnitude_units(self.magnitude())
        } else {
            -magnitude_units(self.magnitude())
        }
    }
}

impl Double {
    /// The place of the pattern in the order of all patterns, NaNs aside.
    spec fn rank(self) -> int {
        if self.bits < SIGN_BIT { self.magnitude() } else { -self.magnitude() }
    }

    fn signed_magnitude(self) -> (r: i64)
        ensures
            r == self.rank(),
    {
        if self.bits < SIGN_BIT {
            self.bits as i64
        } else {
            -((self.bits - SIGN_BIT) as i64)
        }
    }

    /// Whether the number is a NaN.
    pub fn nan(self) -> (r: bool)
        ensures
            r == self.is_nan(),
    {
        let magnitude: u64 = if self.bits < SIGN_BIT { self.bits } else { self.bits - SIGN_BIT };
        magnitude > INFINITY_BITS
    }

    /// `self < other`.
    pub open spec fn below(self, other: Double) -> bool {
        !self.is_nan() && !other.is_nan() && self.units() < other.units()
    }

    /// `self < other`: false as soon as one of them is a NaN.
    pub fn less_than(self, other: Double) -> (r: bool)
        ensures
            r == self.below(other),
    {
        proof {
            lemma_rank_orders_units(self, other);
        }
        !self.nan() && !other.nan() && self.signed_magnitude() < other.signed_magnitude()
    }

    /// `self >= other`.
    pub open spec fn reaches(self, other: Double) -> bool {
        !self.is_nan() && !other.is_nan() && self.units() >= other.units()
    }

    /// `self >= other`: false as soon as one of them is a NaN.
    pub fn at_least(self, other: Double) -> (r: bool)
        ensures
            r == self.reaches(other),
    {
        proof {
            lemma_rank_orders_units(self, other);
        }
        !self.nan() && !other.nan() && self.signed_magnitude() >= other.signed_magnitude()
    }

    /// The number without its sign.
    pub fn abs(self) -> (r: Double)
        ensures
            r == self.absolute(),
    {
        if self.bits < SIGN_BIT { self } else { Double { bits: self.bits - SIGN_BIT } }
    }

    pub open spec fn absolute(self) -> Double {
        Double { bits: self.magnitude() as u64 }
    }
}

proof fn lemma_rank_orders_units(a: Double, b: Double)
    ensures
        a.rank() < b.rank() <==> a.units() < b.units(),
{
    let (ma, mb) = (a.magnitude(), b.magnitude());
    if ma > 0 {
        lemma_magnitude_units_grow(0, ma);
    }
    if mb > 0 {
        lemma_magnitude_units_grow(0, mb);
    }
    if ma < mb {
        lemma_magnitude_units_grow(ma, mb);
    }
    if mb < ma {
        lemma_magnitude_units_grow(mb, ma);
    }
}

/// Of two numbers the one with the smaller magnitude is the one nearer to zero.
pub proof fn patterns_order_magnitudes(a: Double, b: Double)
    ensures
        a.absolute().is_nan() == a.is_nan(),
        a.absolute().units() < b.absolute().units() <==> a.magnitude() < b.magnitude(),
        a.absolute().units() == if a.units() < 0 { -a.units() } else { a.units() },
{
    lemma_rank_orders_units(a.absolute(), b.absolute());
    lemma_rank_orders_units(a, double(ZERO));
    lemma_rank_orders_units(double(ZERO), a);
}

/// The named patterns stand for the numbers they are named after, and TINY for
/// a number that differs from 10^-10 by less than one part in 10^15.
pub proof fn named_numbers()
    ensures
        double(NAN).is_nan(),
        double(ZERO).units() == 0,
        2 * double(HALF).units() == pow2(1074),
        2 * double(MINUS_HALF).units() == -pow2(1074),
        double(ONE).units() == pow2(1074),
        2 * double(THREE_HALVES).units() == 3 * pow2(1074),
        2 * double(MINUS_THREE_HALVES).units() == -3 * pow2(1074),
        double(TWO).units() == 2 * pow2(1074),
        double(HUNDRED).units() == 100 * pow2(1074),
        double(THOUSAND).units() == 1000 * pow2(1074),
        999_999_999_999_999 * pow2(1074) < 10_000_000_000_000_000_000_000_000 * double(TINY).units(),
        10_000_000_000_000_000_000_000_000 * double(TINY).units() < 1_000_000_000_000_001 * pow2(1074),
{
    vstd::arithmetic::power2::lemma2_to64();
    vstd::arithmetic::power2::lemma2_to64_rest();
    let one = pow2(1022);
    lemma_pow2_adds(1022, 52);
    lemma_pow2_unfold(1023);
    lemma_pow2_unfold(1022);
    lemma_pow2_adds(1022, 6);
    lemma_pow2_adds(1022, 9);
    lemma_pow2_adds(988, 34);
    assert(pow2(52) == 0x10_0000_0000_0000);
    assert(pow2(1074) == one * 0x10_0000_0000_0000);
    assert(double(HALF).units() == 0x10_0000_0000_0000 * pow2(1021));
    assert(double(MINUS_HALF).units() == -0x10_0000_0000_0000 * pow2(1021));
    assert(double(ONE).units() == 0x10_0000_0000_0000 * pow2(1022));
    assert(double(THREE_HALVES).units() == 0x18_0000_0000_0000 * pow2(1022));
    assert(double(MINUS_THREE_HALVES).units() == -0x18_0000_0000_0000 * pow2(1022));
    assert(double(TWO).units() == 0x10_0000_0000_0000 * pow2(1023));
    assert(double(HUNDRED).units() == 0x19_0000_0000_0000 * pow2(1028));
    assert(double(THOUSAND).units() == 0x1F_4000_0000_0000 * pow2(1031));
    assert(double(TINY).units() == (0x10_0000_0000_0000 + 0xB_7CDF_D9D7_BDBB) * pow2(988));
    assert(one == pow2(988) * 0x4_0000_0000);
    lemma_pow2_pos(988);
    let unit = pow2(988);
    assert(pow2(1074) == 77_371_252_455_336_267_181_195_264 * unit);
    assert(double(TINY).units() == 7_737_125_245_533_627 * unit);
}

} // verus!
