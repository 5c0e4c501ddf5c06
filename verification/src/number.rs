//! Numbers of the value model: machine integers and binary64 values.
//!
//! A binary64 value is carried as its IEEE 754 bit pattern. Everything that
//! only inspects a value (classification, ordering) is done here on the bits.
//! Everything that rounds (arithmetic, conversion, parsing, printing) is left
//! to a [`FloatArith`] supplied by the caller.

use vstd::prelude::*;
use vstd::arithmetic::power2::{lemma2_to64, lemma2_to64_rest, lemma_pow2_adds, lemma_pow2_pos, lemma_pow2_strictly_increases, pow2};
use vstd::bits::lemma_u64_shl_is_mul;

verus! {

/// The sign bit of a binary64 pattern.
pub const SIGN_BIT: u64 = 0x8000_0000_0000_0000;

/// The weight of the implicit leading bit of a normal significand, `2^52`.
pub const HIDDEN_BIT: u64 = 0x0010_0000_0000_0000;

/// The pattern of positive infinity; every larger magnitude is a NaN.
pub const INFINITY_BITS: u64 = 0x7ff0_0000_0000_0000;

/// The pattern of the binary64 value two.
pub const TWO_BITS: u64 = 0x4000_0000_0000_0000;

/// The outcome of comparing two values.
#[derive(Clone, Copy, Debug, PartialEq, Eq, Structural)]
pub enum Comparison {
    Less,
    Equal,
    Greater,
}

/// How two integers compare.
pub open spec fn comparison_of(a: int, b: int) -> Comparison {
    if a < b {
        Comparison::Less
    } else if a == b {
        Comparison::Equal
    } else {
        Comparison::Greater
    }
}

impl Comparison {
    /// The comparison with its two sides exchanged.
    pub open spec fn flipped(self) -> Comparison {
        match self {
            Comparison::Less => Comparison::Greater,
            Comparison::Equal => Comparison::Equal,
            Comparison::Greater => Comparison::Less,
        }
    }

    pub fn flip(self) -> (r: Comparison)
        ensures
            r == self.flipped(),
    {
        match self {
            Comparison::Less => Comparison::Greater,
            Comparison::Equal => Comparison::Equal,
            Comparison::Greater => Comparison::Less,
        }
    }
}

/// A binary64 value, held as its bit pattern.
#[derive(Clone, Copy, Debug, PartialEq, Eq, Structural)]
pub struct Float {
    pub bits: u64,
}

impl Float {
    /// The pattern without its sign bit.
    pub open spec fn magnitude(self) -> nat {
        (self.bits % SIGN_BIT) as nat
    }

    pub open spec fn spec_is_negative(self) -> bool {
        self.bits >= SIGN_BIT
    }

    pub open spec fn spec_is_nan(self) -> bool {
        self.magnitude() > INFINITY_BITS
    }

    /// Positive or negative zero.
    pub open spec fn spec_is_zero(self) -> bool {
        self.magnitude() == 0
    }

    pub open spec fn spec_is_infinite(self) -> bool {
        self.magnitude() == INFINITY_BITS
    }

    /// The biased exponent field, from 0 to 2047.
    pub open spec fn exponent(self) -> nat {
        self.magnitude() / (HIDDEN_BIT as nat)
    }

    /// The 52 stored bits of the significand.
    pub open spec fn fraction(self) -> nat {
        self.magnitude() % (HIDDEN_BIT as nat)
    }

    /// The significand as an integer: the fraction, with the implicit bit
    /// unless the value is zero or subnormal.
    pub open spec fn significand(self) -> nat {
        if self.exponent() == 0 {
            self.fraction()
        } else {
            self.fraction() + HIDDEN_BIT as nat
        }
    }

    /// The power of two by which the significand is scaled in [`Self::weight`].
    pub open spec fn scale(self) -> nat {
        if self.exponent() == 0 {
            0
        } else {
            (self.exponent() - 1) as nat
        }
    }

    /// The absolute value in units of `2^-1074`, the smallest subnormal.
    /// An infinity weighs one binade more than the largest finite value.
    pub open spec fn weight(self) -> nat {
        self.significand() * pow2(self.scale())
    }

    /// The place of the value in the total order of numbers: its value in
    /// units of `2^-1074`, with every NaN placed above everything else.
    pub open spec fn key(self) -> int {
        if self.spec_is_nan() {
            nan_key()
        } else if self.spec_is_negative() {
            -(self.weight() as int)
        } else {
            self.weight() as int
        }
    }

    pub fn from_bits(bits: u64) -> (r: Float)
        ensures
            r.bits == bits,
    {
        Float { bits }
    }

    pub fn to_bits(self) -> (r: u64)
        ensures
            r == self.bits,
    {
        self.bits
    }

    /// Positive zero.
    pub fn zero() -> (r: Float)
        ensures
            r.bits == 0,
    {
        Float { bits: 0 }
    }

    /// The value two.
    pub fn two() -> (r: Float)
        ensures
            r.bits == TWO_BITS,
    {
        Float { bits: TWO_BITS }
    }

    #[verifier::when_used_as_spec(spec_is_negative)]
    pub fn is_negative(self) -> (r: bool)
        ensures
            r == self.spec_is_negative(),
    {
        self.bits >= SIGN_BIT
    }

    #[verifier::when_used_as_spec(spec_is_nan)]
    pub fn is_nan(self) -> (r: bool)
        ensures
            r == self.spec_is_nan(),
    {
        self.bits % SIGN_BIT > INFINITY_BITS
    }

    #[verifier::when_used_as_spec(spec_is_zero)]
    pub fn is_zero(self) -> (r: bool)
        ensures
            r == self.spec_is_zero(),
    {
        self.bits % SIGN_BIT == 0
    }

    #[verifier::when_used_as_spec(spec_is_infinite)]
    pub fn is_infinite(self) -> (r: bool)
        ensures
            r == self.spec_is_infinite(),
    {
        self.bits % SIGN_BIT == INFINITY_BITS
    }

    /// Compares two values by their keys: numerically, the two zeros equal,
    /// every NaN equal to every NaN and above all else.
    pub fn compare(self, other: Float) -> (r: Comparison)
        ensures
            r == comparison_of(self.key(), other.key()),
    {
        let left_nan = self.is_nan();
        let right_nan = other.is_nan();
        if left_nan || right_nan {
            proof {
                lemma_weight_below_nan(self);
                lemma_weight_below_nan(other);
            }
            if left_nan && right_nan {
                Comparison::Equal
            } else if left_nan {
                Comparison::Greater
            } else {
                Comparison::Less
            }
        } else {
            let left = self.bits % SIGN_BIT;
            let right = other.bits % SIGN_BIT;
            let left_negative = self.bits >= SIGN_BIT;
            let right_negative = other.bits >= SIGN_BIT;
            proof {
                lemma_magnitude_orders_weight(self, other);
                lemma_magnitude_orders_weight(other, self);
                lemma_weight_zero(self);
                lemma_weight_zero(other);
            }
            if left_negative && !right_negative {
                if left == 0 && right == 0 {
                    Comparison::Equal
                } else {
                    Comparison::Less
                }
            } else if !left_negative && right_negative {
                if left == 0 && right == 0 {
                    Comparison::Equal
                } else {
                    Comparison::Greater
                }
            } else {
                let by_magnitude = if left < right {
                    Comparison::Less
                } else if left == right {
                    Comparison::Equal
                } else {
                    Comparison::Greater
                };
                if left_negative {
                    by_magnitude.flip()
                } else {
                    by_magnitude
                }
            }
        }
    }
}

/// The key of every NaN, above the key of every other number.
pub open spec fn nan_key() -> int {
    pow2(2100) as int
}

/// The key of an integer: its value in units of `2^-1074`.
pub open spec fn integer_key(value: int) -> int {
    value * pow2(1074)
}

/// A value that is zero or subnormal weighs its fraction; a normal value or
/// an infinity with exponent field `e` weighs at least `2^(51+e)` and less
/// than `2^(52+e)`.
pub proof fn lemma_weight_bounds(f: Float)
    ensures
        f.exponent() <= 2047,
        f.fraction() < pow2(52),
        f.significand() < pow2(53),
        f.exponent() == 0 ==> f.weight() == f.fraction(),
        f.exponent() >= 1 ==> pow2(51 + f.exponent()) <= f.weight() < pow2(52 + f.exponent()),
        f.weight() < pow2(52 + f.exponent()),
{
    lemma2_to64();
    lemma2_to64_rest();
    let e = f.exponent();
    let p = pow2(f.scale());
    lemma_pow2_pos(f.scale());
    assert(pow2(0) == 1);
    if e == 0 {
        assert(f.weight() == f.fraction() * 1);
    } else {
        lemma_pow2_adds(52, (e - 1) as nat);
        lemma_pow2_adds(53, (e - 1) as nat);
        let s = f.significand() as int;
        assert(pow2(52) * p <= s * p) by (nonlinear_arith)
            requires
                pow2(52) <= s,
                p > 0,
        ;
        assert(s * p < pow2(53) * p) by (nonlinear_arith)
            requires
                s < pow2(53),
                p > 0,
        ;
    }
}

/// A smaller magnitude pattern weighs less.
pub proof fn lemma_magnitude_orders_weight(a: Float, b: Float)
    ensures
        a.magnitude() < b.magnitude() ==> a.weight() < b.weight(),
        a.magnitude() == b.magnitude() ==> a.weight() == b.weight(),
{
    lemma_weight_bounds(a);
    lemma_weight_bounds(b);
    let ea = a.exponent();
    let eb = b.exponent();
    if a.magnitude() < b.magnitude() {
        if ea == eb {
            let p = pow2(a.scale());
            lemma_pow2_pos(a.scale());
            let sa = a.significand() as int;
            let sb = b.significand() as int;
            assert(sa * p < sb * p) by (nonlinear_arith)
                requires
                    sa < sb,
                    p > 0,
            ;
        } else {
            assert(ea < eb);
            if 52 + ea < 51 + eb {
                lemma_pow2_strictly_increases(52 + ea, 51 + eb);
            }
        }
    }
}

/// Only the two zeros weigh nothing.
pub proof fn lemma_weight_zero(f: Float)
    ensures
        f.weight() == 0 <==> f.spec_is_zero(),
{
    let zero = Float { bits: 0 };
    assert(zero.weight() == 0) by {
        assert(zero.significand() == 0);
        assert(0 * pow2(zero.scale()) == 0) by (nonlinear_arith);
    }
    lemma_magnitude_orders_weight(zero, f);
}

/// The weight of a value that is not NaN lies below the key of NaN.
pub proof fn lemma_weight_below_nan(f: Float)
    ensures
        f.weight() < nan_key(),
{
    lemma_weight_bounds(f);
    lemma_pow2_strictly_increases(52 + f.exponent(), 2100);
}

/// The key of an integer lies strictly between the keys of the two NaN signs.
pub proof fn lemma_integer_key_below_nan(value: i64)
    ensures
        -nan_key() < integer_key(value as int) < nan_key(),
{
    lemma2_to64();
    lemma2_to64_rest();
    lemma_pow2_adds(64, 1074);
    lemma_pow2_strictly_increases(1138, 2100);
    let p = pow2(1074) as int;
    let v = value as int;
    lemma_pow2_pos(1074);
    assert(v * p < pow2(64) * p) by (nonlinear_arith)
        requires
            v < pow2(64),
            p > 0,
    ;
    assert(-(pow2(64) * p) < v * p) by (nonlinear_arith)
        requires
            -(pow2(64) as int) < v,
            p > 0,
    ;
}

/// Compares `a * 2^1074` with `significand * 2^scale`.
fn compare_scaled(a: u64, significand: u64, scale: u64) -> (r: Comparison)
    requires
        significand < pow2(53),
        scale <= 2046,
        scale >= 1 ==> significand >= pow2(52),
    ensures
        r == comparison_of(a * pow2(1074), significand * pow2(scale as nat)),
{
    proof {
        lemma2_to64();
        lemma2_to64_rest();
        lemma_pow2_pos(1074);
    }
    let ghost unit = pow2(1074) as int;
    if scale >= 1074 {
        let k = scale - 1074;
        proof {
            lemma_pow2_adds(k as nat, 1074);
            lemma_pow2_pos(k as nat);
        }
        let ghost pk = pow2(k as nat) as int;
        if k >= 12 {
            proof {
                if k > 12 {
                    lemma_pow2_strictly_increases(12, k as nat);
                }
                lemma_scaled_order(a as int, significand as int * pk, unit);
                assert(significand as int * pk >= pow2(52) * pow2(12)) by (nonlinear_arith)
                    requires
                        significand >= pow2(52),
                        pk >= pow2(12),
                ;
                assert(significand as int * (pk * unit) == (significand as int * pk) * unit)
                    by (nonlinear_arith);
            }
            Comparison::Less
        } else {
            proof {
                if k < 11 {
                    lemma_pow2_strictly_increases(k as nat, 11);
                }
                assert(significand as int * pk < pow2(53) * pow2(11)) by (nonlinear_arith)
                    requires
                        significand < pow2(53),
                        0 < pk <= pow2(11),
                ;
                lemma_u64_shl_is_mul(significand, k);
                lemma_scaled_order(a as int, significand as int * pk, unit);
                assert(significand as int * (pk * unit) == (significand as int * pk) * unit)
                    by (nonlinear_arith);
            }
            let scaled = significand << k;
            if a < scaled {
                Comparison::Less
            } else if a == scaled {
                Comparison::Equal
            } else {
                Comparison::Greater
            }
        }
    } else {
        let j = 1074 - scale;
        proof {
            lemma_pow2_adds(j as nat, scale as nat);
            lemma_pow2_pos(j as nat);
            lemma_pow2_pos(scale as nat);
        }
        let ghost pj = pow2(j as nat) as int;
        let ghost ps = pow2(scale as nat) as int;
        proof {
            assert(a as int * (pj * ps) == (a as int * pj) * ps) by (nonlinear_arith);
            lemma_scaled_order(a as int * pj, significand as int, ps);
        }
        if j >= 53 {
            if a == 0 {
                if significand == 0 {
                    Comparison::Equal
                } else {
                    Comparison::Less
                }
            } else {
                proof {
                    if j > 53 {
                        lemma_pow2_strictly_increases(53, j as nat);
                    }
                    assert(a as int * pj >= pow2(53)) by (nonlinear_arith)
                        requires
                            a >= 1,
                            pj >= pow2(53),
                    ;
                }
                Comparison::Greater
            }
        } else {
            proof {
                if j < 52 {
                    lemma_pow2_strictly_increases(j as nat, 52);
                }
                assert(1 * pj <= u64::MAX);
                lemma_u64_shl_is_mul(1, j);
            }
            let step: u64 = 1u64 << j;
            let quotient = significand / step;
            let remainder = significand % step;
            proof {
                assert(significand as int == quotient as int * pj + remainder as int) by {
                    vstd::arithmetic::div_mod::lemma_fundamental_div_mod(
                        significand as int,
                        pj,
                    );
                    assert(pj * (significand as int / pj) == quotient as int * pj)
                        by (nonlinear_arith)
                        requires
                            quotient as int == significand as int / pj,
                    ;
                }
                if a < quotient {
                    assert(a as int * pj < quotient as int * pj + remainder as int)
                        by (nonlinear_arith)
                        requires
                            a as int + 1 <= quotient as int,
                            pj > 0,
                            remainder >= 0,
                    ;
                } else if a > quotient {
                    assert(a as int * pj > quotient as int * pj + remainder as int)
                        by (nonlinear_arith)
                        requires
                            a as int >= quotient as int + 1,
                            pj > 0,
                            (remainder as int) < pj,
                    ;
                }
            }
            if a < quotient {
                Comparison::Less
            } else if a > quotient {
                Comparison::Greater
            } else if remainder == 0 {
                Comparison::Equal
            } else {
                Comparison::Less
            }
        }
    }
}

/// Scaling both sides by a positive factor keeps their order.
proof fn lemma_scaled_order(a: int, b: int, factor: int)
    requires
        factor > 0,
    ensures
        comparison_of(a * factor, b * factor) == comparison_of(a, b),
{
    assert(a < b ==> a * factor < b * factor) by (nonlinear_arith)
        requires
            factor > 0,
    ;
    assert(a > b ==> a * factor > b * factor) by (nonlinear_arith)
        requires
            factor > 0,
    ;
}

/// Compares an integer with a binary64 value exactly, by their keys.
pub fn compare_integer_float(value: i64, f: Float) -> (r: Comparison)
    ensures
        r == comparison_of(integer_key(value as int), f.key()),
{
    proof {
        lemma_integer_key_below_nan(value);
        lemma_weight_bounds(f);
        lemma_pow2_pos(1074);
        lemma2_to64();
        lemma2_to64_rest();
    }
    if f.is_nan() {
        return Comparison::Less;
    }
    let negative = f.bits >= SIGN_BIT;
    let magnitude = f.bits % SIGN_BIT;
    let exponent = magnitude / HIDDEN_BIT;
    let fraction = magnitude % HIDDEN_BIT;
    let significand = if exponent == 0 {
        fraction
    } else {
        fraction + HIDDEN_BIT
    };
    let scale = if exponent == 0 {
        0
    } else {
        exponent - 1
    };
    let ghost unit = pow2(1074) as int;
    let ghost v = value as int;
    let ghost weight = f.weight() as int;
    proof {
        assert(f.exponent() == exponent);
        assert(f.fraction() == fraction);
        assert(f.significand() == significand);
        assert(f.scale() == scale);
        assert(weight == significand as int * pow2(scale as nat));
        assert(f.key() == if negative {
            -weight
        } else {
            weight
        });
        assert(integer_key(v) == v * unit);
    }
    if value >= 0 && negative {
        proof {
            assert(v * unit >= 0) by (nonlinear_arith)
                requires
                    v >= 0,
                    unit > 0,
            ;
            assert(v > 0 ==> v * unit > 0) by (nonlinear_arith)
                requires
                    unit > 0,
            ;
            lemma_pow2_pos(f.scale());
            let ps = pow2(f.scale()) as int;
            let s = significand as int;
            assert(s > 0 ==> s * ps > 0) by (nonlinear_arith)
                requires
                    ps > 0,
            ;
            assert(s == 0 ==> s * ps == 0) by (nonlinear_arith);
            assert(v == 0 ==> v * unit == 0) by (nonlinear_arith);
            assert(weight == s * ps);
        }
        if value == 0 && significand == 0 {
            assert(v * unit == 0 && weight == 0);
            Comparison::Equal
        } else {
            assert(v * unit > -weight);
            Comparison::Greater
        }
    } else if value < 0 && !negative {
        proof {
            assert(v * unit < 0) by (nonlinear_arith)
                requires
                    v < 0,
                    unit > 0,
            ;
            assert(v * unit < weight);
        }
        Comparison::Less
    } else {
        let distance: u64 = if value >= 0 {
            value as u64
        } else {
            (-(value + 1)) as u64 + 1
        };
        let by_magnitude = compare_scaled(distance, significand, scale);
        assert(by_magnitude == comparison_of(distance as int * unit, weight));
        if value >= 0 {
            assert(v * unit == distance as int * unit);
            by_magnitude
        } else {
            proof {
                assert(v * unit == -(distance as int * unit)) by (nonlinear_arith)
                    requires
                        v == -(distance as int),
                ;
                assert(comparison_of(-(distance as int * unit), -weight) == comparison_of(
                    distance as int * unit,
                    weight,
                ).flipped());
            }
            by_magnitude.flip()
        }
    }
}

/// The bound below which the half of an integer is a binary64 value without
/// rounding, `2^53`.
pub const EXACT_LIMIT: i64 = 0x0020_0000_0000_0000;

/// Whether `f` is exactly half of the integer `total`: it is no NaN, its
/// value in units of `2^-1074` is `total * 2^1073`, and the half of zero is
/// positive zero.
pub open spec fn is_exact_half(f: Float, total: int) -> bool {
    &&& !f.spec_is_nan()
    &&& f.key() == total * pow2(1073)
    &&& total == 0 ==> f.bits == 0
}

/// The binary64 value that is half of an integer of less than 53 bits. The
/// significand holds the integer itself, shifted up to the implicit bit,
/// so nothing is rounded.
pub fn exact_half(total: i64) -> (r: Float)
    requires
        -EXACT_LIMIT < total < EXACT_LIMIT,
    ensures
        is_exact_half(r, total as int),
{
    proof {
        lemma2_to64();
        lemma2_to64_rest();
    }
    if total == 0 {
        let zero = Float { bits: 0 };
        proof {
            lemma_weight_zero(zero);
            assert(0 * pow2(1073) == 0) by (nonlinear_arith);
        }
        return zero;
    }
    let negative = total < 0;
    let distance: u64 = if negative {
        (-total) as u64
    } else {
        total as u64
    };
    let mut significand: u64 = distance;
    let mut place: u64 = 52;
    proof {
        assert(pow2(0) == 1);
        assert(distance * pow2(0) == distance) by (nonlinear_arith)
            requires
                pow2(0) == 1,
        ;
    }
    while significand < HIDDEN_BIT
        invariant
            pow2(52) == HIDDEN_BIT,
            pow2(53) == 2 * pow2(52),
            1 <= distance < pow2(53),
            place <= 52,
            significand == distance * pow2((52 - place) as nat),
            significand < pow2(53),
            significand >= pow2((52 - place) as nat),
        decreases place,
    {
        proof {
            let shift = (52 - place) as nat;
            vstd::arithmetic::power2::lemma_pow2_unfold(shift + 1);
            assert(pow2(shift + 1) == 2 * pow2(shift));
            assert(distance * (2 * pow2(shift)) == 2 * (distance * pow2(shift))) by (nonlinear_arith);
            if place == 0 {
                assert(pow2(52) <= significand);
            }
        }
        significand = significand * 2;
        place = place - 1;
    }
    proof {
        lemma2_to64_rest();
    }
    let magnitude: u64 = (place + 1021) * HIDDEN_BIT + significand;
    let bits: u64 = if negative {
        magnitude + SIGN_BIT
    } else {
        magnitude
    };
    let r = Float { bits };
    proof {
        assert(r.magnitude() == magnitude);
        assert(r.exponent() == place + 1022);
        assert(r.fraction() == significand - HIDDEN_BIT);
        assert(r.significand() == significand);
        assert(r.scale() == place + 1021);
        let shift = (52 - place) as nat;
        lemma_pow2_adds(shift, (place + 1021) as nat);
        let d = distance as int;
        let a = pow2(shift) as int;
        let b = pow2((place + 1021) as nat) as int;
        assert((d * a) * b == d * (a * b)) by (nonlinear_arith);
        assert(r.weight() == d * pow2(1073));
        let unit = pow2(1073) as int;
        if negative {
            assert((total as int) * unit == -(d * unit)) by (nonlinear_arith)
                requires
                    total as int == -d,
            ;
        }
    }
    r
}

/// Only one binary64 value is exactly half of an integer.
pub proof fn lemma_exact_half_is_unique(f: Float, g: Float, total: int)
    requires
        is_exact_half(f, total),
        is_exact_half(g, total),
    ensures
        f == g,
{
    lemma_pow2_pos(1073);
    let unit = pow2(1073) as int;
    if total != 0 {
        assert(total > 0 ==> total * unit > 0) by (nonlinear_arith)
            requires
                unit > 0,
        ;
        assert(total < 0 ==> total * unit < 0) by (nonlinear_arith)
            requires
                unit > 0,
        ;
        lemma_magnitude_orders_weight(f, g);
        lemma_magnitude_orders_weight(g, f);
        assert(f.magnitude() == g.magnitude());
        assert(f.spec_is_negative() == g.spec_is_negative());
        assert(f.bits == g.bits);
    }
}

/// Binary64 arithmetic, supplied by the caller.
///
/// The library never rounds a value itself. Where a result has to be rounded
/// it asks its caller's arithmetic and stores the bit pattern that comes
/// back. Nothing is claimed here about the patterns these methods return:
/// the contracts of the library say which question an answer belongs to
/// (see [`is_sum`] and its like), and what an arithmetic that is
/// [`is_determined`] makes of the library is proved for every such
/// arithmetic.
pub trait FloatArith {
    /// `a + b`.
    fn sum(&self, a: Float, b: Float) -> Float;

    /// `a - b`.
    fn difference(&self, a: Float, b: Float) -> Float;

    /// `a * b`.
    fn product(&self, a: Float, b: Float) -> Float;

    /// `a / b`.
    fn quotient(&self, a: Float, b: Float) -> Float;

    /// The square root of `a`.
    fn square_root(&self, a: Float) -> Float;

    /// The binary64 value nearest to `value`.
    fn from_integer(&self, value: i64) -> Float;

    /// Reads a decimal numeral, or answers `None` where `text` is none.
    fn parse(&self, text: &[u8]) -> Option<Float>;

    /// The shortest decimal numeral that reads back as the finite `value`.
    fn format(&self, value: Float) -> Vec<u8>;
}

/// `r` is what the arithmetic answers to `a + b`.
pub open spec fn is_sum<A: FloatArith>(arith: &A, a: Float, b: Float, r: Float) -> bool {
    call_ensures(A::sum, (arith, a, b), r)
}

/// `r` is what the arithmetic answers to `a - b`.
pub open spec fn is_difference<A: FloatArith>(arith: &A, a: Float, b: Float, r: Float) -> bool {
    call_ensures(A::difference, (arith, a, b), r)
}

/// `r` is what the arithmetic answers to `a * b`.
pub open spec fn is_product<A: FloatArith>(arith: &A, a: Float, b: Float, r: Float) -> bool {
    call_ensures(A::product, (arith, a, b), r)
}

/// `r` is what the arithmetic answers to `a / b`.
pub open spec fn is_quotient<A: FloatArith>(arith: &A, a: Float, b: Float, r: Float) -> bool {
    call_ensures(A::quotient, (arith, a, b), r)
}

/// `r` is what the arithmetic answers for the square root of `a`.
pub open spec fn is_square_root<A: FloatArith>(arith: &A, a: Float, r: Float) -> bool {
    call_ensures(A::square_root, (arith, a), r)
}

/// `r` is what the arithmetic rounds the integer `value` to.
pub open spec fn is_rounding<A: FloatArith>(arith: &A, value: i64, r: Float) -> bool {
    call_ensures(A::from_integer, (arith, value), r)
}

/// `r` is what the arithmetic reads the numeral `text` as.
pub open spec fn is_parsing<A: FloatArith>(arith: &A, text: Seq<u8>, r: Option<Float>) -> bool {
    exists|source: &[u8]| source@ == text && #[trigger] call_ensures(A::parse, (arith, source), r)
}

/// `text` is the numeral that the arithmetic writes for `value`.
pub open spec fn is_formatting<A: FloatArith>(arith: &A, value: Float, text: Seq<u8>) -> bool {
    exists|numeral: Vec<u8>|
        numeral@ == text && #[trigger] call_ensures(A::format, (arith, value), numeral)
}

/// `r` is the number as a binary64 value: the value itself, or what the
/// arithmetic rounds the integer to.
pub open spec fn is_float_of<A: FloatArith>(arith: &A, number: DynamicNumber, r: Float) -> bool {
    match number {
        DynamicNumber::Integer(value) => is_rounding(arith, value, r),
        DynamicNumber::Float(f) => r == f,
    }
}

/// Whether the arithmetic is determined: what it answers follows from what
/// it is asked, for each of its operations.
pub open spec fn is_determined<A: FloatArith>(arith: &A) -> bool {
    &&& forall|a: Float, b: Float, r: Float, s: Float|
        #![trigger is_sum(arith, a, b, r), is_sum(arith, a, b, s)]
        is_sum(arith, a, b, r) && is_sum(arith, a, b, s) ==> r == s
    &&& forall|a: Float, b: Float, r: Float, s: Float|
        #![trigger is_difference(arith, a, b, r), is_difference(arith, a, b, s)]
        is_difference(arith, a, b, r) && is_difference(arith, a, b, s) ==> r == s
    &&& forall|a: Float, b: Float, r: Float, s: Float|
        #![trigger is_product(arith, a, b, r), is_product(arith, a, b, s)]
        is_product(arith, a, b, r) && is_product(arith, a, b, s) ==> r == s
    &&& forall|a: Float, b: Float, r: Float, s: Float|
        #![trigger is_quotient(arith, a, b, r), is_quotient(arith, a, b, s)]
        is_quotient(arith, a, b, r) && is_quotient(arith, a, b, s) ==> r == s
    &&& forall|a: Float, r: Float, s: Float|
        #![trigger is_square_root(arith, a, r), is_square_root(arith, a, s)]
        is_square_root(arith, a, r) && is_square_root(arith, a, s) ==> r == s
    &&& forall|value: i64, r: Float, s: Float|
        #![trigger is_rounding(arith, value, r), is_rounding(arith, value, s)]
        is_rounding(arith, value, r) && is_rounding(arith, value, s) ==> r == s
    &&& forall|text: Seq<u8>, r: Option<Float>, s: Option<Float>|
        #![trigger is_parsing(arith, text, r), is_parsing(arith, text, s)]
        is_parsing(arith, text, r) && is_parsing(arith, text, s) ==> r == s
    &&& forall|value: Float, r: Seq<u8>, s: Seq<u8>|
        #![trigger is_formatting(arith, value, r), is_formatting(arith, value, s)]
        is_formatting(arith, value, r) && is_formatting(arith, value, s) ==> r == s
}


/// A number of the value model.
#[derive(Clone, Copy, Debug, PartialEq, Eq, Structural)]
pub enum DynamicNumber {
    Integer(i64),
    Float(Float),
}

impl DynamicNumber {
    /// The place of the number in the total order of numbers.
    pub open spec fn key(self) -> int {
        match self {
            DynamicNumber::Integer(value) => integer_key(value as int),
            DynamicNumber::Float(f) => f.key(),
        }
    }

    /// `self` comes strictly before `other`.
    pub open spec fn spec_lt(&self, other: &DynamicNumber) -> bool {
        self.key() < other.key()
    }

    /// `self` does not come after `other`.
    pub open spec fn spec_le(&self, other: &DynamicNumber) -> bool {
        self.key() <= other.key()
    }

    /// Compares two numbers by their keys. Integers and binary64 values are
    /// compared exactly, without rounding either side.
    pub fn compare(&self, other: &DynamicNumber) -> (r: Comparison)
        ensures
            r == comparison_of(self.key(), other.key()),
    {
        match (self, other) {
            (DynamicNumber::Integer(a), DynamicNumber::Integer(b)) => {
                proof {
                    lemma_pow2_pos(1074);
                    lemma_scaled_order(*a as int, *b as int, pow2(1074) as int);
                }
                if *a < *b {
                    Comparison::Less
                } else if *a == *b {
                    Comparison::Equal
                } else {
                    Comparison::Greater
                }
            },
            (DynamicNumber::Integer(a), DynamicNumber::Float(b)) => compare_integer_float(*a, *b),
            (DynamicNumber::Float(a), DynamicNumber::Integer(b)) => compare_integer_float(
                *b,
                *a,
            ).flip(),
            (DynamicNumber::Float(a), DynamicNumber::Float(b)) => a.compare(*b),
        }
    }

    #[verifier::when_used_as_spec(spec_lt)]
    pub fn lt(&self, other: &DynamicNumber) -> (r: bool)
        ensures
            r == self.spec_lt(other),
    {
        self.compare(other) == Comparison::Less
    }

    #[verifier::when_used_as_spec(spec_le)]
    pub fn le(&self, other: &DynamicNumber) -> (r: bool)
        ensures
            r == self.spec_le(other),
    {
        self.compare(other) != Comparison::Greater
    }

    /// The number as a binary64 value: itself, or the caller's rounding of
    /// the integer.
    pub fn to_float<A: FloatArith>(&self, arith: &A) -> (r: Float)
        ensures
            is_float_of(arith, *self, r),
    {
        match self {
            DynamicNumber::Integer(value) => arith.from_integer(*value),
            DynamicNumber::Float(f) => *f,
        }
    }
}

} // verus!
