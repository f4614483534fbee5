//! Depth values and the order in which the depth test compares them.
use vstd::arithmetic::power2::{
    lemma2_to64,
    lemma_pow2_pos,
    lemma_pow2_strictly_increases,
    lemma_pow2_unfold,
    pow2,
};
use vstd::prelude::*;

verus! {

/// Two to the power 52: the weight of the lowest exponent bit.
pub const FRACTION_SPAN: u64 = 0x10_0000_0000_0000;

/// The bit that holds the sign of a binary64 number.
pub const SIGN_BIT: u64 = 0x8000_0000_0000_0000;

/// The magnitude bits of an infinity; every larger magnitude is a NaN.
pub const INFINITY_BITS: u64 = 0x7ff0_0000_0000_0000;

/// The bit pattern of negative infinity, the depth of a pixel that holds
/// nothing yet.
pub const NEG_INFINITY_BITS: u64 = 0xfff0_0000_0000_0000;

/// A depth: an IEEE-754 binary64 number, held by its bit pattern.
///
/// Larger is closer to the camera. The order is the numeric order of the
/// numbers that the patterns encode: the two zeros are equal, and a NaN is
/// neither greater nor less than anything.
#[derive(Clone, Copy, Debug)]
pub struct Depth {
    pub bits: u64,
}

impl Depth {
    /// The bits below the sign bit.
    pub open spec fn magnitude(self) -> int {
        if self.bits >= SIGN_BIT {
            self.bits - SIGN_BIT
        } else {
            self.bits as int
        }
    }

    /// Whether the sign bit is set.
    pub open spec fn is_negative(self) -> bool {
        self.bits >= SIGN_BIT
    }

    /// Whether the pattern encodes no number.
    pub open spec fn is_nan(self) -> bool {
        self.magnitude() > INFINITY_BITS
    }

    /// The exponent field: the eleven bits below the sign bit.
    pub open spec fn exponent(self) -> int {
        self.magnitude() / (FRACTION_SPAN as int)
    }

    /// The fraction field: the lowest 52 bits.
    pub open spec fn fraction(self) -> int {
        self.magnitude() % (FRACTION_SPAN as int)
    }

    /// The number that the pattern encodes, times two to the power 1075,
    /// which makes it an integer: `fraction * 2^-1074` under a zero exponent
    /// field, `(2^52 + fraction) * 2^(exponent - 1075)` under any other. An
    /// infinity counts as the power of two above every finite number.
    pub open spec fn scaled(self) -> int {
        let size = if self.exponent() == 0 {
            2 * self.fraction()
        } else {
            (FRACTION_SPAN + self.fraction()) * pow2(self.exponent() as nat)
        };
        if self.is_negative() {
            -size
        } else {
            size
        }
    }

    /// An integer that grows with the encoded number: the magnitude, negated
    /// under a sign bit. Both zeros have rank 0.
    pub open spec fn rank(self) -> int {
        if self.is_negative() {
            -self.magnitude()
        } else {
            self.magnitude()
        }
    }

    /// `self > other` as IEEE-754 compares the encoded numbers.
    pub open spec fn spec_gt(self, other: Depth) -> bool {
        &&& !self.is_nan()
        &&& !other.is_nan()
        &&& self.rank() > other.rank()
    }

    /// Negative infinity.
    pub open spec fn spec_neg_infinity() -> Depth {
        Depth { bits: NEG_INFINITY_BITS }
    }

    /// The depth with the given bit pattern.
    pub fn from_bits(bits: u64) -> (d: Depth)
        ensures
            d.bits == bits,
    {
        Depth { bits }
    }

    /// The bit pattern of this depth.
    pub fn to_bits(self) -> (bits: u64)
        ensures
            bits == self.bits,
    {
        self.bits
    }

    /// Negative infinity: less than every number, greater than none.
    #[verifier::when_used_as_spec(spec_neg_infinity)]
    pub fn neg_infinity() -> (d: Depth)
        ensures
            d == Depth::spec_neg_infinity(),
    {
        Depth { bits: NEG_INFINITY_BITS }
    }

    /// Whether this depth is strictly closer than `other`.
    #[verifier::when_used_as_spec(spec_gt)]
    pub fn gt(self, other: Depth) -> (closer: bool)
        ensures
            closer == self.spec_gt(other),
    {
        let a_neg = self.bits >= SIGN_BIT;
        let b_neg = other.bits >= SIGN_BIT;
        let a: u64 = if a_neg { self.bits - SIGN_BIT } else { self.bits };
        let b: u64 = if b_neg { other.bits - SIGN_BIT } else { other.bits };
        if a > INFINITY_BITS || b > INFINITY_BITS {
            false
        } else if a_neg {
            b_neg && a < b
        } else if b_neg {
            a > 0 || b > 0
        } else {
            a > b
        }
    }
}

/// Among patterns without a sign bit, the larger pattern encodes the larger
/// number.
pub proof fn lemma_magnitude_orders_as_numbers(a: Depth, b: Depth)
    requires
        !a.is_negative(),
        !b.is_negative(),
        a.magnitude() < b.magnitude(),
    ensures
        0 <= a.scaled() < b.scaled(),
{
    let span = FRACTION_SPAN as int;
    let (ea, fa) = (a.exponent(), a.fraction());
    let (eb, fb) = (b.exponent(), b.fraction());
    assert(a.magnitude() == span * ea + fa && 0 <= fa < span && 0 <= ea);
    assert(b.magnitude() == span * eb + fb && 0 <= fb < span && 0 <= eb);
    lemma_pow2_pos(ea as nat);
    lemma_pow2_pos(eb as nat);
    let pa = pow2(ea as nat) as int;
    let pb = pow2(eb as nat) as int;
    if ea == eb {
        if ea != 0 {
            assert((span + fa) * pa < (span + fb) * pa) by (nonlinear_arith)
                requires
                    fa < fb,
                    0 < pa,
            ;
        }
        assert(0 <= (span + fa) * pa) by (nonlinear_arith)
            requires
                0 <= fa,
                0 < pa,
                span > 0,
        ;
    } else {
        assert(ea < eb) by (nonlinear_arith)
            requires
                span * ea + fa < span * eb + fb,
                0 <= fa < span,
                0 <= fb < span,
                ea != eb,
        ;
        lemma_pow2_unfold((ea + 1) as nat);
        if ea + 1 < eb {
            lemma_pow2_strictly_increases((ea + 1) as nat, eb as nat);
        }
        let next = pow2((ea + 1) as nat) as int;
        assert(next == 2 * pa);
        assert(next <= pb);
        assert(span * next <= (span + fb) * pb) by (nonlinear_arith)
            requires
                0 < next <= pb,
                0 <= fb,
                span > 0,
        ;
        if ea == 0 {
            lemma2_to64();
            assert(pa == 1);
        } else {
            assert(0 <= (span + fa) * pa < span * (2 * pa)) by (nonlinear_arith)
                requires
                    0 <= fa < span,
                    0 < pa,
            ;
        }
    }
}

/// The depth order is the order of the encoded numbers: of two patterns
/// that are no NaN, one is closer exactly where the number that it encodes
/// is larger, and the two have one rank exactly where they encode one
/// number.
pub proof fn lemma_order_is_numeric(a: Depth, b: Depth)
    requires
        !a.is_nan(),
        !b.is_nan(),
    ensures
        a.spec_gt(b) <==> a.scaled() > b.scaled(),
        a.rank() == b.rank() <==> a.scaled() == b.scaled(),
{
    let ua = Depth { bits: a.magnitude() as u64 };
    let ub = Depth { bits: b.magnitude() as u64 };
    assert(ua.magnitude() == a.magnitude() && ub.magnitude() == b.magnitude());
    assert(a.scaled() == if a.is_negative() { -ua.scaled() } else { ua.scaled() });
    assert(b.scaled() == if b.is_negative() { -ub.scaled() } else { ub.scaled() });
    if ua.magnitude() < ub.magnitude() {
        lemma_magnitude_orders_as_numbers(ua, ub);
    } else if ub.magnitude() < ua.magnitude() {
        lemma_magnitude_orders_as_numbers(ub, ua);
    }
    let zero = Depth { bits: 0 };
    assert(zero.scaled() == 0) by {
        assert(zero.exponent() == 0 && zero.fraction() == 0);
    }
    if 0 < ua.magnitude() {
        lemma_magnitude_orders_as_numbers(zero, ua);
    } else {
        assert(ua.bits == 0);
    }
    if 0 < ub.magnitude() {
        lemma_magnitude_orders_as_numbers(zero, ub);
    } else {
        assert(ub.bits == 0);
    }
}

/// Nothing is closer than itself.
pub proof fn lemma_gt_irreflexive(a: Depth)
    ensures
        !a.spec_gt(a),
{
}

/// Of two depths at most one is closer than the other.
pub proof fn lemma_gt_asymmetric(a: Depth, b: Depth)
    requires
        a.spec_gt(b),
    ensures
        !b.spec_gt(a),
{
}

/// Closer than something closer is closer.
pub proof fn lemma_gt_transitive(a: Depth, b: Depth, c: Depth)
    requires
        a.spec_gt(b),
        b.spec_gt(c),
    ensures
        a.spec_gt(c),
{
}

/// Nothing is farther than negative infinity, and every other number is
/// closer.
pub proof fn lemma_neg_infinity_is_least(a: Depth)
    ensures
        !Depth::spec_neg_infinity().spec_gt(a),
        a.spec_gt(Depth::spec_neg_infinity()) <==> !a.is_nan() && a.bits != NEG_INFINITY_BITS,
{
}

} // verus!
