use vstd::prelude::*;

use crate::arith::{
    euclid_div_mod, lemma_pow10_28, lemma_pow10_increases, lemma_pow10_pos, pow10, pow10_i128,
};
use crate::money::Round;

verus! {

use vstd::math::abs;

/// The largest mantissa the underlying decimal primitive can carry:
/// `2^96 - 1`.
pub const MAX_MANTISSA: i128 = 79228162514264337593543950335;

/// An exact base-10 fixed-point number: `m * 10^(-s)` with `|m| < 2^96`
/// and `s <= 28`, the domain of the underlying decimal primitive.
#[derive(Clone, Copy, Debug)]
pub struct Decimal {
    m: i128,
    s: u32,
}

impl Decimal {
    pub closed spec fn spec_mantissa(self) -> int {
        self.m as int
    }

    pub closed spec fn spec_scale(self) -> nat {
        self.s as nat
    }

    /// Well-formed: within the 96-bit mantissa and 28-digit scale domain.
    pub open spec fn wf(self) -> bool {
        -MAX_MANTISSA <= self.spec_mantissa() <= MAX_MANTISSA && self.spec_scale() <= 28
    }

    /// The value scaled to an integer count of `10^-28` units; two decimals
    /// denote the same number exactly when their `sval`s agree.
    pub open spec fn sval(self) -> int {
        self.spec_mantissa() * pow10((28 - self.spec_scale()) as nat)
    }

    /// A decimal with mantissa `num` and scale `scale`, denoting
    /// `num * 10^(-scale)`.
    pub fn new(num: i64, scale: u32) -> (r: Decimal)
        requires
            scale <= 28,
        ensures
            r.wf(),
            r.spec_mantissa() == num,
            r.spec_scale() == scale,
    {
        Decimal { m: num as i128, s: scale }
    }

    pub fn from_i128_with_scale(num: i128, scale: u32) -> (r: Decimal)
        requires
            -MAX_MANTISSA <= num <= MAX_MANTISSA,
            scale <= 28,
        ensures
            r.wf(),
            r.spec_mantissa() == num,
            r.spec_scale() == scale,
    {
        Decimal { m: num, s: scale }
    }

    pub fn mantissa(&self) -> (r: i128)
        ensures
            r == self.spec_mantissa(),
    {
        self.m
    }

    pub fn scale(&self) -> (r: u32)
        ensures
            r == self.spec_scale(),
    {
        self.s
    }

    pub fn is_zero_value(&self) -> (r: bool)
        ensures
            r == (self.sval() == 0),
    {
        proof {
            lemma_sval_zero_iff(*self);
        }
        self.m == 0
    }

    pub fn is_positive_value(&self) -> (r: bool)
        ensures
            r == (self.sval() > 0),
    {
        proof {
            lemma_sval_zero_iff(*self);
        }
        self.m > 0
    }

    pub fn is_negative_value(&self) -> (r: bool)
        ensures
            r == (self.sval() < 0),
    {
        proof {
            lemma_sval_zero_iff(*self);
        }
        self.m < 0
    }

    pub fn negate(&self) -> (r: Decimal)
        requires
            self.wf(),
        ensures
            r.wf(),
            r.sval() == -self.sval(),
            r.spec_scale() == self.spec_scale(),
    {
        proof {
            let p = pow10((28 - self.spec_scale()) as nat);
            assert((-self.spec_mantissa()) * p == -(self.spec_mantissa() * p)) by (nonlinear_arith);
        }
        Decimal { m: -self.m, s: self.s }
    }
}

/// The sign of `sval` is the sign of the mantissa.
proof fn lemma_sval_zero_iff(d: Decimal)
    ensures
        d.sval() > 0 <==> d.spec_mantissa() > 0,
        d.sval() < 0 <==> d.spec_mantissa() < 0,
        d.sval() == 0 <==> d.spec_mantissa() == 0,
{
    let p = pow10((28 - d.spec_scale()) as nat);
    lemma_pow10_pos((28 - d.spec_scale()) as nat);
    assert(d.spec_mantissa() > 0 ==> d.spec_mantissa() * p > 0) by (nonlinear_arith)
        requires
            p >= 1,
    ;
    assert(d.spec_mantissa() < 0 ==> d.spec_mantissa() * p < 0) by (nonlinear_arith)
        requires
            p >= 1,
    ;
    assert(d.spec_mantissa() == 0 ==> d.spec_mantissa() * p == 0) by (nonlinear_arith);
}

pub open spec fn scale_max(a: nat, b: nat) -> nat {
    if a >= b {
        a
    } else {
        b
    }
}

/// Largest `sval` magnitude representable at scale `s`.
pub open spec fn scale_cap(s: nat) -> int {
    MAX_MANTISSA * pow10((28 - s) as nat)
}

/// The exact sum fits the primitive at the larger of the two scales.
pub open spec fn can_add(a: Decimal, b: Decimal) -> bool {
    abs(a.sval() + b.sval()) <= scale_cap(scale_max(a.spec_scale(), b.spec_scale()))
}

/// The exact difference fits the primitive at the larger of the two scales.
pub open spec fn can_sub(a: Decimal, b: Decimal) -> bool {
    abs(a.sval() - b.sval()) <= scale_cap(scale_max(a.spec_scale(), b.spec_scale()))
}

/// The exact product fits the primitive at the sum of the scales.
pub open spec fn can_mul(a: Decimal, b: Decimal) -> bool {
    a.spec_scale() + b.spec_scale() <= 28 && abs(a.spec_mantissa() * b.spec_mantissa())
        <= MAX_MANTISSA
}

/// The divisor is nonzero and the quotient cannot overflow the primitive.
pub open spec fn can_div(a: Decimal, b: Decimal) -> bool {
    b.spec_mantissa() != 0 && abs(a.sval()) < abs(b.sval()) * (MAX_MANTISSA - 1)
}

/// Relies on rust_decimal's `Add` (the `+` operator): when the exact sum is
/// representable at the larger of the two operand scales, the returned
/// decimal carries exactly that sum, at a scale no larger than that.
#[verifier::external_body]
pub(crate) fn decimal_add(a: &Decimal, b: &Decimal) -> (r: Decimal)
    requires
        a.wf(),
        b.wf(),
        can_add(*a, *b),
    ensures
        r.wf(),
        r.sval() == a.sval() + b.sval(),
        r.spec_scale() <= scale_max(a.spec_scale(), b.spec_scale()),
{
    let x = rust_decimal::Decimal::from_i128_with_scale(a.m, a.s);
    let y = rust_decimal::Decimal::from_i128_with_scale(b.m, b.s);
    let z = x + y;
    Decimal { m: z.mantissa(), s: z.scale() }
}

/// Relies on rust_decimal's `Sub` (the `-` operator): when the exact
/// difference is representable at the larger of the two operand scales, the
/// returned decimal carries exactly that difference.
#[verifier::external_body]
pub(crate) fn decimal_sub(a: &Decimal, b: &Decimal) -> (r: Decimal)
    requires
        a.wf(),
        b.wf(),
        can_sub(*a, *b),
    ensures
        r.wf(),
        r.sval() == a.sval() - b.sval(),
        r.spec_scale() <= scale_max(a.spec_scale(), b.spec_scale()),
{
    let x = rust_decimal::Decimal::from_i128_with_scale(a.m, a.s);
    let y = rust_decimal::Decimal::from_i128_with_scale(b.m, b.s);
    let z = x - y;
    Decimal { m: z.mantissa(), s: z.scale() }
}

/// Relies on rust_decimal's `Mul` (the `*` operator): when the mantissa
/// product fits 96 bits and the scales sum to at most 28, the product is
/// exact, at a scale no larger than that sum.
#[verifier::external_body]
pub(crate) fn decimal_mul(a: &Decimal, b: &Decimal) -> (r: Decimal)
    requires
        a.wf(),
        b.wf(),
        can_mul(*a, *b),
    ensures
        r.wf(),
        r.sval() * pow10(28) == a.sval() * b.sval(),
        r.spec_scale() <= a.spec_scale() + b.spec_scale(),
{
    let x = rust_decimal::Decimal::from_i128_with_scale(a.m, a.s);
    let y = rust_decimal::Decimal::from_i128_with_scale(b.m, b.s);
    let z = x * y;
    Decimal { m: z.mantissa(), s: z.scale() }
}

/// The scaled value `qd` has an exact representation in the decimal
/// primitive: at some scale its mantissa is whole and within 96 bits.
pub open spec fn representable(qd: int) -> bool {
    exists|s: nat|
        #![trigger pow10((28 - s) as nat)]
        s <= 28 && qd % pow10((28 - s) as nat) == 0 && -MAX_MANTISSA <= qd / pow10(
            (28 - s) as nat,
        ) <= MAX_MANTISSA
}

/// What rust_decimal's division returns, as an `sval`; a pure function of
/// the two operands' mantissas and scales.
pub uninterp spec fn decimal_quotient(am: int, ascale: nat, bm: int, bscale: nat) -> int;

/// Relies on rust_decimal's `Div` (the `/` operator): the quotient depends
/// only on the operands, and whenever the exact quotient is representable
/// within 28 fractional digits and a 96-bit mantissa it is returned exactly.
#[verifier::external_body]
pub(crate) fn decimal_div(a: &Decimal, b: &Decimal) -> (r: Decimal)
    requires
        a.wf(),
        b.wf(),
        can_div(*a, *b),
    ensures
        r.wf(),
        r.sval() == decimal_quotient(
            a.spec_mantissa(),
            a.spec_scale(),
            b.spec_mantissa(),
            b.spec_scale(),
        ),
        (a.sval() * pow10(28)) % b.sval() == 0 && representable((a.sval() * pow10(28)) / b.sval())
            ==> r.sval() == (a.sval() * pow10(28)) / b.sval(),
{
    let x = rust_decimal::Decimal::from_i128_with_scale(a.m, a.s);
    let y = rust_decimal::Decimal::from_i128_with_scale(b.m, b.s);
    let z = x / y;
    Decimal { m: z.mantissa(), s: z.scale() }
}

/// Relies on rust_decimal's `Ord::cmp`: a total order that agrees with the
/// numeric values of the operands.
#[verifier::external_body]
pub(crate) fn decimal_cmp(a: &Decimal, b: &Decimal) -> (r: i8)
    requires
        a.wf(),
        b.wf(),
    ensures
        (r == -1i8 <==> a.sval() < b.sval()),
        (r == 0i8 <==> a.sval() == b.sval()),
        (r == 1i8 <==> a.sval() > b.sval()),
{
    let x = rust_decimal::Decimal::from_i128_with_scale(a.m, a.s);
    let y = rust_decimal::Decimal::from_i128_with_scale(b.m, b.s);
    match x.cmp(&y) {
        core::cmp::Ordering::Less => -1,
        core::cmp::Ordering::Equal => 0,
        core::cmp::Ordering::Greater => 1,
    }
}

/// Textbook rounding of `m` to a multiple of positive `p`, expressed in
/// units of `p`: round to the nearest, breaking exact halves per strategy.
pub open spec fn rounded_units(m: int, p: int, strategy: Round) -> int {
    let q = m / p;
    let r = m % p;
    if 2 * r < p {
        q
    } else if 2 * r > p {
        q + 1
    } else {
        match strategy {
            Round::HalfUp => if m >= 0 {
                q + 1
            } else {
                q
            },
            Round::HalfDown => if m >= 0 {
                q
            } else {
                q + 1
            },
            Round::HalfEven => if q % 2 == 0 {
                q
            } else {
                q + 1
            },
        }
    }
}

/// The `sval` that quantizing `d` to `digits` fractional places yields.
pub open spec fn round_spec(d: Decimal, digits: nat, strategy: Round) -> int {
    if digits >= d.spec_scale() {
        d.sval()
    } else {
        rounded_units(d.spec_mantissa(), pow10((d.spec_scale() - digits) as nat), strategy)
            * pow10((28 - digits) as nat)
    }
}

/// Quantize to `digits` fractional places with the given midpoint strategy.
pub(crate) fn decimal_round_dp(d: &Decimal, digits: u32, strategy: &Round) -> (r: Decimal)
    requires
        d.wf(),
    ensures
        r.wf(),
        r.sval() == round_spec(*d, digits as nat, *strategy),
        r.spec_scale() == (if digits as nat <= d.spec_scale() {
            digits as nat
        } else {
            d.spec_scale()
        }),
{
    if digits >= d.s {
        return *d;
    }
    let p: i128 = pow10_i128(d.s - digits);
    proof {
        lemma_pow10_increases(1, (d.spec_scale() - digits) as nat);
    }
    let qr = euclid_div_mod(d.m, p);
    let q: i128 = qr.0;
    let r: i128 = qr.1;
    proof {
        lemma_fundamental_for_round(d.spec_mantissa(), p as int);
        lemma_pow10_increases((d.spec_scale() - digits) as nat, 28);
        lemma_pow10_28();
        assert(-MAX_MANTISSA <= q && q + 1 <= MAX_MANTISSA) by (nonlinear_arith)
            requires
                q == d.spec_mantissa() as int / p as int,
                0 <= r < p,
                q * p + r == d.spec_mantissa(),
                p >= 10,
                -MAX_MANTISSA <= d.spec_mantissa() <= MAX_MANTISSA,
        ;
    }
    let up: bool = if 2 * r < p {
        false
    } else if 2 * r > p {
        true
    } else {
        match strategy {
            Round::HalfUp => d.m >= 0,
            Round::HalfDown => d.m < 0,
            Round::HalfEven => {
                let pr = euclid_div_mod(q, 2);
                pr.1 != 0
            },
        }
    };
    let m2: i128 = if up {
        q + 1
    } else {
        q
    };
    Decimal { m: m2, s: digits }
}

proof fn lemma_fundamental_for_round(m: int, p: int)
    requires
        p > 0,
    ensures
        (m / p) * p + (m % p) == m,
{
    vstd::arithmetic::div_mod::lemma_fundamental_div_mod(m, p);
    assert(p * (m / p) == (m / p) * p) by (nonlinear_arith);
}

} // verus!
