use vstd::prelude::*;

use crate::arith::{lemma_mul_cancel, lemma_pow10_increases, lemma_pow10_pos, pow10};
use crate::currency::{cur_eq, currency_eq, Currency};
use crate::decimal::{
    can_add, can_div, can_mul, can_sub, decimal_add, decimal_cmp, decimal_div, decimal_mul,
    decimal_quotient, decimal_round_dp, decimal_sub, representable, round_spec, scale_cap,
    scale_max, Decimal, MAX_MANTISSA,
};

verus! {

use vstd::math::abs;

/// Midpoint strategies for [`Money::round`]: round an exact half toward
/// zero, away from zero, or to the nearest even unit.
pub enum Round {
    HalfUp,
    HalfDown,
    HalfEven,
}

/// An exact decimal amount denominated in a currency. Arithmetic between
/// two `Money` values demands equal currencies; the currency is never
/// coerced.
#[derive(Clone, Copy, Debug)]
pub struct Money {
    amount: Decimal,
    currency: Currency,
}

impl Money {
    pub closed spec fn spec_amount(self) -> Decimal {
        self.amount
    }

    pub closed spec fn spec_currency(self) -> Currency {
        self.currency
    }

    pub open spec fn wf(self) -> bool {
        self.spec_amount().wf()
    }

    /// The amount as an integer count of `10^-28` units.
    pub open spec fn sval(self) -> int {
        self.spec_amount().sval()
    }

    /// Interprets `amount` as minor units: the value is
    /// `amount * 10^(-exponent)` of the currency's major unit.
    pub fn from_minor(amount: i128, currency: Currency) -> (r: Money)
        requires
            -MAX_MANTISSA <= amount <= MAX_MANTISSA,
            currency.exponent <= 28,
        ensures
            r.wf(),
            r.spec_currency() == currency,
            r.spec_amount().spec_mantissa() == amount,
            r.spec_amount().spec_scale() == currency.exponent,
            r.sval() == amount * pow10((28 - currency.exponent) as nat),
    {
        Money { amount: Decimal::from_i128_with_scale(amount, currency.exponent), currency }
    }

    /// Interprets `amount` as whole major units.
    pub fn from_major(amount: i64, currency: Currency) -> (r: Money)
        ensures
            r.wf(),
            r.spec_currency() == currency,
            r.spec_amount().spec_mantissa() == amount,
            r.spec_amount().spec_scale() == 0,
            r.sval() == amount * pow10(28),
    {
        Money { amount: Decimal::new(amount, 0), currency }
    }

    /// Pairs an already-built decimal with a currency, unchanged.
    pub fn from_decimal(amount: Decimal, currency: Currency) -> (r: Money)
        requires
            amount.wf(),
        ensures
            r.wf(),
            r.spec_amount() == amount,
            r.spec_currency() == currency,
    {
        Money { amount, currency }
    }

    pub fn amount(&self) -> (r: &Decimal)
        ensures
            *r == self.spec_amount(),
    {
        &self.amount
    }

    pub fn currency(&self) -> (r: Currency)
        ensures
            r == self.spec_currency(),
    {
        self.currency
    }

    pub fn is_zero(&self) -> (r: bool)
        ensures
            r == (self.sval() == 0),
    {
        self.amount.is_zero_value()
    }

    pub fn is_positive(&self) -> (r: bool)
        ensures
            r == (self.sval() > 0),
    {
        self.amount.is_positive_value()
    }

    pub fn is_negative(&self) -> (r: bool)
        ensures
            r == (self.sval() < 0),
    {
        self.amount.is_negative_value()
    }

    /// Sum of two amounts of one currency, at full precision.
    pub fn add(&self, other: &Money) -> (r: Money)
        requires
            self.wf(),
            other.wf(),
            cur_eq(self.spec_currency(), other.spec_currency()),
            can_add(self.spec_amount(), other.spec_amount()),
        ensures
            r.wf(),
            r.spec_currency() == self.spec_currency(),
            r.sval() == self.sval() + other.sval(),
            r.spec_amount().spec_scale() <= scale_max(
                self.spec_amount().spec_scale(),
                other.spec_amount().spec_scale(),
            ),
    {
        Money { amount: decimal_add(&self.amount, &other.amount), currency: self.currency }
    }

    /// Difference of two amounts of one currency, at full precision.
    pub fn sub(&self, other: &Money) -> (r: Money)
        requires
            self.wf(),
            other.wf(),
            cur_eq(self.spec_currency(), other.spec_currency()),
            can_sub(self.spec_amount(), other.spec_amount()),
        ensures
            r.wf(),
            r.spec_currency() == self.spec_currency(),
            r.sval() == self.sval() - other.sval(),
            r.spec_amount().spec_scale() <= scale_max(
                self.spec_amount().spec_scale(),
                other.spec_amount().spec_scale(),
            ),
    {
        Money { amount: decimal_sub(&self.amount, &other.amount), currency: self.currency }
    }

    pub fn add_assign(&mut self, other: &Money)
        requires
            old(self).wf(),
            other.wf(),
            cur_eq(old(self).spec_currency(), other.spec_currency()),
            can_add(old(self).spec_amount(), other.spec_amount()),
        ensures
            final(self).wf(),
            final(self).spec_currency() == old(self).spec_currency(),
            final(self).sval() == old(self).sval() + other.sval(),
    {
        let s = *self;
        *self = s.add(other);
    }

    pub fn sub_assign(&mut self, other: &Money)
        requires
            old(self).wf(),
            other.wf(),
            cur_eq(old(self).spec_currency(), other.spec_currency()),
            can_sub(old(self).spec_amount(), other.spec_amount()),
        ensures
            final(self).wf(),
            final(self).spec_currency() == old(self).spec_currency(),
            final(self).sval() == old(self).sval() - other.sval(),
    {
        let s = *self;
        *self = s.sub(other);
    }

    /// The same amount with its sign flipped.
    pub fn neg(&self) -> (r: Money)
        requires
            self.wf(),
        ensures
            r.wf(),
            r.spec_currency() == self.spec_currency(),
            r.sval() == -self.sval(),
    {
        Money { amount: self.amount.negate(), currency: self.currency }
    }

    /// Exact equality: same currency and exactly the same amount.
    pub fn eq(&self, other: &Money) -> (r: bool)
        requires
            self.wf(),
            other.wf(),
        ensures
            r == (cur_eq(self.spec_currency(), other.spec_currency()) && self.sval()
                == other.sval()),
    {
        currency_eq(&self.currency, &other.currency) && decimal_cmp(&self.amount, &other.amount)
            == 0
    }

    pub fn ne(&self, other: &Money) -> (r: bool)
        requires
            self.wf(),
            other.wf(),
        ensures
            r == !(cur_eq(self.spec_currency(), other.spec_currency()) && self.sval()
                == other.sval()),
    {
        !self.eq(other)
    }

    pub fn lt(&self, other: &Money) -> (r: bool)
        requires
            self.wf(),
            other.wf(),
            cur_eq(self.spec_currency(), other.spec_currency()),
        ensures
            r == (self.sval() < other.sval()),
    {
        decimal_cmp(&self.amount, &other.amount) == -1
    }

    pub fn gt(&self, other: &Money) -> (r: bool)
        requires
            self.wf(),
            other.wf(),
            cur_eq(self.spec_currency(), other.spec_currency()),
        ensures
            r == (self.sval() > other.sval()),
    {
        decimal_cmp(&self.amount, &other.amount) == 1
    }

    pub fn le(&self, other: &Money) -> (r: bool)
        requires
            self.wf(),
            other.wf(),
            cur_eq(self.spec_currency(), other.spec_currency()),
        ensures
            r == (self.sval() <= other.sval()),
    {
        decimal_cmp(&self.amount, &other.amount) != 1
    }

    pub fn ge(&self, other: &Money) -> (r: bool)
        requires
            self.wf(),
            other.wf(),
            cur_eq(self.spec_currency(), other.spec_currency()),
        ensures
            r == (self.sval() >= other.sval()),
    {
        decimal_cmp(&self.amount, &other.amount) != -1
    }

    /// Scales the amount by an integer factor; the scalar carries no
    /// currency, so no currency check applies.
    pub fn mul_int(&self, rhs: i128) -> (r: Money)
        requires
            self.wf(),
            -MAX_MANTISSA <= rhs <= MAX_MANTISSA,
            abs(self.spec_amount().spec_mantissa() * rhs) <= MAX_MANTISSA,
        ensures
            r.wf(),
            r.spec_currency() == self.spec_currency(),
            r.sval() == self.sval() * rhs,
            r.spec_amount().spec_scale() <= self.spec_amount().spec_scale(),
    {
        let d = Decimal::from_i128_with_scale(rhs, 0);
        let z = decimal_mul(&self.amount, &d);
        proof {
            assert(d.sval() == rhs * pow10(28));
            assert(self.sval() * (rhs * pow10(28)) == (self.sval() * rhs) * pow10(
                28,
            )) by (nonlinear_arith);
            lemma_pow10_pos(28);
            lemma_mul_cancel(z.sval(), self.sval() * rhs, pow10(28));
        }
        Money { amount: z, currency: self.currency }
    }

    /// Scales the amount by a decimal factor.
    pub fn mul_dec(&self, rhs: &Decimal) -> (r: Money)
        requires
            self.wf(),
            rhs.wf(),
            can_mul(self.spec_amount(), *rhs),
        ensures
            r.wf(),
            r.spec_currency() == self.spec_currency(),
            r.sval() * pow10(28) == self.sval() * rhs.sval(),
    {
        Money { amount: decimal_mul(&self.amount, rhs), currency: self.currency }
    }

    /// Divides the amount by a nonzero integer; the quotient is the decimal
    /// primitive's, exact whenever exactly representable.
    pub fn div_int(&self, rhs: i128) -> (r: Money)
        requires
            self.wf(),
            rhs != 0,
            -MAX_MANTISSA <= rhs <= MAX_MANTISSA,
            abs(self.sval()) < abs(rhs * pow10(28)) * (MAX_MANTISSA - 1),
        ensures
            r.wf(),
            r.spec_currency() == self.spec_currency(),
            r.sval() == decimal_quotient(
                self.spec_amount().spec_mantissa(),
                self.spec_amount().spec_scale(),
                rhs as int,
                0,
            ),
            (self.sval() * pow10(28)) % (rhs * pow10(28)) == 0 && representable(
                (self.sval() * pow10(28)) / (rhs * pow10(28)),
            ) ==> r.sval() == (self.sval() * pow10(28)) / (rhs * pow10(28)),
    {
        let d = Decimal::from_i128_with_scale(rhs, 0);
        proof {
            lemma_pow10_pos(28);
            assert(rhs != 0 ==> rhs * pow10(28) != 0) by (nonlinear_arith)
                requires
                    pow10(28) >= 1,
            ;
        }
        Money { amount: decimal_div(&self.amount, &d), currency: self.currency }
    }

    /// Divides the amount by a nonzero decimal.
    pub fn div_dec(&self, rhs: &Decimal) -> (r: Money)
        requires
            self.wf(),
            rhs.wf(),
            can_div(self.spec_amount(), *rhs),
        ensures
            r.wf(),
            r.spec_currency() == self.spec_currency(),
            r.sval() == decimal_quotient(
                self.spec_amount().spec_mantissa(),
                self.spec_amount().spec_scale(),
                rhs.spec_mantissa(),
                rhs.spec_scale(),
            ),
            (self.sval() * pow10(28)) % rhs.sval() == 0 && representable(
                (self.sval() * pow10(28)) / rhs.sval(),
            ) ==> r.sval() == (self.sval() * pow10(28)) / rhs.sval(),
    {
        Money { amount: decimal_div(&self.amount, rhs), currency: self.currency }
    }

    /// An integer divided by the amount, in the amount's currency.
    pub fn int_div(lhs: i128, rhs: &Money) -> (r: Money)
        requires
            rhs.wf(),
            -MAX_MANTISSA <= lhs <= MAX_MANTISSA,
            rhs.spec_amount().spec_mantissa() != 0,
            abs(lhs * pow10(28)) < abs(rhs.sval()) * (MAX_MANTISSA - 1),
        ensures
            r.wf(),
            r.spec_currency() == rhs.spec_currency(),
            r.sval() == decimal_quotient(
                lhs as int,
                0,
                rhs.spec_amount().spec_mantissa(),
                rhs.spec_amount().spec_scale(),
            ),
            ((lhs * pow10(28)) * pow10(28)) % rhs.sval() == 0 && representable(
                ((lhs * pow10(28)) * pow10(28)) / rhs.sval(),
            ) ==> r.sval() == ((lhs * pow10(28)) * pow10(28)) / rhs.sval(),
    {
        let d = Decimal::from_i128_with_scale(lhs, 0);
        Money { amount: decimal_div(&d, &rhs.amount), currency: rhs.currency }
    }

    /// A decimal divided by the amount, in the amount's currency.
    pub fn dec_div(lhs: &Decimal, rhs: &Money) -> (r: Money)
        requires
            lhs.wf(),
            rhs.wf(),
            can_div(*lhs, rhs.spec_amount()),
        ensures
            r.wf(),
            r.spec_currency() == rhs.spec_currency(),
            r.sval() == decimal_quotient(
                lhs.spec_mantissa(),
                lhs.spec_scale(),
                rhs.spec_amount().spec_mantissa(),
                rhs.spec_amount().spec_scale(),
            ),
            (lhs.sval() * pow10(28)) % rhs.sval() == 0 && representable(
                (lhs.sval() * pow10(28)) / rhs.sval(),
            ) ==> r.sval() == (lhs.sval() * pow10(28)) / rhs.sval(),
    {
        Money { amount: decimal_div(lhs, &rhs.amount), currency: rhs.currency }
    }

    pub fn mul_assign_int(&mut self, rhs: i128)
        requires
            old(self).wf(),
            -MAX_MANTISSA <= rhs <= MAX_MANTISSA,
            abs(old(self).spec_amount().spec_mantissa() * rhs) <= MAX_MANTISSA,
        ensures
            final(self).wf(),
            final(self).spec_currency() == old(self).spec_currency(),
            final(self).sval() == old(self).sval() * rhs,
    {
        let s = *self;
        *self = s.mul_int(rhs);
    }

    pub fn div_assign_int(&mut self, rhs: i128)
        requires
            old(self).wf(),
            rhs != 0,
            -MAX_MANTISSA <= rhs <= MAX_MANTISSA,
            abs(old(self).sval()) < abs(rhs * pow10(28)) * (MAX_MANTISSA - 1),
        ensures
            final(self).wf(),
            final(self).spec_currency() == old(self).spec_currency(),
            final(self).sval() == decimal_quotient(
                old(self).spec_amount().spec_mantissa(),
                old(self).spec_amount().spec_scale(),
                rhs as int,
                0,
            ),
    {
        let s = *self;
        *self = s.div_int(rhs);
    }

    pub fn mul_assign_dec(&mut self, rhs: &Decimal)
        requires
            old(self).wf(),
            rhs.wf(),
            can_mul(old(self).spec_amount(), *rhs),
        ensures
            final(self).wf(),
            final(self).spec_currency() == old(self).spec_currency(),
            final(self).sval() * pow10(28) == old(self).sval() * rhs.sval(),
    {
        let s = *self;
        *self = s.mul_dec(rhs);
    }

    pub fn div_assign_dec(&mut self, rhs: &Decimal)
        requires
            old(self).wf(),
            rhs.wf(),
            can_div(old(self).spec_amount(), *rhs),
        ensures
            final(self).wf(),
            final(self).spec_currency() == old(self).spec_currency(),
            final(self).sval() == decimal_quotient(
                old(self).spec_amount().spec_mantissa(),
                old(self).spec_amount().spec_scale(),
                rhs.spec_mantissa(),
                rhs.spec_scale(),
            ),
    {
        let s = *self;
        *self = s.div_dec(rhs);
    }

    /// A new amount quantized to `digits` fractional places with the given
    /// midpoint strategy; currency and all other attributes are unchanged.
    pub fn round(&self, digits: u32, strategy: Round) -> (r: Money)
        requires
            self.wf(),
        ensures
            r.wf(),
            r.spec_currency() == self.spec_currency(),
            r.sval() == round_spec(self.spec_amount(), digits as nat, strategy),
            r.spec_amount().spec_scale() == (if digits as nat <= self.spec_amount().spec_scale() {
                digits as nat
            } else {
                self.spec_amount().spec_scale()
            }),
    {
        Money {
            amount: decimal_round_dp(&self.amount, digits, &strategy),
            currency: self.currency,
        }
    }
}

/// Sum of the amounts of a sequence, in `10^-28` units.
pub open spec fn sum_svals(s: Seq<Money>) -> int
    decreases s.len(),
{
    if s.len() == 0 {
        0
    } else {
        sum_svals(s.drop_last()) + s.last().sval()
    }
}

/// Sum of the magnitudes of the amounts, an overflow budget for folding.
pub open spec fn abs_sum(s: Seq<Money>) -> int
    decreases s.len(),
{
    if s.len() == 0 {
        0
    } else {
        abs_sum(s.drop_last()) + abs(s.last().sval())
    }
}

/// The largest scale among the amounts.
pub open spec fn max_scale(s: Seq<Money>) -> nat
    decreases s.len(),
{
    if s.len() == 0 {
        0
    } else {
        scale_max(max_scale(s.drop_last()), s.last().spec_amount().spec_scale())
    }
}

proof fn lemma_prefix_bounds(s: Seq<Money>, k: int)
    requires
        0 <= k <= s.len(),
    ensures
        abs_sum(s.take(k)) <= abs_sum(s),
        max_scale(s.take(k)) <= max_scale(s),
    decreases s.len() - k,
{
    if k == s.len() {
        assert(s.take(k) =~= s);
    } else {
        lemma_prefix_bounds(s, k + 1);
        assert(s.take(k + 1).drop_last() =~= s.take(k));
        assert(s.take(k + 1).last() == s[k]);
        assert(abs(s[k].sval()) >= 0);
    }
}

proof fn lemma_elem_scale(s: Seq<Money>, i: int)
    requires
        0 <= i < s.len(),
    ensures
        s[i].spec_amount().spec_scale() <= max_scale(s),
    decreases s.len(),
{
    if i == s.len() - 1 {
    } else {
        assert(s.drop_last()[i] == s[i]);
        lemma_elem_scale(s.drop_last(), i);
    }
}

proof fn lemma_cap_anti(a: nat, b: nat)
    requires
        a <= b <= 28,
    ensures
        scale_cap(b) <= scale_cap(a),
{
    lemma_pow10_increases((28 - b) as nat, (28 - a) as nat);
    vstd::arithmetic::mul::lemma_mul_inequality(
        pow10((28 - b) as nat),
        pow10((28 - a) as nat),
        MAX_MANTISSA as int,
    );
    assert(pow10((28 - b) as nat) * MAX_MANTISSA == MAX_MANTISSA * pow10(
        (28 - b) as nat,
    )) by (nonlinear_arith);
    assert(pow10((28 - a) as nat) * MAX_MANTISSA == MAX_MANTISSA * pow10(
        (28 - a) as nat,
    )) by (nonlinear_arith);
}

proof fn lemma_max_scale_le28(s: Seq<Money>)
    requires
        forall|i: int| 0 <= i < s.len() ==> (#[trigger] s[i]).wf(),
    ensures
        max_scale(s) <= 28,
    decreases s.len(),
{
    if s.len() > 0 {
        assert(forall|i: int|
            0 <= i < s.drop_last().len() ==> (#[trigger] s.drop_last()[i]) == s[i]);
        lemma_max_scale_le28(s.drop_last());
        assert(s.last().wf());
    }
}

impl Money {
    /// Folds a non-empty sequence of amounts of one currency with `add`.
    pub fn sum(items: &Vec<Money>) -> (r: Money)
        requires
            items@.len() > 0,
            forall|i: int| 0 <= i < items@.len() ==> (#[trigger] items@[i]).wf(),
            forall|i: int|
                0 <= i < items@.len() ==> cur_eq(
                    (#[trigger] items@[i]).spec_currency(),
                    items@[0].spec_currency(),
                ),
            abs_sum(items@) <= scale_cap(max_scale(items@)),
        ensures
            r.wf(),
            r.spec_currency() == items@[0].spec_currency(),
            r.sval() == sum_svals(items@),
    {
        let mut acc: Money = items[0];
        let mut i: usize = 1;
        proof {
            assert(items@.take(1).drop_last() =~= Seq::<Money>::empty());
            assert(items@.take(1).last() == items@[0]);
            assert(sum_svals(Seq::<Money>::empty()) == 0);
            assert(abs_sum(Seq::<Money>::empty()) == 0);
            assert(max_scale(Seq::<Money>::empty()) == 0);
            assert(sum_svals(items@.take(1)) == items@[0].sval());
            assert(abs_sum(items@.take(1)) == abs(items@[0].sval()));
            lemma_max_scale_le28(items@);
        }
        while i < items.len()
            invariant
                1 <= i <= items@.len(),
                forall|j: int| 0 <= j < items@.len() ==> (#[trigger] items@[j]).wf(),
                forall|j: int|
                    0 <= j < items@.len() ==> cur_eq(
                        (#[trigger] items@[j]).spec_currency(),
                        items@[0].spec_currency(),
                    ),
                abs_sum(items@) <= scale_cap(max_scale(items@)),
                max_scale(items@) <= 28,
                acc.wf(),
                acc.spec_currency() == items@[0].spec_currency(),
                acc.sval() == sum_svals(items@.take(i as int)),
                abs(acc.sval()) <= abs_sum(items@.take(i as int)),
                acc.spec_amount().spec_scale() <= max_scale(items@.take(i as int)),
            decreases items@.len() - i,
        {
            let item = items[i];
            proof {
                let k = i as int;
                assert(items@.take(k + 1).drop_last() =~= items@.take(k));
                assert(items@.take(k + 1).last() == items@[k]);
                lemma_prefix_bounds(items@, k);
                lemma_prefix_bounds(items@, k + 1);
                lemma_elem_scale(items@, k);
                let sm = scale_max(
                    acc.spec_amount().spec_scale(),
                    item.spec_amount().spec_scale(),
                );
                assert(sm <= max_scale(items@));
                lemma_cap_anti(sm, max_scale(items@));
            }
            acc = acc.add(&item);
            i = i + 1;
        }
        proof {
            assert(items@.take(items@.len() as int) =~= items@);
        }
        acc
    }
}

} // verus!
