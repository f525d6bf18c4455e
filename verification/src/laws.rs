use vstd::prelude::*;

use crate::arith::{lemma_pow10_adds, lemma_pow10_pos, pow10};
use crate::currency::Currency;
use crate::decimal::{round_spec, Decimal};
use crate::exchange::{find_rate, ExchangeRate};
use crate::format::{dec_digits, grouped, pad_left, spec_format_money, zero_run};
use crate::money::Round;

verus! {

use vstd::arithmetic::div_mod::lemma_div_of0;
use vstd::math::abs;

/// An amount built from minor units equals the amount built from the
/// corresponding major units: `from_minor(a * 10^exponent, c)` and
/// `from_major(a, c)` carry the same value, since the former's `sval` is
/// `(a * 10^exponent) * 10^(28 - exponent)` and the latter's is
/// `a * 10^28`.
pub proof fn lemma_minor_major_round_trip(amount: int, exponent: nat)
    requires
        exponent <= 28,
    ensures
        (amount * pow10(exponent)) * pow10((28 - exponent) as nat) == amount * pow10(28),
{
    lemma_pow10_adds(exponent, (28 - exponent) as nat);
    assert((amount * pow10(exponent)) * pow10((28 - exponent) as nat) == amount * (pow10(exponent)
        * pow10((28 - exponent) as nat))) by (nonlinear_arith);
}

/// Looking up any pair in an empty rate store finds nothing.
pub proof fn lemma_exchange_empty(fc: Seq<char>, tc: Seq<char>)
    ensures
        find_rate(Seq::<ExchangeRate>::empty(), fc, tc) is None,
{
}

/// Setting a rate and then reading the same ordered pair returns exactly
/// that rate, and leaves the lookup of every other ordered pair as it
/// was; `before` and `after` are the store's rate sequences around a
/// `set_rate` call, related as its contract states.
pub proof fn lemma_exchange_set_then_get(
    before: Seq<ExchangeRate>,
    after: Seq<ExchangeRate>,
    rate: ExchangeRate,
)
    requires
        forall|fc: Seq<char>, tc: Seq<char>|
            #[trigger] find_rate(after, fc, tc) == (if fc == rate.from.code@ && tc
                == rate.to.code@ {
                Some(rate)
            } else {
                find_rate(before, fc, tc)
            }),
    ensures
        find_rate(after, rate.from.code@, rate.to.code@) == Some(rate),
        forall|fc: Seq<char>, tc: Seq<char>|
            !(fc == rate.from.code@ && tc == rate.to.code@) ==> #[trigger] find_rate(
                after,
                fc,
                tc,
            ) == find_rate(before, fc, tc),
{
}

/// A zero amount formats as a single zero digit, the exponent separator,
/// and the currency's full exponent of zero digits, with the symbol
/// placed per `symbol_first` and no sign.
pub proof fn lemma_format_zero(d: Decimal, c: Currency)
    requires
        d.wf(),
        d.sval() == 0,
        c.exponent > 0,
    ensures
        spec_format_money(d, c) == (if c.symbol_first {
            c.symbol@ + (seq!['0', crate::currency::spec_exponent_separator(c.locale)] + zero_run(
                c.exponent as nat,
            ))
        } else {
            (seq!['0', crate::currency::spec_exponent_separator(c.locale)] + zero_run(
                c.exponent as nat,
            )) + c.symbol@
        }),
{
    let e = c.exponent as nat;
    let p0 = pow10((28 - d.spec_scale()) as nat);
    lemma_pow10_pos((28 - d.spec_scale()) as nat);
    assert(d.spec_mantissa() == 0) by (nonlinear_arith)
        requires
            d.spec_mantissa() * p0 == 0,
            p0 >= 1,
    ;
    let rs0 = if e <= d.spec_scale() {
        e
    } else {
        d.spec_scale()
    };
    let rv = round_spec(d, e, Round::HalfEven);
    if e < d.spec_scale() {
        let pr = pow10((d.spec_scale() - e) as nat);
        lemma_pow10_pos((d.spec_scale() - e) as nat);
        lemma_div_of0(pr);
        vstd::arithmetic::div_mod::lemma_mod_bound(0, pr);
        vstd::arithmetic::div_mod::lemma_small_mod(0, pr as nat);
        assert(0 * pow10((28 - e) as nat) == 0) by (nonlinear_arith);
    }
    assert(rv == 0);
    lemma_pow10_pos((28 - rs0) as nat);
    lemma_div_of0(pow10((28 - rs0) as nat));
    let rm = rv / pow10((28 - rs0) as nat);
    assert(rm == 0);
    lemma_pow10_pos(rs0);
    lemma_div_of0(pow10(rs0));
    vstd::arithmetic::div_mod::lemma_small_mod(0, pow10(rs0) as nat);
    assert(abs(0) as int / pow10(rs0) == 0);
    assert(dec_digits(0) =~= seq!['0']);
    let pat = crate::currency::spec_grouping(c.locale);
    assert(grouped(seq!['0'], crate::currency::spec_digit_separator(c.locale), pat, 0) == seq![
        '0',
    ]) by {
        match c.locale {
            crate::currency::Locale::EnUs => {},
            crate::currency::Locale::EnEu => {},
            crate::currency::Locale::EnIn => {},
        }
    }
    let frac = if rs0 == 0 {
        zero_run(e)
    } else {
        pad_left(dec_digits(0), rs0) + zero_run((e - rs0) as nat)
    };
    assert(frac =~= zero_run(e));
    assert(spec_format_money(d, c) == (if c.symbol_first {
        Seq::<char>::empty() + c.symbol@ + (seq!['0'] + seq![
            crate::currency::spec_exponent_separator(c.locale),
        ] + zero_run(e))
    } else {
        Seq::<char>::empty() + (seq!['0'] + seq![crate::currency::spec_exponent_separator(c.locale)]
            + zero_run(e)) + c.symbol@
    }));
    if c.symbol_first {
        assert(spec_format_money(d, c) =~= c.symbol@ + (seq![
            '0',
            crate::currency::spec_exponent_separator(c.locale),
        ] + zero_run(e)));
    } else {
        assert(spec_format_money(d, c) =~= (seq![
            '0',
            crate::currency::spec_exponent_separator(c.locale),
        ] + zero_run(e)) + c.symbol@);
    }
}

} // verus!
