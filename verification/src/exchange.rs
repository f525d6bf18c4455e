use vstd::prelude::*;

use crate::currency::{cur_eq, currency_eq, str_eq, Currency};
use crate::decimal::{can_mul, Decimal};
use crate::error::MoneyError;
use crate::money::Money;

verus! {


/// An exchange rate: multiply an amount in `from` by `rate` to obtain an
/// amount in `to`. Immutable once created.
#[derive(Clone, Copy, Debug)]
pub struct ExchangeRate {
    pub from: Currency,
    pub to: Currency,
    pub rate: Decimal,
}

impl ExchangeRate {
    pub open spec fn wf(self) -> bool {
        self.rate.wf()
    }

    pub fn new(from: Currency, to: Currency, rate: Decimal) -> (r: ExchangeRate)
        requires
            rate.wf(),
        ensures
            r.from == from,
            r.to == to,
            r.rate == rate,
            r.wf(),
    {
        ExchangeRate { from, to, rate }
    }

    /// Converts `amount` into the destination currency by multiplying with
    /// the rate, at full precision; an amount whose currency is not the
    /// rate's source is rejected with `InvalidCurrency`.
    pub fn convert(&self, amount: Money) -> (res: Result<Money, MoneyError>)
        requires
            self.wf(),
            amount.wf(),
            cur_eq(amount.spec_currency(), self.from) ==> can_mul(
                amount.spec_amount(),
                self.rate,
            ),
        ensures
            res is Ok <==> cur_eq(amount.spec_currency(), self.from),
            !cur_eq(amount.spec_currency(), self.from) ==> res == Err::<Money, MoneyError>(
                MoneyError::InvalidCurrency,
            ),
            res matches Ok(m) ==> m.wf() && m.spec_currency() == self.to && m.sval()
                * crate::arith::pow10(28) == amount.sval() * self.rate.sval(),
    {
        if !currency_eq(&amount.currency(), &self.from) {
            return Err(MoneyError::InvalidCurrency);
        }
        let converted = amount.mul_dec(&self.rate);
        Ok(Money::from_decimal(*converted.amount(), self.to))
    }
}

/// Looks up the first rate stored for the ordered code pair, if any.
pub open spec fn find_rate(rates: Seq<ExchangeRate>, fc: Seq<char>, tc: Seq<char>) -> Option<
    ExchangeRate,
>
    decreases rates.len(),
{
    if rates.len() == 0 {
        None
    } else if rates[0].from.code@ == fc && rates[0].to.code@ == tc {
        Some(rates[0])
    } else {
        find_rate(rates.skip(1), fc, tc)
    }
}

/// A caller-owned store of exchange rates, keyed by the ordered pair of
/// currency codes; setting a pair again overwrites its previous rate.
pub struct Exchange {
    rates: Vec<ExchangeRate>,
}

impl Exchange {
    pub closed spec fn spec_rates(self) -> Seq<ExchangeRate> {
        self.rates@
    }

    pub open spec fn wf(self) -> bool {
        forall|i: int|
            0 <= i < self.spec_rates().len() ==> (#[trigger] self.spec_rates()[i]).wf()
    }

    pub fn new() -> (r: Exchange)
        ensures
            r.wf(),
            r.spec_rates().len() == 0,
    {
        Exchange { rates: Vec::new() }
    }

    /// Stores `rate` for its ordered pair `(from, to)`, replacing any rate
    /// the pair had; every other pair's lookup is unchanged.
    #[verifier::loop_isolation(false)]
    pub fn set_rate(&mut self, rate: &ExchangeRate)
        requires
            old(self).wf(),
            rate.wf(),
        ensures
            final(self).wf(),
            forall|fc: Seq<char>, tc: Seq<char>|
                #[trigger] find_rate(final(self).spec_rates(), fc, tc) == (if fc == rate.from.code@
                    && tc == rate.to.code@ {
                    Some(*rate)
                } else {
                    find_rate(old(self).spec_rates(), fc, tc)
                }),
    {
        let ghost old_rates = self.rates@;
        let n = self.rates.len();
        let mut i: usize = 0;
        while i < n
            invariant
                n == self.rates@.len(),
                self.rates@ == old_rates,
                0 <= i <= n,
                forall|j: int|
                    0 <= j < i ==> !((#[trigger] old_rates[j]).from.code@ == rate.from.code@
                        && old_rates[j].to.code@ == rate.to.code@),
            decreases n - i,
        {
            let hit = {
                let e = &self.rates[i];
                str_eq(e.from.code, rate.from.code) && str_eq(e.to.code, rate.to.code)
            };
            if hit {
                self.rates.set(i, *rate);
                proof {
                    lemma_find_rate_update(old_rates, self.rates@, *rate, i as int);
                }
                return ;
            }
            i = i + 1;
        }
        self.rates.push(*rate);
        proof {
            lemma_find_rate_append(old_rates, self.rates@, *rate);
        }
    }

    /// The rate stored for the ordered pair of the two currencies' codes,
    /// or `None` if the pair was never set.
    #[verifier::loop_isolation(false)]
    pub fn get_rate(&self, from: Currency, to: Currency) -> (res: Option<ExchangeRate>)
        ensures
            res == find_rate(self.spec_rates(), from.code@, to.code@),
    {
        let n = self.rates.len();
        let mut i: usize = 0;
        proof {
            assert(self.spec_rates().skip(0) =~= self.spec_rates());
        }
        while i < n
            invariant
                n == self.rates@.len(),
                0 <= i <= n,
                find_rate(self.spec_rates(), from.code@, to.code@) == find_rate(
                    self.spec_rates().skip(i as int),
                    from.code@,
                    to.code@,
                ),
            decreases n - i,
        {
            let e = &self.rates[i];
            proof {
                assert(self.spec_rates().skip(i as int)[0] == self.spec_rates()[i as int]);
                assert(self.spec_rates().skip(i as int).skip(1) =~= self.spec_rates().skip(
                    i + 1,
                ));
            }
            if str_eq(e.from.code, from.code) && str_eq(e.to.code, to.code) {
                return Some(*e);
            }
            i = i + 1;
        }
        proof {
            assert(self.spec_rates().skip(n as int) =~= Seq::<ExchangeRate>::empty());
        }
        None
    }
}

/// Replacing the one entry that carries a pair leaves every lookup either
/// at the new rate (that pair) or unchanged (any other pair).
proof fn lemma_find_rate_update(
    old_rates: Seq<ExchangeRate>,
    new_rates: Seq<ExchangeRate>,
    rate: ExchangeRate,
    i: int,
)
    requires
        0 <= i < old_rates.len(),
        new_rates == old_rates.update(i, rate),
        old_rates[i].from.code@ == rate.from.code@,
        old_rates[i].to.code@ == rate.to.code@,
        forall|j: int|
            0 <= j < i ==> !((#[trigger] old_rates[j]).from.code@ == rate.from.code@
                && old_rates[j].to.code@ == rate.to.code@),
    ensures
        forall|fc: Seq<char>, tc: Seq<char>|
            #[trigger] find_rate(new_rates, fc, tc) == (if fc == rate.from.code@ && tc
                == rate.to.code@ {
                Some(rate)
            } else {
                find_rate(old_rates, fc, tc)
            }),
    decreases old_rates.len(),
{
    assert forall|fc: Seq<char>, tc: Seq<char>| #[trigger] find_rate(new_rates, fc, tc) == (if fc
        == rate.from.code@ && tc == rate.to.code@ {
        Some(rate)
    } else {
        find_rate(old_rates, fc, tc)
    }) by {
        lemma_find_rate_update_one(old_rates, new_rates, rate, i, fc, tc);
    }
}

proof fn lemma_find_rate_update_one(
    old_rates: Seq<ExchangeRate>,
    new_rates: Seq<ExchangeRate>,
    rate: ExchangeRate,
    i: int,
    fc: Seq<char>,
    tc: Seq<char>,
)
    requires
        0 <= i < old_rates.len(),
        new_rates == old_rates.update(i, rate),
        old_rates[i].from.code@ == rate.from.code@,
        old_rates[i].to.code@ == rate.to.code@,
        forall|j: int|
            0 <= j < i ==> !((#[trigger] old_rates[j]).from.code@ == rate.from.code@
                && old_rates[j].to.code@ == rate.to.code@),
    ensures
        find_rate(new_rates, fc, tc) == (if fc == rate.from.code@ && tc == rate.to.code@ {
            Some(rate)
        } else {
            find_rate(old_rates, fc, tc)
        }),
    decreases old_rates.len(),
{
    assert(new_rates.len() == old_rates.len());
    assert(new_rates[0] == if i == 0 {
        rate
    } else {
        old_rates[0]
    });
    if i == 0 {
        if fc == rate.from.code@ && tc == rate.to.code@ {
        } else {
            assert(new_rates.skip(1) =~= old_rates.skip(1));
        }
    } else {
        let o1 = old_rates.skip(1);
        let n1 = new_rates.skip(1);
        assert(n1 =~= o1.update(i - 1, rate));
        assert(forall|j: int| 0 <= j < o1.len() ==> (#[trigger] o1[j]) == old_rates[j + 1]);
        lemma_find_rate_update_one(o1, n1, rate, i - 1, fc, tc);
    }
}

/// Appending an entry for a pair that no existing entry carries adds that
/// lookup and leaves every other pair's lookup unchanged.
proof fn lemma_find_rate_append(
    old_rates: Seq<ExchangeRate>,
    new_rates: Seq<ExchangeRate>,
    rate: ExchangeRate,
)
    requires
        new_rates == old_rates.push(rate),
        forall|j: int|
            0 <= j < old_rates.len() ==> !((#[trigger] old_rates[j]).from.code@ == rate.from.code@
                && old_rates[j].to.code@ == rate.to.code@),
    ensures
        forall|fc: Seq<char>, tc: Seq<char>|
            #[trigger] find_rate(new_rates, fc, tc) == (if fc == rate.from.code@ && tc
                == rate.to.code@ {
                Some(rate)
            } else {
                find_rate(old_rates, fc, tc)
            }),
    decreases old_rates.len(),
{
    assert forall|fc: Seq<char>, tc: Seq<char>| #[trigger] find_rate(new_rates, fc, tc) == (if fc
        == rate.from.code@ && tc == rate.to.code@ {
        Some(rate)
    } else {
        find_rate(old_rates, fc, tc)
    }) by {
        lemma_find_rate_append_one(old_rates, new_rates, rate, fc, tc);
    }
}

proof fn lemma_find_rate_append_one(
    old_rates: Seq<ExchangeRate>,
    new_rates: Seq<ExchangeRate>,
    rate: ExchangeRate,
    fc: Seq<char>,
    tc: Seq<char>,
)
    requires
        new_rates == old_rates.push(rate),
        forall|j: int|
            0 <= j < old_rates.len() ==> !((#[trigger] old_rates[j]).from.code@ == rate.from.code@
                && old_rates[j].to.code@ == rate.to.code@),
    ensures
        find_rate(new_rates, fc, tc) == (if fc == rate.from.code@ && tc == rate.to.code@ {
            Some(rate)
        } else {
            find_rate(old_rates, fc, tc)
        }),
    decreases old_rates.len(),
{
    if old_rates.len() == 0 {
        assert(new_rates[0] == rate);
        assert(new_rates.skip(1) =~= Seq::<ExchangeRate>::empty());
    } else {
        assert(new_rates[0] == old_rates[0]);
        let o1 = old_rates.skip(1);
        let n1 = new_rates.skip(1);
        assert(n1 =~= o1.push(rate));
        assert(forall|j: int| 0 <= j < o1.len() ==> (#[trigger] o1[j]) == old_rates[j + 1]);
        lemma_find_rate_append_one(o1, n1, rate, fc, tc);
    }
}

} // verus!
