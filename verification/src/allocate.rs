use vstd::prelude::*;

use crate::arith::{
    euclid_div_mod, lemma_div_nested, lemma_pow10_adds, lemma_pow10_pos, pow10, pow10_i128,
};
use crate::decimal::{Decimal, MAX_MANTISSA};
use crate::error::MoneyError;
use crate::money::{sum_svals, Money};

verus! {

use vstd::arithmetic::div_mod::{
    lemma_fundamental_div_mod, lemma_mod_bound, lemma_mod_multiples_basic,
};
use vstd::math::abs;

/// A ratio sequence is acceptable when it is non-empty and every ratio is
/// strictly positive.
pub open spec fn ratios_valid(rs: Seq<i32>) -> bool {
    rs.len() > 0 && forall|i: int| 0 <= i < rs.len() ==> rs[i] > 0
}

/// Sum of the first `k` ratios.
pub open spec fn rsum(rs: Seq<i32>, k: int) -> int
    decreases k,
{
    if k <= 0 {
        0
    } else {
        rsum(rs, k - 1) + rs[k - 1]
    }
}

/// The amount has no sub-unit fractional component: its mantissa is a
/// multiple of `10^scale`.
pub open spec fn is_integral(d: Decimal) -> bool {
    d.spec_mantissa() % pow10(d.spec_scale()) == 0
}

/// The floored proportional share, in whole major units: with amount
/// mantissa `m` at scale `sc` and ratio total `t`, the share for ratio `r`
/// is `floor(m * r / (t * 10^sc))`.
pub open spec fn share_q(m: int, sc: nat, t: int, r: int) -> int {
    (m * r) / (t * pow10(sc))
}

/// Sum of the floored shares of the first `k` ratios.
pub open spec fn share_q_sum(m: int, sc: nat, t: int, rs: Seq<i32>, k: int) -> int
    decreases k,
{
    if k <= 0 {
        0
    } else {
        share_q_sum(m, sc, t, rs, k - 1) + share_q(m, sc, t, rs[k - 1] as int)
    }
}

/// Whole units left over once every floored share is taken.
pub open spec fn spec_leftover(m: int, sc: nat, t: int, rs: Seq<i32>) -> int {
    m / pow10(sc) - share_q_sum(m, sc, t, rs, rs.len() as int)
}

/// Sum of the mantissas of a sequence of amounts.
pub open spec fn mant_sum(s: Seq<Money>) -> int
    decreases s.len(),
{
    if s.len() == 0 {
        0
    } else {
        mant_sum(s.drop_last()) + s.last().spec_amount().spec_mantissa()
    }
}

proof fn lemma_rsum_lower(rs: Seq<i32>, k: int)
    requires
        forall|i: int| 0 <= i < rs.len() ==> rs[i] > 0,
        k <= rs.len(),
    ensures
        k <= rsum(rs, k),
    decreases k,
{
    if k > 0 {
        lemma_rsum_lower(rs, k - 1);
    }
}

proof fn lemma_rsum_upper(rs: Seq<i32>, k: int)
    requires
        forall|i: int| 0 <= i < rs.len() ==> rs[i] > 0,
        0 <= k <= rs.len(),
    ensures
        rsum(rs, k) + (rs.len() - k) <= rsum(rs, rs.len() as int),
    decreases rs.len() - k,
{
    if k < rs.len() {
        lemma_rsum_upper(rs, k + 1);
    }
}

proof fn lemma_rsum_bounds(rs: Seq<i32>, k: int)
    requires
        forall|i: int| 0 <= i < rs.len() ==> rs[i] > 0,
        0 <= k <= rs.len(),
    ensures
        k <= rsum(rs, k),
        rsum(rs, k) + (rs.len() - k) <= rsum(rs, rs.len() as int),
{
    lemma_rsum_lower(rs, k);
    lemma_rsum_upper(rs, k);
}

proof fn lemma_share_q_sum_congruent(m: int, sc: nat, t: int, a: Seq<i32>, b: Seq<i32>, k: int)
    requires
        0 <= k <= a.len(),
        k <= b.len(),
        forall|i: int| 0 <= i < k ==> a[i] == b[i],
    ensures
        share_q_sum(m, sc, t, a, k) == share_q_sum(m, sc, t, b, k),
    decreases k,
{
    if k > 0 {
        lemma_share_q_sum_congruent(m, sc, t, a, b, k - 1);
    }
}

/// A sequence whose mantissas are the floored shares, the first `k` of them
/// incremented by one, sums to the share sum plus `k`.
proof fn lemma_mant_sum_shares(s: Seq<Money>, m: int, sc: nat, t: int, rs: Seq<i32>, k: int)
    requires
        s.len() == rs.len(),
        0 <= k <= s.len(),
        forall|j: int|
            0 <= j < s.len() ==> (#[trigger] s[j]).spec_amount().spec_mantissa() == share_q(
                m,
                sc,
                t,
                rs[j] as int,
            ) + (if j < k {
                1int
            } else {
                0int
            }),
    ensures
        mant_sum(s) == share_q_sum(m, sc, t, rs, s.len() as int) + k,
    decreases s.len(),
{
    if s.len() > 0 {
        let n = s.len() as int;
        let s2 = s.drop_last();
        let rs2 = rs.drop_last();
        let k2 = if k == n {
            n - 1
        } else {
            k
        };
        assert(forall|j: int| 0 <= j < n - 1 ==> (#[trigger] s2[j]) == s[j]);
        assert(forall|j: int| 0 <= j < n - 1 ==> (#[trigger] rs2[j]) == rs[j]);
        lemma_mant_sum_shares(s2, m, sc, t, rs2, k2);
        lemma_share_q_sum_congruent(m, sc, t, rs2, rs, n - 1);
        assert(s.last() == s[n - 1]);
    }
}

/// The amounts of a sequence at scale zero sum to the mantissa sum in
/// whole major units.
proof fn lemma_sum_svals_scale0(s: Seq<Money>)
    requires
        forall|j: int| 0 <= j < s.len() ==> (#[trigger] s[j]).spec_amount().spec_scale() == 0,
    ensures
        sum_svals(s) == mant_sum(s) * pow10(28),
    decreases s.len(),
{
    if s.len() == 0 {
        assert(0 * pow10(28) == 0) by (nonlinear_arith);
    } else {
        let n = s.len() as int;
        assert(forall|j: int| 0 <= j < n - 1 ==> (#[trigger] s.drop_last()[j]) == s[j]);
        lemma_sum_svals_scale0(s.drop_last());
        assert(s.last() == s[n - 1]);
        assert(s.last().sval() == s.last().spec_amount().spec_mantissa() * pow10(28));
        assert((mant_sum(s.drop_last()) + s.last().spec_amount().spec_mantissa()) * pow10(28)
            == mant_sum(s.drop_last()) * pow10(28) + s.last().spec_amount().spec_mantissa()
            * pow10(28)) by (nonlinear_arith);
    }
}

impl Money {
    /// Divides the amount into shares proportional to `ratios`, without
    /// losing or gaining value: each share is the floored proportional part
    /// in whole major units, and the whole-unit remainder is handed out one
    /// unit at a time to the earliest shares.
    ///
    /// Rejects an empty ratio sequence and any non-positive ratio with
    /// `InvalidRatio`.
    pub fn allocate(&self, ratios: Vec<i32>) -> (res: Result<Vec<Money>, MoneyError>)
        requires
            self.wf(),
            ratios_valid(ratios@) ==> is_integral(self.spec_amount()),
        ensures
            res is Ok <==> ratios_valid(ratios@),
            !ratios_valid(ratios@) ==> res == Err::<Vec<Money>, MoneyError>(
                MoneyError::InvalidRatio,
            ),
            res matches Ok(shares) ==> {
                let m = self.spec_amount().spec_mantissa();
                let sc = self.spec_amount().spec_scale();
                let t = rsum(ratios@, ratios@.len() as int);
                let lv = spec_leftover(m, sc, t, ratios@);
                &&& shares@.len() == ratios@.len()
                &&& forall|j: int|
                    0 <= j < shares@.len() ==> (#[trigger] shares@[j]).wf()
                        && shares@[j].spec_currency() == self.spec_currency()
                        && shares@[j].spec_amount().spec_scale() == 0
                        && shares@[j].spec_amount().spec_mantissa() == share_q(
                        m,
                        sc,
                        t,
                        ratios@[j] as int,
                    ) + (if j < lv {
                        1int
                    } else {
                        0int
                    })
                &&& sum_svals(shares@) == self.sval()
            },
    {
        let n = ratios.len();
        if n == 0 {
            return Err(MoneyError::InvalidRatio);
        }
        let mut t: i128 = 0;
        let mut i: usize = 0;
        while i < n
            invariant
                n == ratios@.len(),
                0 <= i <= n,
                forall|j: int| 0 <= j < i ==> ratios@[j] > 0,
                t == rsum(ratios@, i as int),
                i <= t <= i as int * 0x7fffffff,
            decreases n - i,
        {
            let r = ratios[i];
            if r <= 0 {
                return Err(MoneyError::InvalidRatio);
            }
            t = t + r as i128;
            i = i + 1;
        }
        proof {
            assert(ratios_valid(ratios@));
        }
        let ghost gm = self.spec_amount().spec_mantissa();
        let ghost gsc = self.spec_amount().spec_scale();
        let ghost gt = t as int;
        let m: i128 = self.amount().mantissa();
        let sc: u32 = self.amount().scale();
        let p: i128 = pow10_i128(sc);
        let ghost gp = p as int;
        let ghost gd = gt * gp;
        proof {
            assert(gd >= gt >= 1 && gd >= gp) by (nonlinear_arith)
                requires
                    gt >= 1,
                    gp >= 1,
                    gd == gt * gp,
            ;
        }
        let mp_pair = euclid_div_mod(m, p);
        let mp: i128 = mp_pair.0;
        proof {
            lemma_fundamental_div_mod(gm, gp);
            assert(gm == gp * (gm / gp));
        }
        let mut shares: Vec<Money> = Vec::new();
        let mut rem: i128 = mp;
        let mut i: usize = 0;
        proof {
            assert(abs(gm / gp) <= MAX_MANTISSA) by (nonlinear_arith)
                requires
                    gm == gp * (gm / gp),
                    gp >= 1,
                    -MAX_MANTISSA <= gm <= MAX_MANTISSA,
            ;
        }
        while i < n
            invariant
                n == ratios@.len(),
                0 <= i <= n,
                ratios_valid(ratios@),
                t == rsum(ratios@, n as int),
                gt == t as int,
                1 <= gt,
                gp == p as int,
                gp == pow10(gsc),
                1 <= gp,
                gd == gt * gp,
                1 <= gt <= gd,
                gp <= gd,
                gm == m as int,
                -MAX_MANTISSA <= gm <= MAX_MANTISSA,
                gsc == self.spec_amount().spec_scale(),
                gm == self.spec_amount().spec_mantissa(),
                self.wf(),
                is_integral(self.spec_amount()),
                gm == gp * (gm / gp),
                shares@.len() == i,
                forall|j: int|
                    0 <= j < i ==> (#[trigger] shares@[j]).wf() && shares@[j].spec_currency()
                        == self.spec_currency() && shares@[j].spec_amount().spec_scale() == 0
                        && shares@[j].spec_amount().spec_mantissa() == share_q(
                        gm,
                        gsc,
                        gt,
                        ratios@[j] as int,
                    ),
                n >= 2 ==> forall|j: int|
                    0 <= j < i ==> (#[trigger] shares@[j]).spec_amount().spec_mantissa()
                        <= MAX_MANTISSA - 1,
                rem == gm / gp - share_q_sum(gm, gsc, gt, ratios@, i as int),
                0 <= gm * rsum(ratios@, i as int) - gd * share_q_sum(gm, gsc, gt, ratios@, i as int)
                    <= i as int * (gd - 1),
                -MAX_MANTISSA <= rem <= MAX_MANTISSA + i,
            decreases n - i,
        {
            let r: i128 = ratios[i] as i128;
            proof {
                lemma_rsum_bounds(ratios@, i as int);
                lemma_rsum_bounds(ratios@, i + 1);
                assert(rsum(ratios@, i + 1) == rsum(ratios@, i as int) + r);
                assert(r <= gt - (n - 1));
            }
            proof {
                assert(-MAX_MANTISSA * 0x7fffffff <= gm * r <= MAX_MANTISSA
                    * 0x7fffffff) by (nonlinear_arith)
                    requires
                        -MAX_MANTISSA <= gm <= MAX_MANTISSA,
                        0 < r <= 0x7fffffff,
                ;
            }
            let x: i128 = m * r;
            let q1_pair = euclid_div_mod(x, t);
            let q1: i128 = q1_pair.0;
            proof {
                lemma_fundamental_div_mod(x as int, gt);
                lemma_mod_bound(x as int, gt);
                assert(-abs(x as int) - 1 <= q1 <= abs(x as int)) by (nonlinear_arith)
                    requires
                        gt >= 1,
                        x as int == gt * (q1 as int) + (x as int % gt),
                        0 <= x as int % gt < gt,
                ;
            }
            let q_pair = euclid_div_mod(q1, p);
            let q: i128 = q_pair.0;
            proof {
                lemma_div_nested(x as int, gt, gp);
                assert(q == (x as int) / gd);
                assert(q == share_q(gm, gsc, gt, r as int));
                lemma_fundamental_div_mod(x as int, gd);
                lemma_mod_bound(x as int, gd);
                // |x| <= MAX * r <= MAX * t <= MAX * d bounds the floored quotient
                assert((-MAX_MANTISSA) * gd <= gm * r <= MAX_MANTISSA * gd) by (nonlinear_arith)
                    requires
                        -MAX_MANTISSA <= gm <= MAX_MANTISSA,
                        0 < r <= gt,
                        gd >= gt,
                        gd == gt * gp,
                        gp >= 1,
                ;
                assert(-MAX_MANTISSA <= q <= MAX_MANTISSA) by (nonlinear_arith)
                    requires
                        x as int == gd * (q as int) + (x as int % gd),
                        0 <= x as int % gd < gd,
                        gd >= 1,
                        (-MAX_MANTISSA) * gd <= x as int <= MAX_MANTISSA * gd,
                ;
                if n >= 2 {
                    assert(gm * r < MAX_MANTISSA * gd && gm * r > (-MAX_MANTISSA)
                        * gd) by (nonlinear_arith)
                        requires
                            -MAX_MANTISSA <= gm <= MAX_MANTISSA,
                            0 < r <= gt - 1,
                            1 <= gt <= gd,
                            gd == gt * gp,
                            gp >= 1,
                    ;
                    assert(q <= MAX_MANTISSA - 1) by (nonlinear_arith)
                        requires
                            x as int == gd * (q as int) + (x as int % gd),
                            0 <= x as int % gd < gd,
                            gd >= 1,
                            (x as int) < MAX_MANTISSA * gd,
                    ;
                }
            }
            let share = Money::from_decimal(Decimal::from_i128_with_scale(q, 0), self.currency());
            shares.push(share);
            proof {
                let qs0 = share_q_sum(gm, gsc, gt, ratios@, i as int);
                let qs1 = share_q_sum(gm, gsc, gt, ratios@, i + 1);
                let rs0 = rsum(ratios@, i as int);
                let rs1 = rsum(ratios@, i + 1);
                // the new difference gains exactly this share's division remainder
                assert(gm * rs1 - gd * qs1 == (gm * rs0 - gd * qs0) + (x as int % gd)) by {
                    assert(qs1 == qs0 + q);
                    assert(gm * (rs0 + r) == gm * rs0 + gm * r) by (nonlinear_arith);
                    assert(gd * (qs0 + q) == gd * qs0 + gd * q) by (nonlinear_arith);
                }
                assert((i as int + 1) * (gd - 1) == i as int * (gd - 1) + (gd - 1))
                    by (nonlinear_arith);
                let diff1 = gm * rs1 - gd * qs1;
                let u = gm / gp;
                assert(gd * (u - qs1) == gm * (gt - rs1) + diff1) by (nonlinear_arith)
                    requires
                        gd == gt * gp,
                        gm == gp * u,
                        diff1 == gm * rs1 - gd * qs1,
                ;
                assert(-MAX_MANTISSA <= u - qs1 <= MAX_MANTISSA + i + 1) by (nonlinear_arith)
                    requires
                        gd * (u - qs1) == gm * (gt - rs1) + diff1,
                        0 <= diff1 <= (i as int + 1) * (gd - 1),
                        0 <= rs1 <= gt,
                        -MAX_MANTISSA <= gm <= MAX_MANTISSA,
                        1 <= gt <= gd,
                ;
            }
            rem = rem - q;
            i = i + 1;
        }
        proof {
            assert(rsum(ratios@, n as int) == gt);
            assert(gm * gt - gd * share_q_sum(gm, gsc, gt, ratios@, n as int) == gd * (rem as int))
                by {
                assert(gd * (gm / gp - share_q_sum(gm, gsc, gt, ratios@, n as int)) == gd * (gm
                    / gp) - gd * share_q_sum(gm, gsc, gt, ratios@, n as int)) by (nonlinear_arith);
                assert(gd * (gm / gp) == gm * gt) by (nonlinear_arith)
                    requires
                        gd == gt * gp,
                        gm == gp * (gm / gp),
                ;
            }
            assert(0 <= rem < n) by (nonlinear_arith)
                requires
                    gd * (rem as int) == gm * rsum(ratios@, n as int) - gd * share_q_sum(
                        gm,
                        gsc,
                        gt,
                        ratios@,
                        n as int,
                    ),
                    0 <= gm * rsum(ratios@, n as int) - gd * share_q_sum(
                        gm,
                        gsc,
                        gt,
                        ratios@,
                        n as int,
                    ) <= n as int * (gd - 1),
                    gd >= 1,
                    n >= 1,
            ;
            if n == 1 {
                // a single share is exact: the whole amount divides evenly
                assert(rsum(ratios@, 1) == rsum(ratios@, 0) + ratios@[0]);
                assert(gt == ratios@[0] as int);
                assert(gm * (ratios@[0] as int) == gd * (gm / gp)) by (nonlinear_arith)
                    requires
                        gd == gt * gp,
                        gt == ratios@[0] as int,
                        gm == gp * (gm / gp),
                ;
                lemma_mod_multiples_basic(gm / gp, gd);
                assert((gm * (ratios@[0] as int)) % gd == 0);
                assert(rsum(ratios@, 1) == ratios@[0] as int);
                assert(share_q_sum(gm, gsc, gt, ratios@, 1) == share_q(
                    gm,
                    gsc,
                    gt,
                    ratios@[0] as int,
                ));
                assert(share_q(gm, gsc, gt, ratios@[0] as int) == (gm * (ratios@[0] as int)) / gd);
                lemma_fundamental_div_mod(gm * (ratios@[0] as int), gd);
                assert(gd * (rem as int) == 0);
                assert(rem == 0) by (nonlinear_arith)
                    requires
                        gd * (rem as int) == 0,
                        gd >= 1,
                ;
            }
        }
        let ghost glv = spec_leftover(gm, gsc, gt, ratios@);
        proof {
            assert(glv == rem as int);
            if n >= 2 {
                assert forall|j: int| 0 <= j < n implies share_q(gm, gsc, gt, ratios@[j] as int)
                    <= MAX_MANTISSA - 1 by {
                    assert(shares@[j].spec_amount().spec_mantissa() == share_q(
                        gm,
                        gsc,
                        gt,
                        ratios@[j] as int,
                    ));
                    assert(shares@[j].spec_amount().spec_mantissa() <= MAX_MANTISSA - 1);
                }
            }
        }
        let mut k: usize = 0;
        while rem > 0
            invariant
                n == ratios@.len(),
                shares@.len() == n,
                ratios_valid(ratios@),
                gt == t as int,
                glv == spec_leftover(gm, gsc, gt, ratios@),
                0 <= glv < n,
                gsc == self.spec_amount().spec_scale(),
                gm == self.spec_amount().spec_mantissa(),
                rem == glv - k,
                0 <= rem,
                k <= glv,
                rem > 0 ==> n >= 2,
                n >= 2 ==> forall|j: int|
                    0 <= j < n ==> share_q(gm, gsc, gt, ratios@[j] as int) <= MAX_MANTISSA - 1,
                forall|j: int|
                    0 <= j < n ==> (#[trigger] shares@[j]).wf() && shares@[j].spec_currency()
                        == self.spec_currency() && shares@[j].spec_amount().spec_scale() == 0
                        && shares@[j].spec_amount().spec_mantissa() == share_q(
                        gm,
                        gsc,
                        gt,
                        ratios@[j] as int,
                    ) + (if j < k {
                        1int
                    } else {
                        0int
                    }),
            decreases rem,
        {
            let cur = shares[k];
            let nm: i128 = cur.amount().mantissa() + 1;
            let bumped = Money::from_decimal(
                Decimal::from_i128_with_scale(nm, 0),
                cur.currency(),
            );
            shares.set(k, bumped);
            rem = rem - 1;
            k = k + 1;
        }
        proof {
            assert(k as int == glv);
            lemma_mant_sum_shares(shares@, gm, gsc, gt, ratios@, k as int);
            lemma_sum_svals_scale0(shares@);
            assert(mant_sum(shares@) == gm / gp);
            assert(self.sval() == gm * pow10((28 - gsc) as nat));
            lemma_pow10_adds(gsc, (28 - gsc) as nat);
            assert((gm / gp) * pow10(28) == gm * pow10((28 - gsc) as nat)) by (nonlinear_arith)
                requires
                    gm == gp * (gm / gp),
                    gp == pow10(gsc),
                    pow10(28) == pow10(gsc) * pow10((28 - gsc) as nat),
            ;
        }
        Ok(shares)
    }

    /// Divides the amount into `number` equal shares; any whole-unit
    /// remainder goes, one unit each, to the earliest shares, so no two
    /// shares differ by more than one major unit.
    pub fn allocate_to(&self, number: i32) -> (res: Result<Vec<Money>, MoneyError>)
        requires
            self.wf(),
            number > 0 ==> is_integral(self.spec_amount()),
        ensures
            res is Ok <==> number > 0,
            number <= 0 ==> res == Err::<Vec<Money>, MoneyError>(MoneyError::InvalidRatio),
            res matches Ok(shares) ==> {
                &&& shares@.len() == number
                &&& forall|j: int|
                    0 <= j < shares@.len() ==> (#[trigger] shares@[j]).wf()
                        && shares@[j].spec_currency() == self.spec_currency()
                &&& sum_svals(shares@) == self.sval()
                &&& forall|j1: int, j2: int|
                    0 <= j1 < shares@.len() && 0 <= j2 < shares@.len() ==> abs(
                        (#[trigger] shares@[j1]).sval() - (#[trigger] shares@[j2]).sval(),
                    ) <= pow10(28)
            },
    {
        let mut ratios: Vec<i32> = Vec::new();
        let mut i: i32 = 0;
        if number > 0 {
            while i < number
                invariant
                    0 <= i <= number,
                    ratios@.len() == i,
                    forall|j: int| 0 <= j < i ==> ratios@[j] == 1i32,
                decreases number - i,
            {
                ratios.push(1);
                i = i + 1;
            }
        }
        proof {
            if number > 0 {
                assert(ratios_valid(ratios@));
            } else {
                assert(!ratios_valid(ratios@));
            }
        }
        let res = self.allocate(ratios);
        proof {
            if res is Ok {
                let shares = res->Ok_0;
                let m = self.spec_amount().spec_mantissa();
                let sc = self.spec_amount().spec_scale();
                let t = rsum(ratios@, ratios@.len() as int);
                let lv = spec_leftover(m, sc, t, ratios@);
                assert(forall|j1: int, j2: int|
                    0 <= j1 < shares@.len() && 0 <= j2 < shares@.len() ==> abs(
                        (#[trigger] shares@[j1]).sval() - (#[trigger] shares@[j2]).sval(),
                    ) <= pow10(28)) by {
                    lemma_pow10_pos(28);
                    assert forall|j1: int, j2: int|
                        0 <= j1 < shares@.len() && 0 <= j2 < shares@.len() implies abs(
                        (#[trigger] shares@[j1]).sval() - (#[trigger] shares@[j2]).sval(),
                    ) <= pow10(28) by {
                        assert(ratios@[j1] == 1i32 && ratios@[j2] == 1i32);
                        let q = share_q(m, sc, t, 1int);
                        let m1 = shares@[j1].spec_amount().spec_mantissa();
                        let m2 = shares@[j2].spec_amount().spec_mantissa();
                        assert(q <= m1 <= q + 1 && q <= m2 <= q + 1);
                        assert(shares@[j1].sval() == m1 * pow10(28));
                        assert(shares@[j2].sval() == m2 * pow10(28));
                        assert(abs(m1 * pow10(28) - m2 * pow10(28)) <= pow10(28))
                            by (nonlinear_arith)
                            requires
                                q <= m1 <= q + 1,
                                q <= m2 <= q + 1,
                                pow10(28) >= 1,
                        ;
                    }
                }
            }
        }
        res
    }
}

} // verus!
