use vstd::prelude::*;

verus! {

use vstd::arithmetic::div_mod::{
    lemma_fundamental_div_mod, lemma_fundamental_div_mod_converse, lemma_mod_bound,
};
use vstd::arithmetic::mul::{lemma_mul_inequality, lemma_mul_strictly_positive};

/// 10 raised to `e`, the scaling factor between a mantissa and the
/// value it denotes.
pub open spec fn pow10(e: nat) -> int
    decreases e,
{
    if e == 0 {
        1
    } else {
        10 * pow10((e - 1) as nat)
    }
}

pub proof fn lemma_pow10_pos(e: nat)
    ensures
        pow10(e) >= 1,
    decreases e,
{
    if e > 0 {
        lemma_pow10_pos((e - 1) as nat);
    }
}

pub proof fn lemma_pow10_adds(a: nat, b: nat)
    ensures
        pow10(a + b) == pow10(a) * pow10(b),
    decreases a,
{
    if a == 0 {
    } else {
        lemma_pow10_adds((a - 1) as nat, b);
        assert(10 * (pow10((a - 1) as nat) * pow10(b)) == (10 * pow10((a - 1) as nat)) * pow10(
            b,
        )) by (nonlinear_arith);
    }
}

pub proof fn lemma_pow10_increases(a: nat, b: nat)
    requires
        a <= b,
    ensures
        pow10(a) <= pow10(b),
    decreases b,
{
    if a < b {
        lemma_pow10_increases(a, (b - 1) as nat);
        lemma_pow10_pos((b - 1) as nat);
    }
}

pub proof fn lemma_pow10_28()
    ensures
        pow10(28) == 10000000000000000000000000000,
{
    reveal_with_fuel(pow10, 30);
}

/// Executable power of ten; `pow10(28)` still fits comfortably in an `i128`.
pub fn pow10_i128(e: u32) -> (r: i128)
    requires
        e <= 28,
    ensures
        r == pow10(e as nat),
        r >= 1,
{
    let mut r: i128 = 1;
    let mut i: u32 = 0;
    while i < e
        invariant
            i <= e <= 28,
            r == pow10(i as nat),
            1 <= r,
        decreases e - i,
    {
        proof {
            lemma_pow10_increases((i + 1) as nat, 28);
            lemma_pow10_28();
            assert(pow10((i + 1) as nat) == 10 * pow10(i as nat));
        }
        r = r * 10;
        i = i + 1;
    }
    r
}

/// Euclidean quotient and remainder of `x` by positive `p`, matching the
/// mathematical `/` and `%` of specifications. The remainder is always in
/// `[0, p)`, so the quotient is the floor of the exact quotient.
pub fn euclid_div_mod(x: i128, p: i128) -> (qr: (i128, i128))
    requires
        p > 0,
        x > i128::MIN,
    ensures
        qr.0 == x as int / p as int,
        qr.1 == x as int % p as int,
{
    if x >= 0 {
        let xa: u128 = x as u128;
        let pa: u128 = p as u128;
        let q: u128 = xa / pa;
        let r: u128 = xa % pa;
        proof {
            assert(q * pa + r == xa && r < pa && q <= xa) by (nonlinear_arith)
                requires
                    q == xa / pa,
                    r == xa % pa,
                    pa >= 1,
            ;
            lemma_fundamental_div_mod_converse(x as int, p as int, q as int, r as int);
        }
        (q as i128, r as i128)
    } else {
        let xa: u128 = (-x) as u128;
        let pa: u128 = p as u128;
        let q: u128 = xa / pa;
        let r: u128 = xa % pa;
        proof {
            assert(q * pa + r == xa && r < pa && q <= xa) by (nonlinear_arith)
                requires
                    q == xa / pa,
                    r == xa % pa,
                    pa >= 1,
            ;
        }
        if r == 0 {
            let qq: i128 = -(q as i128);
            proof {
                assert(qq as int * p as int == -(q as int * pa as int)) by (nonlinear_arith)
                    requires
                        qq == -(q as int),
                        p == pa,
                ;
                lemma_fundamental_div_mod_converse(x as int, p as int, qq as int, 0);
            }
            (qq, 0)
        } else {
            let qq: i128 = -(q as i128) - 1;
            let rr: i128 = p - (r as i128);
            proof {
                assert(qq as int * p as int == -(q as int * pa as int) - p) by (nonlinear_arith)
                    requires
                        qq == -(q as int) - 1,
                        p == pa,
                ;
                lemma_fundamental_div_mod_converse(x as int, p as int, qq as int, rr as int);
            }
            (qq, rr)
        }
    }
}

/// Equal products with a common positive factor have equal other factors.
pub proof fn lemma_mul_cancel(x: int, y: int, p: int)
    requires
        p > 0,
        x * p == y * p,
    ensures
        x == y,
{
    assert(x == y) by (nonlinear_arith)
        requires
            p > 0,
            x * p == y * p,
    ;
}

/// Dividing first by `t` and then by `p` lands on the same floor as
/// dividing by `t * p` at once, for any sign of `x`.
pub proof fn lemma_div_nested(x: int, t: int, p: int)
    requires
        t > 0,
        p > 0,
    ensures
        (x / t) / p == x / (t * p),
{
    let q1 = x / t;
    let r1 = x % t;
    let q = q1 / p;
    let r2 = q1 % p;
    lemma_fundamental_div_mod(x, t);
    lemma_mod_bound(x, t);
    lemma_fundamental_div_mod(q1, p);
    lemma_mod_bound(q1, p);
    lemma_mul_strictly_positive(t, p);
    assert(x == t * (p * q + r2) + r1);
    assert(t * (p * q + r2) == q * (t * p) + t * r2) by (nonlinear_arith);
    assert(t * r2 >= 0) by (nonlinear_arith)
        requires
            t > 0,
            r2 >= 0,
    ;
    assert(t * r2 + r1 < t * p) by {
        lemma_mul_inequality(r2, p - 1, t);
        assert(r2 * t <= (p - 1) * t);
        assert(t * r2 == r2 * t) by (nonlinear_arith);
        assert((p - 1) * t == t * p - t) by (nonlinear_arith);
    }
    lemma_fundamental_div_mod_converse(x, t * p, q, t * r2 + r1);
}

} // verus!
