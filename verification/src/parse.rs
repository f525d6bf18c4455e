use vstd::prelude::*;

use crate::arith::{lemma_pow10_increases, lemma_pow10_pos, pow10, pow10_i128};
use crate::currency::{
    digit_separator, exponent_separator, grouping, spec_digit_separator, spec_exponent_separator,
    spec_grouping, Currency,
};
use crate::decimal::{Decimal, MAX_MANTISSA};
use crate::error::MoneyError;
use crate::money::Money;

verus! {

/// How many times `c` occurs in `cs`.
pub open spec fn count_char(cs: Seq<char>, c: char) -> nat
    decreases cs.len(),
{
    if cs.len() == 0 {
        0
    } else {
        count_char(cs.drop_last(), c) + (if cs.last() == c {
            1nat
        } else {
            0nat
        })
    }
}

/// Index of the first occurrence of `c` in `cs`, or `cs.len()` if absent.
pub open spec fn find_first(cs: Seq<char>, c: char) -> nat
    decreases cs.len(),
{
    if cs.len() == 0 {
        0
    } else if cs[0] == c {
        0
    } else {
        1 + find_first(cs.subrange(1, cs.len() as int), c)
    }
}

/// Index of the last occurrence of `c` in `cs`, or `-1` if absent.
pub open spec fn find_last(cs: Seq<char>, c: char) -> int
    decreases cs.len(),
{
    if cs.len() == 0 {
        -1
    } else if cs.last() == c {
        cs.len() - 1
    } else {
        find_last(cs.drop_last(), c)
    }
}

/// `cs` with every occurrence of `c` removed.
pub open spec fn remove_char(cs: Seq<char>, c: char) -> Seq<char>
    decreases cs.len(),
{
    if cs.len() == 0 {
        Seq::empty()
    } else if cs.last() == c {
        remove_char(cs.drop_last(), c)
    } else {
        remove_char(cs.drop_last(), c).push(cs.last())
    }
}

pub open spec fn is_digit(c: char) -> bool {
    '0' <= c && c <= '9'
}

pub open spec fn all_digits(ds: Seq<char>) -> bool {
    forall|i: int| 0 <= i < ds.len() ==> is_digit(#[trigger] ds[i])
}

/// The number written by a run of decimal digit characters.
pub open spec fn digits_val(ds: Seq<char>) -> int
    decreases ds.len(),
{
    if ds.len() == 0 {
        0
    } else {
        digits_val(ds.drop_last()) * 10 + (ds.last() as u32 - 48)
    }
}

/// The digit-grouping walk: working from the group nearest the decimal
/// point outward, each group delimited by `sep` must have the expected
/// size, until the pattern is exhausted or a single group remains.
pub open spec fn grouping_ok(cs: Seq<char>, sep: char, pat: Seq<usize>, k: int) -> bool
    decreases pat.len() - k,
{
    if k < 0 || k >= pat.len() {
        true
    } else {
        let j = find_last(cs, sep);
        if j < 0 {
            true
        } else {
            cs.len() - j - 1 == pat[k] && grouping_ok(cs.take(j), sep, pat, k + 1)
        }
    }
}

proof fn lemma_digits_val_nonneg(ds: Seq<char>)
    requires
        all_digits(ds),
    ensures
        digits_val(ds) >= 0,
    decreases ds.len(),
{
    if ds.len() > 0 {
        assert(forall|i: int| 0 <= i < ds.len() - 1 ==> (#[trigger] ds.drop_last()[i]) == ds[i]);
        lemma_digits_val_nonneg(ds.drop_last());
        assert(is_digit(ds.last()));
    }
}

/// A longer run of digits never writes a smaller number.
proof fn lemma_digits_val_prefix(ds: Seq<char>, j: int)
    requires
        all_digits(ds),
        0 <= j <= ds.len(),
    ensures
        0 <= digits_val(ds.take(j)) <= digits_val(ds),
    decreases ds.len() - j,
{
    assert(forall|i: int| 0 <= i < j ==> (#[trigger] ds.take(j)[i]) == ds[i]);
    lemma_digits_val_nonneg(ds.take(j));
    if j == ds.len() {
        assert(ds.take(j) =~= ds);
    } else {
        lemma_digits_val_prefix(ds, j + 1);
        assert(ds.take(j + 1).drop_last() =~= ds.take(j));
        assert(ds.take(j + 1).last() == ds[j]);
        assert(is_digit(ds[j]));
        assert(digits_val(ds.take(j + 1)) == digits_val(ds.take(j)) * 10 + (ds[j] as u32 - 48));
        assert(digits_val(ds.take(j)) * 10 >= digits_val(ds.take(j))) by (nonlinear_arith)
            requires
                digits_val(ds.take(j)) >= 0,
        ;
    }
}

/// The largest scale, at most `k`, at which a mantissa of `v * 10^scale`
/// still fits the decimal primitive.
pub open spec fn fit_scale(v: int, k: nat) -> nat
    decreases k,
{
    if k == 0 {
        0
    } else if v * pow10(k) <= MAX_MANTISSA {
        k
    } else {
        fit_scale(v, (k - 1) as nat)
    }
}

/// What a free-form amount string means under a locale: `None` for a
/// malformed string (or one beyond the decimal primitive's range), else
/// the signed mantissa and scale of the amount it writes.
///
/// The string is split once on the exponent separator; the integer side,
/// its digit separators checked against the grouping pattern and then
/// dropped, may begin with a sign; an explicit fraction must be a plain
/// run of digits; a missing fraction is read as `exponent` zeros, fewer
/// when only a smaller scale still fits the primitive. At least one
/// digit must be present.
pub open spec fn spec_parse_money(
    cs: Seq<char>,
    dsep: char,
    esep: char,
    pat: Seq<usize>,
    exponent: nat,
) -> Option<(int, nat)> {
    if count_char(cs, esep) >= 2 {
        None
    } else {
        let has_frac = count_char(cs, esep) == 1;
        let e = find_first(cs, esep) as int;
        let int_cs = if has_frac {
            cs.take(e)
        } else {
            cs
        };
        let frac_cs = cs.skip(e + 1);
        if !grouping_ok(int_cs, dsep, pat, 0) {
            None
        } else {
            let stripped = remove_char(int_cs, dsep);
            let signed = stripped.len() > 0 && (stripped[0] == '-' || stripped[0] == '+');
            let neg = stripped.len() > 0 && stripped[0] == '-';
            let int_digits = if signed {
                stripped.skip(1)
            } else {
                stripped
            };
            if !all_digits(int_digits) {
                None
            } else if has_frac && (frac_cs.len() == 0 || !all_digits(frac_cs) || frac_cs.len()
                > 28) {
                None
            } else if int_digits.len() == 0 && (!has_frac || frac_cs.len() == 0) {
                None
            } else {
                let scale = if has_frac {
                    frac_cs.len()
                } else {
                    fit_scale(digits_val(int_digits), exponent)
                };
                let mag = if has_frac {
                    digits_val(int_digits) * pow10(frac_cs.len()) + digits_val(frac_cs)
                } else {
                    digits_val(int_digits) * pow10(fit_scale(digits_val(int_digits), exponent))
                };
                if mag > MAX_MANTISSA {
                    None
                } else {
                    Some(
                        (
                            if neg {
                                -mag
                            } else {
                                mag
                            },
                            scale,
                        ),
                    )
                }
            }
        }
    }
}

fn to_chars(s: &str) -> (v: Vec<char>)
    ensures
        v@ == s@,
{
    let n = s.unicode_len();
    let mut v: Vec<char> = Vec::new();
    let mut i: usize = 0;
    while i < n
        invariant
            i <= n == s@.len(),
            v@ =~= s@.take(i as int),
        decreases n - i,
    {
        v.push(s.get_char(i));
        proof {
            assert(v@ =~= s@.take(i + 1));
        }
        i = i + 1;
    }
    proof {
        assert(s@.take(n as int) =~= s@);
    }
    v
}

proof fn lemma_find_first_at(cs: Seq<char>, c: char, e: int)
    requires
        0 <= e < cs.len(),
        cs[e] == c,
        forall|j: int| 0 <= j < e ==> cs[j] != c,
    ensures
        find_first(cs, c) == e,
    decreases e,
{
    if e > 0 {
        let tl = cs.subrange(1, cs.len() as int);
        assert(forall|j: int| 0 <= j < tl.len() ==> (#[trigger] tl[j]) == cs[j + 1]);
        lemma_find_first_at(tl, c, e - 1);
    }
}

/// Finds the last occurrence of `c` strictly before `end`.
fn rfind_in_prefix(v: &Vec<char>, end: usize, c: char) -> (r: Option<usize>)
    requires
        end <= v@.len(),
    ensures
        r is Some <==> find_last(v@.take(end as int), c) >= 0,
        r matches Some(j) ==> j == find_last(v@.take(end as int), c) && j < end,
{
    let mut i: usize = end;
    while i > 0
        invariant
            i <= end <= v@.len(),
            find_last(v@.take(end as int), c) == find_last(v@.take(i as int), c),
        decreases i,
    {
        proof {
            assert(v@.take(i as int).drop_last() =~= v@.take(i - 1));
            assert(v@.take(i as int).last() == v@[i - 1]);
        }
        if v[i - 1] == c {
            return Some(i - 1);
        }
        i = i - 1;
    }
    proof {
        assert(v@.take(0) =~= Seq::<char>::empty());
    }
    None
}

/// The digit-grouping walk of [`grouping_ok`], on the first `end`
/// characters of `v`.
fn grouping_check(v: &Vec<char>, end: usize, sep: char, pat: &Vec<usize>, k: usize) -> (r: bool)
    requires
        end <= v@.len(),
        k <= pat@.len(),
    ensures
        r == grouping_ok(v@.take(end as int), sep, pat@, k as int),
    decreases pat@.len() - k,
{
    if k == pat.len() {
        return true;
    }
    match rfind_in_prefix(v, end, sep) {
        None => true,
        Some(j) => {
            proof {
                assert(v@.take(end as int).take(j as int) =~= v@.take(j as int));
            }
            if end - j - 1 == pat[k] {
                grouping_check(v, j, sep, pat, k + 1)
            } else {
                false
            }
        },
    }
}

impl Money {
    /// Reads a locale-formatted amount string in the given currency.
    ///
    /// Returns `InvalidAmount` exactly when the string does not parse
    /// under the currency's locale (or does not fit the decimal
    /// primitive); see [`spec_parse_money`] for the accepted shapes.
    #[verifier::loop_isolation(false)]
    #[verifier::rlimit(100)]
    pub fn from_str(amount: &str, currency: Currency) -> (res: Result<Money, MoneyError>)
        requires
            currency.exponent <= 28,
        ensures
            res is Ok <==> spec_parse_money(
                amount@,
                spec_digit_separator(currency.locale),
                spec_exponent_separator(currency.locale),
                spec_grouping(currency.locale),
                currency.exponent as nat,
            ) is Some,
            res is Err ==> res == Err::<Money, MoneyError>(MoneyError::InvalidAmount),
            res matches Ok(m) ==> spec_parse_money(
                amount@,
                spec_digit_separator(currency.locale),
                spec_exponent_separator(currency.locale),
                spec_grouping(currency.locale),
                currency.exponent as nat,
            ) matches Some(val) && m.wf() && m.spec_currency() == currency
                && m.spec_amount().spec_mantissa() == val.0 && m.spec_amount().spec_scale()
                == val.1,
    {
        let ghost cs = amount@;
        let ghost gdsep = spec_digit_separator(currency.locale);
        let ghost gesep = spec_exponent_separator(currency.locale);
        let ghost gpat = spec_grouping(currency.locale);
        let ghost gexp = currency.exponent as nat;
        let dsep = digit_separator(currency.locale);
        let esep = exponent_separator(currency.locale);
        let pat = grouping(currency.locale);
        let v = to_chars(amount);
        let n = v.len();
        // locate the exponent separator and count its occurrences
        let mut cnt: usize = 0;
        let mut first: usize = n;
        let mut i: usize = 0;
        while i < n
            invariant
                i <= n == cs.len(),
                v@ == cs,
                cnt == count_char(cs.take(i as int), gesep),
                cnt <= i,
                esep == gesep,
                cnt == 0 ==> first == n && forall|j: int| 0 <= j < i ==> cs[j] != gesep,
                cnt >= 1 ==> first < i && cs[first as int] == gesep && forall|j: int|
                    0 <= j < first ==> cs[j] != gesep,
            decreases n - i,
        {
            proof {
                assert(cs.take(i + 1).drop_last() =~= cs.take(i as int));
                assert(cs.take(i + 1).last() == cs[i as int]);
            }
            if v[i] == esep {
                if cnt == 0 {
                    first = i;
                }
                cnt = cnt + 1;
            }
            i = i + 1;
        }
        proof {
            assert(cs.take(n as int) =~= cs);
        }
        if cnt >= 2 {
            return Err(MoneyError::InvalidAmount);
        }
        let has_frac = cnt == 1;
        proof {
            if has_frac {
                lemma_find_first_at(cs, gesep, first as int);
            }
        }
        let int_end: usize = if has_frac {
            first
        } else {
            n
        };
        let ghost int_cs = if has_frac {
            cs.take(find_first(cs, gesep) as int)
        } else {
            cs
        };
        proof {
            if !has_frac {
                assert(cs.take(int_end as int) =~= cs);
            }
            assert(cs.take(int_end as int) == int_cs);
        }
        // validate the digit grouping of the integer side
        if !grouping_check(&v, int_end, dsep, &pat, 0) {
            return Err(MoneyError::InvalidAmount);
        }
        // strip the digit separators
        let mut st: Vec<char> = Vec::new();
        let mut i: usize = 0;
        while i < int_end
            invariant
                i <= int_end <= cs.len(),
                v@ == cs,
                dsep == gdsep,
                st@ == remove_char(cs.take(i as int), gdsep),
            decreases int_end - i,
        {
            proof {
                assert(cs.take(i + 1).drop_last() =~= cs.take(i as int));
                assert(cs.take(i + 1).last() == cs[i as int]);
            }
            if v[i] != dsep {
                st.push(v[i]);
            }
            i = i + 1;
        }
        let ghost stripped = remove_char(int_cs, gdsep);
        proof {
            assert(st@ == stripped);
        }
        // an optional single leading sign
        let mut idx: usize = 0;
        let mut neg: bool = false;
        if st.len() > 0 && (st[0] == '-' || st[0] == '+') {
            neg = st[0] == '-';
            idx = 1;
        }
        let ghost int_digits = if idx == 1 {
            stripped.skip(1)
        } else {
            stripped
        };
        // read the integer digits
        let maxu: u128 = MAX_MANTISSA as u128;
        let mut acc: u128 = 0;
        let mut j: usize = idx;
        proof {
            assert(int_digits.take(0) =~= Seq::<char>::empty());
        }
        while j < st.len()
            invariant
                idx <= j <= st@.len(),
                idx <= 1,
                st@ == stripped,
                int_digits == (if idx == 1 {
                    stripped.skip(1)
                } else {
                    stripped
                }),
                int_digits.len() == st@.len() - idx,
                forall|q: int| 0 <= q < j - idx ==> is_digit(#[trigger] int_digits[q]),
                maxu == MAX_MANTISSA as u128,
                acc == digits_val(int_digits.take(j - idx)),
                acc <= maxu,
            decreases st@.len() - j,
        {
            let c = st[j];
            proof {
                assert(int_digits[j - idx] == stripped[j as int]);
            }
            if !('0' <= c && c <= '9') {
                proof {
                    assert(!is_digit(int_digits[j - idx]));
                    assert(!all_digits(int_digits));
                }
                return Err(MoneyError::InvalidAmount);
            }
            let d: u128 = (c as u32 - 48) as u128;
            proof {
                assert(int_digits.take(j - idx + 1).drop_last() =~= int_digits.take(j - idx));
                assert(int_digits.take(j - idx + 1).last() == int_digits[j - idx]);
            }
            if acc > (maxu - d) / 10 {
                proof {
                    lemma_reject_digit(acc as int, d as int, maxu as int);
                    assert(digits_val(int_digits.take(j - idx + 1)) > MAX_MANTISSA);
                    if has_frac {
                        let frac_cs = cs.skip(find_first(cs, gesep) as int + 1);
                        if all_digits(frac_cs) {
                            lemma_digits_val_nonneg(frac_cs);
                        }
                        lemma_overflow_rejects(
                            int_digits,
                            j - idx + 1,
                            frac_cs.len(),
                            digits_val(frac_cs),
                        );
                    } else {
                        lemma_overflow_rejects(
                            int_digits,
                            j - idx + 1,
                            fit_scale(digits_val(int_digits), gexp),
                            0,
                        );
                    }
                }
                return Err(MoneyError::InvalidAmount);
            }
            proof {
                lemma_accept_digit(acc as int, d as int, maxu as int);
            }
            acc = acc * 10 + d;
            j = j + 1;
        }
        proof {
            assert(int_digits.take(st@.len() - idx) =~= int_digits);
            assert(all_digits(int_digits));
        }
        let mi: i128;
        let scale: u32;
        if has_frac {
            let ghost frac_cs = cs.skip(first + 1);
            let flen = n - first - 1;
            proof {
                assert(frac_cs.len() == flen);
            }
            if flen == 0 {
                return Err(MoneyError::InvalidAmount);
            }
            if flen > 28 {
                return Err(MoneyError::InvalidAmount);
            }
            let mut j: usize = 0;
            proof {
                assert(frac_cs.take(0) =~= Seq::<char>::empty());
                lemma_digits_val_nonneg(int_digits);
                assert(acc * pow10(0) == acc) by (nonlinear_arith);
            }
            let ghost iv = digits_val(int_digits);
            while j < flen
                invariant
                    j <= flen == frac_cs.len(),
                    first + 1 + flen == n == cs.len(),
                    v@ == cs,
                    frac_cs == cs.skip(first + 1),
                    forall|q: int| 0 <= q < j ==> is_digit(#[trigger] frac_cs[q]),
                    maxu == MAX_MANTISSA as u128,
                    iv == digits_val(int_digits),
                    all_digits(int_digits),
                    0 <= iv,
                    acc == iv * pow10(j as nat) + digits_val(frac_cs.take(j as int)),
                    acc <= maxu,
                decreases flen - j,
            {
                let c = v[first + 1 + j];
                proof {
                    assert(frac_cs[j as int] == cs[first + 1 + j]);
                }
                if !('0' <= c && c <= '9') {
                    proof {
                        assert(!is_digit(frac_cs[j as int]));
                        assert(!all_digits(frac_cs));
                    }
                    return Err(MoneyError::InvalidAmount);
                }
                let d: u128 = (c as u32 - 48) as u128;
                proof {
                    assert(frac_cs.take(j + 1).drop_last() =~= frac_cs.take(j as int));
                    assert(frac_cs.take(j + 1).last() == frac_cs[j as int]);
                    lemma_digits_val_nonneg(frac_cs.take(j as int));
                }
                if acc > (maxu - d) / 10 {
                    proof {
                        lemma_reject_digit(acc as int, d as int, maxu as int);
                        assert((iv * pow10(j as nat) + digits_val(frac_cs.take(j as int))) * 10 + d
                            == iv * (pow10(j as nat) * 10) + (digits_val(frac_cs.take(j as int))
                            * 10 + d)) by (nonlinear_arith);
                        assert(pow10(j as nat) * 10 == pow10((j + 1) as nat));
                        assert(digits_val(frac_cs.take(j + 1)) == digits_val(
                            frac_cs.take(j as int),
                        ) * 10 + d);
                        lemma_frac_overflow_rejects(int_digits, frac_cs, j + 1);
                    }
                    return Err(MoneyError::InvalidAmount);
                }
                proof {
                    lemma_accept_digit(acc as int, d as int, maxu as int);
                    assert((iv * pow10(j as nat) + digits_val(frac_cs.take(j as int))) * 10 == iv
                        * (pow10(j as nat) * 10) + digits_val(frac_cs.take(j as int))
                        * 10) by (nonlinear_arith);
                    assert(pow10(j as nat) * 10 == pow10((j + 1) as nat));
                }
                acc = acc * 10 + d;
                j = j + 1;
            }
            proof {
                assert(frac_cs.take(flen as int) =~= frac_cs);
                assert(all_digits(frac_cs));
            }
            mi = if neg {
                -(acc as i128)
            } else {
                acc as i128
            };
            scale = flen as u32;
        } else {
            if idx == st.len() {
                // no digits at all
                return Err(MoneyError::InvalidAmount);
            }
            let mut k: u32 = currency.exponent;
            let p: i128 = pow10_i128(k);
            let mut pu: u128 = p as u128;
            proof {
                lemma_digits_val_nonneg(int_digits);
            }
            while k > 0 && acc > maxu / pu
                invariant
                    k <= currency.exponent,
                    pu == pow10(k as nat),
                    1 <= pu,
                    fit_scale(acc as int, currency.exponent as nat) == fit_scale(
                        acc as int,
                        k as nat,
                    ),
                decreases k,
            {
                proof {
                    lemma_reject_scaleup(acc as int, pu as int, maxu as int);
                    assert(pow10(k as nat) == 10 * pow10((k - 1) as nat));
                    vstd::arithmetic::div_mod::lemma_div_by_multiple(
                        pow10((k - 1) as nat),
                        10,
                    );
                    assert(pow10((k - 1) as nat) * 10 == 10 * pow10((k - 1) as nat))
                        by (nonlinear_arith);
                }
                k = k - 1;
                pu = pu / 10;
            }
            if acc > maxu / pu {
                proof {
                    lemma_reject_scaleup(acc as int, pu as int, maxu as int);
                }
                return Err(MoneyError::InvalidAmount);
            }
            proof {
                lemma_accept_scaleup(acc as int, pu as int, maxu as int);
                if k > 0 {
                    assert(fit_scale(acc as int, k as nat) == k as nat);
                }
            }
            acc = acc * pu;
            mi = if neg {
                -(acc as i128)
            } else {
                acc as i128
            };
            scale = k;
        }
        let money = Money::from_decimal(Decimal::from_i128_with_scale(mi, scale), currency);
        Ok(money)
    }
}

/// Appending digit `d` overflows exactly when the guard fires.
proof fn lemma_reject_digit(acc: int, d: int, maxv: int)
    requires
        0 <= d <= 9,
        maxv >= 9,
        acc > (maxv - d) / 10,
    ensures
        acc * 10 + d > maxv,
{
    vstd::arithmetic::div_mod::lemma_fundamental_div_mod(maxv - d, 10);
    vstd::arithmetic::div_mod::lemma_mod_bound(maxv - d, 10);
    assert(acc * 10 >= ((maxv - d) / 10 + 1) * 10) by (nonlinear_arith)
        requires
            acc >= (maxv - d) / 10 + 1,
    ;
    assert(((maxv - d) / 10 + 1) * 10 == 10 * ((maxv - d) / 10) + 10) by (nonlinear_arith);
}

proof fn lemma_accept_digit(acc: int, d: int, maxv: int)
    requires
        0 <= d <= 9,
        maxv >= 9,
        0 <= acc <= (maxv - d) / 10,
    ensures
        acc * 10 + d <= maxv,
{
    vstd::arithmetic::div_mod::lemma_fundamental_div_mod(maxv - d, 10);
    vstd::arithmetic::div_mod::lemma_mod_bound(maxv - d, 10);
    assert(acc * 10 <= ((maxv - d) / 10) * 10) by (nonlinear_arith)
        requires
            acc <= (maxv - d) / 10,
    ;
    assert(((maxv - d) / 10) * 10 == 10 * ((maxv - d) / 10)) by (nonlinear_arith);
}

proof fn lemma_reject_scaleup(acc: int, p: int, maxv: int)
    requires
        p >= 1,
        maxv >= 0,
        acc > maxv / p,
    ensures
        acc * p > maxv,
{
    vstd::arithmetic::div_mod::lemma_fundamental_div_mod(maxv, p);
    vstd::arithmetic::div_mod::lemma_mod_bound(maxv, p);
    assert(acc * p >= (maxv / p + 1) * p) by (nonlinear_arith)
        requires
            acc >= maxv / p + 1,
            p >= 1,
    ;
    assert((maxv / p + 1) * p == p * (maxv / p) + p) by (nonlinear_arith);
}

proof fn lemma_accept_scaleup(acc: int, p: int, maxv: int)
    requires
        p >= 1,
        maxv >= 0,
        0 <= acc <= maxv / p,
    ensures
        0 <= acc * p <= maxv,
{
    vstd::arithmetic::div_mod::lemma_fundamental_div_mod(maxv, p);
    vstd::arithmetic::div_mod::lemma_mod_bound(maxv, p);
    assert(acc * p <= (maxv / p) * p && acc * p >= 0) by (nonlinear_arith)
        requires
            0 <= acc <= maxv / p,
            p >= 1,
    ;
    assert((maxv / p) * p == p * (maxv / p)) by (nonlinear_arith);
}

/// An integer-digit prefix already past the mantissa cap forces `None`.
proof fn lemma_overflow_rejects(int_digits: Seq<char>, k: int, fl: nat, fv: int)
    requires
        0 <= k <= int_digits.len(),
        forall|q: int| 0 <= q < k ==> is_digit(#[trigger] int_digits[q]),
        digits_val(int_digits.take(k)) > MAX_MANTISSA,
    ensures
        all_digits(int_digits) ==> digits_val(int_digits) > MAX_MANTISSA,
        all_digits(int_digits) && fv >= 0 ==> digits_val(int_digits) * pow10(fl) + fv
            > MAX_MANTISSA,
{
    if all_digits(int_digits) {
        lemma_digits_val_prefix(int_digits, k);
        lemma_digits_val_nonneg(int_digits);
        lemma_pow10_pos(fl);
        assert(digits_val(int_digits) * pow10(fl) >= digits_val(int_digits)) by (nonlinear_arith)
            requires
                digits_val(int_digits) >= 0,
                pow10(fl) >= 1,
        ;
    }
}

/// A fraction-stage prefix past the mantissa cap forces `None`.
proof fn lemma_frac_overflow_rejects(int_digits: Seq<char>, frac_cs: Seq<char>, k: int)
    requires
        all_digits(int_digits),
        0 <= k <= frac_cs.len(),
        forall|q: int| 0 <= q < k ==> is_digit(#[trigger] frac_cs[q]),
        digits_val(int_digits) * pow10(k as nat) + digits_val(frac_cs.take(k)) > MAX_MANTISSA,
    ensures
        all_digits(frac_cs) ==> digits_val(int_digits) * pow10(frac_cs.len()) + digits_val(frac_cs)
            > MAX_MANTISSA,
{
    if all_digits(frac_cs) {
        lemma_digits_val_prefix(frac_cs, k);
        lemma_digits_val_nonneg(int_digits);
        lemma_pow10_increases(k as nat, frac_cs.len());
        assert(digits_val(int_digits) * pow10(frac_cs.len()) >= digits_val(int_digits) * pow10(
            k as nat,
        )) by (nonlinear_arith)
            requires
                digits_val(int_digits) >= 0,
                pow10(frac_cs.len()) >= pow10(k as nat),
        ;
    }
}

} // verus!
