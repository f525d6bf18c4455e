use vstd::prelude::*;

use crate::arith::{euclid_div_mod, lemma_pow10_pos, pow10, pow10_i128};
use crate::currency::{
    digit_separator, exponent_separator, grouping, spec_digit_separator, spec_exponent_separator,
    spec_grouping, Currency,
};
use crate::decimal::{round_spec, Decimal};
use crate::money::{Money, Round};

verus! {

use vstd::arithmetic::div_mod::lemma_mod_bound;
use vstd::math::abs;

pub open spec fn spec_digit_char(d: int) -> char {
    if d == 0 {
        '0'
    } else if d == 1 {
        '1'
    } else if d == 2 {
        '2'
    } else if d == 3 {
        '3'
    } else if d == 4 {
        '4'
    } else if d == 5 {
        '5'
    } else if d == 6 {
        '6'
    } else if d == 7 {
        '7'
    } else if d == 8 {
        '8'
    } else {
        '9'
    }
}

/// The decimal digit characters of `n`, most significant first.
pub open spec fn dec_digits(n: nat) -> Seq<char>
    decreases n,
{
    if n < 10 {
        seq![spec_digit_char(n as int)]
    } else {
        dec_digits(n / 10).push(spec_digit_char((n % 10) as int))
    }
}

/// A run of `n` zero digits.
pub open spec fn zero_run(n: nat) -> Seq<char> {
    Seq::new(n, |i: int| '0')
}

/// `ds` left-padded with zero digits to at least `w` characters.
pub open spec fn pad_left(ds: Seq<char>, w: nat) -> Seq<char> {
    if ds.len() >= w {
        ds
    } else {
        zero_run((w - ds.len()) as nat) + ds
    }
}

/// Digit grouping: working from the rightmost digits, split off one group
/// per pattern entry, separated by `sep`; whatever remains when the
/// pattern runs out stays as the leading group.
pub open spec fn grouped(ds: Seq<char>, sep: char, pat: Seq<usize>, k: int) -> Seq<char>
    decreases ds.len(),
{
    if k < 0 || k >= pat.len() {
        ds
    } else {
        let g = pat[k] as int;
        if g < 1 || ds.len() <= g {
            ds
        } else {
            grouped(ds.take(ds.len() - g), sep, pat, k + 1) + seq![sep] + ds.skip(ds.len() - g)
        }
    }
}

/// The display string of an amount: the value quantized to the currency's
/// exponent with half-to-even rounding, its integer digits grouped per the
/// locale, exactly `exponent` fraction digits, a leading minus for a
/// negative amount, and the symbol before or after per `symbol_first`.
pub open spec fn spec_format_money(d: Decimal, c: Currency) -> Seq<char> {
    let e = c.exponent as nat;
    let dsep = spec_digit_separator(c.locale);
    let esep = spec_exponent_separator(c.locale);
    let pat = spec_grouping(c.locale);
    let rv = round_spec(d, e, Round::HalfEven);
    let rs = if e <= d.spec_scale() {
        e
    } else {
        d.spec_scale()
    };
    let rm = rv / pow10((28 - rs) as nat);
    let mag = abs(rm) as int;
    let units = mag / pow10(rs);
    let fr = mag % pow10(rs);
    let int_part = grouped(dec_digits(units as nat), dsep, pat, 0);
    let frac_digits = if rs == 0 {
        zero_run(e)
    } else {
        pad_left(dec_digits(fr as nat), rs) + zero_run((e - rs) as nat)
    };
    let body = if e > 0 {
        int_part + seq![esep] + frac_digits
    } else {
        int_part
    };
    let sign: Seq<char> = if rm < 0 {
        seq!['-']
    } else {
        Seq::empty()
    };
    if c.symbol_first {
        sign + c.symbol@ + body
    } else {
        sign + body + c.symbol@
    }
}

fn digit_char(d: u128) -> (c: char)
    requires
        d <= 9,
    ensures
        c == spec_digit_char(d as int),
{
    if d == 0 {
        '0'
    } else if d == 1 {
        '1'
    } else if d == 2 {
        '2'
    } else if d == 3 {
        '3'
    } else if d == 4 {
        '4'
    } else if d == 5 {
        '5'
    } else if d == 6 {
        '6'
    } else if d == 7 {
        '7'
    } else if d == 8 {
        '8'
    } else {
        '9'
    }
}

fn digits_of(n: u128) -> (v: Vec<char>)
    ensures
        v@ == dec_digits(n as nat),
    decreases n,
{
    if n < 10 {
        let mut v: Vec<char> = Vec::new();
        v.push(digit_char(n));
        proof {
            assert(v@ =~= seq![spec_digit_char(n as int)]);
        }
        v
    } else {
        proof {
            assert(n / 10 < n) by (nonlinear_arith)
                requires
                    n >= 10,
            ;
        }
        let mut v = digits_of(n / 10);
        v.push(digit_char(n % 10));
        v
    }
}

fn zeros_vec(n: usize) -> (v: Vec<char>)
    ensures
        v@ == zero_run(n as nat),
{
    let mut v: Vec<char> = Vec::new();
    let mut i: usize = 0;
    while i < n
        invariant
            i <= n,
            v@.len() == i,
            forall|j: int| 0 <= j < i ==> v@[j] == '0',
        decreases n - i,
    {
        v.push('0');
        i = i + 1;
    }
    proof {
        assert(v@ =~= zero_run(n as nat));
    }
    v
}

/// Copies `ds[lo..hi]` onto the end of `out`.
fn extend_range(out: &mut Vec<char>, ds: &Vec<char>, lo: usize, hi: usize)
    requires
        lo <= hi <= ds@.len(),
    ensures
        final(out)@ == old(out)@ + ds@.subrange(lo as int, hi as int),
{
    let mut i: usize = lo;
    while i < hi
        invariant
            lo <= i <= hi <= ds@.len(),
            out@ == old(out)@ + ds@.subrange(lo as int, i as int),
        decreases hi - i,
    {
        out.push(ds[i]);
        proof {
            assert(old(out)@ + ds@.subrange(lo as int, i + 1) =~= (old(out)@ + ds@.subrange(
                lo as int,
                i as int,
            )).push(ds@[i as int]));
        }
        i = i + 1;
    }
    proof {
        assert(out@ =~= old(out)@ + ds@.subrange(lo as int, i as int));
    }
}

/// The digit-grouping of [`grouped`], over the first `end` digits of `ds`.
#[verifier::loop_isolation(false)]
fn grouped_exec(ds: &Vec<char>, end: usize, sep: char, pat: &Vec<usize>, k: usize) -> (v: Vec<
    char,
>)
    requires
        end <= ds@.len(),
        k <= pat@.len(),
    ensures
        v@ == grouped(ds@.take(end as int), sep, pat@, k as int),
    decreases pat@.len() - k,
{
    if k == pat.len() {
        let mut v: Vec<char> = Vec::new();
        extend_range(&mut v, ds, 0, end);
        proof {
            assert(v@ =~= ds@.take(end as int));
        }
        return v;
    }
    let g = pat[k];
    if g < 1 || end <= g {
        let mut v: Vec<char> = Vec::new();
        extend_range(&mut v, ds, 0, end);
        proof {
            assert(v@ =~= ds@.take(end as int));
        }
        return v;
    }
    proof {
        assert(ds@.take(end as int).take(end - g) =~= ds@.take((end - g) as int));
    }
    let mut v = grouped_exec(ds, end - g, sep, pat, k + 1);
    v.push(sep);
    extend_range(&mut v, ds, end - g, end);
    proof {
        let whole = ds@.take(end as int);
        assert(ds@.subrange((end - g) as int, end as int) =~= whole.skip(end - g));
        assert(v@ =~= grouped(whole.take(end - g), sep, pat@, k as int + 1) + seq![sep]
            + whole.skip(end - g));
    }
    v
}

/// Relies on std's `String::push`: appends the one character.
#[verifier::external_body]
fn string_push(s: &mut String, c: char)
    ensures
        final(s)@ == old(s)@.push(c),
{
    s.push(c);
}

fn push_all(s: &mut String, v: &Vec<char>)
    ensures
        final(s)@ == old(s)@ + v@,
{
    let mut i: usize = 0;
    proof {
        assert(old(s)@ + v@.take(0) =~= old(s)@);
    }
    while i < v.len()
        invariant
            i <= v@.len(),
            s@ == old(s)@ + v@.take(i as int),
        decreases v@.len() - i,
    {
        string_push(s, v[i]);
        proof {
            assert(old(s)@ + v@.take(i + 1) =~= (old(s)@ + v@.take(i as int)).push(v@[i as int]));
        }
        i = i + 1;
    }
    proof {
        assert(v@.take(v@.len() as int) =~= v@);
    }
}

impl Money {
    /// Renders the amount for display in its currency's locale; see
    /// [`spec_format_money`] for the exact shape.
    #[verifier::loop_isolation(false)]
    #[verifier::rlimit(100)]
    pub fn format(&self) -> (s: String)
        requires
            self.wf(),
        ensures
            s@ == spec_format_money(self.spec_amount(), self.spec_currency()),
    {
        let c = self.currency();
        let e = c.exponent;
        let dsep = digit_separator(c.locale);
        let esep = exponent_separator(c.locale);
        let pat = grouping(c.locale);
        let r = self.round(e, Round::HalfEven);
        let rm = r.amount().mantissa();
        let rs = r.amount().scale();
        proof {
            lemma_pow10_pos((28 - r.spec_amount().spec_scale()) as nat);
            vstd::arithmetic::div_mod::lemma_fundamental_div_mod_converse(
                r.sval(),
                pow10((28 - r.spec_amount().spec_scale()) as nat),
                r.spec_amount().spec_mantissa(),
                0,
            );
            assert(r.spec_amount().spec_mantissa() == r.sval() / pow10(
                (28 - r.spec_amount().spec_scale()) as nat,
            ));
        }
        let mag: i128 = if rm < 0 {
            -rm
        } else {
            rm
        };
        let prs: i128 = pow10_i128(rs);
        let qr = euclid_div_mod(mag, prs);
        let units: i128 = qr.0;
        let fr: i128 = qr.1;
        proof {
            lemma_mod_bound(mag as int, prs as int);
            assert(units >= 0) by (nonlinear_arith)
                requires
                    units == mag as int / prs as int,
                    mag >= 0,
                    prs >= 1,
            ;
        }
        let int_digits = digits_of(units as u128);
        let int_part = grouped_exec(&int_digits, int_digits.len(), dsep, &pat, 0);
        proof {
            assert(int_digits@.take(int_digits@.len() as int) =~= int_digits@);
        }
        let mut s = String::new();
        if rm < 0 {
            string_push(&mut s, '-');
        }
        let mut body: Vec<char> = int_part;
        if e > 0 {
            body.push(esep);
            if rs == 0 {
                let zr = zeros_vec(e as usize);
                extend_range(&mut body, &zr, 0, zr.len());
                proof {
                    assert(zr@.subrange(0, zr@.len() as int) =~= zr@);
                }
            } else {
                let fd = digits_of(fr as u128);
                let flen = fd.len();
                let rsz = rs as usize;
                if flen < rsz {
                    let zr = zeros_vec(rsz - flen);
                    extend_range(&mut body, &zr, 0, zr.len());
                    proof {
                        assert(zr@.subrange(0, zr@.len() as int) =~= zr@);
                    }
                }
                extend_range(&mut body, &fd, 0, fd.len());
                proof {
                    assert(fd@.subrange(0, fd@.len() as int) =~= fd@);
                }
                if rsz < e as usize {
                    let zr = zeros_vec(e as usize - rsz);
                    extend_range(&mut body, &zr, 0, zr.len());
                    proof {
                        assert(zr@.subrange(0, zr@.len() as int) =~= zr@);
                    }
                }
            }
        }
        if c.symbol_first {
            s.append(c.symbol);
            push_all(&mut s, &body);
        } else {
            push_all(&mut s, &body);
            s.append(c.symbol);
        }
        proof {
            let d = self.spec_amount();
            let gc = self.spec_currency();
            let ge = gc.exponent as nat;
            let gdsep = spec_digit_separator(gc.locale);
            let gesep = spec_exponent_separator(gc.locale);
            let gpat = spec_grouping(gc.locale);
            let rv = round_spec(d, ge, Round::HalfEven);
            let rs0 = if ge <= d.spec_scale() {
                d.spec_scale() * 0 + ge
            } else {
                d.spec_scale()
            };
            assert(rs as nat == rs0);
            let grm = rv / pow10((28 - rs0) as nat);
            assert(rm as int == grm);
            assert(mag as int == abs(grm) as int);
            let gunits = abs(grm) as int / pow10(rs0);
            let gfr = abs(grm) as int % pow10(rs0);
            assert(units as int == gunits && fr as int == gfr);
            let int_part_s = grouped(dec_digits(gunits as nat), gdsep, gpat, 0);
            let frac_digits_s = if rs0 == 0 {
                zero_run(ge)
            } else {
                pad_left(dec_digits(gfr as nat), rs0) + zero_run((ge - rs0) as nat)
            };
            let body_s = if ge > 0 {
                int_part_s + seq![gesep] + frac_digits_s
            } else {
                int_part_s
            };
            assert(body@ =~= body_s);
            let sign_s: Seq<char> = if grm < 0 {
                seq!['-']
            } else {
                Seq::empty()
            };
            if gc.symbol_first {
                assert(s@ =~= sign_s + gc.symbol@ + body_s);
            } else {
                assert(s@ =~= sign_s + body_s + gc.symbol@);
            }
            assert(s@ == spec_format_money(d, gc));
        }
        s
    }
}

} // verus!
