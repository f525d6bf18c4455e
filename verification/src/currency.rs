use vstd::prelude::*;

verus! {

/// Locale tags understood by the locale-format table.
#[derive(Clone, Copy, Debug, PartialEq, Eq, Structural)]
pub enum Locale {
    EnUs,
    EnEu,
    EnIn,
}

/// A currency: an identifying code, display metadata, the number of
/// fractional digits of its minor unit, and the locale that governs how
/// amounts in it are written.
#[derive(Clone, Copy, Debug)]
pub struct Currency {
    pub code: &'static str,
    pub symbol: &'static str,
    pub symbol_first: bool,
    pub exponent: u32,
    pub locale: Locale,
}

/// Two currencies are the same exactly when every attribute agrees.
pub open spec fn cur_eq(a: Currency, b: Currency) -> bool {
    a.code@ == b.code@ && a.symbol@ == b.symbol@ && a.symbol_first == b.symbol_first
        && a.exponent == b.exponent && a.locale == b.locale
}

impl Currency {
    pub fn new(
        code: &'static str,
        symbol: &'static str,
        symbol_first: bool,
        exponent: u32,
        locale: Locale,
    ) -> (r: Currency)
        ensures
            r.code@ == code@,
            r.symbol@ == symbol@,
            r.symbol_first == symbol_first,
            r.exponent == exponent,
            r.locale == locale,
    {
        Currency { code, symbol, symbol_first, exponent, locale }
    }
}

/// String equality by character content.
pub fn str_eq(a: &str, b: &str) -> (r: bool)
    ensures
        r == (a@ == b@),
{
    let sa = a.to_owned();
    let sb = b.to_owned();
    sa.eq(&sb)
}

pub fn currency_eq(a: &Currency, b: &Currency) -> (r: bool)
    ensures
        r == cur_eq(*a, *b),
{
    str_eq(a.code, b.code) && str_eq(a.symbol, b.symbol) && a.symbol_first == b.symbol_first
        && a.exponent == b.exponent && a.locale == b.locale
}

pub open spec fn spec_digit_separator(l: Locale) -> char {
    match l {
        Locale::EnUs => ',',
        Locale::EnEu => '.',
        Locale::EnIn => ',',
    }
}

pub open spec fn spec_exponent_separator(l: Locale) -> char {
    match l {
        Locale::EnUs => '.',
        Locale::EnEu => ',',
        Locale::EnIn => '.',
    }
}

/// Expected digit-group sizes, nearest the decimal point first.
pub open spec fn spec_grouping(l: Locale) -> Seq<usize> {
    match l {
        Locale::EnUs => seq![3usize, 3usize, 3usize],
        Locale::EnEu => seq![3usize, 3usize, 3usize],
        Locale::EnIn => seq![3usize, 2usize, 2usize],
    }
}

pub fn digit_separator(l: Locale) -> (r: char)
    ensures
        r == spec_digit_separator(l),
{
    match l {
        Locale::EnUs => ',',
        Locale::EnEu => '.',
        Locale::EnIn => ',',
    }
}

pub fn exponent_separator(l: Locale) -> (r: char)
    ensures
        r == spec_exponent_separator(l),
{
    match l {
        Locale::EnUs => '.',
        Locale::EnEu => ',',
        Locale::EnIn => '.',
    }
}

pub fn grouping(l: Locale) -> (r: Vec<usize>)
    ensures
        r@ == spec_grouping(l),
{
    let r: Vec<usize> = match l {
        Locale::EnUs => vec![3, 3, 3],
        Locale::EnEu => vec![3, 3, 3],
        Locale::EnIn => vec![3, 2, 2],
    };
    proof {
        assert(r@ =~= spec_grouping(l));
    }
    r
}

} // verus!
