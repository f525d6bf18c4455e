use moneta::{Currency, Decimal, Locale, Money, MoneyError};

fn usd() -> Currency {
    Currency::new("USD", "$", true, 2, Locale::EnUs)
}

fn gbp() -> Currency {
    Currency::new("GBP", "£", true, 2, Locale::EnUs)
}

fn eur() -> Currency {
    Currency::new("EUR", "€", true, 2, Locale::EnEu)
}

fn inr() -> Currency {
    Currency::new("INR", "₹", true, 2, Locale::EnIn)
}

fn bhd() -> Currency {
    Currency::new("BHD", "ب.د", true, 3, Locale::EnUs)
}

fn aed() -> Currency {
    Currency::new("AED", "د.إ", false, 2, Locale::EnUs)
}

fn eth() -> Currency {
    Currency::new("ETH", "ETH", false, 18, Locale::EnUs)
}

#[test]
fn money_from_string_parses_correctly() {
    let expected_money = Money::from_minor(2999, gbp());
    let money = Money::from_str("29.99", gbp()).unwrap();
    assert!(money.eq(&expected_money));
}

#[test]
fn money_from_string_parses_correctly_for_64_bit_numbers() {
    let expected_money = Money::from_major(i64::MAX, gbp());
    let text = i64::MAX.to_string();
    let money = Money::from_str(&text, gbp()).unwrap();
    assert!(money.eq(&expected_money));
}

#[test]
fn money_from_string_parses_signs() {
    let expected_money = Money::from_minor(-300, gbp());
    let money = Money::from_str("-3", gbp()).unwrap();
    assert!(money.eq(&expected_money));

    let expected_money = Money::from_minor(300, gbp());
    let money = Money::from_str("+3", gbp()).unwrap();
    assert!(money.eq(&expected_money));
}

#[test]
fn money_from_string_ignores_separators() {
    let expected_money = Money::from_minor(100000000, gbp());
    let money = Money::from_str("1,000,000", gbp()).unwrap();
    assert!(money.eq(&expected_money));
}

#[test]
fn money_from_string_decimal_sanity() {
    let money = Money::from_str("1,00.00", gbp());
    assert_eq!(money.unwrap_err(), MoneyError::InvalidAmount);

    let money = Money::from_str("1.00,00", eur());
    assert_eq!(money.unwrap_err(), MoneyError::InvalidAmount);

    let money = Money::from_str("1.00.000,00", eur());
    assert_eq!(money.unwrap_err(), MoneyError::InvalidAmount);

    let money = Money::from_str("1.00.000.000,00", eur());
    assert_eq!(money.unwrap_err(), MoneyError::InvalidAmount);

    let money = Money::from_str("1,00.00", inr());
    assert_eq!(money.unwrap_err(), MoneyError::InvalidAmount);

    let money = Money::from_str("1.000.000.00", inr());
    assert_eq!(money.unwrap_err(), MoneyError::InvalidAmount);
}

#[test]
fn money_from_string_parse_errs() {
    // If the delimiter precedes the separators
    let money = Money::from_str("1.0000,000", gbp());
    assert_eq!(money.unwrap_err(), MoneyError::InvalidAmount);

    // If there are multiple delimiters
    let money = Money::from_str("1.0000.000", gbp());
    assert_eq!(money.unwrap_err(), MoneyError::InvalidAmount);

    // If there is an unrecognized character
    let money = Money::from_str("1.0000!000", gbp());
    assert_eq!(money.unwrap_err(), MoneyError::InvalidAmount);

    // If there are no characters other than separators
    let exponent_separator_only = Money::from_str(",", gbp());
    let amount_separator_only = Money::from_str(".", gbp());
    let both_separators = Money::from_str(",,.", gbp());
    assert_eq!(
        exponent_separator_only.unwrap_err(),
        MoneyError::InvalidAmount
    );
    assert_eq!(
        amount_separator_only.unwrap_err(),
        MoneyError::InvalidAmount
    );
    assert_eq!(both_separators.unwrap_err(), MoneyError::InvalidAmount);
}

#[test]
fn money_from_string_parses_cryptocurrency() {
    let expected = Money::from_decimal(Decimal::from_i128_with_scale(111111111111, 11), eth());
    let money = Money::from_str("1.11111111111", eth()).unwrap();
    assert!(expected.eq(&money));

    // 23 integer digits: the synthesized zero fraction shrinks to the six
    // places the decimal primitive can still hold, the value staying exact
    let expected = Money::from_decimal(
        Decimal::from_i128_with_scale(40891626854930000000000i128, 0),
        eth(),
    );
    let money = Money::from_str("40891626854930000000000", eth()).unwrap();
    assert!(expected.eq(&money));
    assert_eq!(money.amount().scale(), 6);
}

#[test]
fn money_from_string_rejects_empty_and_bare_sign() {
    assert_eq!(Money::from_str("", gbp()).unwrap_err(), MoneyError::InvalidAmount);
    assert_eq!(Money::from_str("-", gbp()).unwrap_err(), MoneyError::InvalidAmount);
}

#[test]
fn money_from_string_accepts_bare_fraction() {
    let money = Money::from_str(".5", gbp()).unwrap();
    assert!(money.eq(&Money::from_minor(50, gbp())));
}

#[test]
fn money_format_rounds_exponent() {
    // 19.9999 rounds to 20 for USD
    let money = Money::from_str("19.9999", usd()).unwrap();
    assert_eq!("$20.00", money.format());

    // 29.111 rounds to 29.11 for USD
    let money = Money::from_str("29.111", usd()).unwrap();
    assert_eq!("$29.11", money.format());

    // 39.1155 rounds to 39.116 for BHD
    let money = Money::from_str("39.1155", bhd()).unwrap();
    assert_eq!("ب.د39.116", money.format());
}

#[test]
fn money_fmt_separates_digits() {
    let usd_zero = Money::from_minor(0, usd()); // Zero Dollars
    let expected_usd_fmt = "$0.00";
    assert_eq!(usd_zero.format(), expected_usd_fmt);

    let usd_money = Money::from_minor(10_000_000, usd()); // One Hundred Thousand Dollars
    let expected_usd_fmt = "$100,000.00";
    assert_eq!(usd_money.format(), expected_usd_fmt);

    let usd_money = Money::from_minor(-10_000_000, usd()); // - One Hundred Thousand Dollars
    let expected_usd_fmt = "-$100,000.00";
    assert_eq!(usd_money.format(), expected_usd_fmt);

    let usd_money = Money::from_minor(100_000_000_000, usd()); // 1 Billion Dollars
    let expected_usd_fmt = "$1,000,000,000.00";
    assert_eq!(usd_money.format(), expected_usd_fmt);

    let inr_money = Money::from_minor(10_000_000, inr()); // 1 Lakh Rupees
    let expected_inr_fmt = "₹1,00,000.00";
    assert_eq!(inr_money.format(), expected_inr_fmt);

    let inr_money = Money::from_minor(-1_000_000_000, inr()); // - 1 Crore Rupees
    let expected_inr_fmt = "-₹1,00,00,000.00";
    assert_eq!(inr_money.format(), expected_inr_fmt);
}

#[test]
fn money_fmt_places_symbols_correctly() {
    let money = Money::from_minor(0, usd());
    let expected_fmt = "$0.00";
    assert_eq!(money.format(), expected_fmt);

    let money = Money::from_minor(0, aed());
    let expected_fmt = "0.00د.إ";
    assert_eq!(money.format(), expected_fmt);
}

#[test]
fn money_fmt_uses_correct_separators() {
    let money = Money::from_minor(100_000, eur());
    let expected_fmt = "€1.000,00";
    assert_eq!(money.format(), expected_fmt);
}
