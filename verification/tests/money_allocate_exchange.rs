use moneta::{Currency, Decimal, Exchange, ExchangeRate, Locale, Money, MoneyError};

fn usd() -> Currency {
    Currency::new("USD", "$", true, 2, Locale::EnUs)
}

fn eur() -> Currency {
    Currency::new("EUR", "€", true, 2, Locale::EnEu)
}

fn gbp() -> Currency {
    Currency::new("GBP", "£", true, 2, Locale::EnUs)
}

#[test]
fn money_allocate() {
    let money = Money::from_minor(1_100, usd());
    let allocated = money.allocate(vec![1, 1, 1]).unwrap();
    let expected_results = vec![
        Money::from_minor(400, usd()),
        Money::from_minor(400, usd()),
        Money::from_minor(300, usd()),
    ];
    assert_eq!(expected_results.len(), allocated.len());
    for k in 0..expected_results.len() {
        assert!(expected_results[k].eq(&allocated[k]));
    }

    // Error if the ratio vector is empty
    let monies = Money::from_minor(100, usd()).allocate(Vec::new());
    assert_eq!(monies.unwrap_err(), MoneyError::InvalidRatio);

    // Error if any ratio is zero
    let monies = Money::from_minor(100, usd()).allocate(vec![1, 0]);
    assert_eq!(monies.unwrap_err(), MoneyError::InvalidRatio);
}

#[test]
fn money_allocate_to() {
    let money = Money::from_minor(1_100, usd());
    let monies = money.allocate_to(3).unwrap();
    let expected_results = vec![
        Money::from_minor(400, usd()),
        Money::from_minor(400, usd()),
        Money::from_minor(300, usd()),
    ];
    assert_eq!(expected_results.len(), monies.len());
    for k in 0..expected_results.len() {
        assert!(expected_results[k].eq(&monies[k]));
    }

    let monies = Money::from_minor(100, usd()).allocate_to(0);
    assert_eq!(monies.unwrap_err(), MoneyError::InvalidRatio);
}

#[test]
fn money_allocate_conserves_total() {
    let money = Money::from_minor(1_100, usd());
    let shares = money.allocate(vec![4, 3, 1]).unwrap();
    assert_eq!(shares.len(), 3);
    let mut total = Money::from_minor(0, usd());
    for k in 0..shares.len() {
        total = total.add(&shares[k]);
    }
    assert!(total.eq(&money));
    // the floored shares are 5.00, 4.00 and 1.00; the leftover unit goes first
    assert!(shares[0].eq(&Money::from_major(6, usd())));
    assert!(shares[1].eq(&Money::from_major(4, usd())));
    assert!(shares[2].eq(&Money::from_major(1, usd())));
}

#[test]
fn exchange_stores_rates() {
    let eur_usd_rate = ExchangeRate::new(usd(), eur(), Decimal::new(15, 1));
    let eur_gbp_rate = ExchangeRate::new(usd(), gbp(), Decimal::new(16, 1));

    let mut exchange = Exchange::new();
    exchange.set_rate(&eur_usd_rate);
    exchange.set_rate(&eur_gbp_rate);

    let fetched_rate = exchange.get_rate(usd(), eur()).unwrap();
    assert_eq!(fetched_rate.rate.mantissa(), 15);
    assert_eq!(fetched_rate.rate.scale(), 1);

    let fetched_rate = exchange.get_rate(usd(), gbp()).unwrap();
    assert_eq!(fetched_rate.rate.mantissa(), 16);
    assert_eq!(fetched_rate.rate.scale(), 1);
}

#[test]
fn exchange_overwrites_and_misses() {
    let mut exchange = Exchange::new();
    // an unset ordered pair is absent, and direction matters
    assert!(exchange.get_rate(usd(), eur()).is_none());
    exchange.set_rate(&ExchangeRate::new(usd(), eur(), Decimal::new(15, 1)));
    assert!(exchange.get_rate(eur(), usd()).is_none());
    // setting the same pair again overwrites the old rate
    exchange.set_rate(&ExchangeRate::new(usd(), eur(), Decimal::new(17, 1)));
    let fetched = exchange.get_rate(usd(), eur()).unwrap();
    assert_eq!(fetched.rate.mantissa(), 17);
    assert_eq!(fetched.rate.scale(), 1);
}

#[test]
fn rate_convert() {
    let rate = ExchangeRate::new(usd(), eur(), Decimal::new(15, 1));
    let amount = Money::from_minor(1_000, usd());
    let expected_amount = Money::from_minor(1_500, eur());
    let converted_rate = rate.convert(amount).unwrap();
    assert!(converted_rate.eq(&expected_amount));
}

#[test]
fn rate_convert_errors_if_currencies_do_not_match() {
    let rate = ExchangeRate::new(gbp(), eur(), Decimal::new(15, 1));
    let amount = Money::from_minor(1_000, usd());

    assert_eq!(rate.convert(amount).unwrap_err(), MoneyError::InvalidCurrency);
}
