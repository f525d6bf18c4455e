use moneta::{Currency, Decimal, Locale, Money, Round};

fn usd() -> Currency {
    Currency::new("USD", "$", true, 2, Locale::EnUs)
}

fn gbp() -> Currency {
    Currency::new("GBP", "£", true, 2, Locale::EnUs)
}

fn eth() -> Currency {
    Currency::new("ETH", "ETH", false, 18, Locale::EnUs)
}

fn bhd() -> Currency {
    Currency::new("BHD", "ب.د", true, 3, Locale::EnUs)
}

#[test]
fn money_major_minor() {
    let major_usd = Money::from_major(10, usd());
    let minor_usd = Money::from_minor(1000, usd());
    assert!(major_usd.eq(&minor_usd));
}

#[test]
fn money_from_minor_cryptocurrency() {
    let a = Money::from_decimal(
        Decimal::from_i128_with_scale(40891626854930000000000i128, 18),
        eth(),
    );
    let b = Money::from_minor(40891626854930000000000i128, eth());
    assert!(a.eq(&b));
}

#[test]
fn money_addition_and_subtraction() {
    // Addition
    let two = Money::from_major(2, usd());
    let sum = Money::from_major(1, usd()).add(&Money::from_major(1, usd()));
    assert!(two.eq(&sum));

    let expected = Money::from_decimal(Decimal::from_i128_with_scale(333333333333, 11), eth());
    let got = Money::from_decimal(Decimal::from_i128_with_scale(111111111111, 11), eth())
        .add(&Money::from_decimal(Decimal::from_i128_with_scale(222222222222, 11), eth()));
    assert!(expected.eq(&got));

    // Subtraction
    let zero = Money::from_major(0, usd());
    let diff = Money::from_major(1, usd()).sub(&Money::from_major(1, usd()));
    assert!(zero.eq(&diff));

    let expected = Money::from_decimal(Decimal::from_i128_with_scale(-111111111111, 11), eth());
    let got = Money::from_decimal(Decimal::from_i128_with_scale(111111111111, 11), eth())
        .sub(&Money::from_decimal(Decimal::from_i128_with_scale(222222222222, 11), eth()));
    assert!(expected.eq(&got));
}

#[test]
fn money_multiplication_and_division() {
    // Multiplication by an integer, in either operand order
    assert!(Money::from_minor(200, usd()).eq(&Money::from_minor(100, usd()).mul_int(2)));
    assert!(Money::from_minor(200, usd()).eq(&Money::from_minor(-100, usd()).mul_int(-2)));
    assert!(Money::from_minor(200, usd()).eq(&Money::from_minor(-100, usd()).mul_int(-2)));

    // Multiplication by a decimal
    assert!(Money::from_minor(200, usd()).eq(&Money::from_minor(100, usd()).mul_dec(&Decimal::new(2, 0))));
    assert!(Money::from_minor(200, usd()).eq(&Money::from_minor(-100, usd()).mul_dec(&Decimal::new(-2, 0))));
    assert!(Money::from_minor(200, usd()).eq(&Money::from_minor(-100, usd()).mul_dec(&Decimal::new(-2, 0))));
    assert!(Money::from_minor(200, usd()).eq(&Money::from_minor(400, usd()).mul_dec(&Decimal::new(5, 1))));

    // Division by an integer
    assert!(Money::from_minor(200, usd()).eq(&Money::from_minor(400, usd()).div_int(2)));
    assert!(Money::from_minor(200, usd()).eq(&Money::from_minor(-400, usd()).div_int(-2)));
    assert!(Money::from_minor(50, usd()).eq(&Money::int_div(-1, &Money::from_minor(-200, usd()))));
    assert!(Money::from_minor(200, usd()).eq(&Money::from_minor(-200, usd()).div_int(-1)));

    // Division by a decimal
    assert!(Money::from_minor(200, usd()).eq(&Money::from_minor(400, usd()).div_dec(&Decimal::new(2, 0))));
    assert!(Money::from_minor(200, usd()).eq(&Money::from_minor(-400, usd()).div_dec(&Decimal::new(-2, 0))));
    assert!(Money::from_minor(50, usd()).eq(&Money::dec_div(&Decimal::new(-1, 0), &Money::from_minor(-200, usd()))));
    assert!(Money::from_minor(200, usd()).eq(&Money::from_minor(-200, usd()).div_dec(&Decimal::new(-1, 0))));
    assert!(Money::from_minor(400, usd()).eq(&Money::from_minor(-200, usd()).div_dec(&Decimal::new(-5, 1))));

    // Multiply-assign by an integer
    let mut money = Money::from_minor(100, usd());
    money.mul_assign_int(2);
    assert!(Money::from_minor(200, usd()).eq(&money));

    // Multiply-assign by a decimal
    let mut money = Money::from_minor(100, usd());
    money.mul_assign_dec(&Decimal::new(2, 0));
    assert!(Money::from_minor(200, usd()).eq(&money));

    // Divide-assign by an integer
    let mut money = Money::from_minor(100, usd());
    money.div_assign_int(-2);
    assert!(Money::from_minor(-50, usd()).eq(&money));

    // Divide-assign by a decimal
    let mut money = Money::from_minor(100, usd());
    money.div_assign_dec(&Decimal::new(-2, 0));
    assert!(Money::from_minor(-50, usd()).eq(&money));
}

#[test]
fn money_negation() {
    let money = Money::from_minor(100, usd());
    assert!(money.neg().eq(&Money::from_minor(-100, usd())));
}

#[test]
fn money_comparison() {
    // Greater Than
    assert!(Money::from_minor(200, usd()).gt(&Money::from_minor(100, usd())));
    // Less Than
    assert!(Money::from_minor(100, usd()).lt(&Money::from_minor(200, usd())));
    // Equals
    assert!(Money::from_minor(100, usd()).eq(&Money::from_minor(100, usd())));
    assert!(Money::from_minor(100, usd()).ne(&Money::from_minor(100, gbp())));
    // is positive
    assert!(Money::from_minor(100, usd()).is_positive());
    assert!(!Money::from_minor(0, usd()).is_positive());
    assert!(!Money::from_minor(-100, usd()).is_positive());
    // is zero
    assert!(Money::from_minor(0, usd()).is_zero());
    assert!(!Money::from_minor(100, usd()).is_zero());
    assert!(!Money::from_minor(-100, usd()).is_zero());
    // is negative
    assert!(Money::from_minor(-100, usd()).is_negative());
    assert!(!Money::from_minor(100, usd()).is_negative());
    assert!(!Money::from_minor(0, usd()).is_negative());
}

#[test]
fn money_precision_and_rounding() {
    // Dividing 20 by 3 rounds to 6.67 in USD and 6.667 in BHD
    let expected_money = Money::from_minor(667, usd());
    let mut money = Money::from_minor(2_000, usd());
    money.div_assign_int(3);
    assert!(money.round(2, Round::HalfEven).eq(&expected_money));

    let expected_money = Money::from_minor(6_667, bhd());
    let mut money = Money::from_minor(20_000, bhd());
    money.div_assign_int(3);
    assert!(money.round(3, Round::HalfEven).eq(&expected_money));
}

#[test]
fn money_ops_uses_impl_copy() {
    let money = Money::from_major(1, usd());
    let _1st_derived_money = money.mul_int(3);
    // Money is Copy, so the value is still usable after the first product.
    let _2nd_derived_money = money.mul_int(3);
}

#[test]
fn rounding_midpoints_follow_each_strategy() {
    // 0.125 at two digits: away from zero, toward zero, and to even
    let mid = Money::from_decimal(Decimal::from_i128_with_scale(125, 3), usd());
    assert!(mid.round(2, Round::HalfUp).eq(&Money::from_minor(13, usd())));
    assert!(mid.round(2, Round::HalfDown).eq(&Money::from_minor(12, usd())));
    assert!(mid.round(2, Round::HalfEven).eq(&Money::from_minor(12, usd())));

    // 0.135 to even rounds up to the even digit 4
    let mid2 = Money::from_decimal(Decimal::from_i128_with_scale(135, 3), usd());
    assert!(mid2.round(2, Round::HalfEven).eq(&Money::from_minor(14, usd())));

    // negative midpoints mirror the positive ones
    let negmid = Money::from_decimal(Decimal::from_i128_with_scale(-125, 3), usd());
    assert!(negmid.round(2, Round::HalfUp).eq(&Money::from_minor(-13, usd())));
    assert!(negmid.round(2, Round::HalfDown).eq(&Money::from_minor(-12, usd())));
    assert!(negmid.round(2, Round::HalfEven).eq(&Money::from_minor(-12, usd())));
}

#[test]
fn summing_money_folds_with_add() {
    let items = vec![
        Money::from_minor(100, usd()),
        Money::from_minor(250, usd()),
        Money::from_minor(-50, usd()),
    ];
    let total = Money::sum(&items);
    assert!(total.eq(&Money::from_minor(300, usd())));
}
