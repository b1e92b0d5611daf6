use investments::date::Date;
use investments::taxes::{Country, NetTaxCalculator, TaxPaymentDay};

const UNIT: i64 = 1_000_000;

fn date(y: i32, m: u32, d: u32) -> Date {
    Date::from_ymd(y, m, d).unwrap()
}

#[test]
fn tax_payment_day_default() {
    let day = TaxPaymentDay::default();
    assert_eq!(day, TaxPaymentDay::Day { month: 3, day: 15 });
    assert_eq!(day.get(date(2021, 1, 1)), date(2022, 3, 15));
    assert_eq!(day.get(date(2021, 12, 31)), date(2022, 3, 15));
}

#[test]
fn tax_payment_day_fixed() {
    let day = TaxPaymentDay::Day { month: 4, day: 30 };
    assert_eq!(day.get(date(2020, 2, 29)), date(2021, 4, 30));
    assert_eq!(TaxPaymentDay::OnClose.get(date(2020, 5, 1)), date(2021, 3, 15));
}

#[test]
fn tax_to_pay() {
    let country = Country { tax_rate: 1300 };
    assert_eq!(country.tax_to_pay(100 * UNIT), 13 * UNIT);
    assert_eq!(country.tax_to_pay(-100 * UNIT), 0);
    assert_eq!(country.tax_to_pay(0), 0);
    assert_eq!(country.tax_to_pay(7), 0);
}

#[test]
fn profit_of_one_year_shares_a_bucket() {
    let mut calc = NetTaxCalculator::new(Country { tax_rate: 1300 }, TaxPaymentDay::default());
    calc.add_profit(date(2021, 2, 1), 100 * UNIT);
    calc.add_profit(date(2021, 11, 1), -40 * UNIT);
    calc.add_profit(date(2022, 5, 1), 10 * UNIT);
    let mut taxes = calc.get_taxes().unwrap();
    taxes.sort();
    assert_eq!(taxes, vec![(date(2022, 3, 15), 78 * UNIT / 10), (date(2023, 3, 15), 13 * UNIT / 10)]);
}

#[test]
fn loss_gives_no_tax() {
    let mut calc = NetTaxCalculator::new(Country { tax_rate: 1300 }, TaxPaymentDay::default());
    calc.add_profit(date(2021, 2, 1), -5 * UNIT);
    assert_eq!(calc.get_taxes().unwrap(), vec![(date(2022, 3, 15), 0)]);
}

#[test]
fn no_profit_no_taxes() {
    let calc = NetTaxCalculator::new(Country { tax_rate: 1300 }, TaxPaymentDay::default());
    assert_eq!(calc.get_taxes().unwrap(), vec![]);
}

#[test]
fn tax_payment_day_february_29() {
    let day = TaxPaymentDay::Day { month: 2, day: 29 };
    assert_eq!(day.get(date(2023, 6, 1)), date(2024, 2, 29));
}
