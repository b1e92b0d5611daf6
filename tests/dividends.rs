use investments::cash::Cash;
use investments::date::Date;
use investments::dividends::{parse_dividend_description, DividendLedger, DividendsParser};
use investments::error::Error;

const UNIT: i64 = 1_000_000;

fn date(y: i32, m: u32, d: u32) -> Date {
    Date::from_ymd(y, m, d).unwrap()
}

fn usd(amount: i64) -> Cash {
    Cash::new("USD", amount)
}

fn check(description: &str, symbol: &str) {
    assert_eq!(parse_dividend_description(description).unwrap(), symbol);
}

#[test]
fn dividend_description_with_space_before_isin() {
    check("VNQ (US9229085538) Cash Dividend USD 0.7318 (Ordinary Dividend)", "VNQ");
}

#[test]
fn dividend_description_plain() {
    check("IEMG(US46434G1031) Cash Dividend 0.44190500 USD per Share (Ordinary Dividend)", "IEMG");
    check("BND(US9219378356) Cash Dividend 0.18685800 USD per Share (Mixed Income)", "BND");
    check("VNQ(US9229085538) Cash Dividend 0.82740000 USD per Share (Return of Capital)", "VNQ");
}

#[test]
fn dividend_description_with_digit_in_symbol() {
    check("EXH4(DE000A0H08J9) Cash Dividend EUR 0.013046 per Share (Mixed Income)", "EXH4");
}

#[test]
fn dividend_description_reversal() {
    check("BND(US9219378356) Cash Dividend USD 0.193413 per Share (Ordinary Dividend)", "BND");
    check("BND(US9219378356) Cash Dividend USD 0.193413 per Share - Reversal (Ordinary Dividend)", "BND");
}

#[test]
fn dividend_description_with_class_suffix() {
    check("RDS B(US7802591070) Cash Dividend USD 0.32 per Share (Ordinary Dividend)", "RDS-B");
}

#[test]
fn dividend_description_payment_in_lieu() {
    check("UNIT(US91325V1089) Payment in Lieu of Dividend (Ordinary Dividend)", "UNIT");
}

#[test]
fn dividend_description_with_dot_suffix() {
    check("BRK.B(US0846707026) Cash Dividend USD 1.00 per Share (Ordinary Dividend)", "BRK.B");
}

#[test]
fn dividend_description_unexpected() {
    for description in [
        "Cash Dividend USD 0.32 per Share",
        "vnq(US9229085538) Cash Dividend",
        "VNQ(US92290855) Cash Dividend",
        "VNQ(US9229085538)Cash Dividend",
        "VNQ  (US9229085538) Cash Dividend",
        "",
    ] {
        assert_eq!(
            parse_dividend_description(description),
            Err(Error::UnexpectedDividendDescription(description.to_string())),
        );
    }
}

#[test]
fn dividend_reversal_nets() {
    let mut ledger = DividendLedger::new();
    let issuer = "BND".to_string();
    let day = date(2021, 1, 1);
    ledger.record(day, &issuer, &usd(100 * UNIT)).unwrap();
    ledger.record(day, &issuer, &usd(-40 * UNIT)).unwrap();
    assert_eq!(ledger.get(&day, &issuer), Some(usd(60 * UNIT)));
}

#[test]
fn dividend_full_reversal_is_zero() {
    let mut ledger = DividendLedger::new();
    let issuer = "VNQ".to_string();
    let day = date(2020, 6, 30);
    ledger.record(day, &issuer, &usd(73 * UNIT / 100)).unwrap();
    ledger.record(day, &issuer, &usd(-73 * UNIT / 100)).unwrap();
    assert_eq!(ledger.get(&day, &issuer), Some(usd(0)));
}

#[test]
fn dividend_netting_in_any_order() {
    let amounts = [5 * UNIT, -2 * UNIT, 7 * UNIT, -1 * UNIT];
    let issuer = "IEMG".to_string();
    let day = date(2021, 3, 15);
    let mut forward = DividendLedger::new();
    for a in amounts {
        forward.record(day, &issuer, &usd(a)).unwrap();
    }
    let mut backward = DividendLedger::new();
    for a in amounts.iter().rev() {
        backward.record(day, &issuer, &usd(*a)).unwrap();
    }
    assert_eq!(forward.get(&day, &issuer), Some(usd(9 * UNIT)));
    assert_eq!(backward.get(&day, &issuer), Some(usd(9 * UNIT)));
}

#[test]
fn dividend_identities_are_separate() {
    let mut ledger = DividendLedger::new();
    let bnd = "BND".to_string();
    let vnq = "VNQ".to_string();
    ledger.record(date(2021, 1, 1), &bnd, &usd(UNIT)).unwrap();
    ledger.record(date(2021, 1, 2), &bnd, &usd(2 * UNIT)).unwrap();
    ledger.record(date(2021, 1, 1), &vnq, &usd(3 * UNIT)).unwrap();
    assert_eq!(ledger.get(&date(2021, 1, 1), &bnd), Some(usd(UNIT)));
    assert_eq!(ledger.get(&date(2021, 1, 2), &bnd), Some(usd(2 * UNIT)));
    assert_eq!(ledger.get(&date(2021, 1, 1), &vnq), Some(usd(3 * UNIT)));
    assert_eq!(ledger.get(&date(2021, 1, 3), &vnq), None);
}

#[test]
fn dividend_zero_amount_is_refused() {
    let mut ledger = DividendLedger::new();
    let issuer = "BND".to_string();
    let day = date(2021, 1, 1);
    assert_eq!(ledger.record(day, &issuer, &usd(0)), Err(Error::ZeroDividend));
    assert_eq!(ledger.get(&day, &issuer), None);
}

#[test]
fn dividend_currency_mismatch_is_refused() {
    let mut ledger = DividendLedger::new();
    let issuer = "BND".to_string();
    let day = date(2021, 1, 1);
    ledger.record(day, &issuer, &usd(UNIT)).unwrap();
    assert_eq!(
        ledger.record(day, &issuer, &Cash::new("EUR", UNIT)),
        Err(Error::DividendCurrencyMismatch),
    );
    assert_eq!(ledger.get(&day, &issuer), Some(usd(UNIT)));
}

#[test]
fn dividends_parser_records_lines() {
    let mut parser = DividendsParser {};
    assert!(parser.skip_totals());
    let mut ledger = DividendLedger::new();
    let day = date(2019, 9, 26);
    parser.parse(&mut ledger, day, "RDS B(US7802591070) Cash Dividend USD 0.32 per Share (Ordinary Dividend)", &usd(32 * UNIT)).unwrap();
    parser.parse(&mut ledger, day, "RDS B (US7802591070) Cash Dividend USD 0.32 per Share - Reversal", &usd(-2 * UNIT)).unwrap();
    assert_eq!(ledger.get(&day, &"RDS-B".to_string()), Some(usd(30 * UNIT)));
    let bad = "Cash Dividend";
    assert_eq!(
        parser.parse(&mut ledger, day, bad, &usd(UNIT)),
        Err(Error::UnexpectedDividendDescription(bad.to_string())),
    );
}
