use investments::cash::{round, Cash};
use investments::cash_flow::{
    assets_on, available_asset_dates,
    calculate, checked_summary_rows, generate_cash_flow_report, generate_cash_summary_report,
    generate_details_report,
    generate_other_summary_report, other_assets_legs, CashFlow, CashFlowSummary, Operation,
};
use investments::date::Date;
use investments::error::{Error, Violation};

const UNIT: i64 = 1_000_000;
const UNIT128: i128 = 1_000_000;

fn date(y: i32, m: u32, d: u32) -> Date {
    Date::from_ymd(y, m, d).unwrap()
}

fn flow(day: Date, operation: Operation, amount: Cash, sibling: Option<Cash>) -> CashFlow {
    CashFlow { date: day, operation, amount, sibling_amount: sibling, description: format!("{:?}", operation) }
}

#[test]
fn rounding_to_cents() {
    assert_eq!(round(1_234_567), 1_230_000);
    assert_eq!(round(1_235_000), 1_240_000);
    assert_eq!(round(-1_235_000), -1_240_000);
    assert_eq!(round(-1_234_999), -1_230_000);
    assert_eq!(round(0), 0);
}

#[test]
fn deposit_and_withdrawal_balance() {
    let events = vec![
        flow(date(2021, 2, 1), Operation::Deposit, Cash::new("USD", 500 * UNIT), None),
        flow(date(2021, 3, 1), Operation::Withdrawal, Cash::new("USD", -200 * UNIT), None),
    ];
    let summaries = vec![CashFlowSummary::new("USD", 1000 * UNIT, 1300 * UNIT)];
    let report = generate_cash_flow_report(date(2021, 1, 1), date(2022, 1, 1), None, summaries, &events).unwrap();
    assert_eq!(report.summary.len(), 1);
    let row = &report.summary[0];
    assert_eq!(row.currency, "USD");
    assert_eq!(row.starting, 1000 * UNIT128);
    assert_eq!(row.deposits, 500 * UNIT128);
    assert_eq!(row.withdrawals, -200 * UNIT128);
    assert_eq!(row.ending, 1300 * UNIT128);
    assert_eq!(report.details.len(), 2);
}

#[test]
fn unaccounted_event_fails_the_check() {
    let events = vec![
        flow(date(2021, 2, 1), Operation::Deposit, Cash::new("USD", 500 * UNIT), None),
        flow(date(2021, 3, 1), Operation::Withdrawal, Cash::new("USD", -200 * UNIT), None),
        flow(date(2021, 4, 1), Operation::Fee, Cash::new("USD", -1 * UNIT), None),
    ];
    let summaries = vec![CashFlowSummary::new("USD", 1000 * UNIT, 1300 * UNIT)];
    let r = generate_cash_flow_report(date(2021, 1, 1), date(2022, 1, 1), None, summaries, &events);
    assert_eq!(r.err(), Some(Error::Violation(Violation::UnbalancedCurrency("USD".to_string()))));
}

#[test]
fn tolerance_absorbs_rounding() {
    let mut s = CashFlowSummary::new("USD", 1000 * UNIT, 1000 * UNIT + 15_000);
    s.deposits = 0;
    assert!(checked_summary_rows(&vec![s.clone()]).is_ok());
    let rows = generate_cash_summary_report(&vec![s]);
    assert_eq!(rows[0].ending, 1000 * UNIT128);
    let s = CashFlowSummary::new("USD", 1000 * UNIT, 1000 * UNIT + 15_001);
    assert_eq!(
        checked_summary_rows(&vec![s]).err(),
        Some(Error::Violation(Violation::UnbalancedCurrency("USD".to_string()))),
    );
}

#[test]
fn events_outside_period_are_left_out() {
    let events = vec![
        flow(date(2020, 12, 31), Operation::Deposit, Cash::new("USD", 7 * UNIT), None),
        flow(date(2021, 1, 1), Operation::Deposit, Cash::new("USD", 5 * UNIT), None),
        flow(date(2021, 12, 31), Operation::Fee, Cash::new("USD", -1 * UNIT), None),
        flow(date(2022, 1, 1), Operation::Deposit, Cash::new("USD", 9 * UNIT), None),
    ];
    let mut summaries = vec![CashFlowSummary::new("USD", 0, 4 * UNIT)];
    let flows = calculate(&mut summaries, &events, date(2021, 1, 1), date(2022, 1, 1));
    assert_eq!(flows.len(), 2);
    assert_eq!(summaries[0].deposits, 5 * UNIT128);
    assert_eq!(summaries[0].withdrawals, UNIT128);
}

#[test]
fn sibling_leg_goes_to_its_own_currency() {
    let events = vec![flow(
        date(2021, 5, 5),
        Operation::BuyTrade,
        Cash::new("USD", -100 * UNIT),
        Some(Cash::new("EUR", -2 * UNIT)),
    )];
    let mut summaries = vec![CashFlowSummary::new("EUR", 2 * UNIT, 0), CashFlowSummary::new("USD", 100 * UNIT, 0)];
    calculate(&mut summaries, &events, date(2021, 1, 1), date(2022, 1, 1));
    assert_eq!(summaries.len(), 2);
    assert_eq!(summaries[0].currency, "EUR");
    assert_eq!(summaries[0].withdrawals, 2 * UNIT128);
    assert_eq!(summaries[1].withdrawals, 100 * UNIT128);
    let rows = generate_details_report(&summaries, &events);
    assert_eq!(rows[0].cells, vec![Some(Cash::new("EUR", -2 * UNIT)), Some(Cash::new("USD", -100 * UNIT))]);
    let report = generate_cash_flow_report(
        date(2021, 1, 1), date(2022, 1, 1), None,
        vec![CashFlowSummary::new("EUR", 2 * UNIT, 0), CashFlowSummary::new("USD", 100 * UNIT, 0)], &events).unwrap();
    assert_eq!(report.summary[0].currency, "EUR");
    assert_eq!(report.summary[1].currency, "USD");
    assert_eq!(report.details[0].cells[1], Some(Cash::new("USD", -100 * UNIT)));
}

#[test]
fn report_period_of_a_year() {
    let events = vec![
        flow(date(2020, 6, 1), Operation::Deposit, Cash::new("USD", 10 * UNIT), None),
        flow(date(2021, 6, 1), Operation::Interest, Cash::new("USD", 2 * UNIT), None),
    ];
    let summaries = vec![CashFlowSummary::new("USD", 10 * UNIT, 12 * UNIT)];
    let report = generate_cash_flow_report(date(2020, 3, 1), date(2021, 9, 1), Some(2021), summaries, &events).unwrap();
    assert_eq!(report.start_date, date(2021, 1, 1));
    assert_eq!(report.end_date, date(2021, 9, 1));
    assert_eq!(report.cash_flows.len(), 1);
    assert_eq!(report.summary[0].deposits, 2 * UNIT128);
}

#[test]
fn other_assets_summary() {
    let events = vec![
        flow(date(2021, 5, 5), Operation::BuyTrade, Cash::new("USD", -100 * UNIT), Some(Cash::new("EUR", -1 * UNIT))),
        flow(date(2021, 5, 6), Operation::Dividend, Cash::new("USD", 3 * UNIT), None),
        flow(date(2021, 5, 7), Operation::SellTrade, Cash::new("USD", 40 * UNIT), None),
    ];
    let legs = other_assets_legs(&events);
    assert_eq!(legs.len(), 3);
    assert_eq!(legs[0].1, Cash::new("USD", 100 * UNIT));
    assert_eq!(legs[1].1, Cash::new("EUR", UNIT));
    assert_eq!(legs[2].1, Cash::new("USD", -40 * UNIT));

    let converted = vec![100 * UNIT, 12 * UNIT / 10, -40 * UNIT];
    let s = generate_other_summary_report(&None, &Some(Cash::new("USD", 61 * UNIT)), true, &converted, "RUB");
    assert_eq!(s.currency, "USD");
    assert_eq!(s.starting, Some(0));
    assert_eq!(s.ending, Some(61 * UNIT));
    assert_eq!(s.deposits, 1012 * UNIT128 / 10);
    assert_eq!(s.withdrawals, -40 * UNIT128);
    assert!(!s.missing);

    let s = generate_other_summary_report(&None, &None, false, &converted, "USD");
    assert_eq!(s.currency, "USD");
    assert_eq!(s.starting, None);
    assert_eq!(s.ending, None);
    assert!(s.missing);
}

#[test]
fn asset_dates_and_lookup() {
    let historical = vec![
        (date(2021, 1, 1), Some(Cash::new("USD", 5 * UNIT))),
        (date(2021, 6, 1), None),
        (date(2021, 12, 31), Some(Cash::new("USD", 8 * UNIT))),
    ];
    assert_eq!(available_asset_dates(&historical), vec![date(2021, 1, 1), date(2021, 12, 31)]);
    assert_eq!(assets_on(&historical, &date(2021, 12, 31)), Some(Cash::new("USD", 8 * UNIT)));
    assert_eq!(assets_on(&historical, &date(2021, 6, 1)), None);
    assert_eq!(assets_on(&historical, &date(2020, 6, 1)), None);
}

#[test]
fn year_outside_statements_fails() {
    let summaries = vec![CashFlowSummary::new("USD", 0, 0)];
    let r = generate_cash_flow_report(date(2020, 3, 1), date(2021, 1, 1), Some(2021), summaries, &vec![]);
    assert_eq!(r.err(), Some(Error::YearOutsideStatements(2021)));
}
