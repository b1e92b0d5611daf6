use investments::date::Date;
use investments::error::Error;
use investments::trades::{
    ConcludedTrade, ConcludedTrades, ExecutedTrade, ExecutedTrades, PartialBrokerStatement,
};

const UNIT: i64 = 1_000_000;

fn date(y: i32, m: u32, d: u32) -> Date {
    Date::from_ymd(y, m, d).unwrap()
}

fn securities() -> Vec<(String, String)> {
    vec![
        ("Sberbank".to_string(), "SBER".to_string()),
        ("FinEx Gold".to_string(), "FXGD".to_string()),
    ]
}

fn buy(id: u64, quantity: i64) -> ConcludedTrade {
    ConcludedTrade {
        id,
        security_name: "Sberbank".to_string(),
        conclusion_date: date(2021, 3, 1),
        execution_date: date(2021, 3, 3),
        buy_quantity: Some(quantity),
        sell_quantity: None,
        price: 250 * UNIT,
        price_currency: "RUB".to_string(),
        volume: 250 * UNIT * quantity,
        accounting_currency: "RUB".to_string(),
        commission: 0,
        commission_currency: None,
    }
}

fn executed(id: u64, plan: Date, fact: Date) -> ExecutedTrade {
    ExecutedTrade { id, plan_execution_date: plan, fact_execution_date: fact }
}

#[test]
fn executed_trades_with_shifted_dates() {
    let trades = ExecutedTrades {
        trades: vec![
            executed(1, date(2021, 3, 3), date(2021, 3, 3)),
            executed(2, date(2021, 3, 3), date(2021, 3, 4)),
            executed(1, date(2021, 3, 3), date(2021, 3, 3)),
        ],
    };
    let shifted = trades.parse().unwrap();
    assert_eq!(shifted.len(), 1);
    assert_eq!(shifted.get(&2), Some(&date(2021, 3, 4)));
}

#[test]
fn executed_trades_duplicated_correction() {
    let trades = ExecutedTrades {
        trades: vec![
            executed(7, date(2021, 3, 3), date(2021, 3, 4)),
            executed(7, date(2021, 3, 3), date(2021, 3, 5)),
        ],
    };
    assert_eq!(trades.parse().err(), Some(Error::DuplicatedTrade(7)));
}

#[test]
fn concluded_trades_buy_and_sell() {
    let mut sell = buy(2, 3);
    sell.buy_quantity = None;
    sell.sell_quantity = Some(3);
    sell.commission = 15 * UNIT / 10;
    sell.commission_currency = Some("RUB".to_string());
    let trades = ConcludedTrades { trades: vec![buy(1, 10), sell] };
    let mut statement = PartialBrokerStatement::new();
    let mut shifted = std::collections::HashMap::new();
    trades.parse(&mut statement, &securities(), &mut shifted, false).unwrap();
    assert_eq!(statement.stock_buys.len(), 1);
    assert_eq!(statement.stock_sells.len(), 1);
    let b = &statement.stock_buys[0];
    assert_eq!(b.symbol, "SBER");
    assert_eq!(b.quantity, 10);
    assert_eq!(b.volume.amount, 2500 * UNIT);
    assert_eq!(b.commission.currency, "RUB");
    assert_eq!(b.commission.amount, 0);
    assert_eq!(b.execution_date, date(2021, 3, 3));
    let s = &statement.stock_sells[0];
    assert_eq!(s.quantity, 3);
    assert_eq!(s.commission.amount, 1_500_000);
}

#[test]
fn execution_date_correction_is_used_once() {
    let trades = ConcludedTrades { trades: vec![buy(5, 1), buy(5, 2), buy(6, 1)] };
    let mut statement = PartialBrokerStatement::new();
    let mut shifted = std::collections::HashMap::new();
    shifted.insert(5u64, date(2021, 3, 10));
    shifted.insert(9u64, date(2021, 3, 11));
    trades.parse(&mut statement, &securities(), &mut shifted, true).unwrap();
    assert_eq!(statement.stock_buys[0].execution_date, date(2021, 3, 10));
    assert_eq!(statement.stock_buys[1].execution_date, date(2021, 3, 3));
    assert_eq!(statement.stock_buys[2].execution_date, date(2021, 3, 3));
    assert!(statement.stock_buys[0].repo);
    assert_eq!(shifted.len(), 1);
    assert_eq!(shifted.get(&9), Some(&date(2021, 3, 11)));
}

fn parse_one(trade: ConcludedTrade) -> Result<(), Error> {
    let trades = ConcludedTrades { trades: vec![trade] };
    let mut statement = PartialBrokerStatement::new();
    let mut shifted = std::collections::HashMap::new();
    trades.parse(&mut statement, &securities(), &mut shifted, false)
}

#[test]
fn trade_with_both_quantities_is_refused() {
    let mut trade = buy(3, 1);
    trade.sell_quantity = Some(1);
    assert_eq!(parse_one(trade), Err(Error::UnclassifiedTrade(3)));
}

#[test]
fn trade_with_no_quantity_is_refused() {
    let mut trade = buy(4, 1);
    trade.buy_quantity = None;
    assert_eq!(parse_one(trade), Err(Error::UnclassifiedTrade(4)));
}

#[test]
fn trade_errors() {
    let mut t = buy(1, 1);
    t.security_name = "Unknown".to_string();
    assert_eq!(parse_one(t), Err(Error::UnknownSecurity("Unknown".to_string())));

    let mut t = buy(1, 1);
    t.accounting_currency = "USD".to_string();
    assert_eq!(parse_one(t), Err(Error::UnsupportedTradeCurrency(1)));

    let mut t = buy(1, 1);
    t.price = 0;
    assert_eq!(parse_one(t), Err(Error::InvalidPrice(1)));

    let mut t = buy(1, 1);
    t.volume = -1;
    assert_eq!(parse_one(t), Err(Error::InvalidVolume(1)));

    let mut t = buy(1, 1);
    t.commission = -1;
    assert_eq!(parse_one(t), Err(Error::InvalidCommission(1)));

    let mut t = buy(1, 1);
    t.commission = 1;
    assert_eq!(parse_one(t), Err(Error::MissingCommissionCurrency(1)));

    let mut t = buy(1, 1);
    t.buy_quantity = Some(0);
    assert_eq!(parse_one(t), Err(Error::InvalidQuantity(1)));
}

#[test]
fn first_invalid_trade_stops_reading() {
    let mut bad = buy(2, 1);
    bad.price = -5;
    let trades = ConcludedTrades { trades: vec![buy(1, 1), bad, buy(3, 1)] };
    let mut statement = PartialBrokerStatement::new();
    let mut shifted = std::collections::HashMap::new();
    assert_eq!(trades.parse(&mut statement, &securities(), &mut shifted, false), Err(Error::InvalidPrice(2)));
}

#[test]
fn failing_trade_keeps_earlier_records_and_later_corrections() {
    let mut bad = buy(2, 1);
    bad.sell_quantity = Some(1);
    let trades = ConcludedTrades { trades: vec![buy(1, 1), bad, buy(3, 1)] };
    let mut statement = PartialBrokerStatement::new();
    let mut shifted = std::collections::HashMap::new();
    shifted.insert(1u64, date(2021, 3, 9));
    shifted.insert(2u64, date(2021, 3, 10));
    shifted.insert(3u64, date(2021, 3, 11));
    assert_eq!(trades.parse(&mut statement, &securities(), &mut shifted, false), Err(Error::UnclassifiedTrade(2)));
    assert_eq!(statement.stock_buys.len(), 1);
    assert_eq!(statement.stock_buys[0].execution_date, date(2021, 3, 9));
    assert!(statement.stock_sells.is_empty());
    assert_eq!(shifted.len(), 2);
    assert!(shifted.contains_key(&2) && shifted.contains_key(&3));
}
