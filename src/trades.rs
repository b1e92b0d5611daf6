//! Trades of a statement: execution date corrections and the checks that turn
//! concluded trades into buy and sell records.

use std::collections::HashMap;

use crate::cash::Cash;
use crate::date::Date;
use crate::error::Error;
use vstd::prelude::*;

verus! {

broadcast use vstd::std_specs::hash::group_hash_axioms;

/// A trade as the statement lists it among concluded trades.
#[derive(Clone, Debug)]
pub struct ConcludedTrade {
    pub id: u64,
    pub security_name: String,
    pub conclusion_date: Date,
    pub execution_date: Date,
    pub buy_quantity: Option<i64>,
    pub sell_quantity: Option<i64>,
    /// Price of one unit, in millionths of `price_currency`.
    pub price: i64,
    pub price_currency: String,
    /// Price times quantity, in millionths of `price_currency`.
    pub volume: i64,
    pub accounting_currency: String,
    /// In millionths of the commission currency.
    pub commission: i64,
    pub commission_currency: Option<String>,
}

/// The concluded trades section of a statement.
pub struct ConcludedTrades {
    pub trades: Vec<ConcludedTrade>,
}

/// A trade as the statement lists it among executed trades.
#[derive(Clone, Copy, Debug)]
pub struct ExecutedTrade {
    pub id: u64,
    pub plan_execution_date: Date,
    pub fact_execution_date: Date,
}

/// The executed trades section of a statement.
pub struct ExecutedTrades {
    pub trades: Vec<ExecutedTrade>,
}

/// A buy or a sell of a security.
#[derive(Clone, Debug)]
pub struct StockTrade {
    pub symbol: String,
    pub quantity: i64,
    pub price: Cash,
    pub volume: Cash,
    pub commission: Cash,
    pub conclusion_date: Date,
    pub execution_date: Date,
    pub repo: bool,
}

/// The trades read from a statement so far.
pub struct PartialBrokerStatement {
    pub stock_buys: Vec<StockTrade>,
    pub stock_sells: Vec<StockTrade>,
}

impl PartialBrokerStatement {
    pub fn new() -> (r: PartialBrokerStatement)
        ensures
            r.stock_buys@.len() == 0,
            r.stock_sells@.len() == 0,
    {
        PartialBrokerStatement { stock_buys: Vec::new(), stock_sells: Vec::new() }
    }
}

/// The execution date corrections after the executed trades `trades`: each
/// trade whose actual date differs from the planned one maps its id to the
/// actual date; a second such trade with one id is an error.
pub open spec fn shifted_dates(trades: Seq<ExecutedTrade>) -> Result<Map<u64, Date>, Error>
    decreases trades.len(),
{
    if trades.len() == 0 {
        Ok(Map::empty())
    } else {
        let t = trades.last();
        match shifted_dates(trades.drop_last()) {
            Err(e) => Err(e),
            Ok(m) => if t.fact_execution_date == t.plan_execution_date {
                Ok(m)
            } else if m.contains_key(t.id) {
                Err(Error::DuplicatedTrade(t.id))
            } else {
                Ok(m.insert(t.id, t.fact_execution_date))
            },
        }
    }
}

proof fn lemma_shift_error_stays(s: Seq<ExecutedTrade>, i: int)
    requires
        0 <= i <= s.len(),
        shifted_dates(s.subrange(0, i)) is Err,
    ensures
        shifted_dates(s) == shifted_dates(s.subrange(0, i)),
    decreases s.len(),
{
    if i < s.len() {
        assert(s.drop_last().subrange(0, i) =~= s.subrange(0, i));
        lemma_shift_error_stays(s.drop_last(), i);
    } else {
        assert(s.subrange(0, i) =~= s);
    }
}

impl ExecutedTrades {
    /// The trades whose actual execution date differs from the planned one,
    /// by id, with their actual dates.
    pub fn parse(&self) -> (r: Result<HashMap<u64, Date>, Error>)
        ensures
            match shifted_dates(self.trades@) {
                Ok(m) => r matches Ok(h) && h@ == m,
                Err(e) => r == Err::<HashMap<u64, Date>, Error>(e),
            },
    {
        let mut shifted: HashMap<u64, Date> = HashMap::new();
        let mut i: usize = 0;
        while i < self.trades.len()
            invariant
                i <= self.trades@.len(),
                shifted_dates(self.trades@.subrange(0, i as int)) == Ok::<Map<u64, Date>, Error>(shifted@),
            decreases self.trades@.len() - i,
        {
            let trade = &self.trades[i];
            assert(self.trades@.subrange(0, i + 1).drop_last() =~= self.trades@.subrange(0, i as int));
            if !trade.fact_execution_date.same_as(&trade.plan_execution_date) {
                if shifted.insert(trade.id, trade.fact_execution_date).is_some() {
                    assert(shifted_dates(self.trades@.subrange(0, i + 1)) == Err::<Map<u64, Date>, Error>(Error::DuplicatedTrade(trade.id)));
                    proof { lemma_shift_error_stays(self.trades@, i + 1); }
                    assert(self.trades@.subrange(0, self.trades@.len() as int) =~= self.trades@);
                    return Err(Error::DuplicatedTrade(trade.id));
                }
            }
            i = i + 1;
        }
        assert(self.trades@.subrange(0, i as int) =~= self.trades@);
        Ok(shifted)
    }
}

/// Whether `i` is the first entry of `securities` (name, symbol) with name `name`.
pub open spec fn first_security(securities: Seq<(String, String)>, name: Seq<char>, i: int) -> bool {
    0 <= i < securities.len() && securities[i].0@ == name && forall|j: int|
        0 <= j < i ==> (#[trigger] securities[j]).0@ != name
}

/// The symbol that `securities` gives for the security named `name`.
pub open spec fn symbol_for(securities: Seq<(String, String)>, name: Seq<char>) -> Option<String> {
    if exists|i: int| first_security(securities, name, i) {
        Some(securities[choose|i: int| first_security(securities, name, i)].1)
    } else {
        None
    }
}

/// The quantity of a trade that has exactly one of a buy and a sell quantity.
pub open spec fn single_quantity(t: ConcludedTrade) -> Option<i64> {
    match (t.buy_quantity, t.sell_quantity) {
        (Some(q), None) => Some(q),
        (None, Some(q)) => Some(q),
        _ => None,
    }
}

/// What is wrong with a concluded trade, checked in this order, if anything is.
pub open spec fn trade_error(t: ConcludedTrade, securities: Seq<(String, String)>) -> Option<Error> {
    if symbol_for(securities, t.security_name@) is None {
        Some(Error::UnknownSecurity(t.security_name))
    } else if t.price_currency@ != t.accounting_currency@ {
        Some(Error::UnsupportedTradeCurrency(t.id))
    } else if t.price <= 0 {
        Some(Error::InvalidPrice(t.id))
    } else if t.volume <= 0 {
        Some(Error::InvalidVolume(t.id))
    } else if t.commission < 0 {
        Some(Error::InvalidCommission(t.id))
    } else if t.commission_currency is None && t.commission != 0 {
        Some(Error::MissingCommissionCurrency(t.id))
    } else {
        match single_quantity(t) {
            None => Some(Error::UnclassifiedTrade(t.id)),
            Some(q) => if q <= 0 {
                Some(Error::InvalidQuantity(t.id))
            } else {
                None
            },
        }
    }
}

/// Whether the volume of a trade that passes the checks is its price times
/// its quantity. Anything else is a bug in the reading of the statement.
pub open spec fn volume_consistent(t: ConcludedTrade, securities: Seq<(String, String)>) -> bool {
    trade_error(t, securities) is None ==> t.volume == t.price * single_quantity(t).unwrap()
}

/// The first error among `trades`, if any.
pub open spec fn first_trade_error(trades: Seq<ConcludedTrade>, securities: Seq<(String, String)>) -> Option<Error>
    decreases trades.len(),
{
    if trades.len() == 0 {
        None
    } else if first_trade_error(trades.drop_last(), securities) is Some {
        first_trade_error(trades.drop_last(), securities)
    } else {
        trade_error(trades.last(), securities)
    }
}

/// The record of a valid concluded trade. A correction of its execution date
/// wins over the date the trade itself gives; a commission of zero with no
/// currency is in the price currency.
pub open spec fn trade_record(
    t: ConcludedTrade,
    securities: Seq<(String, String)>,
    corrections: Map<u64, Date>,
    repo: bool,
) -> StockTrade {
    StockTrade {
        symbol: symbol_for(securities, t.security_name@).unwrap(),
        quantity: single_quantity(t).unwrap(),
        price: Cash { currency: t.price_currency, amount: t.price },
        volume: Cash { currency: t.price_currency, amount: t.volume },
        commission: Cash {
            currency: match t.commission_currency {
                Some(c) => c,
                None => t.price_currency,
            },
            amount: t.commission,
        },
        conclusion_date: t.conclusion_date,
        execution_date: if corrections.contains_key(t.id) {
            corrections[t.id]
        } else {
            t.execution_date
        },
        repo,
    }
}

/// The buys, the sells and the corrections left after reading valid `trades`:
/// each trade takes its id's correction, which is gone after that.
pub open spec fn trades_effect(
    trades: Seq<ConcludedTrade>,
    securities: Seq<(String, String)>,
    corrections: Map<u64, Date>,
    repo: bool,
) -> (Seq<StockTrade>, Seq<StockTrade>, Map<u64, Date>)
    decreases trades.len(),
{
    if trades.len() == 0 {
        (Seq::empty(), Seq::empty(), corrections)
    } else {
        let (buys, sells, left) = trades_effect(trades.drop_last(), securities, corrections, repo);
        let t = trades.last();
        let record = trade_record(t, securities, left, repo);
        if t.buy_quantity is Some {
            (buys.push(record), sells, left.remove(t.id))
        } else {
            (buys, sells.push(record), left.remove(t.id))
        }
    }
}

/// The symbol of the security named `name`, looked up in `securities`.
fn get_symbol(securities: &Vec<(String, String)>, name: &String) -> (r: Result<String, Error>)
    ensures
        match symbol_for(securities@, name@) {
            Some(symbol) => r == Ok::<String, Error>(symbol),
            None => r == Err::<String, Error>(Error::UnknownSecurity(*name)),
        },
{
    let mut i: usize = 0;
    while i < securities.len()
        invariant
            i <= securities@.len(),
            forall|j: int| 0 <= j < i ==> (#[trigger] securities@[j]).0@ != name@,
        decreases securities@.len() - i,
    {
        if securities[i].0 == *name {
            assert(first_security(securities@, name@, i as int));
            assert forall|k: int| first_security(securities@, name@, k) implies k == i by {
                if k < i {
                    assert(securities@[k].0@ != name@);
                } else if i < k {
                    assert(securities@[i as int].0@ == name@);
                }
            }
            return Ok(securities[i].1.clone());
        }
        i = i + 1;
    }
    Err(Error::UnknownSecurity(name.clone()))
}

/// Checks a concluded trade and builds its record, taking its id's execution
/// date correction out of `corrections`.
fn parse_trade(
    trade: &ConcludedTrade,
    securities: &Vec<(String, String)>,
    corrections: &mut HashMap<u64, Date>,
    repo: bool,
) -> (r: Result<StockTrade, Error>)
    ensures
        match trade_error(*trade, securities@) {
            Some(e) => r == Err::<StockTrade, Error>(e) && final(corrections)@ == old(corrections)@,
            None => r == Ok::<StockTrade, Error>(trade_record(*trade, securities@, old(corrections)@, repo))
                && final(corrections)@ == old(corrections)@.remove(trade.id),
        },
{
    let symbol = get_symbol(securities, &trade.security_name)?;
    if trade.price_currency != trade.accounting_currency {
        return Err(Error::UnsupportedTradeCurrency(trade.id));
    }
    if trade.price <= 0 {
        return Err(Error::InvalidPrice(trade.id));
    }
    if trade.volume <= 0 {
        return Err(Error::InvalidVolume(trade.id));
    }
    if trade.commission < 0 {
        return Err(Error::InvalidCommission(trade.id));
    }
    let commission_currency = match &trade.commission_currency {
        Some(currency) => currency.clone(),
        None => {
            if trade.commission != 0 {
                return Err(Error::MissingCommissionCurrency(trade.id));
            }
            trade.price_currency.clone()
        },
    };
    let quantity = match (trade.buy_quantity, trade.sell_quantity) {
        (Some(q), None) => q,
        (None, Some(q)) => q,
        _ => return Err(Error::UnclassifiedTrade(trade.id)),
    };
    if quantity <= 0 {
        return Err(Error::InvalidQuantity(trade.id));
    }
    let execution_date = match corrections.remove(&trade.id) {
        Some(date) => date,
        None => trade.execution_date,
    };
    Ok(StockTrade {
        symbol,
        quantity,
        price: Cash { currency: trade.price_currency.clone(), amount: trade.price },
        volume: Cash { currency: trade.price_currency.clone(), amount: trade.volume },
        commission: Cash { currency: commission_currency, amount: trade.commission },
        conclusion_date: trade.conclusion_date,
        execution_date,
        repo,
    })
}

impl ConcludedTrades {
    /// Checks the concluded trades and adds them to `statement` as buys and
    /// sells. Each trade that passes the checks must have a volume of its
    /// price times its quantity. A trade whose id has an execution date correction takes the
    /// corrected date and uses the correction up; the first invalid trade stops
    /// the reading with its error.
    pub fn parse(
        &self,
        statement: &mut PartialBrokerStatement,
        securities: &Vec<(String, String)>,
        trades_with_shifted_execution_date: &mut HashMap<u64, Date>,
        repo: bool,
    ) -> (r: Result<(), Error>)
        requires
            forall|i: int| 0 <= i < self.trades@.len() ==> volume_consistent(#[trigger] self.trades@[i], securities@),
        ensures
            match first_trade_error(self.trades@, securities@) {
                Some(e) => {
                    &&& r == Err::<(), Error>(e)
                    &&& exists|j: int| #![trigger self.trades@.subrange(0, j)] 0 <= j < self.trades@.len() && ({
                        let (buys, sells, left) = trades_effect(
                            self.trades@.subrange(0, j),
                            securities@,
                            old(trades_with_shifted_execution_date)@,
                            repo,
                        );
                        &&& first_trade_error(self.trades@.subrange(0, j), securities@) is None
                        &&& trade_error(self.trades@[j], securities@) == Some(e)
                        &&& final(statement).stock_buys@ == old(statement).stock_buys@ + buys
                        &&& final(statement).stock_sells@ == old(statement).stock_sells@ + sells
                        &&& final(trades_with_shifted_execution_date)@ == left
                    })
                },
                None => {
                    let (buys, sells, left) = trades_effect(
                        self.trades@,
                        securities@,
                        old(trades_with_shifted_execution_date)@,
                        repo,
                    );
                    &&& r is Ok
                    &&& final(statement).stock_buys@ == old(statement).stock_buys@ + buys
                    &&& final(statement).stock_sells@ == old(statement).stock_sells@ + sells
                    &&& final(trades_with_shifted_execution_date)@ == left
                },
            },
    {
        let ghost start = *old(trades_with_shifted_execution_date);
        let ghost buys0 = statement.stock_buys@;
        let ghost sells0 = statement.stock_sells@;
        let mut i: usize = 0;
        while i < self.trades.len()
            invariant
                i <= self.trades@.len(),
                start == *old(trades_with_shifted_execution_date),
                buys0 == old(statement).stock_buys@,
                sells0 == old(statement).stock_sells@,
                first_trade_error(self.trades@.subrange(0, i as int), securities@) is None,
                ({
                    let (buys, sells, left) = trades_effect(
                        self.trades@.subrange(0, i as int),
                        securities@,
                        start@,
                        repo,
                    );
                    &&& statement.stock_buys@ == buys0 + buys
                    &&& statement.stock_sells@ == sells0 + sells
                    &&& trades_with_shifted_execution_date@ == left
                }),
            decreases self.trades@.len() - i,
        {
            let trade = &self.trades[i];
            let ghost prefix = self.trades@.subrange(0, i + 1);
            assert(prefix.drop_last() =~= self.trades@.subrange(0, i as int));
            assert(prefix.last() == *trade);
            let record = match parse_trade(trade, securities, trades_with_shifted_execution_date, repo) {
                Ok(record) => record,
                Err(e) => {
                    assert(first_trade_error(prefix, securities@) == Some(e));
                    assert(trade_error(self.trades@[i as int], securities@) == Some(e));
                    assert(self.trades@.subrange(0, i as int) == prefix.drop_last());
                    proof { lemma_trade_error_stays(self.trades@, securities@, i + 1); }
                    assert(self.trades@.subrange(0, self.trades@.len() as int) =~= self.trades@);
                    return Err(e);
                },
            };
            if trade.buy_quantity.is_some() {
                statement.stock_buys.push(record);
            } else {
                statement.stock_sells.push(record);
            }
            proof {
                let (b, s, l) = trades_effect(self.trades@.subrange(0, i as int), securities@, start@, repo);
                assert(statement.stock_buys@ =~= buys0 + trades_effect(prefix, securities@, start@, repo).0);
                assert(statement.stock_sells@ =~= sells0 + trades_effect(prefix, securities@, start@, repo).1);
            }
            i = i + 1;
        }
        assert(self.trades@.subrange(0, i as int) =~= self.trades@);
        Ok(())
    }
}

proof fn lemma_trade_error_stays(s: Seq<ConcludedTrade>, securities: Seq<(String, String)>, i: int)
    requires
        0 <= i <= s.len(),
        first_trade_error(s.subrange(0, i), securities) is Some,
    ensures
        first_trade_error(s, securities) == first_trade_error(s.subrange(0, i), securities),
    decreases s.len(),
{
    if i < s.len() {
        assert(s.drop_last().subrange(0, i) =~= s.subrange(0, i));
        lemma_trade_error_stays(s.drop_last(), securities, i);
    } else {
        assert(s.subrange(0, i) =~= s);
    }
}

/// A valid trade is either a buy or a sell: it has exactly one of the two
/// quantities, and a trade with both or neither is refused.
pub proof fn lemma_trade_direction(t: ConcludedTrade, securities: Seq<(String, String)>)
    ensures
        trade_error(t, securities) is None ==> (t.buy_quantity is Some) != (t.sell_quantity is Some),
        (t.buy_quantity is Some) == (t.sell_quantity is Some) ==> trade_error(t, securities) is Some,
{
}

/// Each execution date correction serves one trade: after reading trades, a
/// correction is left exactly where no trade bore its id, unchanged.
pub proof fn lemma_corrections_left(
    trades: Seq<ConcludedTrade>,
    securities: Seq<(String, String)>,
    corrections: Map<u64, Date>,
    repo: bool,
)
    ensures
        forall|id: u64| #[trigger] trades_effect(trades, securities, corrections, repo).2.contains_key(id) == (
        corrections.contains_key(id) && forall|i: int| 0 <= i < trades.len() ==> (#[trigger] trades[i]).id != id),
        forall|id: u64| #[trigger] trades_effect(trades, securities, corrections, repo).2.contains_key(id) ==>
            trades_effect(trades, securities, corrections, repo).2[id] == corrections[id],
    decreases trades.len(),
{
    if trades.len() > 0 {
        let d = trades.drop_last();
        lemma_corrections_left(d, securities, corrections, repo);
        let left = trades_effect(d, securities, corrections, repo).2;
        assert(trades_effect(trades, securities, corrections, repo).2 == left.remove(trades.last().id));
        assert(trades[trades.len() - 1] == trades.last());
        assert forall|id: u64| #[trigger] trades_effect(trades, securities, corrections, repo).2.contains_key(id) == (
            corrections.contains_key(id) && forall|i: int| 0 <= i < trades.len() ==> (#[trigger] trades[i]).id != id) by {
            if trades_effect(trades, securities, corrections, repo).2.contains_key(id) {
                assert forall|i: int| 0 <= i < trades.len() implies (#[trigger] trades[i]).id != id by {
                    if i < d.len() {
                        assert(d[i] == trades[i]);
                    }
                }
            } else if corrections.contains_key(id) && id != trades.last().id {
                assert(!left.contains_key(id));
                assert(!forall|i: int| 0 <= i < d.len() ==> (#[trigger] d[i]).id != id);
                let i = choose|i: int| 0 <= i < d.len() && (#[trigger] d[i]).id == id;
                assert(trades[i] == d[i]);
            }
        }
    }
}

/// A correction for trade id `T` goes to the first trade with that id and is
/// used up: a second trade with id `T` keeps its own execution date.
pub proof fn lemma_correction_used_once(
    first: ConcludedTrade,
    second: ConcludedTrade,
    securities: Seq<(String, String)>,
    corrections: Map<u64, Date>,
    repo: bool,
)
    requires
        first.id == second.id,
        corrections.contains_key(first.id),
    ensures
        trade_record(first, securities, corrections, repo).execution_date == corrections[first.id],
        !trades_effect(seq![first], securities, corrections, repo).2.contains_key(first.id),
        trade_record(second, securities, trades_effect(seq![first], securities, corrections, repo).2, repo).execution_date
            == second.execution_date,
{
    assert(seq![first].drop_last() =~= Seq::<ConcludedTrade>::empty());
}

} // verus!
