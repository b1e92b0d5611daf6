//! Failures on malformed or inconsistent statement data.

use vstd::prelude::*;

verus! {

/// Why a statement cannot be processed.
#[derive(Clone, Debug, PartialEq, Eq)]
pub enum Error {
    /// A dividend description that does not name its issuer as expected.
    UnexpectedDividendDescription(String),
    /// A dividend line with a zero amount.
    ZeroDividend,
    /// A dividend amount in another currency than earlier lines of the same dividend.
    DividendCurrencyMismatch,
    /// A trade of a security that the statement does not list.
    UnknownSecurity(String),
    /// A trade whose price currency is not the accounting currency.
    UnsupportedTradeCurrency(u64),
    /// A trade with a price that is not positive.
    InvalidPrice(u64),
    /// A trade with a volume that is not positive.
    InvalidVolume(u64),
    /// A trade with a negative commission.
    InvalidCommission(u64),
    /// A trade with a nonzero commission and no commission currency.
    MissingCommissionCurrency(u64),
    /// A trade with a quantity that is not positive.
    InvalidQuantity(u64),
    /// A trade with both or neither of a buy and a sell quantity.
    UnclassifiedTrade(u64),
    /// Two execution date corrections for one trade.
    DuplicatedTrade(u64),
    /// A period whose first date is after its last one, with the period as text.
    InvalidPeriod(String),
    /// A report year that the statements' period does not reach into.
    YearOutsideStatements(i32),
    /// A broken internal invariant: a bug in the processing, not bad data.
    /// Callers halt on it rather than report it.
    Violation(Violation),
}

/// An internal invariant that the processing broke.
#[derive(Clone, Debug, PartialEq, Eq)]
pub enum Violation {
    /// Two tax payment dates in one year.
    DuplicateTaxYear(i32),
    /// A currency whose balance does not add up over a period.
    UnbalancedCurrency(String),
}

} // verus!
