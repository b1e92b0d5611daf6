//! Reconciliation and summarization of brokerage statement data: dividend
//! netting, trade execution date corrections, cash-flow summaries and tax
//! payment scheduling.

pub mod date;
pub mod cash;
pub mod error;
pub mod dividends;
pub mod trades;
pub mod cash_flow;
pub mod taxes;
pub mod period;
pub mod sheet;
