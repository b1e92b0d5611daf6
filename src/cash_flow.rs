//! Cash-flow summaries: deposits and withdrawals per currency over a period,
//! the conservation check of each currency's balance, and the itemized table.

use crate::cash::{round, round_to_cents, Cash};
use crate::date::{day_number, Date, MAX_YEAR, MIN_YEAR};
use crate::error::{Error, Violation};
use vstd::prelude::*;

verus! {

/// What a cash flow is.
#[derive(Clone, Copy, Debug, PartialEq, Eq, Structural)]
pub enum Operation {
    Deposit,
    Withdrawal,
    BuyTrade,
    SellTrade,
    Dividend,
    Tax,
    Fee,
    Interest,
    CorporateAction,
    Other,
}

/// A signed movement of money; `sibling_amount` is a second leg of the same
/// event in another currency.
#[derive(Clone, Debug)]
pub struct CashFlow {
    pub date: Date,
    pub operation: Operation,
    pub amount: Cash,
    pub sibling_amount: Option<Cash>,
    pub description: String,
}

/// The balance of one currency over a period. Amounts are in millionths.
#[derive(Clone, Debug)]
pub struct CashFlowSummary {
    pub currency: String,
    /// Balance before the period.
    pub starting: i128,
    /// Sum of the money that came in during the period.
    pub deposits: i128,
    /// Sum of the money that went out during the period, as a positive amount.
    pub withdrawals: i128,
    /// Balance at the end of the period, as observed independently.
    pub ending: i128,
}

/// The most that one leg of a cash flow can move.
pub open spec fn leg_limit() -> int {
    0x8000_0000_0000_0000
}

pub open spec fn in_period(e: CashFlow, start: Date, end: Date) -> bool {
    start.day() <= e.date.day() < end.day()
}

pub open spec fn leg_deposit(leg: Cash, c: Seq<char>) -> int {
    if leg.currency@ == c && leg.amount > 0 { leg.amount as int } else { 0 }
}

pub open spec fn leg_withdrawal(leg: Cash, c: Seq<char>) -> int {
    if leg.currency@ == c && leg.amount < 0 { -leg.amount } else { 0 }
}

pub open spec fn leg_flow(leg: Cash, c: Seq<char>) -> int {
    if leg.currency@ == c { leg.amount as int } else { 0 }
}

/// The sum of what `f` gives for each leg of each cash flow of `events` in the period.
pub open spec fn period_sum(
    events: Seq<CashFlow>,
    start: Date,
    end: Date,
    c: Seq<char>,
    f: spec_fn(Cash, Seq<char>) -> int,
) -> int
    decreases events.len(),
{
    if events.len() == 0 {
        0
    } else {
        let e = events.last();
        let here = if in_period(e, start, end) {
            f(e.amount, c) + match e.sibling_amount {
                Some(s) => f(s, c),
                None => 0,
            }
        } else {
            0
        };
        period_sum(events.drop_last(), start, end, c, f) + here
    }
}

pub open spec fn deposits_of(events: Seq<CashFlow>, start: Date, end: Date, c: Seq<char>) -> int {
    period_sum(events, start, end, c, |leg: Cash, c: Seq<char>| leg_deposit(leg, c))
}

pub open spec fn withdrawals_of(events: Seq<CashFlow>, start: Date, end: Date, c: Seq<char>) -> int {
    period_sum(events, start, end, c, |leg: Cash, c: Seq<char>| leg_withdrawal(leg, c))
}

/// The net sum of the legs in currency `c` of the cash flows in the period.
pub open spec fn flow_of(events: Seq<CashFlow>, start: Date, end: Date, c: Seq<char>) -> int {
    period_sum(events, start, end, c, |leg: Cash, c: Seq<char>| leg_flow(leg, c))
}

/// Whether a leg in currency `c` of a cash flow in the period exists.
pub open spec fn has_leg(events: Seq<CashFlow>, start: Date, end: Date, c: Seq<char>) -> bool {
    exists|i: int|
        0 <= i < events.len() && in_period(#[trigger] events[i], start, end) && (
        events[i].amount.currency@ == c || (events[i].sibling_amount matches Some(s)
            && s.currency@ == c))
}

pub open spec fn currencies_unique(s: Seq<CashFlowSummary>) -> bool {
    forall|i: int, j: int|
        0 <= i < j < s.len() ==> (#[trigger] s[i]).currency@ != (#[trigger] s[j]).currency@
}

/// Whether currency code `a` comes before `b`, comparing characters in order.
pub open spec fn currency_before(a: Seq<char>, b: Seq<char>) -> bool
    decreases a.len(),
{
    if a.len() == 0 {
        b.len() > 0
    } else if b.len() == 0 {
        false
    } else if a[0] != b[0] {
        (a[0] as u32) < (b[0] as u32)
    } else {
        currency_before(a.drop_first(), b.drop_first())
    }
}

/// Whether the summaries are in ascending order of currency.
pub open spec fn currencies_sorted(s: Seq<CashFlowSummary>) -> bool {
    forall|i: int, j: int|
        0 <= i < j < s.len() ==> currency_before((#[trigger] s[i]).currency@, (#[trigger] s[j]).currency@)
}

proof fn lemma_before_irreflexive(a: Seq<char>)
    ensures
        !currency_before(a, a),
    decreases a.len(),
{
    if a.len() > 0 {
        lemma_before_irreflexive(a.drop_first());
    }
}

/// Summaries in ascending order of currency have one summary per currency.
pub proof fn lemma_sorted_unique(s: Seq<CashFlowSummary>)
    requires
        currencies_sorted(s),
    ensures
        currencies_unique(s),
{
    assert forall|i: int, j: int| 0 <= i < j < s.len() implies (#[trigger] s[i]).currency@ != (#[trigger] s[j]).currency@ by {
        lemma_before_irreflexive(s[i].currency@);
    }
}

pub open spec fn has_summary(s: Seq<CashFlowSummary>, c: Seq<char>) -> bool {
    exists|i: int| 0 <= i < s.len() && (#[trigger] s[i]).currency@ == c
}

/// Whether a cash flow's sibling leg, if any, is in another currency than its main leg.
pub open spec fn legs_distinct(e: CashFlow) -> bool {
    e.sibling_amount matches Some(x) ==> x.currency@ != e.amount.currency@
}

/// Whether every leg of every cash flow of `events` has a summary in `s`,
/// and each sibling leg is in another currency than its main leg.
pub open spec fn summaries_cover(s: Seq<CashFlowSummary>, events: Seq<CashFlow>) -> bool {
    forall|k: int| 0 <= k < events.len() ==> {
        &&& legs_distinct(#[trigger] events[k])
        &&& has_summary(s, events[k].amount.currency@)
        &&& (events[k].sibling_amount matches Some(x) ==> has_summary(s, x.currency@))
    }
}

/// Deposits and withdrawals of a currency add up to its net flow.
pub proof fn lemma_flow_splits(events: Seq<CashFlow>, start: Date, end: Date, c: Seq<char>)
    ensures
        deposits_of(events, start, end, c) - withdrawals_of(events, start, end, c) == flow_of(events, start, end, c),
        deposits_of(events, start, end, c) >= 0,
        withdrawals_of(events, start, end, c) >= 0,
    decreases events.len(),
{
    if events.len() > 0 {
        lemma_flow_splits(events.drop_last(), start, end, c);
    }
}

/// Adds one leg of a cash flow to the summary of its currency, which is
/// created empty where there is none.
fn add_leg(summaries: &mut Vec<CashFlowSummary>, leg: &Cash)
    requires
        currencies_unique(old(summaries)@),
        forall|i: int| 0 <= i < old(summaries)@.len() ==> {
            &&& 0 <= #[trigger] old(summaries)@[i].deposits <= 0x10_0000_0000_0000_0000_0000_0000
            &&& 0 <= old(summaries)@[i].withdrawals <= 0x10_0000_0000_0000_0000_0000_0000
        },
    ensures
        currencies_unique(final(summaries)@),
        final(summaries)@.len() == old(summaries)@.len() || final(summaries)@.len() == old(summaries)@.len() + 1,
        exists|i: int| 0 <= i < final(summaries)@.len() && (#[trigger] final(summaries)@[i]).currency@ == leg.currency@,
        forall|i: int| 0 <= i < old(summaries)@.len() ==> {
            &&& (#[trigger] final(summaries)@[i]).currency == old(summaries)@[i].currency
            &&& final(summaries)@[i].starting == old(summaries)@[i].starting
            &&& final(summaries)@[i].ending == old(summaries)@[i].ending
            &&& final(summaries)@[i].deposits == old(summaries)@[i].deposits + leg_deposit(*leg, final(summaries)@[i].currency@)
            &&& final(summaries)@[i].withdrawals == old(summaries)@[i].withdrawals + leg_withdrawal(*leg, final(summaries)@[i].currency@)
        },
        final(summaries)@.len() == old(summaries)@.len() + 1 ==> {
            let s = final(summaries)@[old(summaries)@.len() as int];
            &&& s.currency@ == leg.currency@
            &&& s.starting == 0 && s.ending == 0
            &&& s.deposits == leg_deposit(*leg, s.currency@)
            &&& s.withdrawals == leg_withdrawal(*leg, s.currency@)
            &&& forall|i: int| 0 <= i < old(summaries)@.len() ==> (#[trigger] old(summaries)@[i]).currency@ != leg.currency@
        },
{
    let mut i: usize = 0;
    while i < summaries.len() && summaries[i].currency != leg.currency
        invariant
            i <= summaries@.len(),
            forall|j: int| 0 <= j < i ==> (#[trigger] summaries@[j]).currency@ != leg.currency@,
        decreases summaries@.len() - i,
    {
        i = i + 1;
    }
    if i == summaries.len() {
        summaries.push(CashFlowSummary {
            currency: leg.currency.clone(),
            starting: 0,
            deposits: 0,
            withdrawals: 0,
            ending: 0,
        });
    }
    let ghost before = summaries@;
    let mut s = summaries[i].clone_summary();
    if leg.amount > 0 {
        s.deposits = s.deposits + leg.amount as i128;
    } else if leg.amount < 0 {
        s.withdrawals = s.withdrawals - leg.amount as i128;
    }
    summaries.set(i, s);
    assert(summaries@[i as int].currency@ == leg.currency@);
    assert forall|j: int, k: int| 0 <= j < k < summaries@.len() implies (#[trigger] summaries@[j]).currency@
        != (#[trigger] summaries@[k]).currency@ by {
        assert(before[j].currency@ != before[k].currency@);
    }
}

impl CashFlowSummary {
    pub fn new(currency: &str, starting: i64, ending: i64) -> (r: CashFlowSummary)
        ensures
            r.currency@ == currency@,
            r.starting == starting,
            r.ending == ending,
            r.deposits == 0,
            r.withdrawals == 0,
    {
        CashFlowSummary {
            currency: currency.to_string(),
            starting: starting as i128,
            deposits: 0,
            withdrawals: 0,
            ending: ending as i128,
        }
    }

    fn clone_summary(&self) -> (r: CashFlowSummary)
        ensures
            r == *self,
    {
        CashFlowSummary {
            currency: self.currency.clone(),
            starting: self.starting,
            deposits: self.deposits,
            withdrawals: self.withdrawals,
            ending: self.ending,
        }
    }
}

pub open spec fn event_deposit(e: CashFlow, c: Seq<char>) -> int {
    leg_deposit(e.amount, c) + match e.sibling_amount {
        Some(s) => leg_deposit(s, c),
        None => 0,
    }
}

pub open spec fn event_withdrawal(e: CashFlow, c: Seq<char>) -> int {
    leg_withdrawal(e.amount, c) + match e.sibling_amount {
        Some(s) => leg_withdrawal(s, c),
        None => 0,
    }
}

pub open spec fn event_has_leg(e: CashFlow, c: Seq<char>) -> bool {
    e.amount.currency@ == c || (e.sibling_amount matches Some(s) && s.currency@ == c)
}

/// The cash flows of `events` that fall in the period, in order.
pub open spec fn events_in_period(events: Seq<CashFlow>, start: Date, end: Date) -> Seq<CashFlow> {
    events.filter(|e: CashFlow| in_period(e, start, end))
}

proof fn lemma_sum_bounds(events: Seq<CashFlow>, start: Date, end: Date, c: Seq<char>)
    ensures
        0 <= deposits_of(events, start, end, c) <= 2 * events.len() * leg_limit(),
        0 <= withdrawals_of(events, start, end, c) <= 2 * events.len() * leg_limit(),
    decreases events.len(),
{
    if events.len() > 0 {
        lemma_sum_bounds(events.drop_last(), start, end, c);
    }
}

proof fn lemma_no_leg_no_sum(events: Seq<CashFlow>, start: Date, end: Date, c: Seq<char>)
    requires
        !has_leg(events, start, end, c),
    ensures
        deposits_of(events, start, end, c) == 0,
        withdrawals_of(events, start, end, c) == 0,
    decreases events.len(),
{
    if events.len() > 0 {
        let d = events.drop_last();
        assert forall|i: int| 0 <= i < d.len() && in_period(#[trigger] d[i], start, end) implies !event_has_leg(d[i], c) by {
            assert(d[i] == events[i]);
        }
        lemma_no_leg_no_sum(d, start, end, c);
        assert(events[events.len() - 1] == events.last());
    }
}

impl CashFlow {
    pub fn copy(&self) -> (r: CashFlow)
        ensures
            r == *self,
    {
        let sibling_amount = match &self.sibling_amount {
            Some(s) => Some(s.copy()),
            None => None,
        };
        CashFlow {
            date: self.date,
            operation: self.operation,
            amount: self.amount.copy(),
            sibling_amount,
            description: self.description.clone(),
        }
    }
}

/// Adds both legs of a cash flow to the summaries of their currencies.
fn add_flow(summaries: &mut Vec<CashFlowSummary>, e: &CashFlow)
    requires
        currencies_unique(old(summaries)@),
        forall|i: int| 0 <= i < old(summaries)@.len() ==> {
            &&& 0 <= #[trigger] old(summaries)@[i].deposits <= 0x4_0000_0000_0000_0000_0000_0000
            &&& 0 <= old(summaries)@[i].withdrawals <= 0x4_0000_0000_0000_0000_0000_0000
        },
    ensures
        currencies_unique(final(summaries)@),
        final(summaries)@.len() >= old(summaries)@.len(),
        forall|c: Seq<char>| event_has_leg(*e, c) ==> exists|i: int|
            0 <= i < final(summaries)@.len() && (#[trigger] final(summaries)@[i]).currency@ == c,
        forall|i: int| 0 <= i < old(summaries)@.len() ==> {
            &&& (#[trigger] final(summaries)@[i]).currency == old(summaries)@[i].currency
            &&& final(summaries)@[i].starting == old(summaries)@[i].starting
            &&& final(summaries)@[i].ending == old(summaries)@[i].ending
            &&& final(summaries)@[i].deposits == old(summaries)@[i].deposits + event_deposit(*e, final(summaries)@[i].currency@)
            &&& final(summaries)@[i].withdrawals == old(summaries)@[i].withdrawals + event_withdrawal(*e, final(summaries)@[i].currency@)
        },
        forall|i: int| old(summaries)@.len() <= i < final(summaries)@.len() ==> {
            &&& (#[trigger] final(summaries)@[i]).starting == 0
            &&& final(summaries)@[i].ending == 0
            &&& final(summaries)@[i].deposits == event_deposit(*e, final(summaries)@[i].currency@)
            &&& final(summaries)@[i].withdrawals == event_withdrawal(*e, final(summaries)@[i].currency@)
            &&& event_has_leg(*e, final(summaries)@[i].currency@)
            &&& forall|j: int| 0 <= j < old(summaries)@.len() ==> (#[trigger] old(summaries)@[j]).currency@ != final(summaries)@[i].currency@
        },
{
    let ghost s0 = summaries@;
    add_leg(summaries, &e.amount);
    let ghost s1 = summaries@;
    match &e.sibling_amount {
        Some(sibling) => {
            assert forall|i: int| 0 <= i < s1.len() implies {
                &&& 0 <= #[trigger] s1[i].deposits <= 0x10_0000_0000_0000_0000_0000_0000
                &&& 0 <= s1[i].withdrawals <= 0x10_0000_0000_0000_0000_0000_0000
            } by {
                if i < s0.len() {
                    assert(0 <= s0[i].deposits);
                }
            }
            add_leg(summaries, sibling);
            assert forall|c: Seq<char>| event_has_leg(*e, c) implies exists|i: int|
                0 <= i < summaries@.len() && (#[trigger] summaries@[i]).currency@ == c by {
                if c == e.amount.currency@ {
                    let i = choose|i: int| 0 <= i < s1.len() && (#[trigger] s1[i]).currency@ == c;
                    assert(summaries@[i].currency@ == c);
                }
            }
            assert forall|i: int| s0.len() <= i < summaries@.len() implies {
                &&& (#[trigger] summaries@[i]).starting == 0
                &&& summaries@[i].ending == 0
                &&& summaries@[i].deposits == event_deposit(*e, summaries@[i].currency@)
                &&& summaries@[i].withdrawals == event_withdrawal(*e, summaries@[i].currency@)
                &&& event_has_leg(*e, summaries@[i].currency@)
                &&& forall|j: int| 0 <= j < s0.len() ==> (#[trigger] s0[j]).currency@ != summaries@[i].currency@
            } by {
                if i < s1.len() {
                    assert(s1[i].currency@ == e.amount.currency@);
                    assert forall|j: int| 0 <= j < s0.len() implies (#[trigger] s0[j]).currency@ != summaries@[i].currency@ by {
                        assert(s1[j].currency == s0[j].currency);
                    }
                } else {
                    assert forall|j: int| 0 <= j < s0.len() implies (#[trigger] s0[j]).currency@ != summaries@[i].currency@ by {
                        assert(s1[j].currency == s0[j].currency);
                    }
                }
            }
        },
        None => {},
    }
}

/// What summing `events` over `[start, end)` makes of the summaries `s0`.
pub open spec fn calculated(
    s0: Seq<CashFlowSummary>,
    s1: Seq<CashFlowSummary>,
    events: Seq<CashFlow>,
    start: Date,
    end: Date,
) -> bool {
    &&& (currencies_unique(s1))
    &&& (s1.len() >= s0.len())
    &&& (forall|c: Seq<char>| has_leg(events, start, end, c) ==> exists|i: int|
            0 <= i < s1.len() && (#[trigger] s1[i]).currency@ == c)
    &&& (forall|i: int| 0 <= i < s0.len() ==> {
            &&& (#[trigger] s1[i]).currency == s0[i].currency
            &&& s1[i].starting == s0[i].starting
            &&& s1[i].ending == s0[i].ending
            &&& s1[i].deposits == s0[i].deposits + deposits_of(events, start, end, s1[i].currency@)
            &&& s1[i].withdrawals == s0[i].withdrawals + withdrawals_of(events, start, end, s1[i].currency@)
        })
    &&& (forall|i: int| s0.len() <= i < s1.len() ==> {
            &&& (#[trigger] s1[i]).starting == 0
            &&& s1[i].ending == 0
            &&& s1[i].deposits == deposits_of(events, start, end, s1[i].currency@)
            &&& s1[i].withdrawals == withdrawals_of(events, start, end, s1[i].currency@)
            &&& has_leg(events, start, end, s1[i].currency@)
            &&& forall|j: int| 0 <= j < s0.len() ==> (#[trigger] s0[j]).currency@ != s1[i].currency@
        })
}

/// Sums the cash flows of `events` that fall in `[start, end)` into the
/// summaries of their currencies, creating an empty summary for a currency
/// that has none, and returns those cash flows for the itemized table. The
/// summaries given keep their places; a new currency's summary is appended
/// when its first leg is met.
pub fn calculate(
    summaries: &mut Vec<CashFlowSummary>,
    events: &Vec<CashFlow>,
    start: Date,
    end: Date,
) -> (r: Vec<CashFlow>)
    requires
        currencies_sorted(old(summaries)@),
        summaries_cover(old(summaries)@, events@),
        forall|i: int| 0 <= i < old(summaries)@.len() ==> {
            &&& 0 <= #[trigger] old(summaries)@[i].deposits <= 0x1_0000_0000_0000_0000
            &&& 0 <= old(summaries)@[i].withdrawals <= 0x1_0000_0000_0000_0000
        },
        events@.len() <= 0xffff_ffff,
    ensures
        calculated(old(summaries)@, final(summaries)@, events@, start, end),
        final(summaries)@.len() == old(summaries)@.len(),
        currencies_sorted(final(summaries)@),
        summaries_cover(final(summaries)@, events@),
        r@ == events_in_period(events@, start, end),
{
    proof { lemma_sorted_unique(summaries@); }
    let ghost s0 = summaries@;
    let mut flows: Vec<CashFlow> = Vec::new();
    let mut k: usize = 0;
    while k < events.len()
        invariant
            k <= events@.len() <= 0xffff_ffff,
            s0 == old(summaries)@,
            currencies_unique(summaries@),
            summaries@.len() >= s0.len(),
            flows@ == events_in_period(events@.subrange(0, k as int), start, end),
            forall|c: Seq<char>| has_leg(events@.subrange(0, k as int), start, end, c) ==> exists|i: int|
                0 <= i < summaries@.len() && (#[trigger] summaries@[i]).currency@ == c,
            forall|i: int| 0 <= i < s0.len() ==> {
                &&& (#[trigger] summaries@[i]).currency == s0[i].currency
                &&& summaries@[i].starting == s0[i].starting
                &&& summaries@[i].ending == s0[i].ending
                &&& summaries@[i].deposits == s0[i].deposits + deposits_of(events@.subrange(0, k as int), start, end, summaries@[i].currency@)
                &&& summaries@[i].withdrawals == s0[i].withdrawals + withdrawals_of(events@.subrange(0, k as int), start, end, summaries@[i].currency@)
                &&& 0 <= s0[i].deposits <= 0x1_0000_0000_0000_0000
                &&& 0 <= s0[i].withdrawals <= 0x1_0000_0000_0000_0000
            },
            forall|i: int| s0.len() <= i < summaries@.len() ==> {
                &&& (#[trigger] summaries@[i]).starting == 0
                &&& summaries@[i].ending == 0
                &&& summaries@[i].deposits == deposits_of(events@.subrange(0, k as int), start, end, summaries@[i].currency@)
                &&& summaries@[i].withdrawals == withdrawals_of(events@.subrange(0, k as int), start, end, summaries@[i].currency@)
                &&& has_leg(events@.subrange(0, k as int), start, end, summaries@[i].currency@)
                &&& forall|j: int| 0 <= j < s0.len() ==> (#[trigger] s0[j]).currency@ != summaries@[i].currency@
            },
        decreases events@.len() - k,
    {
        let ghost prefix = events@.subrange(0, k as int);
        let ghost next = events@.subrange(0, k + 1);
        let ghost before = summaries@;
        let e = &events[k];
        assert(next.drop_last() =~= prefix);
        assert(next.last() == *e);
        proof {
            assert forall|i: int| 0 <= i < before.len() implies {
                &&& 0 <= #[trigger] before[i].deposits <= 0x4_0000_0000_0000_0000_0000_0000
                &&& 0 <= before[i].withdrawals <= 0x4_0000_0000_0000_0000_0000_0000
            } by {
                lemma_sum_bounds(prefix, start, end, before[i].currency@);
                let n = prefix.len() as int;
                assert(2 * n * leg_limit() <= 0x1_0000_0000_0000_0000_0000_0000) by (nonlinear_arith)
                    requires
                        0 <= n <= 0xffff_ffff,
                        leg_limit() == 0x8000_0000_0000_0000,
                ;
            }
        }
        if e.date.days_from_ce() >= start.days_from_ce() && e.date.days_from_ce() < end.days_from_ce() {
            add_flow(summaries, e);
            flows.push(e.copy());
            proof {
                assert(events_in_period(next, start, end) =~= events_in_period(prefix, start, end).push(*e)) by {
                    assert(next =~= prefix.push(*e)); prefix.lemma_filter_push(*e, |e: CashFlow| in_period(e, start, end));
                }
                assert forall|c: Seq<char>| has_leg(next, start, end, c) implies exists|i: int|
                    0 <= i < summaries@.len() && (#[trigger] summaries@[i]).currency@ == c by {
                    let j = choose|j: int| 0 <= j < next.len() && in_period(#[trigger] next[j], start, end) && event_has_leg(next[j], c);
                    if j < k {
                        assert(prefix[j] == next[j]);
                        assert(has_leg(prefix, start, end, c));
                        let i = choose|i: int| 0 <= i < before.len() && (#[trigger] before[i]).currency@ == c;
                        assert(summaries@[i].currency@ == c);
                    }
                }
                assert forall|i: int| before.len() <= i < summaries@.len() implies
                    has_leg(next, start, end, (#[trigger] summaries@[i]).currency@) by {
                    assert(next[k as int] == *e);
                }
                assert forall|i: int| before.len() <= i < summaries@.len() implies
                    deposits_of(prefix, start, end, (#[trigger] summaries@[i]).currency@) == 0
                    && withdrawals_of(prefix, start, end, summaries@[i].currency@) == 0 by {
                    let c = summaries@[i].currency@;
                    if has_leg(prefix, start, end, c) {
                        let j = choose|j: int| 0 <= j < before.len() && (#[trigger] before[j]).currency@ == c;
                        if j < s0.len() {
                            assert(before[j].currency == s0[j].currency);
                        }
                    }
                    lemma_no_leg_no_sum(prefix, start, end, c);
                }
                assert forall|i: int| s0.len() <= i < before.len() implies has_leg(next, start, end, (#[trigger] summaries@[i]).currency@) by {
                    assert(summaries@[i].currency == before[i].currency);
                    let j = choose|j: int| 0 <= j < prefix.len() && in_period(#[trigger] prefix[j], start, end) && event_has_leg(prefix[j], before[i].currency@);
                    assert(next[j] == prefix[j]);
                }
                assert forall|i: int| s0.len() <= i < summaries@.len() implies forall|j: int| 0 <= j < s0.len() ==> (#[trigger] s0[j]).currency@ != (#[trigger] summaries@[i]).currency@ by {
                    if i >= before.len() {
                        assert forall|j: int| 0 <= j < s0.len() implies (#[trigger] s0[j]).currency@ != summaries@[i].currency@ by {
                            assert(before[j].currency == s0[j].currency);
                        }
                    } else {
                        assert(summaries@[i].currency == before[i].currency);
                    }
                }
            }
        } else {
            proof {
                assert(events_in_period(next, start, end) =~= events_in_period(prefix, start, end)) by {
                    assert(next =~= prefix.push(*e)); prefix.lemma_filter_push(*e, |e: CashFlow| in_period(e, start, end));
                }
                assert forall|c: Seq<char>| has_leg(next, start, end, c) implies exists|i: int|
                    0 <= i < summaries@.len() && (#[trigger] summaries@[i]).currency@ == c by {
                    let j = choose|j: int| 0 <= j < next.len() && in_period(#[trigger] next[j], start, end) && event_has_leg(next[j], c);
                    assert(prefix[j] == next[j]);
                    assert(has_leg(prefix, start, end, c));
                }
                assert forall|i: int| s0.len() <= i < summaries@.len() implies has_leg(next, start, end, (#[trigger] summaries@[i]).currency@) by {
                    let j = choose|j: int| 0 <= j < prefix.len() && in_period(#[trigger] prefix[j], start, end) && event_has_leg(prefix[j], before[i].currency@);
                    assert(next[j] == prefix[j]);
                }
            }
        }
        k = k + 1;
    }
    assert(events@.subrange(0, k as int) =~= events@);
    proof {
        if summaries@.len() > s0.len() {
            let c = summaries@[s0.len() as int].currency@;
            assert(has_leg(events@, start, end, c));
            let j = choose|j: int| 0 <= j < events@.len() && in_period(#[trigger] events@[j], start, end) && event_has_leg(events@[j], c);
            assert(has_summary(s0, c));
            let i = choose|i: int| 0 <= i < s0.len() && (#[trigger] s0[i]).currency@ == c;
            assert(false);
        }
    }
    assert forall|i: int| 0 <= i < summaries@.len() implies (#[trigger] summaries@[i]).currency@ == s0[i].currency@ by {}
    assert forall|c: Seq<char>| has_summary(s0, c) implies has_summary(summaries@, c) by {
        let i = choose|i: int| 0 <= i < s0.len() && (#[trigger] s0[i]).currency@ == c;
        assert(summaries@[i].currency@ == c);
    }
    flows
}

/// How far the ending balance computed from rounded amounts may stray from the
/// observed one: one and a half cents.
pub const TOLERANCE: i128 = 15_000;

pub open spec fn amount_fits(x: int) -> bool {
    -0x10_0000_0000_0000_0000_0000_0000 <= x <= 0x10_0000_0000_0000_0000_0000_0000
}

pub open spec fn summary_fits(s: CashFlowSummary) -> bool {
    &&& amount_fits(s.starting as int)
    &&& amount_fits(s.deposits as int)
    &&& amount_fits(s.withdrawals as int)
    &&& amount_fits(s.ending as int)
}

/// The ending balance from the rounded starting balance, deposits and withdrawals.
pub open spec fn computed_ending(s: CashFlowSummary) -> int {
    round_to_cents(s.starting as int) + round_to_cents(s.deposits as int) - round_to_cents(s.withdrawals as int)
}

/// Whether the balance of a currency adds up over the period.
pub open spec fn balanced(s: CashFlowSummary) -> bool {
    s.ending - TOLERANCE <= computed_ending(s) <= s.ending + TOLERANCE
}

/// Conservation: where the observed ending balance is the starting balance
/// plus every leg in the currency over the period, the deposits and
/// withdrawals that the summary gathered account for it exactly, and the
/// check passes. An ending balance off by more than three cents from that
/// sum fails the check.
pub proof fn lemma_conservation(events: Seq<CashFlow>, start: Date, end: Date, s: CashFlowSummary)
    requires
        s.deposits == deposits_of(events, start, end, s.currency@),
        s.withdrawals == withdrawals_of(events, start, end, s.currency@),
    ensures
        s.ending == s.starting + flow_of(events, start, end, s.currency@) ==> s.starting + s.deposits
            - s.withdrawals == s.ending && balanced(s),
        (s.ending - (s.starting + s.deposits - s.withdrawals) > 2 * TOLERANCE || (s.starting
            + s.deposits - s.withdrawals) - s.ending > 2 * TOLERANCE) ==> !balanced(s),
{
    lemma_flow_splits(events, start, end, s.currency@);
    crate::cash::lemma_round_close(s.starting as int);
    crate::cash::lemma_round_close(s.deposits as int);
    crate::cash::lemma_round_close(s.withdrawals as int);
}

/// One column of the summary table.
#[derive(Clone, Debug)]
pub struct SummaryRow {
    pub currency: String,
    pub starting: i128,
    pub deposits: i128,
    /// Negative, as the table shows it.
    pub withdrawals: i128,
    pub ending: i128,
}

/// The first summary that does not balance, if any.
pub open spec fn first_unbalanced(summaries: Seq<CashFlowSummary>, i: int) -> bool {
    0 <= i < summaries.len() && !balanced(summaries[i]) && forall|j: int|
        0 <= j < i ==> balanced(#[trigger] summaries[j])
}

/// The rows of the summary table for `summaries`.
pub open spec fn summary_rows(summaries: Seq<CashFlowSummary>, rows: Seq<SummaryRow>) -> bool {
    rows.len() == summaries.len() && forall|i: int| 0 <= i < rows.len() ==> {
        let s = summaries[i];
        &&& (#[trigger] rows[i]).currency == s.currency
        &&& rows[i].starting == round_to_cents(s.starting as int)
        &&& rows[i].deposits == round_to_cents(s.deposits as int)
        &&& rows[i].withdrawals == -round_to_cents(s.withdrawals as int)
        &&& rows[i].ending == computed_ending(s)
    }
}

/// The summary table: per currency, in the order of the summaries
/// (ascending currency), the rounded starting balance, deposits, withdrawals
/// and the ending balance they give. Every currency must balance: an
/// imbalance is a bug in the processing, which `checked_summary_rows`
/// reports.
pub fn generate_cash_summary_report(summaries: &Vec<CashFlowSummary>) -> (r: Vec<SummaryRow>)
    requires
        forall|i: int| 0 <= i < summaries@.len() ==> summary_fits(#[trigger] summaries@[i]),
        forall|i: int| 0 <= i < summaries@.len() ==> balanced(#[trigger] summaries@[i]),
    ensures
        summary_rows(summaries@, r@),
{
    match checked_summary_rows(summaries) {
        Ok(rows) => rows,
        Err(_) => Vec::new(),
    }
}

/// The summary table after checking that each currency's ending balance
/// matches the observed one; the first currency that does not balance is
/// reported as a broken invariant.
pub fn checked_summary_rows(summaries: &Vec<CashFlowSummary>) -> (r: Result<Vec<SummaryRow>, Error>)
    requires
        forall|i: int| 0 <= i < summaries@.len() ==> summary_fits(#[trigger] summaries@[i]),
    ensures
        (forall|i: int| 0 <= i < summaries@.len() ==> balanced(#[trigger] summaries@[i])) == (r is Ok),
        r matches Err(e) ==> exists|i: int| first_unbalanced(summaries@, i) && e == Error::Violation(Violation::UnbalancedCurrency(summaries@[i].currency)),
        r matches Ok(rows) ==> summary_rows(summaries@, rows@),
{
    let mut rows: Vec<SummaryRow> = Vec::new();
    let mut i: usize = 0;
    while i < summaries.len()
        invariant
            i <= summaries@.len(),
            forall|j: int| 0 <= j < summaries@.len() ==> summary_fits(#[trigger] summaries@[j]),
            forall|j: int| 0 <= j < i ==> balanced(#[trigger] summaries@[j]),
            rows@.len() == i,
            forall|j: int| 0 <= j < i ==> {
                let s = summaries@[j];
                &&& (#[trigger] rows@[j]).currency == s.currency
                &&& rows@[j].starting == round_to_cents(s.starting as int)
                &&& rows@[j].deposits == round_to_cents(s.deposits as int)
                &&& rows@[j].withdrawals == -round_to_cents(s.withdrawals as int)
                &&& rows@[j].ending == computed_ending(s)
            },
        decreases summaries@.len() - i,
    {
        let s = &summaries[i];
        assert(summary_fits(*s));
        proof {
            crate::cash::lemma_round_close(s.starting as int);
            crate::cash::lemma_round_close(s.deposits as int);
            crate::cash::lemma_round_close(s.withdrawals as int);
        }
        let starting = round(s.starting);
        let deposits = round(s.deposits);
        let withdrawals = round(s.withdrawals);
        let ending = starting + deposits - withdrawals;
        if !(s.ending - TOLERANCE <= ending && ending <= s.ending + TOLERANCE) {
            assert(first_unbalanced(summaries@, i as int));
            return Err(Error::Violation(Violation::UnbalancedCurrency(s.currency.clone())));
        }
        rows.push(SummaryRow { currency: s.currency.clone(), starting, deposits, withdrawals: -withdrawals, ending });
        i = i + 1;
    }
    Ok(rows)
}

/// One row of the itemized table.
#[derive(Clone, Debug)]
pub struct DetailRow {
    pub date: Date,
    pub description: String,
    /// The leg of the cash flow in each summary's currency, in summary order.
    pub cells: Vec<Option<Cash>>,
}

/// The leg of `e` in currency `c`, the main one first.
pub open spec fn cell_for(e: CashFlow, c: Seq<char>) -> Option<Cash> {
    if e.amount.currency@ == c {
        Some(e.amount)
    } else {
        match e.sibling_amount {
            Some(s) => if s.currency@ == c { Some(s) } else { None },
            None => None,
        }
    }
}

/// How many of the currencies of `summaries` show a leg of `e`.
pub open spec fn matched_cells(e: CashFlow, summaries: Seq<CashFlowSummary>) -> int
    decreases summaries.len(),
{
    if summaries.len() == 0 {
        0
    } else {
        matched_cells(e, summaries.drop_last()) + if cell_for(e, summaries.last().currency@) is Some { 1int } else { 0 }
    }
}

/// How many legs a cash flow has.
pub open spec fn legs(e: CashFlow) -> int {
    if e.sibling_amount is Some { 2 } else { 1 }
}

pub open spec fn attributed(e: CashFlow, summaries: Seq<CashFlowSummary>) -> bool {
    matched_cells(e, summaries) == legs(e)
}

proof fn lemma_matched_count(e: CashFlow, s: Seq<CashFlowSummary>)
    requires
        currencies_unique(s),
        legs_distinct(e),
    ensures
        matched_cells(e, s) == (if has_summary(s, e.amount.currency@) { 1int } else { 0 }) + match e.sibling_amount {
            Some(x) => if has_summary(s, x.currency@) { 1int } else { 0 },
            None => 0,
        },
    decreases s.len(),
{
    if s.len() > 0 {
        let d = s.drop_last();
        assert forall|i: int, j: int| 0 <= i < j < d.len() implies (#[trigger] d[i]).currency@ != (#[trigger] d[j]).currency@ by {
            assert(d[i] == s[i] && d[j] == s[j]);
        }
        lemma_matched_count(e, d);
        let last = s.last();
        assert(s[s.len() - 1] == last);
        assert forall|c: Seq<char>| has_summary(s, c) == (has_summary(d, c) || last.currency@ == c) by {
            if has_summary(s, c) {
                let i = choose|i: int| 0 <= i < s.len() && (#[trigger] s[i]).currency@ == c;
                if i < d.len() {
                    assert(d[i] == s[i]);
                }
            }
            if has_summary(d, c) {
                let i = choose|i: int| 0 <= i < d.len() && (#[trigger] d[i]).currency@ == c;
                assert(s[i] == d[i]);
            }
        }
        assert forall|c: Seq<char>| has_summary(d, c) ==> last.currency@ != c by {
            if has_summary(d, c) {
                let i = choose|i: int| 0 <= i < d.len() && (#[trigger] d[i]).currency@ == c;
                assert(s[i] == d[i]);
            }
        }
    } else {
        assert(!has_summary(s, e.amount.currency@));
        assert(forall|c: Seq<char>| !has_summary(s, c));
    }
}

/// A cash flow whose legs are in distinct currencies that all have a summary
/// shows under each of them.
pub proof fn lemma_attributed(e: CashFlow, s: Seq<CashFlowSummary>)
    requires
        currencies_unique(s),
        legs_distinct(e),
        has_summary(s, e.amount.currency@),
        e.sibling_amount matches Some(x) ==> has_summary(s, x.currency@),
    ensures
        attributed(e, s),
{
    lemma_matched_count(e, s);
}

/// Builds the row of one cash flow and counts its filled cells.
fn detail_row(e: &CashFlow, summaries: &Vec<CashFlowSummary>) -> (r: (DetailRow, usize))
    ensures
        r.0.date == e.date,
        r.0.description == e.description,
        r.0.cells@.len() == summaries@.len(),
        forall|i: int| 0 <= i < summaries@.len() ==> (#[trigger] r.0.cells@[i]) == cell_for(*e, summaries@[i].currency@),
        r.1 == matched_cells(*e, summaries@),
{
    let mut cells: Vec<Option<Cash>> = Vec::new();
    let mut matched: usize = 0;
    let mut i: usize = 0;
    while i < summaries.len()
        invariant
            i <= summaries@.len(),
            cells@.len() == i,
            forall|j: int| 0 <= j < i ==> (#[trigger] cells@[j]) == cell_for(*e, summaries@[j].currency@),
            matched == matched_cells(*e, summaries@.subrange(0, i as int)),
            matched <= i,
        decreases summaries@.len() - i,
    {
        let currency = &summaries[i].currency;
        assert(summaries@.subrange(0, i + 1).drop_last() =~= summaries@.subrange(0, i as int));
        let cell = if e.amount.currency == *currency {
            Some(e.amount.copy())
        } else {
            match &e.sibling_amount {
                Some(s) => if s.currency == *currency { Some(s.copy()) } else { None },
                None => None,
            }
        };
        if cell.is_some() {
            matched = matched + 1;
        }
        cells.push(cell);
        i = i + 1;
    }
    assert(summaries@.subrange(0, i as int) =~= summaries@);
    (DetailRow { date: e.date, description: e.description.clone(), cells }, matched)
}

/// The rows of the itemized table for `cash_flows` under the currencies of `summaries`.
pub open spec fn detail_rows(summaries: Seq<CashFlowSummary>, cash_flows: Seq<CashFlow>, rows: Seq<DetailRow>) -> bool {
    rows.len() == cash_flows.len() && forall|k: int| 0 <= k < rows.len() ==> {
        &&& (#[trigger] rows[k]).date == cash_flows[k].date
        &&& rows[k].description == cash_flows[k].description
        &&& rows[k].cells@.len() == summaries.len()
        &&& forall|i: int| 0 <= i < summaries.len() ==> (#[trigger] rows[k].cells@[i]) == cell_for(cash_flows[k], summaries[i].currency@)
    }
}

/// The itemized table: one row per cash flow, with its legs under their
/// currencies, in the order of the summaries (ascending currency). Every leg
/// of every cash flow has a summary of its currency, so each shows.
pub fn generate_details_report(summaries: &Vec<CashFlowSummary>, cash_flows: &Vec<CashFlow>) -> (r: Vec<DetailRow>)
    requires
        currencies_sorted(summaries@),
        summaries_cover(summaries@, cash_flows@),
    ensures
        detail_rows(summaries@, cash_flows@, r@),
        forall|k: int| 0 <= k < cash_flows@.len() ==> attributed(#[trigger] cash_flows@[k], summaries@),
{
    proof { lemma_sorted_unique(summaries@); }
    let mut rows: Vec<DetailRow> = Vec::new();
    let mut k: usize = 0;
    while k < cash_flows.len()
        invariant
            k <= cash_flows@.len(),
            currencies_unique(summaries@),
            summaries_cover(summaries@, cash_flows@),
            forall|j: int| 0 <= j < k ==> attributed(#[trigger] cash_flows@[j], summaries@),
            rows@.len() == k,
            forall|j: int| 0 <= j < k ==> {
                &&& (#[trigger] rows@[j]).date == cash_flows@[j].date
                &&& rows@[j].description == cash_flows@[j].description
                &&& rows@[j].cells@.len() == summaries@.len()
                &&& forall|i: int| 0 <= i < summaries@.len() ==> (#[trigger] rows@[j].cells@[i]) == cell_for(cash_flows@[j], summaries@[i].currency@)
            },
        decreases cash_flows@.len() - k,
    {
        let e = &cash_flows[k];
        proof { lemma_attributed(*e, summaries@); }
        let (row, _matched) = detail_row(e, summaries);
        rows.push(row);
        k = k + 1;
    }
    rows
}

pub open spec fn is_trade(e: CashFlow) -> bool {
    e.operation == Operation::BuyTrade || e.operation == Operation::SellTrade
}

/// The legs of the trade cash flows of `flows`, negated: money that leaves
/// the account buys other assets, and money that comes in sold them.
pub open spec fn trade_legs(flows: Seq<CashFlow>) -> Seq<(Date, Cash)>
    decreases flows.len(),
{
    if flows.len() == 0 {
        Seq::empty()
    } else {
        let e = flows.last();
        let before = trade_legs(flows.drop_last());
        if !is_trade(e) {
            before
        } else {
            let with_main = before.push((e.date, Cash { currency: e.amount.currency, amount: (-e.amount.amount) as i64 }));
            match e.sibling_amount {
                Some(s) => with_main.push((e.date, Cash { currency: s.currency, amount: (-s.amount) as i64 })),
                None => with_main,
            }
        }
    }
}

/// The legs to value for the other-assets table, each with its date: the
/// negated legs of the buy and sell trades among `cash_flows`.
pub fn other_assets_legs(cash_flows: &Vec<CashFlow>) -> (r: Vec<(Date, Cash)>)
    requires
        forall|k: int| 0 <= k < cash_flows@.len() ==> {
            &&& (#[trigger] cash_flows@[k]).amount.amount > i64::MIN
            &&& cash_flows@[k].sibling_amount matches Some(s) ==> s.amount > i64::MIN
        },
    ensures
        r@ == trade_legs(cash_flows@),
{
    let mut legs: Vec<(Date, Cash)> = Vec::new();
    let mut k: usize = 0;
    while k < cash_flows.len()
        invariant
            k <= cash_flows@.len(),
            forall|j: int| 0 <= j < cash_flows@.len() ==> {
                &&& (#[trigger] cash_flows@[j]).amount.amount > i64::MIN
                &&& cash_flows@[j].sibling_amount matches Some(s) ==> s.amount > i64::MIN
            },
            legs@ == trade_legs(cash_flows@.subrange(0, k as int)),
        decreases cash_flows@.len() - k,
    {
        let e = &cash_flows[k];
        assert(cash_flows@.subrange(0, k + 1).drop_last() =~= cash_flows@.subrange(0, k as int));
        if e.operation == Operation::BuyTrade || e.operation == Operation::SellTrade {
            legs.push((e.date, Cash { currency: e.amount.currency.clone(), amount: -e.amount.amount }));
            match &e.sibling_amount {
                Some(s) => {
                    legs.push((e.date, Cash { currency: s.currency.clone(), amount: -s.amount }));
                },
                None => {},
            }
        }
        k = k + 1;
    }
    assert(cash_flows@.subrange(0, k as int) =~= cash_flows@);
    legs
}

/// The sum of the amounts that are zero or more.
pub open spec fn sum_incoming(s: Seq<i64>) -> int
    decreases s.len(),
{
    if s.len() == 0 { 0 } else { sum_incoming(s.drop_last()) + if s.last() >= 0 { s.last() as int } else { 0 } }
}

/// The sum of the amounts below zero.
pub open spec fn sum_outgoing(s: Seq<i64>) -> int
    decreases s.len(),
{
    if s.len() == 0 { 0 } else { sum_outgoing(s.drop_last()) + if s.last() < 0 { s.last() as int } else { 0 } }
}

proof fn lemma_incoming_bounds(s: Seq<i64>)
    ensures
        0 <= sum_incoming(s) <= s.len() * 0x8000_0000_0000_0000,
        -(s.len() * 0x8000_0000_0000_0000) <= sum_outgoing(s) <= 0,
    decreases s.len(),
{
    if s.len() > 0 {
        lemma_incoming_bounds(s.drop_last());
    }
}

/// The other-assets table: the value of the other assets before and at the
/// end of the period, where known, and what came in and went out in between.
#[derive(Clone, Debug)]
pub struct OtherAssetsSummary {
    pub currency: String,
    /// `None` where no value is known for the day before the period.
    pub starting: Option<i64>,
    pub deposits: i128,
    /// Negative, as the table shows it.
    pub withdrawals: i128,
    /// `None` where no value is known for the last day of the period.
    pub ending: Option<i64>,
    /// Whether a value is missing, which calls for a diagnostic.
    pub missing: bool,
}

/// The currency of the other-assets table: that of the value known at the
/// end, else of the one known at the start, else the jurisdiction's.
pub fn other_assets_currency(start_assets: &Option<Cash>, end_assets: &Option<Cash>, jurisdiction_currency: &str) -> (r: String)
    ensures
        r@ == match (end_assets, start_assets) {
            (Some(e), _) => e.currency@,
            (None, Some(s)) => s.currency@,
            (None, None) => jurisdiction_currency@,
        },
{
    match (end_assets, start_assets) {
        (Some(e), _) => e.currency.clone(),
        (None, Some(s)) => s.currency.clone(),
        (None, None) => jurisdiction_currency.to_string(),
    }
}

/// Builds the other-assets table from the values known for the day before the
/// period and its last day, and from the trade legs valued in one currency
/// (`converted`). A missing starting value is zero only where the period
/// starts with the statements; otherwise it stays unknown. The table is in
/// the currency of the known values, else in `jurisdiction_currency`.
pub fn generate_other_summary_report(
    start_assets: &Option<Cash>,
    end_assets: &Option<Cash>,
    starts_with_statements: bool,
    converted: &Vec<i64>,
    jurisdiction_currency: &str,
) -> (r: OtherAssetsSummary)
    requires
        converted@.len() <= 0xffff_ffff,
    ensures
        r.currency@ == match (end_assets, start_assets) {
            (Some(e), _) => e.currency@,
            (None, Some(s)) => s.currency@,
            (None, None) => jurisdiction_currency@,
        },
        r.starting == match start_assets {
            Some(s) => Some(s.amount),
            None => if starts_with_statements { Some(0i64) } else { None },
        },
        r.ending == match end_assets {
            Some(e) => Some(e.amount),
            None => None::<i64>,
        },
        r.missing == (r.starting is None || r.ending is None),
        r.deposits == sum_incoming(converted@),
        r.withdrawals == sum_outgoing(converted@),
{
    let currency = other_assets_currency(start_assets, end_assets, jurisdiction_currency);
    let ending = match end_assets {
        Some(e) => Some(e.amount),
        None => None,
    };
    let starting = match start_assets {
        Some(s) => Some(s.amount),
        None => if starts_with_statements { Some(0i64) } else { None },
    };
    let mut deposits: i128 = 0;
    let mut withdrawals: i128 = 0;
    let mut k: usize = 0;
    while k < converted.len()
        invariant
            k <= converted@.len() <= 0xffff_ffff,
            deposits == sum_incoming(converted@.subrange(0, k as int)),
            withdrawals == sum_outgoing(converted@.subrange(0, k as int)),
        decreases converted@.len() - k,
    {
        let ghost prefix = converted@.subrange(0, k as int);
        assert(converted@.subrange(0, k + 1).drop_last() =~= prefix);
        proof {
            lemma_incoming_bounds(prefix);
            let n = prefix.len() as int;
            assert(n * 0x8000_0000_0000_0000 <= 0x1_0000_0000_0000_0000_0000_0000) by (nonlinear_arith)
                requires
                    0 <= n <= 0xffff_ffff,
            ;
        }
        let x = converted[k];
        if x >= 0 {
            deposits = deposits + x as i128;
        } else {
            withdrawals = withdrawals + x as i128;
        }
        k = k + 1;
    }
    assert(converted@.subrange(0, k as int) =~= converted@);
    let missing = starting.is_none() || ending.is_none();
    OtherAssetsSummary { currency, starting, deposits, withdrawals, ending, missing }
}

/// The report's period as day numbers: the statements' period, cut to the
/// given year where there is one.
pub open spec fn report_period(first: Date, end: Date, year: Option<i32>) -> (int, int) {
    match year {
        None => (first.day(), end.day()),
        Some(y) => {
            let year_start = day_number(y as int, 1, 1);
            let next_year_start = day_number(y + 1, 1, 1);
            (
                if year_start > first.day() { year_start } else { first.day() },
                if next_year_start < end.day() { next_year_start } else { end.day() },
            )
        },
    }
}

/// The cash-flow report of a period: its summaries, the summary table and the
/// itemized table.
pub struct CashFlowReport {
    pub start_date: Date,
    /// The day after the period.
    pub end_date: Date,
    pub summaries: Vec<CashFlowSummary>,
    pub summary: Vec<SummaryRow>,
    pub cash_flows: Vec<CashFlow>,
    pub details: Vec<DetailRow>,
}

/// Builds the cash-flow report of the statements' period `[first, end)`, or
/// of its part in `year`, which fails where the statements do not reach into
/// that year: sums the cash flows of that period into
/// `summaries` (one per currency, with the balances before and at the end of
/// the period), checks that each currency's balance adds up and that each
/// cash flow shows under its currencies.
pub fn generate_cash_flow_report(
    first: Date,
    end: Date,
    year: Option<i32>,
    summaries: Vec<CashFlowSummary>,
    events: &Vec<CashFlow>,
) -> (r: Result<CashFlowReport, Error>)
    requires
        year matches Some(y) ==> MIN_YEAR <= y < MAX_YEAR,
        currencies_sorted(summaries@),
        summaries_cover(summaries@, events@),
        forall|i: int| 0 <= i < summaries@.len() ==> {
            &&& 0 <= #[trigger] summaries@[i].deposits <= 0x1_0000_0000_0000_0000
            &&& 0 <= summaries@[i].withdrawals <= 0x1_0000_0000_0000_0000
            &&& -0x1_0000_0000_0000_0000 <= summaries@[i].starting <= 0x1_0000_0000_0000_0000
            &&& -0x1_0000_0000_0000_0000 <= summaries@[i].ending <= 0x1_0000_0000_0000_0000
        },
        events@.len() <= 0xffff_ffff,
    ensures
        year is Some && report_period(first, end, year).0 >= report_period(first, end, year).1
            ==> r == Err::<CashFlowReport, Error>(Error::YearOutsideStatements(year.unwrap())),
        r matches Ok(report) ==> {
            &&& (report.start_date.day(), report.end_date.day()) == report_period(first, end, year)
            &&& calculated(summaries@, report.summaries@, events@, report.start_date, report.end_date)
            &&& report.cash_flows@ == events_in_period(events@, report.start_date, report.end_date)
            &&& report.summaries@.len() == summaries@.len()
            &&& currencies_sorted(report.summaries@)
            &&& forall|i: int| 0 <= i < report.summaries@.len() ==> balanced(#[trigger] report.summaries@[i])
            &&& summary_rows(report.summaries@, report.summary@)
            &&& detail_rows(report.summaries@, report.cash_flows@, report.details@)
        },
        r matches Err(e) ==> (year is Some && report_period(first, end, year).0 >= report_period(first, end, year).1)
            || exists|start: Date, stop: Date, s1: Seq<CashFlowSummary>| {
            &&& start.day() < stop.day() || year is None
            &&& (start.day(), stop.day()) == report_period(first, end, year)
            &&& calculated(summaries@, s1, events@, start, stop)
            &&& exists|i: int| first_unbalanced(s1, i) && e == Error::Violation(Violation::UnbalancedCurrency(s1[i].currency))
        },
{
    let (start_date, end_date) = match year {
        Some(y) => {
            let year_start = match Date::from_ymd(y, 1, 1) {
                Some(d) => d,
                None => first,
            };
            let next_year_start = match Date::from_ymd(y + 1, 1, 1) {
                Some(d) => d,
                None => end,
            };
            (
                if first.is_before(&year_start) { year_start } else { first },
                if next_year_start.is_before(&end) { next_year_start } else { end },
            )
        },
        None => (first, end),
    };
    if let Some(y) = year {
        if !start_date.is_before(&end_date) {
            return Err(Error::YearOutsideStatements(y));
        }
    }
    let mut summaries = summaries;
    let ghost s0 = summaries@;
    let cash_flows = calculate(&mut summaries, events, start_date, end_date);
    assert forall|i: int| 0 <= i < summaries@.len() implies summary_fits(#[trigger] summaries@[i]) by {
        lemma_sum_bounds(events@, start_date, end_date, summaries@[i].currency@);
        let n = events@.len() as int;
        assert(2 * n * leg_limit() <= 0x1_0000_0000_0000_0000_0000_0000) by (nonlinear_arith)
            requires
                0 <= n <= 0xffff_ffff,
                leg_limit() == 0x8000_0000_0000_0000,
        ;
    }
    let summary = checked_summary_rows(&summaries)?;
    assert forall|k: int| 0 <= k < cash_flows@.len() implies {
        &&& legs_distinct(#[trigger] cash_flows@[k])
        &&& has_summary(summaries@, cash_flows@[k].amount.currency@)
        &&& (cash_flows@[k].sibling_amount matches Some(x) ==> has_summary(summaries@, x.currency@))
    } by {
        let x = cash_flows@[k];
        assert(events_in_period(events@, start_date, end_date).contains(x));
        events@.lemma_filter_contains_rev(|e: CashFlow| in_period(e, start_date, end_date), x);
        let j = choose|j: int| 0 <= j < events@.len() && events@[j] == x;
        assert(legs_distinct(events@[j]));
    }
    let details = generate_details_report(&summaries, &cash_flows);
    Ok(CashFlowReport { start_date, end_date, summaries, summary, cash_flows, details })
}

/// The dates among `historical` (net-asset values of other assets by date)
/// for which a value is known, in the order given.
pub open spec fn asset_dates(historical: Seq<(Date, Option<Cash>)>) -> Seq<Date>
    decreases historical.len(),
{
    if historical.len() == 0 {
        Seq::empty()
    } else {
        let before = asset_dates(historical.drop_last());
        if historical.last().1 is Some { before.push(historical.last().0) } else { before }
    }
}

/// The value of other assets that `historical` gives for day number `day`:
/// the last entry of that date decides.
pub open spec fn assets_on_day(historical: Seq<(Date, Option<Cash>)>, day: int) -> Option<Cash>
    decreases historical.len(),
{
    if historical.len() == 0 {
        None
    } else if historical.last().0.day() == day {
        historical.last().1
    } else {
        assets_on_day(historical.drop_last(), day)
    }
}

/// The dates for which a value of other assets is known, ascending as the
/// values are, for the diagnostic that lists them where a value the report
/// needs is missing.
pub fn available_asset_dates(historical: &Vec<(Date, Option<Cash>)>) -> (r: Vec<Date>)
    requires
        forall|i: int, j: int| 0 <= i < j < historical@.len() ==> (#[trigger] historical@[i]).0.day() < (#[trigger] historical@[j]).0.day(),
    ensures
        r@ == asset_dates(historical@),
        forall|i: int, j: int| 0 <= i < j < r@.len() ==> (#[trigger] r@[i]).day() < (#[trigger] r@[j]).day(),
{
    let mut dates: Vec<Date> = Vec::new();
    let mut k: usize = 0;
    while k < historical.len()
        invariant
            k <= historical@.len(),
            forall|i: int, j: int| 0 <= i < j < historical@.len() ==> (#[trigger] historical@[i]).0.day() < (#[trigger] historical@[j]).0.day(),
            dates@ == asset_dates(historical@.subrange(0, k as int)),
            forall|i: int, j: int| 0 <= i < j < dates@.len() ==> (#[trigger] dates@[i]).day() < (#[trigger] dates@[j]).day(),
            forall|i: int| 0 <= i < dates@.len() ==> exists|j: int| 0 <= j < k && (#[trigger] dates@[i]) == #[trigger] historical@[j].0,
        decreases historical@.len() - k,
    {
        assert(historical@.subrange(0, k + 1).drop_last() =~= historical@.subrange(0, k as int));
        if historical[k].1.is_some() {
            dates.push(historical[k].0);
        }
        k = k + 1;
    }
    assert(historical@.subrange(0, k as int) =~= historical@);
    dates
}

/// The value of other assets known for `date`, if any.
pub fn assets_on(historical: &Vec<(Date, Option<Cash>)>, date: &Date) -> (r: Option<Cash>)
    ensures
        r == assets_on_day(historical@, date.day()),
{
    let mut found: Option<Cash> = None;
    let mut k: usize = 0;
    while k < historical.len()
        invariant
            k <= historical@.len(),
            found == assets_on_day(historical@.subrange(0, k as int), date.day()),
        decreases historical@.len() - k,
    {
        assert(historical@.subrange(0, k + 1).drop_last() =~= historical@.subrange(0, k as int));
        if historical[k].0.same_as(date) {
            found = match &historical[k].1 {
                Some(c) => Some(c.copy()),
                None => None,
            };
        }
        k = k + 1;
    }
    assert(historical@.subrange(0, k as int) =~= historical@);
    found
}

} // verus!
