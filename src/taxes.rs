//! Scheduling of realized profit into tax payments, one per year.

use crate::date::{
    day_in_year, day_number, days_in_month, is_valid_ymd, lemma_date_in_year, lemma_one_year, Date,
};
use crate::error::{Error, Violation};
use vstd::prelude::*;

verus! {

/// When the tax on a year's income is paid.
#[derive(Clone, Copy, Debug, PartialEq, Eq, Structural)]
pub enum TaxPaymentDay {
    /// On a fixed day of the following year.
    Day { month: u32, day: u32 },
    /// When the account is closed. The closing date is not known here, so the
    /// payment is scheduled as by default, on March 15 of the following year.
    OnClose,
}

/// The year that day number `n` falls in.
pub open spec fn year_of(n: int) -> int {
    choose|y: int| day_in_year(n, y)
}

impl TaxPaymentDay {
    /// Whether the day is a day of its month in some year.
    pub open spec fn wf(self) -> bool {
        match self {
            TaxPaymentDay::Day { month, day } => 1 <= month <= 12 && 1 <= day && day <= (if month == 2 {
                29
            } else {
                days_in_month(1, month as int)
            }),
            TaxPaymentDay::OnClose => true,
        }
    }

    /// Whether the payment day exists in year `y` (a February 29 does only in
    /// leap years).
    pub open spec fn valid_in(self, y: int) -> bool {
        is_valid_ymd(y, self.month_and_day().0, self.month_and_day().1)
    }

    pub open spec fn month_and_day(self) -> (int, int) {
        match self {
            TaxPaymentDay::Day { month, day } => (month as int, day as int),
            TaxPaymentDay::OnClose => (3, 15),
        }
    }

    /// The day number on which tax on income of day `n` is paid.
    pub open spec fn payment_day(self, n: int) -> int {
        day_number(year_of(n) + 1, self.month_and_day().0, self.month_and_day().1)
    }

    /// Returns the date when tax is going to be paid for income of `income_date`.
    pub fn get(&self, income_date: Date) -> (r: Date)
        requires
            self.wf(),
            self.valid_in(year_of(income_date.day()) + 1),
        ensures
            r.day() == self.payment_day(income_date.day()),
            day_in_year(income_date.day(), year_of(income_date.day())),
    {
        let year = income_date.year();
        proof {
            lemma_one_year(income_date.day(), year as int, year_of(income_date.day()));
        }
        let (month, day) = match self {
            TaxPaymentDay::Day { month, day } => (*month, *day),
            TaxPaymentDay::OnClose => (3u32, 15u32),
        };
        assert(is_valid_ymd(year + 1, month as int, day as int));
        match Date::from_ymd(year + 1, month, day) {
            Some(date) => date,
            None => income_date,
        }
    }
}

impl Default for TaxPaymentDay {
    fn default() -> (r: TaxPaymentDay)
        ensures
            r == (TaxPaymentDay::Day { month: 3, day: 15 }),
    {
        TaxPaymentDay::Day { month: 3, day: 15 }
    }
}

/// The tax rules of a country.
#[derive(Clone, Copy, Debug)]
pub struct Country {
    /// Tax rate in hundredths of a percent.
    pub tax_rate: u32,
}

/// Tax on `profit` at `rate` hundredths of a percent: nothing on a loss,
/// rounded down to a millionth.
pub open spec fn tax_on(profit: int, rate: int) -> int {
    if profit <= 0 { 0 } else { profit * rate / 10000 }
}

impl Country {
    pub fn tax_to_pay(&self, profit: i64) -> (r: i64)
        requires
            self.tax_rate <= 10000,
        ensures
            r == tax_on(profit as int, self.tax_rate as int),
    {
        if profit <= 0 {
            return 0;
        }
        let rate = self.tax_rate as i128;
        assert(0 <= (profit as int) * (rate as int) <= (profit as int) * 10000) by (nonlinear_arith)
            requires
                profit > 0,
                0 <= rate <= 10000,
        ;
        assert((profit as int) * (rate as int) / 10000 <= profit) by (nonlinear_arith)
            requires
                (profit as int) * (rate as int) <= (profit as int) * 10000,
                profit > 0,
        ;
        ((profit as i128) * rate / 10000) as i64
    }
}

/// Realized profit by tax payment date.
pub struct NetTaxCalculator {
    country: Country,
    tax_payment_day: TaxPaymentDay,
    profit: Vec<(Date, i64)>,
    buckets: Ghost<Map<int, int>>,
}

impl View for NetTaxCalculator {
    type V = Map<int, int>;

    /// Profit by the day number of its tax payment date.
    closed spec fn view(&self) -> Map<int, int> {
        self.buckets@
    }
}

/// Whether two distinct payment dates among `m` fall in one year.
pub open spec fn shares_year(m: Map<int, int>) -> bool {
    exists|a: int, b: int| m.contains_key(a) && m.contains_key(b) && a != b && year_of(a) == year_of(b)
}

impl NetTaxCalculator {
    pub closed spec fn wf(&self) -> bool {
        &&& self.tax_payment_day.wf()
        &&& self.country.tax_rate <= 10000
        &&& forall|i: int| #![trigger self.profit@[i]] 0 <= i < self.profit@.len() ==> {
            &&& self.buckets@.contains_key(self.profit@[i].0.day())
            &&& self.buckets@[self.profit@[i].0.day()] == self.profit@[i].1 as int
        }
        &&& forall|k: int| #[trigger] self.buckets@.contains_key(k) ==> exists|i: int|
            0 <= i < self.profit@.len() && #[trigger] self.profit@[i].0.day() == k
        &&& forall|i: int, j: int|
            0 <= i < j < self.profit@.len() ==> #[trigger] self.profit@[i].0.day()
                != #[trigger] self.profit@[j].0.day()
        &&& forall|k: int| #[trigger] self.buckets@.contains_key(k) ==> k == day_number(
            year_of(k),
            self.tax_payment_day.month_and_day().0,
            self.tax_payment_day.month_and_day().1,
        )
    }

    /// Profit is scheduled into one bucket per year: two payment dates of
    /// one year never arise, so the taxes are always computed.
    pub proof fn lemma_one_bucket_per_year(&self)
        requires
            self.wf(),
        ensures
            !shares_year(self@),
    {
    }

    pub closed spec fn payment_day_rule(&self) -> TaxPaymentDay {
        self.tax_payment_day
    }

    pub closed spec fn rate(&self) -> int {
        self.country.tax_rate as int
    }

    pub fn new(country: Country, tax_payment_day: TaxPaymentDay) -> (r: NetTaxCalculator)
        requires
            country.tax_rate <= 10000,
            tax_payment_day.wf(),
        ensures
            r.wf(),
            r@ == Map::<int, int>::empty(),
            r.payment_day_rule() == tax_payment_day,
            r.rate() == country.tax_rate,
    {
        NetTaxCalculator { country, tax_payment_day, profit: Vec::new(), buckets: Ghost(Map::empty()) }
    }

    fn find_bucket(&self, key: &Date) -> (r: Option<usize>)
        requires
            self.wf(),
        ensures
            match r {
                Some(i) => i < self.profit@.len() && self.profit@[i as int].0.day() == key.day(),
                None => !self@.contains_key(key.day()),
            },
    {
        let mut i: usize = 0;
        while i < self.profit.len()
            invariant
                self.wf(),
                i <= self.profit@.len(),
                forall|j: int| 0 <= j < i ==> #[trigger] self.profit@[j].0.day() != key.day(),
            decreases self.profit@.len() - i,
        {
            if self.profit[i].0.same_as(key) {
                return Some(i);
            }
            i = i + 1;
        }
        None
    }

    /// Adds profit (or, where negative, a loss) realized on `date` to the
    /// bucket of its tax payment date.
    pub fn add_profit(&mut self, date: Date, amount: i64)
        requires
            old(self).wf(),
            old(self).payment_day_rule().valid_in(year_of(date.day()) + 1),
            ({
                let k = old(self).payment_day_rule().payment_day(date.day());
                i64::MIN <= (if old(self)@.contains_key(k) { old(self)@[k] } else { 0 }) + amount <= i64::MAX
            }),
        ensures
            final(self).wf(),
            final(self).payment_day_rule() == old(self).payment_day_rule(),
            final(self).rate() == old(self).rate(),
            ({
                let k = old(self).payment_day_rule().payment_day(date.day());
                final(self)@ == old(self)@.insert(k, (if old(self)@.contains_key(k) { old(self)@[k] } else { 0 }) + amount)
            }),
    {
        let key = self.tax_payment_day.get(date);
        let ghost k = key.day();
        proof {
            let (m, d) = self.tax_payment_day.month_and_day();
            let y = year_of(date.day()) + 1;
            lemma_date_in_year(y, m, d);
            lemma_one_year(k, y, year_of(k));
        }
        let found = self.find_bucket(&key);
        let ghost old_profit = self.profit@;
        if let Some(i) = found {
            let total = self.profit[i].1 + amount;
            self.profit.set(i, (key, total));
            self.buckets = Ghost(self.buckets@.insert(k, total as int));
            assert forall|j: int| 0 <= j < self.profit@.len() && j != i implies #[trigger] self.profit@[j] == old_profit[j] by {}
            assert forall|q: int| #[trigger] self.buckets@.contains_key(q) implies exists|j: int|
                0 <= j < self.profit@.len() && #[trigger] self.profit@[j].0.day() == q by {
                if q != k {
                    let j = choose|j: int| 0 <= j < old_profit.len() && #[trigger] old_profit[j].0.day() == q;
                    assert(self.profit@[j].0.day() == q);
                } else {
                    assert(self.profit@[i as int].0.day() == q);
                }
            }
        } else {
            assert(!self.buckets@.contains_key(k));
            self.profit.push((key, amount));
            self.buckets = Ghost(self.buckets@.insert(k, amount as int));
            assert forall|j: int| 0 <= j < old_profit.len() implies #[trigger] self.profit@[j] == old_profit[j] by {}
            assert forall|q: int| #[trigger] self.buckets@.contains_key(q) implies exists|j: int|
                0 <= j < self.profit@.len() && #[trigger] self.profit@[j].0.day() == q by {
                if q != k {
                    let j = choose|j: int| 0 <= j < old_profit.len() && #[trigger] old_profit[j].0.day() == q;
                    assert(self.profit@[j].0.day() == q);
                } else {
                    assert(self.profit@[old_profit.len() as int].0.day() == q);
                }
            }
        }
    }

    /// The tax to pay on each tax payment date. Two payment dates in one year
    /// mean that profit was scheduled wrongly, and fail.
    pub fn get_taxes(&self) -> (r: Result<Vec<(Date, i64)>, Error>)
        requires
            self.wf(),
        ensures
            r is Ok == !shares_year(self@),
            r matches Err(e) ==> exists|a: int, b: int| {
                &&& self@.contains_key(a) && self@.contains_key(b) && a != b
                &&& year_of(a) == year_of(b)
                &&& e matches Error::Violation(Violation::DuplicateTaxYear(y)) && y as int == year_of(a)
            },
            r matches Ok(taxes) ==> {
                &&& forall|i: int| 0 <= i < taxes@.len() ==> {
                    &&& self@.contains_key((#[trigger] taxes@[i]).0.day())
                    &&& taxes@[i].1 == tax_on(self@[taxes@[i].0.day()], self.rate())
                }
                &&& forall|k: int| #[trigger] self@.contains_key(k) ==> exists|i: int|
                    0 <= i < taxes@.len() && #[trigger] taxes@[i].0.day() == k
                &&& forall|i: int, j: int| 0 <= i < j < taxes@.len() ==> (#[trigger] taxes@[i]).0.day()
                    != (#[trigger] taxes@[j]).0.day()
            },
    {
        let mut taxes: Vec<(Date, i64)> = Vec::new();
        let mut years: Vec<i32> = Vec::new();
        let mut i: usize = 0;
        while i < self.profit.len()
            invariant
                self.wf(),
                i <= self.profit@.len(),
                taxes@.len() == i,
                years@.len() == i,
                forall|j: int| 0 <= j < i ==> (#[trigger] years@[j]) as int == year_of(self.profit@[j].0.day()),
                forall|j: int, l: int| 0 <= j < l < i ==> (#[trigger] years@[j]) != (#[trigger] years@[l]),
                forall|j: int| 0 <= j < i ==> {
                    &&& (#[trigger] taxes@[j]).0 == self.profit@[j].0
                    &&& taxes@[j].1 as int == tax_on(self.profit@[j].1 as int, self.rate())
                },
            decreases self.profit@.len() - i,
        {
            let (date, profit) = self.profit[i];
            let year = date.year();
            proof {
                lemma_one_year(date.day(), year as int, year_of(date.day()));
            }
            let mut j: usize = 0;
            while j < i
                invariant
                    self.wf(),
                    i < self.profit@.len(),
                    years@.len() == i,
                    j <= i,
                    year as int == year_of(self.profit@[i as int].0.day()),
                    date == self.profit@[i as int].0,
                    forall|l: int| 0 <= l < i ==> (#[trigger] years@[l]) as int == year_of(self.profit@[l].0.day()),
                    forall|l: int| 0 <= l < j ==> (#[trigger] years@[l]) != year,
                decreases i - j,
            {
                if years[j] == year {
                    proof {
                        let pa = self.profit@[j as int];
                        let pb = self.profit@[i as int];
                        let a = pa.0.day();
                        let b = pb.0.day();
                        assert(self@.contains_key(a) && self@.contains_key(b) && a != b);
                        assert(year_of(a) == year_of(b));
                        assert(shares_year(self@));
                    }
                    return Err(Error::Violation(Violation::DuplicateTaxYear(year)));
                }
                j = j + 1;
            }
            let tax = self.country.tax_to_pay(profit);
            taxes.push((date, tax));
            years.push(year);
            i = i + 1;
        }
        assert forall|x: int| 0 <= x < taxes@.len() implies {
            &&& self@.contains_key((#[trigger] taxes@[x]).0.day())
            &&& taxes@[x].1 == tax_on(self@[taxes@[x].0.day()], self.rate())
        } by {
            let p = self.profit@[x];
            assert(taxes@[x].0 == p.0);
        }
        assert forall|q: int| #[trigger] self@.contains_key(q) implies exists|x: int|
            0 <= x < taxes@.len() && #[trigger] taxes@[x].0.day() == q by {
            let x = choose|x: int| 0 <= x < self.profit@.len() && #[trigger] self.profit@[x].0.day() == q;
            assert(taxes@[x].0 == self.profit@[x].0);
        }
        assert forall|x: int, y: int| 0 <= x < y < taxes@.len() implies (#[trigger] taxes@[x]).0.day()
            != (#[trigger] taxes@[y]).0.day() by {
            assert(taxes@[x].0 == self.profit@[x].0);
            assert(taxes@[y].0 == self.profit@[y].0);
        }
        assert(!shares_year(self@)) by {
            assert forall|a: int, b: int| self@.contains_key(a) && self@.contains_key(b) && a != b
                implies year_of(a) != year_of(b) by {
                let ia = choose|x: int| 0 <= x < self.profit@.len() && #[trigger] self.profit@[x].0.day() == a;
                let ib = choose|x: int| 0 <= x < self.profit@.len() && #[trigger] self.profit@[x].0.day() == b;
                if ia < ib {
                    assert(years@[ia] != years@[ib]);
                } else {
                    assert(years@[ib] != years@[ia]);
                }
            }
        }
        let r: Result<Vec<(Date, i64)>, Error> = Ok(taxes);
        assert(r matches Ok(taxes) && forall|x: int| 0 <= x < taxes@.len() ==> {
            &&& self@.contains_key((#[trigger] taxes@[x]).0.day())
            &&& taxes@[x].1 == tax_on(self@[taxes@[x].0.day()], self.rate())
        });
        r
    }
}

} // verus!
