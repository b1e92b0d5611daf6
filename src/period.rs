//! Periods of whole days.

use crate::date::{date_text, Date, MAX_DAY, MIN_DAY};
use crate::error::Error;
use vstd::prelude::*;
use vstd::string::StringExecFns;

verus! {

/// The days from `first` to `last`, both included.
#[derive(Debug, PartialEq, Eq, PartialOrd, Ord, Clone, Copy)]
pub struct Period {
    first: Date,
    last: Date,
}

impl Period {
    pub closed spec fn first_spec(self) -> Date {
        self.first
    }

    pub closed spec fn last_spec(self) -> Date {
        self.last
    }

    #[verifier::type_invariant]
    spec fn inv(self) -> bool {
        self.first.day() <= self.last.day()
    }

    /// The first day is not after the last one.
    pub open spec fn wf(self) -> bool {
        self.first_spec().day() <= self.last_spec().day()
    }

    /// The period from `first` to `last`; it fails where `first` is after `last`.
    pub fn new(first: Date, last: Date) -> (r: Result<Period, Error>)
        ensures
            match r {
                Ok(p) => first.day() <= last.day() && p.wf() && p.first_spec() == first && p.last_spec() == last,
                Err(e) => {
                    &&& first.day() > last.day()
                    &&& e matches Error::InvalidPeriod(text) && text@ == date_text(first.day()) + " - "@
                        + date_text(last.day())
                },
            },
    {
        if last.is_before(&first) {
            let mut text = first.format();
            text.append(" - ");
            let last_text = last.format();
            text.append(last_text.as_str());
            return Err(Error::InvalidPeriod(text));
        }
        Ok(Period { first, last })
    }

    /// The day before the period.
    pub fn prev_date(&self) -> (r: Date)
        requires
            self.first_spec().day() > MIN_DAY,
        ensures
            r.day() == self.first_spec().day() - 1,
    {
        self.first.pred()
    }

    pub fn first_date(&self) -> (r: Date)
        ensures
            r == self.first_spec(),
            self.wf(),
    {
        proof { use_type_invariant(self); }
        self.first
    }

    pub fn last_date(&self) -> (r: Date)
        ensures
            r == self.last_spec(),
            self.wf(),
    {
        proof { use_type_invariant(self); }
        self.last
    }

    /// The day after the period.
    pub fn next_date(&self) -> (r: Date)
        requires
            self.last_spec().day() < MAX_DAY,
        ensures
            r.day() == self.last_spec().day() + 1,
    {
        self.last.succ()
    }

    pub fn contains(&self, date: Date) -> (r: bool)
        ensures
            r == (self.first_spec().day() <= date.day() <= self.last_spec().day()),
    {
        !date.is_before(&self.first) && !self.last.is_before(&date)
    }

    /// The number of days in the period.
    pub fn days(&self) -> (r: i64)
        ensures
            r == self.last_spec().day() - self.first_spec().day() + 1,
            r >= 1,
    {
        proof { use_type_invariant(self); }
        let first = self.first.days_from_ce() as i64;
        let last = self.last.days_from_ce() as i64;
        last - first + 1
    }

    /// The period as its first and last dates with a dash between.
    pub fn format(&self) -> (r: String)
        ensures
            r@ == date_text(self.first_spec().day()) + " - "@ + date_text(self.last_spec().day()),
    {
        let mut text = self.first.format();
        text.append(" - ");
        let last = self.last.format();
        text.append(last.as_str());
        text
    }
}

} // verus!
