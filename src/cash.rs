//! Amounts of money in a currency.

use vstd::prelude::*;

verus! {

/// An amount of money, in millionths of a unit of `currency`.
#[derive(Clone, Debug, PartialEq, Eq)]
pub struct Cash {
    pub currency: String,
    pub amount: i64,
}

/// An amount in millionths rounded to whole cents, halves away from zero.
pub open spec fn round_to_cents(x: int) -> int {
    if x >= 0 {
        ((x + 5000) / 10000) * 10000
    } else {
        -(((-x + 5000) / 10000) * 10000)
    }
}

impl Cash {
    pub fn new(currency: &str, amount: i64) -> (r: Cash)
        ensures
            r.currency@ == currency@,
            r.amount == amount,
    {
        Cash { currency: currency.to_string(), amount }
    }

    pub fn copy(&self) -> (r: Cash)
        ensures
            r == *self,
    {
        Cash { currency: self.currency.clone(), amount: self.amount }
    }
}

/// Rounds an amount to whole cents, halves away from zero.
pub fn round(x: i128) -> (r: i128)
    requires
        -0x1_0000_0000_0000_0000_0000_0000_0000 <= x <= 0x1_0000_0000_0000_0000_0000_0000_0000,
    ensures
        r == round_to_cents(x as int),
{
    if x >= 0 {
        ((x + 5000) / 10000) * 10000
    } else {
        -(((-x + 5000) / 10000) * 10000)
    }
}

/// Rounding to cents moves an amount by half a cent at most.
pub proof fn lemma_round_close(x: int)
    ensures
        x - 5000 <= round_to_cents(x) <= x + 5000,
        x >= 0 ==> round_to_cents(x) >= 0,
{
    if x >= 0 {
        let q = (x + 5000) / 10000;
        assert(q * 10000 <= x + 5000 < q * 10000 + 10000) by (nonlinear_arith)
            requires
                q == (x + 5000) / 10000,
                x >= 0,
        ;
    } else {
        let q = (-x + 5000) / 10000;
        assert(q * 10000 <= -x + 5000 < q * 10000 + 10000) by (nonlinear_arith)
            requires
                q == (-x + 5000) / 10000,
                x < 0,
        ;
    }
}

} // verus!
