//! Dividend accruals: issuer symbols read from dividend descriptions, and a
//! ledger that nets payments against reversals per payment date and issuer.

use crate::cash::Cash;
use crate::date::Date;
use crate::error::Error;
use vstd::prelude::*;
use vstd::string::StringExecFns;
use vstd::string::StrSliceExecFns;

verus! {

pub open spec fn is_upper(c: char) -> bool {
    ('A' as u32) <= (c as u32) <= ('Z' as u32)
}

pub open spec fn is_digit(c: char) -> bool {
    ('0' as u32) <= (c as u32) <= ('9' as u32)
}

pub open spec fn is_alnum(c: char) -> bool {
    is_upper(c) || is_digit(c)
}

/// A ticker root: a capital letter followed by capital letters and digits.
pub open spec fn is_symbol_root(s: Seq<char>) -> bool {
    s.len() >= 1 && is_upper(s[0]) && forall|i: int| 0 <= i < s.len() ==> is_alnum(#[trigger] s[i])
}

pub open spec fn all_upper(s: Seq<char>) -> bool {
    forall|i: int| 0 <= i < s.len() ==> is_upper(#[trigger] s[i])
}

/// Whether `s` splits at `j` into a root, a dot or a space, and a class suffix.
pub open spec fn is_symbol_split(s: Seq<char>, j: int) -> bool {
    &&& 1 <= j < s.len() - 1
    &&& is_symbol_root(s.subrange(0, j))
    &&& (s[j] == '.' || s[j] == ' ')
    &&& all_upper(s.subrange(j + 1, s.len() as int))
}

/// A stock symbol: a root, optionally followed by a dot or a space and a class suffix.
pub open spec fn is_symbol(s: Seq<char>) -> bool {
    is_symbol_root(s) || exists|j: int| is_symbol_split(s, j)
}

/// An ISIN: two capital letters, nine capital letters or digits, and a check digit.
pub open spec fn is_isin(s: Seq<char>) -> bool {
    &&& s.len() == 12
    &&& is_upper(s[0]) && is_upper(s[1])
    &&& forall|i: int| 2 <= i < 11 ==> is_alnum(#[trigger] s[i])
    &&& is_digit(s[11])
}

/// A symbol as the ledger keys it: the space before a class suffix becomes a hyphen.
pub open spec fn normalize_symbol(s: Seq<char>) -> Seq<char> {
    Seq::new(s.len(), |i: int| if s[i] == ' ' { '-' } else { s[i] })
}

/// Whether `p` is the position of the first opening parenthesis of `s`.
pub open spec fn first_paren(s: Seq<char>, p: int) -> bool {
    0 <= p < s.len() && s[p] == '(' && forall|i: int| 0 <= i < p ==> s[i] != '('
}

/// The symbol written before the first parenthesis at `p`, without one space before it.
pub open spec fn symbol_before(s: Seq<char>, p: int) -> Seq<char> {
    if p > 0 && s[p - 1] == ' ' {
        s.subrange(0, p - 1)
    } else {
        s.subrange(0, p)
    }
}

/// Whether `s` reads `<symbol>[ ](<ISIN>) ...` with its first parenthesis at `p`.
pub open spec fn description_matches_at(s: Seq<char>, p: int) -> bool {
    &&& first_paren(s, p)
    &&& is_symbol(symbol_before(s, p))
    &&& p + 15 <= s.len()
    &&& is_isin(s.subrange(p + 1, p + 13))
    &&& s[p + 13] == ')'
    &&& s[p + 14] == ' '
}

/// The issuer that a dividend description names, if it has the expected shape.
pub open spec fn description_issuer(s: Seq<char>) -> Option<Seq<char>> {
    if exists|p: int| description_matches_at(s, p) {
        let p = choose|p: int| description_matches_at(s, p);
        Some(normalize_symbol(symbol_before(s, p)))
    } else {
        None
    }
}

fn chars_of(s: &str) -> (v: Vec<char>)
    ensures
        v@ == s@,
{
    let n = s.unicode_len();
    let mut v: Vec<char> = Vec::new();
    let mut i: usize = 0;
    while i < n
        invariant
            n == s@.len(),
            i <= n,
            v@ == s@.subrange(0, i as int),
        decreases n - i,
    {
        v.push(s.get_char(i));
        i = i + 1;
    }
    assert(v@ =~= s@);
    v
}

fn is_upper_char(c: char) -> (r: bool)
    ensures
        r == is_upper(c),
{
    ('A' as u32) <= (c as u32) && (c as u32) <= ('Z' as u32)
}

fn is_digit_char(c: char) -> (r: bool)
    ensures
        r == is_digit(c),
{
    ('0' as u32) <= (c as u32) && (c as u32) <= ('9' as u32)
}

/// Whether `v[from..to]` holds only capital letters.
fn upper_between(v: &Vec<char>, from: usize, to: usize) -> (r: bool)
    requires
        from <= to <= v@.len(),
    ensures
        r == all_upper(v@.subrange(from as int, to as int)),
{
    let mut i = from;
    while i < to
        invariant
            from <= i <= to <= v@.len(),
            all_upper(v@.subrange(from as int, i as int)),
        decreases to - i,
    {
        if !is_upper_char(v[i]) {
            assert(v@.subrange(from as int, to as int)[i - from] == v@[i as int]);
            return false;
        }
        assert forall|k: int| 0 <= k < i + 1 - from implies is_upper(
            #[trigger] v@.subrange(from as int, i + 1)[k],
        ) by {
            if k < i - from {
                assert(v@.subrange(from as int, i + 1)[k] == v@.subrange(from as int, i as int)[k]);
            }
        }
        i = i + 1;
    }
    true
}

/// The first position in `v[0..end]` that holds neither a capital letter nor a digit, or `end`.
fn first_non_alnum(v: &Vec<char>, end: usize) -> (j: usize)
    requires
        end <= v@.len(),
    ensures
        j <= end,
        forall|i: int| 0 <= i < j ==> is_alnum(#[trigger] v@[i]),
        j < end ==> !is_alnum(v@[j as int]),
{
    let mut j: usize = 0;
    while j < end
        invariant
            j <= end <= v@.len(),
            forall|i: int| 0 <= i < j ==> is_alnum(#[trigger] v@[i]),
        decreases end - j,
    {
        let c = v[j];
        if !(is_upper_char(c) || is_digit_char(c)) {
            return j;
        }
        j = j + 1;
    }
    j
}

/// Whether `v[0..end]` is a stock symbol.
fn symbol_ends_at(v: &Vec<char>, end: usize) -> (r: bool)
    requires
        end <= v@.len(),
    ensures
        r == is_symbol(v@.subrange(0, end as int)),
{
    let ghost s = v@.subrange(0, end as int);
    if end == 0 || !is_upper_char(v[0]) {
        assert(!is_symbol_root(s));
        assert forall|j: int| !is_symbol_split(s, j) by {
            if is_symbol_split(s, j) {
                assert(s.subrange(0, j)[0] == s[0]);
            }
        }
        return false;
    }
    let j = first_non_alnum(v, end);
    if j == end {
        assert forall|i: int| 0 <= i < s.len() implies is_alnum(#[trigger] s[i]) by {
            assert(s[i] == v@[i]);
        }
        return true;
    }
    assert forall|k: int| #![auto] j < k && is_symbol_split(s, k) implies false by {
        assert(s.subrange(0, k)[j as int] == v@[j as int]);
    }
    assert forall|k: int| #![auto] k < j && is_symbol_split(s, k) implies false by {
        assert(s[k] == v@[k]);
    }
    assert(!is_symbol_root(s)) by {
        assert(s[j as int] == v@[j as int]);
    }
    let c = v[j];
    if j >= 1 && j + 1 < end && (c == '.' || c == ' ') && upper_between(v, j + 1, end) {
        let ghost w = j as int;
        assert(s.subrange(w + 1, s.len() as int) =~= v@.subrange(w + 1, end as int));
        assert forall|i: int| 0 <= i < w implies is_alnum(#[trigger] s.subrange(0, w)[i]) by {
            assert(s.subrange(0, w)[i] == v@[i]);
        }
        assert(s.subrange(0, w)[0] == v@[0]);
        assert(is_symbol_split(s, w));
        true
    } else {
        assert forall|k: int| #![auto] k == j && is_symbol_split(s, k) implies false by {
            assert(s.subrange(k + 1, s.len() as int) =~= v@.subrange(k + 1, end as int));
        }
        false
    }
}

/// Whether `v[start..start + 12]` is an ISIN.
fn isin_at(v: &Vec<char>, start: usize) -> (r: bool)
    requires
        start + 12 <= v@.len(),
    ensures
        r == is_isin(v@.subrange(start as int, start + 12)),
{
    let ghost s = v@.subrange(start as int, start + 12);
    let n = v.len();
    assert(start + 12 <= n);
    if !is_upper_char(v[start]) || !is_upper_char(v[start + 1]) || !is_digit_char(v[start + 11]) {
        return false;
    }
    let mut i: usize = 2;
    while i < 11
        invariant
            2 <= i <= 11,
            start + 12 <= n == v@.len(),
            s == v@.subrange(start as int, start + 12),
            forall|k: int| 2 <= k < i ==> is_alnum(#[trigger] s[k]),
        decreases 11 - i,
    {
        let c = v[start + i];
        assert(s[i as int] == c);
        if !(is_upper_char(c) || is_digit_char(c)) {
            return false;
        }
        i = i + 1;
    }
    true
}

/// Reads the issuer symbol from a dividend description of the shape
/// `<SYMBOL>[ ](<ISIN>) <rest>`; a space before a class suffix becomes a hyphen
/// (`RDS B` gives `RDS-B`).
pub fn parse_dividend_description(description: &str) -> (r: Result<String, Error>)
    ensures
        match description_issuer(description@) {
            Some(issuer) => r matches Ok(s) && s@ == issuer,
            None => r matches Err(Error::UnexpectedDividendDescription(text)) && text@
                == description@,
        },
{
    let v = chars_of(description);
    let n = v.len();
    let ghost s = v@;
    let mut p: usize = 0;
    while p < n && v[p] != '('
        invariant
            p <= n == s.len(),
            s == v@,
            forall|i: int| 0 <= i < p ==> s[i] != '(',
        decreases n - p,
    {
        p = p + 1;
    }
    assert forall|q: int| description_matches_at(s, q) implies q == p by {
        if q < p {
        } else if p < q {
            assert(s[p as int] != '(');
        }
    }
    if p == n {
        return Err(Error::UnexpectedDividendDescription(String::from_str(description)));
    }
    let end = if p > 0 && v[p - 1] == ' ' { p - 1 } else { p };
    assert(symbol_before(s, p as int) =~= s.subrange(0, end as int));
    let matched = symbol_ends_at(&v, end) && n >= 15 && p <= n - 15 && isin_at(&v, p + 1) && v[p + 13] == ')'
        && v[p + 14] == ' ';
    if !matched {
        return Err(Error::UnexpectedDividendDescription(String::from_str(description)));
    }
    assert(description_matches_at(s, p as int));
    let ghost sym = s.subrange(0, end as int);
    let mut j: usize = 0;
    while j < end && v[j] != ' '
        invariant
            j <= end <= n == s.len(),
            s == v@,
            forall|i: int| 0 <= i < j ==> s[i] != ' ',
        decreases end - j,
    {
        j = j + 1;
    }
    if j == end {
        let issuer = String::from_str(description.substring_char(0, end));
        assert(issuer@ =~= normalize_symbol(sym));
        Ok(issuer)
    } else {
        // the space is the separator before the class suffix, the only space of the symbol
        assert(!is_symbol_root(sym)) by {
            assert(sym[j as int] == s[j as int]);
        }
        let ghost k = choose|k: int| is_symbol_split(sym, k);
        assert(k == j) by {
            if k < j {
                assert(sym.subrange(k + 1, end as int)[j - k - 1] == s[j as int]);
            } else if j < k {
                assert(sym.subrange(0, k)[j as int] == s[j as int]);
            }
        }
        assert forall|i: int| j < i < end implies s[i] != ' ' by {
            assert(sym.subrange(k + 1, end as int)[i - k - 1] == s[i]);
        }
        let mut issuer = String::from_str(description.substring_char(0, j));
        issuer.append("-");
        issuer.append(description.substring_char(j + 1, end));
        proof { reveal_strlit("-"); }
        assert(issuer@ =~= normalize_symbol(sym));
        Ok(issuer)
    }
}

/// The ledger's key of a dividend: its payment day number and its issuer.
pub type DividendKey = (int, Seq<char>);

/// Net accrual of a dividend: its currency and its signed amount.
pub type Accrual = (Seq<char>, int);

/// The net amount recorded for `k` so far, zero where nothing is.
pub open spec fn net_of(m: Map<DividendKey, Accrual>, k: DividendKey) -> int {
    if m.contains_key(k) { m[k].1 } else { 0 }
}

/// Whether a contribution of `amount` in `currency` to `k` is accepted.
pub open spec fn accepts(m: Map<DividendKey, Accrual>, k: DividendKey, currency: Seq<char>, amount: int) -> bool {
    amount != 0 && (!m.contains_key(k) || m[k].0 == currency)
}

/// The ledger after a contribution: a positive amount adds to the accrual, a
/// negative one reverses part of it; a refused contribution changes nothing.
pub open spec fn record_spec(
    m: Map<DividendKey, Accrual>,
    k: DividendKey,
    currency: Seq<char>,
    amount: int,
) -> Map<DividendKey, Accrual> {
    if accepts(m, k, currency, amount) {
        m.insert(k, (currency, net_of(m, k) + amount))
    } else {
        m
    }
}

/// The ledger after contributions `s` to one dividend, in order.
pub open spec fn record_all(
    m: Map<DividendKey, Accrual>,
    k: DividendKey,
    currency: Seq<char>,
    s: Seq<int>,
) -> Map<DividendKey, Accrual>
    decreases s.len(),
{
    if s.len() == 0 {
        m
    } else {
        record_spec(record_all(m, k, currency, s.drop_last()), k, currency, s.last())
    }
}

pub open spec fn sum_of(s: Seq<int>) -> int
    decreases s.len(),
{
    if s.len() == 0 { 0 } else { sum_of(s.drop_last()) + s.last() }
}

/// Contributions to a dividend in its own currency add up: the net amount is
/// what it was before plus the sum of the contributions.
pub proof fn lemma_netting_sums(m: Map<DividendKey, Accrual>, k: DividendKey, currency: Seq<char>, s: Seq<int>)
    requires
        !m.contains_key(k) || m[k].0 == currency,
    ensures
        net_of(record_all(m, k, currency, s), k) == net_of(m, k) + sum_of(s),
        record_all(m, k, currency, s).contains_key(k) ==> record_all(m, k, currency, s)[k].0 == currency,
    decreases s.len(),
{
    if s.len() > 0 {
        lemma_netting_sums(m, k, currency, s.drop_last());
    }
}

proof fn lemma_sum_remove(s: Seq<int>, i: int)
    requires
        0 <= i < s.len(),
    ensures
        sum_of(s) == sum_of(s.remove(i)) + s[i],
    decreases s.len(),
{
    if i < s.len() - 1 {
        lemma_sum_remove(s.drop_last(), i);
        assert(s.remove(i).drop_last() =~= s.drop_last().remove(i));
    } else {
        assert(s.remove(i) =~= s.drop_last());
    }
}

proof fn lemma_sum_permutation(s1: Seq<int>, s2: Seq<int>)
    requires
        s1.to_multiset() == s2.to_multiset(),
    ensures
        sum_of(s1) == sum_of(s2),
    decreases s1.len(),
{
    broadcast use vstd::seq_lib::group_to_multiset_ensures;
    if s1.len() == 0 {
        assert(s2.to_multiset().len() == 0);
    } else {
        let x = s1.last();
        assert(s1.to_multiset().count(x) > 0) by {
            assert(s1[s1.len() - 1] == x);
        }
        assert(s2.contains(x));
        let i = choose|i: int| 0 <= i < s2.len() && s2[i] == x;
        vstd::seq_lib::to_multiset_remove(s2, i);
        vstd::seq_lib::to_multiset_remove(s1, s1.len() - 1);
        assert(s1.remove(s1.len() - 1) =~= s1.drop_last());
        lemma_sum_permutation(s1.drop_last(), s2.remove(i));
        lemma_sum_remove(s2, i);
    }
}

/// Dividend netting does not depend on order: contributions in one currency
/// that form the same multiset leave the same net amount.
pub proof fn lemma_netting_order_independent(
    m: Map<DividendKey, Accrual>,
    k: DividendKey,
    currency: Seq<char>,
    s1: Seq<int>,
    s2: Seq<int>,
)
    requires
        !m.contains_key(k) || m[k].0 == currency,
        s1.to_multiset() == s2.to_multiset(),
    ensures
        net_of(record_all(m, k, currency, s1), k) == net_of(record_all(m, k, currency, s2), k),
{
    lemma_netting_sums(m, k, currency, s1);
    lemma_netting_sums(m, k, currency, s2);
    lemma_sum_permutation(s1, s2);
}

/// A payment followed by its full reversal leaves the net amount where it was:
/// at zero for a dividend recorded for the first time.
pub proof fn lemma_full_reversal(m: Map<DividendKey, Accrual>, k: DividendKey, currency: Seq<char>, x: int)
    requires
        x != 0,
        !m.contains_key(k) || m[k].0 == currency,
    ensures
        record_spec(record_spec(m, k, currency, x), k, currency, -x).contains_key(k),
        net_of(record_spec(record_spec(m, k, currency, x), k, currency, -x), k) == net_of(m, k),
        !m.contains_key(k) ==> record_spec(record_spec(m, k, currency, x), k, currency, -x)[k] == (
        currency, 0int),
{
}

/// The accrued amount of one dividend.
#[derive(Clone, Debug)]
pub struct DividendAccrual {
    pub date: Date,
    pub issuer: String,
    pub amount: Cash,
}

impl DividendAccrual {
    pub open spec fn key(&self) -> DividendKey {
        (self.date.day(), self.issuer@)
    }

    pub open spec fn accrual(&self) -> Accrual {
        (self.amount.currency@, self.amount.amount as int)
    }
}

/// Net dividend accruals, one per payment date and issuer.
pub struct DividendLedger {
    accruals: Vec<DividendAccrual>,
    map: Ghost<Map<DividendKey, Accrual>>,
}

impl View for DividendLedger {
    type V = Map<DividendKey, Accrual>;

    closed spec fn view(&self) -> Map<DividendKey, Accrual> {
        self.map@
    }
}

impl DividendLedger {
    pub closed spec fn wf(&self) -> bool {
        &&& forall|i: int| #![trigger self.accruals@[i]] 0 <= i < self.accruals@.len() ==> {
            &&& self.map@.contains_key(self.accruals@[i].key())
            &&& self.map@[self.accruals@[i].key()] == self.accruals@[i].accrual()
        }
        &&& forall|k: DividendKey| #[trigger] self.map@.contains_key(k) ==> exists|i: int|
            0 <= i < self.accruals@.len() && #[trigger] self.accruals@[i].key() == k
        &&& forall|i: int, j: int|
            0 <= i < j < self.accruals@.len() ==> #[trigger] self.accruals@[i].key()
                != #[trigger] self.accruals@[j].key()
    }

    /// Every net amount of the ledger fits in an `i64`.
    pub proof fn lemma_nets_fit(&self)
        requires
            self.wf(),
        ensures
            forall|k: DividendKey| #[trigger] self@.contains_key(k) ==> i64::MIN <= self@[k].1 <= i64::MAX,
    {
        assert forall|k: DividendKey| #[trigger] self@.contains_key(k) implies i64::MIN <= self@[k].1 <= i64::MAX by {
            let i = choose|i: int| 0 <= i < self.accruals@.len() && #[trigger] self.accruals@[i].key() == k;
            assert(self.map@[self.accruals@[i].key()] == self.accruals@[i].accrual());
        }
    }

    pub fn new() -> (r: DividendLedger)
        ensures
            r.wf(),
            r@ == Map::<DividendKey, Accrual>::empty(),
    {
        DividendLedger { accruals: Vec::new(), map: Ghost(Map::empty()) }
    }

    /// Where the accrual of `date` and `issuer` stands, if there is one.
    fn find(&self, date: &Date, issuer: &String) -> (r: Option<usize>)
        requires
            self.wf(),
        ensures
            match r {
                Some(i) => i < self.accruals@.len() && self.accruals@[i as int].key() == (
                date.day(), issuer@),
                None => !self@.contains_key((date.day(), issuer@)),
            },
    {
        let mut i: usize = 0;
        while i < self.accruals.len()
            invariant
                self.wf(),
                i <= self.accruals@.len(),
                forall|j: int| 0 <= j < i ==> #[trigger] self.accruals@[j].key() != (date.day(), issuer@),
            decreases self.accruals@.len() - i,
        {
            let a = &self.accruals[i];
            if a.date.same_as(date) && a.issuer == *issuer {
                return Some(i);
            }
            i = i + 1;
        }
        None
    }

    /// The net accrual of `date` and `issuer`, if anything was recorded for it.
    pub fn get(&self, date: &Date, issuer: &String) -> (r: Option<Cash>)
        requires
            self.wf(),
        ensures
            match r {
                Some(c) => self@.contains_key((date.day(), issuer@)) && self@[(date.day(), issuer@)]
                    == (c.currency@, c.amount as int),
                None => !self@.contains_key((date.day(), issuer@)),
            },
    {
        match self.find(date, issuer) {
            Some(i) => {
                let a = &self.accruals[i];
                let currency = a.amount.currency.clone();
                Some(Cash { currency, amount: a.amount.amount })
            },
            None => None,
        }
    }

    /// Records a dividend line: a positive amount adds to the accrual of
    /// `date` and `issuer`, a negative one reverses part of it.
    pub fn record(&mut self, date: Date, issuer: &String, amount: &Cash) -> (r: Result<(), Error>)
        requires
            old(self).wf(),
            i64::MIN <= net_of(old(self)@, (date.day(), issuer@)) + amount.amount <= i64::MAX,
        ensures
            final(self).wf(),
            final(self)@ == record_spec(old(self)@, (date.day(), issuer@), amount.currency@, amount.amount as int),
            r.is_ok() == accepts(old(self)@, (date.day(), issuer@), amount.currency@, amount.amount as int),
            amount.amount == 0 ==> r == Err::<(), Error>(Error::ZeroDividend),
            amount.amount != 0 && r.is_err() ==> r == Err::<(), Error>(Error::DividendCurrencyMismatch),
    {
        let ghost k = (date.day(), issuer@);
        if amount.amount == 0 {
            return Err(Error::ZeroDividend);
        }
        match self.find(&date, issuer) {
            Some(i) => {
                assert(self@.contains_key(k));
                if self.accruals[i].amount.currency != amount.currency {
                    return Err(Error::DividendCurrencyMismatch);
                }
                let net = self.accruals[i].amount.amount + amount.amount;
                let currency = amount.currency.clone();
                let updated = DividendAccrual {
                    date,
                    issuer: issuer.clone(),
                    amount: Cash { currency, amount: net },
                };
                let ghost old_accruals = self.accruals@;
                self.accruals.set(i, updated);
                self.map = Ghost(self.map@.insert(k, (amount.currency@, net as int)));
                assert forall|j: int| 0 <= j < self.accruals@.len() && j != i implies #[trigger] self.accruals@[j]
                    == old_accruals[j] by {}
                assert forall|q: DividendKey| #[trigger] self.map@.contains_key(q) implies exists|j: int|
                    0 <= j < self.accruals@.len() && #[trigger] self.accruals@[j].key() == q by {
                    if q != k {
                        let j = choose|j: int| 0 <= j < old_accruals.len() && #[trigger] old_accruals[j].key() == q;
                        assert(self.accruals@[j].key() == q);
                    } else {
                        assert(self.accruals@[i as int].key() == q);
                    }
                }
            },
            None => {
                let currency = amount.currency.clone();
                let added = DividendAccrual {
                    date,
                    issuer: issuer.clone(),
                    amount: Cash { currency, amount: amount.amount },
                };
                let ghost old_accruals = self.accruals@;
                self.accruals.push(added);
                self.map = Ghost(self.map@.insert(k, (amount.currency@, amount.amount as int)));
                assert forall|j: int| 0 <= j < old_accruals.len() implies #[trigger] self.accruals@[j]
                    == old_accruals[j] by {}
                assert forall|q: DividendKey| #[trigger] self.map@.contains_key(q) implies exists|j: int|
                    0 <= j < self.accruals@.len() && #[trigger] self.accruals@[j].key() == q by {
                    if q != k {
                        let j = choose|j: int| 0 <= j < old_accruals.len() && #[trigger] old_accruals[j].key() == q;
                        assert(self.accruals@[j].key() == q);
                    } else {
                        assert(self.accruals@[old_accruals.len() as int].key() == q);
                    }
                }
            },
        }
        assert(self@ =~= record_spec(old(self)@, k, amount.currency@, amount.amount as int));
        Ok(())
    }
}

/// Reads the dividend lines of a statement into the dividend ledger.
pub struct DividendsParser {}

impl DividendsParser {
    /// Dividend sections end with total lines, which are not dividends.
    pub fn skip_totals(&self) -> (r: bool)
        ensures
            r,
    {
        true
    }

    /// Records one dividend line: the payment date, the free-text description
    /// that names the issuer, and the signed amount.
    pub fn parse(&mut self, ledger: &mut DividendLedger, date: Date, description: &str, amount: &Cash) -> (r: Result<(), Error>)
        requires
            old(ledger).wf(),
            forall|issuer: Seq<char>| description_issuer(description@) == Some(issuer) ==>
                i64::MIN <= net_of(old(ledger)@, (date.day(), issuer)) + amount.amount <= i64::MAX,
        ensures
            final(ledger).wf(),
            match description_issuer(description@) {
                None => {
                    &&& final(ledger)@ == old(ledger)@
                    &&& r matches Err(Error::UnexpectedDividendDescription(text)) && text@ == description@
                },
                Some(issuer) => {
                    &&& final(ledger)@ == record_spec(old(ledger)@, (date.day(), issuer), amount.currency@, amount.amount as int)
                    &&& r.is_ok() == accepts(old(ledger)@, (date.day(), issuer), amount.currency@, amount.amount as int)
                    &&& amount.amount == 0 ==> r == Err::<(), Error>(Error::ZeroDividend)
                    &&& amount.amount != 0 && r.is_err() ==> r == Err::<(), Error>(Error::DividendCurrencyMismatch)
                },
            },
    {
        let issuer = parse_dividend_description(description)?;
        ledger.record(date, &issuer, amount)
    }
}

} // verus!
