use vstd::prelude::*;

use crate::accounts::{amount_of, sum, Accounts, Entries};
use crate::amount::Amount;

verus! {

pub open spec fn is_leap_year(year: int) -> bool {
    (year % 4 == 0 && year % 100 != 0) || year % 400 == 0
}

pub open spec fn days_in_month(year: int, month: int) -> int {
    if month == 2 {
        if is_leap_year(year) { 29 } else { 28 }
    } else if month == 4 || month == 6 || month == 9 || month == 11 {
        30
    } else {
        31
    }
}

/// A calendar day. Fields in this order make the derived order chronological.
#[derive(Clone, Copy, Debug, PartialEq, Eq, Structural, PartialOrd, Ord, Hash)]
pub struct Date {
    pub year: i32,
    pub month: u8,
    pub day: u8,
}

impl Date {
    /// The month lies in 1..=12 and the day within that month.
    pub open spec fn valid(&self) -> bool {
        1 <= self.month <= 12 && 1 <= self.day <= days_in_month(self.year as int, self.month as int)
    }

    /// Days compare by year, then month, then day.
    pub open spec fn before_or_at(&self, other: &Date) -> bool {
        self.year < other.year || (self.year == other.year && (self.month < other.month || (
        self.month == other.month && self.day <= other.day)))
    }

    /// The day `year`-`month`-`day`, or `None` where there is no such day.
    pub fn from_calendar_date(year: i32, month: u8, day: u8) -> (r: Option<Date>)
        ensures
            r matches Some(d) ==> d.year == year && d.month == month && d.day == day,
            r is Some <==> (Date { year, month, day }).valid(),
    {
        if month < 1 || month > 12 || day < 1 {
            return None;
        }
        let leap = (year % 4 == 0 && year % 100 != 0) || year % 400 == 0;
        let last: u8 = if month == 2 {
            if leap { 29 } else { 28 }
        } else if month == 4 || month == 6 || month == 9 || month == 11 {
            30
        } else {
            31
        };
        if day > last {
            None
        } else {
            Some(Date { year, month, day })
        }
    }

    /// Whether `self` is the same day as `other` or an earlier one.
    pub fn is_before_or_at(&self, other: &Date) -> (r: bool)
        ensures
            r == self.before_or_at(other),
    {
        self.year < other.year || (self.year == other.year && (self.month < other.month || (
        self.month == other.month && self.day <= other.day)))
    }
}

/// The model of a transaction: date, description, total, budget breakdown.
pub type Record = (Date, Seq<char>, int, Entries);

/// One dated financial event.
#[derive(Clone, Debug)]
pub struct Transaction {
    /// The date the transaction occurred
    pub date: Date,
    /// Description of the transaction
    pub description: String,
    /// The total amount of the transaction
    pub amount: Amount,
    /// How the total amount is split over budgets
    pub budgets: Accounts,
}

impl View for Transaction {
    type V = Record;

    open spec fn view(&self) -> Record {
        (self.date, self.description@, self.amount@, self.budgets@)
    }
}

impl Transaction {
    /// The budget breakdown adds up to the total amount.
    pub open spec fn balanced(&self) -> bool {
        sum(self.budgets@) == self.amount@
    }
}

/// The amount held under `name`, summed over all transactions.
pub open spec fn account_total_of(txs: Seq<Record>, name: Seq<char>) -> int
    decreases txs.len(),
{
    if txs.len() == 0 {
        0
    } else {
        account_total_of(txs.drop_last(), name) + amount_of(txs.last().3, name)
    }
}

/// The sum of all transaction totals.
pub open spec fn total_of(txs: Seq<Record>) -> int
    decreases txs.len(),
{
    if txs.len() == 0 {
        0
    } else {
        total_of(txs.drop_last()) + txs.last().2
    }
}

/// Replacing one transaction's breakdown changes the aggregate of a name by
/// the change of that name's entry there.
pub proof fn lemma_account_total_update(txs: Seq<Record>, i: int, rec: Record, name: Seq<char>)
    requires
        0 <= i < txs.len(),
    ensures
        account_total_of(txs.update(i, rec), name) == account_total_of(txs, name) - amount_of(
            txs[i].3,
            name,
        ) + amount_of(rec.3, name),
    decreases txs.len(),
{
    let t = txs.update(i, rec);
    if i == txs.len() - 1 {
        assert(t.drop_last() =~= txs.drop_last());
    } else {
        assert(t.drop_last() =~= txs.drop_last().update(i, rec));
        lemma_account_total_update(txs.drop_last(), i, rec, name);
    }
}

/// `after` holds the records of `before`, record `k` of `after` being record
/// `perm[k]` of `before`, and records of the same date keep their order.
pub open spec fn stable_reordering(before: Seq<Record>, after: Seq<Record>, perm: Seq<int>) -> bool {
    &&& after.len() == before.len()
    &&& perm.len() == before.len()
    &&& forall|k: int| 0 <= k < after.len() ==> 0 <= #[trigger] perm[k] < before.len() && after[k] == before[perm[k]]
    &&& forall|k: int, l: int| 0 <= k < l < after.len() ==> #[trigger] perm[k] != #[trigger] perm[l]
    &&& forall|k: int, l: int|
        0 <= k < l < after.len() && (#[trigger] after[k]).0 == (#[trigger] after[l]).0 ==> perm[k] < perm[l]
}

/// Dates do not decrease along `s`.
pub open spec fn sorted_by_date(s: Seq<Record>) -> bool {
    forall|k: int, l: int| 0 <= k < l < s.len() ==> (#[trigger] s[k]).0.before_or_at(&(#[trigger] s[l]).0)
}

/// A collection of transactions, oldest first.
#[derive(Clone, Debug)]
pub struct Transactions(Vec<Transaction>);

impl View for Transactions {
    type V = Seq<Record>;

    closed spec fn view(&self) -> Seq<Record> {
        self.0@.map_values(|t: Transaction| t@)
    }
}

impl Transactions {
    /// Every breakdown has unique names.
    pub open spec fn wf(&self) -> bool {
        forall|i: int| 0 <= i < self@.len() ==> crate::accounts::unique_names(#[trigger] self@[i].3)
    }

    /// Each transaction's breakdown adds up to its total.
    pub open spec fn balanced(&self) -> bool {
        forall|i: int| 0 <= i < self@.len() ==> sum(#[trigger] self@[i].3) == self@[i].2
    }

    /// Dates do not decrease.
    pub open spec fn chronological(&self) -> bool {
        forall|i: int, j: int| 0 <= i < j < self@.len() ==> #[trigger] self@[i].0.before_or_at(&self@[j].0)
    }

    pub closed spec fn items(&self) -> Seq<Transaction> {
        self.0@
    }

    pub proof fn lemma_items(&self)
        ensures
            self.items().len() == self@.len(),
            forall|i: int| 0 <= i < self@.len() ==> #[trigger] self.items()[i]@ == self@[i],
    {
    }

    /// Every entry of every breakdown is a 64-bit count of minor units, so a
    /// name's aggregate is bounded by the number of transactions.
    pub proof fn lemma_account_total_bound(&self, name: Seq<char>)
        ensures
            -0x8000_0000_0000_0000 * self@.len() <= account_total_of(self@, name)
                <= 0x7fff_ffff_ffff_ffff * self@.len(),
    {
        self.lemma_prefix_bound(name, self@.len() as int);
        assert(self@.subrange(0, self@.len() as int) =~= self@);
    }

    proof fn lemma_prefix_bound(&self, name: Seq<char>, n: int)
        requires
            0 <= n <= self@.len(),
        ensures
            -0x8000_0000_0000_0000 * n <= account_total_of(self@.subrange(0, n), name)
                <= 0x7fff_ffff_ffff_ffff * n,
        decreases n,
    {
        if n > 0 {
            self.lemma_prefix_bound(name, n - 1);
            assert(self@.subrange(0, n).drop_last() =~= self@.subrange(0, n - 1));
            self.0@[n - 1].budgets.lemma_in_range();
        }
    }

    pub fn new(transactions: Vec<Transaction>) -> (r: Transactions)
        ensures
            r.items() == transactions@,
            r@ == transactions@.map_values(|t: Transaction| t@),
    {
        Transactions(transactions)
    }

    /// The number of transactions.
    pub fn len(&self) -> (r: usize)
        ensures
            r == self@.len(),
    {
        self.0.len()
    }

    /// The transaction at `i`.
    pub fn get(&self, i: usize) -> (r: &Transaction)
        requires
            i < self@.len(),
        ensures
            r@ == self@[i as int],
    {
        &self.0[i]
    }

    /// The transactions, handed back.
    pub fn into_vec(self) -> (r: Vec<Transaction>)
        ensures
            r@ == self.items(),
    {
        self.0
    }

    /// Moves `amount` from `from` to `to` within the breakdown of the
    /// transaction at `i`.
    pub(crate) fn transfer_at(&mut self, i: usize, amount: Amount, from: &str, to: &str)
        requires
            old(self).wf(),
            i < old(self)@.len(),
            crate::accounts::has_name(old(self)@[i as int].3, from@),
            i64::MIN <= amount_of(old(self)@[i as int].3, from@) - amount@ <= i64::MAX,
            i64::MIN <= amount_of(crate::accounts::credit(old(self)@[i as int].3, from@, -amount@), to@)
                + amount@ <= i64::MAX,
        ensures
            final(self).wf(),
            final(self)@ == old(self)@.update(
                i as int,
                (
                    old(self)@[i as int].0,
                    old(self)@[i as int].1,
                    old(self)@[i as int].2,
                    crate::accounts::moved(old(self)@[i as int].3, amount@, from@, to@),
                ),
            ),
    {
        assert(old(self).0@[i as int].budgets.wf());
        self.0[i].budgets.transfer(amount, from, to);
        proof {
            crate::accounts::lemma_moved(old(self)@[i as int].3, amount@, from@, to@);
        }
        assert(self@ =~= old(self)@.update(
            i as int,
            (
                old(self)@[i as int].0,
                old(self)@[i as int].1,
                old(self)@[i as int].2,
                crate::accounts::moved(old(self)@[i as int].3, amount@, from@, to@),
            ),
        ));
    }

    /// Sorts the transactions by date, oldest first; transactions of the same
    /// date keep their order.
    pub fn sort_by_date(&mut self)
        requires
            old(self).wf(),
        ensures
            final(self).wf(),
            sorted_by_date(final(self)@),
            exists|perm: Seq<int>| stable_reordering(old(self)@, final(self)@, perm),
    {
        let ghost before = self@;
        let mut rest: Vec<Transaction> = Vec::new();
        std::mem::swap(&mut rest, &mut self.0);
        let ghost orig = rest@;
        let n = rest.len();
        assert forall|k: int| 0 <= k < n implies crate::accounts::unique_names(#[trigger] orig[k].budgets@) by {
            assert(before[k] == orig[k]@);
            assert(crate::accounts::unique_names(before[k].3));
        }
        let mut sorted: Vec<Transaction> = Vec::new();
        let ghost mut perm: Seq<int> = Seq::empty();
        let mut i: usize = 0;
        while i < n
            invariant
                n == orig.len(),
                before == orig.map_values(|t: Transaction| t@),
                forall|k: int| 0 <= k < n ==> crate::accounts::unique_names(#[trigger] orig[k].budgets@),
                i <= n,
                rest@ == orig.subrange(i as int, n as int),
                sorted@.len() == i,
                perm.len() == i,
                forall|k: int| 0 <= k < i ==> 0 <= #[trigger] perm[k] < i && sorted@[k] == orig[perm[k]],
                forall|k: int, l: int| 0 <= k < l < i ==> #[trigger] perm[k] != #[trigger] perm[l],
                forall|k: int, l: int|
                    0 <= k < l < i && (#[trigger] sorted@[k]).date == (#[trigger] sorted@[l]).date ==> perm[k] < perm[l],
                forall|k: int, l: int| 0 <= k < l < i ==> (#[trigger] sorted@[k]).date.before_or_at(&(#[trigger] sorted@[l]).date),
            decreases n - i,
        {
            assert(orig[i as int] == rest@[0]);
            let x = rest.remove(0);
            let mut j: usize = sorted.len();
            while j > 0 && !sorted[j - 1].date.is_before_or_at(&x.date)
                invariant
                    j <= sorted@.len(),
                    forall|k: int| j <= k < sorted@.len() ==> !(#[trigger] sorted@[k]).date.before_or_at(&x.date),
                decreases j,
            {
                j = j - 1;
            }
            proof {
                assert forall|k: int| 0 <= k < j implies (#[trigger] sorted@[k]).date.before_or_at(&x.date) by {
                    assert(sorted@[j - 1].date.before_or_at(&x.date));
                    if k < j - 1 {
                        assert(sorted@[k].date.before_or_at(&sorted@[j - 1].date));
                    }
                }
            }
            let ghost old_sorted = sorted@;
            let ghost old_perm = perm;
            sorted.insert(j, x);
            proof {
                perm = perm.insert(j as int, i as int);
                assert forall|k: int| 0 <= k < i + 1 implies 0 <= #[trigger] perm[k] < i + 1 && sorted@[k] == orig[perm[k]] by {
                    if k < j {
                        assert(perm[k] == old_perm[k]);
                    } else if k > j {
                        assert(perm[k] == old_perm[k - 1]);
                    }
                }
                assert forall|k: int, l: int| 0 <= k < l < i + 1 implies #[trigger] perm[k] != #[trigger] perm[l] by {
                    if k != j && l != j {
                        let k0 = if k < j { k } else { k - 1 };
                        let l0 = if l < j { l } else { l - 1 };
                        assert(old_perm[k0] != old_perm[l0]);
                    } else if k == j {
                        let l0 = l - 1;
                        assert(old_perm[l0] < i);
                    } else {
                        assert(old_perm[k] < i);
                    }
                }
                assert forall|k: int, l: int|
                    0 <= k < l < i + 1 && (#[trigger] sorted@[k]).date == (#[trigger] sorted@[l]).date implies perm[k] < perm[l] by {
                    if k != j && l != j {
                        let k0 = if k < j { k } else { k - 1 };
                        let l0 = if l < j { l } else { l - 1 };
                        assert(old_sorted[k0] == sorted@[k]);
                        assert(old_sorted[l0] == sorted@[l]);
                    } else if k == j {
                        assert(old_sorted[l - 1] == sorted@[l]);
                        assert(!old_sorted[l - 1].date.before_or_at(&x.date));
                    } else {
                        assert(old_perm[k] < i);
                    }
                }
                assert forall|k: int, l: int| 0 <= k < l < i + 1 implies (#[trigger] sorted@[k]).date.before_or_at(&(#[trigger] sorted@[l]).date) by {
                    if k != j && l != j {
                        let k0 = if k < j { k } else { k - 1 };
                        let l0 = if l < j { l } else { l - 1 };
                        assert(old_sorted[k0] == sorted@[k]);
                        assert(old_sorted[l0] == sorted@[l]);
                        assert(old_sorted[k0].date.before_or_at(&old_sorted[l0].date));
                    } else if k == j {
                        assert(old_sorted[l - 1] == sorted@[l]);
                        assert(!old_sorted[l - 1].date.before_or_at(&x.date));
                    } else {
                        assert(old_sorted[k] == sorted@[k]);
                    }
                }
            }
            assert(rest@ =~= orig.subrange(i + 1, n as int));
            i = i + 1;
        }
        self.0 = sorted;
        proof {
            assert(stable_reordering(before, self@, perm));
            assert forall|k: int| 0 <= k < self@.len() implies crate::accounts::unique_names(#[trigger] self@[k].3) by {
                assert(self@[k] == orig[perm[k]]@);
            }
        }
    }

    /// Whether every breakdown has unique names.
    pub fn is_well_formed(&self) -> (r: bool)
        ensures
            r == self.wf(),
    {
        let n = self.0.len();
        let mut i: usize = 0;
        while i < n
            invariant
                n == self@.len(),
                i <= n,
                forall|k: int| 0 <= k < i ==> crate::accounts::unique_names(#[trigger] self@[k].3),
            decreases n - i,
        {
            if !self.0[i].budgets.has_unique_names() {
                assert(!crate::accounts::unique_names(self@[i as int].3));
                return false;
            }
            i = i + 1;
        }
        true
    }

    /// The sum of all transaction totals, or `None` where it does not fit an
    /// amount.
    pub fn checked_total(&self) -> (r: Option<Amount>)
        ensures
            r is Some <==> i64::MIN <= total_of(self@) <= i64::MAX,
            r matches Some(a) ==> a@ == total_of(self@),
    {
        let mut acc: i128 = 0;
        let mut i: usize = 0;
        let n = self.0.len();
        while i < n
            invariant
                n == self@.len(),
                i <= n,
                acc == total_of(self@.subrange(0, i as int)),
                -0x8000_0000_0000_0000 * i <= acc <= 0x7fff_ffff_ffff_ffff * i,
            decreases n - i,
        {
            assert(self@.subrange(0, i + 1).drop_last() =~= self@.subrange(0, i as int));
            acc = acc + self.0[i].amount.0 as i128;
            i = i + 1;
        }
        assert(self@.subrange(0, i as int) =~= self@);
        if acc < i64::MIN as i128 || acc > i64::MAX as i128 {
            None
        } else {
            Some(Amount(acc as i64))
        }
    }

    /// The sum of all transaction totals.
    pub fn total(&self) -> (r: Amount)
        requires
            i64::MIN <= total_of(self@) <= i64::MAX,
        ensures
            r@ == total_of(self@),
    {
        let mut acc: i128 = 0;
        let mut i: usize = 0;
        let n = self.0.len();
        while i < n
            invariant
                n == self@.len(),
                i <= n,
                acc == total_of(self@.subrange(0, i as int)),
                -0x8000_0000_0000_0000 * i <= acc <= 0x7fff_ffff_ffff_ffff * i,
            decreases n - i,
        {
            assert(self@.subrange(0, i + 1).drop_last() =~= self@.subrange(0, i as int));
            acc = acc + self.0[i].amount.0 as i128;
            i = i + 1;
        }
        assert(self@.subrange(0, i as int) =~= self@);
        Amount(acc as i64)
    }

    /// The amount held under `name`, summed over all transactions, as a
    /// wide integer that cannot overflow.
    pub(crate) fn account_total_wide(&self, name: &str) -> (r: i128)
        requires
            self.wf(),
        ensures
            r == account_total_of(self@, name@),
    {
        let mut acc: i128 = 0;
        let mut i: usize = 0;
        let n = self.0.len();
        while i < n
            invariant
                self.wf(),
                n == self@.len(),
                i <= n,
                acc == account_total_of(self@.subrange(0, i as int), name@),
            decreases n - i,
        {
            proof {
                self.lemma_prefix_bound(name@, i + 1);
            }
            assert(self@.subrange(0, i + 1).drop_last() =~= self@.subrange(0, i as int));
            assert(self.0@[i as int].budgets.wf());
            match self.0[i].budgets.amount_for(name) {
                Some(a) => {
                    acc = acc + a.0 as i128;
                },
                None => {},
            }
            i = i + 1;
        }
        assert(self@.subrange(0, i as int) =~= self@);
        acc
    }

    /// The amount held under `name`, summed over all transactions; absent
    /// entries count as zero.
    pub fn account_total(&self, name: &str) -> (r: Amount)
        requires
            self.wf(),
            i64::MIN <= account_total_of(self@, name@) <= i64::MAX,
        ensures
            r@ == account_total_of(self@, name@),
    {
        Amount(self.account_total_wide(name) as i64)
    }
}

impl From<Vec<Transaction>> for Transactions {
    fn from(inner: Vec<Transaction>) -> (r: Transactions) {
        Transactions(inner)
    }
}

impl vstd::std_specs::convert::FromSpecImpl<Vec<Transaction>> for Transactions {
    open spec fn obeys_from_spec() -> bool {
        true
    }

    closed spec fn from_spec(inner: Vec<Transaction>) -> Transactions {
        Transactions(inner)
    }
}

} // verus!
