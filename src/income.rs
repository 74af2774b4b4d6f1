use vstd::prelude::*;

use crate::accounts::{
    amount_of, has_name, lemma_moved, moved, sum, unique_names, Entries,
};
use crate::amount::Amount;
use crate::config::Budgets;
use crate::transactions::{account_total_of, Record, Transactions};

verus! {

/// Whole months of `rate` that `total` covers, rounded down.
pub open spec fn months(total: int, rate: int) -> int {
    total / rate
}

/// What `total` lacks to reach the next whole month of `rate`.
pub open spec fn missing(total: int, rate: int) -> int {
    rate * (months(total, rate) + 1) - total
}

/// Among the first `n` targets, the one with the fewest whole months covered;
/// of several such, the one listed first.
pub open spec fn most_behind(totals: Seq<int>, rates: Seq<int>, n: int) -> int
    decreases n,
{
    if n <= 1 {
        0
    } else {
        let k = most_behind(totals, rates, n - 1);
        if months(totals[n - 1], rates[n - 1]) < months(totals[k], rates[k]) {
            n - 1
        } else {
            k
        }
    }
}

/// What is wrong with target `k`: 1 a rate that is not positive, 2 the
/// unallocated entry's own name, 3 a name listed before, 0 nothing.
pub open spec fn defect(names: Seq<Seq<char>>, rates: Seq<int>, pool: Seq<char>, k: int) -> int {
    if rates[k] <= 0 {
        1
    } else if names[k] == pool {
        2
    } else if exists|j: int| 0 <= j < k && #[trigger] names[j] == names[k] {
        3
    } else {
        0
    }
}

/// The first of the first `n` targets with a defect, or -1.
pub open spec fn first_defect(names: Seq<Seq<char>>, rates: Seq<int>, pool: Seq<char>, n: int) -> int
    decreases n,
{
    if n <= 0 {
        -1
    } else {
        let p = first_defect(names, rates, pool, n - 1);
        if p >= 0 {
            p
        } else if defect(names, rates, pool, n - 1) != 0 {
            n - 1
        } else {
            -1
        }
    }
}

/// Rates are positive, names distinct and none is the unallocated entry.
pub open spec fn valid_targets(names: Seq<Seq<char>>, rates: Seq<int>, pool: Seq<char>) -> bool {
    &&& names.len() == rates.len()
    &&& forall|k: int| 0 <= k < rates.len() ==> #[trigger] rates[k] > 0
    &&& forall|k: int| 0 <= k < names.len() ==> #[trigger] names[k] != pool
    &&& forall|j: int, k: int|
        0 <= j < names.len() && 0 <= k < names.len() && #[trigger] names[j] == #[trigger] names[k]
            ==> j == k
}

/// The unallocated amount of a breakdown where it is positive, else zero.
pub open spec fn fuel_of(b: Entries, pool: Seq<char>) -> nat {
    if has_name(b, pool) && amount_of(b, pool) > 0 {
        amount_of(b, pool) as nat
    } else {
        0
    }
}

/// Distributes the unallocated entry of one breakdown, one transfer at a
/// time, given the running totals of the targets. `None` where an entry
/// would leave the 64-bit range. `fuel` bounds the number of transfers.
pub open spec fn settle(
    fuel: nat,
    b: Entries,
    totals: Seq<int>,
    pool: Seq<char>,
    names: Seq<Seq<char>>,
    rates: Seq<int>,
) -> Option<(Entries, Seq<int>)>
    decreases fuel,
{
    if fuel == 0 || !has_name(b, pool) || amount_of(b, pool) <= 0 {
        Some((b, totals))
    } else {
        let k = most_behind(totals, rates, names.len() as int);
        let u = amount_of(b, pool);
        let m = missing(totals[k], rates[k]);
        let amt = if m <= u { m } else { u };
        if amount_of(b, names[k]) + amt > i64::MAX {
            None
        } else {
            settle(
                (fuel - 1) as nat,
                moved(b, amt, pool, names[k]),
                totals.update(k, totals[k] + amt),
                pool,
                names,
                rates,
            )
        }
    }
}

/// The running totals at the start: each target's aggregate over all
/// transactions.
pub open spec fn initial_totals(txs: Seq<Record>, names: Seq<Seq<char>>) -> Seq<int> {
    Seq::new(names.len(), |k: int| account_total_of(txs, names[k]))
}

/// The sequence and the running totals after the first `n` transactions
/// have been settled, oldest first.
pub open spec fn run(
    txs: Seq<Record>,
    n: nat,
    pool: Seq<char>,
    names: Seq<Seq<char>>,
    rates: Seq<int>,
) -> Option<(Seq<Record>, Seq<int>)>
    decreases n,
{
    if n == 0 {
        Some((txs, initial_totals(txs, names)))
    } else {
        match run(txs, (n - 1) as nat, pool, names, rates) {
            None => None,
            Some(p) => {
                let cur = p.0;
                let i = n - 1;
                if i < cur.len() {
                    match settle(fuel_of(cur[i].3, pool), cur[i].3, p.1, pool, names, rates) {
                        None => None,
                        Some(q) => Some((cur.update(i, (cur[i].0, cur[i].1, cur[i].2, q.0)), q.1)),
                    }
                } else {
                    Some(p)
                }
            },
        }
    }
}

/// The transactions after allocation; `None` where an entry would leave the
/// 64-bit range. With no targets nothing changes.
pub open spec fn allocation(txs: Seq<Record>, config: Budgets) -> Option<Seq<Record>> {
    if config.names().len() == 0 {
        Some(txs)
    } else {
        match run(txs, txs.len(), config.unallocated@, config.names(), config.rates()) {
            Some(p) => Some(p.0),
            None => None,
        }
    }
}

/// Of targets equally far behind, the one listed first is filled first: the
/// chosen target covers no more months than any other, and strictly fewer
/// than every target listed before it.
pub proof fn lemma_most_behind(totals: Seq<int>, rates: Seq<int>, n: int)
    requires
        1 <= n,
    ensures
        0 <= most_behind(totals, rates, n) < n,
        forall|j: int|
            0 <= j < n ==> months(totals[most_behind(totals, rates, n)], rates[most_behind(totals, rates, n)])
                <= #[trigger] months(totals[j], rates[j]),
        forall|j: int|
            0 <= j < most_behind(totals, rates, n) ==> #[trigger] months(totals[j], rates[j])
                > months(totals[most_behind(totals, rates, n)], rates[most_behind(totals, rates, n)]),
    decreases n,
{
    if n > 1 {
        lemma_most_behind(totals, rates, n - 1);
    }
}

pub proof fn lemma_first_defect(names: Seq<Seq<char>>, rates: Seq<int>, pool: Seq<char>, n: int)
    requires
        0 <= n <= names.len(),
        names.len() == rates.len(),
    ensures
        first_defect(names, rates, pool, n) < 0 ==> forall|k: int|
            0 <= k < n ==> #[trigger] defect(names, rates, pool, k) == 0,
        first_defect(names, rates, pool, n) >= 0 ==> {
            let p = first_defect(names, rates, pool, n);
            &&& 0 <= p < n
            &&& defect(names, rates, pool, p) != 0
            &&& forall|k: int| 0 <= k < p ==> #[trigger] defect(names, rates, pool, k) == 0
        },
    decreases n,
{
    if n > 0 {
        lemma_first_defect(names, rates, pool, n - 1);
    }
}

/// A configuration without defects has valid targets.
pub proof fn lemma_valid(names: Seq<Seq<char>>, rates: Seq<int>, pool: Seq<char>)
    requires
        names.len() == rates.len(),
        first_defect(names, rates, pool, names.len() as int) < 0,
    ensures
        valid_targets(names, rates, pool),
{
    lemma_first_defect(names, rates, pool, names.len() as int);
    assert forall|k: int| 0 <= k < rates.len() implies #[trigger] rates[k] > 0 by {
        assert(defect(names, rates, pool, k) == 0);
    }
    assert forall|k: int| 0 <= k < names.len() implies #[trigger] names[k] != pool by {
        assert(defect(names, rates, pool, k) == 0);
    }
    assert forall|j: int, k: int|
        0 <= j < names.len() && 0 <= k < names.len() && #[trigger] names[j] == #[trigger] names[k]
        implies j == k by {
        assert(defect(names, rates, pool, j) == 0);
        assert(defect(names, rates, pool, k) == 0);
        if j < k {
            assert(names[j] == names[k]);
        }
        if k < j {
            assert(names[k] == names[j]);
        }
    }
}

/// The missing amount is positive and at most one month's rate.
pub proof fn lemma_missing(total: int, rate: int)
    requires
        rate > 0,
    ensures
        0 < missing(total, rate) <= rate,
        missing(total, rate) == rate - total % rate,
{
    vstd::arithmetic::div_mod::lemma_fundamental_div_mod(total, rate);
    assert(rate * (total / rate + 1) == rate * (total / rate) + rate) by (nonlinear_arith);
}

/// Once an entry would leave the 64-bit range, later prefixes fail too.
pub proof fn lemma_run_none(
    txs: Seq<Record>,
    a: nat,
    b: nat,
    pool: Seq<char>,
    names: Seq<Seq<char>>,
    rates: Seq<int>,
)
    requires
        a <= b,
        run(txs, a, pool, names, rates) is None,
    ensures
        run(txs, b, pool, names, rates) is None,
    decreases b - a,
{
    if a < b {
        lemma_run_none(txs, a, (b - 1) as nat, pool, names, rates);
    }
}

/// Allocation drains a positive unallocated entry to exactly zero and leaves
/// any other breakdown as it was.
pub open spec fn drained(before: Entries, after: Entries, pool: Seq<char>) -> bool {
    if has_name(before, pool) && amount_of(before, pool) > 0 {
        has_name(after, pool) && amount_of(after, pool) == 0
    } else {
        after == before
    }
}

proof fn lemma_settle(
    fuel: nat,
    b: Entries,
    totals: Seq<int>,
    pool: Seq<char>,
    names: Seq<Seq<char>>,
    rates: Seq<int>,
)
    requires
        unique_names(b),
        valid_targets(names, rates, pool),
        names.len() >= 1,
        totals.len() == names.len(),
        has_name(b, pool) && amount_of(b, pool) > 0 ==> amount_of(b, pool) <= fuel,
    ensures
        settle(fuel, b, totals, pool, names, rates) matches Some(q) ==> {
            &&& unique_names(q.0)
            &&& sum(q.0) == sum(b)
            &&& q.1.len() == totals.len()
            &&& drained(b, q.0, pool)
        },
    decreases fuel,
{
    if fuel == 0 || !has_name(b, pool) || amount_of(b, pool) <= 0 {
    } else {
        let k = most_behind(totals, rates, names.len() as int);
        lemma_most_behind(totals, rates, names.len() as int);
        lemma_missing(totals[k], rates[k]);
        let u = amount_of(b, pool);
        let m = missing(totals[k], rates[k]);
        let amt = if m <= u { m } else { u };
        if amount_of(b, names[k]) + amt <= i64::MAX {
            assert(names[k] != pool);
            lemma_moved(b, amt, pool, names[k]);
            lemma_settle(
                (fuel - 1) as nat,
                moved(b, amt, pool, names[k]),
                totals.update(k, totals[k] + amt),
                pool,
                names,
                rates,
            );
        }
    }
}

proof fn lemma_settle_conserves(
    fuel: nat,
    b: Entries,
    totals: Seq<int>,
    pool: Seq<char>,
    names: Seq<Seq<char>>,
    rates: Seq<int>,
)
    requires
        unique_names(b),
    ensures
        settle(fuel, b, totals, pool, names, rates) matches Some(q) ==> unique_names(q.0) && sum(q.0) == sum(b),
    decreases fuel,
{
    if fuel == 0 || !has_name(b, pool) || amount_of(b, pool) <= 0 {
    } else {
        let k = most_behind(totals, rates, names.len() as int);
        let u = amount_of(b, pool);
        let m = missing(totals[k], rates[k]);
        let amt = if m <= u { m } else { u };
        if amount_of(b, names[k]) + amt <= i64::MAX {
            lemma_moved(b, amt, pool, names[k]);
            lemma_settle_conserves(
                (fuel - 1) as nat,
                moved(b, amt, pool, names[k]),
                totals.update(k, totals[k] + amt),
                pool,
                names,
                rates,
            );
        }
    }
}

proof fn lemma_run_conserves(txs: Seq<Record>, n: nat, pool: Seq<char>, names: Seq<Seq<char>>, rates: Seq<int>)
    requires
        forall|i: int| 0 <= i < txs.len() ==> unique_names(#[trigger] txs[i].3),
        n <= txs.len(),
    ensures
        run(txs, n, pool, names, rates) matches Some(p) ==> {
            &&& p.0.len() == txs.len()
            &&& forall|i: int|
                0 <= i < txs.len() ==> {
                    &&& (#[trigger] p.0[i]).0 == txs[i].0
                    &&& p.0[i].1 == txs[i].1
                    &&& p.0[i].2 == txs[i].2
                    &&& unique_names(p.0[i].3)
                    &&& sum(p.0[i].3) == sum(txs[i].3)
                }
        },
    decreases n,
{
    if n > 0 {
        lemma_run_conserves(txs, (n - 1) as nat, pool, names, rates);
        match run(txs, (n - 1) as nat, pool, names, rates) {
            None => {},
            Some(p) => {
                let i = n - 1;
                lemma_settle_conserves(fuel_of(p.0[i].3, pool), p.0[i].3, p.1, pool, names, rates);
            },
        }
    }
}

proof fn lemma_run(txs: Seq<Record>, n: nat, pool: Seq<char>, names: Seq<Seq<char>>, rates: Seq<int>)
    requires
        forall|i: int| 0 <= i < txs.len() ==> unique_names(#[trigger] txs[i].3),
        valid_targets(names, rates, pool),
        names.len() >= 1,
        n <= txs.len(),
    ensures
        run(txs, n, pool, names, rates) matches Some(p) ==> {
            &&& p.0.len() == txs.len()
            &&& p.1.len() == names.len()
            &&& forall|i: int|
                0 <= i < txs.len() ==> {
                    &&& (#[trigger] p.0[i]).0 == txs[i].0
                    &&& p.0[i].1 == txs[i].1
                    &&& p.0[i].2 == txs[i].2
                    &&& unique_names(p.0[i].3)
                    &&& sum(p.0[i].3) == sum(txs[i].3)
                }
            &&& forall|i: int| 0 <= i < n ==> drained(txs[i].3, (#[trigger] p.0[i]).3, pool)
            &&& forall|i: int| n <= i < txs.len() ==> #[trigger] p.0[i] == txs[i]
        },
    decreases n,
{
    if n > 0 {
        lemma_run(txs, (n - 1) as nat, pool, names, rates);
        match run(txs, (n - 1) as nat, pool, names, rates) {
            None => {},
            Some(p) => {
                let i = n - 1;
                let cur = p.0;
                lemma_settle(fuel_of(cur[i].3, pool), cur[i].3, p.1, pool, names, rates);
            },
        }
    }
}

/// Transfers never change a breakdown's sum: after allocation every
/// transaction keeps its date, description and total, and its breakdown adds
/// up to what it added up to before.
pub proof fn lemma_conservation(txs: Seq<Record>, config: Budgets)
    requires
        forall|i: int| 0 <= i < txs.len() ==> unique_names(#[trigger] txs[i].3),
    ensures
        allocation(txs, config) matches Some(t) ==> {
            &&& t.len() == txs.len()
            &&& forall|i: int|
                0 <= i < txs.len() ==> {
                    &&& (#[trigger] t[i]).0 == txs[i].0
                    &&& t[i].1 == txs[i].1
                    &&& t[i].2 == txs[i].2
                    &&& sum(t[i].3) == sum(txs[i].3)
                }
        },
{
    if config.names().len() > 0 {
        lemma_run_conserves(txs, txs.len(), config.unallocated@, config.names(), config.rates());
    }
}

/// With at least one target, every transaction whose unallocated entry is
/// positive ends with that entry at exactly zero; every other transaction is
/// left as it was.
pub proof fn lemma_progress(txs: Seq<Record>, config: Budgets)
    requires
        forall|i: int| 0 <= i < txs.len() ==> unique_names(#[trigger] txs[i].3),
        first_defect(config.names(), config.rates(), config.unallocated@, config.names().len() as int) < 0,
        config.names().len() >= 1,
    ensures
        allocation(txs, config) matches Some(t) ==> {
            &&& t.len() == txs.len()
            &&& forall|i: int| 0 <= i < txs.len() ==> drained(txs[i].3, (#[trigger] t[i]).3, config.unallocated@)
        },
{
    lemma_valid(config.names(), config.rates(), config.unallocated@);
    lemma_run(txs, txs.len(), config.unallocated@, config.names(), config.rates());
}

proof fn lemma_run_settled(txs: Seq<Record>, n: nat, pool: Seq<char>, names: Seq<Seq<char>>, rates: Seq<int>)
    requires
        n <= txs.len(),
        forall|i: int| 0 <= i < txs.len() ==> !(has_name(#[trigger] txs[i].3, pool) && amount_of(txs[i].3, pool) > 0),
    ensures
        run(txs, n, pool, names, rates) == Some((txs, initial_totals(txs, names))),
    decreases n,
{
    if n > 0 {
        lemma_run_settled(txs, (n - 1) as nat, pool, names, rates);
        let i = n - 1;
        assert(!(has_name(txs[i as int].3, pool) && amount_of(txs[i as int].3, pool) > 0));
        assert(txs.update(i as int, (txs[i as int].0, txs[i as int].1, txs[i as int].2, txs[i as int].3)) =~= txs);
    }
}

/// Running the engine a second time with the same configuration moves
/// nothing more.
pub proof fn lemma_idempotent(txs: Seq<Record>, config: Budgets)
    requires
        forall|i: int| 0 <= i < txs.len() ==> unique_names(#[trigger] txs[i].3),
        first_defect(config.names(), config.rates(), config.unallocated@, config.names().len() as int) < 0,
    ensures
        allocation(txs, config) matches Some(t) ==> allocation(t, config) == Some(t),
{
    let pool = config.unallocated@;
    if config.names().len() > 0 {
        lemma_progress(txs, config);
        match allocation(txs, config) {
            None => {},
            Some(t) => {
                assert forall|i: int| 0 <= i < t.len() implies !(has_name(#[trigger] t[i].3, pool) && amount_of(t[i].3, pool) > 0) by {
                    assert(drained(txs[i].3, t[i].3, pool));
                }
                lemma_run_settled(t, t.len(), pool, config.names(), config.rates());
            },
        }
    }
}

/// Of two targets that cover the same number of whole months, the one listed
/// later is never chosen.
pub proof fn lemma_tie_break(totals: Seq<int>, rates: Seq<int>, n: int, a: int, b: int)
    requires
        0 <= a < b < n,
        months(totals[a], rates[a]) == months(totals[b], rates[b]),
    ensures
        most_behind(totals, rates, n) != b,
{
    lemma_most_behind(totals, rates, n);
}

/// With no targets, allocation leaves every transaction as it is.
pub proof fn lemma_no_targets(txs: Seq<Record>, config: Budgets)
    requires
        config.targets@.len() == 0,
    ensures
        allocation(txs, config) == Some(txs),
{
}

/// Why an allocation run was refused or stopped.
#[derive(Clone, Debug)]
pub enum AllocationError {
    /// A target whose monthly rate is zero or negative.
    NonPositiveRate(String),
    /// A target named like the unallocated entry.
    UnallocatedTarget(String),
    /// A target listed twice.
    DuplicateTarget(String),
    /// An entry would leave the range of a 64-bit amount.
    Overflow,
}

/// `e` reports a defect of kind `kind` (see `defect`) on the target `name`.
pub open spec fn reports(e: AllocationError, kind: int, name: Seq<char>) -> bool {
    match e {
        AllocationError::NonPositiveRate(n) => kind == 1 && n@ == name,
        AllocationError::UnallocatedTarget(n) => kind == 2 && n@ == name,
        AllocationError::DuplicateTarget(n) => kind == 3 && n@ == name,
        AllocationError::Overflow => false,
    }
}

/// Checks the targets in order and reports the first defect found.
pub fn check_config(config: &Budgets) -> (r: Result<(), AllocationError>)
    ensures
        ({
            let p = first_defect(config.names(), config.rates(), config.unallocated@, config.names().len() as int);
            &&& p < 0 <==> r is Ok
            &&& r matches Err(e) ==> 0 <= p && reports(e, defect(config.names(), config.rates(), config.unallocated@, p), config.names()[p])
        }),
{
    let ghost names = config.names();
    let ghost rates = config.rates();
    let ghost pool = config.unallocated@;
    let n = config.targets.len();
    let mut k: usize = 0;
    while k < n
        invariant
            n == config.targets@.len(),
            names == config.names(),
            rates == config.rates(),
            pool == config.unallocated@,
            k <= n,
            first_defect(names, rates, pool, k as int) < 0,
        decreases n - k,
    {
        let target = &config.targets[k];
        proof {
            lemma_first_defect(names, rates, pool, k as int);
        }
        if target.monthly <= 0 {
            proof {
                lemma_first_defect_after(names, rates, pool, k as int + 1, n as int);
            }
            return Err(AllocationError::NonPositiveRate(target.name.clone()));
        }
        if target.name == config.unallocated {
            proof {
                lemma_first_defect_after(names, rates, pool, k as int + 1, n as int);
            }
            return Err(AllocationError::UnallocatedTarget(target.name.clone()));
        }
        let mut j: usize = 0;
        while j < k
            invariant
                k < n,
                n == config.targets@.len(),
                names == config.names(),
                rates == config.rates(),
                pool == config.unallocated@,
                first_defect(names, rates, pool, k as int) < 0,
                target.monthly > 0,
                target.name@ != pool,
                *target == config.targets@[k as int],
                j <= k,
                forall|i: int| 0 <= i < j ==> #[trigger] names[i] != names[k as int],
            decreases k - j,
        {
            if config.targets[j].name == target.name {
                assert(names[j as int] == names[k as int]);
                assert(rates[k as int] > 0);
                assert(names[k as int] != pool);
                assert(defect(names, rates, pool, k as int) == 3);
                assert(first_defect(names, rates, pool, k as int + 1) == k);
                proof {
                    lemma_first_defect_after(names, rates, pool, k as int + 1, n as int);
                }
                return Err(AllocationError::DuplicateTarget(target.name.clone()));
            }
            j = j + 1;
        }
        assert(defect(names, rates, pool, k as int) == 0);
        k = k + 1;
    }
    Ok(())
}

/// Once a defect is found, it stays the first.
proof fn lemma_first_defect_after(names: Seq<Seq<char>>, rates: Seq<int>, pool: Seq<char>, a: int, b: int)
    requires
        0 <= a <= b,
        first_defect(names, rates, pool, a) >= 0,
    ensures
        first_defect(names, rates, pool, b) == first_defect(names, rates, pool, a),
    decreases b - a,
{
    if a < b {
        lemma_first_defect_after(names, rates, pool, a, b - 1);
    }
}

/// Whole months of `rate` covered by `total`, rounded down.
fn months_of(total: i128, rate: i64) -> (r: i128)
    requires
        rate > 0,
        total > i128::MIN,
    ensures
        r == months(total as int, rate as int),
{
    let d = rate as u128;
    if total >= 0 {
        let q = (total as u128) / d;
        proof {
            vstd::arithmetic::div_mod::lemma_fundamental_div_mod(total as int, d as int);
        }
        q as i128
    } else {
        let u = (-total - 1) as u128;
        let q = u / d;
        let s = u % d;
        proof {
            vstd::arithmetic::div_mod::lemma_fundamental_div_mod(u as int, d as int);
            assert(total as int == (-(q as int) - 1) * (rate as int) + (rate - 1 - s)) by (nonlinear_arith)
                requires
                    u as int == (d as int) * (q as int) + (s as int),
                    u as int == -(total as int) - 1,
                    d as int == rate as int,
            ;
            vstd::arithmetic::div_mod::lemma_fundamental_div_mod_converse(
                total as int,
                rate as int,
                -(q as int) - 1,
                rate - 1 - s,
            );
        }
        -(q as i128) - 1
    }
}

/// What `total` lacks to reach its next whole month of `rate`.
fn missing_of(total: i128, rate: i64) -> (r: i64)
    requires
        rate > 0,
        total > i128::MIN,
    ensures
        r == missing(total as int, rate as int),
        0 < r <= rate,
{
    proof {
        lemma_missing(total as int, rate as int);
    }
    let d = rate as u128;
    if total >= 0 {
        let s = (total as u128) % d;
        (rate as u128 - s) as i64
    } else {
        let u = (-total - 1) as u128;
        let q = u / d;
        let s = u % d;
        proof {
            vstd::arithmetic::div_mod::lemma_fundamental_div_mod(u as int, d as int);
            assert(total as int == (-(q as int) - 1) * (rate as int) + (rate - 1 - s)) by (nonlinear_arith)
                requires
                    u as int == (d as int) * (q as int) + (s as int),
                    u as int == -(total as int) - 1,
                    d as int == rate as int,
            ;
            vstd::arithmetic::div_mod::lemma_fundamental_div_mod_converse(
                total as int,
                rate as int,
                -(q as int) - 1,
                rate - 1 - s,
            );
        }
        (s + 1) as i64
    }
}

pub open spec fn wide(totals: Seq<i128>) -> Seq<int> {
    totals.map_values(|t: i128| t as int)
}

/// The target that is furthest behind; ties go to the one listed first.
fn pick_target(totals: &Vec<i128>, config: &Budgets) -> (r: usize)
    requires
        totals@.len() == config.targets@.len(),
        totals@.len() >= 1,
        forall|k: int| 0 <= k < config.targets@.len() ==> #[trigger] config.targets@[k].monthly > 0,
        forall|k: int| 0 <= k < totals@.len() ==> #[trigger] totals@[k] > i128::MIN,
    ensures
        r == most_behind(wide(totals@), config.rates(), totals@.len() as int),
        r < totals@.len(),
{
    let n = totals.len();
    let mut best: usize = 0;
    let mut best_months = months_of(totals[0], config.targets[0].monthly);
    let mut k: usize = 1;
    while k < n
        invariant
            n == totals@.len(),
            n == config.targets@.len(),
            1 <= k <= n,
            best < k,
            best == most_behind(wide(totals@), config.rates(), k as int),
            best_months == months(totals@[best as int] as int, config.targets@[best as int].monthly as int),
            forall|k: int| 0 <= k < config.targets@.len() ==> #[trigger] config.targets@[k].monthly > 0,
            forall|k: int| 0 <= k < totals@.len() ==> #[trigger] totals@[k] > i128::MIN,
        decreases n - k,
    {
        let m = months_of(totals[k], config.targets[k].monthly);
        if m < best_months {
            best = k;
            best_months = m;
        }
        k = k + 1;
    }
    best
}

/// Each running total is its target's aggregate over the sequence, which the
/// number of transactions bounds.
proof fn lemma_totals_bound(transactions: &Transactions, names: Seq<Seq<char>>, totals: Seq<i128>)
    requires
        transactions@.len() <= usize::MAX,
        totals.len() == names.len(),
        forall|k: int| 0 <= k < totals.len() ==> #[trigger] totals[k] as int == account_total_of(transactions@, names[k]),
    ensures
        forall|k: int| 0 <= k < totals.len() ==> #[trigger] totals[k] > i128::MIN,
{
    assert forall|k: int| 0 <= k < totals.len() implies #[trigger] totals[k] > i128::MIN by {
        transactions.lemma_account_total_bound(names[k]);
        let n = transactions@.len() as int;
        assert(-0x8000_0000_0000_0000 * n > -0x8000_0000_0000_0000_0000_0000_0000_0000) by (nonlinear_arith)
            requires
                0 <= n <= 0xffff_ffff_ffff_ffff,
        ;
    }
}

/// Moves money out of each transaction's unallocated entry into the target
/// budgets, oldest transaction first, so that every target's running total
/// follows its monthly rate; the target that covers the fewest whole months
/// is served first, and of those the one listed first.
///
/// The configuration is checked before anything moves. With no targets the
/// transactions are left as they are. The sequence is expected to be sorted
/// by date, oldest first: the running totals only make sense in that order.
pub fn allocate(transactions: &mut Transactions, config: Budgets) -> (r: Result<(), AllocationError>)
    requires
        old(transactions).wf(),
    ensures
        final(transactions).wf(),
        ({
            let names = config.names();
            let rates = config.rates();
            let pool = config.unallocated@;
            let p = first_defect(names, rates, pool, names.len() as int);
            &&& p >= 0 ==> final(transactions)@ == old(transactions)@
            &&& p >= 0 ==> (r matches Err(e) && reports(e, defect(names, rates, pool, p), names[p]))
            &&& p < 0 ==> match allocation(old(transactions)@, config) {
                Some(t) => r is Ok && final(transactions)@ == t,
                None => r matches Err(AllocationError::Overflow),
            }
        }),
{
    match check_config(&config) {
        Err(e) => {
            return Err(e);
        },
        Ok(()) => {},
    }
    let ghost names = config.names();
    let ghost rates = config.rates();
    let ghost pool = config.unallocated@;
    proof {
        lemma_valid(names, rates, pool);
    }
    let m = config.targets.len();
    if m == 0 {
        // The rest of this function assumes at least one target.
        return Ok(());
    }
    let n = transactions.len();
    let ghost start = transactions@;

    let mut totals: Vec<i128> = Vec::new();
    let mut k: usize = 0;
    while k < m
        invariant
            transactions@ == start,
            transactions.wf(),
            m == config.targets@.len(),
            names == config.names(),
            k <= m,
            totals@.len() == k,
            forall|j: int| 0 <= j < k ==> #[trigger] totals@[j] as int == account_total_of(start, names[j]),
        decreases m - k,
    {
        let t = transactions.account_total_wide(config.targets[k].name.as_str());
        totals.push(t);
        k = k + 1;
    }
    assert(wide(totals@) =~= initial_totals(start, names));

    let mut i: usize = 0;
    while i < n
        invariant
            transactions.wf(),
            n == start.len(),
            transactions@.len() == n,
            i <= n,
            m == config.targets@.len(),
            m >= 1,
            totals@.len() == m,
            names == config.names(),
            rates == config.rates(),
            pool == config.unallocated@,
            valid_targets(names, rates, pool),
            start == old(transactions)@,
            first_defect(names, rates, pool, names.len() as int) < 0,
            run(start, i as nat, pool, names, rates) == Some((transactions@, wide(totals@))),
            forall|k: int| 0 <= k < m ==> #[trigger] totals@[k] as int == account_total_of(transactions@, names[k]),
        decreases n - i,
    {
        let ghost before = transactions@;
        let ghost tot_before = wide(totals@);
        let ghost b0 = before[i as int].3;
        let ghost f0 = fuel_of(b0, pool);
        let ghost mut f: nat = f0;
        loop
            invariant
                transactions.wf(),
                n == start.len(),
                transactions@.len() == n,
                i < n,
                m == config.targets@.len(),
                m >= 1,
                totals@.len() == m,
                names == config.names(),
                rates == config.rates(),
                pool == config.unallocated@,
                valid_targets(names, rates, pool),
                start == old(transactions)@,
                first_defect(names, rates, pool, names.len() as int) < 0,
                run(start, i as nat, pool, names, rates) == Some((before, tot_before)),
                before.len() == n,
                b0 == before[i as int].3,
                f0 == fuel_of(b0, pool),
                transactions@ == before.update(
                    i as int,
                    (before[i as int].0, before[i as int].1, before[i as int].2, transactions@[i as int].3),
                ),
                settle(f, transactions@[i as int].3, wide(totals@), pool, names, rates) == settle(
                    f0,
                    b0,
                    tot_before,
                    pool,
                    names,
                    rates,
                ),
                has_name(transactions@[i as int].3, pool) && amount_of(transactions@[i as int].3, pool) > 0
                    ==> amount_of(transactions@[i as int].3, pool) <= f,
                forall|k: int| 0 <= k < m ==> #[trigger] totals@[k] as int == account_total_of(transactions@, names[k]),
            ensures
                settle(f0, b0, tot_before, pool, names, rates) == Some((transactions@[i as int].3, wide(totals@))),
            decreases f,
        {
            let ghost b = transactions@[i as int].3;
            let ghost t0 = wide(totals@);
            let u = match transactions.get(i).budgets.amount_for(config.unallocated.as_str()) {
                Some(a) => a.0,
                None => {
                    assert(settle(f, b, t0, pool, names, rates) == Some((b, t0)));
                    break;
                },
            };
            if u <= 0 {
                assert(settle(f, b, t0, pool, names, rates) == Some((b, t0)));
                break;
            }
            proof {
                lemma_totals_bound(transactions, names, totals@);
                assert forall|k: int| 0 <= k < config.targets@.len() implies #[trigger] config.targets@[k].monthly > 0 by {
                    assert(rates[k] > 0);
                }
            }
            let k = pick_target(&totals, &config);
            let rate = config.targets[k].monthly;
            let miss = missing_of(totals[k], rate);
            let amt: i64 = if miss <= u { miss } else { u };
            let to = config.targets[k].name.as_str();
            let current: i64 = match transactions.get(i).budgets.amount_for(to) {
                Some(a) => a.0,
                None => 0,
            };
            assert(current == amount_of(b, names[k as int]));
            assert(t0[k as int] == totals@[k as int] as int);
            if current > i64::MAX - amt {
                assert(settle(f, b, t0, pool, names, rates) is None);
                assert(run(start, (i + 1) as nat, pool, names, rates) is None);
                proof {
                    lemma_run_none(start, (i + 1) as nat, n as nat, pool, names, rates);
                }
                return Err(AllocationError::Overflow);
            }
            proof {
                crate::accounts::lemma_credit(b, pool, -amt);
                transactions.lemma_items();
                transactions.items()[i as int].budgets.lemma_in_range();
            }
            transactions.transfer_at(i, Amount(amt), config.unallocated.as_str(), to);
            let ghost b1 = moved(b, amt as int, pool, names[k as int]);
            proof {
                lemma_moved(b, amt as int, pool, names[k as int]);
                assert forall|j: int| 0 <= j < m implies account_total_of(transactions@, names[j])
                    == account_total_of(before.update(i as int, (before[i as int].0, before[i as int].1, before[i as int].2, b)), names[j])
                        - amount_of(b, names[j]) + amount_of(b1, names[j]) by {
                    crate::transactions::lemma_account_total_update(
                        before.update(i as int, (before[i as int].0, before[i as int].1, before[i as int].2, b)),
                        i as int,
                        (before[i as int].0, before[i as int].1, before[i as int].2, b1),
                        names[j],
                    );
                    assert(transactions@ =~= before.update(i as int, (before[i as int].0, before[i as int].1, before[i as int].2, b)).update(
                        i as int,
                        (before[i as int].0, before[i as int].1, before[i as int].2, b1),
                    ));
                }
                transactions.lemma_account_total_bound(names[k as int]);
                let nn = n as int;
                assert(0x7fff_ffff_ffff_ffff * nn < 0x7fff_ffff_ffff_ffff_ffff_ffff_ffff_ffff) by (nonlinear_arith)
                    requires
                        0 <= nn <= 0xffff_ffff_ffff_ffff,
                ;
            }
            let raised = totals[k] + amt as i128;
            totals.set(k, raised);
            assert(wide(totals@) =~= t0.update(k as int, t0[k as int] + amt));
            assert(transactions@ =~= before.update(
                i as int,
                (before[i as int].0, before[i as int].1, before[i as int].2, transactions@[i as int].3),
            ));
            proof {
                f = (f - 1) as nat;
            }
        }
        assert(run(start, (i + 1) as nat, pool, names, rates) == Some((transactions@, wide(totals@))));
        i = i + 1;
    }
    Ok(())
}

} // verus!
