use vstd::prelude::*;

use crate::amount::Amount;

verus! {

/// The model of a budget breakdown: (name, amount in minor units) pairs in
/// insertion order.
pub type Entries = Seq<(Seq<char>, int)>;

/// No name appears twice.
pub open spec fn unique_names(s: Entries) -> bool {
    forall|i: int, j: int|
        0 <= i < s.len() && 0 <= j < s.len() && #[trigger] s[i].0 == #[trigger] s[j].0 ==> i == j
}

pub open spec fn has_name(s: Entries, name: Seq<char>) -> bool {
    exists|i: int| 0 <= i < s.len() && #[trigger] s[i].0 == name
}

pub open spec fn index_of(s: Entries, name: Seq<char>) -> int {
    choose|i: int| 0 <= i < s.len() && #[trigger] s[i].0 == name
}

/// The amount held under `name`, zero where there is no such entry.
pub open spec fn amount_of(s: Entries, name: Seq<char>) -> int {
    if has_name(s, name) {
        s[index_of(s, name)].1
    } else {
        0
    }
}

/// The sum of all entries.
pub open spec fn sum(s: Entries) -> int
    decreases s.len(),
{
    if s.len() == 0 {
        0
    } else {
        sum(s.drop_last()) + s.last().1
    }
}

/// Sets the entry `name` to `amount`, in place where it exists, else at the end.
pub open spec fn put(s: Entries, name: Seq<char>, amount: int) -> Entries {
    if has_name(s, name) {
        s.update(index_of(s, name), (name, amount))
    } else {
        s.push((name, amount))
    }
}

/// Adds `amount` to the entry `name`, which starts at zero where it is absent.
pub open spec fn credit(s: Entries, name: Seq<char>, amount: int) -> Entries {
    put(s, name, amount_of(s, name) + amount)
}

/// Moves `amount` from the entry `from` to the entry `to`.
pub open spec fn moved(s: Entries, amount: int, from: Seq<char>, to: Seq<char>) -> Entries {
    credit(credit(s, from, -amount), to, amount)
}

pub proof fn lemma_at(s: Entries, name: Seq<char>, i: int)
    requires
        unique_names(s),
        0 <= i < s.len(),
        s[i].0 == name,
    ensures
        has_name(s, name),
        index_of(s, name) == i,
        amount_of(s, name) == s[i].1,
{
    assert(s[i].0 == name);
}

/// Replacing an entry by one of the same name keeps the names unique and
/// changes only that entry's amount.
pub proof fn lemma_put(s: Entries, name: Seq<char>, amount: int)
    requires
        unique_names(s),
    ensures
        unique_names(put(s, name, amount)),
        amount_of(put(s, name, amount), name) == amount,
        forall|other: Seq<char>| other != name ==> #[trigger] amount_of(put(s, name, amount), other) == amount_of(s, other),
        forall|other: Seq<char>| #[trigger] has_name(put(s, name, amount), other) <==> has_name(s, other) || other == name,
        sum(put(s, name, amount)) == sum(s) - amount_of(s, name) + amount,
{
    let t = put(s, name, amount);
    if has_name(s, name) {
        let k = index_of(s, name);
        lemma_sum_update(s, k, (name, amount));
        assert forall|i: int, j: int|
            0 <= i < t.len() && 0 <= j < t.len() && #[trigger] t[i].0 == #[trigger] t[j].0 implies i == j by {
            assert(t[i].0 == s[i].0);
            assert(t[j].0 == s[j].0);
        }
        lemma_at(t, name, k);
        assert forall|other: Seq<char>| other != name implies #[trigger] amount_of(t, other) == amount_of(s, other) by {
            if has_name(s, other) {
                let m = index_of(s, other);
                lemma_at(t, other, m);
            } else {
                assert(!has_name(t, other)) by {
                    if has_name(t, other) {
                        let m = index_of(t, other);
                        assert(s[m].0 == other);
                    }
                }
            }
        }
        assert forall|other: Seq<char>| #[trigger] has_name(t, other) <==> has_name(s, other) || other == name by {
            if has_name(s, other) {
                let m = index_of(s, other);
                assert(t[m].0 == other);
            }
            if has_name(t, other) {
                let m = index_of(t, other);
                assert(s[m].0 == other);
            }
        }
    } else {
        assert(t.drop_last() =~= s);
        assert forall|i: int, j: int|
            0 <= i < t.len() && 0 <= j < t.len() && #[trigger] t[i].0 == #[trigger] t[j].0 implies i == j by {
            if i < s.len() && j == s.len() {
                assert(s[i].0 == name);
            }
            if j < s.len() && i == s.len() {
                assert(s[j].0 == name);
            }
        }
        lemma_at(t, name, s.len() as int);
        assert forall|other: Seq<char>| other != name implies #[trigger] amount_of(t, other) == amount_of(s, other) by {
            if has_name(s, other) {
                let m = index_of(s, other);
                lemma_at(t, other, m);
            } else {
                assert(!has_name(t, other)) by {
                    if has_name(t, other) {
                        let m = index_of(t, other);
                        assert(m < s.len());
                        assert(s[m].0 == other);
                    }
                }
            }
        }
        assert forall|other: Seq<char>| #[trigger] has_name(t, other) <==> has_name(s, other) || other == name by {
            if has_name(s, other) {
                let m = index_of(s, other);
                assert(t[m].0 == other);
            }
            if has_name(t, other) {
                let m = index_of(t, other);
                if m < s.len() {
                    assert(s[m].0 == other);
                }
            }
            if other == name {
                assert(t[s.len() as int].0 == other);
            }
        }
    }
}

pub proof fn lemma_sum_update(s: Entries, k: int, e: (Seq<char>, int))
    requires
        0 <= k < s.len(),
    ensures
        sum(s.update(k, e)) == sum(s) - s[k].1 + e.1,
    decreases s.len(),
{
    let t = s.update(k, e);
    if k == s.len() - 1 {
        assert(t.drop_last() =~= s.drop_last());
    } else {
        assert(t.drop_last() =~= s.drop_last().update(k, e));
        lemma_sum_update(s.drop_last(), k, e);
    }
}

/// Adding to one entry keeps the names unique, changes that entry alone and
/// raises the sum by exactly the amount added.
pub proof fn lemma_credit(s: Entries, name: Seq<char>, amount: int)
    requires
        unique_names(s),
    ensures
        unique_names(credit(s, name, amount)),
        amount_of(credit(s, name, amount), name) == amount_of(s, name) + amount,
        forall|other: Seq<char>| other != name ==> #[trigger] amount_of(credit(s, name, amount), other) == amount_of(s, other),
        forall|other: Seq<char>| #[trigger] has_name(credit(s, name, amount), other) <==> has_name(s, other) || other == name,
        sum(credit(s, name, amount)) == sum(s) + amount,
{
    lemma_put(s, name, amount_of(s, name) + amount);
}

/// A transfer keeps the names unique and the sum unchanged; it lowers `from`
/// and raises `to` by the amount moved, and leaves every other entry alone.
pub proof fn lemma_moved(s: Entries, amount: int, from: Seq<char>, to: Seq<char>)
    requires
        unique_names(s),
    ensures
        unique_names(moved(s, amount, from, to)),
        sum(moved(s, amount, from, to)) == sum(s),
        from != to ==> amount_of(moved(s, amount, from, to), from) == amount_of(s, from) - amount,
        from != to ==> amount_of(moved(s, amount, from, to), to) == amount_of(s, to) + amount,
        forall|other: Seq<char>| other != from && other != to ==> #[trigger] amount_of(moved(s, amount, from, to), other) == amount_of(s, other),
        forall|other: Seq<char>| #[trigger] has_name(moved(s, amount, from, to), other) <==> has_name(s, other) || other == from || other == to,
{
    lemma_credit(s, from, -amount);
    lemma_credit(credit(s, from, -amount), to, amount);
}

/// A mapping from budget or account names to amounts that keeps the order in
/// which names were first inserted.
#[derive(Clone, Debug)]
pub struct Accounts {
    entries: Vec<(String, Amount)>,
}

impl View for Accounts {
    type V = Entries;

    closed spec fn view(&self) -> Entries {
        self.entries@.map_values(|e: (String, Amount)| (e.0@, e.1@))
    }
}

impl Accounts {
    /// Every name appears once.
    pub open spec fn wf(&self) -> bool {
        unique_names(self@)
    }

    /// Every amount is a 64-bit count of minor units.
    pub proof fn lemma_in_range(&self)
        ensures
            forall|i: int| 0 <= i < self@.len() ==> i64::MIN <= #[trigger] self@[i].1 <= i64::MAX,
            forall|name: Seq<char>| i64::MIN <= #[trigger] amount_of(self@, name) <= i64::MAX,
    {
        assert forall|name: Seq<char>| i64::MIN <= #[trigger] amount_of(self@, name) <= i64::MAX by {
            if has_name(self@, name) {
                let k = index_of(self@, name);
                assert(self@[k].1 == self.entries@[k].1@);
            }
        }
    }

    /// An empty mapping.
    pub fn new() -> (r: Accounts)
        ensures
            r@ == Seq::<(Seq<char>, int)>::empty(),
            r.wf(),
    {
        let r = Accounts { entries: Vec::new() };
        assert(r@ =~= Seq::<(Seq<char>, int)>::empty());
        r
    }

    /// The number of entries.
    pub fn len(&self) -> (r: usize)
        ensures
            r == self@.len(),
    {
        self.entries.len()
    }

    /// Where the entry `name` stands, if there is one.
    fn position(&self, name: &String) -> (r: Option<usize>)
        requires
            self.wf(),
        ensures
            r is None <==> !has_name(self@, name@),
            r matches Some(i) ==> i == index_of(self@, name@) && i < self@.len(),
    {
        let mut i: usize = 0;
        while i < self.entries.len()
            invariant
                self.wf(),
                i <= self.entries@.len(),
                forall|j: int| 0 <= j < i ==> #[trigger] self@[j].0 != name@,
            decreases self.entries@.len() - i,
        {
            if self.entries[i].0 == *name {
                proof {
                    lemma_at(self@, name@, i as int);
                }
                return Some(i);
            }
            i = i + 1;
        }
        assert(!has_name(self@, name@)) by {
            if has_name(self@, name@) {
                let k = index_of(self@, name@);
                assert(self@[k].0 == name@);
            }
        }
        None
    }

    /// Whether every name appears once.
    pub fn has_unique_names(&self) -> (r: bool)
        ensures
            r == self.wf(),
    {
        let n = self.entries.len();
        let mut i: usize = 0;
        while i < n
            invariant
                n == self@.len(),
                i <= n,
                forall|a: int, b: int| 0 <= a < i && 0 <= b < n && a != b ==> #[trigger] self@[a].0 != #[trigger] self@[b].0,
            decreases n - i,
        {
            let mut j: usize = 0;
            while j < n
                invariant
                    n == self@.len(),
                    i < n,
                    j <= n,
                    forall|b: int| 0 <= b < j && b != i ==> self@[i as int].0 != #[trigger] self@[b].0,
                decreases n - j,
            {
                if j != i && self.entries[i].0 == self.entries[j].0 {
                    assert(self@[i as int].0 == self@[j as int].0);
                    return false;
                }
                j = j + 1;
            }
            i = i + 1;
        }
        true
    }

    /// Sets the entry `name` to `amount`: an existing entry keeps its place,
    /// a new one goes last.
    pub fn insert(self, name: &str, amount: Amount) -> (r: Accounts)
        requires
            self.wf(),
        ensures
            r.wf(),
            r@ == put(self@, name@, amount@),
    {
        let key = name.to_owned();
        let ghost before = self@;
        proof {
            lemma_put(before, name@, amount@);
        }
        let pos = self.position(&key);
        let mut entries = self.entries;
        match pos {
            Some(i) => {
                entries.set(i, (key, amount));
                let r = Accounts { entries };
                assert(r@ =~= put(before, name@, amount@));
                r
            },
            None => {
                entries.push((key, amount));
                let r = Accounts { entries };
                assert(r@ =~= put(before, name@, amount@));
                r
            },
        }
    }

    /// The amount held under `name`, if there is such an entry.
    pub fn amount_for(&self, name: &str) -> (r: Option<Amount>)
        requires
            self.wf(),
        ensures
            r is None <==> !has_name(self@, name@),
            r matches Some(a) ==> a@ == amount_of(self@, name@),
    {
        let key = name.to_owned();
        match self.position(&key) {
            Some(i) => Some(self.entries[i].1),
            None => None,
        }
    }

    /// The names, in order.
    pub fn names(&self) -> (r: Vec<String>)
        ensures
            r@.len() == self@.len(),
            forall|i: int| 0 <= i < r@.len() ==> #[trigger] r@[i]@ == self@[i].0,
    {
        let mut r: Vec<String> = Vec::new();
        let mut i: usize = 0;
        while i < self.entries.len()
            invariant
                i <= self.entries@.len(),
                r@.len() == i,
                forall|j: int| 0 <= j < i ==> #[trigger] r@[j]@ == self@[j].0,
            decreases self.entries@.len() - i,
        {
            r.push(self.entries[i].0.clone());
            i = i + 1;
        }
        r
    }

    /// The sum of all entries.
    pub fn total(&self) -> (r: Amount)
        requires
            i64::MIN <= sum(self@) <= i64::MAX,
        ensures
            r@ == sum(self@),
    {
        let mut acc: i128 = 0;
        let mut i: usize = 0;
        let n = self.entries.len();
        while i < n
            invariant
                i <= self.entries@.len(),
                acc == sum(self@.subrange(0, i as int)),
                -0x8000_0000_0000_0000 * i <= acc <= 0x7fff_ffff_ffff_ffff * i,
                n == self.entries@.len(),
            decreases self.entries@.len() - i,
        {
            assert(self@.subrange(0, i + 1).drop_last() =~= self@.subrange(0, i as int));
            acc = acc + self.entries[i].1.0 as i128;
            i = i + 1;
        }
        assert(self@.subrange(0, i as int) =~= self@);
        Amount(acc as i64)
    }

    /// Moves `amount` from the entry `from` to the entry `to`, which is
    /// created at zero where it is absent. The sum of all entries is kept.
    pub fn transfer(&mut self, amount: Amount, from: &str, to: &str)
        requires
            old(self).wf(),
            has_name(old(self)@, from@),
            i64::MIN <= amount_of(old(self)@, from@) - amount@ <= i64::MAX,
            i64::MIN <= amount_of(credit(old(self)@, from@, -amount@), to@) + amount@ <= i64::MAX,
        ensures
            final(self).wf(),
            final(self)@ == moved(old(self)@, amount@, from@, to@),
    {
        let ghost s0 = self@;
        proof {
            lemma_credit(s0, from@, -amount@);
            lemma_credit(credit(s0, from@, -amount@), to@, amount@);
        }
        let from_key = from.to_owned();
        let i = match self.position(&from_key) {
            Some(i) => i,
            None => { return; },
        };
        let lowered = Amount(self.entries[i].1.0 - amount.0);
        self.entries.set(i, (from_key, lowered));
        assert(self@ =~= credit(s0, from@, -amount@));
        let to_key = to.to_owned();
        match self.position(&to_key) {
            Some(j) => {
                let raised = Amount(self.entries[j].1.0 + amount.0);
                self.entries.set(j, (to_key, raised));
            },
            None => {
                self.entries.push((to_key, amount));
            },
        }
        assert(self@ =~= moved(s0, amount@, from@, to@));
    }
}

} // verus!
