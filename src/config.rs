use vstd::prelude::*;

verus! {

/// Where the program keeps its data.
#[derive(Clone, Debug)]
pub struct Config {
    /// The directory that holds one file per contact.
    pub contacts: String,
}

impl Default for Config {
    fn default() -> (r: Config)
        ensures
            r.contacts@ == "contacts"@,
    {
        Config { contacts: String::from_str("contacts") }
    }
}

/// A target budget and how much it should receive per month, in minor units.
#[derive(Clone, Debug)]
pub struct Budget {
    pub name: String,
    pub monthly: i64,
}

/// The budget configuration: the entry that holds unassigned money, and the
/// targets in priority order.
#[derive(Clone, Debug)]
pub struct Budgets {
    pub unallocated: String,
    pub targets: Vec<Budget>,
}

impl Budgets {
    /// The target names, in order.
    pub open spec fn names(&self) -> Seq<Seq<char>> {
        Seq::new(self.targets@.len(), |k: int| self.targets@[k].name@)
    }

    /// The monthly rates, in order.
    pub open spec fn rates(&self) -> Seq<int> {
        Seq::new(self.targets@.len(), |k: int| self.targets@[k].monthly as int)
    }
}

} // verus!
