use vstd::prelude::*;

use crate::transactions::Date;

verus! {

/// A link to a contact's website or other online profile
#[derive(Clone, Debug)]
pub struct Link {
    /// The link itself
    pub value: String,
    /// Notes on this link
    pub notes: Vec<String>,
}

/// An organization that a contact is part of
#[derive(Clone, Debug)]
pub struct Organization {
    /// The name of the organization
    pub name: String,
    /// The contact's role in the organization
    pub role: Option<String>,
}

/// An address (or equivalent concept) related to a means of communication
///
/// Could be an email address, street address, phone number, etc.
#[derive(Clone, Debug)]
pub struct Address {
    /// The address itself
    pub value: String,
    /// Notes on this address
    pub notes: Vec<String>,
}

impl Default for Address {
    fn default() -> (r: Address)
        ensures
            r.value@.len() == 0,
            r.notes@.len() == 0,
    {
        Address { value: String::new(), notes: Vec::new() }
    }
}

/// The dates of interaction last and next with the contact
#[derive(Clone, Debug)]
pub struct Communication {
    /// The latest communication with the contact
    pub latest: Option<LatestCommunication>,
    pub planned: Vec<PlannedCommunication>,
}

/// The latest communication with a contact
#[derive(Clone, Debug)]
pub struct LatestCommunication {
    /// The last communication to the contact
    pub to: Option<Date>,
    /// The latest communication from the contact
    pub from: Option<Date>,
}

/// A planned communication with a contact
#[derive(Clone, Debug)]
pub struct PlannedCommunication {
    /// The date of the planned communication
    pub date: Date,
    /// Notes about the planned communication
    pub notes: Vec<String>,
}

impl Communication {
    /// The earliest planned date, if any communication is planned.
    pub fn next_planned(&self) -> (r: Option<Date>)
        ensures
            r is None <==> self.planned@.len() == 0,
            r matches Some(d) ==> {
                &&& exists|i: int| 0 <= i < self.planned@.len() && #[trigger] self.planned@[i].date == d
                &&& forall|i: int| 0 <= i < self.planned@.len() ==> d.before_or_at(&(#[trigger] self.planned@[i]).date)
            },
    {
        let mut next_planned: Option<Date> = None;
        let mut i: usize = 0;
        while i < self.planned.len()
            invariant
                i <= self.planned@.len(),
                next_planned is None <==> i == 0,
                next_planned matches Some(d) ==> {
                    &&& exists|k: int| 0 <= k < i && #[trigger] self.planned@[k].date == d
                    &&& forall|k: int| 0 <= k < i ==> d.before_or_at(&(#[trigger] self.planned@[k]).date)
                },
            decreases self.planned@.len() - i,
        {
            let date = self.planned[i].date;
            match next_planned {
                Some(d) => {
                    if !d.is_before_or_at(&date) {
                        next_planned = Some(date);
                    }
                },
                None => {
                    next_planned = Some(date);
                },
            }
            i = i + 1;
        }
        next_planned
    }

    /// Whether a planned communication falls on `today` or earlier.
    pub fn is_due(&self, today: &Date) -> (r: bool)
        ensures
            r == exists|i: int| 0 <= i < self.planned@.len() && (#[trigger] self.planned@[i]).date.before_or_at(today),
    {
        match self.next_planned() {
            Some(d) => {
                let due = d.is_before_or_at(today);
                if !due {
                    assert forall|i: int| 0 <= i < self.planned@.len() implies !(#[trigger] self.planned@[i]).date.before_or_at(today) by {
                        assert(d.before_or_at(&self.planned@[i].date));
                    }
                }
                due
            },
            None => false,
        }
    }
}

} // verus!
