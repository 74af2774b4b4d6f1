use vstd::prelude::*;

verus! {

#[derive(Clone, Debug)]
pub enum Command {
    /// Create a new contact
    Create(Create),
    /// List contacts. By default, only contacts where communication is due
    /// are listed.
    List(List),
}

#[derive(Clone, Debug)]
pub struct Create {
    /// The name of the new contact
    pub name: String,
    /// The directory where the contact will be created; where absent, the one
    /// from the configuration file.
    pub path: Option<String>,
}

#[derive(Clone, Debug)]
pub struct List {
    /// List all contacts, not just those where communication is due.
    pub all: bool,
}

} // verus!
