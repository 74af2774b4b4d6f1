//! The commands the program understands, as plain values.

pub mod contacts;
pub mod money;

use vstd::prelude::*;

verus! {

/// The parsed command line.
#[derive(Clone, Debug)]
pub struct Args {
    pub command: Command,
}

#[derive(Clone, Debug)]
pub enum Command {
    /// Create a configuration file with default values
    Init,
    /// Manage contacts
    Contacts(contacts::Command),
    /// Manage money
    Money(money::Command),
}

} // verus!
